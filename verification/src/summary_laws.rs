//! What the bundled standard-library summaries say, by the kind of method:
//! removing an element shortens the receiver by one, adding one lengthens
//! it, reading leaves it, clearing empties it; ordered collections pay a
//! logarithmic cost, hash tables and sequences a constant one.
use vstd::prelude::*;
use crate::ir::AccessKind;
use crate::summary::{std_count, std_db, std_entry, std_prefix, std_row, std_shaped, ResourceSummary, StdRow, SummaryDb};
use crate::text::texts;

verus! {

/// A method that takes one element out of a collection.
pub open spec fn removes_one(m: Seq<char>) -> bool {
    m == "pop"@ || m == "pop_front"@ || m == "pop_back"@ || m == "remove"@ || m == "swap_remove"@
}

/// A method that puts one element into a collection.
pub open spec fn adds_one(m: Seq<char>) -> bool {
    m == "push"@ || m == "push_back"@ || m == "push_front"@ || m == "insert"@
}

/// A method that looks an element up.
pub open spec fn looks_up(m: Seq<char>) -> bool {
    m == "get"@ || m == "contains"@ || m == "contains_key"@
}

/// A method that reads the collection and changes nothing.
pub open spec fn only_reads(m: Seq<char>) -> bool {
    looks_up(m) || m == "len"@ || m == "is_empty"@ || m == "peek"@
}

/// A collection kept in order: a search tree or a heap.
pub open spec fn ordered_collection(t: Seq<char>) -> bool {
    t == "BTreeMap"@ || t == "BTreeSet"@ || t == "BinaryHeap"@
}

/// A method that moves the elements after an index: `Vec::insert` and `Vec::remove`.
pub open spec fn shifts_tail(t: Seq<char>, m: Seq<char>) -> bool {
    t == "Vec"@ && (m == "insert"@ || m == "remove"@)
}

/// The laws a bundled summary, given by value, keeps.
pub open spec fn row_laws(r: StdRow) -> bool {
    let (t, m, cost, amortized, effect, access) = (r.0, r.1, r.2, r.3, r.4, r.5);
    &&& removes_one(m) ==> effect == Some("len(receiver) -= 1"@) && access == AccessKind::MutBorrow
    &&& adds_one(m) ==> access == AccessKind::MutBorrow && effect == Some(
        if t == "String"@ {
            "bytes(receiver) += 1"@
        } else {
            "len(receiver) += 1"@
        },
    )
    &&& only_reads(m) ==> effect is None && access == AccessKind::SharedBorrow
    &&& m == "clear"@ ==> effect == Some("len(receiver) := 0"@) && cost == "len(receiver)"@ && amortized is None
        && access == AccessKind::MutBorrow
    &&& m != "clear"@ ==> amortized == Some(cost)
    &&& (m == "len"@ || m == "is_empty"@ || m == "peek"@) ==> cost == "1"@
    &&& (adds_one(m) || removes_one(m) || looks_up(m)) ==> cost == if ordered_collection(t) {
        "logn"@
    } else if shifts_tail(t, m) {
        "n"@
    } else {
        "1"@
    }
}

/// The lengths of the method and type names of the bundled summaries.
proof fn lemma_name_lengths()
    ensures
        "pop"@.len() == 3,
        "pop_front"@.len() == 9,
        "pop_back"@.len() == 8,
        "remove"@.len() == 6,
        "swap_remove"@.len() == 11,
        "push"@.len() == 4,
        "push_back"@.len() == 9,
        "push_front"@.len() == 10,
        "insert"@.len() == 6,
        "get"@.len() == 3,
        "contains"@.len() == 8,
        "contains_key"@.len() == 12,
        "len"@.len() == 3,
        "is_empty"@.len() == 8,
        "peek"@.len() == 4,
        "clear"@.len() == 5,
        "push_str"@.len() == 8,
        "truncate"@.len() == 8,
        "reserve"@.len() == 7,
        "Vec"@.len() == 3,
        "VecDeque"@.len() == 8,
        "String"@.len() == 6,
        "HashMap"@.len() == 7,
        "HashSet"@.len() == 7,
        "LinkedList"@.len() == 10,
        "BTreeMap"@.len() == 8,
        "BTreeSet"@.len() == 8,
        "BinaryHeap"@.len() == 10,
{
    reveal_strlit("pop");
    reveal_strlit("pop_front");
    reveal_strlit("pop_back");
    reveal_strlit("remove");
    reveal_strlit("swap_remove");
    reveal_strlit("push");
    reveal_strlit("push_back");
    reveal_strlit("push_front");
    reveal_strlit("insert");
    reveal_strlit("get");
    reveal_strlit("contains");
    reveal_strlit("contains_key");
    reveal_strlit("len");
    reveal_strlit("is_empty");
    reveal_strlit("peek");
    reveal_strlit("clear");
    reveal_strlit("push_str");
    reveal_strlit("truncate");
    reveal_strlit("reserve");
    reveal_strlit("Vec");
    reveal_strlit("VecDeque");
    reveal_strlit("String");
    reveal_strlit("HashMap");
    reveal_strlit("HashSet");
    reveal_strlit("LinkedList");
    reveal_strlit("BTreeMap");
    reveal_strlit("BTreeSet");
    reveal_strlit("BinaryHeap");
}

/// The method and type names of the bundled summaries are distinct texts.
proof fn lemma_names_distinct()
    ensures
        "pop"@ != "get"@, "pop"@ != "len"@, "get"@ != "len"@,
        "push"@ != "peek"@,
        "remove"@ != "insert"@,
        "pop_back"@ != "is_empty"@, "pop_back"@ != "push_str"@, "pop_back"@ != "truncate"@,
        "pop_back"@ != "contains"@, "is_empty"@ != "push_str"@, "is_empty"@ != "truncate"@,
        "is_empty"@ != "contains"@, "push_str"@ != "truncate"@, "push_str"@ != "contains"@,
        "truncate"@ != "contains"@,
        "pop_front"@ != "push_back"@,
        "HashMap"@ != "HashSet"@,
        "VecDeque"@ != "BTreeMap"@, "VecDeque"@ != "BTreeSet"@, "BTreeMap"@ != "BTreeSet"@,
        "LinkedList"@ != "BinaryHeap"@,
{
    reveal_strlit("pop");
    reveal_strlit("get");
    reveal_strlit("len");
    reveal_strlit("push");
    reveal_strlit("peek");
    reveal_strlit("remove");
    reveal_strlit("insert");
    reveal_strlit("pop_back");
    reveal_strlit("is_empty");
    reveal_strlit("push_str");
    reveal_strlit("truncate");
    reveal_strlit("contains");
    reveal_strlit("pop_front");
    reveal_strlit("push_back");
    reveal_strlit("HashMap");
    reveal_strlit("HashSet");
    reveal_strlit("VecDeque");
    reveal_strlit("BTreeMap");
    reveal_strlit("BTreeSet");
    reveal_strlit("LinkedList");
    reveal_strlit("BinaryHeap");
    assert("pop"@[0] != "get"@[0]);
    assert("pop"@[0] != "len"@[0]);
    assert("get"@[0] != "len"@[0]);
    assert("push"@[1] != "peek"@[1]);
    assert("remove"@[0] != "insert"@[0]);
    assert("pop_back"@[0] != "is_empty"@[0]);
    assert("pop_back"@[1] != "push_str"@[1]);
    assert("pop_back"@[0] != "truncate"@[0]);
    assert("pop_back"@[0] != "contains"@[0]);
    assert("is_empty"@[0] != "push_str"@[0]);
    assert("is_empty"@[0] != "truncate"@[0]);
    assert("is_empty"@[0] != "contains"@[0]);
    assert("push_str"@[0] != "truncate"@[0]);
    assert("push_str"@[0] != "contains"@[0]);
    assert("truncate"@[0] != "contains"@[0]);
    assert("pop_front"@[1] != "push_back"@[1]);
    assert("HashMap"@[4] != "HashSet"@[4]);
    assert("VecDeque"@[0] != "BTreeMap"@[0]);
    assert("VecDeque"@[0] != "BTreeSet"@[0]);
    assert("BTreeMap"@[5] != "BTreeSet"@[5]);
    assert("LinkedList"@[0] != "BinaryHeap"@[0]);
}

/// Every bundled summary, by value, keeps the laws.
#[verifier::rlimit(100)]
#[verifier::spinoff_prover]
proof fn lemma_rows_keep_laws(i: int)
    requires
        0 <= i < std_count(),
    ensures
        row_laws(std_entry(i)),
{
    lemma_names_distinct();
    lemma_name_lengths();
    reveal(std_entry);
    if i == 0 {
        assert(row_laws(std_entry(0)));
    } else if i == 1 {
        assert(row_laws(std_entry(1)));
    } else if i == 2 {
        assert(row_laws(std_entry(2)));
    } else if i == 3 {
        assert(row_laws(std_entry(3)));
    } else if i == 4 {
        assert(row_laws(std_entry(4)));
    } else if i == 5 {
        assert(row_laws(std_entry(5)));
    } else if i == 6 {
        assert(row_laws(std_entry(6)));
    } else if i == 7 {
        assert(row_laws(std_entry(7)));
    } else if i == 8 {
        assert(row_laws(std_entry(8)));
    } else if i == 9 {
        assert(row_laws(std_entry(9)));
    } else if i == 10 {
        assert(row_laws(std_entry(10)));
    } else if i == 11 {
        assert(row_laws(std_entry(11)));
    } else if i == 12 {
        assert(row_laws(std_entry(12)));
    } else if i == 13 {
        assert(row_laws(std_entry(13)));
    } else if i == 14 {
        assert(row_laws(std_entry(14)));
    } else if i == 15 {
        assert(row_laws(std_entry(15)));
    } else if i == 16 {
        assert(row_laws(std_entry(16)));
    } else if i == 17 {
        assert(row_laws(std_entry(17)));
    } else if i == 18 {
        assert(row_laws(std_entry(18)));
    } else if i == 19 {
        assert(row_laws(std_entry(19)));
    } else if i == 20 {
        assert(row_laws(std_entry(20)));
    } else if i == 21 {
        assert(row_laws(std_entry(21)));
    } else if i == 22 {
        assert(row_laws(std_entry(22)));
    } else if i == 23 {
        assert(row_laws(std_entry(23)));
    } else if i == 24 {
        assert(row_laws(std_entry(24)));
    } else if i == 25 {
        assert(row_laws(std_entry(25)));
    } else if i == 26 {
        assert(row_laws(std_entry(26)));
    } else if i == 27 {
        assert(row_laws(std_entry(27)));
    } else if i == 28 {
        assert(row_laws(std_entry(28)));
    } else if i == 29 {
        assert(row_laws(std_entry(29)));
    } else if i == 30 {
        assert(row_laws(std_entry(30)));
    } else if i == 31 {
        assert(row_laws(std_entry(31)));
    } else if i == 32 {
        assert(row_laws(std_entry(32)));
    } else if i == 33 {
        assert(row_laws(std_entry(33)));
    } else if i == 34 {
        assert(row_laws(std_entry(34)));
    } else if i == 35 {
        assert(row_laws(std_entry(35)));
    } else if i == 36 {
        assert(row_laws(std_entry(36)));
    } else if i == 37 {
        assert(row_laws(std_entry(37)));
    } else if i == 38 {
        assert(row_laws(std_entry(38)));
    } else if i == 39 {
        assert(row_laws(std_entry(39)));
    } else if i == 40 {
        assert(row_laws(std_entry(40)));
    } else if i == 41 {
        assert(row_laws(std_entry(41)));
    } else if i == 42 {
        assert(row_laws(std_entry(42)));
    } else if i == 43 {
        assert(row_laws(std_entry(43)));
    } else if i == 44 {
        assert(row_laws(std_entry(44)));
    } else if i == 45 {
        assert(row_laws(std_entry(45)));
    } else if i == 46 {
        assert(row_laws(std_entry(46)));
    }
}

/// The laws of a summary, over its fields: a method that removes one
/// element shortens the receiver by one, one that adds an element lengthens
/// it by one (a `String` by one byte), one that only reads changes nothing
/// and borrows shared, `clear` empties it at a cost linear in its length;
/// every other cost is also the amortized one; adding, removing and looking
/// up cost `logn` in an ordered collection, `n` where the tail shifts and
/// `1` otherwise; reading the length, emptiness or top costs `1`.
pub open spec fn summary_laws(s: ResourceSummary) -> bool {
    let t = match s.type_contains {
        Some(t) => t@,
        None => Seq::empty(),
    };
    let m = s.method@;
    let effects = texts(s.effects@);
    &&& removes_one(m) ==> effects == seq!["len(receiver) -= 1"@] && s.required_access == Some(AccessKind::MutBorrow)
    &&& adds_one(m) ==> s.required_access == Some(AccessKind::MutBorrow) && effects == seq![
        if t == "String"@ {
            "bytes(receiver) += 1"@
        } else {
            "len(receiver) += 1"@
        },
    ]
    &&& only_reads(m) ==> effects.len() == 0 && s.required_access == Some(AccessKind::SharedBorrow)
    &&& m == "clear"@ ==> effects == seq!["len(receiver) := 0"@] && s.cost@ == "len(receiver)"@
        && s.amortized_cost is None && s.required_access == Some(AccessKind::MutBorrow)
    &&& m != "clear"@ ==> (s.amortized_cost matches Some(a) && a@ == s.cost@)
    &&& (m == "len"@ || m == "is_empty"@ || m == "peek"@) ==> s.cost@ == "1"@
    &&& (adds_one(m) || removes_one(m) || looks_up(m)) ==> s.cost@ == if ordered_collection(t) {
        "logn"@
    } else if shifts_tail(t, m) {
        "n"@
    } else {
        "1"@
    }
}

proof fn lemma_summary_from_row(s: ResourceSummary)
    requires
        std_shaped(s),
        row_laws(std_row(s)),
    ensures
        summary_laws(s),
{
    let effects = texts(s.effects@);
    if s.effects@.len() == 1 {
        assert(effects =~= seq![s.effects@[0]@]);
    } else {
        assert(effects.len() == 0);
    }
}

/// The bundled standard-library summaries follow their methods: each keeps
/// `summary_laws`. So, whatever the collection, `pop`, `pop_front`,
/// `pop_back`, `remove` and `swap_remove` shorten the receiver by one, and
/// `push`, `push_back`, `push_front` and `insert` lengthen it by one.
pub proof fn lemma_bundled_summaries_follow_methods(db: SummaryDb)
    requires
        std_db(db),
    ensures
        forall|i: int| 0 <= i < db.summaries@.len() ==> summary_laws(#[trigger] db.summaries@[i]),
{
    assert forall|i: int| 0 <= i < db.summaries@.len() implies summary_laws(#[trigger] db.summaries@[i]) by {
        assert(std_prefix(db.summaries@));
        assert(std_shaped(db.summaries@[i]) && std_row(db.summaries@[i]) == std_entry(i));
        lemma_rows_keep_laws(i);
        lemma_summary_from_row(db.summaries@[i]);
    }
}

} // verus!
