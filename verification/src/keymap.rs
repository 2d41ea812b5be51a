//! Ordered maps keyed by texts or paths of texts, kept as a sorted vector.
//!
//! The order is the order of the keys' texts (lexicographic, element by
//! element), which is the order an ordered map of strings walks in.
use vstd::prelude::*;
use crate::text::{
    compare_text, lemma_seq_lt_asym, lemma_seq_lt_irrefl, lemma_seq_lt_total, lemma_seq_lt_trans, seq_lt,
    texts, TextOrder,
};

verus! {

/// Lexicographic order on sequences of texts.
pub open spec fn path_lt(a: Seq<Seq<char>>, b: Seq<Seq<char>>) -> bool
    decreases a.len(),
{
    if a.len() == 0 {
        b.len() > 0
    } else if b.len() == 0 {
        false
    } else if a[0] == b[0] {
        path_lt(a.drop_first(), b.drop_first())
    } else {
        seq_lt(a[0], b[0])
    }
}

pub proof fn lemma_path_lt_irrefl(a: Seq<Seq<char>>)
    ensures
        !path_lt(a, a),
    decreases a.len(),
{
    if a.len() > 0 {
        lemma_path_lt_irrefl(a.drop_first());
    }
}

pub proof fn lemma_path_lt_trans(a: Seq<Seq<char>>, b: Seq<Seq<char>>, c: Seq<Seq<char>>)
    requires
        path_lt(a, b),
        path_lt(b, c),
    ensures
        path_lt(a, c),
    decreases a.len(),
{
    if a.len() > 0 && b.len() > 0 && c.len() > 0 {
        if a[0] == b[0] && b[0] == c[0] {
            lemma_path_lt_trans(a.drop_first(), b.drop_first(), c.drop_first());
        } else if a[0] == b[0] {
        } else if b[0] == c[0] {
        } else {
            lemma_seq_lt_trans(a[0], b[0], c[0]);
            if a[0] == c[0] {
                lemma_seq_lt_asym(a[0], b[0]);
            }
        }
    }
}

pub proof fn lemma_path_lt_total(a: Seq<Seq<char>>, b: Seq<Seq<char>>)
    ensures
        path_lt(a, b) || path_lt(b, a) || a == b,
    decreases a.len(),
{
    if a.len() > 0 && b.len() > 0 {
        if a[0] == b[0] {
            lemma_path_lt_total(a.drop_first(), b.drop_first());
            if a.drop_first() == b.drop_first() {
                assert(a =~= seq![a[0]] + a.drop_first());
                assert(b =~= seq![b[0]] + b.drop_first());
            }
        } else {
            lemma_seq_lt_total(a[0], b[0]);
        }
    } else if a.len() == 0 && b.len() == 0 {
        assert(a =~= b);
    }
}

pub proof fn lemma_path_lt_asym(a: Seq<Seq<char>>, b: Seq<Seq<char>>)
    requires
        path_lt(a, b),
    ensures
        !path_lt(b, a),
{
    if path_lt(b, a) {
        lemma_path_lt_trans(a, b, a);
        lemma_path_lt_irrefl(a);
    }
}

/// The order of two one-text keys is the order of their texts.
pub proof fn lemma_path_lt_single(a: Seq<char>, b: Seq<char>)
    ensures
        path_lt(seq![a], seq![b]) == seq_lt(a, b),
{
    let sa = seq![a];
    let sb = seq![b];
    assert(sa[0] == a);
    assert(sb[0] == b);
    if a == b {
        lemma_seq_lt_irrefl(a);
        assert(sa.drop_first() =~= Seq::<Seq<char>>::empty());
        assert(sb.drop_first() =~= Seq::<Seq<char>>::empty());
        assert(!path_lt(Seq::<Seq<char>>::empty(), Seq::<Seq<char>>::empty()));
        assert(!path_lt(sa, sb));
    }
}

/// Lexicographic three-way comparison of two vectors of strings.
pub fn compare_texts(a: &Vec<String>, b: &Vec<String>) -> (r: TextOrder)
    ensures
        r == TextOrder::Less <==> path_lt(texts(a@), texts(b@)),
        r == TextOrder::Equal <==> texts(a@) == texts(b@),
        r == TextOrder::Greater <==> path_lt(texts(b@), texts(a@)),
{
    let ghost ta = texts(a@);
    let ghost tb = texts(b@);
    let mut i: usize = 0;
    assert(ta.skip(0) =~= ta);
    assert(tb.skip(0) =~= tb);
    while i < a.len() && i < b.len()
        invariant
            ta == texts(a@),
            tb == texts(b@),
            i <= a.len(),
            i <= b.len(),
            ta.take(i as int) == tb.take(i as int),
            path_lt(ta, tb) == path_lt(ta.skip(i as int), tb.skip(i as int)),
            path_lt(tb, ta) == path_lt(tb.skip(i as int), ta.skip(i as int)),
        decreases a.len() - i,
    {
        let o = compare_text(a[i].as_str(), b[i].as_str());
        proof {
            assert(ta.skip(i as int)[0] == a@[i as int]@);
            assert(tb.skip(i as int)[0] == b@[i as int]@);
        }
        match o {
            TextOrder::Less => {
                proof {
                    lemma_seq_lt_asym(a@[i as int]@, b@[i as int]@);
                    if ta == tb {
                        assert(ta[i as int] == tb[i as int]);
                        lemma_seq_lt_irrefl(a@[i as int]@);
                    }
                }
                return TextOrder::Less;
            },
            TextOrder::Greater => {
                proof {
                    lemma_seq_lt_asym(b@[i as int]@, a@[i as int]@);
                    if ta == tb {
                        assert(ta[i as int] == tb[i as int]);
                        lemma_seq_lt_irrefl(a@[i as int]@);
                    }
                }
                return TextOrder::Greater;
            },
            TextOrder::Equal => {
                proof {
                    assert(ta.skip(i as int).drop_first() =~= ta.skip(i + 1));
                    assert(tb.skip(i as int).drop_first() =~= tb.skip(i + 1));
                    assert(ta.take(i + 1) =~= ta.take(i as int).push(ta[i as int]));
                    assert(tb.take(i + 1) =~= tb.take(i as int).push(tb[i as int]));
                }
            },
        }
        i = i + 1;
    }
    proof {
        lemma_path_lt_irrefl(ta);
    }
    if a.len() == b.len() {
        assert(ta =~= ta.take(i as int));
        assert(tb =~= tb.take(i as int));
        TextOrder::Equal
    } else if a.len() < b.len() {
        assert(ta.skip(i as int).len() == 0);
        proof {
            if ta == tb {
                assert(ta.len() == tb.len());
            }
        }
        TextOrder::Less
    } else {
        assert(tb.skip(i as int).len() == 0);
        proof {
            if ta == tb {
                assert(ta.len() == tb.len());
            }
        }
        TextOrder::Greater
    }
}

/// A key of an ordered map: it reads as a sequence of texts, and the map
/// keeps its entries in the order of those sequences.
pub trait TextKey: Sized {
    spec fn key_view(&self) -> Seq<Seq<char>>;

    fn key_order(&self, other: &Self) -> (r: TextOrder)
        ensures
            r == TextOrder::Less <==> path_lt(self.key_view(), other.key_view()),
            r == TextOrder::Equal <==> self.key_view() == other.key_view(),
            r == TextOrder::Greater <==> path_lt(other.key_view(), self.key_view()),
    ;

    fn key_copy(&self) -> (r: Self)
        ensures
            r.key_view() == self.key_view(),
    ;
}

impl TextKey for String {
    open spec fn key_view(&self) -> Seq<Seq<char>> {
        seq![self@]
    }

    fn key_order(&self, other: &Self) -> (r: TextOrder) {
        proof {
            lemma_path_lt_single(self@, other@);
            lemma_path_lt_single(other@, self@);
            if seq![self@] == seq![other@] {
                assert(seq![self@][0] == seq![other@][0]);
            }
        }
        compare_text(self.as_str(), other.as_str())
    }

    fn key_copy(&self) -> (r: Self) {
        self.clone()
    }
}

/// Entries sorted strictly by their keys.
pub open spec fn sorted_entries<K: TextKey, V>(s: Seq<(K, V)>) -> bool {
    forall|i: int, j: int|
        0 <= i < j < s.len() ==> path_lt(#[trigger] s[i].0.key_view(), #[trigger] s[j].0.key_view())
}

pub open spec fn entries_have_key<K: TextKey, V>(es: Seq<(K, V)>, k: Seq<Seq<char>>) -> bool {
    exists|i: int| 0 <= i < es.len() && #[trigger] es[i].0.key_view() == k
}

pub open spec fn entries_index_of<K: TextKey, V>(es: Seq<(K, V)>, k: Seq<Seq<char>>) -> int {
    choose|i: int| 0 <= i < es.len() && #[trigger] es[i].0.key_view() == k
}

/// The map a list of entries describes.
pub open spec fn entries_map<K: TextKey, V>(es: Seq<(K, V)>) -> Map<Seq<Seq<char>>, V> {
    Map::new(|k: Seq<Seq<char>>| entries_have_key(es, k), |k: Seq<Seq<char>>| es[entries_index_of(es, k)].1)
}

/// Two entry lists with the same keys and values, position by position.
pub open spec fn same_entries<K: TextKey, V>(a: Seq<(K, V)>, b: Seq<(K, V)>) -> bool {
    &&& a.len() == b.len()
    &&& forall|i: int| 0 <= i < a.len() ==> #[trigger] a[i].0.key_view() == b[i].0.key_view() && a[i].1 == b[i].1
}

/// Entry lists with the same keys, position by position (values may differ).
pub open spec fn same_keys<K: TextKey, V, W>(a: Seq<(K, V)>, b: Seq<(K, W)>) -> bool {
    &&& a.len() == b.len()
    &&& forall|i: int| 0 <= i < a.len() ==> #[trigger] a[i].0.key_view() == b[i].0.key_view()
}

/// With the same keys in the same places, a key is found at the same position.
pub proof fn lemma_same_keys<K: TextKey, V, W>(a: Seq<(K, V)>, b: Seq<(K, W)>)
    requires
        same_keys(a, b),
        sorted_entries(a),
    ensures
        sorted_entries(b),
        forall|k: Seq<Seq<char>>| #[trigger] entries_have_key(a, k) == entries_have_key(b, k),
        forall|k: Seq<Seq<char>>| #[trigger] entries_have_key(a, k) ==> entries_index_of(a, k) == entries_index_of(b, k),
{
    assert forall|i: int, j: int| 0 <= i < j < b.len() implies path_lt(
        #[trigger] b[i].0.key_view(),
        #[trigger] b[j].0.key_view(),
    ) by {
        assert(path_lt(a[i].0.key_view(), a[j].0.key_view()));
    }
    assert forall|k: Seq<Seq<char>>| #[trigger] entries_have_key(a, k) == entries_have_key(b, k) by {
        if entries_have_key(a, k) {
            let i = choose|i: int| 0 <= i < a.len() && #[trigger] a[i].0.key_view() == k;
            assert(b[i].0.key_view() == k);
        }
        if entries_have_key(b, k) {
            let i = choose|i: int| 0 <= i < b.len() && #[trigger] b[i].0.key_view() == k;
            assert(a[i].0.key_view() == k);
        }
    }
    assert forall|k: Seq<Seq<char>>| #[trigger] entries_have_key(a, k) implies entries_index_of(a, k) == entries_index_of(b, k) by {
        let i = entries_index_of(a, k);
        let j = entries_index_of(b, k);
        assert(entries_have_key(b, k));
        assert(0 <= i < a.len() && a[i].0.key_view() == k);
        assert(0 <= j < b.len() && b[j].0.key_view() == k);
        lemma_path_lt_irrefl(k);
        if i < j {
            assert(path_lt(a[i].0.key_view(), a[j].0.key_view()));
        }
        if j < i {
            assert(path_lt(a[j].0.key_view(), a[i].0.key_view()));
        }
    }
}

pub proof fn lemma_same_entries_map<K: TextKey, V>(a: Seq<(K, V)>, b: Seq<(K, V)>)
    requires
        same_entries(a, b),
        sorted_entries(a),
    ensures
        entries_map(a) == entries_map(b),
        sorted_entries(b),
{
    assert forall|i: int, j: int| 0 <= i < j < b.len() implies path_lt(
        #[trigger] b[i].0.key_view(),
        #[trigger] b[j].0.key_view(),
    ) by {
        assert(path_lt(a[i].0.key_view(), a[j].0.key_view()));
    }
    assert forall|k: Seq<Seq<char>>| #[trigger] entries_have_key(a, k) == entries_have_key(b, k) by {
        if entries_have_key(a, k) {
            let i = choose|i: int| 0 <= i < a.len() && #[trigger] a[i].0.key_view() == k;
            assert(b[i].0.key_view() == k);
        }
        if entries_have_key(b, k) {
            let i = choose|i: int| 0 <= i < b.len() && #[trigger] b[i].0.key_view() == k;
            assert(a[i].0.key_view() == k);
        }
    }
    assert(entries_map(a) =~= entries_map(b)) by {
        assert forall|k: Seq<Seq<char>>| #[trigger] entries_map(a).contains_key(k) implies entries_map(a)[k]
            == entries_map(b)[k] by {
            let i = entries_index_of(a, k);
            let j = entries_index_of(b, k);
            assert(entries_have_key(a, k));
            assert(entries_have_key(b, k));
            assert(0 <= i < a.len() && a[i].0.key_view() == k);
            assert(0 <= j < b.len() && b[j].0.key_view() == k);
            lemma_path_lt_irrefl(k);
            if i < j {
                assert(path_lt(b[i].0.key_view(), b[j].0.key_view()));
            }
            if j < i {
                assert(path_lt(b[j].0.key_view(), b[i].0.key_view()));
            }
        }
    }
}

/// In sorted entries, the entry found for a key is the one that holds it.
proof fn lemma_sorted_index<K: TextKey, V>(es: Seq<(K, V)>, i: int)
    requires
        sorted_entries(es),
        0 <= i < es.len(),
    ensures
        entries_have_key(es, es[i].0.key_view()),
        entries_index_of(es, es[i].0.key_view()) == i,
{
    let k = es[i].0.key_view();
    assert(entries_have_key(es, k));
    let j = entries_index_of(es, k);
    lemma_path_lt_irrefl(k);
    if j < i {
        assert(path_lt(es[j].0.key_view(), es[i].0.key_view()));
    }
    if i < j {
        assert(path_lt(es[i].0.key_view(), es[j].0.key_view()));
    }
}

/// Sorted entries without their first: the map loses exactly that key.
proof fn lemma_drop_first_map<K: TextKey, V>(es: Seq<(K, V)>)
    requires
        sorted_entries(es),
        es.len() > 0,
    ensures
        sorted_entries(es.drop_first()),
        entries_map(es.drop_first()) == entries_map(es).remove(es[0].0.key_view()),
{
    let t = es.drop_first();
    let k0 = es[0].0.key_view();
    assert forall|i: int, j: int| 0 <= i < j < t.len() implies path_lt(#[trigger] t[i].0.key_view(), #[trigger] t[j].0.key_view()) by {
        assert(t[i] == es[i + 1] && t[j] == es[j + 1]);
    }
    assert forall|k: Seq<Seq<char>>| #[trigger] entries_have_key(t, k) == (entries_have_key(es, k) && k != k0) by {
        if entries_have_key(t, k) {
            let i = choose|i: int| 0 <= i < t.len() && #[trigger] t[i].0.key_view() == k;
            assert(es[i + 1].0.key_view() == k);
            assert(path_lt(k0, es[i + 1].0.key_view()));
            lemma_path_lt_irrefl(k0);
        }
        if entries_have_key(es, k) && k != k0 {
            let i = choose|i: int| 0 <= i < es.len() && #[trigger] es[i].0.key_view() == k;
            assert(i != 0);
            assert(t[i - 1].0.key_view() == k);
        }
    }
    assert(entries_map(t) =~= entries_map(es).remove(k0)) by {
        assert forall|k: Seq<Seq<char>>| #[trigger] entries_map(t).contains_key(k) implies entries_map(t)[k]
            == entries_map(es)[k] by {
            let i = entries_index_of(t, k);
            assert(0 <= i < t.len() && t[i].0.key_view() == k);
            lemma_sorted_index(t, i);
            lemma_sorted_index(es, i + 1);
            assert(es[i + 1] == t[i]);
        }
    }
}

/// Sorted entries are determined by the map they describe.
pub proof fn lemma_sorted_entries_unique<K: TextKey, V>(a: Seq<(K, V)>, b: Seq<(K, V)>)
    requires
        sorted_entries(a),
        sorted_entries(b),
        entries_map(a) == entries_map(b),
    ensures
        same_entries(a, b),
    decreases a.len(),
{
    if a.len() == 0 {
        if b.len() > 0 {
            lemma_sorted_index(b, 0);
            assert(entries_map(b).contains_key(b[0].0.key_view()));
        }
    } else {
        lemma_sorted_index(a, 0);
        let k0 = a[0].0.key_view();
        assert(entries_map(a).contains_key(k0));
        assert(entries_map(b).contains_key(k0));
        assert(b.len() > 0);
        lemma_sorted_index(b, 0);
        let m0 = b[0].0.key_view();
        assert(entries_map(a).contains_key(m0));
        let i = entries_index_of(b, k0);
        let j = entries_index_of(a, m0);
        lemma_path_lt_irrefl(k0);
        if i > 0 {
            assert(path_lt(m0, k0));
            if j > 0 {
                assert(path_lt(k0, m0));
                lemma_path_lt_trans(k0, m0, k0);
            } else {
                assert(a[0].0.key_view() == m0);
            }
        }
        assert(i == 0);
        assert(m0 == k0);
        assert(a[0].1 == entries_map(a)[k0]);
        assert(b[0].1 == entries_map(b)[k0]);
        lemma_drop_first_map(a);
        lemma_drop_first_map(b);
        lemma_sorted_entries_unique(a.drop_first(), b.drop_first());
        assert forall|t: int| 0 <= t < a.len() implies #[trigger] a[t].0.key_view() == b[t].0.key_view() && a[t].1 == b[t].1 by {
            if t > 0 {
                assert(a.drop_first()[t - 1] == a[t]);
                assert(b.drop_first()[t - 1] == b[t]);
            }
        }
    }
}

/// An ordered map with keys compared as texts: its entries are kept in a
/// vector sorted by key, so that the order in which they are walked, and
/// what `==` compares, is stated and proved here, key by key. (A std
/// `BTreeMap` keyed by `String` offers little that can be proved about
/// either.)
#[derive(Debug, Clone, PartialEq, Eq)]
pub struct KeyMap<K: TextKey, V> {
    entries: Vec<(K, V)>,
}

impl<K: TextKey, V> KeyMap<K, V> {
    /// The entries, in increasing key order.
    pub closed spec fn entries(self) -> Seq<(K, V)> {
        self.entries@
    }

    /// Well-formed: the entries are sorted strictly by key.
    pub open spec fn wf(self) -> bool {
        sorted_entries(self.entries())
    }

    pub open spec fn key_at(self, i: int) -> Seq<Seq<char>> {
        self.entries()[i].0.key_view()
    }

    pub open spec fn has_key(self, k: Seq<Seq<char>>) -> bool {
        entries_have_key(self.entries(), k)
    }

    pub open spec fn index_of(self, k: Seq<Seq<char>>) -> int {
        entries_index_of(self.entries(), k)
    }

    /// The map the entries describe.
    pub open spec fn view(self) -> Map<Seq<Seq<char>>, V> {
        entries_map(self.entries())
    }

    /// In sorted entries, a key found at `i` is found only there.
    pub proof fn lemma_index_of(self, i: int)
        requires
            sorted_entries(self.entries()),
            0 <= i < self.entries().len(),
        ensures
            self.has_key(self.key_at(i)),
            self.index_of(self.key_at(i)) == i,
            self@.contains_key(self.key_at(i)),
            self@[self.key_at(i)] == self.entries()[i].1,
    {
        let k = self.key_at(i);
        assert(self.has_key(k));
        let j = self.index_of(k);
        if j < i {
            lemma_path_lt_irrefl(k);
            assert(path_lt(self.entries()[j].0.key_view(), self.entries()[i].0.key_view()));
        }
        if i < j {
            lemma_path_lt_irrefl(k);
            assert(path_lt(self.entries()[i].0.key_view(), self.entries()[j].0.key_view()));
        }
    }

    pub fn new() -> (r: Self)
        ensures
            r.wf(),
            r.entries() == Seq::<(K, V)>::empty(),
            r@ == Map::<Seq<Seq<char>>, V>::empty(),
    {
        let r = KeyMap { entries: Vec::new() };
        assert(r@ =~= Map::<Seq<Seq<char>>, V>::empty());
        r
    }

    pub fn len(&self) -> (n: usize)
        ensures
            n == self.entries().len(),
    {
        self.entries.len()
    }

    pub fn is_empty(&self) -> (b: bool)
        ensures
            b == (self.entries().len() == 0),
    {
        self.entries.len() == 0
    }

    /// Whether the entries are sorted strictly by key.
    pub fn is_sorted(&self) -> (r: bool)
        ensures
            r == self.wf(),
    {
        let n = self.entries.len();
        if n == 0 {
            return true;
        }
        let mut i: usize = 1;
        assert(sorted_entries(self.entries().take(1)));
        while i < n
            invariant
                n == self.entries().len(),
                1 <= i <= n,
                sorted_entries(self.entries().take(i as int)),
            decreases n - i,
        {
            match self.entries[i - 1].0.key_order(&self.entries[i].0) {
                TextOrder::Less => {},
                _ => {
                    proof {
                        if self.wf() {
                            assert(path_lt(self.entries()[i - 1].0.key_view(), self.entries()[i as int].0.key_view()));
                        }
                    }
                    return false;
                },
            }
            proof {
                let es = self.entries();
                let t = es.take(i + 1);
                assert forall|a: int, b: int| 0 <= a < b < t.len() implies path_lt(
                    #[trigger] t[a].0.key_view(),
                    #[trigger] t[b].0.key_view(),
                ) by {
                    let u = es.take(i as int);
                    if b < i {
                        assert(t[a] == u[a] && t[b] == u[b]);
                    } else if a < i - 1 {
                        assert(t[a] == u[a] && es[i - 1] == u[i - 1]);
                        assert(path_lt(u[a].0.key_view(), u[i - 1].0.key_view()));
                        lemma_path_lt_trans(es[a].0.key_view(), es[i - 1].0.key_view(), es[i as int].0.key_view());
                    }
                }
            }
            i = i + 1;
        }
        assert(self.entries().take(n as int) =~= self.entries());
        true
    }

    /// The entry at position `i` of the key order.
    pub fn entry(&self, i: usize) -> (r: &(K, V))
        requires
            i < self.entries().len(),
        ensures
            *r == self.entries()[i as int],
    {
        &self.entries[i]
    }

    /// Where `k` is (`Ok`) or would be inserted (`Err`).
    pub fn position(&self, k: &K) -> (r: Result<usize, usize>)
        requires
            self.wf(),
        ensures
            match r {
                Ok(i) => i < self.entries().len() && self.key_at(i as int) == k.key_view(),
                Err(p) => p <= self.entries().len() && (forall|j: int|
                    0 <= j < p ==> path_lt(#[trigger] self.key_at(j), k.key_view())) && (forall|j: int|
                    p <= j < self.entries().len() ==> path_lt(k.key_view(), #[trigger] self.key_at(j))),
            },
    {
        let mut i: usize = 0;
        while i < self.entries.len()
            invariant
                i <= self.entries().len(),
                self.wf(),
                forall|j: int| 0 <= j < i ==> path_lt(#[trigger] self.key_at(j), k.key_view()),
            decreases self.entries().len() - i,
        {
            match self.entries[i].0.key_order(k) {
                TextOrder::Less => {},
                TextOrder::Equal => {
                    return Ok(i);
                },
                TextOrder::Greater => {
                    proof {
                        assert forall|j: int| i <= j < self.entries().len() implies path_lt(
                            k.key_view(),
                            #[trigger] self.key_at(j),
                        ) by {
                            if i < j {
                                assert(path_lt(
                                    self.entries()[i as int].0.key_view(),
                                    self.entries()[j].0.key_view(),
                                ));
                                lemma_path_lt_trans(k.key_view(), self.key_at(i as int), self.key_at(j));
                            }
                        }
                    }
                    return Err(i);
                },
            }
            i = i + 1;
        }
        Err(i)
    }

    /// The value stored under `k`.
    pub fn get(&self, k: &K) -> (r: Option<&V>)
        requires
            self.wf(),
        ensures
            match r {
                Some(v) => self@.contains_key(k.key_view()) && *v == self@[k.key_view()],
                None => !self@.contains_key(k.key_view()),
            },
    {
        match self.position(k) {
            Ok(i) => {
                proof {
                    self.lemma_index_of(i as int);
                }
                Some(&self.entries[i].1)
            },
            Err(p) => {
                proof {
                    if self.has_key(k.key_view()) {
                        let j = self.index_of(k.key_view());
                        lemma_path_lt_irrefl(k.key_view());
                        if j < p {
                            assert(path_lt(self.key_at(j), k.key_view()));
                        } else {
                            assert(path_lt(k.key_view(), self.key_at(j)));
                        }
                    }
                }
                None
            },
        }
    }

    /// Stores `v` under `k`, replacing what was there.
    pub fn insert(&mut self, k: K, v: V)
        requires
            old(self).wf(),
        ensures
            final(self).wf(),
            final(self)@ == old(self)@.insert(k.key_view(), v),
            final(self).entries().len() <= old(self).entries().len() + 1,
            match old(self).position_spec(k.key_view()) {
                Ok(i) => final(self).entries() == old(self).entries().update(i, (k, v)),
                Err(p) => final(self).entries() == old(self).entries().insert(p, (k, v)),
            },
    {
        let ghost before = self.entries();
        let pos = self.position(&k);
        let mut es: Vec<(K, V)> = Vec::new();
        std::mem::swap(&mut es, &mut self.entries);
        assert(es@ == before);
        let ghost kv = k.key_view();
        match pos {
            Ok(i) => {
                proof {
                    old(self).lemma_position_found(i as int);
                }
                es.set(i, (k, v));
                proof {
                    assert forall|a: int, b: int| 0 <= a < b < es@.len() implies path_lt(
                        #[trigger] es@[a].0.key_view(),
                        #[trigger] es@[b].0.key_view(),
                    ) by {
                        assert(path_lt(before[a].0.key_view(), before[b].0.key_view()));
                    }
                }
                self.entries = es;
                proof {
                    assert(self.entries() == before.update(i as int, (k, v)));
                    self.lemma_view_after_set(*old(self), i as int, k, v);
                }
            },
            Err(p) => {
                proof {
                    old(self).lemma_position_missing(p as int, kv);
                }
                es.insert(p, (k, v));
                proof {
                    assert forall|a: int, b: int| 0 <= a < b < es@.len() implies path_lt(
                        #[trigger] es@[a].0.key_view(),
                        #[trigger] es@[b].0.key_view(),
                    ) by {
                        if b < p {
                            assert(path_lt(before[a].0.key_view(), before[b].0.key_view()));
                        } else if b == p {
                            assert(path_lt(old(self).key_at(a), kv));
                        } else if a < p {
                            assert(path_lt(old(self).key_at(a), kv));
                            assert(path_lt(kv, old(self).key_at(b - 1)));
                            lemma_path_lt_trans(before[a].0.key_view(), kv, before[b - 1].0.key_view());
                        } else if a == p {
                            assert(path_lt(kv, old(self).key_at(b - 1)));
                        } else {
                            assert(path_lt(before[a - 1].0.key_view(), before[b - 1].0.key_view()));
                        }
                    }
                }
                self.entries = es;
                proof {
                    assert(self.entries() == before.insert(p as int, (k, v)));
                    self.lemma_view_after_insert(*old(self), p as int, k, v);
                }
            },
        }
    }

    /// `p` splits the entries into keys below `k` and keys above it.
    pub open spec fn splits_at(self, p: int, k: Seq<Seq<char>>) -> bool {
        0 <= p <= self.entries().len() && (forall|j: int| 0 <= j < p ==> path_lt(#[trigger] self.key_at(j), k))
            && (forall|j: int| p <= j < self.entries().len() ==> path_lt(k, #[trigger] self.key_at(j)))
    }

    /// Where the key order puts `k`: its index, or the index it would take.
    pub open spec fn position_spec(self, k: Seq<Seq<char>>) -> Result<int, int> {
        if self.has_key(k) {
            Ok(self.index_of(k))
        } else {
            Err(choose|p: int| #[trigger] self.splits_at(p, k))
        }
    }

    proof fn lemma_position_found(self, i: int)
        requires
            sorted_entries(self.entries()),
            0 <= i < self.entries().len(),
        ensures
            self.position_spec(self.key_at(i)) == Ok::<int, int>(i),
    {
        self.lemma_index_of(i);
    }

    proof fn lemma_position_missing(self, p: int, k: Seq<Seq<char>>)
        requires
            sorted_entries(self.entries()),
            0 <= p <= self.entries().len(),
            forall|j: int| 0 <= j < p ==> path_lt(#[trigger] self.key_at(j), k),
            forall|j: int| p <= j < self.entries().len() ==> path_lt(k, #[trigger] self.key_at(j)),
        ensures
            !self.has_key(k),
            self.position_spec(k) == Err::<int, int>(p),
    {
        lemma_path_lt_irrefl(k);
        if self.has_key(k) {
            let j = self.index_of(k);
            if j < p {
                assert(path_lt(self.key_at(j), k));
            } else {
                assert(path_lt(k, self.key_at(j)));
            }
        }
        assert(self.splits_at(p, k));
        let q = choose|q: int| #[trigger] self.splits_at(q, k);
        assert(self.splits_at(q, k));
        if q < p {
            assert(path_lt(self.key_at(q), k));
            assert(path_lt(k, self.key_at(q)));
            lemma_path_lt_asym(k, self.key_at(q));
        }
        if p < q {
            assert(path_lt(self.key_at(p), k));
            assert(path_lt(k, self.key_at(p)));
            lemma_path_lt_asym(k, self.key_at(p));
        }
    }

    proof fn lemma_view_after_set(self, o: Self, i: int, k: K, v: V)
        requires
            sorted_entries(self.entries()),
            sorted_entries(o.entries()),
            0 <= i < o.entries().len(),
            o.entries()[i].0.key_view() == k.key_view(),
            self.entries() == o.entries().update(i, (k, v)),
        ensures
            self@ == o@.insert(k.key_view(), v),
    {
        assert forall|key: Seq<Seq<char>>| #[trigger] self@.contains_key(key) == o@.insert(k.key_view(), v).contains_key(key) by {
            if self.has_key(key) {
                let j = self.index_of(key);
                if j != i {
                    assert(o.key_at(j) == key);
                }
            }
            if o.has_key(key) {
                let j = o.index_of(key);
                assert(self.key_at(j) == key || j == i);
                if j == i {
                    assert(self.key_at(i) == k.key_view());
                }
            }
            if key == k.key_view() {
                assert(self.key_at(i) == key);
            }
        }
        assert forall|key: Seq<Seq<char>>| #[trigger] self@.contains_key(key) implies self@[key] == o@.insert(
            k.key_view(),
            v,
        )[key] by {
            let j = self.index_of(key);
            self.lemma_index_of(j);
            self.lemma_index_of(i);
            if j != i {
                assert(o.key_at(j) == key);
                o.lemma_index_of(j);
                assert(key != k.key_view());
            }
        }
        assert(self@ =~= o@.insert(k.key_view(), v));
    }

    proof fn lemma_view_after_insert(self, o: Self, p: int, k: K, v: V)
        requires
            sorted_entries(self.entries()),
            sorted_entries(o.entries()),
            0 <= p <= o.entries().len(),
            self.entries() == o.entries().insert(p, (k, v)),
        ensures
            self@ == o@.insert(k.key_view(), v),
    {
        assert forall|key: Seq<Seq<char>>| #[trigger] self@.contains_key(key) == o@.insert(k.key_view(), v).contains_key(key) by {
            if self.has_key(key) {
                let j = self.index_of(key);
                if j < p {
                    assert(o.key_at(j) == key);
                } else if j > p {
                    assert(o.key_at(j - 1) == key);
                }
            }
            if o.has_key(key) {
                let j = o.index_of(key);
                if j < p {
                    assert(self.key_at(j) == key);
                } else {
                    assert(self.key_at(j + 1) == key);
                }
            }
            if key == k.key_view() {
                assert(self.key_at(p) == key);
            }
        }
        assert forall|key: Seq<Seq<char>>| #[trigger] self@.contains_key(key) implies self@[key] == o@.insert(
            k.key_view(),
            v,
        )[key] by {
            let j = self.index_of(key);
            self.lemma_index_of(j);
            self.lemma_index_of(p);
            if j < p {
                assert(o.key_at(j) == key);
                o.lemma_index_of(j);
            } else if j > p {
                assert(o.key_at(j - 1) == key);
                o.lemma_index_of(j - 1);
            }
        }
        assert(self@ =~= o@.insert(k.key_view(), v));
    }

    /// Appends an entry whose key follows every key present.
    pub fn push_last(&mut self, k: K, v: V)
        requires
            old(self).wf(),
            forall|j: int| 0 <= j < old(self).entries().len() ==> path_lt(#[trigger] old(self).key_at(j), k.key_view()),
        ensures
            final(self).wf(),
            final(self).entries() == old(self).entries().push((k, v)),
            final(self)@ == old(self)@.insert(k.key_view(), v),
    {
        let ghost before = self.entries();
        let mut es: Vec<(K, V)> = Vec::new();
        std::mem::swap(&mut es, &mut self.entries);
        let ghost kv = k.key_view();
        let n = es.len();
        es.push((k, v));
        proof {
            assert forall|a: int, b: int| 0 <= a < b < es@.len() implies path_lt(
                #[trigger] es@[a].0.key_view(),
                #[trigger] es@[b].0.key_view(),
            ) by {
                if b < n {
                    assert(path_lt(before[a].0.key_view(), before[b].0.key_view()));
                } else {
                    assert(path_lt(old(self).key_at(a), kv));
                }
            }
        }
        self.entries = es;
        proof {
            assert(self.entries() == before.insert(n as int, (k, v)));
            self.lemma_view_after_insert(*old(self), n as int, k, v);
        }
    }
}

impl<K: TextKey, V: Copy> KeyMap<K, V> {
    /// A copy of the map.
    pub fn duplicate(&self) -> (r: Self)
        requires
            self.wf(),
        ensures
            r.wf(),
            same_entries(r.entries(), self.entries()),
            r@ == self@,
    {
        let mut r: Self = KeyMap::new();
        let mut i: usize = 0;
        while i < self.len()
            invariant
                i <= self.entries().len(),
                self.wf(),
                r.wf(),
                same_entries(r.entries(), self.entries().take(i as int)),
            decreases self.entries().len() - i,
        {
            let e = self.entry(i);
            let k = e.0.key_copy();
            let v = e.1;
            proof {
                assert forall|j: int| 0 <= j < r.entries().len() implies path_lt(#[trigger] r.key_at(j), k.key_view()) by {
                    assert(r.key_at(j) == self.key_at(j));
                    assert(path_lt(self.entries()[j].0.key_view(), self.entries()[i as int].0.key_view()));
                }
            }
            r.push_last(k, v);
            assert(same_entries(r.entries(), self.entries().take(i + 1)));
            i = i + 1;
        }
        assert(self.entries().take(self.entries().len() as int) =~= self.entries());
        proof {
            lemma_same_entries_map(r.entries(), self.entries());
        }
        r
    }
}

} // verus!
