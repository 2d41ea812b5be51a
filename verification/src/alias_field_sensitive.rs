//! Field-sensitive alias dataflow: the join of two states at a merge point
//! and the update of one place.
use vstd::prelude::*;
use crate::alias_model::{merge_view, AliasValue, AliasView, FieldSensitiveAliasState, PlaceKey};
use crate::keymap::TextKey;

verus! {

/// The fact recorded for place `k`, `NoInfo` where there is none.
pub open spec fn alias_at(s: FieldSensitiveAliasState, k: Seq<Seq<char>>) -> AliasView {
    if s.values@.contains_key(k) {
        s.values@[k]@
    } else {
        AliasView::NoInfo
    }
}

/// `out` holds the join of `a` and `b` at `k`.
pub open spec fn merged_at(
    out: FieldSensitiveAliasState,
    a: FieldSensitiveAliasState,
    b: FieldSensitiveAliasState,
    k: Seq<Seq<char>>,
) -> bool {
    out.values@.contains_key(k) && out.values@[k]@ == merge_view(alias_at(a, k), alias_at(b, k))
}

fn fact_at(s: &FieldSensitiveAliasState, k: &PlaceKey) -> (r: AliasValue)
    requires
        s.values.wf(),
    ensures
        r@ == alias_at(*s, k@),
{
    match s.values.get(k) {
        Some(v) => v.copy(),
        None => AliasValue::NoInfo,
    }
}

/// Joins two states place by place: every place of either state gets the
/// merge of its two facts, a missing fact counting as `NoInfo`.
pub fn merge_states(a: &FieldSensitiveAliasState, b: &FieldSensitiveAliasState) -> (r: FieldSensitiveAliasState)
    requires
        a.values.wf(),
        b.values.wf(),
    ensures
        r.values.wf(),
        r.values@.dom() == a.values@.dom() + b.values@.dom(),
        forall|k: Seq<Seq<char>>| #[trigger] r.values@.contains_key(k) ==> merged_at(r, *a, *b, k),
{
    let mut out = FieldSensitiveAliasState::default();
    let mut i: usize = 0;
    while i < a.values.len()
        invariant
            i <= a.values.entries().len(),
            a.values.wf(),
            b.values.wf(),
            out.values.wf(),
            forall|k: Seq<Seq<char>>| #[trigger] out.values@.contains_key(k)
                <==> exists|j: int| 0 <= j < i && a.values.key_at(j) == k,
            forall|k: Seq<Seq<char>>| #[trigger] out.values@.contains_key(k) ==> merged_at(out, *a, *b, k),
        decreases a.values.entries().len() - i,
    {
        let k = &a.values.entry(i).0;
        let v = fact_at(a, k).merge(&fact_at(b, k));
        let ghost before = out;
        out.values.insert(k.key_copy(), v);
        proof {
            assert(a.values.key_at(i as int) == k@);
            assert forall|q: Seq<Seq<char>>| #[trigger] out.values@.contains_key(q)
                <==> exists|j: int| 0 <= j < i + 1 && a.values.key_at(j) == q by {
                if q != k@ && before.values@.contains_key(q) {
                    let j = choose|j: int| 0 <= j < i && a.values.key_at(j) == q;
                    assert(0 <= j < i + 1 && a.values.key_at(j) == q);
                }
            }
            assert forall|q: Seq<Seq<char>>| #[trigger] out.values@.contains_key(q) implies merged_at(out, *a, *b, q) by {
                if q != k@ {
                    assert(merged_at(before, *a, *b, q));
                }
            }
        }
        i = i + 1;
    }
    proof {
        assert forall|k: Seq<Seq<char>>| #[trigger] out.values@.contains_key(k) <==> a.values@.contains_key(k) by {
            if a.values@.contains_key(k) {
                let j = a.values.index_of(k);
                assert(a.values.key_at(j) == k);
            }
            if out.values@.contains_key(k) {
                let j = choose|j: int| 0 <= j < a.values.entries().len() && a.values.key_at(j) == k;
                a.values.lemma_index_of(j);
            }
        }
    }
    let mut i: usize = 0;
    while i < b.values.len()
        invariant
            i <= b.values.entries().len(),
            a.values.wf(),
            b.values.wf(),
            out.values.wf(),
            forall|k: Seq<Seq<char>>| #[trigger] out.values@.contains_key(k)
                <==> a.values@.contains_key(k) || exists|j: int| 0 <= j < i && b.values.key_at(j) == k,
            forall|k: Seq<Seq<char>>| #[trigger] out.values@.contains_key(k) ==> merged_at(out, *a, *b, k),
        decreases b.values.entries().len() - i,
    {
        let k = &b.values.entry(i).0;
        let v = fact_at(a, k).merge(&fact_at(b, k));
        let ghost before = out;
        out.values.insert(k.key_copy(), v);
        proof {
            assert(b.values.key_at(i as int) == k@);
            assert forall|q: Seq<Seq<char>>| #[trigger] out.values@.contains_key(q)
                <==> a.values@.contains_key(q) || exists|j: int| 0 <= j < i + 1 && b.values.key_at(j) == q by {
                if q != k@ && before.values@.contains_key(q) && !a.values@.contains_key(q) {
                    let j = choose|j: int| 0 <= j < i && b.values.key_at(j) == q;
                    assert(0 <= j < i + 1 && b.values.key_at(j) == q);
                }
            }
            assert forall|q: Seq<Seq<char>>| #[trigger] out.values@.contains_key(q) implies merged_at(out, *a, *b, q) by {
                if q != k@ {
                    assert(merged_at(before, *a, *b, q));
                }
            }
        }
        i = i + 1;
    }
    proof {
        assert forall|k: Seq<Seq<char>>| #[trigger] out.values@.contains_key(k) <==> (a.values@.dom() + b.values@.dom()).contains(k) by {
            if b.values@.contains_key(k) {
                let j = b.values.index_of(k);
                assert(b.values.key_at(j) == k);
            }
            if out.values@.contains_key(k) && !a.values@.contains_key(k) {
                let j = choose|j: int| 0 <= j < b.values.entries().len() && b.values.key_at(j) == k;
                b.values.lemma_index_of(j);
            }
        }
        assert(out.values@.dom() =~= a.values@.dom() + b.values@.dom());
    }
    out
}

/// Records `val` as the fact of `key`.
pub fn set_alias(state: &mut FieldSensitiveAliasState, key: PlaceKey, val: AliasValue)
    requires
        old(state).values.wf(),
    ensures
        final(state).values.wf(),
        final(state).values@ == old(state).values@.insert(key@, val),
{
    state.values.insert(key, val);
}

/// Joining states is commutative: both orders record the same places with
/// the same facts.
pub proof fn lemma_merge_states_commutative(
    a: FieldSensitiveAliasState,
    b: FieldSensitiveAliasState,
    ab: FieldSensitiveAliasState,
    ba: FieldSensitiveAliasState,
)
    requires
        ab.values@.dom() == a.values@.dom() + b.values@.dom(),
        forall|k: Seq<Seq<char>>| #[trigger] ab.values@.contains_key(k) ==> merged_at(ab, a, b, k),
        ba.values@.dom() == b.values@.dom() + a.values@.dom(),
        forall|k: Seq<Seq<char>>| #[trigger] ba.values@.contains_key(k) ==> merged_at(ba, b, a, k),
    ensures
        ab.values@.dom() == ba.values@.dom(),
        forall|k: Seq<Seq<char>>| #[trigger] ab.values@.contains_key(k) ==> ab.values@[k]@ == ba.values@[k]@,
{
    assert(ab.values@.dom() =~= ba.values@.dom());
    assert forall|k: Seq<Seq<char>>| #[trigger] ab.values@.contains_key(k) implies ab.values@[k]@ == ba.values@[k]@ by {
        assert(merged_at(ab, a, b, k));
        assert(ba.values@.contains_key(k));
        assert(merged_at(ba, b, a, k));
        crate::alias_model::lemma_merge_commutative(alias_at(a, k), alias_at(b, k));
    }
}

} // verus!
