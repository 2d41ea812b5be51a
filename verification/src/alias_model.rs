//! What a MIR place may alias: the lattice of alias facts and the
//! field-sensitive state that maps places to them.
use vstd::prelude::*;
use crate::ir::ResourcePath;
use crate::keymap::{compare_texts, path_lt, KeyMap, TextKey};
use crate::text::{compare_text, texts, TextOrder};

verus! {

#[derive(Debug, Clone, Copy, PartialEq, Eq, Structural)]
pub enum BorrowKind {
    Shared,
    Mut,
    Raw,
}

/// What a place is known to hold: nothing yet, a resource, a borrow of a
/// resource, a moved-out value, or something unknown.
#[derive(Debug, Clone, PartialEq, Eq)]
pub enum AliasValue {
    NoInfo,
    Known(ResourcePath),
    BorrowOf(ResourcePath, BorrowKind),
    Moved,
    Unknown,
}

/// An alias fact with its resource paths read by their views.
pub enum AliasView {
    NoInfo,
    Known(Seq<Seq<char>>),
    BorrowOf(Seq<Seq<char>>, BorrowKind),
    Moved,
    Unknown,
}

impl View for AliasValue {
    type V = AliasView;

    open spec fn view(&self) -> AliasView {
        match self {
            AliasValue::NoInfo => AliasView::NoInfo,
            AliasValue::Known(p) => AliasView::Known(p@),
            AliasValue::BorrowOf(p, k) => AliasView::BorrowOf(p@, *k),
            AliasValue::Moved => AliasView::Moved,
            AliasValue::Unknown => AliasView::Unknown,
        }
    }
}

/// The join of two alias facts: `NoInfo` is neutral, equal facts stay,
/// anything else becomes `Unknown`.
pub open spec fn merge_view(a: AliasView, b: AliasView) -> AliasView {
    match (a, b) {
        (AliasView::NoInfo, x) => x,
        (x, AliasView::NoInfo) => x,
        (AliasView::Known(p), AliasView::Known(q)) => if p == q {
            AliasView::Known(p)
        } else {
            AliasView::Unknown
        },
        (AliasView::BorrowOf(p, k), AliasView::BorrowOf(q, l)) => if p == q && k == l {
            AliasView::BorrowOf(p, k)
        } else {
            AliasView::Unknown
        },
        (AliasView::Moved, AliasView::Moved) => AliasView::Moved,
        _ => AliasView::Unknown,
    }
}

impl AliasValue {
    /// A copy of the fact.
    pub fn copy(&self) -> (r: Self)
        ensures
            r@ == self@,
    {
        match self {
            AliasValue::NoInfo => AliasValue::NoInfo,
            AliasValue::Known(p) => AliasValue::Known(p.copy()),
            AliasValue::BorrowOf(p, k) => AliasValue::BorrowOf(p.copy(), *k),
            AliasValue::Moved => AliasValue::Moved,
            AliasValue::Unknown => AliasValue::Unknown,
        }
    }

    /// The join of two facts at a control-flow merge.
    pub fn merge(&self, rhs: &AliasValue) -> (r: AliasValue)
        ensures
            r@ == merge_view(self@, rhs@),
    {
        match (self, rhs) {
            (AliasValue::NoInfo, x) => x.copy(),
            (x, AliasValue::NoInfo) => x.copy(),
            (AliasValue::Known(a), AliasValue::Known(b)) => if a.same_as(b) {
                AliasValue::Known(a.copy())
            } else {
                AliasValue::Unknown
            },
            (AliasValue::BorrowOf(a, ka), AliasValue::BorrowOf(b, kb)) => if a.same_as(b) && *ka == *kb {
                AliasValue::BorrowOf(a.copy(), *ka)
            } else {
                AliasValue::Unknown
            },
            (AliasValue::Moved, AliasValue::Moved) => AliasValue::Moved,
            _ => AliasValue::Unknown,
        }
    }
}

/// Merging is commutative.
pub proof fn lemma_merge_commutative(a: AliasView, b: AliasView)
    ensures
        merge_view(a, b) == merge_view(b, a),
{
}

/// Merging is associative, so the order in which predecessors are joined
/// does not matter.
pub proof fn lemma_merge_associative(a: AliasView, b: AliasView, c: AliasView)
    ensures
        merge_view(merge_view(a, b), c) == merge_view(a, merge_view(b, c)),
{
}

/// Merging a fact with itself gives it back, and `NoInfo` is neutral.
pub proof fn lemma_merge_idempotent_neutral(a: AliasView)
    ensures
        merge_view(a, a) == a,
        merge_view(AliasView::NoInfo, a) == a,
        merge_view(a, AliasView::NoInfo) == a,
{
}

/// A MIR place: a local and the fields projected from it.
#[derive(Debug, Clone, PartialEq, Eq, PartialOrd, Ord, Hash)]
pub struct PlaceKey {
    pub local: String,
    pub projection: Vec<String>,
}

impl View for PlaceKey {
    type V = Seq<Seq<char>>;

    /// The local followed by the projected fields.
    open spec fn view(&self) -> Seq<Seq<char>> {
        seq![self.local@] + texts(self.projection@)
    }
}

proof fn lemma_place_order(a: PlaceKey, b: PlaceKey)
    ensures
        path_lt(a@, b@) == if a.local@ == b.local@ {
            path_lt(texts(a.projection@), texts(b.projection@))
        } else {
            crate::text::seq_lt(a.local@, b.local@)
        },
        (a@ == b@) == (a.local@ == b.local@ && texts(a.projection@) == texts(b.projection@)),
{
    assert(a@[0] == a.local@);
    assert(b@[0] == b.local@);
    assert(a@.drop_first() =~= texts(a.projection@));
    assert(b@.drop_first() =~= texts(b.projection@));
    if a@ == b@ {
        assert(a@[0] == b@[0]);
    }
    if a.local@ == b.local@ && texts(a.projection@) == texts(b.projection@) {
        assert(a@ =~= b@);
    }
}

impl TextKey for PlaceKey {
    open spec fn key_view(&self) -> Seq<Seq<char>> {
        self@
    }

    fn key_order(&self, other: &Self) -> (r: TextOrder) {
        proof {
            lemma_place_order(*self, *other);
            lemma_place_order(*other, *self);
        }
        match compare_text(self.local.as_str(), other.local.as_str()) {
            TextOrder::Equal => compare_texts(&self.projection, &other.projection),
            o => o,
        }
    }

    fn key_copy(&self) -> (r: Self) {
        PlaceKey { local: self.local.clone(), projection: crate::ir::copy_strings(&self.projection) }
    }
}

/// The alias fact of each place, ordered by place.
#[derive(Debug, Clone, PartialEq, Eq)]
pub struct FieldSensitiveAliasState {
    pub values: KeyMap<PlaceKey, AliasValue>,
}

impl Default for FieldSensitiveAliasState {
    fn default() -> (r: Self)
        ensures
            r.values.wf(),
            r.values@ == Map::<Seq<Seq<char>>, AliasValue>::empty(),
    {
        FieldSensitiveAliasState { values: KeyMap::new() }
    }
}

} // verus!
