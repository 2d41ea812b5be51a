//! Abstract states (resource lengths, path conditions, cost so far) and
//! the transition a sequence of events makes.
use vstd::prelude::*;
use crate::expr::{get0, in_i64, parse_spec, same_expr, LinExpr};
use crate::ir::{copy_strings, CallEvent, Event, PathCondition, ResourcePath};
use crate::keymap::{KeyMap, TextKey};
use crate::obligation::expr_value;
use crate::summary::{effect_matches, effect_shape, expr_is, first_match, stored_effect, ResourceSummary, SummaryDb, SummaryEffect};
use crate::text::{concat2, contains_spec, contains_text, owned};

verus! {

/// The value of a linear expression: a constant and a coefficient per name.
pub type Val = (int, spec_fn(Seq<char>) -> int);

pub open spec fn val_add(a: Val, b: Val) -> Val {
    (a.0 + b.0, |n: Seq<char>| (a.1)(n) + (b.1)(n))
}

pub open spec fn val_sub(a: Val, b: Val) -> Val {
    (a.0 - b.0, |n: Seq<char>| (a.1)(n) - (b.1)(n))
}

/// The coefficient of `n` in a value.
pub open spec fn at(v: Val, n: Seq<char>) -> int {
    (v.1)(n)
}

/// `a + b` stays within `i64`.
pub open spec fn val_add_fits(a: Val, b: Val) -> bool {
    in_i64(a.0 + b.0) && forall|n: Seq<char>| #![trigger at(a, n), at(b, n)] in_i64(at(a, n) + at(b, n))
}

/// `a - b`, computed as `a + (-1)·b`, stays within `i64`.
pub open spec fn val_sub_fits(a: Val, b: Val) -> bool {
    &&& in_i64(-b.0)
    &&& in_i64(a.0 - b.0)
    &&& forall|n: Seq<char>| #![trigger at(a, n), at(b, n)] in_i64(-at(b, n)) && in_i64(at(a, n) - at(b, n))
}

/// The value a spec parse gives.
pub open spec fn parsed_val(v: (int, Map<Seq<char>, int>)) -> Val {
    (v.0, |n: Seq<char>| get0(v.1, n))
}

/// The value `len(p)` has when nothing is recorded for `p`: the variable named by `p`.
pub open spec fn len_var_value(p: ResourcePath) -> Val {
    (0, |n: Seq<char>| if n == p.len_var_text() { 1int } else { 0 })
}

/// What is known at a program point: the length of each tracked resource,
/// the path conditions, the cost so far and what could not be modelled.
#[derive(Debug, Clone, PartialEq, Eq)]
pub struct AbstractState {
    pub lens: KeyMap<ResourcePath, LinExpr>,
    pub path_conditions: Vec<PathCondition>,
    pub actual_cost: LinExpr,
    pub partial_unknowns: Vec<String>,
}

impl Default for AbstractState {
    fn default() -> (r: Self)
        ensures
            r.wf(),
            r.lens@ == Map::<Seq<Seq<char>>, LinExpr>::empty(),
            r.path_conditions@.len() == 0,
            r.actual_cost.constant == 0,
            r.actual_cost.terms.entries().len() == 0,
            r.partial_unknowns@.len() == 0,
    {
        AbstractState {
            lens: KeyMap::new(),
            path_conditions: Vec::new(),
            actual_cost: LinExpr::zero(),
            partial_unknowns: Vec::new(),
        }
    }
}

/// The recorded lengths, by value.
pub open spec fn lens_value(lens: KeyMap<ResourcePath, LinExpr>) -> Map<Seq<Seq<char>>, Val> {
    Map::new(|k: Seq<Seq<char>>| lens@.contains_key(k), |k: Seq<Seq<char>>| expr_value(lens@[k]))
}

/// The value of `len(p)` in a map of recorded lengths.
pub open spec fn len_in(m: Map<Seq<Seq<char>>, Val>, p: ResourcePath) -> Val {
    if m.contains_key(p@) {
        m[p@]
    } else {
        len_var_value(p)
    }
}

impl AbstractState {
    /// Well formed: the length map and every expression in the state.
    pub open spec fn wf(self) -> bool {
        &&& self.lens.wf()
        &&& forall|k: Seq<Seq<char>>| #[trigger] self.lens@.contains_key(k) ==> self.lens@[k].wf()
        &&& self.actual_cost.wf()
    }

    /// The value of `len(p)`: the recorded expression, else `p`'s length variable.
    pub open spec fn len_value(self, p: ResourcePath) -> Val {
        len_in(lens_value(self.lens), p)
    }

    /// The length of `path`: what is recorded, else the variable `path.len`.
    pub fn len_of(&self, path: &ResourcePath) -> (r: LinExpr)
        requires
            self.wf(),
        ensures
            r.wf(),
            expr_value(r) == self.len_value(*path),
            self.lens@.contains_key(path@) ==> same_expr(r, self.lens@[path@]),
            !self.lens@.contains_key(path@) ==> r.normalized(),
    {
        match self.lens.get(path) {
            Some(e) => {
                let r = e.clone_expr();
                assert(expr_value(r).1 =~= expr_value(*e).1);
                r
            },
            None => {
                let v = path.len_var();
                let r = LinExpr::var(v.as_str(), 1);
                assert(expr_value(r).1 =~= len_var_value(*path).1);
                r
            },
        }
    }

    /// Records `expr` as the length of `path`.
    pub fn set_len(&mut self, path: ResourcePath, expr: LinExpr)
        requires
            old(self).wf(),
            expr.wf(),
        ensures
            final(self).wf(),
            final(self).lens@ == old(self).lens@.insert(path@, expr),
            lens_value(final(self).lens) == lens_value(old(self).lens).insert(path@, expr_value(expr)),
            final(self).path_conditions == old(self).path_conditions,
            final(self).actual_cost == old(self).actual_cost,
            final(self).partial_unknowns == old(self).partial_unknowns,
    {
        self.lens.insert(path, expr);
        assert(lens_value(self.lens) =~= lens_value(old(self).lens).insert(path@, expr_value(expr)));
    }
}

/// How the stored lengths change under an effect: the receiver's entry is
/// replaced by a sum or difference stored without zero terms, or by `to`
/// entry for entry; an unknown effect leaves them as they were.
pub open spec fn stored_after(before: KeyMap<ResourcePath, LinExpr>, after: KeyMap<ResourcePath, LinExpr>, eff: SummaryEffect) -> bool {
    match eff {
        SummaryEffect::IncLen { receiver, .. } => after@ == before@.insert(receiver@, after@[receiver@])
            && after@[receiver@].normalized(),
        SummaryEffect::AddBytes { receiver, .. } => after@ == before@.insert(receiver@, after@[receiver@])
            && after@[receiver@].normalized(),
        SummaryEffect::DecLen { receiver, .. } => after@ == before@.insert(receiver@, after@[receiver@])
            && after@[receiver@].normalized(),
        SummaryEffect::SetLen { receiver, to } => after@ == before@.insert(receiver@, after@[receiver@])
            && same_expr(after@[receiver@], to),
        SummaryEffect::Unknown(_) => after == before,
    }
}

/// The lengths after one effect on the given lengths, or `None` where the
/// arithmetic leaves `i64`.
pub open spec fn effect_step(m: Map<Seq<Seq<char>>, Val>, eff: SummaryEffect) -> Option<Map<Seq<Seq<char>>, Val>> {
    match eff {
        SummaryEffect::IncLen { receiver, by } => if val_add_fits(len_in(m, receiver), expr_value(by)) {
            Some(m.insert(receiver@, val_add(len_in(m, receiver), expr_value(by))))
        } else {
            None
        },
        SummaryEffect::DecLen { receiver, by } => if val_sub_fits(len_in(m, receiver), expr_value(by)) {
            Some(m.insert(receiver@, val_sub(len_in(m, receiver), expr_value(by))))
        } else {
            None
        },
        SummaryEffect::SetLen { receiver, to } => Some(m.insert(receiver@, expr_value(to))),
        SummaryEffect::AddBytes { receiver, by } => if val_add_fits(len_in(m, receiver), expr_value(by)) {
            Some(m.insert(receiver@, val_add(len_in(m, receiver), expr_value(by))))
        } else {
            None
        },
        SummaryEffect::Unknown(_) => Some(m),
    }
}

/// The expressions an effect carries are well formed.
pub open spec fn effect_wf(eff: SummaryEffect) -> bool {
    match eff {
        SummaryEffect::IncLen { by, .. } => by.wf(),
        SummaryEffect::DecLen { by, .. } => by.wf(),
        SummaryEffect::SetLen { to, .. } => to.wf(),
        SummaryEffect::AddBytes { by, .. } => by.wf(),
        SummaryEffect::Unknown(_) => true,
    }
}

/// The value-level fit of `x - y` is the fit of `x.sub(y)`.
proof fn lemma_val_sub_fits(x: LinExpr, y: LinExpr)
    ensures
        val_sub_fits(expr_value(x), expr_value(y)) == x.sub_fits(y),
{
    let a = expr_value(x);
    let b = expr_value(y);
    if val_sub_fits(a, b) {
        assert forall|n: Seq<char>| in_i64(#[trigger] y.coeff_of(n) * -1) by {
            assert(at(a, n) == x.coeff_of(n));
            assert(at(b, n) == y.coeff_of(n));
        }
        assert forall|n: Seq<char>| in_i64(#[trigger] x.coeff_of(n) - y.coeff_of(n)) by {
            assert(at(a, n) == x.coeff_of(n));
            assert(at(b, n) == y.coeff_of(n));
        }
    }
    if x.sub_fits(y) {
        assert forall|n: Seq<char>| #![trigger at(a, n), at(b, n)] in_i64(-at(b, n)) && in_i64(at(a, n) - at(b, n)) by {
            assert(in_i64(y.coeff_of(n) * -1));
            assert(in_i64(x.coeff_of(n) - y.coeff_of(n)));
        }
    }
}

impl AbstractState {
    /// Applies an effect: the receiver's length grows, shrinks or is set;
    /// an unknown effect is recorded.  `false`, with the state unchanged,
    /// where the arithmetic would leave `i64`.
    pub fn apply_effect_checked(&mut self, eff: &SummaryEffect) -> (ok: bool)
        requires
            old(self).wf(),
            effect_wf(*eff),
        ensures
            final(self).wf(),
            ok == (effect_step(lens_value(old(self).lens), *eff) is Some),
            ok ==> lens_value(final(self).lens) == effect_step(lens_value(old(self).lens), *eff).unwrap(),
            ok ==> stored_after(old(self).lens, final(self).lens, *eff),
            !ok ==> *final(self) == *old(self),
            final(self).path_conditions == old(self).path_conditions,
            final(self).actual_cost == old(self).actual_cost,
            final(self).partial_unknowns@ == old(self).partial_unknowns@ + match *eff {
                SummaryEffect::Unknown(u) => seq![u],
                _ => Seq::<String>::empty(),
            },
    {
        match eff {
            SummaryEffect::IncLen { receiver, by } | SummaryEffect::AddBytes { receiver, by } => {
                let old_len = self.len_of(receiver);
                match old_len.checked_add(by) {
                    Some(n) => {
                        proof {
                            assert(expr_value(n) == val_add(expr_value(old_len), expr_value(*by))) by {
                                assert(expr_value(n).1 =~= val_add(expr_value(old_len), expr_value(*by)).1);
                            }
                            let a = expr_value(old_len);
                            let b = expr_value(*by);
                            assert forall|x: Seq<char>| #![trigger at(a, x), at(b, x)] in_i64(at(a, x) + at(b, x)) by {
                                assert(in_i64(old_len.coeff_of(x) + by.coeff_of(x)));
                            }
                        }
                        self.set_len(receiver.copy(), n);
                        true
                    },
                    None => {
                        proof {
                            let a = expr_value(old_len);
                            let b = expr_value(*by);
                            if val_add_fits(a, b) {
                                assert forall|x: Seq<char>| in_i64(#[trigger] old_len.coeff_of(x) + by.coeff_of(x)) by {
                                    assert(in_i64(at(a, x) + at(b, x)));
                                }
                            }
                        }
                        false
                    },
                }
            },
            SummaryEffect::DecLen { receiver, by } => {
                let old_len = self.len_of(receiver);
                proof {
                    lemma_val_sub_fits(old_len, *by);
                }
                match old_len.checked_sub(by) {
                    Some(n) => {
                        proof {
                            assert(expr_value(n) == val_sub(expr_value(old_len), expr_value(*by))) by {
                                assert(expr_value(n).1 =~= val_sub(expr_value(old_len), expr_value(*by)).1);
                            }
                        }
                        self.set_len(receiver.copy(), n);
                        true
                    },
                    None => false,
                }
            },
            SummaryEffect::SetLen { receiver, to } => {
                let v = to.clone_expr();
                assert(expr_value(v).1 =~= expr_value(*to).1);
                self.set_len(receiver.copy(), v);
                true
            },
            SummaryEffect::Unknown(u) => {
                self.partial_unknowns.push(u.clone());
                assert(lens_value(self.lens) =~= lens_value(old(self).lens));
                true
            },
        }
    }
}

/// A transition: the state before and after a sequence of events, and its cost.
#[derive(Debug, Clone, PartialEq, Eq)]
pub struct Transition {
    pub name: String,
    pub before: AbstractState,
    pub after: AbstractState,
    pub actual: LinExpr,
    pub explanation: String,
}

/// The summary that a call uses: the first that applies, when its cost parses.
pub open spec fn used_summary(db: SummaryDb, c: CallEvent) -> Option<ResourceSummary> {
    match first_match(db.summaries@, c) {
        Some(k) => match parse_spec(db.summaries@[k].cost_text()) {
            Some(Ok(_)) => Some(db.summaries@[k]),
            _ => None,
        },
        None => None,
    }
}

/// The parsed cost of a summary whose cost parses.
pub open spec fn summary_cost(s: ResourceSummary) -> Val {
    match parse_spec(s.cost_text()) {
        Some(Ok(v)) => parsed_val(v),
        _ => (0, |n: Seq<char>| 0int),
    }
}

/// The path conditions an event adds.
pub open spec fn event_conditions(ev: Event, db: SummaryDb) -> Seq<PathCondition> {
    match ev {
        Event::Call(c) => match used_summary(db, c) {
            Some(s) => match (s.condition, c.receiver) {
                (Some(cond), Some(r)) => if contains_spec(cond@, "len(receiver) == 0"@) {
                    seq![PathCondition::LenEqZero(r)]
                } else {
                    Seq::empty()
                },
                _ => Seq::empty(),
            },
            None => Seq::empty(),
        },
        Event::Branch(b) => match b.condition {
            Some(pc) => seq![pc],
            None => Seq::empty(),
        },
        _ => Seq::empty(),
    }
}

/// The effect texts of a summary that do not read as a known effect.
pub open spec fn unread_effects(effects: Seq<String>, receiver: Option<ResourcePath>) -> Seq<Seq<char>>
    decreases effects.len(),
{
    if effects.len() == 0 {
        Seq::empty()
    } else if effect_matches(None, effects.last()@, receiver) {
        unread_effects(effects.drop_last(), receiver).push(effects.last()@)
    } else {
        unread_effects(effects.drop_last(), receiver)
    }
}

/// What an event records as not modelled.
pub open spec fn event_unknowns(ev: Event, db: SummaryDb) -> Seq<Seq<char>> {
    match ev {
        Event::Call(c) => match used_summary(db, c) {
            Some(s) => unread_effects(s.effects@, c.receiver) + match s.partial_unknown {
                Some(u) => seq![u@],
                None => Seq::empty(),
            },
            None => seq!["missing summary for "@ + c.callee@],
        },
        Event::Unsafe { detail, .. } => seq!["unsafe: "@ + detail@],
        Event::Unknown { detail, .. } => seq!["unknown MIR event: "@ + detail@],
        _ => Seq::empty(),
    }
}

/// The lengths after the effects of a summary, in order (`None` on overflow).
pub open spec fn effects_step(m: Map<Seq<Seq<char>>, Val>, effects: Seq<SummaryEffect>) -> Option<Map<Seq<Seq<char>>, Val>>
    decreases effects.len(),
{
    if effects.len() == 0 {
        Some(m)
    } else {
        match effects_step(m, effects.drop_last()) {
            Some(m2) => effect_step(m2, effects.last()),
            None => None,
        }
    }
}

/// The path conditions that a list of events adds, in order.
pub open spec fn trace_conditions(events: Seq<Event>, db: SummaryDb) -> Seq<PathCondition>
    decreases events.len(),
{
    if events.len() == 0 {
        Seq::empty()
    } else {
        trace_conditions(events.drop_last(), db) + event_conditions(events.last(), db)
    }
}

/// What a list of events records as not modelled, in order.
pub open spec fn trace_unknowns(events: Seq<Event>, db: SummaryDb) -> Seq<Seq<char>>
    decreases events.len(),
{
    if events.len() == 0 {
        Seq::empty()
    } else {
        trace_unknowns(events.drop_last(), db) + event_unknowns(events.last(), db)
    }
}

/// Conditions that agree with the expected ones, position by position.
pub open spec fn same_conditions(a: Seq<PathCondition>, b: Seq<PathCondition>) -> bool {
    &&& a.len() == b.len()
    &&& forall|i: int| 0 <= i < a.len() ==> #[trigger] a[i].same_as(b[i])
}

impl AbstractState {
    /// The path conditions and unknowns of `self` extend those of `before`
    /// by what `events` add.
    pub open spec fn extends_by(self, before: AbstractState, events: Seq<Event>, db: SummaryDb) -> bool {
        &&& same_conditions(self.path_conditions@, before.path_conditions@ + trace_conditions(events, db))
        &&& crate::text::texts(self.partial_unknowns@) == crate::text::texts(before.partial_unknowns@) + trace_unknowns(events, db)
    }
}


/// The lengths after the effect an effect text describes (an unreadable text
/// changes nothing), or `None` where the arithmetic leaves `i64`.
pub open spec fn text_effect_step(m: Map<Seq<Seq<char>>, Val>, src: Seq<char>, receiver: Option<ResourcePath>) -> Option<Map<Seq<Seq<char>>, Val>> {
    match (receiver, effect_shape(src)) {
        (Some(p), Some(sh)) => match parse_spec(sh.1) {
            Some(Ok(v)) => {
                let by = parsed_val(v);
                if sh.0 == 0 || sh.0 == 3 {
                    if val_add_fits(len_in(m, p), by) {
                        Some(m.insert(p@, val_add(len_in(m, p), by)))
                    } else {
                        None
                    }
                } else if sh.0 == 1 {
                    if val_sub_fits(len_in(m, p), by) {
                        Some(m.insert(p@, val_sub(len_in(m, p), by)))
                    } else {
                        None
                    }
                } else {
                    Some(m.insert(p@, by))
                }
            },
            _ => Some(m),
        },
        _ => Some(m),
    }
}

/// The lengths after all the effect texts of a summary, in order.
pub open spec fn text_effects_step(m: Map<Seq<Seq<char>>, Val>, effects: Seq<String>, receiver: Option<ResourcePath>) -> Option<Map<Seq<Seq<char>>, Val>>
    decreases effects.len(),
{
    if effects.len() == 0 {
        Some(m)
    } else {
        match text_effects_step(m, effects.drop_last(), receiver) {
            Some(m2) => text_effect_step(m2, effects.last()@, receiver),
            None => None,
        }
    }
}

/// Lengths and cost after one event, or `None` where the arithmetic leaves `i64`.
pub open spec fn event_values(st: (Map<Seq<Seq<char>>, Val>, Val), ev: Event, db: SummaryDb) -> Option<(Map<Seq<Seq<char>>, Val>, Val)> {
    match ev {
        Event::Call(c) => match used_summary(db, c) {
            Some(s) => if val_add_fits(st.1, summary_cost(s)) {
                match text_effects_step(st.0, s.effects@, c.receiver) {
                    Some(m) => Some((m, val_add(st.1, summary_cost(s)))),
                    None => None,
                }
            } else {
                None
            },
            None => Some(st),
        },
        _ => Some(st),
    }
}

/// Lengths and cost after a list of events, or `None` where the arithmetic leaves `i64`.
pub open spec fn trace_values(st: (Map<Seq<Seq<char>>, Val>, Val), events: Seq<Event>, db: SummaryDb) -> Option<(Map<Seq<Seq<char>>, Val>, Val)>
    decreases events.len(),
{
    if events.len() == 0 {
        Some(st)
    } else {
        match trace_values(st, events.drop_last(), db) {
            Some(st2) => event_values(st2, events.last(), db),
            None => None,
        }
    }
}

/// The lengths and cost of a state, by value.
pub open spec fn state_values(st: AbstractState) -> (Map<Seq<Seq<char>>, Val>, Val) {
    (lens_value(st.lens), expr_value(st.actual_cost))
}

/// A stored effect steps the lengths as its text does.
proof fn lemma_stored_effect_step(m: Map<Seq<Seq<char>>, Val>, e: SummaryEffect, src: Seq<char>, receiver: Option<ResourcePath>)
    requires
        stored_effect(e, src, receiver),
    ensures
        effect_step(m, e) == text_effect_step(m, src, receiver),
        effect_wf(e),
{
    if effect_matches(Some(e), src, receiver) {
        let p = receiver.unwrap();
        let sh = effect_shape(src).unwrap();
        let v = match parse_spec(sh.1) { Some(Ok(v)) => v, _ => (0, Map::empty()) };
        match e {
            SummaryEffect::IncLen { receiver: r, by } => {
                assert(expr_value(by).1 =~= parsed_val(v).1);
                crate::ir::lemma_same_view_same_text(r, p);
                assert(len_in(m, r) == len_in(m, p));
            },
            SummaryEffect::DecLen { receiver: r, by } => {
                assert(expr_value(by).1 =~= parsed_val(v).1);
                crate::ir::lemma_same_view_same_text(r, p);
                assert(len_in(m, r) == len_in(m, p));
            },
            SummaryEffect::SetLen { receiver: r, to } => {
                assert(expr_value(to).1 =~= parsed_val(v).1);
            },
            SummaryEffect::AddBytes { receiver: r, by } => {
                assert(expr_value(by).1 =~= parsed_val(v).1);
                crate::ir::lemma_same_view_same_text(r, p);
                assert(len_in(m, r) == len_in(m, p));
            },
            SummaryEffect::Unknown(_) => {},
        }
    }
}

/// A copy of a length map.
fn copy_lens(m: &KeyMap<ResourcePath, LinExpr>) -> (r: KeyMap<ResourcePath, LinExpr>)
    requires
        m.wf(),
        forall|k: Seq<Seq<char>>| #[trigger] m@.contains_key(k) ==> m@[k].wf(),
    ensures
        r.wf(),
        forall|k: Seq<Seq<char>>| #[trigger] r@.contains_key(k) ==> r@[k].wf(),
        lens_value(r) == lens_value(*m),
{
    let mut r: KeyMap<ResourcePath, LinExpr> = KeyMap::new();
    let mut i: usize = 0;
    while i < m.len()
        invariant
            i <= m.entries().len(),
            m.wf(),
            forall|k: Seq<Seq<char>>| #[trigger] m@.contains_key(k) ==> m@[k].wf(),
            r.wf(),
            r.entries().len() == i,
            forall|j: int| 0 <= j < i ==> #[trigger] r.key_at(j) == m.key_at(j),
            forall|j: int| 0 <= j < i ==> #[trigger] expr_value(r.entries()[j].1) == expr_value(m.entries()[j].1) && r.entries()[j].1.wf(),
        decreases m.entries().len() - i,
    {
        let e = m.entry(i);
        let k = e.0.key_copy();
        proof {
            m.lemma_index_of(i as int);
            assert(m@[m.key_at(i as int)] == e.1);
        }
        let v = e.1.clone_expr();
        assert(expr_value(v).1 =~= expr_value(e.1).1);
        proof {
            assert forall|j: int| 0 <= j < r.entries().len() implies crate::keymap::path_lt(#[trigger] r.key_at(j), k.key_view()) by {
                assert(crate::keymap::path_lt(m.entries()[j].0.key_view(), m.entries()[i as int].0.key_view()));
            }
        }
        let ghost before = r;
        let ghost kk = k;
        let ghost vv = v;
        r.push_last(k, v);
        proof {
            assert(r.entries()[i as int] == (kk, vv));
            assert forall|j: int| 0 <= j < i + 1 implies #[trigger] r.key_at(j) == m.key_at(j) by {
                if j < i {
                    assert(r.entries()[j] == before.entries()[j]);
                    assert(before.key_at(j) == m.key_at(j));
                }
            }
            assert forall|j: int| 0 <= j < i + 1 implies #[trigger] expr_value(r.entries()[j].1) == expr_value(m.entries()[j].1) && r.entries()[j].1.wf() by {
                if j < i {
                    assert(r.entries()[j] == before.entries()[j]);
                    assert(expr_value(before.entries()[j].1) == expr_value(m.entries()[j].1));
                }
            }
        }
        i = i + 1;
    }
    proof {
        assert forall|j: int| 0 <= j < m.entries().len() implies #[trigger] m.entries()[j].0.key_view() == r.entries()[j].0.key_view() by {
            assert(r.key_at(j) == m.key_at(j));
        }
        assert(crate::keymap::same_keys(m.entries(), r.entries()));
        crate::keymap::lemma_same_keys(m.entries(), r.entries());
        assert forall|k: Seq<Seq<char>>| #[trigger] r@.contains_key(k) implies r@[k].wf() by {
            let j = r.index_of(k);
            assert(0 <= j < r.entries().len() && r.entries()[j].0.key_view() == k);
            assert(expr_value(r.entries()[j].1) == expr_value(m.entries()[j].1));
            assert(r.entries()[j].1.wf());
        }
        assert(lens_value(r) =~= lens_value(*m)) by {
            assert forall|k: Seq<Seq<char>>| #[trigger] r@.contains_key(k) implies expr_value(r@[k]) == expr_value(m@[k]) by {
                let j = r.index_of(k);
                assert(r.has_key(k));
                assert(m.has_key(k));
                assert(m.index_of(k) == j);
                assert(expr_value(r.entries()[j].1) == expr_value(m.entries()[j].1));
            }
        }
    }
    r
}

/// A copy of a list of path conditions.
fn copy_conditions(v: &Vec<PathCondition>) -> (r: Vec<PathCondition>)
    ensures
        same_conditions(r@, v@),
{
    let mut r: Vec<PathCondition> = Vec::new();
    let mut i: usize = 0;
    while i < v.len()
        invariant
            i <= v@.len(),
            same_conditions(r@, v@.take(i as int)),
        decreases v@.len() - i,
    {
        let c = v[i].copy();
        let ghost before = r@;
        r.push(c);
        assert forall|j: int| 0 <= j < r@.len() implies #[trigger] r@[j].same_as(v@.take(i + 1)[j]) by {
            if j < before.len() {
                assert(r@[j] == before[j]);
                assert(before[j].same_as(v@.take(i as int)[j]));
            }
        }
        i = i + 1;
    }
    assert(v@.take(v@.len() as int) =~= v@);
    r
}

impl AbstractState {
    /// A copy of the state.
    pub fn copy(&self) -> (r: Self)
        requires
            self.wf(),
        ensures
            r.wf(),
            state_values(r) == state_values(*self),
            same_expr(r.actual_cost, self.actual_cost),
            same_conditions(r.path_conditions@, self.path_conditions@),
            r.partial_unknowns@ == self.partial_unknowns@,
    {
        let actual_cost = self.actual_cost.clone_expr();
        assert(expr_value(actual_cost).1 =~= expr_value(self.actual_cost).1);
        AbstractState {
            lens: copy_lens(&self.lens),
            path_conditions: copy_conditions(&self.path_conditions),
            actual_cost,
            partial_unknowns: copy_strings(&self.partial_unknowns),
        }
    }
}
/// Agreeing condition lists stay agreeing when each gets one agreeing condition more.
proof fn lemma_conds_push(a: Seq<PathCondition>, b: Seq<PathCondition>, x: PathCondition, y: PathCondition)
    requires
        same_conditions(a, b),
        x.same_as(y),
    ensures
        same_conditions(a.push(x), b.push(y)),
{
    assert forall|i: int| 0 <= i < a.len() + 1 implies #[trigger] a.push(x)[i].same_as(b.push(y)[i]) by {
        if i < a.len() {
            assert(a.push(x)[i] == a[i]);
            assert(b.push(y)[i] == b[i]);
        }
    }
}

/// Agreement of condition lists is transitive.
proof fn lemma_conds_trans(a: Seq<PathCondition>, b: Seq<PathCondition>, c: Seq<PathCondition>)
    requires
        same_conditions(a, b),
        same_conditions(b, c),
    ensures
        same_conditions(a, c),
{
    assert forall|i: int| 0 <= i < a.len() implies #[trigger] a[i].same_as(c[i]) by {
        assert(a[i].same_as(b[i]));
        assert(b[i].same_as(c[i]));
    }
}

/// The texts of a list with one string more.
proof fn lemma_texts_push(v: Seq<String>, x: String)
    ensures
        crate::text::texts(v.push(x)) == crate::text::texts(v).push(x@),
{
    assert(crate::text::texts(v.push(x)) =~= crate::text::texts(v).push(x@));
}

/// The traces over one more event.
proof fn lemma_trace_step(st: (Map<Seq<Seq<char>>, Val>, Val), events: Seq<Event>, i: int, db: SummaryDb)
    requires
        0 <= i < events.len(),
    ensures
        trace_conditions(events.take(i + 1), db) == trace_conditions(events.take(i), db) + event_conditions(events[i], db),
        trace_unknowns(events.take(i + 1), db) == trace_unknowns(events.take(i), db) + event_unknowns(events[i], db),
        trace_values(st, events.take(i + 1), db) == match trace_values(st, events.take(i), db) {
            Some(st2) => event_values(st2, events[i], db),
            None => None,
        },
{
    assert(events.take(i + 1).drop_last() =~= events.take(i));
    assert(events.take(i + 1).last() == events[i]);
}

/// Once the trace fails it stays failed.
proof fn lemma_trace_none(st: (Map<Seq<Seq<char>>, Val>, Val), events: Seq<Event>, i: int, db: SummaryDb)
    requires
        0 <= i <= events.len(),
        trace_values(st, events.take(i), db) is None,
    ensures
        trace_values(st, events, db) is None,
    decreases events.len() - i,
{
    if i < events.len() {
        lemma_trace_step(st, events, i, db);
        lemma_trace_none(st, events, i + 1, db);
    } else {
        assert(events.take(i) =~= events);
    }
}

/// The effects over one more text.
proof fn lemma_effects_step(m: Map<Seq<Seq<char>>, Val>, effects: Seq<String>, j: int, receiver: Option<ResourcePath>)
    requires
        0 <= j < effects.len(),
    ensures
        text_effects_step(m, effects.take(j + 1), receiver) == match text_effects_step(m, effects.take(j), receiver) {
            Some(m2) => text_effect_step(m2, effects[j]@, receiver),
            None => None,
        },
        unread_effects(effects.take(j + 1), receiver) == if effect_matches(None, effects[j]@, receiver) {
            unread_effects(effects.take(j), receiver).push(effects[j]@)
        } else {
            unread_effects(effects.take(j), receiver)
        },
{
    assert(effects.take(j + 1).drop_last() =~= effects.take(j));
    assert(effects.take(j + 1).last() == effects[j]);
}

/// Once the effects fail they stay failed.
proof fn lemma_effects_none(m: Map<Seq<Seq<char>>, Val>, effects: Seq<String>, j: int, receiver: Option<ResourcePath>)
    requires
        0 <= j <= effects.len(),
        text_effects_step(m, effects.take(j), receiver) is None,
    ensures
        text_effects_step(m, effects, receiver) is None,
    decreases effects.len() - j,
{
    if j < effects.len() {
        lemma_effects_step(m, effects, j, receiver);
        lemma_effects_none(m, effects, j + 1, receiver);
    } else {
        assert(effects.take(j) =~= effects);
    }
}

/// Runs the events from `before`: each call adds the cost of its summary,
/// may establish `len(receiver) == 0`, and applies its effects; a call
/// without a usable summary, an unsafe block or an unknown event is
/// recorded as not modelled; a branch adds its condition.  `None` exactly
/// where a cost or length would leave `i64`.
#[verifier::rlimit(60)]
pub fn interpret_events_checked(name: &str, before: AbstractState, events: &[Event], summaries: &SummaryDb) -> (r: Option<Transition>)
    requires
        before.wf(),
    ensures
        r is Some <==> trace_values(state_values(before), events@, *summaries) is Some,
        r matches Some(t) ==> {
            &&& t.name@ == name@
            &&& t.explanation@ == "generic event interpretation"@
            &&& t.before == before
            &&& t.after.wf()
            &&& Some(state_values(t.after)) == trace_values(state_values(before), events@, *summaries)
            &&& t.after.extends_by(before, events@, *summaries)
            &&& expr_value(t.actual) == state_values(t.after).1
            &&& same_expr(t.after.actual_cost, t.actual)
        },
{
    let ghost start = state_values(before);
    let mut state = before.copy();
    proof {
        assert(events@.take(0) =~= Seq::<Event>::empty());
        assert(before.path_conditions@ + trace_conditions(events@.take(0), *summaries) =~= before.path_conditions@);
        assert(crate::text::texts(before.partial_unknowns@) + trace_unknowns(events@.take(0), *summaries) =~= crate::text::texts(before.partial_unknowns@));
    }
    let mut i: usize = 0;
    while i < events.len()
        invariant
            i <= events@.len(),
            state.wf(),
            start == state_values(before),
            trace_values(start, events@.take(i as int), *summaries) == Some(state_values(state)),
            state.extends_by(before, events@.take(i as int), *summaries),
        decreases events@.len() - i,
    {
        proof {
            lemma_trace_step(start, events@, i as int, *summaries);
        }
        let ev = &events[i];
        let ghost pre = state;
        assert(events@[i as int] == *ev);
        match ev {
            Event::Call(c) => {
                match summaries.match_call(c) {
                    Some(m) => {
                        let ghost k = first_match(summaries.summaries@, *c).unwrap();
                        let ghost s = summaries.summaries@[k];
                        assert(used_summary(*summaries, *c) == Some(s));
                        let ghost v = match parse_spec(s.cost_text()) { Some(Ok(v)) => v, _ => (0, Map::empty()) };
                        assert(expr_value(m.cost) == summary_cost(s)) by {
                            assert(expr_value(m.cost).1 =~= summary_cost(s).1);
                        }
                        proof {
                            let a = expr_value(state.actual_cost);
                            let b = expr_value(m.cost);
                            if val_add_fits(a, b) {
                                assert forall|x: Seq<char>| in_i64(#[trigger] state.actual_cost.coeff_of(x) + m.cost.coeff_of(x)) by {
                                    assert(at(a, x) == state.actual_cost.coeff_of(x));
                                    assert(at(b, x) == m.cost.coeff_of(x));
                                }
                            }
                        }
                        let nc = match state.actual_cost.checked_add(&m.cost) {
                            Some(x) => x,
                            None => {
                                proof {
                                    lemma_trace_none(start, events@, i + 1, *summaries);
                                }
                                return None;
                            },
                        };
                        proof {
                            let a = expr_value(state.actual_cost);
                            let b = expr_value(m.cost);
                            assert forall|x: Seq<char>| #![trigger at(a, x), at(b, x)] in_i64(at(a, x) + at(b, x)) by {
                                assert(in_i64(state.actual_cost.coeff_of(x) + m.cost.coeff_of(x)));
                            }
                            assert(val_add_fits(a, b));
                            assert(expr_value(nc) == val_add(a, b)) by {
                                assert(expr_value(nc).1 =~= val_add(a, b).1);
                            }
                        }
                        state.actual_cost = nc;
                        let ghost pcs0 = state.path_conditions@;
                        if let Some(cond) = &m.condition {
                            proof {
                                reveal_strlit("len(receiver) == 0");
                            }
                            if contains_text(cond.as_str(), "len(receiver) == 0") {
                                if let Some(r) = &c.receiver {
                                    state.path_conditions.push(PathCondition::LenEqZero(r.copy()));
                                }
                            }
                        }
                        let ghost m0 = lens_value(state.lens);
                        let ghost u0 = crate::text::texts(state.partial_unknowns@);
                        let ghost pcs1 = state.path_conditions;
                        let ghost cost1 = state.actual_cost;
                        proof {
                            assert(m0 == lens_value(pre.lens));
                            assert(u0 == crate::text::texts(pre.partial_unknowns@));
                            if s.condition.is_some() && c.receiver.is_some() && contains_spec(s.condition.unwrap()@, "len(receiver) == 0"@) {
                                lemma_conds_push(pre.path_conditions@, before.path_conditions@ + trace_conditions(events@.take(i as int), *summaries), state.path_conditions@.last(), PathCondition::LenEqZero(c.receiver.unwrap()));
                                assert(state.path_conditions@ == pre.path_conditions@.push(state.path_conditions@.last()));
                                assert(event_conditions(events@[i as int], *summaries) == seq![PathCondition::LenEqZero(c.receiver.unwrap())]);
                                assert((before.path_conditions@ + trace_conditions(events@.take(i as int), *summaries)).push(PathCondition::LenEqZero(c.receiver.unwrap()))
                                    =~= before.path_conditions@ + trace_conditions(events@.take(i + 1), *summaries));
                            } else {
                                assert(state.path_conditions@ == pre.path_conditions@);
                                assert(event_conditions(events@[i as int], *summaries) == Seq::<PathCondition>::empty());
                                assert(before.path_conditions@ + trace_conditions(events@.take(i + 1), *summaries)
                                    =~= before.path_conditions@ + trace_conditions(events@.take(i as int), *summaries));
                            }
                            assert(before.path_conditions@ + trace_conditions(events@.take(i + 1), *summaries) =~= (before.path_conditions@ + trace_conditions(events@.take(i as int), *summaries)) + event_conditions(events@[i as int], *summaries));
                        }
                        proof {
                            assert(s.effects@.take(0) =~= Seq::<String>::empty());
                            assert(u0 + unread_effects(s.effects@.take(0), c.receiver) =~= u0);
                        }
                        let mut j: usize = 0;
                        while j < m.effects.len()
                            invariant
                                j <= m.effects@.len(),
                                m.effects@.len() == s.effects@.len(),
                                forall|t: int| 0 <= t < m.effects@.len() ==> #[trigger] stored_effect(m.effects@[t], s.effects@[t]@, c.receiver),
                                state.wf(),
                                text_effects_step(m0, s.effects@.take(j as int), c.receiver) == Some(lens_value(state.lens)),
                                crate::text::texts(state.partial_unknowns@) == u0 + unread_effects(s.effects@.take(j as int), c.receiver),
                                state.path_conditions == pcs1,
                                state.actual_cost == cost1,
                                i < events@.len(),
                                start == state_values(before),
                                trace_values(start, events@.take(i as int), *summaries) == Some(state_values(pre)),
                                trace_values(start, events@.take(i + 1), *summaries) == event_values(state_values(pre), events@[i as int], *summaries),
                                events@[i as int] == Event::Call(*c),
                                used_summary(*summaries, *c) == Some(s),
                                val_add_fits(expr_value(pre.actual_cost), summary_cost(s)),
                                m0 == lens_value(pre.lens),
                            decreases m.effects@.len() - j,
                        {
                            proof {
                                lemma_effects_step(m0, s.effects@, j as int, c.receiver);
                                lemma_stored_effect_step(lens_value(state.lens), m.effects@[j as int], s.effects@[j as int]@, c.receiver);
                            }
                            let ghost before_u = state.partial_unknowns@;
                            if !state.apply_effect_checked(&m.effects[j]) {
                                proof {
                                    lemma_effects_none(m0, s.effects@, j + 1, c.receiver);
                                    lemma_trace_none(start, events@, i + 1, *summaries);
                                }
                                return None;
                            }
                            proof {
                                let e = m.effects@[j as int];
                                assert(stored_effect(e, s.effects@[j as int]@, c.receiver));
                                match e {
                                    SummaryEffect::Unknown(u) => {
                                        assert(state.partial_unknowns@ =~= before_u.push(u));
                                        lemma_texts_push(before_u, u);
                                        assert(u@ == s.effects@[j as int]@);
                                        assert(effect_matches(None, s.effects@[j as int]@, c.receiver));
                                    },
                                    _ => {
                                        assert(state.partial_unknowns@ =~= before_u);
                                        assert(effect_matches(Some(e), s.effects@[j as int]@, c.receiver));
                                        assert(!effect_matches(None, s.effects@[j as int]@, c.receiver));
                                    },
                                }
                            }
                            j = j + 1;
                        }
                        proof {
                            assert(s.effects@.take(j as int) =~= s.effects@);
                        }
                        let ghost u1 = state.partial_unknowns@;
                        if let Some(u) = &m.partial_unknown {
                            state.partial_unknowns.push(u.clone());
                            proof {
                                lemma_texts_push(u1, *u);
                            }
                        }
                        proof {
                            assert(crate::text::texts(before.partial_unknowns@) + trace_unknowns(events@.take(i + 1), *summaries) =~= (crate::text::texts(before.partial_unknowns@) + trace_unknowns(events@.take(i as int), *summaries)) + event_unknowns(events@[i as int], *summaries));
                            assert(crate::text::texts(state.partial_unknowns@) =~= crate::text::texts(pre.partial_unknowns@) + event_unknowns(events@[i as int], *summaries));
                            assert(same_conditions(state.path_conditions@, before.path_conditions@ + trace_conditions(events@.take(i + 1), *summaries)));
                            assert(crate::text::texts(state.partial_unknowns@) == crate::text::texts(before.partial_unknowns@) + trace_unknowns(events@.take(i + 1), *summaries));
                        }
                    },
                    None => {
                        let msg = concat2("missing summary for ", c.callee.as_str());
                        state.partial_unknowns.push(msg);
                        proof {
                            lemma_texts_push(pre.partial_unknowns@, msg);
                            assert(used_summary(*summaries, *c) is None);
                            assert(event_unknowns(events@[i as int], *summaries) == seq!["missing summary for "@ + c.callee@]);
                            assert(crate::text::texts(state.partial_unknowns@) =~= crate::text::texts(pre.partial_unknowns@) + event_unknowns(events@[i as int], *summaries));
                            assert(crate::text::texts(before.partial_unknowns@) + trace_unknowns(events@.take(i + 1), *summaries) =~= (crate::text::texts(before.partial_unknowns@) + trace_unknowns(events@.take(i as int), *summaries)) + event_unknowns(events@[i as int], *summaries));
                            assert(before.path_conditions@ + trace_conditions(events@.take(i + 1), *summaries) =~= before.path_conditions@ + trace_conditions(events@.take(i as int), *summaries));
                        }
                    },
                }
            },
            Event::Branch(b) => {
                if let Some(pc) = &b.condition {
                    let c2 = pc.copy();
                    state.path_conditions.push(c2);
                    proof {
                        lemma_conds_push(pre.path_conditions@, before.path_conditions@ + trace_conditions(events@.take(i as int), *summaries), c2, *pc);
                    }
                }
                proof {
                    assert(event_unknowns(events@[i as int], *summaries) == Seq::<Seq<char>>::empty());
                    assert(before.path_conditions@ + trace_conditions(events@.take(i + 1), *summaries) =~= (before.path_conditions@ + trace_conditions(events@.take(i as int), *summaries)) + event_conditions(events@[i as int], *summaries));
                    assert(crate::text::texts(before.partial_unknowns@) + trace_unknowns(events@.take(i + 1), *summaries) =~= crate::text::texts(before.partial_unknowns@) + trace_unknowns(events@.take(i as int), *summaries));
                }
            },
            Event::Unsafe { detail, .. } => {
                let msg = concat2("unsafe: ", detail.as_str());
                state.partial_unknowns.push(msg);
                proof {
                    lemma_texts_push(pre.partial_unknowns@, msg);
                    assert(event_unknowns(events@[i as int], *summaries) == seq![msg@]);
                    assert(crate::text::texts(state.partial_unknowns@) =~= crate::text::texts(pre.partial_unknowns@) + event_unknowns(events@[i as int], *summaries));
                    assert(crate::text::texts(before.partial_unknowns@) + trace_unknowns(events@.take(i + 1), *summaries) =~= (crate::text::texts(before.partial_unknowns@) + trace_unknowns(events@.take(i as int), *summaries)) + event_unknowns(events@[i as int], *summaries));
                    assert(before.path_conditions@ + trace_conditions(events@.take(i + 1), *summaries) =~= before.path_conditions@ + trace_conditions(events@.take(i as int), *summaries));
                }
            },
            Event::Unknown { detail, .. } => {
                let msg = concat2("unknown MIR event: ", detail.as_str());
                state.partial_unknowns.push(msg);
                proof {
                    lemma_texts_push(pre.partial_unknowns@, msg);
                    assert(event_unknowns(events@[i as int], *summaries) == seq![msg@]);
                    assert(crate::text::texts(state.partial_unknowns@) =~= crate::text::texts(pre.partial_unknowns@) + event_unknowns(events@[i as int], *summaries));
                    assert(crate::text::texts(before.partial_unknowns@) + trace_unknowns(events@.take(i + 1), *summaries) =~= (crate::text::texts(before.partial_unknowns@) + trace_unknowns(events@.take(i as int), *summaries)) + event_unknowns(events@[i as int], *summaries));
                    assert(before.path_conditions@ + trace_conditions(events@.take(i + 1), *summaries) =~= before.path_conditions@ + trace_conditions(events@.take(i as int), *summaries));
                }
            },
            _ => {
                proof {
                    assert(event_unknowns(events@[i as int], *summaries) == Seq::<Seq<char>>::empty());
                    assert(event_conditions(events@[i as int], *summaries) == Seq::<PathCondition>::empty());
                    assert(before.path_conditions@ + trace_conditions(events@.take(i + 1), *summaries) =~= before.path_conditions@ + trace_conditions(events@.take(i as int), *summaries));
                    assert(crate::text::texts(before.partial_unknowns@) + trace_unknowns(events@.take(i + 1), *summaries) =~= crate::text::texts(before.partial_unknowns@) + trace_unknowns(events@.take(i as int), *summaries));
                }
            },
        }
        assert(state.extends_by(before, events@.take(i + 1), *summaries));
        i = i + 1;
    }
    proof {
        assert(events@.take(i as int) =~= events@);
    }
    let after = state.copy();
    proof {
        lemma_conds_trans(after.path_conditions@, state.path_conditions@, before.path_conditions@ + trace_conditions(events@, *summaries));
    }
    let actual = state.actual_cost;
    Some(Transition { name: owned(name), before, after, actual, explanation: owned("generic event interpretation") })
}

/// `interpret_events_checked` on events whose costs and lengths stay within `i64`.
pub fn interpret_events(name: &str, before: AbstractState, events: &[Event], summaries: &SummaryDb) -> (r: Transition)
    requires
        before.wf(),
        trace_values(state_values(before), events@, *summaries) is Some,
    ensures
        r.name@ == name@,
        r.explanation@ == "generic event interpretation"@,
        r.before == before,
        r.after.wf(),
        Some(state_values(r.after)) == trace_values(state_values(before), events@, *summaries),
        r.after.extends_by(before, events@, *summaries),
        expr_value(r.actual) == state_values(r.after).1,
        same_expr(r.after.actual_cost, r.actual),
{
    match interpret_events_checked(name, before, events, summaries) {
        Some(t) => t,
        None => {
            proof {
                assert(false);
            }
            Transition {
                name: owned(name),
                before: AbstractState::default(),
                after: AbstractState::default(),
                actual: LinExpr::zero(),
                explanation: owned(""),
            }
        },
    }
}

impl AbstractState {
    /// Applies an effect whose arithmetic stays within `i64`.
    pub fn apply_effect(&mut self, eff: &SummaryEffect)
        requires
            old(self).wf(),
            effect_wf(*eff),
            effect_step(lens_value(old(self).lens), *eff) is Some,
        ensures
            final(self).wf(),
            Some(lens_value(final(self).lens)) == effect_step(lens_value(old(self).lens), *eff),
            stored_after(old(self).lens, final(self).lens, *eff),
            final(self).path_conditions == old(self).path_conditions,
            final(self).actual_cost == old(self).actual_cost,
            final(self).partial_unknowns@ == old(self).partial_unknowns@ + match *eff {
                SummaryEffect::Unknown(u) => seq![u],
                _ => Seq::<String>::empty(),
            },
    {
        let ok = self.apply_effect_checked(eff);
        assert(ok);
    }
}

} // verus!
