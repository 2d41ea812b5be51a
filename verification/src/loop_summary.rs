//! Summaries of whole loops, such as a loop that drains one collection into another.
use vstd::prelude::*;
use crate::expr::{in_i64, same_expr, LinExpr};
use crate::keymap::TextKey;
use crate::ir::{Event, ResourcePath};
use crate::obligation::expr_value;
use crate::summary::SummaryDb;
use crate::text::{owned, push_text, text_eq};
use crate::transition::{
    at, len_in, lens_value, same_conditions, state_values, val_add, val_add_fits, AbstractState, Val,
};

verus! {

/// The effect of a whole loop: how often it runs, what it costs, and the
/// state before and after.
#[derive(Debug, Clone, PartialEq, Eq)]
pub struct LoopSummary {
    pub name: String,
    pub iterations: LinExpr,
    pub cost: LinExpr,
    pub before: AbstractState,
    pub after: AbstractState,
    pub explanation: String,
}

pub open spec fn val_scale(a: Val, k: int) -> Val {
    (a.0 * k, |n: Seq<char>| (a.1)(n) * k)
}

pub open spec fn val_scale_fits(a: Val, k: int) -> bool {
    in_i64(a.0 * k) && forall|n: Seq<char>| #[trigger] in_i64(at(a, n) * k)
}

pub open spec fn zero_val() -> Val {
    (0, |n: Seq<char>| 0int)
}

/// The lengths after draining `src` into `dst`: `src` is empty and `dst`
/// has gained what `src` held.
pub open spec fn drained(m: Map<Seq<Seq<char>>, Val>, src: ResourcePath, dst: ResourcePath) -> Map<Seq<Seq<char>>, Val> {
    m.insert(src@, zero_val()).insert(dst@, val_add(len_in(m, dst), len_in(m, src)))
}

/// Draining moves length and neither loses nor creates any: the source
/// ends empty, and source and destination hold together what they held
/// before.
pub proof fn lemma_drain_conserves(m: Map<Seq<Seq<char>>, Val>, src: ResourcePath, dst: ResourcePath)
    requires
        src@ != dst@,
    ensures
        len_in(drained(m, src, dst), src).0 == 0,
        forall|n: Seq<char>| #[trigger] at(len_in(drained(m, src, dst), src), n) == 0,
        len_in(drained(m, src, dst), src).0 + len_in(drained(m, src, dst), dst).0 == len_in(m, src).0 + len_in(m, dst).0,
        forall|n: Seq<char>|
            at(len_in(drained(m, src, dst), src), n) + #[trigger] at(len_in(drained(m, src, dst), dst), n) == at(
                len_in(m, src),
                n,
            ) + at(len_in(m, dst), n),
{
    let d = drained(m, src, dst);
    assert(d.contains_key(src@) && d[src@] == zero_val());
    assert(d.contains_key(dst@) && d[dst@] == val_add(len_in(m, dst), len_in(m, src)));
}

/// The first `pop` receiver followed by a `push` to another receiver, scanning
/// from position `i` with `pending` the receiver of the last `pop`.
pub open spec fn drain_scan(events: Seq<Event>, i: int, pending: Option<ResourcePath>) -> Option<(ResourcePath, ResourcePath)>
    decreases events.len() - i,
{
    if i < 0 || i >= events.len() {
        None
    } else {
        match events[i] {
            Event::Call(c) => {
                let p2 = if c.method@ == "pop"@ { c.receiver } else { pending };
                if c.method@ == "push"@ && p2 is Some && c.receiver is Some && p2.unwrap()@ != c.receiver.unwrap()@ {
                    Some((p2.unwrap(), c.receiver.unwrap()))
                } else {
                    drain_scan(events, i + 1, p2)
                }
            },
            _ => drain_scan(events, i + 1, pending),
        }
    }
}

/// The pattern's source and destination are different resources.
proof fn lemma_drain_scan_distinct(events: Seq<Event>, i: int, pending: Option<ResourcePath>)
    ensures
        drain_scan(events, i, pending) matches Some(p) ==> p.0@ != p.1@,
    decreases events.len() - i,
{
    if 0 <= i < events.len() {
        match events[i] {
            Event::Call(c) => {
                let p2 = if c.method@ == "pop"@ { c.receiver } else { pending };
                lemma_drain_scan_distinct(events, i + 1, p2);
            },
            _ => {
                lemma_drain_scan_distinct(events, i + 1, pending);
            },
        }
    }
}

/// The source and destination of the draining pattern in the events, if any.
pub open spec fn drain_pair(events: Seq<Event>) -> Option<(ResourcePath, ResourcePath)> {
    drain_scan(events, 0, None)
}

/// The summary's arithmetic stays within `i64`.
pub open spec fn drain_fits(before: AbstractState, events: Seq<Event>) -> bool {
    match drain_pair(events) {
        Some(p) => {
            &&& val_add_fits(before.len_value(p.1), before.len_value(p.0))
            &&& val_scale_fits(before.len_value(p.0), 2)
        },
        None => true,
    }
}

/// The loop summary text: `draining loop: src.pop -> dst.push`.
pub open spec fn drain_text(src: ResourcePath, dst: ResourcePath) -> Seq<char> {
    "draining loop: "@ + src.text() + ".pop -> "@ + dst.text() + ".push"@
}

/// Recognises the loop `while let Some(x) = src.pop() { dst.push(x) }` and
/// summarises it: it runs `len(src)` times at cost `2·len(src)`, empties
/// `src` and adds `len(src)` to `dst`.
pub fn infer_draining_loop(name: &str, events: &[Event], _summaries: &SummaryDb, before: &AbstractState) -> (r: Option<LoopSummary>)
    requires
        before.wf(),
        drain_fits(*before, events@),
    ensures
        r is Some <==> drain_pair(events@) is Some,
        r matches Some(ls) ==> {
            let (src, dst) = drain_pair(events@).unwrap();
            &&& ls.name@ == name@
            &&& ls.iterations.wf()
            &&& expr_value(ls.iterations) == before.len_value(src)
            &&& ls.cost.wf()
            &&& expr_value(ls.cost) == val_scale(before.len_value(src), 2)
            &&& ls.before.wf()
            &&& state_values(ls.before) == state_values(*before)
            &&& ls.after.wf()
            &&& lens_value(ls.after.lens) == drained(lens_value(before.lens), src, dst)
            &&& expr_value(ls.after.actual_cost) == expr_value(before.actual_cost)
            &&& same_conditions(ls.after.path_conditions@, before.path_conditions@)
            &&& ls.after.partial_unknowns@ == before.partial_unknowns@
            &&& ls.explanation@ == drain_text(src, dst)
            &&& ls.cost.normalized()
            &&& before.lens@.contains_key(src@) ==> same_expr(ls.iterations, before.lens@[src@])
            &&& !before.lens@.contains_key(src@) ==> ls.iterations.normalized()
            &&& ls.after.lens@.contains_key(src@)
            &&& ls.after.lens@[src@].constant == 0
            &&& ls.after.lens@[src@].terms.entries().len() == 0
            &&& ls.after.lens@.contains_key(dst@)
            &&& ls.after.lens@[dst@].normalized()
        },
{
    let mut pending: Option<ResourcePath> = None;
    let ghost sp: Option<ResourcePath> = None;
    let mut found: Option<(ResourcePath, ResourcePath)> = None;
    let mut i: usize = 0;
    while i < events.len() && found.is_none()
        invariant
            i <= events@.len(),
            found is None ==> drain_pair(events@) == drain_scan(events@, i as int, sp),
            pending is Some <==> sp is Some,
            pending is Some ==> pending.unwrap()@ == sp.unwrap()@,
            found matches Some(f) ==> drain_pair(events@) matches Some(d) && f.0@ == d.0@ && f.1@ == d.1@,
        decreases events@.len() - i,
    {
        match &events[i] {
            Event::Call(c) => {
                let ghost sp2 = if c.method@ == "pop"@ { c.receiver } else { sp };
                proof {
                    reveal_strlit("pop");
                    reveal_strlit("push");
                }
                if text_eq(c.method.as_str(), "pop") {
                    pending = match &c.receiver {
                        Some(p) => Some(p.copy()),
                        None => None,
                    };
                }
                proof {
                    sp = sp2;
                }
                if text_eq(c.method.as_str(), "push") {
                    match (&pending, &c.receiver) {
                        (Some(src), Some(dst)) => {
                            if !src.same_as(dst) {
                                found = Some((src.copy(), dst.copy()));
                            }
                        },
                        _ => {},
                    }
                }
            },
            _ => {},
        }
        i = i + 1;
    }
    let (src, dst) = match found {
        Some(p) => p,
        None => {
            assert(drain_scan(events@, i as int, sp) is None);
            return None;
        },
    };
    let ghost pair = drain_pair(events@).unwrap();
    proof {
        crate::ir::lemma_same_view_same_text(src, pair.0);
        crate::ir::lemma_same_view_same_text(dst, pair.1);
    }
    let n = before.len_of(&src);
    let mut after = before.copy();
    let z = LinExpr::zero();
    assert(expr_value(z).1 =~= zero_val().1);
    after.set_len(src.copy(), z);
    let d0 = before.len_of(&dst);
    proof {
        assert(before.len_value(dst) == before.len_value(pair.1));
        assert(before.len_value(src) == before.len_value(pair.0));
        let a = before.len_value(pair.1);
        let b = before.len_value(pair.0);
        assert forall|x: Seq<char>| in_i64(#[trigger] d0.coeff_of(x) + n.coeff_of(x)) by {
            assert(at(a, x) == d0.coeff_of(x));
            assert(at(b, x) == n.coeff_of(x));
        }
        assert forall|x: Seq<char>| in_i64(#[trigger] n.coeff_of(x) * 2) by {
            assert(at(b, x) == n.coeff_of(x));
            assert(in_i64(at(b, x) * 2));
        }
    }
    let dst_after = d0.add(&n);
    after.set_len(dst.copy(), dst_after);
    let cost = n.scale(2);
    proof {
        assert(expr_value(cost).1 =~= val_scale(before.len_value(src), 2).1);
        assert(expr_value(dst_after).1 =~= val_add(before.len_value(dst), before.len_value(src)).1);
    }
    let mut explanation = owned("draining loop: ");
    push_text(&mut explanation, src.to_string().as_str());
    push_text(&mut explanation, ".pop -> ");
    push_text(&mut explanation, dst.to_string().as_str());
    push_text(&mut explanation, ".push");
    let iterations = n.clone_expr();
    proof {
        if before.lens@.contains_key(src@) {
            let e = before.lens@[src@];
            assert forall|i: int| 0 <= i < iterations.terms.entries().len() implies #[trigger] iterations.terms.entries()[i].0.key_view()
                == e.terms.entries()[i].0.key_view() && iterations.terms.entries()[i].1 == e.terms.entries()[i].1 by {
                assert(iterations.terms.entries()[i].0.key_view() == n.terms.entries()[i].0.key_view());
                assert(n.terms.entries()[i].0.key_view() == e.terms.entries()[i].0.key_view());
            }
        }
        lemma_drain_scan_distinct(events@, 0, None);
        assert(src@ != dst@);
        assert(after.lens@[dst@] == dst_after);
        assert(after.lens@[src@] == z);
    }
    Some(LoopSummary {
        name: owned(name),
        iterations,
        cost,
        before: before.copy(),
        after,
        explanation,
    })
}

} // verus!
