//! How unsafe code and raw pointers affect the status of a proof.
use vstd::prelude::*;
use crate::ir::{AccessKind, Event};
use crate::report::{Diagnostic, Status};
use crate::text::concat2;

verus! {

/// What to do about unsafe code, raw-pointer receivers and interior mutability.
#[derive(Debug, Clone)]
pub struct SoundnessPolicy {
    pub unsafe_policy: UnsafePolicy,
    pub raw_pointer_policy: RawPointerPolicy,
    pub interior_mutability_policy: InteriorMutabilityPolicy,
}

#[derive(Debug, Clone, Copy, PartialEq, Eq, Structural)]
pub enum UnsafePolicy {
    Undefined,
    Partial,
    AllowWithSummary,
}

#[derive(Debug, Clone, Copy, PartialEq, Eq, Structural)]
pub enum RawPointerPolicy {
    Undefined,
    Partial,
    AllowWithSummary,
}

#[derive(Debug, Clone, Copy, PartialEq, Eq, Structural)]
pub enum InteriorMutabilityPolicy {
    SummaryRequired,
    Partial,
}

impl Default for SoundnessPolicy {
    /// Unsafe code makes a result undefined, raw-pointer receivers make it
    /// partial, interior mutability needs a summary.
    fn default() -> (r: Self)
        ensures
            r.unsafe_policy == UnsafePolicy::Undefined,
            r.raw_pointer_policy == RawPointerPolicy::Partial,
            r.interior_mutability_policy == InteriorMutabilityPolicy::SummaryRequired,
    {
        SoundnessPolicy {
            unsafe_policy: UnsafePolicy::Undefined,
            raw_pointer_policy: RawPointerPolicy::Partial,
            interior_mutability_policy: InteriorMutabilityPolicy::SummaryRequired,
        }
    }
}

/// A diagnostic by value: its level and message.
pub type DiagText = (Seq<char>, Seq<char>);

/// Status and diagnostics after one more event.
pub open spec fn policy_step(p: SoundnessPolicy, st: (Status, Seq<DiagText>), ev: Event) -> (Status, Seq<DiagText>) {
    match ev {
        Event::Unsafe { detail, .. } => match p.unsafe_policy {
            UnsafePolicy::Undefined => (Status::Undefined, st.1.push(("error"@, "unsafe unsupported: "@ + detail@))),
            UnsafePolicy::Partial => (
                if st.0 == Status::Proven { Status::Partial } else { st.0 },
                st.1.push(("warn"@, "unsafe treated as partial: "@ + detail@)),
            ),
            UnsafePolicy::AllowWithSummary => st,
        },
        Event::Call(c) => if c.receiver_access == AccessKind::RawPointer && p.raw_pointer_policy == RawPointerPolicy::Undefined {
            (Status::Undefined, st.1.push(("error"@, "raw pointer receiver unsupported: "@ + c.callee@)))
        } else if c.receiver_access == AccessKind::RawPointer && p.raw_pointer_policy == RawPointerPolicy::Partial
            && st.0 == Status::Proven {
            (Status::Partial, st.1.push(("warn"@, "raw pointer receiver in "@ + c.callee@)))
        } else {
            st
        },
        _ => st,
    }
}

/// Status and diagnostics after the events, starting from `Proven` and none.
pub open spec fn policy_trace(p: SoundnessPolicy, events: Seq<Event>) -> (Status, Seq<DiagText>)
    decreases events.len(),
{
    if events.len() == 0 {
        (Status::Proven, Seq::empty())
    } else {
        policy_step(p, policy_trace(p, events.drop_last()), events.last())
    }
}

/// The diagnostics, by value.
pub open spec fn diag_texts(ds: Seq<Diagnostic>) -> Seq<DiagText> {
    ds.map_values(|d: Diagnostic| (d.level@, d.message@))
}

impl SoundnessPolicy {
    /// The status the policy gives the events, with a diagnostic for each
    /// unsafe block, for each raw-pointer receiver the policy refuses and
    /// for the first one that lowers a proven status to partial.
    pub fn inspect_events(&self, events: &[Event]) -> (r: (Status, Vec<Diagnostic>))
        ensures
            r.0 == policy_trace(*self, events@).0,
            diag_texts(r.1@) == policy_trace(*self, events@).1,
    {
        let mut status = Status::Proven;
        let mut diags: Vec<Diagnostic> = Vec::new();
        let mut i: usize = 0;
        assert(diag_texts(diags@) =~= Seq::<DiagText>::empty());
        while i < events.len()
            invariant
                i <= events@.len(),
                (status, diag_texts(diags@)) == policy_trace(*self, events@.take(i as int)),
            decreases events@.len() - i,
        {
            assert(events@.take(i + 1).drop_last() =~= events@.take(i as int));
            let ghost before = diags@;
            match &events[i] {
                Event::Unsafe { detail, .. } => match self.unsafe_policy {
                    UnsafePolicy::Undefined => {
                        status = Status::Undefined;
                        let d = Diagnostic::error(concat2("unsafe unsupported: ", detail.as_str()));
                        diags.push(d);
                        assert(diag_texts(diags@) =~= diag_texts(before).push((d.level@, d.message@)));
                    },
                    UnsafePolicy::Partial => {
                        if status == Status::Proven {
                            status = Status::Partial;
                        }
                        let d = Diagnostic::warn(concat2("unsafe treated as partial: ", detail.as_str()));
                        diags.push(d);
                        assert(diag_texts(diags@) =~= diag_texts(before).push((d.level@, d.message@)));
                    },
                    UnsafePolicy::AllowWithSummary => {},
                },
                Event::Call(c) => {
                    if c.receiver_access == AccessKind::RawPointer {
                        if self.raw_pointer_policy == RawPointerPolicy::Undefined {
                            status = Status::Undefined;
                            let d = Diagnostic::error(concat2("raw pointer receiver unsupported: ", c.callee.as_str()));
                            diags.push(d);
                            assert(diag_texts(diags@) =~= diag_texts(before).push((d.level@, d.message@)));
                        } else if self.raw_pointer_policy == RawPointerPolicy::Partial && status == Status::Proven {
                            status = Status::Partial;
                            let d = Diagnostic::warn(concat2("raw pointer receiver in ", c.callee.as_str()));
                            diags.push(d);
                            assert(diag_texts(diags@) =~= diag_texts(before).push((d.level@, d.message@)));
                        }
                    }
                },
                _ => {},
            }
            i = i + 1;
        }
        assert(events@.take(events@.len() as int) =~= events@);
        (status, diags)
    }
}

/// An event the policy does not let pass unremarked: unsafe code unless it
/// is allowed with a summary, and a call through a raw-pointer receiver
/// unless such calls are allowed with a summary.
pub open spec fn lowers_status(p: SoundnessPolicy, ev: Event) -> bool {
    match ev {
        Event::Unsafe { .. } => p.unsafe_policy != UnsafePolicy::AllowWithSummary,
        Event::Call(c) => c.receiver_access == AccessKind::RawPointer && p.raw_pointer_policy
            != RawPointerPolicy::AllowWithSummary,
        _ => false,
    }
}

/// An event the policy refuses outright: unsafe code, or a raw-pointer
/// receiver, where that policy is `Undefined`.
pub open spec fn refused(p: SoundnessPolicy, ev: Event) -> bool {
    match ev {
        Event::Unsafe { .. } => p.unsafe_policy == UnsafePolicy::Undefined,
        Event::Call(c) => c.receiver_access == AccessKind::RawPointer && p.raw_pointer_policy
            == RawPointerPolicy::Undefined,
        _ => false,
    }
}

proof fn lemma_policy_step_verdict(p: SoundnessPolicy, st: (Status, Seq<DiagText>), ev: Event)
    ensures
        (policy_step(p, st, ev).0 == Status::Proven) == (st.0 == Status::Proven && !lowers_status(p, ev)),
        (policy_step(p, st, ev).0 == Status::Undefined) == (st.0 == Status::Undefined || refused(p, ev)),
{
    match ev {
        Event::Unsafe { .. } => {},
        Event::Call(c) => {},
        _ => {},
    }
}

/// The policy's verdict on a list of events: proven exactly when no event
/// lowers the status (so one call through a raw pointer under a `Partial`
/// policy, or one unsafe block under a `Partial` or `Undefined` policy,
/// rules out proven), and undefined exactly when some event is refused.
pub proof fn lemma_policy_verdict(p: SoundnessPolicy, events: Seq<Event>)
    ensures
        (policy_trace(p, events).0 == Status::Proven) <==> forall|i: int|
            0 <= i < events.len() ==> !#[trigger] lowers_status(p, events[i]),
        (policy_trace(p, events).0 == Status::Undefined) <==> exists|i: int|
            0 <= i < events.len() && #[trigger] refused(p, events[i]),
    decreases events.len(),
{
    if events.len() > 0 {
        let init = events.drop_last();
        lemma_policy_verdict(p, init);
        let ev = events.last();
        assert(ev == events[events.len() - 1]);
        lemma_policy_step_verdict(p, policy_trace(p, init), ev);
        assert forall|i: int| 0 <= i < init.len() implies #[trigger] init[i] == events[i] by {}
        if forall|i: int| 0 <= i < events.len() ==> !#[trigger] lowers_status(p, events[i]) {
            assert forall|i: int| 0 <= i < init.len() implies !#[trigger] lowers_status(p, init[i]) by {
                assert(init[i] == events[i]);
            }
        } else {
            let i = choose|i: int| 0 <= i < events.len() && #[trigger] lowers_status(p, events[i]);
            if i < init.len() {
                assert(init[i] == events[i]);
            }
        }
        if exists|i: int| 0 <= i < events.len() && #[trigger] refused(p, events[i]) {
            let i = choose|i: int| 0 <= i < events.len() && #[trigger] refused(p, events[i]);
            if i < init.len() {
                assert(init[i] == events[i]);
            }
        } else {
            assert forall|i: int| 0 <= i < init.len() implies !#[trigger] refused(p, init[i]) by {
                assert(init[i] == events[i]);
            }
        }
    }
}

} // verus!
