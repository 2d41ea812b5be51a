//! Diagnostics for obligations that failed their exact check.
use vstd::prelude::*;
use crate::obligation::VerifiedObligation;
use crate::report::Diagnostic;
use crate::text::{concat3, push_text};

verus! {

/// The message for a failed obligation.
pub open spec fn failure_text(o: VerifiedObligation) -> Seq<char> {
    "failed obligation `"@ + o.obligation.name@ + "`; slack rhs-lhs = "@ + o.check.slack.text()
}

/// The messages of the failed obligations, in order.
pub open spec fn failure_texts(obs: Seq<VerifiedObligation>) -> Seq<Seq<char>>
    decreases obs.len(),
{
    if obs.len() == 0 {
        Seq::empty()
    } else if obs.last().check.proven {
        failure_texts(obs.drop_last())
    } else {
        failure_texts(obs.drop_last()).push(failure_text(obs.last()))
    }
}

/// One error diagnostic per message, in order.
pub open spec fn errors_with(ds: Seq<Diagnostic>, msgs: Seq<Seq<char>>) -> bool {
    &&& ds.len() == msgs.len()
    &&& forall|j: int| 0 <= j < ds.len() ==> #[trigger] ds[j].level@ == "error"@ && ds[j].message@ == msgs[j]
}

/// One error per obligation whose check failed, naming it and its slack.
pub fn diagnostics_for_failed_obligations(obs: &[VerifiedObligation]) -> (r: Vec<Diagnostic>)
    ensures
        errors_with(r@, failure_texts(obs@)),
{
    let mut out: Vec<Diagnostic> = Vec::new();
    let mut i: usize = 0;
    while i < obs.len()
        invariant
            i <= obs@.len(),
            errors_with(out@, failure_texts(obs@.take(i as int))),
        decreases obs@.len() - i,
    {
        let o = &obs[i];
        assert(obs@.take(i + 1).drop_last() =~= obs@.take(i as int));
        assert(obs@.take(i + 1).last() == *o);
        let ghost prev = failure_texts(obs@.take(i as int));
        assert(failure_texts(obs@.take(i + 1)) == if o.check.proven {
            prev
        } else {
            prev.push(failure_text(*o))
        });
        if !o.check.proven {
            let mut msg = concat3("failed obligation `", o.obligation.name.as_str(), "`; slack rhs-lhs = ");
            let slack = o.check.slack.to_string();
            push_text(&mut msg, slack.as_str());
            let ghost before = out@;
            let d = Diagnostic::error(msg);
            out.push(d);
            assert forall|j: int| 0 <= j < out@.len() implies #[trigger] out@[j].level@ == "error"@ && out@[j].message@ == prev.push(failure_text(*o))[j] by {
                if j < before.len() {
                    assert(out@[j] == before[j]);
                    assert(before[j].level@ == "error"@);
                } else {
                    assert(out@[j] == d);
                }
            }
        }
        i = i + 1;
    }
    assert(obs@.take(obs@.len() as int) =~= obs@);
    out
}

} // verus!
