//! Human-readable explanations of obligations and certificates.
use vstd::prelude::*;
use crate::certificate::Certificate;
use crate::obligation::Obligation;
use crate::text::{owned, push_text};

verus! {

/// `name:`, the checked inequality, and the reason.
pub open spec fn obligation_text(o: Obligation) -> Seq<char> {
    o.name@ + ":\n  check: "@ + o.actual.text() + " + "@ + o.phi_after.text() + " <= "@ + o.amortized.text() + " + "@
        + o.phi_before.text() + "\n  reason: "@ + o.explanation@
}

/// The explanations of the obligations, each on lines of its own.
pub open spec fn obligations_text(os: Seq<Obligation>) -> Seq<char>
    decreases os.len(),
{
    if os.len() == 0 {
        Seq::empty()
    } else {
        obligations_text(os.drop_last()) + "\n"@ + obligation_text(os.last()) + "\n"@
    }
}

pub fn explain_obligation(o: &Obligation) -> (r: String)
    ensures
        r@ == obligation_text(*o),
{
    let mut out = owned(o.name.as_str());
    push_text(&mut out, ":\n  check: ");
    push_text(&mut out, o.actual.to_string().as_str());
    push_text(&mut out, " + ");
    push_text(&mut out, o.phi_after.to_string().as_str());
    push_text(&mut out, " <= ");
    push_text(&mut out, o.amortized.to_string().as_str());
    push_text(&mut out, " + ");
    push_text(&mut out, o.phi_before.to_string().as_str());
    push_text(&mut out, "\n  reason: ");
    push_text(&mut out, o.explanation.as_str());
    out
}

/// The function and potential of a certificate, then each obligation explained.
pub fn explain_certificate(cert: &Certificate) -> (r: String)
    ensures
        r@ == "proof for "@ + cert.function@ + "\n  potential: "@ + cert.potential@ + "\n"@ + obligations_text(cert.obligations@),
{
    let mut out = owned("proof for ");
    push_text(&mut out, cert.function.as_str());
    push_text(&mut out, "\n  potential: ");
    push_text(&mut out, cert.potential.as_str());
    push_text(&mut out, "\n");
    let ghost head = out@;
    let mut i: usize = 0;
    while i < cert.obligations.len()
        invariant
            i <= cert.obligations@.len(),
            out@ == head + obligations_text(cert.obligations@.take(i as int)),
        decreases cert.obligations@.len() - i,
    {
        let o = &cert.obligations[i];
        assert(cert.obligations@.take(i + 1).drop_last() =~= cert.obligations@.take(i as int));
        push_text(&mut out, "\n");
        let e = explain_obligation(o);
        push_text(&mut out, e.as_str());
        push_text(&mut out, "\n");
        i = i + 1;
    }
    assert(cert.obligations@.take(cert.obligations@.len() as int) =~= cert.obligations@);
    out
}

} // verus!
