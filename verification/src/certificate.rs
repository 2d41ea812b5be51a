//! Certificates: a potential with concrete coefficients and the obligations
//! it discharges, checked exactly.
use vstd::prelude::*;
use crate::keymap::KeyMap;
use crate::obligation::{
    all_candidate_fits, expr_value, slack_is, subst_value, verified_as, verify_candidate, verify_candidate_checked, Obligation,
    VerifiedObligation,
};

verus! {

/// A claimed amortized bound: the potential, the coefficients that
/// instantiate it and the obligations to check.
#[derive(Debug, Clone, PartialEq, Eq)]
pub struct Certificate {
    pub function: String,
    pub potential: String,
    pub coefficients: KeyMap<String, i64>,
    pub obligations: Vec<Obligation>,
}

/// The outcome of checking a certificate.
#[derive(Debug, Clone, PartialEq, Eq)]
pub struct CertificateCheck {
    pub function: String,
    pub verified: bool,
    pub obligations: Vec<VerifiedObligation>,
}

impl Certificate {
    /// The certificate can be checked without leaving `i64`.
    pub open spec fn checkable(self) -> bool {
        &&& self.coefficients.wf()
        &&& all_candidate_fits(self.obligations@, self.coefficients)
    }

    /// Every obligation holds once the coefficients are substituted.
    pub open spec fn sound(self) -> bool {
        forall|i: int| 0 <= i < self.obligations@.len() ==> #[trigger] self.obligations@[i].holds_under(self.coefficients)
    }
}

/// Instantiates every obligation with the certificate's coefficients and
/// checks it; the certificate is verified exactly when all of them hold.
pub fn check_certificate(cert: &Certificate) -> (r: CertificateCheck)
    requires
        cert.checkable(),
    ensures
        r.function@ == cert.function@,
        r.verified == cert.sound(),
        r.obligations@.len() == cert.obligations@.len(),
        forall|i: int| 0 <= i < r.obligations@.len() ==> {
            &&& #[trigger] r.obligations@[i].obligation.wf()
            &&& r.obligations@[i].obligation.name@ == cert.obligations@[i].name@
            &&& r.obligations@[i].obligation.explanation@ == cert.obligations@[i].explanation@
            &&& expr_value(r.obligations@[i].obligation.actual) == subst_value(cert.obligations@[i].actual, cert.coefficients)
            &&& expr_value(r.obligations@[i].obligation.phi_before) == subst_value(cert.obligations@[i].phi_before, cert.coefficients)
            &&& expr_value(r.obligations@[i].obligation.phi_after) == subst_value(cert.obligations@[i].phi_after, cert.coefficients)
            &&& expr_value(r.obligations@[i].obligation.amortized) == subst_value(cert.obligations@[i].amortized, cert.coefficients)
            &&& r.obligations@[i].check.proven == cert.obligations@[i].holds_under(cert.coefficients)
            &&& r.obligations@[i].obligation.parts_normalized()
            &&& slack_is(r.obligations@[i].check, r.obligations@[i].obligation)
        },
{
    let obligations = verify_candidate(cert.obligations.as_slice(), &cert.coefficients);
    proof {
        assert forall|j: int| 0 <= j < obligations@.len() implies #[trigger] obligations@[j].check.proven == cert.obligations@[j].holds_under(cert.coefficients) by {
            assert(obligations@[j].obligation.wf());
        }
    }
    let mut verified = true;
    let mut i: usize = 0;
    while i < obligations.len()
        invariant
            i <= obligations@.len(),
            obligations@.len() == cert.obligations@.len(),
            forall|j: int| 0 <= j < obligations@.len() ==> #[trigger] obligations@[j].check.proven == cert.obligations@[j].holds_under(cert.coefficients),
            verified == forall|j: int| 0 <= j < i ==> #[trigger] cert.obligations@[j].holds_under(cert.coefficients),
        decreases obligations@.len() - i,
    {
        if !obligations[i].check.proven {
            verified = false;
        }
        i = i + 1;
    }
    CertificateCheck { function: cert.function.clone(), verified, obligations }
}

/// Checks the certificate where that can be done without leaving `i64`,
/// and gives `None` where some substitution or sum would leave it.
pub fn check_certificate_checked(cert: &Certificate) -> (r: Option<CertificateCheck>)
    requires
        cert.coefficients.wf(),
        forall|i: int| 0 <= i < cert.obligations@.len() ==> #[trigger] cert.obligations@[i].wf(),
    ensures
        r is Some <==> cert.checkable(),
        r matches Some(c) ==> {
            &&& c.function@ == cert.function@
            &&& c.verified == cert.sound()
            &&& c.obligations@.len() == cert.obligations@.len()
            &&& forall|i: int| 0 <= i < c.obligations@.len() ==> #[trigger] verified_as(
                c.obligations@[i],
                cert.obligations@[i],
                cert.coefficients,
            )
        },
{
    match verify_candidate_checked(cert.obligations.as_slice(), &cert.coefficients) {
        Some(_) => {
            let c = check_certificate(cert);
            assert forall|i: int| 0 <= i < c.obligations@.len() implies #[trigger] verified_as(
                c.obligations@[i],
                cert.obligations@[i],
                cert.coefficients,
            ) by {
                assert(c.obligations@[i].obligation.wf());
            }
            Some(c)
        },
        None => None,
    }
}

} // verus!
