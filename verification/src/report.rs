//! Per-method analysis results.
use vstd::prelude::*;
use crate::obligation::VerifiedObligation;
use crate::text::owned;

verus! {

/// Whether a bound is proven, holds under stated assumptions, or is not available.
#[derive(Debug, Clone, Copy, PartialEq, Eq, Structural)]
pub enum Status {
    Proven,
    Partial,
    Undefined,
}

/// A message with its level (`error`, `warn` or `info`).
#[derive(Debug, Clone, PartialEq, Eq)]
pub struct Diagnostic {
    pub level: String,
    pub message: String,
}

impl Diagnostic {
    pub fn error(msg: String) -> (r: Self)
        ensures
            r.level@ == "error"@,
            r.message == msg,
    {
        Diagnostic { level: owned("error"), message: msg }
    }

    pub fn warn(msg: String) -> (r: Self)
        ensures
            r.level@ == "warn"@,
            r.message == msg,
    {
        Diagnostic { level: owned("warn"), message: msg }
    }

    pub fn info(msg: String) -> (r: Self)
        ensures
            r.level@ == "info"@,
            r.message == msg,
    {
        Diagnostic { level: owned("info"), message: msg }
    }
}

/// The result for one method: status, bound, potential, checked obligations.
#[derive(Debug, Clone, PartialEq, Eq)]
pub struct MethodReport {
    pub method: String,
    pub status: Status,
    pub amortized_bound: String,
    pub potential: Option<String>,
    pub obligations: Vec<VerifiedObligation>,
    pub diagnostics: Vec<Diagnostic>,
    pub assumptions: Vec<String>,
}

/// The results for every method of an analyzed file.
#[derive(Debug, Clone, PartialEq, Eq)]
pub struct AnalysisReport {
    pub file: String,
    pub methods: Vec<MethodReport>,
}

} // verus!
