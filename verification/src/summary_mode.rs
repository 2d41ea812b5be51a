//! Which summaries an analysis may rely on, and how far each is trusted.
use vstd::prelude::*;
use crate::text::{owned, text_eq};

verus! {

/// Which kinds of summaries an analysis may use.
#[derive(Debug, Clone, Copy, PartialEq, Eq, Structural)]
pub enum SummaryMode {
    /// No summaries. Transparent/intra-body analysis only.
    Disabled,
    /// Use only summaries derived and verified by the analyzer.
    Derived,
    /// Use derived summaries plus bundled trusted standard-library summaries.
    TrustedStd,
    /// Use derived, trusted std, and user/assumed summaries.
    All,
}

impl Default for SummaryMode {
    fn default() -> (r: Self)
        ensures
            r == SummaryMode::TrustedStd,
    {
        SummaryMode::TrustedStd
    }
}

impl SummaryMode {
    pub fn allows_trusted_std(self) -> (r: bool)
        ensures
            r == (self == SummaryMode::TrustedStd || self == SummaryMode::All),
    {
        match self {
            SummaryMode::TrustedStd | SummaryMode::All => true,
            _ => false,
        }
    }

    pub fn allows_derived(self) -> (r: bool)
        ensures
            r == (self == SummaryMode::Derived || self == SummaryMode::TrustedStd || self == SummaryMode::All),
    {
        match self {
            SummaryMode::Derived | SummaryMode::TrustedStd | SummaryMode::All => true,
            _ => false,
        }
    }

    pub fn allows_user_assumed(self) -> (r: bool)
        ensures
            r == (self == SummaryMode::All),
    {
        match self {
            SummaryMode::All => true,
            _ => false,
        }
    }

    /// The command-line name of the mode.
    pub open spec fn name_text(self) -> Seq<char> {
        match self {
            SummaryMode::Disabled => "none"@,
            SummaryMode::Derived => "derived"@,
            SummaryMode::TrustedStd => "trusted-std"@,
            SummaryMode::All => "all"@,
        }
    }

    pub fn to_string(&self) -> (r: String)
        ensures
            r@ == self.name_text(),
    {
        match self {
            SummaryMode::Disabled => owned("none"),
            SummaryMode::Derived => owned("derived"),
            SummaryMode::TrustedStd => owned("trusted-std"),
            SummaryMode::All => owned("all"),
        }
    }

    /// Reads a mode from its command-line name.
    pub fn parse(s: &str) -> (r: Result<Self, String>)
        ensures
            match r {
                Ok(m) => s@ == m.name_text(),
                Err(msg) => s@ != "none"@ && s@ != "derived"@ && s@ != "trusted-std"@ && s@ != "all"@
                    && msg@ == "unknown summary mode `"@ + s@ + "`; expected none|derived|trusted-std|all"@,
            },
    {
        if text_eq(s, "none") {
            Ok(SummaryMode::Disabled)
        } else if text_eq(s, "derived") {
            Ok(SummaryMode::Derived)
        } else if text_eq(s, "trusted-std") {
            Ok(SummaryMode::TrustedStd)
        } else if text_eq(s, "all") {
            Ok(SummaryMode::All)
        } else {
            let mut msg = owned("unknown summary mode `");
            msg.append(s);
            msg.append("`; expected none|derived|trusted-std|all");
            Err(msg)
        }
    }
}

impl core::str::FromStr for SummaryMode {
    type Err = String;

    fn from_str(s: &str) -> (r: Result<Self, Self::Err>)
        ensures
            match r {
                Ok(m) => s@ == m.name_text(),
                Err(msg) => s@ != "none"@ && s@ != "derived"@ && s@ != "trusted-std"@ && s@ != "all"@
                    && msg@ == "unknown summary mode `"@ + s@ + "`; expected none|derived|trusted-std|all"@,
            },
    {
        SummaryMode::parse(s)
    }
}

/// How far a summary is trusted.
#[derive(Debug, Clone, Copy, PartialEq, Eq, Structural)]
pub enum SummaryTrust {
    /// Generated and exactly verified by the analyzer.
    Verified,
    /// Bundled model for Rust standard library behavior.
    TrustedStd,
    /// User-provided or project-provided assumption.
    Assumed,
    /// External/FFI/system behavior.
    External,
}

impl Default for SummaryTrust {
    fn default() -> (r: Self)
        ensures
            r == SummaryTrust::Assumed,
    {
        SummaryTrust::Assumed
    }
}

} // verus!
