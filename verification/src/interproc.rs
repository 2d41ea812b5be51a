//! Per-function summaries shared between the analyses of different functions.
use vstd::prelude::*;
use crate::expr::LinExpr;
use crate::keymap::KeyMap;
use crate::text::owned;

verus! {

/// What is known of a function for its callers: its amortized cost and how
/// it changes the potential.
#[derive(Debug, Clone, PartialEq, Eq)]
pub struct FunctionSummary {
    pub function: String,
    pub amortized_cost: LinExpr,
    pub potential_delta: LinExpr,
    pub status: String,
}

/// Summaries by function name.
#[derive(Debug, Clone, PartialEq, Eq)]
pub struct InterprocSummaryDb {
    pub summaries: KeyMap<String, FunctionSummary>,
}

impl Default for InterprocSummaryDb {
    fn default() -> (r: Self)
        ensures
            r.summaries.wf(),
            r.summaries@ == Map::<Seq<Seq<char>>, FunctionSummary>::empty(),
    {
        InterprocSummaryDb { summaries: KeyMap::new() }
    }
}

impl InterprocSummaryDb {
    /// The summaries as a map from function name.
    pub open spec fn by_name(self) -> Map<Seq<Seq<char>>, FunctionSummary> {
        self.summaries@
    }

    /// Stores `s` under its function's name, replacing what was there.
    pub fn insert(&mut self, s: FunctionSummary)
        requires
            old(self).summaries.wf(),
        ensures
            final(self).summaries.wf(),
            final(self).summaries@ == old(self).summaries@.insert(seq![s.function@], s),
    {
        let key = s.function.clone();
        self.summaries.insert(key, s);
    }

    /// The summary of the function named `f`.
    pub fn get(&self, f: &str) -> (r: Option<&FunctionSummary>)
        requires
            self.summaries.wf(),
        ensures
            match r {
                Some(s) => self.summaries@.contains_key(seq![f@]) && *s == self.summaries@[seq![f@]],
                None => !self.summaries@.contains_key(seq![f@]),
            },
    {
        let key = owned(f);
        self.summaries.get(&key)
    }
}

} // verus!
