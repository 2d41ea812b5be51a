//! Resource summaries of library methods: their cost, their effect on the
//! length of the receiver, and how far they are trusted.
use vstd::prelude::*;
use crate::expr::{parse_lin_expr_checked, parse_spec, LinExpr, ParseLinExprError};
use crate::ir::{copy_opt, copy_strings, AccessKind, CallEvent, ResourcePath};
use crate::summary_mode::{SummaryMode, SummaryTrust};
use crate::text::{
    concat2, contains_spec, contains_text, is_prefix, owned, push_text, remove_spaces, strip_prefix,
    texts, without_spaces,
};

verus! {

/// Why a summary file could not be read.
#[derive(Debug, Clone, PartialEq, Eq)]
pub enum SummaryError {
    Toml(String),
    Expr(String),
}

impl SummaryError {
    pub open spec fn text(self) -> Seq<char> {
        match self {
            SummaryError::Toml(s) => "toml parse error: "@ + s@,
            SummaryError::Expr(s) => "expression parse error: "@ + s@,
        }
    }

    pub fn to_string(&self) -> (r: String)
        ensures
            r@ == self.text(),
    {
        match self {
            SummaryError::Toml(s) => concat2("toml parse error: ", s.as_str()),
            SummaryError::Expr(s) => concat2("expression parse error: ", s.as_str()),
        }
    }
}

/// The summaries an analysis may consult.
#[derive(Debug, Clone)]
pub struct SummaryDb {
    pub summaries: Vec<ResourceSummary>,
    pub traits: Vec<TraitSummary>,
}

/// The model of one method: which calls it matches, its cost and effects.
#[derive(Debug, Clone)]
pub struct ResourceSummary {
    pub trust: SummaryTrust,
    pub type_contains: Option<String>,
    pub trait_name: Option<String>,
    pub method: String,
    pub receiver_arg: usize,
    pub cost: String,
    pub amortized_cost: Option<String>,
    pub effects: Vec<String>,
    pub required_access: Option<AccessKind>,
    pub condition: Option<String>,
    pub return_value: Option<String>,
    pub partial_unknown: Option<String>,
    pub notes: Vec<String>,
}

/// The summaries of a trait's methods.
#[derive(Debug, Clone)]
pub struct TraitSummary {
    pub name: String,
    pub trust: SummaryTrust,
    pub methods: Vec<ResourceSummary>,
}

/// What a call does to the length of its receiver.
#[derive(Debug, Clone, PartialEq, Eq)]
pub enum SummaryEffect {
    IncLen { receiver: ResourcePath, by: LinExpr },
    DecLen { receiver: ResourcePath, by: LinExpr },
    SetLen { receiver: ResourcePath, to: LinExpr },
    AddBytes { receiver: ResourcePath, by: LinExpr },
    Unknown(String),
}

/// The summary that matched a call, with its cost and effects read.
#[derive(Debug, Clone)]
pub struct MatchedSummary {
    pub trust: SummaryTrust,
    pub cost: LinExpr,
    pub effects: Vec<SummaryEffect>,
    pub condition: Option<String>,
    pub return_value: Option<String>,
    pub partial_unknown: Option<String>,
    pub notes: Vec<String>,
}

/// Two summaries with the same fields.
pub open spec fn same_summary(a: ResourceSummary, b: ResourceSummary) -> bool {
    &&& a.trust == b.trust
    &&& a.type_contains == b.type_contains
    &&& a.trait_name == b.trait_name
    &&& a.method == b.method
    &&& a.receiver_arg == b.receiver_arg
    &&& a.cost == b.cost
    &&& a.amortized_cost == b.amortized_cost
    &&& a.effects@ == b.effects@
    &&& a.required_access == b.required_access
    &&& a.condition == b.condition
    &&& a.return_value == b.return_value
    &&& a.partial_unknown == b.partial_unknown
    &&& a.notes@ == b.notes@
}

/// Two lists of summaries that agree position by position.
pub open spec fn same_summaries(a: Seq<ResourceSummary>, b: Seq<ResourceSummary>) -> bool {
    &&& a.len() == b.len()
    &&& forall|i: int| 0 <= i < a.len() ==> #[trigger] same_summary(a[i], b[i])
}

/// Two trait summaries with the same fields.
pub open spec fn same_trait(a: TraitSummary, b: TraitSummary) -> bool {
    &&& a.name == b.name
    &&& a.trust == b.trust
    &&& same_summaries(a.methods@, b.methods@)
}

impl ResourceSummary {
    /// A copy of the summary.
    pub fn copy(&self) -> (r: Self)
        ensures
            same_summary(r, *self),
    {
        ResourceSummary {
            trust: self.trust,
            type_contains: copy_opt(&self.type_contains),
            trait_name: copy_opt(&self.trait_name),
            method: self.method.clone(),
            receiver_arg: self.receiver_arg,
            cost: self.cost.clone(),
            amortized_cost: copy_opt(&self.amortized_cost),
            effects: copy_strings(&self.effects),
            required_access: self.required_access,
            condition: copy_opt(&self.condition),
            return_value: copy_opt(&self.return_value),
            partial_unknown: copy_opt(&self.partial_unknown),
            notes: copy_strings(&self.notes),
        }
    }

    /// The cost that applies: the amortized one when given.
    pub open spec fn cost_text(self) -> Seq<char> {
        match self.amortized_cost {
            Some(a) => a@,
            None => self.cost@,
        }
    }
}

/// A copy of a list of summaries.
pub fn copy_summaries(v: &Vec<ResourceSummary>) -> (r: Vec<ResourceSummary>)
    ensures
        same_summaries(r@, v@),
{
    let mut r: Vec<ResourceSummary> = Vec::new();
    let mut i: usize = 0;
    while i < v.len()
        invariant
            i <= v@.len(),
            same_summaries(r@, v@.take(i as int)),
        decreases v@.len() - i,
    {
        let c = v[i].copy();
        let ghost before = r@;
        r.push(c);
        assert forall|j: int| 0 <= j < r@.len() implies #[trigger] same_summary(r@[j], v@.take(i + 1)[j]) by {
            if j < before.len() {
                assert(r@[j] == before[j]);
                assert(same_summary(before[j], v@.take(i as int)[j]));
            }
        }
        i = i + 1;
    }
    assert(v@.take(v@.len() as int) =~= v@);
    r
}

impl TraitSummary {
    /// A copy of the trait summary.
    pub fn copy(&self) -> (r: Self)
        ensures
            same_trait(r, *self),
    {
        TraitSummary { name: self.name.clone(), trust: self.trust, methods: copy_summaries(&self.methods) }
    }
}

/// Whether `mode` admits a summary trusted as `trust`.
pub open spec fn mode_allows(mode: SummaryMode, trust: SummaryTrust) -> bool {
    match trust {
        SummaryTrust::Verified => mode == SummaryMode::Derived || mode == SummaryMode::TrustedStd || mode == SummaryMode::All,
        SummaryTrust::TrustedStd => mode == SummaryMode::TrustedStd || mode == SummaryMode::All,
        SummaryTrust::Assumed | SummaryTrust::External => mode == SummaryMode::All,
    }
}

/// The order of the modes, from no summaries to all of them.
pub open spec fn mode_rank(mode: SummaryMode) -> int {
    match mode {
        SummaryMode::Disabled => 0,
        SummaryMode::Derived => 1,
        SummaryMode::TrustedStd => 2,
        SummaryMode::All => 3,
    }
}

/// The modes are nested: a wider mode admits every summary a narrower one
/// admits, and `none` admits nothing.
pub proof fn lemma_modes_nested(narrow: SummaryMode, wide: SummaryMode, trust: SummaryTrust)
    requires
        mode_rank(narrow) <= mode_rank(wide),
    ensures
        mode_allows(narrow, trust) ==> mode_allows(wide, trust),
        !mode_allows(SummaryMode::Disabled, trust),
        mode_allows(SummaryMode::All, trust),
{
}

/// Filtering never adds a summary: what a mode admits is a subsequence of
/// the database, and a wider mode keeps at least as many summaries.
pub proof fn lemma_admitted_monotone(s: Seq<ResourceSummary>, narrow: SummaryMode, wide: SummaryMode)
    requires
        mode_rank(narrow) <= mode_rank(wide),
    ensures
        admitted(s, narrow).len() <= admitted(s, wide).len(),
        admitted(s, wide).len() <= s.len(),
    decreases s.len(),
{
    if s.len() > 0 {
        lemma_admitted_monotone(s.drop_last(), narrow, wide);
    }
}

fn allows(mode: SummaryMode, trust: SummaryTrust) -> (r: bool)
    ensures
        r == mode_allows(mode, trust),
{
    match trust {
        SummaryTrust::Verified => mode.allows_derived(),
        SummaryTrust::TrustedStd => mode.allows_trusted_std(),
        SummaryTrust::Assumed | SummaryTrust::External => mode.allows_user_assumed(),
    }
}

/// The summaries that `mode` admits, in order.
pub open spec fn admitted(s: Seq<ResourceSummary>, mode: SummaryMode) -> Seq<ResourceSummary>
    decreases s.len(),
{
    if s.len() == 0 {
        s
    } else if mode_allows(mode, s.last().trust) {
        admitted(s.drop_last(), mode).push(s.last())
    } else {
        admitted(s.drop_last(), mode)
    }
}

/// The trait summaries that `mode` admits, in order.
pub open spec fn admitted_traits(s: Seq<TraitSummary>, mode: SummaryMode) -> Seq<TraitSummary>
    decreases s.len(),
{
    if s.len() == 0 {
        s
    } else if mode_allows(mode, s.last().trust) {
        admitted_traits(s.drop_last(), mode).push(s.last())
    } else {
        admitted_traits(s.drop_last(), mode)
    }
}

/// The names a call must show for a summary to apply to it.
pub open spec fn summary_matches(s: ResourceSummary, call: CallEvent) -> bool {
    &&& s.method@ == call.method@
    &&& match (s.type_contains, call.receiver_ty) {
        (Some(needle), Some(ty)) => contains_spec(ty@, needle@),
        (Some(_), None) => false,
        (None, _) => true,
    }
    &&& match s.trait_name {
        Some(tn) => contains_spec(call.callee@, tn@) || call.is_trait_call,
        None => true,
    }
}

/// Index of the first summary that applies to the call.
pub open spec fn first_match(s: Seq<ResourceSummary>, call: CallEvent) -> Option<int> {
    if exists|i: int| 0 <= i < s.len() && #[trigger] summary_matches(s[i], call) {
        Some(choose|i: int| 0 <= i < s.len() && #[trigger] summary_matches(s[i], call) && forall|j: int| 0 <= j < i ==> !summary_matches(s[j], call))
    } else {
        None
    }
}

/// Which effect a text describes, and the expression after the operator:
/// `len(receiver) +=`, `-=`, `:=` or `bytes(receiver) +=` (spaces ignored).
pub open spec fn effect_shape(src: Seq<char>) -> Option<(int, Seq<char>)> {
    let s = without_spaces(src);
    if is_prefix("len(receiver)+="@, s) {
        Some((0, s.skip("len(receiver)+="@.len() as int)))
    } else if is_prefix("len(receiver)-="@, s) {
        Some((1, s.skip("len(receiver)-="@.len() as int)))
    } else if is_prefix("len(receiver):="@, s) {
        Some((2, s.skip("len(receiver):="@.len() as int)))
    } else if is_prefix("bytes(receiver)+="@, s) {
        Some((3, s.skip("bytes(receiver)+="@.len() as int)))
    } else {
        None
    }
}

/// `e` has the value the spec parse gives.
pub open spec fn expr_is(e: LinExpr, v: (int, Map<Seq<char>, int>)) -> bool {
    e.wf() && e.normalized() && e.constant == v.0 && e.canon() == v.1
}

/// The effect a text describes on `receiver`, when it has one of the known
/// shapes and its expression parses.
pub open spec fn effect_matches(r: Option<SummaryEffect>, src: Seq<char>, receiver: Option<ResourcePath>) -> bool {
    match (receiver, effect_shape(src)) {
        (Some(p), Some(sh)) => match parse_spec(sh.1) {
            Some(Ok(v)) => match r {
                Some(SummaryEffect::IncLen { receiver, by }) => sh.0 == 0 && receiver@ == p@ && expr_is(by, v),
                Some(SummaryEffect::DecLen { receiver, by }) => sh.0 == 1 && receiver@ == p@ && expr_is(by, v),
                Some(SummaryEffect::SetLen { receiver, to }) => sh.0 == 2 && receiver@ == p@ && expr_is(to, v),
                Some(SummaryEffect::AddBytes { receiver, by }) => sh.0 == 3 && receiver@ == p@ && expr_is(by, v),
                _ => false,
            },
            _ => r is None,
        },
        _ => r is None,
    }
}

/// Reads an effect text such as `len(receiver) += 1` for the given receiver.
/// `None` without a receiver, for another shape, or when the expression does
/// not parse (a sum that would leave `i64` counts as not parsing).
fn parse_effect(src: &str, receiver: Option<&ResourcePath>) -> (r: Option<SummaryEffect>)
    ensures
        effect_matches(r, src@, match receiver { Some(p) => Some(*p), None => None }),
{
    let receiver = match receiver {
        Some(p) => p.copy(),
        None => return None,
    };
    let s = remove_spaces(src);
    proof {
        reveal_strlit("len(receiver)+=");
        reveal_strlit("len(receiver)-=");
        reveal_strlit("len(receiver):=");
        reveal_strlit("bytes(receiver)+=");
    }
    if let Some(rhs) = strip_prefix(s.as_str(), "len(receiver)+=") {
        return match parse_lin_expr_checked(rhs.as_str()) {
            Some(Ok(by)) => Some(SummaryEffect::IncLen { receiver, by }),
            _ => None,
        };
    }
    if let Some(rhs) = strip_prefix(s.as_str(), "len(receiver)-=") {
        return match parse_lin_expr_checked(rhs.as_str()) {
            Some(Ok(by)) => Some(SummaryEffect::DecLen { receiver, by }),
            _ => None,
        };
    }
    if let Some(rhs) = strip_prefix(s.as_str(), "len(receiver):=") {
        return match parse_lin_expr_checked(rhs.as_str()) {
            Some(Ok(to)) => Some(SummaryEffect::SetLen { receiver, to }),
            _ => None,
        };
    }
    if let Some(rhs) = strip_prefix(s.as_str(), "bytes(receiver)+=") {
        return match parse_lin_expr_checked(rhs.as_str()) {
            Some(Ok(by)) => Some(SummaryEffect::AddBytes { receiver, by }),
            _ => None,
        };
    }
    None
}

/// The effect stored for an effect text: the parsed effect, or `Unknown`
/// carrying the text.
pub open spec fn stored_effect(e: SummaryEffect, src: Seq<char>, receiver: Option<ResourcePath>) -> bool {
    ||| effect_matches(Some(e), src, receiver)
    ||| (effect_matches(None, src, receiver) && (e matches SummaryEffect::Unknown(t) && t@ == src))
}

impl Default for SummaryDb {
    /// No summaries at all.
    fn default() -> (r: Self)
        ensures
            r.summaries@.len() == 0,
            r.traits@.len() == 0,
    {
        SummaryDb::empty()
    }
}

impl SummaryDb {
    /// No summaries at all.
    pub fn empty() -> (r: Self)
        ensures
            r.summaries@.len() == 0,
            r.traits@.len() == 0,
    {
        SummaryDb { summaries: Vec::new(), traits: Vec::new() }
    }

    /// The bundled standard-library summaries.
    pub fn default_vec() -> (r: Self)
        ensures
            std_db(r),
    {
        Self::trusted_std()
    }

    /// The bundled standard-library summaries.
    pub fn trusted_std() -> (r: Self)
        ensures
            std_db(r),
    {
        trusted_std_summary_db()
    }

    /// The summaries of both databases, `self` first.
    pub fn merge(self, other: SummaryDb) -> (r: Self)
        ensures
            r.summaries@ == self.summaries@ + other.summaries@,
            r.traits@ == self.traits@ + other.traits@,
    {
        let mut s = self;
        let mut o = other;
        s.summaries.append(&mut o.summaries);
        s.traits.append(&mut o.traits);
        s
    }

    /// The summaries (and trait summaries) whose trust `mode` admits, in order.
    pub fn filter_by_mode(&self, mode: SummaryMode) -> (r: Self)
        ensures
            same_summaries(r.summaries@, admitted(self.summaries@, mode)),
            r.traits@.len() == admitted_traits(self.traits@, mode).len(),
            forall|i: int| 0 <= i < r.traits@.len() ==> #[trigger] same_trait(r.traits@[i], admitted_traits(self.traits@, mode)[i]),
    {
        let mut summaries: Vec<ResourceSummary> = Vec::new();
        let mut i: usize = 0;
        while i < self.summaries.len()
            invariant
                i <= self.summaries@.len(),
                same_summaries(summaries@, admitted(self.summaries@.take(i as int), mode)),
            decreases self.summaries@.len() - i,
        {
            assert(self.summaries@.take(i + 1).drop_last() =~= self.summaries@.take(i as int));
            let s = &self.summaries[i];
            if allows(mode, s.trust) {
                let ghost before = summaries@;
                summaries.push(s.copy());
                assert forall|j: int| 0 <= j < summaries@.len() implies #[trigger] same_summary(
                    summaries@[j],
                    admitted(self.summaries@.take(i + 1), mode)[j],
                ) by {
                    if j < before.len() {
                        assert(summaries@[j] == before[j]);
                    }
                }
            }
            i = i + 1;
        }
        assert(self.summaries@.take(self.summaries@.len() as int) =~= self.summaries@);
        let mut traits: Vec<TraitSummary> = Vec::new();
        let mut k: usize = 0;
        while k < self.traits.len()
            invariant
                k <= self.traits@.len(),
                traits@.len() == admitted_traits(self.traits@.take(k as int), mode).len(),
                forall|j: int| 0 <= j < traits@.len() ==> #[trigger] same_trait(traits@[j], admitted_traits(self.traits@.take(k as int), mode)[j]),
            decreases self.traits@.len() - k,
        {
            assert(self.traits@.take(k + 1).drop_last() =~= self.traits@.take(k as int));
            let t = &self.traits[k];
            if allows(mode, t.trust) {
                let ghost before = traits@;
                traits.push(t.copy());
                assert forall|j: int| 0 <= j < traits@.len() implies #[trigger] same_trait(
                    traits@[j],
                    admitted_traits(self.traits@.take(k + 1), mode)[j],
                ) by {
                    if j < before.len() {
                        assert(traits@[j] == before[j]);
                    }
                }
            }
            k = k + 1;
        }
        assert(self.traits@.take(self.traits@.len() as int) =~= self.traits@);
        SummaryDb { summaries, traits }
    }

    /// The first summary that applies to the call, with its cost and
    /// effects read.  `None` when none applies, or when the cost of the first
    /// one that applies does not parse.
    pub fn match_call(&self, call: &CallEvent) -> (r: Option<MatchedSummary>)
        ensures
            match first_match(self.summaries@, *call) {
                None => r is None,
                Some(k) => {
                    let s = self.summaries@[k];
                    match parse_spec(s.cost_text()) {
                        Some(Ok(v)) => r matches Some(m) && {
                            &&& m.trust == s.trust
                            &&& expr_is(m.cost, v)
                            &&& m.effects@.len() == s.effects@.len()
                            &&& forall|i: int| 0 <= i < m.effects@.len() ==> #[trigger] stored_effect(m.effects@[i], s.effects@[i]@, call.receiver)
                            &&& m.condition == s.condition
                            &&& m.return_value == s.return_value
                            &&& m.partial_unknown == s.partial_unknown
                            &&& m.notes@ == s.notes@
                        },
                        _ => r is None,
                    }
                },
            },
    {
        let mut i: usize = 0;
        while i < self.summaries.len()
            invariant
                i <= self.summaries@.len(),
                forall|j: int| 0 <= j < i ==> !summary_matches(#[trigger] self.summaries@[j], *call),
            decreases self.summaries@.len() - i,
        {
            let s = &self.summaries[i];
            if type_and_trait_match(s, call) {
                proof {
                    assert(summary_matches(self.summaries@[i as int], *call));
                    let k = choose|k: int| 0 <= k < self.summaries@.len() && #[trigger] summary_matches(self.summaries@[k], *call) && forall|j: int| 0 <= j < k ==> !summary_matches(self.summaries@[j], *call);
                    if k < i {
                    } else if k > i {
                        assert(!summary_matches(self.summaries@[i as int], *call));
                    }
                    assert(first_match(self.summaries@, *call) == Some(i as int));
                }
                let cost_src = match &s.amortized_cost {
                    Some(a) => a,
                    None => &s.cost,
                };
                let cost = match parse_lin_expr_checked(cost_src.as_str()) {
                    Some(Ok(c)) => c,
                    _ => {
                        return None;
                    },
                };
                let mut effects: Vec<SummaryEffect> = Vec::new();
                let mut j: usize = 0;
                while j < s.effects.len()
                    invariant
                        j <= s.effects@.len(),
                        effects@.len() == j,
                        forall|t: int| 0 <= t < j ==> #[trigger] stored_effect(effects@[t], s.effects@[t]@, call.receiver),
                    decreases s.effects@.len() - j,
                {
                    let e = &s.effects[j];
                    let recv = match &call.receiver {
                        Some(p) => Some(p),
                        None => None,
                    };
                    match parse_effect(e.as_str(), recv) {
                        Some(effect) => effects.push(effect),
                        None => effects.push(SummaryEffect::Unknown(e.clone())),
                    }
                    j = j + 1;
                }
                return Some(MatchedSummary {
                    trust: s.trust,
                    cost,
                    effects,
                    condition: copy_opt(&s.condition),
                    return_value: copy_opt(&s.return_value),
                    partial_unknown: copy_opt(&s.partial_unknown),
                    notes: copy_strings(&s.notes),
                });
            }
            i = i + 1;
        }
        None
    }

    /// One line per summary: trust, type and method, cost and effects.
    pub fn describe(&self) -> (r: Vec<String>)
        ensures
            r@.len() == self.summaries@.len(),
            forall|i: int| 0 <= i < r@.len() ==> #[trigger] r@[i]@ == describe_text(self.summaries@[i]),
    {
        let mut out: Vec<String> = Vec::new();
        let mut i: usize = 0;
        while i < self.summaries.len()
            invariant
                i <= self.summaries@.len(),
                out@.len() == i,
                forall|j: int| 0 <= j < i ==> #[trigger] out@[j]@ == describe_text(self.summaries@[j]),
            decreases self.summaries@.len() - i,
        {
            let s = &self.summaries[i];
            let effects = debug_strings(&s.effects);
            let line = summary_line(s, effects.as_str());
            out.push(line);
            i = i + 1;
        }
        out
    }
}

/// Whether the summary applies to the call (method, receiver type, trait).
fn type_and_trait_match(s: &ResourceSummary, call: &CallEvent) -> (r: bool)
    ensures
        r == summary_matches(*s, *call),
{
    if !crate::text::text_eq(s.method.as_str(), call.method.as_str()) {
        return false;
    }
    let type_ok = match (&s.type_contains, &call.receiver_ty) {
        (Some(needle), Some(ty)) => contains_text(ty.as_str(), needle.as_str()),
        (Some(_), None) => false,
        (None, _) => true,
    };
    let trait_ok = match &s.trait_name {
        Some(tn) => contains_text(call.callee.as_str(), tn.as_str()) || call.is_trait_call,
        None => true,
    };
    type_ok && trait_ok
}

/// The name `{:?}` gives a trust level.
pub open spec fn trust_name(t: SummaryTrust) -> Seq<char> {
    match t {
        SummaryTrust::Verified => "Verified"@,
        SummaryTrust::TrustedStd => "TrustedStd"@,
        SummaryTrust::Assumed => "Assumed"@,
        SummaryTrust::External => "External"@,
    }
}

fn trust_debug(t: SummaryTrust) -> (r: String)
    ensures
        r@ == trust_name(t),
{
    match t {
        SummaryTrust::Verified => owned("Verified"),
        SummaryTrust::TrustedStd => owned("TrustedStd"),
        SummaryTrust::Assumed => owned("Assumed"),
        SummaryTrust::External => owned("External"),
    }
}

/// What `{:?}` writes for a list of strings: each quoted with Rust's
/// escapes, comma-separated, in brackets.
pub uninterp spec fn debug_list(v: Seq<Seq<char>>) -> Seq<char>;

/// `format!("{:?}", v)` on a vector of strings (std's `Debug` for `Vec<String>`).
/// Its result depends on the strings alone; the contract names it and says no more.
#[verifier::external_body]
fn debug_strings(v: &Vec<String>) -> (r: String)
    ensures
        r@ == debug_list(texts(v@)),
{
    format!("{:?}", v)
}

/// The line for a summary whose effects are written as `effects`: trust,
/// type and method, cost (amortized where given) and the effects text.
pub open spec fn line_text(s: ResourceSummary, effects: Seq<char>) -> Seq<char> {
    "["@ + trust_name(s.trust) + "] "@ + match s.type_contains {
        Some(t) => t@,
        None => "*"@,
    } + "::"@ + s.method@ + " cost="@ + s.cost_text() + " effects="@ + effects
}

/// The line `describe` writes for a summary.
pub open spec fn describe_text(s: ResourceSummary) -> Seq<char> {
    line_text(s, debug_list(texts(s.effects@)))
}

/// The line for a summary, given the text of its effects list.
pub fn summary_line(s: &ResourceSummary, effects: &str) -> (r: String)
    ensures
        r@ == line_text(*s, effects@),
{
    let mut line = owned("[");
    push_text(&mut line, trust_debug(s.trust).as_str());
    push_text(&mut line, "] ");
    match &s.type_contains {
        Some(t) => push_text(&mut line, t.as_str()),
        None => push_text(&mut line, "*"),
    }
    push_text(&mut line, "::");
    push_text(&mut line, s.method.as_str());
    push_text(&mut line, " cost=");
    match &s.amortized_cost {
        Some(a) => push_text(&mut line, a.as_str()),
        None => push_text(&mut line, s.cost.as_str()),
    }
    push_text(&mut line, " effects=");
    push_text(&mut line, effects);
    line
}

/// The bundled standard-library database: no trait summaries, and the
/// summaries of the table `std_entry`, in its order, each a trusted
/// standard-library model of one method of one std type with at most one
/// effect and one note.
pub open spec fn std_db(db: SummaryDb) -> bool {
    &&& db.traits@.len() == 0
    &&& db.summaries@.len() == std_count()
    &&& std_prefix(db.summaries@)
}

/// Each summary is the bundled one at its place, in the table `std_entry`.
pub open spec fn std_prefix(s: Seq<ResourceSummary>) -> bool {
    &&& s.len() <= std_count()
    &&& forall|i: int| 0 <= i < s.len() ==> std_shaped(#[trigger] s[i]) && std_row(s[i]) == std_entry(i)
}

/// A bundled summary by value: type, method, cost, amortized cost, effect,
/// required access, condition, result, unknown part and note.
pub type StdRow = (
    Seq<char>,
    Seq<char>,
    Seq<char>,
    Option<Seq<char>>,
    Option<Seq<char>>,
    AccessKind,
    Option<Seq<char>>,
    Option<Seq<char>>,
    Option<Seq<char>>,
    Option<Seq<char>>,
);

pub open spec fn row(
    ty: Seq<char>,
    method: Seq<char>,
    cost: Seq<char>,
    amortized: Option<Seq<char>>,
    effect: Option<Seq<char>>,
    access: AccessKind,
    condition: Option<Seq<char>>,
    result: Option<Seq<char>>,
    partial: Option<Seq<char>>,
    note: Option<Seq<char>>,
) -> StdRow {
    (ty, method, cost, amortized, effect, access, condition, result, partial, note)
}

/// A text option by value.
pub open spec fn opt_view(o: Option<String>) -> Option<Seq<char>> {
    match o {
        Some(s) => Some(s@),
        None => None,
    }
}

/// The first text of a list, if any.
pub open spec fn first_view(v: Seq<String>) -> Option<Seq<char>> {
    if v.len() == 0 {
        None
    } else {
        Some(v[0]@)
    }
}

/// A summary by value, in the order of `StdRow`.
pub open spec fn std_row(s: ResourceSummary) -> StdRow {
    row(
        match s.type_contains {
            Some(t) => t@,
            None => Seq::empty(),
        },
        s.method@,
        s.cost@,
        opt_view(s.amortized_cost),
        first_view(s.effects@),
        match s.required_access {
            Some(a) => a,
            None => AccessKind::Owned,
        },
        opt_view(s.condition),
        opt_view(s.return_value),
        opt_view(s.partial_unknown),
        first_view(s.notes@),
    )
}

/// The number of bundled summaries.
pub open spec fn std_count() -> int {
    47
}

/// The `i`-th bundled summary, by value.
#[verifier::opaque]
pub open spec fn std_entry(i: int) -> StdRow {
    if i == 0 {
        row("Vec"@, "push"@, "1"@, Some("1"@), Some("len(receiver) += 1"@), AccessKind::MutBorrow, None, None, None, Some("Trusted amortized model for Vec::push; resize/allocator hidden behind amortized contract."@))
    } else if i == 1 {
        row("Vec"@, "pop"@, "1"@, Some("1"@), Some("len(receiver) -= 1"@), AccessKind::MutBorrow, Some("old(len(receiver)) > 0"@), Some("Some iff old(len(receiver)) > 0"@), None, None)
    } else if i == 2 {
        row("Vec"@, "is_empty"@, "1"@, Some("1"@), None, AccessKind::SharedBorrow, Some("len(receiver) == 0"@), Some("bool"@), None, None)
    } else if i == 3 {
        row("Vec"@, "clear"@, "len(receiver)"@, None, Some("len(receiver) := 0"@), AccessKind::MutBorrow, None, None, Some("drop_cost_T * old(len(receiver))"@), Some("Element Drop cost is symbolic/partial unless modeled."@))
    } else if i == 4 {
        row("Vec"@, "len"@, "1"@, Some("1"@), None, AccessKind::SharedBorrow, None, Some("len(receiver)"@), None, None)
    } else if i == 5 {
        row("VecDeque"@, "push_back"@, "1"@, Some("1"@), Some("len(receiver) += 1"@), AccessKind::MutBorrow, None, None, None, Some("Trusted amortized model for VecDeque::push_back."@))
    } else if i == 6 {
        row("VecDeque"@, "pop_front"@, "1"@, Some("1"@), Some("len(receiver) -= 1"@), AccessKind::MutBorrow, Some("old(len(receiver)) > 0"@), Some("Some iff old(len(receiver)) > 0"@), None, None)
    } else if i == 7 {
        row("VecDeque"@, "pop_back"@, "1"@, Some("1"@), Some("len(receiver) -= 1"@), AccessKind::MutBorrow, Some("old(len(receiver)) > 0"@), Some("Some iff old(len(receiver)) > 0"@), None, None)
    } else if i == 8 {
        row("String"@, "push"@, "1"@, Some("1"@), Some("bytes(receiver) += 1"@), AccessKind::MutBorrow, None, None, None, Some("Simplified char push model; true byte growth depends on char UTF-8 length."@))
    } else if i == 9 {
        row("String"@, "push_str"@, "n"@, Some("n"@), Some("bytes(receiver) += n"@), AccessKind::MutBorrow, None, None, Some("n = len(argument bytes)"@), None)
    } else if i == 10 {
        row("String"@, "len"@, "1"@, Some("1"@), None, AccessKind::SharedBorrow, None, Some("bytes(receiver)"@), None, None)
    } else if i == 11 {
        row("HashMap"@, "insert"@, "1"@, Some("1"@), Some("len(receiver) += 1"@), AccessKind::MutBorrow, None, None, Some("K_hash + K_eq + possible replacement/drop cost"@), Some("Trusted average/amortized hash-table model; reports partial if generic costs are not modeled."@))
    } else if i == 12 {
        row("HashSet"@, "insert"@, "1"@, Some("1"@), Some("len(receiver) += 1"@), AccessKind::MutBorrow, None, None, Some("K_hash + K_eq"@), None)
    } else if i == 13 {
        row("Vec"@, "insert"@, "n"@, Some("n"@), Some("len(receiver) += 1"@), AccessKind::MutBorrow, None, None, Some("n = elements shifted after insertion index"@), Some("Vec::insert shifts tail elements."@))
    } else if i == 14 {
        row("Vec"@, "remove"@, "n"@, Some("n"@), Some("len(receiver) -= 1"@), AccessKind::MutBorrow, Some("index < old(len(receiver))"@), Some("removed element"@), Some("n = elements shifted after removed index"@), Some("Vec::remove shifts tail elements."@))
    } else if i == 15 {
        row("Vec"@, "swap_remove"@, "1"@, Some("1"@), Some("len(receiver) -= 1"@), AccessKind::MutBorrow, Some("index < old(len(receiver))"@), Some("removed element"@), None, Some("Order is not preserved."@))
    } else if i == 16 {
        row("Vec"@, "truncate"@, "n"@, Some("n"@), Some("len(receiver) := n"@), AccessKind::MutBorrow, Some("n <= old(len(receiver))"@), None, Some("drop_cost_T * removed elements"@), Some("Simplified model: n is target length; drop cost is symbolic."@))
    } else if i == 17 {
        row("Vec"@, "reserve"@, "n"@, Some("n"@), None, AccessKind::MutBorrow, None, None, Some("allocator/reallocation cost; n = additional capacity"@), Some("Capacity-only effect currently not represented in len-based model."@))
    } else if i == 18 {
        row("Vec"@, "get"@, "1"@, Some("1"@), None, AccessKind::SharedBorrow, None, Some("Option<&T>"@), None, None)
    } else if i == 19 {
        row("LinkedList"@, "push_front"@, "1"@, Some("1"@), Some("len(receiver) += 1"@), AccessKind::MutBorrow, None, None, None, None)
    } else if i == 20 {
        row("LinkedList"@, "push_back"@, "1"@, Some("1"@), Some("len(receiver) += 1"@), AccessKind::MutBorrow, None, None, None, None)
    } else if i == 21 {
        row("LinkedList"@, "pop_front"@, "1"@, Some("1"@), Some("len(receiver) -= 1"@), AccessKind::MutBorrow, Some("old(len(receiver)) > 0"@), Some("Some iff old(len(receiver)) > 0"@), None, None)
    } else if i == 22 {
        row("LinkedList"@, "pop_back"@, "1"@, Some("1"@), Some("len(receiver) -= 1"@), AccessKind::MutBorrow, Some("old(len(receiver)) > 0"@), Some("Some iff old(len(receiver)) > 0"@), None, None)
    } else if i == 23 {
        row("LinkedList"@, "len"@, "1"@, Some("1"@), None, AccessKind::SharedBorrow, None, Some("len(receiver)"@), None, None)
    } else if i == 24 {
        row("LinkedList"@, "clear"@, "len(receiver)"@, None, Some("len(receiver) := 0"@), AccessKind::MutBorrow, None, None, Some("drop_cost_T * old(len(receiver))"@), None)
    } else if i == 25 {
        row("BTreeMap"@, "insert"@, "logn"@, Some("logn"@), Some("len(receiver) += 1"@), AccessKind::MutBorrow, None, Some("Option<V>; Some when key existed"@), Some("K_ord*logn; len effect is conservative if key already existed"@), Some("Ordered map model; key comparison cost remains symbolic."@))
    } else if i == 26 {
        row("BTreeMap"@, "remove"@, "logn"@, Some("logn"@), Some("len(receiver) -= 1"@), AccessKind::MutBorrow, Some("key exists"@), Some("Option<V>"@), Some("K_ord*logn; len effect applies only if key existed"@), None)
    } else if i == 27 {
        row("BTreeMap"@, "get"@, "logn"@, Some("logn"@), None, AccessKind::SharedBorrow, None, Some("Option<&V>"@), Some("K_ord*logn"@), None)
    } else if i == 28 {
        row("BTreeMap"@, "contains_key"@, "logn"@, Some("logn"@), None, AccessKind::SharedBorrow, None, Some("bool"@), Some("K_ord*logn"@), None)
    } else if i == 29 {
        row("BTreeMap"@, "len"@, "1"@, Some("1"@), None, AccessKind::SharedBorrow, None, Some("len(receiver)"@), None, None)
    } else if i == 30 {
        row("BTreeMap"@, "clear"@, "len(receiver)"@, None, Some("len(receiver) := 0"@), AccessKind::MutBorrow, None, None, Some("drop_cost_KV * old(len(receiver))"@), None)
    } else if i == 31 {
        row("BTreeSet"@, "insert"@, "logn"@, Some("logn"@), Some("len(receiver) += 1"@), AccessKind::MutBorrow, None, Some("bool; true when value was newly inserted"@), Some("K_ord*logn; len effect is conservative if value already existed"@), None)
    } else if i == 32 {
        row("BTreeSet"@, "remove"@, "logn"@, Some("logn"@), Some("len(receiver) -= 1"@), AccessKind::MutBorrow, Some("value exists"@), Some("bool"@), Some("K_ord*logn; len effect applies only if value existed"@), None)
    } else if i == 33 {
        row("BTreeSet"@, "contains"@, "logn"@, Some("logn"@), None, AccessKind::SharedBorrow, None, Some("bool"@), Some("K_ord*logn"@), None)
    } else if i == 34 {
        row("BTreeSet"@, "len"@, "1"@, Some("1"@), None, AccessKind::SharedBorrow, None, Some("len(receiver)"@), None, None)
    } else if i == 35 {
        row("BinaryHeap"@, "push"@, "logn"@, Some("logn"@), Some("len(receiver) += 1"@), AccessKind::MutBorrow, None, None, Some("K_ord*logn"@), Some("Priority queue model; comparison cost remains symbolic."@))
    } else if i == 36 {
        row("BinaryHeap"@, "pop"@, "logn"@, Some("logn"@), Some("len(receiver) -= 1"@), AccessKind::MutBorrow, Some("old(len(receiver)) > 0"@), Some("Some iff old(len(receiver)) > 0"@), Some("K_ord*logn"@), None)
    } else if i == 37 {
        row("BinaryHeap"@, "peek"@, "1"@, Some("1"@), None, AccessKind::SharedBorrow, None, Some("Option<&T>"@), None, None)
    } else if i == 38 {
        row("BinaryHeap"@, "len"@, "1"@, Some("1"@), None, AccessKind::SharedBorrow, None, Some("len(receiver)"@), None, None)
    } else if i == 39 {
        row("BinaryHeap"@, "clear"@, "len(receiver)"@, None, Some("len(receiver) := 0"@), AccessKind::MutBorrow, None, None, Some("drop_cost_T * old(len(receiver))"@), None)
    } else if i == 40 {
        row("HashMap"@, "get"@, "1"@, Some("1"@), None, AccessKind::SharedBorrow, None, Some("Option<&V>"@), Some("expected cost; K_hash + K_eq"@), Some("Expected hash-table model."@))
    } else if i == 41 {
        row("HashMap"@, "remove"@, "1"@, Some("1"@), Some("len(receiver) -= 1"@), AccessKind::MutBorrow, Some("key exists"@), Some("Option<V>"@), Some("expected cost; K_hash + K_eq; len effect applies only if key existed"@), None)
    } else if i == 42 {
        row("HashMap"@, "contains_key"@, "1"@, Some("1"@), None, AccessKind::SharedBorrow, None, Some("bool"@), Some("expected cost; K_hash + K_eq"@), None)
    } else if i == 43 {
        row("HashMap"@, "len"@, "1"@, Some("1"@), None, AccessKind::SharedBorrow, None, Some("len(receiver)"@), None, None)
    } else if i == 44 {
        row("HashSet"@, "contains"@, "1"@, Some("1"@), None, AccessKind::SharedBorrow, None, Some("bool"@), Some("expected cost; K_hash + K_eq"@), None)
    } else if i == 45 {
        row("HashSet"@, "remove"@, "1"@, Some("1"@), Some("len(receiver) -= 1"@), AccessKind::MutBorrow, Some("value exists"@), Some("bool"@), Some("expected cost; K_hash + K_eq; len effect applies only if value existed"@), None)
    } else if i == 46 {
        row("HashSet"@, "len"@, "1"@, Some("1"@), None, AccessKind::SharedBorrow, None, Some("len(receiver)"@), None, None)
    } else {
        row(Seq::empty(), Seq::empty(), Seq::empty(), None, None, AccessKind::Owned, None, None, None, None)
    }
}

/// A text option given as `&str`, by value.
pub open spec fn str_opt(o: Option<&str>) -> Option<Seq<char>> {
    match o {
        Some(t) => Some(t@),
        None => None,
    }
}

fn push_std(v: &mut Vec<ResourceSummary>, s: ResourceSummary)
    requires
        std_prefix(old(v)@),
        old(v)@.len() < std_count(),
        std_shaped(s),
        std_row(s) == std_entry(old(v)@.len() as int),
    ensures
        final(v)@ == old(v)@.push(s),
        std_prefix(final(v)@),
{
    v.push(s);
    assert forall|i: int| 0 <= i < v@.len() implies std_shaped(#[trigger] v@[i]) && std_row(v@[i]) == std_entry(i) by {
        if i < old(v)@.len() {
            assert(v@[i] == old(v)@[i]);
        }
    }
}

/// The shape of a bundled summary.
pub open spec fn std_shaped(s: ResourceSummary) -> bool {
    &&& s.trust == SummaryTrust::TrustedStd
    &&& s.type_contains is Some
    &&& s.trait_name is None
    &&& s.receiver_arg == 0
    &&& s.required_access is Some
    &&& s.effects@.len() <= 1
    &&& s.notes@.len() <= 1
}

fn opt_text(o: Option<&str>) -> (r: Option<String>)
    ensures
        match (r, o) {
            (Some(a), Some(b)) => a@ == b@,
            (None, None) => true,
            _ => false,
        },
{
    match o {
        Some(t) => Some(owned(t)),
        None => None,
    }
}

fn one_or_none(o: Option<&str>) -> (r: Vec<String>)
    ensures
        match o {
            Some(t) => r@.len() == 1 && r@[0]@ == t@,
            None => r@.len() == 0,
        },
{
    let mut v: Vec<String> = Vec::new();
    if let Some(t) = o {
        v.push(owned(t));
    }
    v
}

/// One bundled summary.
fn std_summary(
    ty: &str,
    method: &str,
    cost: &str,
    amortized: Option<&str>,
    effect: Option<&str>,
    access: AccessKind,
    condition: Option<&str>,
    result: Option<&str>,
    partial: Option<&str>,
    note: Option<&str>,
) -> (r: ResourceSummary)
    ensures
        std_shaped(r),
        std_row(r) == row(
            ty@,
            method@,
            cost@,
            str_opt(amortized),
            str_opt(effect),
            access,
            str_opt(condition),
            str_opt(result),
            str_opt(partial),
            str_opt(note),
        ),
        r.type_contains matches Some(t) && t@ == ty@,
        r.method@ == method@,
        r.cost@ == cost@,
        r.required_access == Some(access),
        match (r.amortized_cost, amortized) {
            (Some(a), Some(b)) => a@ == b@,
            (None, None) => true,
            _ => false,
        },
        match effect {
            Some(t) => r.effects@.len() == 1 && r.effects@[0]@ == t@,
            None => r.effects@.len() == 0,
        },
{
    ResourceSummary {
        trust: SummaryTrust::TrustedStd,
        type_contains: Some(owned(ty)),
        trait_name: None,
        method: owned(method),
        receiver_arg: 0,
        cost: owned(cost),
        amortized_cost: opt_text(amortized),
        effects: one_or_none(effect),
        required_access: Some(access),
        condition: opt_text(condition),
        return_value: opt_text(result),
        partial_unknown: opt_text(partial),
        notes: one_or_none(note),
    }
}

/// The bundled trusted models of `Vec`, `VecDeque`, `String`, `HashMap`,
/// `HashSet`, `LinkedList`, `BTreeMap`, `BTreeSet` and `BinaryHeap` methods.
#[verifier::rlimit(100)]
#[verifier::spinoff_prover]
pub fn trusted_std_summary_db() -> (r: SummaryDb)
    ensures
        std_db(r),
{
    let mut summaries: Vec<ResourceSummary> = Vec::new();
    proof {
        reveal(std_entry);
    }
    push_std(&mut summaries, std_summary("Vec", "push", "1", Some("1"), Some("len(receiver) += 1"), AccessKind::MutBorrow, None, None, None, Some("Trusted amortized model for Vec::push; resize/allocator hidden behind amortized contract.")));
    push_std(&mut summaries, std_summary("Vec", "pop", "1", Some("1"), Some("len(receiver) -= 1"), AccessKind::MutBorrow, Some("old(len(receiver)) > 0"), Some("Some iff old(len(receiver)) > 0"), None, None));
    push_std(&mut summaries, std_summary("Vec", "is_empty", "1", Some("1"), None, AccessKind::SharedBorrow, Some("len(receiver) == 0"), Some("bool"), None, None));
    push_std(&mut summaries, std_summary("Vec", "clear", "len(receiver)", None, Some("len(receiver) := 0"), AccessKind::MutBorrow, None, None, Some("drop_cost_T * old(len(receiver))"), Some("Element Drop cost is symbolic/partial unless modeled.")));
    push_std(&mut summaries, std_summary("Vec", "len", "1", Some("1"), None, AccessKind::SharedBorrow, None, Some("len(receiver)"), None, None));
    push_std(&mut summaries, std_summary("VecDeque", "push_back", "1", Some("1"), Some("len(receiver) += 1"), AccessKind::MutBorrow, None, None, None, Some("Trusted amortized model for VecDeque::push_back.")));
    push_std(&mut summaries, std_summary("VecDeque", "pop_front", "1", Some("1"), Some("len(receiver) -= 1"), AccessKind::MutBorrow, Some("old(len(receiver)) > 0"), Some("Some iff old(len(receiver)) > 0"), None, None));
    push_std(&mut summaries, std_summary("VecDeque", "pop_back", "1", Some("1"), Some("len(receiver) -= 1"), AccessKind::MutBorrow, Some("old(len(receiver)) > 0"), Some("Some iff old(len(receiver)) > 0"), None, None));
    push_std(&mut summaries, std_summary("String", "push", "1", Some("1"), Some("bytes(receiver) += 1"), AccessKind::MutBorrow, None, None, None, Some("Simplified char push model; true byte growth depends on char UTF-8 length.")));
    push_std(&mut summaries, std_summary("String", "push_str", "n", Some("n"), Some("bytes(receiver) += n"), AccessKind::MutBorrow, None, None, Some("n = len(argument bytes)"), None));
    push_std(&mut summaries, std_summary("String", "len", "1", Some("1"), None, AccessKind::SharedBorrow, None, Some("bytes(receiver)"), None, None));
    push_std(&mut summaries, std_summary("HashMap", "insert", "1", Some("1"), Some("len(receiver) += 1"), AccessKind::MutBorrow, None, None, Some("K_hash + K_eq + possible replacement/drop cost"), Some("Trusted average/amortized hash-table model; reports partial if generic costs are not modeled.")));
    push_std(&mut summaries, std_summary("HashSet", "insert", "1", Some("1"), Some("len(receiver) += 1"), AccessKind::MutBorrow, None, None, Some("K_hash + K_eq"), None));
    push_std(&mut summaries, std_summary("Vec", "insert", "n", Some("n"), Some("len(receiver) += 1"), AccessKind::MutBorrow, None, None, Some("n = elements shifted after insertion index"), Some("Vec::insert shifts tail elements.")));
    push_std(&mut summaries, std_summary("Vec", "remove", "n", Some("n"), Some("len(receiver) -= 1"), AccessKind::MutBorrow, Some("index < old(len(receiver))"), Some("removed element"), Some("n = elements shifted after removed index"), Some("Vec::remove shifts tail elements.")));
    push_std(&mut summaries, std_summary("Vec", "swap_remove", "1", Some("1"), Some("len(receiver) -= 1"), AccessKind::MutBorrow, Some("index < old(len(receiver))"), Some("removed element"), None, Some("Order is not preserved.")));
    push_std(&mut summaries, std_summary("Vec", "truncate", "n", Some("n"), Some("len(receiver) := n"), AccessKind::MutBorrow, Some("n <= old(len(receiver))"), None, Some("drop_cost_T * removed elements"), Some("Simplified model: n is target length; drop cost is symbolic.")));
    push_std(&mut summaries, std_summary("Vec", "reserve", "n", Some("n"), None, AccessKind::MutBorrow, None, None, Some("allocator/reallocation cost; n = additional capacity"), Some("Capacity-only effect currently not represented in len-based model.")));
    push_std(&mut summaries, std_summary("Vec", "get", "1", Some("1"), None, AccessKind::SharedBorrow, None, Some("Option<&T>"), None, None));
    push_std(&mut summaries, std_summary("LinkedList", "push_front", "1", Some("1"), Some("len(receiver) += 1"), AccessKind::MutBorrow, None, None, None, None));
    push_std(&mut summaries, std_summary("LinkedList", "push_back", "1", Some("1"), Some("len(receiver) += 1"), AccessKind::MutBorrow, None, None, None, None));
    push_std(&mut summaries, std_summary("LinkedList", "pop_front", "1", Some("1"), Some("len(receiver) -= 1"), AccessKind::MutBorrow, Some("old(len(receiver)) > 0"), Some("Some iff old(len(receiver)) > 0"), None, None));
    push_std(&mut summaries, std_summary("LinkedList", "pop_back", "1", Some("1"), Some("len(receiver) -= 1"), AccessKind::MutBorrow, Some("old(len(receiver)) > 0"), Some("Some iff old(len(receiver)) > 0"), None, None));
    push_std(&mut summaries, std_summary("LinkedList", "len", "1", Some("1"), None, AccessKind::SharedBorrow, None, Some("len(receiver)"), None, None));
    push_std(&mut summaries, std_summary("LinkedList", "clear", "len(receiver)", None, Some("len(receiver) := 0"), AccessKind::MutBorrow, None, None, Some("drop_cost_T * old(len(receiver))"), None));
    push_std(&mut summaries, std_summary("BTreeMap", "insert", "logn", Some("logn"), Some("len(receiver) += 1"), AccessKind::MutBorrow, None, Some("Option<V>; Some when key existed"), Some("K_ord*logn; len effect is conservative if key already existed"), Some("Ordered map model; key comparison cost remains symbolic.")));
    push_std(&mut summaries, std_summary("BTreeMap", "remove", "logn", Some("logn"), Some("len(receiver) -= 1"), AccessKind::MutBorrow, Some("key exists"), Some("Option<V>"), Some("K_ord*logn; len effect applies only if key existed"), None));
    push_std(&mut summaries, std_summary("BTreeMap", "get", "logn", Some("logn"), None, AccessKind::SharedBorrow, None, Some("Option<&V>"), Some("K_ord*logn"), None));
    push_std(&mut summaries, std_summary("BTreeMap", "contains_key", "logn", Some("logn"), None, AccessKind::SharedBorrow, None, Some("bool"), Some("K_ord*logn"), None));
    push_std(&mut summaries, std_summary("BTreeMap", "len", "1", Some("1"), None, AccessKind::SharedBorrow, None, Some("len(receiver)"), None, None));
    push_std(&mut summaries, std_summary("BTreeMap", "clear", "len(receiver)", None, Some("len(receiver) := 0"), AccessKind::MutBorrow, None, None, Some("drop_cost_KV * old(len(receiver))"), None));
    push_std(&mut summaries, std_summary("BTreeSet", "insert", "logn", Some("logn"), Some("len(receiver) += 1"), AccessKind::MutBorrow, None, Some("bool; true when value was newly inserted"), Some("K_ord*logn; len effect is conservative if value already existed"), None));
    push_std(&mut summaries, std_summary("BTreeSet", "remove", "logn", Some("logn"), Some("len(receiver) -= 1"), AccessKind::MutBorrow, Some("value exists"), Some("bool"), Some("K_ord*logn; len effect applies only if value existed"), None));
    push_std(&mut summaries, std_summary("BTreeSet", "contains", "logn", Some("logn"), None, AccessKind::SharedBorrow, None, Some("bool"), Some("K_ord*logn"), None));
    push_std(&mut summaries, std_summary("BTreeSet", "len", "1", Some("1"), None, AccessKind::SharedBorrow, None, Some("len(receiver)"), None, None));
    push_std(&mut summaries, std_summary("BinaryHeap", "push", "logn", Some("logn"), Some("len(receiver) += 1"), AccessKind::MutBorrow, None, None, Some("K_ord*logn"), Some("Priority queue model; comparison cost remains symbolic.")));
    push_std(&mut summaries, std_summary("BinaryHeap", "pop", "logn", Some("logn"), Some("len(receiver) -= 1"), AccessKind::MutBorrow, Some("old(len(receiver)) > 0"), Some("Some iff old(len(receiver)) > 0"), Some("K_ord*logn"), None));
    push_std(&mut summaries, std_summary("BinaryHeap", "peek", "1", Some("1"), None, AccessKind::SharedBorrow, None, Some("Option<&T>"), None, None));
    push_std(&mut summaries, std_summary("BinaryHeap", "len", "1", Some("1"), None, AccessKind::SharedBorrow, None, Some("len(receiver)"), None, None));
    push_std(&mut summaries, std_summary("BinaryHeap", "clear", "len(receiver)", None, Some("len(receiver) := 0"), AccessKind::MutBorrow, None, None, Some("drop_cost_T * old(len(receiver))"), None));
    push_std(&mut summaries, std_summary("HashMap", "get", "1", Some("1"), None, AccessKind::SharedBorrow, None, Some("Option<&V>"), Some("expected cost; K_hash + K_eq"), Some("Expected hash-table model.")));
    push_std(&mut summaries, std_summary("HashMap", "remove", "1", Some("1"), Some("len(receiver) -= 1"), AccessKind::MutBorrow, Some("key exists"), Some("Option<V>"), Some("expected cost; K_hash + K_eq; len effect applies only if key existed"), None));
    push_std(&mut summaries, std_summary("HashMap", "contains_key", "1", Some("1"), None, AccessKind::SharedBorrow, None, Some("bool"), Some("expected cost; K_hash + K_eq"), None));
    push_std(&mut summaries, std_summary("HashMap", "len", "1", Some("1"), None, AccessKind::SharedBorrow, None, Some("len(receiver)"), None, None));
    push_std(&mut summaries, std_summary("HashSet", "contains", "1", Some("1"), None, AccessKind::SharedBorrow, None, Some("bool"), Some("expected cost; K_hash + K_eq"), None));
    push_std(&mut summaries, std_summary("HashSet", "remove", "1", Some("1"), Some("len(receiver) -= 1"), AccessKind::MutBorrow, Some("value exists"), Some("bool"), Some("expected cost; K_hash + K_eq; len effect applies only if value existed"), None));
    push_std(&mut summaries, std_summary("HashSet", "len", "1", Some("1"), None, AccessKind::SharedBorrow, None, Some("len(receiver)"), None, None));
    SummaryDb { summaries, traits: Vec::new() }
}

} // verus!
