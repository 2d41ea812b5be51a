//! The analysis of a function: scalar control flow, amortized potentials
//! found by integer programming and checked exactly, and recurrences of
//! recursive functions.
use vstd::prelude::*;
use crate::expr::{i64_value, in_i64, is_solver_name, lemma_weights, program_names, weight_of, LinExpr};
use crate::certificate::Certificate;
use crate::constraints::{all_checkable, flatten_parts, generate_potential_constraints, obligation_constraints};
use crate::lp::{Bound, IlpSolution, IntegerLinearSolver, LinearConstraint, LinearProblem, SolverError, VarKind, VariableDecl};
use crate::loop_summary::{drain_pair, drain_text, infer_draining_loop, val_scale};
use crate::summary::SummaryDb;
use crate::ir::{CallEvent, Event, FunctionIr, ProgramIr, ResourcePath};
use crate::keymap::{KeyMap, TextKey};
use crate::diagnostics::{diagnostics_for_failed_obligations, errors_with, failure_texts};
use crate::obligation::{
    all_candidate_fits, coeff_name, expr_value, verified_as, verify_candidate_checked, Obligation, PotentialTemplate,
};
use crate::recurrence::{bound_text, solve_overflows, solve_spec, BoundClass, BranchShape, Recurrence, SolveRule};
use crate::policy::{diag_texts, lemma_policy_verdict, lowers_status, policy_trace, refused, DiagText, SoundnessPolicy};
use crate::report::{AnalysisReport, Diagnostic, MethodReport, Status};
use crate::interproc::{FunctionSummary, InterprocSummaryDb};
use crate::ranking::{contains_usize, find_ranking_function, lemma_search_gives_ranking, ranking_spec, witness_text, RankingClass, RankingFunction};
use crate::semantics::{eval_at, lemma_passed_check_sound, nonneg, Valuation};
use crate::transition::{at, len_in, lens_value, AbstractState, Val};
use crate::summary_mode::SummaryMode;
use crate::text::{
    ascii_alpha, ascii_digit, char_at, char_len, concat2, contains_spec, contains_text, ends_with, text_eq, is_ascii_alnum,
    is_ascii_alpha, is_digit, is_prefix, is_suffix, join_spec, nat_text, owned, parse_i64, parse_int_spec, parse_unsigned, replace_spec,
    starts_with, strip_prefix, texts, trim, trim_spec, u64_text, i64_text, int_text, join, push_text,
};

verus! {

/// Options of an analysis run.
#[derive(Debug, Clone)]
pub struct AnalysisOptions {
    pub infer_potential: bool,
    pub max_coeff_hint: i64,
    pub emit_events: bool,
    pub policy: SoundnessPolicy,
    pub summary_mode: SummaryMode,
}

impl Default for AnalysisOptions {
    /// Infer potentials, coefficient hint 8, no event dump, the default
    /// policy and the trusted std summaries.
    fn default() -> (r: Self)
        ensures
            r.infer_potential,
            r.max_coeff_hint == 8,
            !r.emit_events,
            r.summary_mode == SummaryMode::TrustedStd,
            r.policy.unsafe_policy == crate::policy::UnsafePolicy::Undefined,
            r.policy.raw_pointer_policy == crate::policy::RawPointerPolicy::Partial,
            r.policy.interior_mutability_policy == crate::policy::InteriorMutabilityPolicy::SummaryRequired,
    {
        AnalysisOptions {
            infer_potential: true,
            max_coeff_hint: 8,
            emit_events: false,
            policy: SoundnessPolicy::default(),
            summary_mode: SummaryMode::TrustedStd,
        }
    }
}

/// The receivers of the calls, each once, in order of first appearance.
pub open spec fn receivers_upto(events: Seq<Event>) -> Seq<Seq<Seq<char>>>
    decreases events.len(),
{
    if events.len() == 0 {
        Seq::empty()
    } else {
        let prev = receivers_upto(events.drop_last());
        match events.last() {
            Event::Call(c) => match c.receiver {
                Some(r) => if prev.contains(r@) {
                    prev
                } else {
                    prev.push(r@)
                },
                None => prev,
            },
            _ => prev,
        }
    }
}

/// The paths, by view.
pub open spec fn path_views(ps: Seq<ResourcePath>) -> Seq<Seq<Seq<char>>> {
    ps.map_values(|p: ResourcePath| p@)
}

fn contains_path(ps: &Vec<ResourcePath>, p: &ResourcePath) -> (r: bool)
    ensures
        r == path_views(ps@).contains(p@),
{
    let mut i: usize = 0;
    while i < ps.len()
        invariant
            i <= ps@.len(),
            forall|j: int| 0 <= j < i ==> ps@[j]@ != p@,
        decreases ps@.len() - i,
    {
        if ps[i].same_as(p) {
            assert(path_views(ps@)[i as int] == p@);
            return true;
        }
        i = i + 1;
    }
    proof {
        if path_views(ps@).contains(p@) {
            let j = choose|j: int| 0 <= j < path_views(ps@).len() && path_views(ps@)[j] == p@;
            assert(ps@[j]@ == p@);
        }
    }
    false
}

/// The receivers of the function's calls, each once, in order of first appearance.
fn collect_resource_paths(f: &FunctionIr) -> (r: Vec<ResourcePath>)
    ensures
        path_views(r@) == receivers_upto(f.events@),
        r@.len() <= f.events@.len(),
{
    let mut out: Vec<ResourcePath> = Vec::new();
    let mut i: usize = 0;
    while i < f.events.len()
        invariant
            i <= f.events@.len(),
            path_views(out@) == receivers_upto(f.events@.take(i as int)),
            out@.len() <= i,
        decreases f.events@.len() - i,
    {
        assert(f.events@.take(i + 1).drop_last() =~= f.events@.take(i as int));
        let ghost before = out@;
        match &f.events[i] {
            Event::Call(c) => match &c.receiver {
                Some(r) => {
                    if !contains_path(&out, r) {
                        out.push(r.copy());
                        assert(path_views(out@) =~= path_views(before).push(r@));
                    }
                },
                None => {},
            },
            _ => {},
        }
        i = i + 1;
    }
    assert(f.events@.take(f.events@.len() as int) =~= f.events@);
    out
}

/// The leading run of ASCII digits of a text.
pub open spec fn leading_digits(s: Seq<char>) -> Seq<char>
    decreases s.len(),
{
    if s.len() == 0 || !is_digit(s[0]) {
        Seq::empty()
    } else {
        seq![s[0]] + leading_digits(s.drop_first())
    }
}

/// The integer a Rust literal starts with: its leading digits, when there
/// are some and they fit in `i64`.
pub open spec fn literal_value(s: Seq<char>) -> Option<int> {
    let d = leading_digits(s);
    if d.len() == 0 {
        None
    } else {
        i64_value(d)
    }
}

proof fn lemma_leading_prefix(s: Seq<char>, i: int)
    requires
        0 <= i <= s.len(),
        forall|j: int| 0 <= j < i ==> is_digit(#[trigger] s[j]),
        i == s.len() || !is_digit(s[i]),
    ensures
        leading_digits(s) == s.take(i),
    decreases i,
{
    if i == 0 {
        assert(s.take(0) =~= Seq::<char>::empty());
    } else {
        let t = s.drop_first();
        assert forall|j: int| 0 <= j < i - 1 implies is_digit(#[trigger] t[j]) by {
            assert(t[j] == s[j + 1]);
        }
        if i < s.len() {
            assert(t[i - 1] == s[i]);
        }
        lemma_leading_prefix(t, i - 1);
        assert(is_digit(s[0]));
        assert(s.take(i) =~= seq![s[0]] + t.take(i - 1));
    }
}

/// The integer a Rust literal such as `10_u32` starts with.
fn parse_rust_integer_literal(src: &str) -> (r: Option<i64>)
    ensures
        match r {
            Some(v) => literal_value(src@) == Some(v as int),
            None => literal_value(src@) is None,
        },
{
    let n = char_len(src);
    let mut digits = String::new();
    let mut i: usize = 0;
    while i < n && ascii_digit(char_at(src, i))
        invariant
            n == src@.len(),
            i <= n,
            forall|j: int| 0 <= j < i ==> is_digit(#[trigger] src@[j]),
            digits@ == src@.take(i as int),
        decreases n - i,
    {
        let c = char_at(src, i);
        crate::text::push_char(&mut digits, c);
        assert(digits@ =~= src@.take(i + 1));
        i = i + 1;
    }
    proof {
        lemma_leading_prefix(src@, i as int);
    }
    if i == 0 {
        return None;
    }
    parse_i64(digits.as_str())
}

/// A Rust identifier: a letter or `_`, then letters, digits and `_`.
pub open spec fn symbolic_name(s: Seq<char>) -> bool {
    &&& s.len() > 0
    &&& (s[0] == '_' || is_ascii_alpha(s[0]))
    &&& forall|i: int| 1 <= i < s.len() ==> #[trigger] s[i] == '_' || is_ascii_alnum(s[i])
}

fn is_symbolic_bound_name(src: &str) -> (r: bool)
    ensures
        r == symbolic_name(src@),
{
    let n = char_len(src);
    if n == 0 {
        return false;
    }
    let c0 = char_at(src, 0);
    if !(c0 == '_' || ascii_alpha(c0)) {
        return false;
    }
    let mut i: usize = 1;
    while i < n
        invariant
            n == src@.len(),
            1 <= i <= n,
            forall|j: int| 1 <= j < i ==> #[trigger] src@[j] == '_' || is_ascii_alnum(src@[j]),
        decreases n - i,
    {
        let c = char_at(src, i);
        if !(c == '_' || ascii_alpha(c) || ascii_digit(c)) {
            return false;
        }
        i = i + 1;
    }
    true
}

/// The argument with surrounding white space and the `copy `, `move ` and
/// `const ` prefixes removed, in that order.
pub open spec fn strip_one(t: Seq<char>, p: Seq<char>) -> Seq<char> {
    if is_prefix(p, t) {
        trim_spec(t.skip(p.len() as int))
    } else {
        t
    }
}

pub open spec fn stripped_arg(arg: Seq<char>) -> Seq<char> {
    strip_one(strip_one(strip_one(trim_spec(arg), "copy "@), "move "@), "const "@)
}

/// The loop bound a range argument denotes: an integer literal, the
/// argument `argN` for the local `_N` (N > 0), or a named variable.
pub open spec fn scalar_bound(arg: Seq<char>) -> Option<(int, Seq<char>, int)> {
    let s = stripped_arg(arg);
    match literal_value(s) {
        Some(v) => Some((v, Seq::empty(), 0)),
        None => if is_prefix("_"@, s) {
            match parse_int_spec(s.skip(1), false, 0, usize::MAX as int) {
                Some(ix) => if ix > 0 {
                    Some((0, "arg"@ + nat_text(ix as nat), 1))
                } else {
                    None
                },
                None => None,
            }
        } else if symbolic_name(s) {
            Some((0, s, 1))
        } else {
            None
        },
    }
}

/// `e` is the constant `c` plus `k·n`, stored as one term `n` (no term
/// when `k` is zero).
pub open spec fn expr_is_term(e: LinExpr, t: (int, Seq<char>, int)) -> bool {
    &&& e.wf()
    &&& e.constant == t.0
    &&& forall|n: Seq<char>| #[trigger] e.coeff_of(n) == if n == t.1 && t.2 != 0 { t.2 } else { 0 }
    &&& if t.2 != 0 {
        e.terms.entries().len() == 1 && e.terms.entries()[0].0@ == t.1
    } else {
        e.terms.entries().len() == 0
    }
}

/// The asymptotic form of `c + k·n`: `O(n)` for a program variable `n`
/// with non-zero `k`, else `O(1)`.
pub open spec fn term_big_o(t: (int, Seq<char>, int)) -> Seq<char> {
    if t.2 != 0 && !is_solver_name(t.1) {
        "O("@ + t.1 + ")"@
    } else {
        "O(1)"@
    }
}

proof fn lemma_term_big_o(e: LinExpr, t: (int, Seq<char>, int))
    requires
        expr_is_term(e, t),
    ensures
        e.big_o_text() == term_big_o(t),
{
    let es = e.terms.entries();
    if t.2 != 0 {
        assert(es.drop_last() =~= Seq::<(String, i64)>::empty());
        assert(program_names(es.drop_last()) =~= Seq::<Seq<char>>::empty());
        if !is_solver_name(t.1) {
            assert(program_names(es) =~= seq![t.1]);
            assert(join_spec(seq![t.1], " + "@) == t.1);
        }
    }
}

fn strip_and_trim(s: String, p: &str) -> (r: String)
    ensures
        r@ == strip_one(s@, p@),
{
    match strip_prefix(s.as_str(), p) {
        Some(rest) => trim(rest.as_str()),
        None => s,
    }
}

/// The loop bound a range argument such as `copy _2` or `const 10_usize` denotes.
fn parse_scalar_bound_arg(arg: &str) -> (r: Option<LinExpr>)
    ensures
        match (r, scalar_bound(arg@)) {
            (Some(e), Some(t)) => expr_is_term(e, t),
            (None, None) => true,
            _ => false,
        },
{
    let mut s = trim(arg);
    proof {
        reveal_strlit("copy ");
        reveal_strlit("move ");
        reveal_strlit("const ");
        reveal_strlit("_");
        reveal_strlit("arg");
    }
    s = strip_and_trim(s, "copy ");
    s = strip_and_trim(s, "move ");
    s = strip_and_trim(s, "const ");
    if let Some(value) = parse_rust_integer_literal(s.as_str()) {
        let e = LinExpr::constant(value);
        assert forall|n: Seq<char>| #[trigger] e.coeff_of(n) == 0 by {
        }
        return Some(e);
    }
    if let Some(local) = strip_prefix(s.as_str(), "_") {
        let index = match parse_unsigned(local.as_str(), usize::MAX as u64) {
            Some(ix) => ix,
            None => return None,
        };
        if index > 0 {
            let name = concat2("arg", u64_text(index).as_str());
            return Some(LinExpr::var(name.as_str(), 1));
        }
        return None;
    }
    if is_symbolic_bound_name(s.as_str()) {
        Some(LinExpr::var(s.as_str(), 1))
    } else {
        None
    }
}


/// A call of `Range::new` or `RangeInclusive::new`.
pub open spec fn is_range_new(c: CallEvent) -> bool {
    &&& c.method@ == "new"@
    &&& (contains_spec(c.callee@, "std::ops::RangeInclusive"@) || contains_spec(c.callee@, "std::ops::Range"@))
}

/// The bound of the first range construction, from position `i` on,
/// whose last argument denotes a loop bound.
pub open spec fn range_scan(events: Seq<Event>, i: int) -> Option<(int, Seq<char>, int)>
    decreases events.len() - i,
{
    if i < 0 || i >= events.len() {
        None
    } else {
        match events[i] {
            Event::Call(c) => if is_range_new(c) && c.args@.len() > 0 && scalar_bound(c.args@.last()@) is Some {
                scalar_bound(c.args@.last()@)
            } else {
                range_scan(events, i + 1)
            },
            _ => range_scan(events, i + 1),
        }
    }
}

/// There is a loop, and every loop region starts at the first one's header.
pub open spec fn single_header(f: FunctionIr) -> bool {
    &&& f.loops@.len() > 0
    &&& f.loops@[0].blocks@.len() > 0
    &&& forall|i: int| 0 <= i < f.loops@.len() ==> #[trigger] f.loops@[i].blocks@.len() > 0
        && f.loops@[i].blocks@[0] == f.loops@[0].blocks@[0]
}

/// The bound of a single range loop: the back edges share one header and a
/// range is built from a recognised bound.
pub open spec fn range_bound(f: FunctionIr) -> Option<(int, Seq<char>, int)> {
    if single_header(f) {
        range_scan(f.events@, 0)
    } else {
        None
    }
}

fn has_single_header(f: &FunctionIr) -> (r: bool)
    ensures
        r == single_header(*f),
{
    if f.loops.len() == 0 || f.loops[0].blocks.len() == 0 {
        return false;
    }
    let header = f.loops[0].blocks[0];
    let mut i: usize = 0;
    while i < f.loops.len()
        invariant
            i <= f.loops@.len(),
            f.loops@.len() > 0,
            f.loops@[0].blocks@.len() > 0,
            header == f.loops@[0].blocks@[0],
            forall|j: int| 0 <= j < i ==> #[trigger] f.loops@[j].blocks@.len() > 0
                && f.loops@[j].blocks@[0] == header,
        decreases f.loops@.len() - i,
    {
        let l = &f.loops[i];
        if l.blocks.len() == 0 || l.blocks[0] != header {
            assert(!(f.loops@[i as int].blocks@.len() > 0 && f.loops@[i as int].blocks@[0] == header));
            return false;
        }
        i = i + 1;
    }
    true
}

/// The loop bound of a function whose loops are one Rust range loop: the
/// last argument of the first range construction that denotes a bound.
fn infer_single_range_loop_bound(f: &FunctionIr) -> (r: Option<LinExpr>)
    ensures
        match (r, range_bound(*f)) {
            (Some(e), Some(t)) => expr_is_term(e, t),
            (None, None) => true,
            _ => false,
        },
{
    if !has_single_header(f) {
        return None;
    }
    let mut i: usize = 0;
    while i < f.events.len()
        invariant
            i <= f.events@.len(),
            single_header(*f),
            range_bound(*f) == range_scan(f.events@, i as int),
        decreases f.events@.len() - i,
    {
        if let Event::Call(call) = &f.events[i] {
            proof {
                reveal_strlit("new");
            }
            let is_range_new = text_eq(call.method.as_str(), "new") && (contains_text(
                call.callee.as_str(),
                "std::ops::RangeInclusive",
            ) || contains_text(call.callee.as_str(), "std::ops::Range"));
            if is_range_new && call.args.len() > 0 {
                let last = &call.args[call.args.len() - 1];
                assert(call.args@.last() == *last);
                if let Some(e) = parse_scalar_bound_arg(last.as_str()) {
                    return Some(e);
                }
            }
        }
        i = i + 1;
    }
    None
}


/// What a report holds, besides its (empty) obligations: method, status,
/// bound, potential, diagnostics and assumptions, by their texts.
pub type ReportText = (Status, Seq<char>, Option<Seq<char>>, Seq<DiagText>, Seq<Seq<char>>);

/// `r` is the report of `method` with the given contents and no obligations.
pub open spec fn report_is(r: MethodReport, method: Seq<char>, t: ReportText) -> bool {
    &&& r.method@ == method
    &&& r.status == t.0
    &&& r.amortized_bound@ == t.1
    &&& match (r.potential, t.2) {
        (Some(a), Some(b)) => a@ == b,
        (None, None) => true,
        _ => false,
    }
    &&& r.obligations@.len() == 0
    &&& diag_texts(r.diagnostics@) == t.3
    &&& texts(r.assumptions@) == t.4
}

/// The detail of the first unknown event from position `i` on.
pub open spec fn first_unknown(events: Seq<Event>, i: int) -> Option<Seq<char>>
    decreases events.len() - i,
{
    if i < 0 || i >= events.len() {
        None
    } else {
        match events[i] {
            Event::Unknown { detail, .. } => Some(detail@),
            _ => first_unknown(events, i + 1),
        }
    }
}

/// A call of a method named `name`.
pub open spec fn is_call_of(ev: Event, name: Seq<char>) -> bool {
    match ev {
        Event::Call(c) => c.method@ == name,
        _ => false,
    }
}

/// The function calls a method of its own name.
pub open spec fn calls_itself(f: FunctionIr) -> bool {
    exists|i: int| 0 <= i < f.events@.len() && is_call_of(#[trigger] f.events@[i], f.name@)
}

/// `Proven`, lowered to `Partial` where the policy gave `Partial`.
pub open spec fn proven_unless_partial(policy_status: Status) -> Status {
    if policy_status == Status::Partial {
        Status::Partial
    } else {
        Status::Proven
    }
}

pub open spec fn warn_text(msg: Seq<char>) -> DiagText {
    ("warn"@, msg)
}

/// Some call event sits in one of the blocks.
pub open spec fn calls_in(f: FunctionIr, blocks: Seq<usize>) -> bool {
    exists|i: int| 0 <= i < f.events@.len() && (#[trigger] f.events@[i]) is Call && blocks.contains(f.events@[i].block_of())
}

/// The bound a ranking function of the class gives.
pub open spec fn ranking_bound_text(c: RankingClass) -> Seq<char> {
    match c {
        RankingClass::Logarithmic => "O(log n)"@,
        RankingClass::Linear => "O(n)"@,
    }
}

/// Why the ranking variable bounds the loop.
pub open spec fn ranking_reason(var: Seq<char>, c: RankingClass) -> Seq<char> {
    "ranking function `"@ + var + match c {
        RankingClass::Logarithmic => "` proves termination via path-sensitive logarithmic decrease"@,
        RankingClass::Linear => "` proves termination via path-sensitive linear decrease"@,
    }
}

/// The report of the single loop of `f` bounded by its ranking function:
/// proven (unless the policy lowers it) when the loop body makes no call,
/// partial otherwise, the per-iteration cost of the calls being assumed.
pub open spec fn ranking_outcome(f: FunctionIr, policy_status: Status, diags: Seq<DiagText>) -> ReportText {
    let (v, c) = ranking_spec(f, f.loops@[0].blocks@).unwrap();
    if !calls_in(f, f.loops@[0].blocks@) {
        (
            proven_unless_partial(policy_status),
            ranking_bound_text(c),
            None,
            diags,
            seq![ranking_reason(v, c), witness_text(v, c), "loop body has no Call events ⇒ constant cost per iteration"@],
        )
    } else {
        (
            Status::Partial,
            ranking_bound_text(c),
            None,
            diags,
            seq![ranking_reason(v, c), witness_text(v, c), "loop body makes calls; their cost per iteration is assumed constant"@],
        )
    }
}

/// The report of a function without resources, given the policy's status
/// and diagnostics: constant cost for acyclic code, the range bound for a
/// single range loop, the ranking bound for a single loop with a ranking
/// variable, and `O(?)` with a warning otherwise.
pub open spec fn scalar_outcome(f: FunctionIr, policy_status: Status, diags: Seq<DiagText>) -> ReportText {
    let unknown = "O(?)"@;
    if policy_status == Status::Undefined {
        (Status::Undefined, unknown, None, diags, Seq::empty())
    } else {
        match first_unknown(f.events@, 0) {
            Some(d) => (
                Status::Partial,
                unknown,
                None,
                diags.push(warn_text("unknown MIR event prevents scalar proof: "@ + d)),
                Seq::empty(),
            ),
            None => if f.loops@.len() == 0 {
                if calls_itself(f) {
                    (
                        Status::Partial,
                        unknown,
                        None,
                        diags.push(warn_text("recursive function; intraprocedural analysis cannot determine bound"@)),
                        Seq::empty(),
                    )
                } else {
                    (
                        proven_unless_partial(policy_status),
                        "O(1)"@,
                        Some("0"@),
                        diags,
                        seq!["acyclic scalar MIR treated as constant-cost"@],
                    )
                }
            } else {
                match range_bound(f) {
                    Some(t) => (
                        proven_unless_partial(policy_status),
                        term_big_o(t),
                        Some("0"@),
                        diags,
                        seq!["single Rust range loop with scalar constant-cost body"@],
                    ),
                    None => if f.loops@.len() == 1 && ranking_spec(f, f.loops@[0].blocks@) is Some {
                        ranking_outcome(f, policy_status, diags)
                    } else {
                        (
                            Status::Partial,
                            unknown,
                            None,
                            diags.push(warn_text("loop shape is not a recognized scalar Rust range loop"@)),
                            Seq::empty(),
                        )
                    },
                }
            },
        }
    }
}

fn find_unknown(events: &Vec<Event>) -> (r: Option<String>)
    ensures
        match (r, first_unknown(events@, 0)) {
            (Some(a), Some(b)) => a@ == b,
            (None, None) => true,
            _ => false,
        },
{
    let mut i: usize = 0;
    while i < events.len()
        invariant
            i <= events@.len(),
            first_unknown(events@, 0) == first_unknown(events@, i as int),
        decreases events@.len() - i,
    {
        if let Event::Unknown { detail, .. } = &events[i] {
            return Some(detail.clone());
        }
        i = i + 1;
    }
    None
}

fn has_self_call(f: &FunctionIr) -> (r: bool)
    ensures
        r == calls_itself(*f),
{
    let mut i: usize = 0;
    while i < f.events.len()
        invariant
            i <= f.events@.len(),
            forall|j: int| 0 <= j < i ==> !is_call_of(#[trigger] f.events@[j], f.name@),
        decreases f.events@.len() - i,
    {
        if let Event::Call(c) = &f.events[i] {
            if text_eq(c.method.as_str(), f.name.as_str()) {
                assert(is_call_of(f.events@[i as int], f.name@));
                return true;
            }
        }
        i = i + 1;
    }
    false
}

fn scalar_report(
    f: &FunctionIr,
    status: Status,
    bound: &str,
    potential: Option<String>,
    diagnostics: Vec<Diagnostic>,
    assumptions: Vec<String>,
) -> (r: MethodReport)
    ensures
        r.method@ == f.full_name_text(),
        r.status == status,
        r.amortized_bound@ == bound@,
        r.potential == potential,
        r.obligations@.len() == 0,
        r.diagnostics == diagnostics,
        r.assumptions == assumptions,
{
    MethodReport {
        method: f.full_name(),
        status,
        amortized_bound: owned(bound),
        potential,
        obligations: Vec::new(),
        diagnostics,
        assumptions,
    }
}

fn push_warn(diagnostics: &mut Vec<Diagnostic>, msg: String)
    ensures
        diag_texts(final(diagnostics)@) == diag_texts(old(diagnostics)@).push(warn_text(msg@)),
{
    let d = Diagnostic::warn(msg);
    let ghost before = diagnostics@;
    diagnostics.push(d);
    assert(diag_texts(diagnostics@) =~= diag_texts(before).push(warn_text(msg@)));
}

/// The report of a function whose calls have no resource receivers, or
/// `None` when it has some.
/// Whether some call event sits in one of the blocks.
fn has_call_in(f: &FunctionIr, blocks: &Vec<usize>) -> (r: bool)
    ensures
        r == calls_in(*f, blocks@),
{
    let mut i: usize = 0;
    while i < f.events.len()
        invariant
            i <= f.events@.len(),
            forall|j: int| 0 <= j < i ==> !((#[trigger] f.events@[j]) is Call && blocks@.contains(f.events@[j].block_of())),
        decreases f.events@.len() - i,
    {
        if let Event::Call(c) = &f.events[i] {
            if contains_usize(blocks, c.block) {
                assert(f.events@[i as int] is Call && blocks@.contains(f.events@[i as int].block_of()));
                return true;
            }
        }
        i = i + 1;
    }
    false
}

/// The report of the single loop of `f` bounded by the ranking function `rf`.
fn ranking_report(f: &FunctionIr, rf: &RankingFunction, status: Status, diagnostics: Vec<Diagnostic>) -> (r: MethodReport)
    requires
        f.loops@.len() == 1,
        ranking_spec(*f, f.loops@[0].blocks@) == Some((rf.variable@, rf.class)),
        rf.witness@ == witness_text(rf.variable@, rf.class),
        status != Status::Undefined,
    ensures
        report_is(
            r,
            f.full_name_text(),
            ranking_outcome(*f, status, diag_texts(diagnostics@)),
        ),
{
    let calls = has_call_in(f, &f.loops[0].blocks);
    proof {
        reveal_strlit("O(log n)");
        reveal_strlit("O(n)");
    }
    let (bound, reason) = match rf.class {
        RankingClass::Logarithmic => (
            "O(log n)",
            crate::text::concat3("ranking function `", rf.variable.as_str(), "` proves termination via path-sensitive logarithmic decrease"),
        ),
        RankingClass::Linear => (
            "O(n)",
            crate::text::concat3("ranking function `", rf.variable.as_str(), "` proves termination via path-sensitive linear decrease"),
        ),
    };
    let mut assumptions: Vec<String> = Vec::new();
    assumptions.push(reason);
    assumptions.push(rf.witness.clone());
    let st = if calls {
        assumptions.push(owned("loop body makes calls; their cost per iteration is assumed constant"));
        Status::Partial
    } else {
        assumptions.push(owned("loop body has no Call events ⇒ constant cost per iteration"));
        status
    };
    let r = scalar_report(f, st, bound, None, diagnostics, assumptions);
    assert(texts(r.assumptions@) =~= ranking_outcome(*f, status, diag_texts(diagnostics@)).4);
    r
}

fn analyze_scalar_control_flow(
    f: &FunctionIr,
    has_no_resources: bool,
    policy_status: Status,
    diagnostics: Vec<Diagnostic>,
) -> (r: Option<MethodReport>)
    ensures
        !has_no_resources ==> r is None,
        has_no_resources ==> (r matches Some(m) && report_is(
            m,
            f.full_name_text(),
            scalar_outcome(*f, policy_status, diag_texts(diagnostics@)),
        )),
{
    let mut diagnostics = diagnostics;
    if !has_no_resources {
        return None;
    }
    proof {
        reveal_strlit("O(?)");
    }
    if policy_status == Status::Undefined {
        let r = scalar_report(f, Status::Undefined, "O(?)", None, diagnostics, Vec::new());
        assert(texts(r.assumptions@) =~= Seq::<Seq<char>>::empty());
        return Some(r);
    }
    if let Some(detail) = find_unknown(&f.events) {
        let msg = concat2("unknown MIR event prevents scalar proof: ", detail.as_str());
        push_warn(&mut diagnostics, msg);
        let r = scalar_report(f, Status::Partial, "O(?)", None, diagnostics, Vec::new());
        assert(texts(r.assumptions@) =~= Seq::<Seq<char>>::empty());
        return Some(r);
    }
    let status = if policy_status == Status::Partial {
        Status::Partial
    } else {
        Status::Proven
    };
    if f.loops.len() == 0 {
        if has_self_call(f) {
            push_warn(&mut diagnostics, owned("recursive function; intraprocedural analysis cannot determine bound"));
            let r = scalar_report(f, Status::Partial, "O(?)", None, diagnostics, Vec::new());
            assert(texts(r.assumptions@) =~= Seq::<Seq<char>>::empty());
            return Some(r);
        }
        let mut assumptions: Vec<String> = Vec::new();
        assumptions.push(owned("acyclic scalar MIR treated as constant-cost"));
        let r = scalar_report(f, status, "O(1)", Some(owned("0")), diagnostics, assumptions);
        assert(texts(r.assumptions@) =~= seq!["acyclic scalar MIR treated as constant-cost"@]);
        return Some(r);
    }
    match infer_single_range_loop_bound(f) {
        Some(bound) => {
            let text = bound.to_big_o();
            proof {
                lemma_term_big_o(bound, range_bound(*f).unwrap());
            }
            let mut assumptions: Vec<String> = Vec::new();
            assumptions.push(owned("single Rust range loop with scalar constant-cost body"));
            let r = scalar_report(f, status, text.as_str(), Some(owned("0")), diagnostics, assumptions);
            assert(texts(r.assumptions@) =~= seq!["single Rust range loop with scalar constant-cost body"@]);
            Some(r)
        },
        None => {
            if f.loops.len() == 1 {
                let rk = find_ranking_function(f, &f.loops[0]);
                proof {
                    lemma_search_gives_ranking(*f, f.loops@[0].blocks@, rk);
                }
                if let Some(rf) = rk {
                    let r = ranking_report(f, &rf, status, diagnostics);
                    return Some(r);
                }
            }
            push_warn(&mut diagnostics, owned("loop shape is not a recognized scalar Rust range loop"));
            let r = scalar_report(f, Status::Partial, "O(?)", None, diagnostics, Vec::new());
            assert(texts(r.assumptions@) =~= Seq::<Seq<char>>::empty());
            Some(r)
        },
    }
}


/// The written form of a path given by its view: the root, then `.field`
/// for each field.
pub open spec fn path_text(v: Seq<Seq<char>>) -> Seq<char> {
    if v.len() <= 1 {
        v[0]
    } else {
        v[0] + "."@ + join_spec(v.drop_first(), "."@)
    }
}

proof fn lemma_path_text(p: ResourcePath)
    ensures
        p.text() == path_text(p@),
        coeff_name(p) == view_coeff(p@),
{
    assert(p@.drop_first() =~= texts(p.fields@));
    assert(p@[0] == p.root@);
    assert(p@.len() == 1 + p.fields@.len());
}

/// The name of the potential coefficient of the path with this view.
pub open spec fn view_coeff(v: Seq<Seq<char>>) -> Seq<char> {
    "a_"@ + replace_spec(path_text(v), "."@, "_"@)
}

/// The first path from position `i` on whose written form ends with `suffix`.
pub open spec fn suffix_path_from(ps: Seq<Seq<Seq<char>>>, suffix: Seq<char>, i: int) -> Option<Seq<Seq<char>>>
    decreases ps.len() - i,
{
    if i < 0 || i >= ps.len() {
        None
    } else if is_suffix(suffix, path_text(ps[i])) {
        Some(ps[i])
    } else {
        suffix_path_from(ps, suffix, i + 1)
    }
}

/// The first path whose written form ends with `suffix`.
pub open spec fn suffix_path(ps: Seq<Seq<Seq<char>>>, suffix: Seq<char>) -> Option<Seq<Seq<char>>> {
    suffix_path_from(ps, suffix, 0)
}

fn find_suffix(ps: &Vec<ResourcePath>, suffix: &str) -> (r: Option<usize>)
    ensures
        match r {
            Some(i) => i < ps@.len() && suffix_path(path_views(ps@), suffix@) == Some(ps@[i as int]@),
            None => suffix_path(path_views(ps@), suffix@) is None,
        },
{
    let ghost pv = path_views(ps@);
    let mut i: usize = 0;
    while i < ps.len()
        invariant
            i <= ps@.len(),
            pv == path_views(ps@),
            suffix_path(pv, suffix@) == suffix_path_from(pv, suffix@, i as int),
        decreases ps@.len() - i,
    {
        let t = ps[i].to_string();
        proof {
            lemma_path_text(ps@[i as int]);
            assert(pv[i as int] == ps@[i as int]@);
        }
        if ends_with(t.as_str(), suffix) {
            return Some(i);
        }
        i = i + 1;
    }
    None
}


/// A linear expression described by its constant and weighted names.
pub type Sum = (int, Seq<(Seq<char>, int)>);

/// `e` is the constant of `s` plus its weighted names.
pub open spec fn expr_sum(e: LinExpr, s: Sum) -> bool {
    &&& e.wf()
    &&& e.normalized()
    &&& e.constant == s.0
    &&& forall|n: Seq<char>| #[trigger] e.coeff_of(n) == weight_of(s.1, n)
}

/// An obligation described by its name, actual cost, potential before and
/// after, amortized cost and explanation.
pub type ObligationSpec = (Seq<char>, Sum, Sum, Sum, Sum, Seq<char>);

pub open spec fn obligation_is(o: Obligation, s: ObligationSpec) -> bool {
    &&& o.name@ == s.0
    &&& expr_sum(o.actual, s.1)
    &&& expr_sum(o.phi_before, s.2)
    &&& expr_sum(o.phi_after, s.3)
    &&& expr_sum(o.amortized, s.4)
    &&& o.explanation@ == s.5
}

/// `push` costs 1 and adds one unit of `back`'s coefficient `cb` to the potential.
pub open spec fn push_spec(cb: Seq<char>) -> ObligationSpec {
    (
        "push"@,
        (1, Seq::empty()),
        (0, seq![(cb + "*B"@, 1)]),
        (0, seq![(cb + "*B"@, 1), (cb, 1)]),
        (0, seq![("c_push"@, 1)]),
        "generic summary: receiver.push increases len(receiver) by 1"@,
    )
}

/// The potential `cf·F + cb·B` of the two stacks.
pub open spec fn pop_potential(cf: Seq<char>, cb: Seq<char>) -> Sum {
    (0, seq![(cf + "*F"@, 1), (cb + "*B"@, 1)])
}

/// `pop` without a transfer costs 1 and leaves the potential unchanged.
pub open spec fn pop_normal_spec(cf: Seq<char>, cb: Seq<char>) -> ObligationSpec {
    (
        "pop-normal"@,
        (1, Seq::empty()),
        pop_potential(cf, cb),
        pop_potential(cf, cb),
        (0, seq![("c_pop"@, 1)]),
        "normal branch: front.pop and potential unchanged"@,
    )
}

/// The variable standing for `len(p)` when `front` has length `F` and
/// `back` has length `B`.
pub open spec fn len_name(p: ResourcePath, front: Seq<Seq<char>>, back: Seq<Seq<char>>) -> Seq<char> {
    if p@ == back {
        "B"@
    } else if p@ == front {
        "F"@
    } else {
        p.len_var_text()
    }
}

/// `pop` with the transfer loop costs one more than the loop, `2·len(src)`,
/// and the potential of `back` moves to `front` at `front`'s rate.
pub open spec fn pop_transfer_spec(
    cf: Seq<char>,
    cb: Seq<char>,
    src: ResourcePath,
    dst: ResourcePath,
    front: Seq<Seq<char>>,
    back: Seq<Seq<char>>,
) -> ObligationSpec {
    (
        "pop-transfer"@,
        (1, seq![(len_name(src, front, back), 2)]),
        pop_potential(cf, cb),
        (0, seq![(cf + "*F"@, 1), (cf + "*B"@, 1), (cf, -1)]),
        (0, seq![("c_pop"@, 1)]),
        drain_text(src, dst),
    )
}

/// The obligations of a function: for `push` with a `back` resource, the
/// push obligation; for `pop` with `front` and `back` resources, the normal
/// obligation and, where the events drain one stack into another, the
/// transfer obligation; none otherwise.
pub open spec fn expected_obligations(f: FunctionIr) -> Seq<ObligationSpec> {
    let ps = receivers_upto(f.events@);
    if f.name@ == "push"@ {
        match suffix_path(ps, "back"@) {
            Some(b) => seq![push_spec(view_coeff(b))],
            None => Seq::empty(),
        }
    } else if f.name@ == "pop"@ {
        match (suffix_path(ps, "front"@), suffix_path(ps, "back"@)) {
            (Some(fr), Some(bk)) => {
                let cf = view_coeff(fr);
                let cb = view_coeff(bk);
                match drain_pair(f.events@) {
                    Some(d) => seq![pop_normal_spec(cf, cb), pop_transfer_spec(cf, cb, d.0, d.1, fr, bk)],
                    None => seq![pop_normal_spec(cf, cb)],
                }
            },
            _ => Seq::empty(),
        }
    } else {
        Seq::empty()
    }
}

/// The constant and every coefficient lie in `[-4, 4]`.
pub open spec fn small(e: LinExpr) -> bool {
    &&& -4 <= e.constant <= 4
    &&& forall|n: Seq<char>| -4 <= #[trigger] e.coeff_of(n) <= 4
}

proof fn lemma_small_checkable(o: Obligation)
    requires
        o.wf(),
        small(o.actual),
        small(o.phi_before),
        small(o.phi_after),
        small(o.amortized),
    ensures
        o.check_fits(),
{
    let a = expr_value(o.actual);
    let b = expr_value(o.phi_after);
    let c = expr_value(o.amortized);
    let d = expr_value(o.phi_before);
    assert forall|n: Seq<char>| #![trigger (a.1)(n), (b.1)(n)] in_i64((a.1)(n) + (b.1)(n)) && in_i64(-((a.1)(n) + (b.1)(n))) by {
        assert(-4 <= o.actual.coeff_of(n) <= 4);
        assert(-4 <= o.phi_after.coeff_of(n) <= 4);
    }
    assert forall|n: Seq<char>| #![trigger (c.1)(n), (d.1)(n)] in_i64((c.1)(n) + (d.1)(n)) by {
        assert(-4 <= o.amortized.coeff_of(n) <= 4);
        assert(-4 <= o.phi_before.coeff_of(n) <= 4);
    }
    assert forall|n: Seq<char>| #![trigger (a.1)(n), (c.1)(n)] in_i64(((c.1)(n) + (d.1)(n)) - ((a.1)(n) + (b.1)(n))) by {
        assert(-4 <= o.actual.coeff_of(n) <= 4);
        assert(-4 <= o.phi_after.coeff_of(n) <= 4);
        assert(-4 <= o.amortized.coeff_of(n) <= 4);
        assert(-4 <= o.phi_before.coeff_of(n) <= 4);
    }
}

/// `name` with weight 1, and `name2` with weight `k2`, added.
fn sum2(name: &str, name2: &str, k2: i64) -> (r: LinExpr)
    requires
        k2 == 1 || k2 == -1,
    ensures
        expr_sum(r, (0, seq![(name@, 1), (name2@, k2 as int)])),
        small(r),
{
    let a = LinExpr::var(name, 1);
    let b = LinExpr::var(name2, k2);
    assert(a.add_fits(b)) by {
        assert forall|n: Seq<char>| in_i64(#[trigger] a.coeff_of(n) + b.coeff_of(n)) by {
            assert(a.coeff_of(n) == if n == name@ { 1int } else { 0 });
            assert(b.coeff_of(n) == if n == name2@ { k2 as int } else { 0 });
        }
    }
    let r = a.add(&b);
    assert forall|n: Seq<char>| #[trigger] r.coeff_of(n) == weight_of(seq![(name@, 1), (name2@, k2 as int)], n) by {
        lemma_weights((name@, 1), (name2@, k2 as int), (name@, 0), n);
        assert(a.coeff_of(n) == if n == name@ { 1int } else { 0 });
        assert(b.coeff_of(n) == if n == name2@ { k2 as int } else { 0 });
    }
    assert forall|n: Seq<char>| -4 <= #[trigger] r.coeff_of(n) <= 4 by {
        assert(a.coeff_of(n) == if n == name@ { 1int } else { 0 });
        assert(b.coeff_of(n) == if n == name2@ { k2 as int } else { 0 });
    }
    r
}

/// `name` with weight `k`.
fn sum1(name: &str, k: i64) -> (r: LinExpr)
    requires
        -4 <= k <= 4,
        k != 0,
    ensures
        expr_sum(r, (0, seq![(name@, k as int)])),
        small(r),
{
    let r = LinExpr::var(name, k);
    assert forall|n: Seq<char>| #[trigger] r.coeff_of(n) == weight_of(seq![(name@, k as int)], n) by {
        lemma_weights((name@, k as int), (name@, 0), (name@, 0), n);
    }
    r
}

/// The constant 1.
fn unit_cost() -> (r: LinExpr)
    ensures
        expr_sum(r, (1, Seq::empty())),
        small(r),
{
    let r = LinExpr::one();
    assert forall|n: Seq<char>| #[trigger] r.coeff_of(n) == weight_of(Seq::empty(), n) by {
        lemma_weights((n, 0), (n, 0), (n, 0), n);
        assert(!r.terms@.contains_key(seq![n]));
    }
    r
}


/// Three weighted names: `a` and `b` with weight 1, `c` with weight -1.
fn sum3(a: &str, b: &str, c: &str) -> (r: LinExpr)
    ensures
        expr_sum(r, (0, seq![(a@, 1), (b@, 1), (c@, -1)])),
        small(r),
{
    let ab = sum2(a, b, 1);
    let cc = LinExpr::var(c, -1);
    assert(ab.add_fits(cc)) by {
        assert forall|n: Seq<char>| in_i64(#[trigger] ab.coeff_of(n) + cc.coeff_of(n)) by {
            lemma_weights((a@, 1), (b@, 1), (c@, -1), n);
            assert(cc.coeff_of(n) == if n == c@ { -1int } else { 0 });
        }
    }
    let r = ab.add(&cc);
    assert forall|n: Seq<char>| #[trigger] r.coeff_of(n) == weight_of(seq![(a@, 1), (b@, 1), (c@, -1)], n) by {
        lemma_weights((a@, 1), (b@, 1), (c@, -1), n);
        assert(cc.coeff_of(n) == if n == c@ { -1int } else { 0 });
    }
    assert forall|n: Seq<char>| -4 <= #[trigger] r.coeff_of(n) <= 4 by {
        lemma_weights((a@, 1), (b@, 1), (c@, -1), n);
        assert(cc.coeff_of(n) == if n == c@ { -1int } else { 0 });
    }
    r
}

/// The obligation of `push` for `back`'s coefficient `cb`.
fn push_obligation(cb: &String) -> (r: Obligation)
    ensures
        obligation_is(r, push_spec(cb@)),
        r.wf(),
        r.check_fits(),
{
    let b = concat2(cb.as_str(), "*B");
    let r = Obligation {
        name: owned("push"),
        actual: unit_cost(),
        phi_before: sum1(b.as_str(), 1),
        phi_after: sum2(b.as_str(), cb.as_str(), 1),
        amortized: sum1("c_push", 1),
        explanation: owned("generic summary: receiver.push increases len(receiver) by 1"),
    };
    proof {
        lemma_small_checkable(r);
    }
    r
}

/// The obligation of `pop` without a transfer.
fn pop_normal_obligation(cf: &String, cb: &String) -> (r: Obligation)
    ensures
        obligation_is(r, pop_normal_spec(cf@, cb@)),
        r.wf(),
        r.check_fits(),
{
    let f = concat2(cf.as_str(), "*F");
    let b = concat2(cb.as_str(), "*B");
    let r = Obligation {
        name: owned("pop-normal"),
        actual: unit_cost(),
        phi_before: sum2(f.as_str(), b.as_str(), 1),
        phi_after: sum2(f.as_str(), b.as_str(), 1),
        amortized: sum1("c_pop", 1),
        explanation: owned("normal branch: front.pop and potential unchanged"),
    };
    proof {
        lemma_small_checkable(r);
    }
    r
}

/// The variable with this name, as a value.
pub open spec fn var_val(name: Seq<char>) -> Val {
    (0, |n: Seq<char>| if n == name { 1int } else { 0 })
}

/// The lengths before `pop`: `F` for `front`, `B` for `back`.
pub open spec fn initial_lens(front: Seq<Seq<char>>, back: Seq<Seq<char>>) -> Map<Seq<Seq<char>>, Val> {
    Map::empty().insert(front, var_val("F"@)).insert(back, var_val("B"@))
}

proof fn lemma_initial_len(front: Seq<Seq<char>>, back: Seq<Seq<char>>, p: ResourcePath)
    ensures
        len_in(initial_lens(front, back), p).0 == 0,
        forall|n: Seq<char>| #[trigger] at(len_in(initial_lens(front, back), p), n) == if n == len_name(p, front, back) {
            1int
        } else {
            0
        },
{
    let m = initial_lens(front, back);
    if p@ == back {
        assert(m.contains_key(p@) && m[p@] == var_val("B"@));
    } else if p@ == front {
        assert(m.contains_key(p@) && m[p@] == var_val("F"@));
    } else {
        assert(!m.contains_key(p@));
    }
}

/// The state before `pop`: `len(front) = F`, `len(back) = B`.
fn initial_state(front: &ResourcePath, back: &ResourcePath) -> (r: AbstractState)
    ensures
        r.wf(),
        lens_value(r.lens) == initial_lens(front@, back@),
{
    let mut before = AbstractState::default();
    assert(lens_value(before.lens) =~= Map::<Seq<Seq<char>>, Val>::empty());
    let fv = LinExpr::var("F", 1);
    assert(expr_value(fv).1 =~= var_val("F"@).1);
    before.set_len(front.copy(), fv);
    let bv = LinExpr::var("B", 1);
    assert(expr_value(bv).1 =~= var_val("B"@).1);
    before.set_len(back.copy(), bv);
    before
}

/// The obligation of `pop` with the transfer loop summarised by `ls`.
fn pop_transfer_obligation(cf: &String, cb: &String, cost: &LinExpr, explanation: String) -> (r: Obligation)
    requires
        cost.wf(),
        small(*cost),
        -4 <= cost.constant <= 3,
    ensures
        r.name@ == "pop-transfer"@,
        r.actual.wf(),
        r.actual.normalized(),
        r.actual.constant == cost.constant + 1,
        forall|n: Seq<char>| #[trigger] r.actual.coeff_of(n) == cost.coeff_of(n),
        expr_sum(r.phi_before, pop_potential(cf@, cb@)),
        expr_sum(r.phi_after, (0, seq![(cf@ + "*F"@, 1), (cf@ + "*B"@, 1), (cf@, -1)])),
        expr_sum(r.amortized, (0, seq![("c_pop"@, 1)])),
        r.explanation == explanation,
        r.wf(),
        r.check_fits(),
{
    let f = concat2(cf.as_str(), "*F");
    let b = concat2(cb.as_str(), "*B");
    let fb = concat2(cf.as_str(), "*B");
    let one = unit_cost();
    assert(cost.add_fits(one)) by {
        assert forall|n: Seq<char>| in_i64(#[trigger] cost.coeff_of(n) + one.coeff_of(n)) by {
            assert(-4 <= cost.coeff_of(n) <= 4);
            lemma_weights((n, 0), (n, 0), (n, 0), n);
        }
    }
    let actual = cost.add(&one);
    assert forall|n: Seq<char>| -4 <= #[trigger] actual.coeff_of(n) <= 4 by {
        assert(-4 <= cost.coeff_of(n) <= 4);
        lemma_weights((n, 0), (n, 0), (n, 0), n);
    }
    assert forall|n: Seq<char>| #[trigger] actual.coeff_of(n) == cost.coeff_of(n) by {
        lemma_weights((n, 0), (n, 0), (n, 0), n);
    }
    let r = Obligation {
        name: owned("pop-transfer"),
        actual,
        phi_before: sum2(f.as_str(), b.as_str(), 1),
        phi_after: sum3(f.as_str(), fb.as_str(), cf.as_str()),
        amortized: sum1("c_pop", 1),
        explanation,
    };
    proof {
        lemma_small_checkable(r);
    }
    r
}


/// The template holds one coefficient per path, named after it.
pub open spec fn template_for(t: PotentialTemplate, paths: Seq<ResourcePath>) -> bool {
    &&& t.coeffs.wf()
    &&& forall|k: Seq<Seq<char>>| #[trigger] t.coeffs@.contains_key(k)
        <==> exists|i: int| 0 <= i < paths.len() && paths[i]@ == k
    &&& forall|i: int| 0 <= i < paths.len() ==> #[trigger] t.coeffs@[paths[i]@]@ == coeff_name(paths[i])
}

/// The obligations are those described, in order.
pub open spec fn obligations_are(obs: Seq<Obligation>, specs: Seq<ObligationSpec>) -> bool {
    &&& obs.len() == specs.len()
    &&& forall|i: int| 0 <= i < obs.len() ==> #[trigger] obligation_is(obs[i], specs[i])
}

/// The coefficient of the `i`-th resource.
fn coefficient(template: &PotentialTemplate, resources: &Vec<ResourcePath>, i: usize) -> (r: String)
    requires
        template_for(*template, resources@),
        i < resources@.len(),
    ensures
        r@ == view_coeff(resources@[i as int]@),
{
    proof {
        let k = resources@[i as int]@;
        assert(0 <= i < resources@.len() && resources@[i as int]@ == k);
        assert(template.coeffs@.contains_key(k));
        lemma_path_text(resources@[i as int]);
    }
    let v = template.coeffs.get(&resources[i]).unwrap();
    v.clone()
}

/// The amortized obligations of `f` over the template's coefficients.
fn potential_obligations(
    f: &FunctionIr,
    summaries: &SummaryDb,
    resources: &Vec<ResourcePath>,
    template: &PotentialTemplate,
) -> (r: Vec<Obligation>)
    requires
        path_views(resources@) == receivers_upto(f.events@),
        template_for(*template, resources@),
    ensures
        obligations_are(r@, expected_obligations(*f)),
        all_checkable(r@),
{
    let mut out: Vec<Obligation> = Vec::new();
    let ghost ps = receivers_upto(f.events@);
    proof {
        reveal_strlit("push");
        reveal_strlit("pop");
        assert("push"@[1] != "pop"@[1]);
    }
    if text_eq(f.name.as_str(), "push") {
        if let Some(bi) = find_suffix(resources, "back") {
            let cb = coefficient(template, resources, bi);
            let o = push_obligation(&cb);
            out.push(o);
            assert(out@ =~= seq![o]);
        }
    } else if text_eq(f.name.as_str(), "pop") {
        let fi = find_suffix(resources, "front");
        let bi = find_suffix(resources, "back");
        if let (Some(fi), Some(bi)) = (fi, bi) {
            let cf = coefficient(template, resources, fi);
            let cb = coefficient(template, resources, bi);
            let normal = pop_normal_obligation(&cf, &cb);
            out.push(normal);
            let ghost fr = resources@[fi as int]@;
            let ghost bk = resources@[bi as int]@;
            let before = initial_state(&resources[fi], &resources[bi]);
            proof {
                if let Some(d) = drain_pair(f.events@) {
                    lemma_initial_len(fr, bk, d.0);
                    lemma_initial_len(fr, bk, d.1);
                    let a = before.len_value(d.1);
                    let b = before.len_value(d.0);
                    assert forall|n: Seq<char>| #![trigger at(a, n), at(b, n)] in_i64(at(a, n) + at(b, n)) by {
                        assert(at(len_in(initial_lens(fr, bk), d.1), n) == at(a, n));
                    }
                    assert forall|n: Seq<char>| #[trigger] in_i64(at(b, n) * 2) by {
                        assert(at(len_in(initial_lens(fr, bk), d.0), n) == at(b, n));
                    }
                }
            }
            if let Some(ls) = infer_draining_loop("drain-back-to-front", &f.events, summaries, &before) {
                let ghost d = drain_pair(f.events@).unwrap();
                let ghost lv = len_in(initial_lens(fr, bk), d.0);
                proof {
                    lemma_initial_len(fr, bk, d.0);
                    assert(before.len_value(d.0) == lv);
                    assert forall|n: Seq<char>| #[trigger] ls.cost.coeff_of(n) == weight_of(seq![(len_name(d.0, fr, bk), 2)], n) by {
                        assert((expr_value(ls.cost).1)(n) == (val_scale(lv, 2).1)(n));
                        assert(at(lv, n) == if n == len_name(d.0, fr, bk) { 1int } else { 0 });
                        lemma_weights((len_name(d.0, fr, bk), 2), (n, 0), (n, 0), n);
                    }
                    assert forall|n: Seq<char>| -4 <= #[trigger] ls.cost.coeff_of(n) <= 4 by {
                        assert(ls.cost.coeff_of(n) == weight_of(seq![(len_name(d.0, fr, bk), 2)], n));
                        lemma_weights((len_name(d.0, fr, bk), 2), (n, 0), (n, 0), n);
                    }
                    assert(ls.cost.constant == 0);
                }
                let transfer = pop_transfer_obligation(&cf, &cb, &ls.cost, ls.explanation);
                proof {
                    assert forall|n: Seq<char>| #[trigger] transfer.actual.coeff_of(n) == weight_of(seq![(len_name(d.0, fr, bk), 2)], n) by {
                        assert(ls.cost.coeff_of(n) == weight_of(seq![(len_name(d.0, fr, bk), 2)], n));
                    }
                    assert(obligation_is(transfer, pop_transfer_spec(cf@, cb@, d.0, d.1, fr, bk)));
                }
                out.push(transfer);
                assert(out@ =~= seq![normal, transfer]);
            } else {
                assert(out@ =~= seq![normal]);
            }
        }
    }
    proof {
        let e = expected_obligations(*f);
        assert(obligations_are(out@, e));
        assert forall|i: int| 0 <= i < out@.len() implies #[trigger] out@[i].wf() && out@[i].check_fits() by {
        }
    }
    out
}


/// The names of the template's coefficients, in key order.
pub open spec fn template_names(t: PotentialTemplate) -> Seq<Seq<char>> {
    t.coeffs.entries().map_values(|e: (ResourcePath, String)| e.1@)
}

/// How often `n` occurs among the names.
pub open spec fn count_of(names: Seq<Seq<char>>, n: Seq<char>) -> int
    decreases names.len(),
{
    if names.len() == 0 {
        0
    } else {
        count_of(names.drop_last(), n) + if names.last() == n {
            1int
        } else {
            0
        }
    }
}

proof fn lemma_count_bound(names: Seq<Seq<char>>, n: Seq<char>)
    ensures
        0 <= count_of(names, n) <= names.len(),
    decreases names.len(),
{
    if names.len() > 0 {
        lemma_count_bound(names.drop_last(), n);
    }
}

/// A non-negative integer variable for each name, in order.
pub open spec fn int_vars(vars: Seq<VariableDecl>, names: Seq<Seq<char>>) -> bool {
    &&& vars.len() == names.len()
    &&& forall|i: int| 0 <= i < vars.len() ==> {
        &&& #[trigger] vars[i].name@ == names[i]
        &&& vars[i].kind == VarKind::Integer
        &&& vars[i].bound == (Bound { lower: Some(0i64), upper: None })
    }
}

/// `1` for `n == m`, else `0`.
pub open spec fn one_hot(n: Seq<char>, m: Seq<char>) -> int {
    if n == m {
        1
    } else {
        0
    }
}

/// The integer program for a potential: a variable for each template
/// coefficient, then `c_push`, `c_pop` and `c_method`; minimize the sum of
/// the template coefficients and `c_push + c_pop`; the constraints of
/// each obligation in order.
pub open spec fn potential_problem_is(
    p: LinearProblem,
    name: Seq<char>,
    t: PotentialTemplate,
    obligations: Seq<Obligation>,
) -> bool {
    &&& p.name@ == name + "-potential"@
    &&& int_vars(p.vars@, template_names(t) + seq!["c_push"@, "c_pop"@, "c_method"@])
    &&& p.objective.wf()
    &&& p.objective.normalized()
    &&& p.objective.constant == 0
    &&& forall|n: Seq<char>| #[trigger] p.objective.coeff_of(n)
        == count_of(template_names(t), n) + one_hot(n, "c_push"@) + one_hot(n, "c_pop"@)
    &&& p.minimize
    &&& exists|parts: Seq<Seq<LinearConstraint>>| {
        &&& parts.len() == obligations.len()
        &&& p.constraints@ == #[trigger] flatten_parts(parts)
        &&& forall|i: int| 0 <= i < parts.len() ==> #[trigger] obligation_constraints(parts[i], obligations[i])
    }
}

fn add_var(p: &mut LinearProblem, name: &str, Ghost(names): Ghost<Seq<Seq<char>>>)
    requires
        int_vars(old(p).vars@, names),
    ensures
        int_vars(final(p).vars@, names.push(name@)),
        final(p).name == old(p).name,
        final(p).constraints == old(p).constraints,
        final(p).objective == old(p).objective,
        final(p).minimize == old(p).minimize,
{
    p.add_integer_nonnegative_var(name);
    assert forall|i: int| 0 <= i < p.vars@.len() implies {
        &&& #[trigger] p.vars@[i].name@ == names.push(name@)[i]
        &&& p.vars@[i].kind == VarKind::Integer
        &&& p.vars@[i].bound == (Bound { lower: Some(0i64), upper: None })
    } by {
        if i < names.len() {
            assert(p.vars@[i] == p.vars@.drop_last()[i]);
            assert(p.vars@[i] == old(p).vars@[i]);
            assert(old(p).vars@[i].name@ == names[i]);
        } else {
            assert(p.vars@[i] == p.vars@.last());
        }
    }
}

/// Adds `1·name` to an objective whose coefficients stay below `i64::MAX`.
fn bump_objective(obj: &LinExpr, name: &str, Ghost(bound): Ghost<int>) -> (r: LinExpr)
    requires
        obj.wf(),
        forall|n: Seq<char>| 0 <= #[trigger] obj.coeff_of(n) <= bound,
        bound < i64::MAX,
    ensures
        r.wf(),
        r.normalized(),
        r.constant == obj.constant,
        forall|n: Seq<char>| #[trigger] r.coeff_of(n) == obj.coeff_of(n) + one_hot(n, name@),
{
    let v = LinExpr::var(name, 1);
    assert(obj.add_fits(v)) by {
        assert forall|n: Seq<char>| in_i64(#[trigger] obj.coeff_of(n) + v.coeff_of(n)) by {
            assert(0 <= obj.coeff_of(n) <= bound);
        }
    }
    obj.add(&v)
}

/// The integer program whose solution gives the potential of `name`.
fn potential_problem(name: &str, template: &PotentialTemplate, obligations: &Vec<Obligation>) -> (r: LinearProblem)
    requires
        template.coeffs.wf(),
        template.coeffs.entries().len() < i64::MAX - 1,
        all_checkable(obligations@),
    ensures
        potential_problem_is(r, name@, *template, obligations@),
{
    let pname = concat2(name, "-potential");
    let mut problem = LinearProblem::new(pname.as_str());
    let ghost names = template_names(*template);
    let n = template.coeffs.len();
    let mut i: usize = 0;
    while i < n
        invariant
            n == template.coeffs.entries().len(),
            names == template_names(*template),
            i <= n,
            problem.name@ == name@ + "-potential"@,
            problem.constraints@.len() == 0,
            problem.minimize,
            int_vars(problem.vars@, names.take(i as int)),
        decreases n - i,
    {
        let e = template.coeffs.entry(i);
        add_var(&mut problem, e.1.as_str(), Ghost(names.take(i as int)));
        assert(names.take(i as int).push(e.1@) =~= names.take(i + 1));
        i = i + 1;
    }
    assert(names.take(n as int) =~= names);
    proof {
        reveal_strlit("c_push");
        reveal_strlit("c_pop");
        reveal_strlit("c_method");
    }
    add_var(&mut problem, "c_push", Ghost(names));
    add_var(&mut problem, "c_pop", Ghost(names.push("c_push"@)));
    add_var(&mut problem, "c_method", Ghost(names.push("c_push"@).push("c_pop"@)));
    assert(names.push("c_push"@).push("c_pop"@).push("c_method"@) =~= names + seq!["c_push"@, "c_pop"@, "c_method"@]);
    let mut objective = LinExpr::zero();
    let mut j: usize = 0;
    while j < n
        invariant
            n == template.coeffs.entries().len(),
            n < i64::MAX - 1,
            names == template_names(*template),
            j <= n,
            objective.wf(),
            objective.constant == 0,
            forall|m: Seq<char>| #[trigger] objective.coeff_of(m) == count_of(names.take(j as int), m),
        decreases n - j,
    {
        let e = template.coeffs.entry(j);
        proof {
            assert forall|m: Seq<char>| 0 <= #[trigger] objective.coeff_of(m) <= j by {
                lemma_count_bound(names.take(j as int), m);
            }
        }
        let next = bump_objective(&objective, e.1.as_str(), Ghost(j as int));
        proof {
            assert(names.take(j + 1).drop_last() =~= names.take(j as int));
            assert(names.take(j + 1).last() == e.1@);
            assert forall|m: Seq<char>| #[trigger] next.coeff_of(m) == count_of(names.take(j + 1), m) by {
                assert(count_of(names.take(j + 1), m) == count_of(names.take(j as int), m) + one_hot(m, e.1@));
            }
        }
        objective = next;
        j = j + 1;
    }
    assert(names.take(n as int) =~= names);
    proof {
        assert forall|m: Seq<char>| 0 <= #[trigger] objective.coeff_of(m) <= n by {
            lemma_count_bound(names, m);
        }
    }
    let with_push = bump_objective(&objective, "c_push", Ghost(n as int));
    proof {
        assert forall|m: Seq<char>| 0 <= #[trigger] with_push.coeff_of(m) <= n + 1 by {
            lemma_count_bound(names, m);
        }
        assert(n + 1 < i64::MAX);
    }
    problem.objective = bump_objective(&with_push, "c_pop", Ghost(n + 1));
    generate_potential_constraints(&mut problem, obligations.as_slice());
    proof {
        let parts = choose|parts: Seq<Seq<LinearConstraint>>| {
            &&& parts.len() == obligations@.len()
            &&& problem.constraints@ == Seq::<LinearConstraint>::empty() + #[trigger] flatten_parts(parts)
            &&& forall|i: int| 0 <= i < parts.len() ==> #[trigger] obligation_constraints(parts[i], obligations@[i])
        };
        assert(Seq::<LinearConstraint>::empty() + flatten_parts(parts) =~= flatten_parts(parts));
    }
    problem
}


/// The value the solution gives `name`, zero when it gives none.
pub open spec fn value_or_zero(values: KeyMap<String, i64>, name: Seq<char>) -> int {
    if values@.contains_key(seq![name]) {
        values@[seq![name]] as int
    } else {
        0
    }
}

/// `k*len(p)` for the path `p` with coefficient value `k`.
pub open spec fn potential_part(values: KeyMap<String, i64>, v: Seq<Seq<char>>) -> Seq<char> {
    int_text(value_or_zero(values, view_coeff(v))) + "*len("@ + path_text(v) + ")"@
}

/// The inferred potential: one part per resource, joined by ` + `.
pub open spec fn potential_text(values: KeyMap<String, i64>, ps: Seq<Seq<Seq<char>>>) -> Seq<char> {
    join_spec(ps.map_values(|v: Seq<Seq<char>>| potential_part(values, v)), " + "@)
}

/// Every obligation holds under the values.
pub open spec fn all_hold(obligations: Seq<Obligation>, values: KeyMap<String, i64>) -> bool {
    forall|i: int| 0 <= i < obligations.len() ==> #[trigger] obligations[i].holds_under(values)
}

/// `Proven` when every obligation holds, lowered by the policy's status.
pub open spec fn solution_status(all: bool, policy_status: Status) -> Status {
    if policy_status == Status::Undefined || !all {
        Status::Undefined
    } else if policy_status == Status::Partial {
        Status::Partial
    } else {
        Status::Proven
    }
}

/// Error diagnostics with these messages.
pub open spec fn error_texts(msgs: Seq<Seq<char>>) -> Seq<DiagText> {
    msgs.map_values(|m: Seq<char>| ("error"@, m))
}

/// The report for the solver's answer `result`: on an error, the error
/// alone; on a solution that can be substituted within `i64`, the
/// potential it gives, each obligation checked under it, and an error for
/// each that fails, with the bound `O(1)`, or `O(?)` where the status is
/// undefined; otherwise an out-of-range error.
pub open spec fn solution_report(
    r: MethodReport,
    method: Seq<char>,
    ps: Seq<Seq<Seq<char>>>,
    obligations: Seq<Obligation>,
    policy_status: Status,
    diags: Seq<DiagText>,
    result: Result<IlpSolution, SolverError>,
) -> bool {
    match result {
        Err(e) => report_is(
            r,
            method,
            (Status::Undefined, "O(?)"@, None, seq![("error"@, "solver failed: "@ + e.text())], Seq::empty()),
        ),
        Ok(sol) => if sol.values.wf() && all_candidate_fits(obligations, sol.values) {
            &&& r.method@ == method
            &&& r.status == solution_status(all_hold(obligations, sol.values), policy_status)
            &&& r.amortized_bound@ == (if r.status == Status::Undefined { "O(?)"@ } else { "O(1)"@ })
            &&& r.potential matches Some(p) && p@ == potential_text(sol.values, ps)
            &&& r.obligations@.len() == obligations.len()
            &&& forall|i: int| 0 <= i < obligations.len() ==> #[trigger] verified_as(r.obligations@[i], obligations[i], sol.values)
            &&& diag_texts(r.diagnostics@) == diags + error_texts(failure_texts(r.obligations@))
            &&& texts(r.assumptions@) == seq!["potential inferred by integer LP; exact verification performed"@]
        } else {
            report_is(
                r,
                method,
                (Status::Undefined, "O(?)"@, None, seq![("error"@, "solver solution out of range"@)], Seq::empty()),
            )
        },
    }
}

fn error_report(f: &FunctionIr, msg: String) -> (r: MethodReport)
    ensures
        report_is(r, f.full_name_text(), (Status::Undefined, "O(?)"@, None, seq![("error"@, msg@)], Seq::empty())),
{
    let mut diagnostics: Vec<Diagnostic> = Vec::new();
    diagnostics.push(Diagnostic::error(msg));
    proof {
        reveal_strlit("O(?)");
    }
    let r = scalar_report(f, Status::Undefined, "O(?)", None, diagnostics, Vec::new());
    assert(diag_texts(r.diagnostics@) =~= seq![("error"@, msg@)]);
    assert(texts(r.assumptions@) =~= Seq::<Seq<char>>::empty());
    r
}

/// The potential `k1*len(p1) + k2*len(p2) + ...` the values give the resources.
fn potential_string(resources: &Vec<ResourcePath>, template: &PotentialTemplate, values: &KeyMap<String, i64>) -> (r: String)
    requires
        template_for(*template, resources@),
        values.wf(),
    ensures
        r@ == potential_text(*values, path_views(resources@)),
{
    let ghost ps = path_views(resources@);
    let ghost want = ps.map_values(|v: Seq<Seq<char>>| potential_part(*values, v));
    let mut parts: Vec<String> = Vec::new();
    let mut i: usize = 0;
    while i < resources.len()
        invariant
            i <= resources@.len(),
            template_for(*template, resources@),
            values.wf(),
            ps == path_views(resources@),
            want == ps.map_values(|v: Seq<Seq<char>>| potential_part(*values, v)),
            texts(parts@) == want.take(i as int),
        decreases resources@.len() - i,
    {
        let name = coefficient(template, resources, i);
        let k: i64 = match values.get(&name) {
            Some(x) => *x,
            None => 0,
        };
        let p = resources[i].to_string();
        let mut part = i64_text(k);
        push_text(&mut part, "*len(");
        push_text(&mut part, p.as_str());
        push_text(&mut part, ")");
        proof {
            lemma_path_text(resources@[i as int]);
            assert(ps[i as int] == resources@[i as int]@);
            assert(part@ == want[i as int]);
        }
        let ghost before = parts@;
        parts.push(part);
        assert(texts(parts@) =~= want.take(i + 1)) by {
            assert(texts(parts@) =~= texts(before).push(part@));
            assert(want.take(i + 1) =~= want.take(i as int).push(want[i as int]));
        }
        i = i + 1;
    }
    assert(want.take(resources@.len() as int) =~= want);
    join(&parts, " + ")
}

#[verifier::spinoff_prover]
proof fn lemma_diag_texts_append(a: Seq<Diagnostic>, b: Seq<Diagnostic>, msgs: Seq<Seq<char>>)
    requires
        errors_with(b, msgs),
    ensures
        diag_texts(a + b) == diag_texts(a) + error_texts(msgs),
{
    let l = diag_texts(a + b);
    let r = diag_texts(a) + error_texts(msgs);
    assert forall|k: int| 0 <= k < l.len() implies #[trigger] l[k] == r[k] by {
        if k >= a.len() {
            let j = k - a.len();
            assert(l.len() == a.len() + b.len());
            assert(0 <= j < b.len());
            assert((a + b)[k] == b[j]);
            assert(b[j].level@ == "error"@ && b[j].message@ == msgs[j]);
        } else {
            assert((a + b)[k] == a[k]);
        }
    }
    assert(l =~= r);
}

/// The report for the solver's answer on the integer program of `f`.
pub fn report_from_solution(
    f: &FunctionIr,
    resources: &Vec<ResourcePath>,
    template: &PotentialTemplate,
    obligations: &Vec<Obligation>,
    policy_status: Status,
    diagnostics: Vec<Diagnostic>,
    result: Result<IlpSolution, SolverError>,
) -> (r: MethodReport)
    requires
        template_for(*template, resources@),
        forall|i: int| 0 <= i < obligations@.len() ==> #[trigger] obligations@[i].wf(),
    ensures
        solution_report(
            r,
            f.full_name_text(),
            path_views(resources@),
            obligations@,
            policy_status,
            diag_texts(diagnostics@),
            result,
        ),
{
    let mut diagnostics = diagnostics;
    match result {
        Err(e) => {
            let et = e.to_string();
            error_report(f, concat2("solver failed: ", et.as_str()))
        },
        Ok(sol) => {
            if !sol.values.is_sorted() {
                return error_report(f, owned("solver solution out of range"));
            }
            let verified = match verify_candidate_checked(obligations.as_slice(), &sol.values) {
                Some(v) => v,
                None => {
                    return error_report(f, owned("solver solution out of range"));
                },
            };
            let mut all = true;
            let mut i: usize = 0;
            while i < verified.len()
                invariant
                    i <= verified@.len(),
                    verified@.len() == obligations@.len(),
                    forall|j: int| 0 <= j < verified@.len() ==> #[trigger] verified_as(verified@[j], obligations@[j], sol.values),
                    all == forall|j: int| 0 <= j < i ==> #[trigger] obligations@[j].holds_under(sol.values),
                decreases verified@.len() - i,
            {
                assert(verified_as(verified@[i as int], obligations@[i as int], sol.values));
                if !verified[i].check.proven {
                    all = false;
                }
                i = i + 1;
            }
            let status = if policy_status == Status::Undefined || !all {
                Status::Undefined
            } else if policy_status == Status::Partial {
                Status::Partial
            } else {
                Status::Proven
            };
            let mut failed = diagnostics_for_failed_obligations(verified.as_slice());
            let ghost before = diagnostics@;
            let ghost failed_before = failed@;
            diagnostics.append(&mut failed);
            proof {
                lemma_diag_texts_append(before, failed_before, failure_texts(verified@));
            }
            let potential = potential_string(resources, template, &sol.values);
            let mut assumptions: Vec<String> = Vec::new();
            assumptions.push(owned("potential inferred by integer LP; exact verification performed"));
            assert(texts(assumptions@) =~= seq!["potential inferred by integer LP; exact verification performed"@]);
            let bound = if status == Status::Undefined {
                owned("O(?)")
            } else {
                owned("O(1)")
            };
            MethodReport {
                method: f.full_name(),
                status,
                amortized_bound: bound,
                potential: Some(potential),
                obligations: verified,
                diagnostics,
                assumptions,
            }
        },
    }
}


/// The report of `f` under the policy: the scalar analysis when no call
/// has a resource receiver; a partial result with a warning when no
/// obligation applies; otherwise the report for some answer of the solver
/// on the obligations of `f`.
pub open spec fn function_report(r: MethodReport, f: FunctionIr, policy: SoundnessPolicy) -> bool {
    let (ps, pd) = policy_trace(policy, f.events@);
    let recv = receivers_upto(f.events@);
    let specs = expected_obligations(f);
    if specs.len() == 0 {
        if recv.len() == 0 {
            report_is(r, f.full_name_text(), scalar_outcome(f, ps, pd))
        } else {
            report_is(
                r,
                f.full_name_text(),
                (
                    if ps == Status::Undefined {
                        Status::Undefined
                    } else {
                        Status::Partial
                    },
                    "O(?)"@,
                    None,
                    pd.push(warn_text("no generic transition proof found; reporting partial/undefined"@)),
                    Seq::empty(),
                ),
            )
        }
    } else {
        exists|obligations: Seq<Obligation>, result: Result<IlpSolution, SolverError>|
            obligations_are(obligations, specs) && #[trigger] solution_report(
                r,
                f.full_name_text(),
                recv,
                obligations,
                ps,
                pd,
                result,
            )
    }
}

/// `problem` is what the analysis hands the solver for `f` and these
/// obligations: the potential problem over a template whose coefficients
/// are those of the receivers of `f`.
pub open spec fn posed_problem(problem: LinearProblem, f: FunctionIr, obligations: Seq<Obligation>) -> bool {
    exists|paths: Seq<ResourcePath>, t: PotentialTemplate|
        #![trigger template_for(t, paths), path_views(paths)]
        path_views(paths) == receivers_upto(f.events@) && template_for(t, paths) && potential_problem_is(
            problem,
            f.full_name_text(),
            t,
            obligations,
        )
}

/// Where `f` has obligations, its report is the one for an answer that
/// `solver` gives to the problem posed for them.
pub open spec fn solver_report<S: IntegerLinearSolver>(
    r: MethodReport,
    f: FunctionIr,
    policy: SoundnessPolicy,
    solver: S,
) -> bool {
    expected_obligations(f).len() != 0 ==> exists|
        obligations: Seq<Obligation>,
        problem: LinearProblem,
        result: Result<IlpSolution, SolverError>,
    |
        #![trigger posed_problem(problem, f, obligations), solver.answers(problem, result)]
        obligations_are(obligations, expected_obligations(f)) && posed_problem(problem, f, obligations)
            && solver.answers(problem, result) && solution_report(
            r,
            f.full_name_text(),
            receivers_upto(f.events@),
            obligations,
            policy_trace(policy, f.events@).0,
            policy_trace(policy, f.events@).1,
            result,
        )
}

/// Analyzes one function: the policy's verdict on its events, then either
/// the amortized obligations of its resources, solved for a potential by
/// `solver` and checked exactly, or the scalar analysis of its control flow.
pub fn analyze_function<S: IntegerLinearSolver>(
    f: &FunctionIr,
    summaries: &SummaryDb,
    solver: &S,
    opts: &AnalysisOptions,
) -> (r: MethodReport)
    requires
        f.events@.len() < i64::MAX - 1,
    ensures
        function_report(r, *f, opts.policy),
        solver_report(r, *f, opts.policy, *solver),
{
    let (policy_status, diagnostics) = opts.policy.inspect_events(f.events.as_slice());
    let resources = collect_resource_paths(f);
    let template = PotentialTemplate::from_paths(resources.as_slice());
    let obligations = potential_obligations(f, summaries, &resources, &template);
    if obligations.len() == 0 {
        if resources.len() == 0 {
            return analyze_scalar_control_flow(f, true, policy_status, diagnostics).unwrap();
        }
        let mut diagnostics = diagnostics;
        push_warn(&mut diagnostics, owned("no generic transition proof found; reporting partial/undefined"));
        let status = if policy_status == Status::Undefined {
            Status::Undefined
        } else {
            Status::Partial
        };
        proof {
            reveal_strlit("O(?)");
        }
        let r = scalar_report(f, status, "O(?)", None, diagnostics, Vec::new());
        assert(texts(r.assumptions@) =~= Seq::<Seq<char>>::empty());
        return r;
    }
    let name = f.full_name();
    let problem = potential_problem(name.as_str(), &template, &obligations);
    let result = solver.solve(&problem);
    let ghost res = result;
    proof {
        assert forall|i: int| 0 <= i < obligations@.len() implies #[trigger] obligations@[i].wf() by {
            assert(obligations@[i].wf() && obligations@[i].check_fits());
        }
    }
    let r = report_from_solution(f, &resources, &template, &obligations, policy_status, diagnostics, result);
    assert(obligations_are(obligations@, expected_obligations(*f)) && solution_report(
        r,
        f.full_name_text(),
        receivers_upto(f.events@),
        obligations@,
        policy_status,
        policy_trace(opts.policy, f.events@).1,
        res,
    ));
    assert(template_for(template, resources@) && path_views(resources@) == receivers_upto(f.events@));
    assert(posed_problem(problem, *f, obligations@));
    assert(solver.answers(problem, res));
    r
}


/// The class a pass-one bound such as `O(n log n)`, `O(n^3)` or `O(arg2)`
/// stands for: a name that is not a known class counts as linear, `O(?)`
/// and texts not of the form `O(..)` give none.
pub open spec fn bound_class_spec(s: Seq<char>) -> Option<BoundClass> {
    if !(is_prefix("O("@, s) && is_suffix(")"@, s)) {
        None
    } else {
        let inner = trim_spec(s.subrange(2, s.len() - 1));
        if inner == "1"@ {
            Some(BoundClass::Constant)
        } else if inner == "log n"@ || inner == "log(n)"@ {
            Some(BoundClass::Logarithmic)
        } else if inner == "n log n"@ {
            Some(BoundClass::NLogN)
        } else if is_prefix("n^"@, inner) && parse_int_spec(inner.skip(2), false, 0, u32::MAX as int) is Some {
            let k = parse_int_spec(inner.skip(2), false, 0, u32::MAX as int).unwrap();
            if k >= 2 {
                Some(BoundClass::Polynomial(k as u32))
            } else if k == 1 {
                Some(BoundClass::Linear)
            } else {
                Some(BoundClass::Constant)
            }
        } else if inner == "?"@ {
            None
        } else {
            Some(BoundClass::Linear)
        }
    }
}

/// Reads a bound such as `O(n log n)` back as a class.
fn parse_bound_class(s: &str) -> (r: Option<BoundClass>)
    ensures
        r == bound_class_spec(s@),
{
    proof {
        reveal_strlit("O(");
        reveal_strlit(")");
        reveal_strlit("1");
        reveal_strlit("log n");
        reveal_strlit("log(n)");
        reveal_strlit("n log n");
        reveal_strlit("n^");
        reveal_strlit("?");
    }
    if !starts_with(s, "O(") || !ends_with(s, ")") {
        return None;
    }
    let n = char_len(s);
    proof {
        if n == 2 {
            assert(s@.take(2)[1] == s@[1]);
            assert(s@.skip(1)[0] == s@[1]);
        }
    }
    let inner = trim(s.substring_char(2, n - 1));
    if text_eq(inner.as_str(), "1") {
        return Some(BoundClass::Constant);
    }
    if text_eq(inner.as_str(), "log n") || text_eq(inner.as_str(), "log(n)") {
        return Some(BoundClass::Logarithmic);
    }
    if text_eq(inner.as_str(), "n log n") {
        return Some(BoundClass::NLogN);
    }
    if let Some(rest) = strip_prefix(inner.as_str(), "n^") {
        if let Some(k) = parse_unsigned(rest.as_str(), 4294967295u64) {
            return if k >= 2 {
                Some(BoundClass::Polynomial(k as u32))
            } else if k == 1 {
                Some(BoundClass::Linear)
            } else {
                Some(BoundClass::Constant)
            };
        }
    }
    if text_eq(inner.as_str(), "?") {
        return None;
    }
    Some(BoundClass::Linear)
}

/// The order of the classes as declared, polynomials then by exponent.
pub open spec fn class_index(b: BoundClass) -> int {
    match b {
        BoundClass::Constant => 0,
        BoundClass::Logarithmic => 1,
        BoundClass::Linear => 2,
        BoundClass::NLogN => 3,
        BoundClass::Polynomial(_) => 4,
    }
}

/// `a` comes after `b` in that order.
pub open spec fn class_gt(a: BoundClass, b: BoundClass) -> bool {
    match (a, b) {
        (BoundClass::Polynomial(x), BoundClass::Polynomial(y)) => x > y,
        _ => class_index(a) > class_index(b),
    }
}

fn class_greater(a: BoundClass, b: BoundClass) -> (r: bool)
    ensures
        r == class_gt(a, b),
{
    match (a, b) {
        (BoundClass::Polynomial(x), BoundClass::Polynomial(y)) => x > y,
        _ => {
            let ia: u8 = match a {
                BoundClass::Constant => 0,
                BoundClass::Logarithmic => 1,
                BoundClass::Linear => 2,
                BoundClass::NLogN => 3,
                BoundClass::Polynomial(_) => 4,
            };
            let ib: u8 = match b {
                BoundClass::Constant => 0,
                BoundClass::Logarithmic => 1,
                BoundClass::Linear => 2,
                BoundClass::NLogN => 3,
                BoundClass::Polynomial(_) => 4,
            };
            ia > ib
        },
    }
}

/// A report about the method `m`, by its full name or as `Owner::m`.
pub open spec fn report_for(r: MethodReport, m: Seq<char>) -> bool {
    r.method@ == m || is_suffix("::"@ + m, r.method@)
}

/// The position of the first report about `m` from position `i` on.
pub open spec fn first_report_from(reports: Seq<MethodReport>, m: Seq<char>, i: int) -> Option<int>
    decreases reports.len() - i,
{
    if i < 0 || i >= reports.len() {
        None
    } else if report_for(reports[i], m) {
        Some(i)
    } else {
        first_report_from(reports, m, i + 1)
    }
}

/// The largest class among proven callees so far, and the callee and
/// bound that gave it.
pub type CalleeState = (BoundClass, Option<(Seq<char>, Seq<char>)>);

pub open spec fn callee_step(st: CalleeState, ev: Event, fname: Seq<char>, reports: Seq<MethodReport>) -> CalleeState {
    match ev {
        Event::Call(c) => if c.method@ == fname {
            st
        } else {
            match first_report_from(reports, c.method@, 0) {
                Some(j) => if reports[j].status == Status::Proven {
                    match bound_class_spec(reports[j].amortized_bound@) {
                        Some(class) => if class_gt(class, st.0) {
                            (class, Some((c.method@, reports[j].amortized_bound@)))
                        } else {
                            st
                        },
                        None => st,
                    }
                } else {
                    st
                },
                None => st,
            }
        },
        _ => st,
    }
}

/// The non-recursive cost of a function: the largest proven bound among the
/// other methods it calls, constant when there is none.
pub open spec fn callee_fold(events: Seq<Event>, fname: Seq<char>, reports: Seq<MethodReport>) -> CalleeState
    decreases events.len(),
{
    if events.len() == 0 {
        (BoundClass::Constant, None)
    } else {
        callee_step(callee_fold(events.drop_last(), fname, reports), events.last(), fname, reports)
    }
}

/// How many calls of a method named `name` the events hold.
pub open spec fn self_call_count(events: Seq<Event>, name: Seq<char>) -> nat
    decreases events.len(),
{
    if events.len() == 0 {
        0
    } else {
        self_call_count(events.drop_last(), name) + if is_call_of(events.last(), name) {
            1nat
        } else {
            0
        }
    }
}

/// The recurrence of a self-recursive function: one branch per recursive
/// call (counted modulo `2^32`), halving with two or more branches and
/// decrementing with one, over the non-recursive cost.
pub open spec fn extracted_recurrence(f: FunctionIr, reports: Seq<MethodReport>) -> Recurrence {
    let branches = self_call_count(f.events@, f.name@) % 4294967296;
    Recurrence {
        branches: branches as u32,
        shape: if branches >= 2 {
            BranchShape::Divide(2)
        } else {
            BranchShape::Decrement(1)
        },
        non_recursive_cost: callee_fold(f.events@, f.name@, reports).0,
    }
}

/// The report a solved recurrence gives a self-recursive function, or none
/// when it has no recursive call or the recurrence has no solution.
pub open spec fn recurrence_outcome(f: FunctionIr, reports: Seq<MethodReport>) -> Option<ReportText> {
    let rec = extracted_recurrence(f, reports);
    let witness = callee_fold(f.events@, f.name@, reports).1;
    if rec.branches == 0 || solve_overflows(rec) {
        None
    } else {
        match solve_spec(rec) {
            Err(_) => None,
            Ok(sol) => {
                let split = rec.branches >= 2;
                let assumptions = seq!["extracted recurrence "@ + rec.equation_text() + " (solved by "@ + sol.rule.text() + ")"@]
                    + (if split {
                    seq!["subproblems assumed balanced (split sizes treated as n/2); not verified by dataflow"@]
                } else {
                    Seq::empty()
                }) + match witness {
                    Some(w) => seq!["non-recursive cost f(n) inferred from `"@ + w.0 + "` ("@ + w.1 + ")"@],
                    None => Seq::empty(),
                };
                let diags = (if split {
                    seq![warn_text("split sizes are not verified; an adversarial split shape may give a worse worst case"@)]
                } else {
                    Seq::empty()
                }) + match sol.rule {
                    SolveRule::MasterCase1 { .. } | SolveRule::MasterCase3 { .. } => seq![
                        ("info"@, "Master theorem fired with non-tight case; bound "@ + bound_text(sol.bound) + " reflects dominant term"@),
                    ],
                    _ => Seq::empty(),
                };
                Some((Status::Partial, bound_text(sol.bound), None, diags, assumptions))
            },
        }
    }
}


fn find_report(reports: &Vec<MethodReport>, m: &str) -> (r: Option<usize>)
    ensures
        match r {
            Some(j) => first_report_from(reports@, m@, 0) == Some(j as int) && j < reports@.len(),
            None => first_report_from(reports@, m@, 0) is None,
        },
{
    let suffix = concat2("::", m);
    proof {
        reveal_strlit("::");
    }
    let mut i: usize = 0;
    while i < reports.len()
        invariant
            i <= reports@.len(),
            suffix@ == "::"@ + m@,
            first_report_from(reports@, m@, 0) == first_report_from(reports@, m@, i as int),
        decreases reports@.len() - i,
    {
        let r = &reports[i];
        if text_eq(r.method.as_str(), m) || ends_with(r.method.as_str(), suffix.as_str()) {
            return Some(i);
        }
        i = i + 1;
    }
    None
}

/// The view of a callee witness.
pub open spec fn witness_view(w: Option<(String, String)>) -> Option<(Seq<char>, Seq<char>)> {
    match w {
        Some(p) => Some((p.0@, p.1@)),
        None => None,
    }
}

/// Re-analyzes a self-recursive function by extracting its cost recurrence
/// and solving it; `None` when there is no recursive call or no solution.
fn try_solve_recurrence(f: &FunctionIr, reports: &Vec<MethodReport>) -> (r: Option<MethodReport>)
    ensures
        match (r, recurrence_outcome(*f, reports@)) {
            (Some(m), Some(t)) => report_is(m, f.full_name_text(), t),
            (None, None) => true,
            _ => false,
        },
{
    let mut count: u64 = 0;
    let mut i: usize = 0;
    while i < f.events.len()
        invariant
            i <= f.events@.len(),
            count == self_call_count(f.events@.take(i as int), f.name@),
            count <= i,
        decreases f.events@.len() - i,
    {
        assert(f.events@.take(i + 1).drop_last() =~= f.events@.take(i as int));
        let is_self = match &f.events[i] {
            Event::Call(c) => text_eq(c.method.as_str(), f.name.as_str()),
            _ => false,
        };
        if is_self {
            count = count + 1;
        }
        i = i + 1;
    }
    assert(f.events@.take(f.events@.len() as int) =~= f.events@);
    let branches = (count % 4294967296) as u32;
    if branches == 0 {
        return None;
    }
    let mut callee_bound = BoundClass::Constant;
    let mut witness: Option<(String, String)> = None;
    let mut i: usize = 0;
    while i < f.events.len()
        invariant
            i <= f.events@.len(),
            (callee_bound, witness_view(witness)) == callee_fold(f.events@.take(i as int), f.name@, reports@),
        decreases f.events@.len() - i,
    {
        assert(f.events@.take(i + 1).drop_last() =~= f.events@.take(i as int));
        if let Event::Call(c) = &f.events[i] {
            if !text_eq(c.method.as_str(), f.name.as_str()) {
                if let Some(j) = find_report(reports, c.method.as_str()) {
                    let report = &reports[j];
                    if report.status == Status::Proven {
                        if let Some(class) = parse_bound_class(report.amortized_bound.as_str()) {
                            if class_greater(class, callee_bound) {
                                callee_bound = class;
                                witness = Some((c.method.clone(), report.amortized_bound.clone()));
                            }
                        }
                    }
                }
            }
        }
        i = i + 1;
    }
    assert(f.events@.take(f.events@.len() as int) =~= f.events@);
    let shape = if branches >= 2 {
        BranchShape::Divide(2)
    } else {
        BranchShape::Decrement(1)
    };
    let recurrence = Recurrence { branches, shape, non_recursive_cost: callee_bound };
    assert(recurrence == extracted_recurrence(*f, reports@));
    if branches == 1 && callee_bound == BoundClass::Polynomial(4294967295u32) {
        return None;
    }
    let solution = match recurrence.solve() {
        Ok(sol) => sol,
        Err(_) => return None,
    };
    let mut first = owned("extracted recurrence ");
    push_text(&mut first, recurrence.equation().as_str());
    push_text(&mut first, " (solved by ");
    push_text(&mut first, solution.rule.to_string().as_str());
    push_text(&mut first, ")");
    let mut assumptions: Vec<String> = Vec::new();
    assumptions.push(first);
    let mut diagnostics: Vec<Diagnostic> = Vec::new();
    let ghost a0 = texts(assumptions@);
    if branches >= 2 {
        assumptions.push(owned("subproblems assumed balanced (split sizes treated as n/2); not verified by dataflow"));
        push_warn(&mut diagnostics, owned("split sizes are not verified; an adversarial split shape may give a worse worst case"));
    }
    let ghost a1 = texts(assumptions@);
    let ghost d1 = diag_texts(diagnostics@);
    if let Some((callee, bound)) = witness {
        let mut w = owned("non-recursive cost f(n) inferred from `");
        push_text(&mut w, callee.as_str());
        push_text(&mut w, "` (");
        push_text(&mut w, bound.as_str());
        push_text(&mut w, ")");
        assumptions.push(w);
    }
    let non_tight = match solution.rule {
        SolveRule::MasterCase1 { .. } | SolveRule::MasterCase3 { .. } => true,
        _ => false,
    };
    if non_tight {
        let mut msg = owned("Master theorem fired with non-tight case; bound ");
        push_text(&mut msg, solution.bound.to_string().as_str());
        push_text(&mut msg, " reflects dominant term");
        let d = Diagnostic::info(msg);
        let ghost before = diagnostics@;
        diagnostics.push(d);
        assert(diag_texts(diagnostics@) =~= diag_texts(before).push(("info"@, d.message@)));
    }
    assert(d1 =~= if branches >= 2 {
        seq![warn_text("split sizes are not verified; an adversarial split shape may give a worse worst case"@)]
    } else {
        Seq::<DiagText>::empty()
    });
    let ghost t = recurrence_outcome(*f, reports@).unwrap();
    assert(texts(assumptions@) =~= t.4);
    assert(diag_texts(diagnostics@) =~= t.3);
    Some(MethodReport {
        method: f.full_name(),
        status: Status::Partial,
        amortized_bound: solution.bound.to_string(),
        potential: None,
        obligations: Vec::new(),
        diagnostics,
        assumptions,
    })
}


/// Two lists of reports agree where the recurrence extraction reads them:
/// methods, statuses, and the bounds of proven reports.
pub open spec fn same_proven(a: Seq<MethodReport>, b: Seq<MethodReport>) -> bool {
    &&& a.len() == b.len()
    &&& forall|i: int| 0 <= i < a.len() ==> #[trigger] agrees(a[i], b[i])
}

pub open spec fn agrees(x: MethodReport, y: MethodReport) -> bool {
    &&& x.method@ == y.method@
    &&& x.status == y.status
    &&& (x.status == Status::Proven ==> x.amortized_bound@ == y.amortized_bound@)
}

proof fn lemma_first_report_same(a: Seq<MethodReport>, b: Seq<MethodReport>, m: Seq<char>, i: int)
    requires
        same_proven(a, b),
    ensures
        first_report_from(a, m, i) == first_report_from(b, m, i),
    decreases a.len() - i,
{
    if 0 <= i < a.len() {
        assert(agrees(a[i], b[i]));
        lemma_first_report_same(a, b, m, i + 1);
    }
}

proof fn lemma_callee_fold_same(events: Seq<Event>, fname: Seq<char>, a: Seq<MethodReport>, b: Seq<MethodReport>)
    requires
        same_proven(a, b),
    ensures
        callee_fold(events, fname, a) == callee_fold(events, fname, b),
    decreases events.len(),
{
    if events.len() > 0 {
        lemma_callee_fold_same(events.drop_last(), fname, a, b);
        if let Event::Call(c) = events.last() {
            lemma_first_report_same(a, b, c.method@, 0);
            if let Some(j) = first_report_from(a, c.method@, 0) {
                lemma_first_index_in_range(a, c.method@, 0);
                assert(agrees(a[j], b[j]));
            }
        }
    }
}

proof fn lemma_first_index_in_range(a: Seq<MethodReport>, m: Seq<char>, i: int)
    ensures
        first_report_from(a, m, i) matches Some(j) ==> 0 <= j < a.len(),
    decreases a.len() - i,
{
    if 0 <= i < a.len() {
        lemma_first_index_in_range(a, m, i + 1);
    }
}

/// The first pass: each function analyzed on its own.
pub open spec fn first_pass(pass1: Seq<MethodReport>, functions: Seq<FunctionIr>, policy: SoundnessPolicy) -> bool {
    &&& pass1.len() == functions.len()
    &&& forall|i: int| 0 <= i < pass1.len() ==> #[trigger] function_report(pass1[i], functions[i], policy)
}

/// The second pass: a partial result of a self-recursive function is
/// replaced by the solution of its recurrence, read against the first pass.
pub open spec fn program_entry(r: MethodReport, first: MethodReport, f: FunctionIr, pass1: Seq<MethodReport>) -> bool {
    if first.status == Status::Partial && recurrence_outcome(f, pass1) is Some {
        report_is(r, f.full_name_text(), recurrence_outcome(f, pass1).unwrap())
    } else {
        r == first
    }
}

pub open spec fn second_pass(methods: Seq<MethodReport>, pass1: Seq<MethodReport>, functions: Seq<FunctionIr>) -> bool {
    &&& methods.len() == pass1.len()
    &&& forall|i: int| 0 <= i < methods.len() ==> #[trigger] program_entry(methods[i], pass1[i], functions[i], pass1)
}

proof fn lemma_report_method(r: MethodReport, f: FunctionIr, policy: SoundnessPolicy)
    requires
        function_report(r, f, policy),
    ensures
        r.method@ == f.full_name_text(),
{
    if expected_obligations(f).len() != 0 {
        let (obligations, result) = choose|obligations: Seq<Obligation>, result: Result<IlpSolution, SolverError>|
            obligations_are(obligations, expected_obligations(f)) && #[trigger] solution_report(
                r,
                f.full_name_text(),
                receivers_upto(f.events@),
                obligations,
                policy_trace(policy, f.events@).0,
                policy_trace(policy, f.events@).1,
                result,
            );
    }
}

/// Analyzes every function of the program with the summaries that the
/// options' mode admits, then re-analyzes partial self-recursive functions
/// by solving their cost recurrences.
pub fn analyze_program<S: IntegerLinearSolver>(
    file: &str,
    program: &ProgramIr,
    summaries: &SummaryDb,
    solver: &S,
    opts: &AnalysisOptions,
) -> (r: AnalysisReport)
    requires
        forall|i: int| 0 <= i < program.functions@.len() ==> #[trigger] program.functions@[i].events@.len() < i64::MAX - 1,
    ensures
        r.file@ == file@,
        exists|pass1: Seq<MethodReport>| #[trigger] first_pass(pass1, program.functions@, opts.policy)
            && second_pass(r.methods@, pass1, program.functions@) && forall|i: int| 0 <= i < pass1.len()
            ==> #[trigger] solver_report(pass1[i], program.functions@[i], opts.policy, *solver),
{
    let summaries = summaries.filter_by_mode(opts.summary_mode);
    let mut interproc = InterprocSummaryDb::default();
    let mut reports: Vec<MethodReport> = Vec::new();
    let n = program.functions.len();
    let mut i: usize = 0;
    while i < n
        invariant
            n == program.functions@.len(),
            i <= n,
            interproc.summaries.wf(),
            forall|j: int| 0 <= j < n ==> #[trigger] program.functions@[j].events@.len() < i64::MAX - 1,
            reports@.len() == i,
            forall|j: int| 0 <= j < i ==> #[trigger] function_report(reports@[j], program.functions@[j], opts.policy),
            forall|j: int| 0 <= j < i ==> #[trigger] solver_report(reports@[j], program.functions@[j], opts.policy, *solver),
        decreases n - i,
    {
        let f = &program.functions[i];
        let rep = analyze_function(f, &summaries, solver, opts);
        if rep.status == Status::Proven {
            interproc.insert(FunctionSummary {
                function: f.full_name(),
                amortized_cost: LinExpr::one(),
                potential_delta: LinExpr::zero(),
                status: owned("proven"),
            });
        }
        reports.push(rep);
        i = i + 1;
    }
    let ghost pass1 = reports@;
    proof {
        assert forall|j: int| 0 <= j < pass1.len() implies #[trigger] pass1[j].method@ == program.functions@[j].full_name_text() by {
            lemma_report_method(pass1[j], program.functions@[j], opts.policy);
        }
    }
    let mut i: usize = 0;
    while i < n
        invariant
            n == program.functions@.len(),
            i <= n,
            pass1.len() == n,
            reports@.len() == n,
            forall|j: int| 0 <= j < n ==> #[trigger] pass1[j].method@ == program.functions@[j].full_name_text(),
            same_proven(reports@, pass1),
            forall|j: int| 0 <= j < i ==> #[trigger] program_entry(reports@[j], pass1[j], program.functions@[j], pass1),
            forall|j: int| i <= j < n ==> #[trigger] reports@[j] == pass1[j],
        decreases n - i,
    {
        if reports[i].status == Status::Partial {
            let f = &program.functions[i];
            proof {
                lemma_callee_fold_same(f.events@, f.name@, reports@, pass1);
            }
            if let Some(upgraded) = try_solve_recurrence(f, &reports) {
                let ghost before = reports@;
                reports.set(i, upgraded);
                proof {
                    assert forall|j: int| 0 <= j < reports@.len() implies #[trigger] agrees(reports@[j], pass1[j]) by {
                        if j != i {
                            assert(reports@[j] == before[j]);
                            assert(agrees(before[j], pass1[j]));
                        } else {
                            let t = recurrence_outcome(*f, before).unwrap();
                            assert(t.0 == Status::Partial);
                            assert(reports@[j].status == Status::Partial);
                            assert(before[j] == pass1[j]);
                            assert(reports@[j].method@ == f.full_name_text());
                        }
                    }
                    assert(reports@.len() == pass1.len());
                    assert(same_proven(reports@, pass1));
                    assert forall|j: int| 0 <= j < i + 1 implies #[trigger] program_entry(reports@[j], pass1[j], program.functions@[j], pass1) by {
                        if j < i {
                            assert(reports@[j] == before[j]);
                        }
                    }
                }
            } else {
                assert(program_entry(reports@[i as int], pass1[i as int], program.functions@[i as int], pass1));
            }
        } else {
            assert(program_entry(reports@[i as int], pass1[i as int], program.functions@[i as int], pass1));
        }
        i = i + 1;
    }
    let _ = interproc;
    proof {
        assert(first_pass(pass1, program.functions@, opts.policy));
    }
    AnalysisReport { file: owned(file), methods: reports }
}


/// A certificate for a report: its function, potential, obligations and
/// coefficient values.
pub fn certificate_for_report(
    function: &str,
    potential: &str,
    obligations: Vec<Obligation>,
    coeffs: KeyMap<String, i64>,
) -> (r: Certificate)
    ensures
        r.function@ == function@,
        r.potential@ == potential@,
        r.obligations == obligations,
        r.coefficients == coeffs,
{
    Certificate { function: owned(function), potential: owned(potential), coefficients: coeffs, obligations }
}


/// Every proven report rests on something checked or stated: each of its
/// obligations passed its exact check, and it names at least one assumption.
pub proof fn lemma_proven_reports_are_justified(r: MethodReport, f: FunctionIr, policy: SoundnessPolicy)
    requires
        function_report(r, f, policy),
        r.status == Status::Proven,
    ensures
        forall|i: int| 0 <= i < r.obligations@.len() ==> #[trigger] r.obligations@[i].check.proven,
        r.assumptions@.len() > 0,
{
    if expected_obligations(f).len() != 0 {
        let (obligations, result) = choose|obligations: Seq<Obligation>, result: Result<IlpSolution, SolverError>|
            obligations_are(obligations, expected_obligations(f)) && #[trigger] solution_report(
                r,
                f.full_name_text(),
                receivers_upto(f.events@),
                obligations,
                policy_trace(policy, f.events@).0,
                policy_trace(policy, f.events@).1,
                result,
            );
        if let Ok(sol) = result {
            if sol.values.wf() && all_candidate_fits(obligations, sol.values) {
                assert forall|i: int| 0 <= i < r.obligations@.len() implies #[trigger] r.obligations@[i].check.proven by {
                    assert(verified_as(r.obligations@[i], obligations[i], sol.values));
                    assert(obligations[i].holds_under(sol.values));
                }
                assert(texts(r.assumptions@).len() == 1);
            }
        }
    } else {
        assert(texts(r.assumptions@).len() > 0);
    }
}

/// The policy bounds the status: where it finds the events undefined the
/// report is undefined, and where it lowers them to partial the report is
/// never proven.
pub proof fn lemma_policy_bounds_status(r: MethodReport, f: FunctionIr, policy: SoundnessPolicy)
    requires
        function_report(r, f, policy),
    ensures
        policy_trace(policy, f.events@).0 == Status::Undefined ==> r.status == Status::Undefined,
        policy_trace(policy, f.events@).0 == Status::Partial ==> r.status != Status::Proven,
{
    if expected_obligations(f).len() != 0 {
        let (obligations, result) = choose|obligations: Seq<Obligation>, result: Result<IlpSolution, SolverError>|
            obligations_are(obligations, expected_obligations(f)) && #[trigger] solution_report(
                r,
                f.full_name_text(),
                receivers_upto(f.events@),
                obligations,
                policy_trace(policy, f.events@).0,
                policy_trace(policy, f.events@).1,
                result,
            );
    }
}

/// A function with an event the policy does not let pass is never reported
/// proven: a call through a raw-pointer receiver under a `Partial` or
/// `Undefined` raw-pointer policy, or unsafe code under a `Partial` or
/// `Undefined` unsafe policy; and one with an event the policy refuses is
/// reported undefined.
pub proof fn lemma_policy_events_bound_report(r: MethodReport, f: FunctionIr, policy: SoundnessPolicy)
    requires
        function_report(r, f, policy),
    ensures
        (exists|i: int| 0 <= i < f.events@.len() && #[trigger] lowers_status(policy, f.events@[i]))
            ==> r.status != Status::Proven,
        (exists|i: int| 0 <= i < f.events@.len() && #[trigger] refused(policy, f.events@[i]))
            ==> r.status == Status::Undefined,
{
    lemma_policy_verdict(policy, f.events@);
    lemma_policy_bounds_status(r, f, policy);
}

/// A range-loop bound is claimed only where the loops share one header: if
/// two loop regions of `f` start at different blocks (a loop nested in
/// another, say), or a region is empty, the report does not rest on the
/// single-range-loop assumption.
pub proof fn lemma_range_claim_needs_one_header(r: MethodReport, f: FunctionIr, policy: SoundnessPolicy)
    requires
        function_report(r, f, policy),
        exists|i: int, j: int|
            0 <= i < f.loops@.len() && 0 <= j < f.loops@.len() && (#[trigger] f.loops@[i].blocks@.len() == 0
                || #[trigger] f.loops@[j].blocks@.len() == 0 || f.loops@[i].blocks@[0] != f.loops@[j].blocks@[0]),
    ensures
        texts(r.assumptions@) != seq!["single Rust range loop with scalar constant-cost body"@],
{
    reveal_strlit("single Rust range loop with scalar constant-cost body");
    reveal_strlit("acyclic scalar MIR treated as constant-cost");
    reveal_strlit("potential inferred by integer LP; exact verification performed");
    let (i, j) = choose|i: int, j: int|
        0 <= i < f.loops@.len() && 0 <= j < f.loops@.len() && (#[trigger] f.loops@[i].blocks@.len() == 0
            || #[trigger] f.loops@[j].blocks@.len() == 0 || f.loops@[i].blocks@[0] != f.loops@[j].blocks@[0]);
    assert(!single_header(f));
    assert(range_bound(f) is None);
    let range_text = seq!["single Rust range loop with scalar constant-cost body"@];
    assert(seq!["acyclic scalar MIR treated as constant-cost"@] != range_text) by {
        assert("acyclic scalar MIR treated as constant-cost"@.len() != "single Rust range loop with scalar constant-cost body"@.len());
        assert(seq!["acyclic scalar MIR treated as constant-cost"@][0] != range_text[0]);
    }
    assert(seq!["potential inferred by integer LP; exact verification performed"@] != range_text) by {
        assert("potential inferred by integer LP; exact verification performed"@.len() != "single Rust range loop with scalar constant-cost body"@.len());
        assert(seq!["potential inferred by integer LP; exact verification performed"@][0] != range_text[0]);
    }
    if expected_obligations(f).len() != 0 {
        let (obligations, result) = choose|obligations: Seq<Obligation>, result: Result<IlpSolution, SolverError>|
            obligations_are(obligations, expected_obligations(f)) && #[trigger] solution_report(
                r,
                f.full_name_text(),
                receivers_upto(f.events@),
                obligations,
                policy_trace(policy, f.events@).0,
                policy_trace(policy, f.events@).1,
                result,
            );
    }
}

/// The second pass never proves anything: a report it replaces becomes a
/// partial one, so every proven report of a program is the first pass's.
pub proof fn lemma_second_pass_only_partial(
    methods: Seq<MethodReport>,
    pass1: Seq<MethodReport>,
    functions: Seq<FunctionIr>,
    i: int,
)
    requires
        second_pass(methods, pass1, functions),
        0 <= i < methods.len(),
    ensures
        methods[i].status == Status::Proven ==> methods[i] == pass1[i],
        methods[i] != pass1[i] ==> methods[i].status == Status::Partial,
{
    assert(program_entry(methods[i], pass1[i], functions[i], pass1));
}

/// A proven report is sound: each of its obligations, as instantiated with
/// the solver's coefficients, holds for all non-negative values of the
/// program variables: `actual + Φ_after <= amortized + Φ_before`.
pub proof fn lemma_proven_reports_are_sound(r: MethodReport, f: FunctionIr, policy: SoundnessPolicy, v: Valuation)
    requires
        function_report(r, f, policy),
        r.status == Status::Proven,
        nonneg(v),
    ensures
        forall|i: int| 0 <= i < r.obligations@.len() ==> {
            let o = #[trigger] r.obligations@[i].obligation;
            eval_at(o.actual, v) + eval_at(o.phi_after, v) <= eval_at(o.amortized, v) + eval_at(o.phi_before, v)
        },
{
    lemma_proven_reports_are_justified(r, f, policy);
    if expected_obligations(f).len() != 0 {
        let (obligations, result) = choose|obligations: Seq<Obligation>, result: Result<IlpSolution, SolverError>|
            obligations_are(obligations, expected_obligations(f)) && #[trigger] solution_report(
                r,
                f.full_name_text(),
                receivers_upto(f.events@),
                obligations,
                policy_trace(policy, f.events@).0,
                policy_trace(policy, f.events@).1,
                result,
            );
        if let Ok(sol) = result {
            if sol.values.wf() && all_candidate_fits(obligations, sol.values) {
                assert forall|i: int| 0 <= i < r.obligations@.len() implies {
                    let o = #[trigger] r.obligations@[i].obligation;
                    eval_at(o.actual, v) + eval_at(o.phi_after, v) <= eval_at(o.amortized, v) + eval_at(o.phi_before, v)
                } by {
                    assert(verified_as(r.obligations@[i], obligations[i], sol.values));
                    assert(r.obligations@[i].check.proven);
                    lemma_passed_check_sound(r.obligations@[i], obligations[i], sol.values, v);
                }
            }
        }
    }
}

} // verus!
