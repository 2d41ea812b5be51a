//! What the rustc frontend command shows and how it invokes the compiler:
//! the report written for people, and the compiler arguments.
use vstd::prelude::*;
use crate::cargo_cli::{opt_string, opt_text};
use crate::ir::ProgramIr;
use crate::potential_text::{
    has_nonzero_term, nonzero_expression, nonzero_terms, normalize_potential_expression, parse_potential_terms,
    potential_terms_spec, terms_expression,
};
use crate::report::{AnalysisReport, MethodReport, Status};
use crate::terminal::{painted, TerminalStyle};
use crate::text::{
    char_at, char_len, concat2, is_prefix, nat_text, owned, push_char, push_text, remove_spaces, replace_spec, split_spec,
    starts_with, text_eq, texts, trim, trim_spec, u64_text, without_spaces,
};

verus! {

/// How a potential is described briefly: `none inferred`, `zero`, or the
/// non-zero terms; one that cannot be read is shown with spaced `*`.
pub open spec fn brief_spec(potential: Option<Seq<char>>) -> Seq<char> {
    let p = match potential {
        Some(s) => trim_spec(s),
        None => Seq::empty(),
    };
    if p.len() == 0 {
        "none inferred"@
    } else if without_spaces(p) == "0"@ {
        "zero"@
    } else {
        match potential_terms_spec(p) {
            None => replace_spec(p, "*"@, " * "@),
            Some(ts) => if nonzero_terms(ts).len() == 0 {
                "zero"@
            } else {
                terms_expression(ts)
            },
        }
    }
}

pub fn describe_potential(potential: Option<&str>) -> (r: String)
    ensures
        r@ == brief_spec(opt_text(potential)),
{
    let p = match potential {
        Some(s) => trim(s),
        None => String::new(),
    };
    if p.as_str().unicode_len() == 0 {
        return owned("none inferred");
    }
    let compact = remove_spaces(p.as_str());
    if text_eq(compact.as_str(), "0") {
        return owned("zero");
    }
    let terms = match parse_potential_terms(p.as_str()) {
        Some(ts) => ts,
        None => {
            return normalize_potential_expression(p.as_str());
        },
    };
    if !has_nonzero_term(&terms) {
        return owned("zero");
    }
    nonzero_expression(&terms)
}

/// A status as a coloured badge such as `[proven]`.
pub open spec fn badge_text(status: Status, enabled: bool) -> Seq<char> {
    match status {
        Status::Proven => painted(enabled, "32;1"@, "[proven]"@),
        Status::Partial => painted(enabled, "33;1"@, "[partial]"@),
        Status::Undefined => painted(enabled, "31;1"@, "[undefined]"@),
    }
}

pub fn format_status_badge(status: &Status, style: TerminalStyle) -> (r: String)
    ensures
        r@ == badge_text(*status, style.enabled),
{
    match status {
        Status::Proven => style.green("[proven]"),
        Status::Partial => style.yellow("[partial]"),
        Status::Undefined => style.red("[undefined]"),
    }
}

/// A diagnostic level padded to five columns and coloured by its kind.
pub open spec fn level_badge(level: Seq<char>, enabled: bool) -> Seq<char> {
    if level == "error"@ {
        painted(enabled, "31;1"@, "error"@)
    } else if level == "warn"@ {
        painted(enabled, "33;1"@, "warn "@)
    } else if level == "info"@ {
        painted(enabled, "36;1"@, "info "@)
    } else {
        painted(enabled, "1"@, level)
    }
}

pub fn format_diagnostic_level(level: &str, style: TerminalStyle) -> (r: String)
    ensures
        r@ == level_badge(level@, style.enabled),
{
    if text_eq(level, "error") {
        style.red("error")
    } else if text_eq(level, "warn") {
        style.yellow("warn ")
    } else if text_eq(level, "info") {
        style.cyan("info ")
    } else {
        style.bold(level)
    }
}

/// How many reports have the status.
pub open spec fn count_status(ms: Seq<MethodReport>, s: Status) -> nat
    decreases ms.len(),
{
    if ms.len() == 0 {
        0
    } else {
        count_status(ms.drop_last(), s) + if ms.last().status == s {
            1nat
        } else {
            0
        }
    }
}

proof fn lemma_count_bound(ms: Seq<MethodReport>, s: Status)
    ensures
        count_status(ms, s) <= ms.len(),
    decreases ms.len(),
{
    if ms.len() > 0 {
        lemma_count_bound(ms.drop_last(), s);
    }
}

/// How many methods are proven, partial and undefined.
#[derive(Debug, Clone, Copy, PartialEq, Eq, Default)]
pub struct ReportCounts {
    pub proven: usize,
    pub partial: usize,
    pub undefined: usize,
}

impl ReportCounts {
    pub fn from_report(report: &AnalysisReport) -> (r: Self)
        ensures
            r.proven == count_status(report.methods@, Status::Proven),
            r.partial == count_status(report.methods@, Status::Partial),
            r.undefined == count_status(report.methods@, Status::Undefined),
    {
        let mut counts = ReportCounts { proven: 0, partial: 0, undefined: 0 };
        let mut i: usize = 0;
        while i < report.methods.len()
            invariant
                i <= report.methods@.len(),
                counts.proven == count_status(report.methods@.take(i as int), Status::Proven),
                counts.partial == count_status(report.methods@.take(i as int), Status::Partial),
                counts.undefined == count_status(report.methods@.take(i as int), Status::Undefined),
            decreases report.methods@.len() - i,
        {
            let ghost t = report.methods@.take(i as int);
            assert(report.methods@.take(i + 1).drop_last() =~= t);
            proof {
                lemma_count_bound(t, Status::Proven);
                lemma_count_bound(t, Status::Partial);
                lemma_count_bound(t, Status::Undefined);
            }
            match report.methods[i].status {
                Status::Proven => counts.proven = counts.proven + 1,
                Status::Partial => counts.partial = counts.partial + 1,
                Status::Undefined => counts.undefined = counts.undefined + 1,
            }
            i = i + 1;
        }
        assert(report.methods@.take(report.methods@.len() as int) =~= report.methods@);
        counts
    }
}

/// How many bytes a character takes in UTF-8.
pub open spec fn utf8_width(c: char) -> nat {
    let u = c as u32;
    if u < 0x80 {
        1
    } else if u < 0x800 {
        2
    } else if u < 0x10000 {
        3
    } else {
        4
    }
}

/// The length of a text in UTF-8 bytes, as `str::len` gives it.
pub open spec fn utf8_len(s: Seq<char>) -> nat
    decreases s.len(),
{
    if s.len() == 0 {
        0
    } else {
        utf8_len(s.drop_last()) + utf8_width(s.last())
    }
}

proof fn lemma_utf8_len_bound(s: Seq<char>)
    ensures
        utf8_len(s) <= 4 * s.len(),
    decreases s.len(),
{
    if s.len() > 0 {
        lemma_utf8_len_bound(s.drop_last());
    }
}

/// `str::len`: the length in UTF-8 bytes, capped at `cap`.
fn byte_len_capped(s: &str, cap: usize) -> (r: usize)
    ensures
        r == if utf8_len(s@) < cap { utf8_len(s@) } else { cap as nat },
{
    let n = char_len(s);
    let mut total: usize = 0;
    let mut i: usize = 0;
    while i < n
        invariant
            n == s@.len(),
            i <= n,
            total == if utf8_len(s@.take(i as int)) < cap { utf8_len(s@.take(i as int)) } else { cap as nat },
        decreases n - i,
    {
        assert(s@.take(i + 1).drop_last() =~= s@.take(i as int));
        let c = char_at(s, i);
        let u = c as u32;
        let w: usize = if u < 0x80 {
            1
        } else if u < 0x800 {
            2
        } else if u < 0x10000 {
            3
        } else {
            4
        };
        if total < cap {
            total = if w < cap - total {
                total + w
            } else {
                cap
            };
        }
        i = i + 1;
    }
    assert(s@.take(n as int) =~= s@);
    total
}

/// The widest method name in bytes, between 6 and 40 (6 when there is none).
pub open spec fn widest(ms: Seq<MethodReport>) -> nat
    decreases ms.len(),
{
    if ms.len() == 0 {
        6
    } else {
        let w = widest(ms.drop_last());
        let l = utf8_len(ms.last().method@);
        let c = if l < 6 {
            6
        } else if l > 40 {
            40
        } else {
            l
        };
        if c > w {
            c
        } else {
            w
        }
    }
}

fn method_width(report: &AnalysisReport) -> (r: usize)
    ensures
        r == widest(report.methods@),
        6 <= r <= 40,
{
    let mut w: usize = 6;
    let mut i: usize = 0;
    while i < report.methods.len()
        invariant
            i <= report.methods@.len(),
            w == widest(report.methods@.take(i as int)),
            6 <= w <= 40,
        decreases report.methods@.len() - i,
    {
        assert(report.methods@.take(i + 1).drop_last() =~= report.methods@.take(i as int));
        let l = byte_len_capped(report.methods[i].method.as_str(), 41);
        let c = if l < 6 {
            6
        } else if l > 40 {
            40
        } else {
            l
        };
        if c > w {
            w = c;
        }
        i = i + 1;
    }
    assert(report.methods@.take(report.methods@.len() as int) =~= report.methods@);
    w
}

/// `s` padded with spaces on the right to `w` characters.
pub open spec fn pad_right(s: Seq<char>, w: nat) -> Seq<char> {
    if s.len() < w {
        s + Seq::new((w - s.len()) as nat, |i: int| ' ')
    } else {
        s
    }
}

fn pad(s: &str, w: usize) -> (r: String)
    ensures
        r@ == pad_right(s@, w as nat),
{
    let mut out = owned(s);
    let n = char_len(s);
    let mut k: usize = n;
    while k < w
        invariant
            n == s@.len(),
            n <= k <= w || (k == n && n >= w),
            out@ == s@ + Seq::new((k - n) as nat, |i: int| ' '),
        decreases w - k,
    {
        push_char(&mut out, ' ');
        assert(out@ =~= s@ + Seq::new((k + 1 - n) as nat, |i: int| ' '));
        k = k + 1;
    }
    assert(s@ + Seq::new((k - n) as nat, |i: int| ' ') =~= pad_right(s@, w as nat));
    out
}

/// How many obligations were proven.
pub open spec fn proven_count(obs: Seq<crate::obligation::VerifiedObligation>) -> nat
    decreases obs.len(),
{
    if obs.len() == 0 {
        0
    } else {
        proven_count(obs.drop_last()) + if obs.last().check.proven {
            1nat
        } else {
            0
        }
    }
}

/// The line of one checked obligation.
pub open spec fn obligation_line(o: crate::obligation::VerifiedObligation, enabled: bool) -> Seq<char> {
    "    "@ + (if o.check.proven {
        painted(enabled, "32;1"@, "ok"@)
    } else {
        painted(enabled, "31;1"@, "failed"@)
    }) + " "@ + pad_right(o.obligation.name@, 12) + " "@ + painted(enabled, "2"@, o.obligation.explanation@)
}

/// The first two lines for a method: status, name and bound; the potential.
pub open spec fn method_head(m: MethodReport, width: nat, enabled: bool) -> Seq<Seq<char>> {
    seq![
        badge_text(m.status, enabled) + " "@ + painted(enabled, "1"@, pad_right(m.method@, width)) + " "@ + painted(
            enabled,
            "36;1"@,
            m.amortized_bound@,
        ),
        "  "@ + painted(enabled, "2"@, "potential:"@) + " "@ + brief_spec(opt_string(m.potential)),
    ]
}

/// One line per assumption.
pub open spec fn assumption_lines(m: MethodReport, enabled: bool) -> Seq<Seq<char>> {
    m.assumptions@.map_values(|a: String| "  "@ + painted(enabled, "2"@, "reason:   "@) + " "@ + a@)
}

/// The count of proven obligations and a line per obligation, when there are some.
pub open spec fn obligation_block(m: MethodReport, enabled: bool) -> Seq<Seq<char>> {
    if m.obligations@.len() > 0 {
        seq![
            "  "@ + painted(enabled, "2"@, "proof:    "@) + " "@ + nat_text(proven_count(m.obligations@)) + "/"@ + nat_text(
                m.obligations@.len(),
            ) + " obligations checked"@,
        ] + m.obligations@.map_values(|o: crate::obligation::VerifiedObligation| obligation_line(o, enabled))
    } else {
        Seq::empty()
    }
}

/// A heading and a line per diagnostic, when there are some.
pub open spec fn diagnostic_block(m: MethodReport, enabled: bool) -> Seq<Seq<char>> {
    if m.diagnostics@.len() > 0 {
        seq!["  "@ + painted(enabled, "2"@, "diagnostics"@)] + m.diagnostics@.map_values(
            |d: crate::report::Diagnostic| "    "@ + level_badge(d.level@, enabled) + " "@ + d.message@,
        )
    } else {
        Seq::empty()
    }
}

/// The lines printed for one method: status, name and bound; the
/// potential; the assumptions; the obligations; the diagnostics.
#[verifier::opaque]
pub open spec fn method_block(m: MethodReport, width: nat, enabled: bool) -> Seq<Seq<char>> {
    method_head(m, width, enabled) + assumption_lines(m, enabled) + obligation_block(m, enabled) + diagnostic_block(
        m,
        enabled,
    )
}

/// The blocks of the methods, separated by empty lines.
pub open spec fn methods_block(ms: Seq<MethodReport>, width: nat, enabled: bool) -> Seq<Seq<char>>
    decreases ms.len(),
{
    if ms.len() == 0 {
        Seq::empty()
    } else {
        methods_block(ms.drop_last(), width, enabled) + (if ms.len() > 1 {
            seq![Seq::<char>::empty()]
        } else {
            Seq::empty()
        }) + method_block(ms.last(), width, enabled)
    }
}

/// The report printed for people: a header, the counts, then each method.
pub open spec fn human_lines(report: AnalysisReport, enabled: bool) -> Seq<Seq<char>> {
    let ms = report.methods@;
    seq![
        painted(enabled, "1"@, "RAMORT analysis:"@) + " "@ + painted(enabled, "2"@, report.file@),
        painted(enabled, "2"@, "summary:"@) + " "@ + painted(
            enabled,
            "32;1"@,
            nat_text(count_status(ms, Status::Proven)) + " proven"@,
        ) + "  "@ + painted(enabled, "33;1"@, nat_text(count_status(ms, Status::Partial)) + " partial"@) + "  "@
            + painted(enabled, "31;1"@, nat_text(count_status(ms, Status::Undefined)) + " undefined"@),
    ] + if ms.len() == 0 {
        seq![Seq::<char>::empty(), painted(enabled, "33;1"@, "No functions were collected."@)]
    } else {
        seq![Seq::<char>::empty()] + methods_block(ms, widest(ms), enabled)
    }
}


fn push_line(out: &mut Vec<String>, line: String)
    ensures
        texts(final(out)@) == texts(old(out)@).push(line@),
{
    let ghost before = texts(out@);
    out.push(line);
    assert(texts(out@) =~= before.push(line@));
}

fn count_proven(obs: &Vec<crate::obligation::VerifiedObligation>) -> (r: u64)
    ensures
        r == proven_count(obs@),
{
    let mut c: u64 = 0;
    let mut i: usize = 0;
    while i < obs.len()
        invariant
            i <= obs@.len(),
            c == proven_count(obs@.take(i as int)),
            c <= i,
        decreases obs@.len() - i,
    {
        assert(obs@.take(i + 1).drop_last() =~= obs@.take(i as int));
        if obs[i].check.proven {
            c = c + 1;
        }
        i = i + 1;
    }
    assert(obs@.take(obs@.len() as int) =~= obs@);
    c
}

fn push_method_head(out: &mut Vec<String>, m: &MethodReport, width: usize, style: TerminalStyle)
    ensures
        texts(final(out)@) == texts(old(out)@) + method_head(*m, width as nat, style.enabled),
{
    let ghost start = texts(out@);
    let mut l1 = format_status_badge(&m.status, style);
    push_text(&mut l1, " ");
    push_text(&mut l1, style.bold(pad(m.method.as_str(), width).as_str()).as_str());
    push_text(&mut l1, " ");
    push_text(&mut l1, style.cyan(m.amortized_bound.as_str()).as_str());
    push_line(out, l1);
    let potential = match &m.potential {
        Some(p) => describe_potential(Some(p.as_str())),
        None => describe_potential(None),
    };
    let mut l2 = owned("  ");
    push_text(&mut l2, style.dim("potential:").as_str());
    push_text(&mut l2, " ");
    push_text(&mut l2, potential.as_str());
    push_line(out, l2);
    assert(texts(out@) =~= start + method_head(*m, width as nat, style.enabled));
}

fn push_assumptions(out: &mut Vec<String>, m: &MethodReport, style: TerminalStyle)
    ensures
        texts(final(out)@) == texts(old(out)@) + assumption_lines(*m, style.enabled),
{
    let ghost head = texts(out@);
    let mut i: usize = 0;
    while i < m.assumptions.len()
        invariant
            i <= m.assumptions@.len(),
            texts(out@) == head + m.assumptions@.take(i as int).map_values(
                |a: String| "  "@ + painted(style.enabled, "2"@, "reason:   "@) + " "@ + a@,
            ),
        decreases m.assumptions@.len() - i,
    {
        let mut l = owned("  ");
        push_text(&mut l, style.dim("reason:   ").as_str());
        push_text(&mut l, " ");
        push_text(&mut l, m.assumptions[i].as_str());
        push_line(out, l);
        assert(m.assumptions@.take(i + 1).map_values(
            |a: String| "  "@ + painted(style.enabled, "2"@, "reason:   "@) + " "@ + a@,
        ) =~= m.assumptions@.take(i as int).map_values(
            |a: String| "  "@ + painted(style.enabled, "2"@, "reason:   "@) + " "@ + a@,
        ).push(l@));
        i = i + 1;
    }
    assert(m.assumptions@.take(m.assumptions@.len() as int) =~= m.assumptions@);
}

fn push_obligations(out: &mut Vec<String>, m: &MethodReport, style: TerminalStyle)
    ensures
        texts(final(out)@) == texts(old(out)@) + obligation_block(*m, style.enabled),
{
    let ghost start = texts(out@);
    if m.obligations.len() > 0 {
        let proven = count_proven(&m.obligations);
        let mut l = owned("  ");
        push_text(&mut l, style.dim("proof:    ").as_str());
        push_text(&mut l, " ");
        push_text(&mut l, u64_text(proven).as_str());
        push_text(&mut l, "/");
        push_text(&mut l, u64_text(m.obligations.len() as u64).as_str());
        push_text(&mut l, " obligations checked");
        push_line(out, l);
        let ghost oh = texts(out@);
        let mut j: usize = 0;
        while j < m.obligations.len()
            invariant
                j <= m.obligations@.len(),
                texts(out@) == oh + m.obligations@.take(j as int).map_values(
                    |o: crate::obligation::VerifiedObligation| obligation_line(o, style.enabled),
                ),
            decreases m.obligations@.len() - j,
        {
            let o = &m.obligations[j];
            let mut l = owned("    ");
            let mark = if o.check.proven {
                style.green("ok")
            } else {
                style.red("failed")
            };
            push_text(&mut l, mark.as_str());
            push_text(&mut l, " ");
            push_text(&mut l, pad(o.obligation.name.as_str(), 12).as_str());
            push_text(&mut l, " ");
            push_text(&mut l, style.dim(o.obligation.explanation.as_str()).as_str());
            assert(l@ == obligation_line(*o, style.enabled));
            push_line(out, l);
            assert(m.obligations@.take(j + 1).map_values(
                |o: crate::obligation::VerifiedObligation| obligation_line(o, style.enabled),
            ) =~= m.obligations@.take(j as int).map_values(
                |o: crate::obligation::VerifiedObligation| obligation_line(o, style.enabled),
            ).push(l@));
            j = j + 1;
        }
        assert(m.obligations@.take(m.obligations@.len() as int) =~= m.obligations@);
        assert(texts(out@) =~= start + obligation_block(*m, style.enabled));
    } else {
        assert(texts(out@) =~= start + obligation_block(*m, style.enabled));
    }
}

fn push_diagnostics(out: &mut Vec<String>, m: &MethodReport, style: TerminalStyle)
    ensures
        texts(final(out)@) == texts(old(out)@) + diagnostic_block(*m, style.enabled),
{
    let ghost start = texts(out@);
    if m.diagnostics.len() > 0 {
        let mut l = owned("  ");
        push_text(&mut l, style.dim("diagnostics").as_str());
        push_line(out, l);
        let ghost dh = texts(out@);
        let mut j: usize = 0;
        while j < m.diagnostics.len()
            invariant
                j <= m.diagnostics@.len(),
                texts(out@) == dh + m.diagnostics@.take(j as int).map_values(
                    |d: crate::report::Diagnostic| "    "@ + level_badge(d.level@, style.enabled) + " "@ + d.message@,
                ),
            decreases m.diagnostics@.len() - j,
        {
            let d = &m.diagnostics[j];
            let mut l = owned("    ");
            push_text(&mut l, format_diagnostic_level(d.level.as_str(), style).as_str());
            push_text(&mut l, " ");
            push_text(&mut l, d.message.as_str());
            push_line(out, l);
            assert(m.diagnostics@.take(j + 1).map_values(
                |d: crate::report::Diagnostic| "    "@ + level_badge(d.level@, style.enabled) + " "@ + d.message@,
            ) =~= m.diagnostics@.take(j as int).map_values(
                |d: crate::report::Diagnostic| "    "@ + level_badge(d.level@, style.enabled) + " "@ + d.message@,
            ).push(l@));
            j = j + 1;
        }
        assert(m.diagnostics@.take(m.diagnostics@.len() as int) =~= m.diagnostics@);
        assert(texts(out@) =~= start + diagnostic_block(*m, style.enabled));
    } else {
        assert(texts(out@) =~= start + diagnostic_block(*m, style.enabled));
    }
}

fn push_method_block(out: &mut Vec<String>, m: &MethodReport, width: usize, style: TerminalStyle)
    ensures
        texts(final(out)@) == texts(old(out)@) + method_block(*m, width as nat, style.enabled),
{
    let ghost start = texts(out@);
    push_method_head(out, m, width, style);
    push_assumptions(out, m, style);
    push_obligations(out, m, style);
    push_diagnostics(out, m, style);
    proof {
        reveal(method_block);
    }
    assert(texts(out@) =~= start + method_block(*m, width as nat, style.enabled));
}

/// The lines `ramort-rustc analyze-file` prints for a report.
pub fn human_report_lines(report: &AnalysisReport, style: TerminalStyle) -> (r: Vec<String>)
    ensures
        texts(r@) == human_lines(*report, style.enabled),
{
    let counts = ReportCounts::from_report(report);
    let width = method_width(report);
    let mut out: Vec<String> = Vec::new();
    let mut l1 = style.bold("RAMORT analysis:");
    push_text(&mut l1, " ");
    push_text(&mut l1, style.dim(report.file.as_str()).as_str());
    push_line(&mut out, l1);
    let mut l2 = style.dim("summary:");
    push_text(&mut l2, " ");
    push_text(&mut l2, style.green(concat2(u64_text(counts.proven as u64).as_str(), " proven").as_str()).as_str());
    push_text(&mut l2, "  ");
    push_text(&mut l2, style.yellow(concat2(u64_text(counts.partial as u64).as_str(), " partial").as_str()).as_str());
    push_text(&mut l2, "  ");
    push_text(&mut l2, style.red(concat2(u64_text(counts.undefined as u64).as_str(), " undefined").as_str()).as_str());
    push_line(&mut out, l2);
    let ghost head = texts(out@);
    if report.methods.len() == 0 {
        push_line(&mut out, String::new());
        push_line(&mut out, style.yellow("No functions were collected."));
        assert(texts(out@) =~= human_lines(*report, style.enabled));
        return out;
    }
    push_line(&mut out, String::new());
    let ghost blank = texts(out@);
    let mut i: usize = 0;
    while i < report.methods.len()
        invariant
            i <= report.methods@.len(),
            width == widest(report.methods@),
            texts(out@) == blank + methods_block(report.methods@.take(i as int), width as nat, style.enabled),
        decreases report.methods@.len() - i,
    {
        assert(report.methods@.take(i + 1).drop_last() =~= report.methods@.take(i as int));
        assert(report.methods@.take(i + 1).last() == report.methods@[i as int]);
        if i > 0 {
            push_line(&mut out, String::new());
        }
        push_method_block(&mut out, &report.methods[i], width, style);
        assert(texts(out@) =~= blank + methods_block(report.methods@.take(i + 1), width as nat, style.enabled));
        i = i + 1;
    }
    assert(report.methods@.take(report.methods@.len() as int) =~= report.methods@);
    assert(texts(out@) =~= human_lines(*report, style.enabled));
    out
}


/// `arg` is `name` or `name=...`.
pub open spec fn is_arg(arg: Seq<char>, name: Seq<char>) -> bool {
    arg == name || is_prefix(name + "="@, arg)
}

/// Some argument is `name` or `name=...`.
pub open spec fn has_arg_spec(args: Seq<Seq<char>>, name: Seq<char>) -> bool {
    exists|i: int| 0 <= i < args.len() && #[trigger] is_arg(args[i], name)
}

pub fn has_arg(args: &[String], name: &str) -> (r: bool)
    ensures
        r == has_arg_spec(texts(args@), name@),
{
    let with_eq = concat2(name, "=");
    let mut i: usize = 0;
    while i < args.len()
        invariant
            i <= args@.len(),
            with_eq@ == name@ + "="@,
            forall|j: int| 0 <= j < i ==> !#[trigger] is_arg(texts(args@)[j], name@),
        decreases args@.len() - i,
    {
        if text_eq(args[i].as_str(), name) || starts_with(args[i].as_str(), with_eq.as_str()) {
            assert(is_arg(texts(args@)[i as int], name@));
            return true;
        }
        i = i + 1;
    }
    false
}

/// Appends `name value` unless the user already gave `name`.
pub fn push_default_arg(args: &mut Vec<String>, user_args: &[String], name: &str, value: &str)
    ensures
        texts(final(args)@) == if has_arg_spec(texts(user_args@), name@) {
            texts(old(args)@)
        } else {
            texts(old(args)@).push(name@).push(value@)
        },
{
    if !has_arg(user_args, name) {
        let ghost before = texts(args@);
        args.push(owned(name));
        args.push(owned(value));
        assert(texts(args@) =~= before.push(name@).push(value@));
    }
}

/// The compiler arguments for collecting a file: the program name and the
/// file, `--crate-type lib` and `--edition 2021` unless given, the sysroot
/// unless given, then the user's arguments.
pub open spec fn compiler_args_spec(file: Seq<char>, user: Seq<Seq<char>>, sysroot: Option<Seq<char>>) -> Seq<Seq<char>> {
    let a0 = seq!["ramort-rustc"@, file];
    let a1 = if has_arg_spec(user, "--crate-type"@) { a0 } else { a0 + seq!["--crate-type"@, "lib"@] };
    let a2 = if has_arg_spec(user, "--edition"@) { a1 } else { a1 + seq!["--edition"@, "2021"@] };
    let a3 = if !has_arg_spec(user, "--sysroot"@) && sysroot is Some {
        a2 + seq!["--sysroot"@, sysroot.unwrap()]
    } else {
        a2
    };
    a3 + user
}

pub fn compiler_args(file: &str, rustc_args: &[String], sysroot: Option<String>) -> (r: Vec<String>)
    ensures
        texts(r@) == compiler_args_spec(file@, texts(rustc_args@), opt_string(sysroot)),
{
    let mut args: Vec<String> = Vec::new();
    args.push(owned("ramort-rustc"));
    args.push(owned(file));
    assert(texts(args@) =~= seq!["ramort-rustc"@, file@]);
    push_default_arg(&mut args, rustc_args, "--crate-type", "lib");
    push_default_arg(&mut args, rustc_args, "--edition", "2021");
    let ghost a2 = texts(args@);
    if !has_arg(rustc_args, "--sysroot") {
        if let Some(root) = sysroot {
            args.push(owned("--sysroot"));
            let ghost r = root@;
            args.push(root);
            assert(texts(args@) =~= a2 + seq!["--sysroot"@, r]);
        }
    }
    let ghost a3 = texts(args@);
    let mut i: usize = 0;
    while i < rustc_args.len()
        invariant
            i <= rustc_args@.len(),
            texts(args@) == a3 + texts(rustc_args@).take(i as int),
        decreases rustc_args@.len() - i,
    {
        push_line(&mut args, rustc_args[i].clone());
        assert(a3 + texts(rustc_args@).take(i + 1) =~= (a3 + texts(rustc_args@).take(i as int)).push(rustc_args@[i as int]@));
        i = i + 1;
    }
    assert(texts(rustc_args@).take(rustc_args@.len() as int) =~= texts(rustc_args@));
    args
}

/// The text after the last `::`, the whole text when there is none.
pub open spec fn after_last_sep(s: Seq<char>) -> Seq<char> {
    if exists|i: int| 0 <= i <= s.len() - 2 && #[trigger] s.subrange(i, i + 2) == "::"@ {
        let i = choose|i: int|
            0 <= i <= s.len() - 2 && #[trigger] s.subrange(i, i + 2) == "::"@ && forall|j: int|
                i < j <= s.len() - 2 ==> #[trigger] s.subrange(j, j + 2) != "::"@;
        s.skip(i + 2)
    } else {
        s
    }
}

/// The last segment of a path, without generic arguments: `Vec` for
/// `alloc::vec::Vec<T>`.
pub open spec fn last_segment(path: Seq<char>) -> Seq<char> {
    split_spec(after_last_sep(path), '<')[0]
}

proof fn lemma_last_sep(s: Seq<char>, i: int)
    requires
        0 <= i <= s.len() - 2,
        s.subrange(i, i + 2) == "::"@,
        forall|j: int| i < j <= s.len() - 2 ==> #[trigger] s.subrange(j, j + 2) != "::"@,
    ensures
        after_last_sep(s) == s.skip(i + 2),
{
    let k = choose|k: int|
        0 <= k <= s.len() - 2 && #[trigger] s.subrange(k, k + 2) == "::"@ && forall|j: int|
            k < j <= s.len() - 2 ==> #[trigger] s.subrange(j, j + 2) != "::"@;
    assert(0 <= k <= s.len() - 2 && s.subrange(k, k + 2) == "::"@ && forall|j: int|
        k < j <= s.len() - 2 ==> #[trigger] s.subrange(j, j + 2) != "::"@);
    if k < i {
        assert(s.subrange(i, i + 2) != "::"@);
    }
    if i < k {
        assert(s.subrange(k, k + 2) != "::"@);
    }
}

pub fn last_path_segment(path: &str) -> (r: String)
    ensures
        r@ == last_segment(path@),
{
    let n = char_len(path);
    let mut tail = owned(path);
    let mut found = false;
    proof {
        reveal_strlit("::");
    }
    if n >= 2 {
        let mut k: usize = n - 1;
        while k > 0 && !found
            invariant
                n == path@.len(),
                n >= 2,
                k <= n - 1,
                !found ==> forall|j: int| k <= j <= n - 2 ==> #[trigger] path@.subrange(j, j + 2) != "::"@,
                !found ==> tail@ == path@,
                found ==> tail@ == after_last_sep(path@),
            decreases k,
        {
            let i = k - 1;
            if text_eq(path.substring_char(i, i + 2), "::") {
                proof {
                    lemma_last_sep(path@, i as int);
                }
                tail = owned(path.substring_char(i + 2, n));
                found = true;
            }
            k = k - 1;
        }
    }
    proof {
        if !found {
            assert(!exists|i: int| 0 <= i <= path@.len() - 2 && #[trigger] path@.subrange(i, i + 2) == "::"@);
        }
    }
    let pieces = crate::text::split_char(tail.as_str(), '<');
    proof {
        lemma_split_nonempty(tail@, '<');
        assert(texts(pieces@).len() == pieces@.len());
        assert(texts(pieces@)[0] == pieces@[0]@);
    }
    pieces[0].clone()
}

proof fn lemma_split_nonempty(s: Seq<char>, c: char)
    ensures
        split_spec(s, c).len() >= 1,
{
}

/// Collecting MIR needs the rustc-private collector, which this build
/// does not include: every request is refused with that explanation.
pub fn collect_mir_ir(path: &str, rustc_args: &[String]) -> (r: Result<ProgramIr, String>)
    ensures
        r matches Err(e) && e@
            == "RAMORT was built without the rustc-private MIR collector; rebuild with feature `rustc-private-link` on nightly"@,
{
    Err(owned("RAMORT was built without the rustc-private MIR collector; rebuild with feature `rustc-private-link` on nightly"))
}

} // verus!
