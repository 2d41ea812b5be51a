//! What the `cargo-ramort` command shows: the demo queue program and the
//! report lines written for people.
use vstd::prelude::*;
use crate::ir::{AccessKind, CallEvent, Event, FunctionIr, FunctionSignature, LoopRegion, ProgramIr, ResourcePath};
use crate::potential_text::{
    has_nonzero_term, nonzero_expression, nonzero_terms, parse_potential_terms, potential_terms_spec, terms_expression,
    term_views, normalize_potential_expression,
};
use crate::report::{AnalysisReport, MethodReport, Status};
use crate::terminal::{painted, TerminalStyle};
use crate::text::{
    concat2, is_prefix, join, join_spec, owned, push_text, remove_spaces, replace_spec, strip_prefix, text_eq, texts,
    trim, trim_spec, without_spaces,
};

verus! {

/// A path without its leading `self.`.
pub open spec fn short_name(p: Seq<char>) -> Seq<char> {
    if is_prefix("self."@, p) {
        p.skip(5)
    } else {
        p
    }
}

pub fn short_resource_name(path: &str) -> (r: String)
    ensures
        r@ == short_name(path@),
{
    proof {
        reveal_strlit("self.");
    }
    match strip_prefix(path, "self.") {
        Some(rest) => rest,
        None => owned(path),
    }
}

/// Words joined as in a sentence: `a`, `a and b`, `a, b, and c`.
pub open spec fn words_text(ws: Seq<Seq<char>>) -> Seq<char> {
    if ws.len() == 0 {
        Seq::empty()
    } else if ws.len() == 1 {
        ws[0]
    } else if ws.len() == 2 {
        ws[0] + " and "@ + ws[1]
    } else {
        join_spec(ws.drop_last(), ", "@) + ", and "@ + ws.last()
    }
}

pub fn join_words(words: &[String]) -> (r: String)
    ensures
        r@ == words_text(texts(words@)),
{
    let n = words.len();
    if n == 0 {
        return String::new();
    }
    if n == 1 {
        return words[0].clone();
    }
    if n == 2 {
        let mut s = words[0].clone();
        push_text(&mut s, " and ");
        push_text(&mut s, words[1].as_str());
        return s;
    }
    let mut head: Vec<String> = Vec::new();
    let mut i: usize = 0;
    while i < n - 1
        invariant
            n == words@.len(),
            n >= 3,
            i <= n - 1,
            head@ == words@.take(i as int),
        decreases n - 1 - i,
    {
        head.push(words[i].clone());
        assert(head@ =~= words@.take(i + 1));
        i = i + 1;
    }
    assert(texts(head@) =~= texts(words@).drop_last());
    let mut s = join(&head, ", ");
    push_text(&mut s, ", and ");
    push_text(&mut s, words[n - 1].as_str());
    s
}

/// The view of an optional text.
pub open spec fn opt_text(p: Option<&str>) -> Option<Seq<char>> {
    match p {
        Some(s) => Some(s@),
        None => None,
    }
}

/// How a potential is described: none, zero (with the resources it is
/// zero on), or its non-zero terms; one that cannot be read is shown
/// with spaced `*`.
pub open spec fn describe_spec(potential: Option<Seq<char>>) -> Seq<char> {
    let p = match potential {
        Some(s) => trim_spec(s),
        None => Seq::empty(),
    };
    if p.len() == 0 {
        "no potential inferred"@
    } else if without_spaces(p) == "0"@ {
        "zero potential"@
    } else {
        match potential_terms_spec(p) {
            None => "potential "@ + replace_spec(p, "*"@, " * "@),
            Some(ts) => if nonzero_terms(ts).len() == 0 {
                let paths = ts.map_values(|t: (int, Seq<char>)| short_name(t.1));
                if paths.len() == 0 {
                    "zero potential"@
                } else {
                    "zero potential on "@ + words_text(paths)
                }
            } else {
                "potential "@ + terms_expression(ts)
            },
        }
    }
}

pub fn describe_potential(potential: Option<&str>) -> (r: String)
    ensures
        r@ == describe_spec(opt_text(potential)),
{
    let p = match potential {
        Some(s) => trim(s),
        None => String::new(),
    };
    if p.as_str().unicode_len() == 0 {
        return owned("no potential inferred");
    }
    let compact = remove_spaces(p.as_str());
    if text_eq(compact.as_str(), "0") {
        return owned("zero potential");
    }
    let terms = match parse_potential_terms(p.as_str()) {
        Some(ts) => ts,
        None => {
            let e = normalize_potential_expression(p.as_str());
            return concat2("potential ", e.as_str());
        },
    };
    if !has_nonzero_term(&terms) {
        let ghost tv = term_views(terms@);
        let mut paths: Vec<String> = Vec::new();
        let mut i: usize = 0;
        while i < terms.len()
            invariant
                i <= terms@.len(),
                tv == term_views(terms@),
                texts(paths@) == tv.take(i as int).map_values(|t: (int, Seq<char>)| short_name(t.1)),
            decreases terms@.len() - i,
        {
            let s = short_resource_name(terms[i].path.as_str());
            let ghost before = paths@;
            paths.push(s);
            assert(texts(paths@) =~= texts(before).push(s@));
            assert(tv.take(i + 1)[i as int].1 == terms@[i as int].path@);
            assert(texts(paths@) =~= tv.take(i + 1).map_values(|t: (int, Seq<char>)| short_name(t.1)));
            i = i + 1;
        }
        assert(tv.take(terms@.len() as int) =~= tv);
        if paths.len() == 0 {
            return owned("zero potential");
        }
        let w = join_words(paths.as_slice());
        return concat2("zero potential on ", w.as_str());
    }
    let e = nonzero_expression(&terms);
    concat2("potential ", e.as_str())
}

/// The word for a status, coloured green, yellow or red.
pub open spec fn status_text(status: Status, enabled: bool) -> Seq<char> {
    match status {
        Status::Proven => painted(enabled, "32;1"@, "proven"@),
        Status::Partial => painted(enabled, "33;1"@, "partial"@),
        Status::Undefined => painted(enabled, "31;1"@, "undefined"@),
    }
}

pub fn format_status(status: &Status, style: TerminalStyle) -> (r: String)
    ensures
        r@ == status_text(*status, style.enabled),
{
    match status {
        Status::Proven => style.green("proven"),
        Status::Partial => style.yellow("partial"),
        Status::Undefined => style.red("undefined"),
    }
}

/// A diagnostic level coloured by its kind.
pub open spec fn level_text(level: Seq<char>, enabled: bool) -> Seq<char> {
    if level == "error"@ {
        painted(enabled, "31;1"@, level)
    } else if level == "warn"@ {
        painted(enabled, "33;1"@, level)
    } else if level == "info"@ {
        painted(enabled, "36;1"@, level)
    } else {
        painted(enabled, "1"@, level)
    }
}

pub fn format_diagnostic_level(level: &str, style: TerminalStyle) -> (r: String)
    ensures
        r@ == level_text(level@, style.enabled),
{
    if text_eq(level, "error") {
        style.red(level)
    } else if text_eq(level, "warn") {
        style.yellow(level)
    } else if text_eq(level, "info") {
        style.cyan(level)
    } else {
        style.bold(level)
    }
}

/// The view of an optional string.
pub open spec fn opt_string(p: Option<String>) -> Option<Seq<char>> {
    match p {
        Some(s) => Some(s@),
        None => None,
    }
}

/// The lines shown for one method: its summary, then one line per diagnostic.
#[verifier::opaque]
pub open spec fn method_lines(m: MethodReport, enabled: bool) -> Seq<Seq<char>> {
    seq![
        "- "@ + painted(enabled, "1"@, m.method@) + ": "@ + painted(enabled, "36;1"@, m.amortized_bound@) + " with "@
            + painted(enabled, "35;1"@, describe_spec(opt_string(m.potential))) + " ("@ + status_text(m.status, enabled)
            + ")"@,
    ] + m.diagnostics@.map_values(
        |d: crate::report::Diagnostic| "  - "@ + level_text(d.level@, enabled) + ": "@ + d.message@,
    )
}

/// The lines shown for the methods, in order.
pub open spec fn report_lines(ms: Seq<MethodReport>, enabled: bool) -> Seq<Seq<char>>
    decreases ms.len(),
{
    if ms.len() == 0 {
        Seq::empty()
    } else {
        report_lines(ms.drop_last(), enabled) + method_lines(ms.last(), enabled)
    }
}

fn push_method_lines(out: &mut Vec<String>, m: &MethodReport, style: TerminalStyle)
    ensures
        texts(final(out)@) == texts(old(out)@) + method_lines(*m, style.enabled),
{
    let potential = match &m.potential {
        Some(p) => describe_potential(Some(p.as_str())),
        None => describe_potential(None),
    };
    let mut line = owned("- ");
    push_text(&mut line, style.bold(m.method.as_str()).as_str());
    push_text(&mut line, ": ");
    push_text(&mut line, style.cyan(m.amortized_bound.as_str()).as_str());
    push_text(&mut line, " with ");
    push_text(&mut line, style.magenta(potential.as_str()).as_str());
    push_text(&mut line, " (");
    push_text(&mut line, format_status(&m.status, style).as_str());
    push_text(&mut line, ")");
    let ghost start = texts(out@);
    out.push(line);
    let ghost head = texts(out@);
    assert(head =~= start.push(line@));
    let mut i: usize = 0;
    while i < m.diagnostics.len()
        invariant
            i <= m.diagnostics@.len(),
            texts(out@) == head + m.diagnostics@.take(i as int).map_values(
                |d: crate::report::Diagnostic| "  - "@ + level_text(d.level@, style.enabled) + ": "@ + d.message@,
            ),
        decreases m.diagnostics@.len() - i,
    {
        let d = &m.diagnostics[i];
        let mut l = owned("  - ");
        push_text(&mut l, format_diagnostic_level(d.level.as_str(), style).as_str());
        push_text(&mut l, ": ");
        push_text(&mut l, d.message.as_str());
        let ghost before = texts(out@);
        out.push(l);
        assert(texts(out@) =~= before.push(l@));
        assert(m.diagnostics@.take(i + 1).map_values(
            |d: crate::report::Diagnostic| "  - "@ + level_text(d.level@, style.enabled) + ": "@ + d.message@,
        ) =~= m.diagnostics@.take(i as int).map_values(
            |d: crate::report::Diagnostic| "  - "@ + level_text(d.level@, style.enabled) + ": "@ + d.message@,
        ).push(l@));
        i = i + 1;
    }
    assert(m.diagnostics@.take(m.diagnostics@.len() as int) =~= m.diagnostics@);
    proof {
        reveal(method_lines);
    }
    assert(texts(out@) =~= start + method_lines(*m, style.enabled));
}

/// The lines `cargo-ramort analyze-demo` prints for a report.
pub fn demo_report_lines(report: &AnalysisReport, style: TerminalStyle) -> (r: Vec<String>)
    ensures
        texts(r@) == report_lines(report.methods@, style.enabled),
{
    let mut out: Vec<String> = Vec::new();
    let mut i: usize = 0;
    while i < report.methods.len()
        invariant
            i <= report.methods@.len(),
            texts(out@) == report_lines(report.methods@.take(i as int), style.enabled),
        decreases report.methods@.len() - i,
    {
        assert(report.methods@.take(i + 1).drop_last() =~= report.methods@.take(i as int));
        assert(report.methods@.take(i + 1).last() == report.methods@[i as int]);
        push_method_lines(&mut out, &report.methods[i], style);
        i = i + 1;
    }
    assert(report.methods@.take(report.methods@.len() as int) =~= report.methods@);
    out
}


/// An optional path with this view.
pub open spec fn path_is(p: Option<ResourcePath>, v: Seq<Seq<char>>) -> bool {
    match p {
        Some(r) => r@ == v,
        None => false,
    }
}

/// An optional text equal to `t`.
pub open spec fn text_is(p: Option<String>, t: Seq<char>) -> bool {
    match p {
        Some(s) => s@ == t,
        None => false,
    }
}

/// A call of `alloc::vec::Vec::<method>` on `self.<field>` in `block`.
pub open spec fn vec_call_is(ev: Event, block: usize, method: Seq<char>, field: Seq<char>, access: AccessKind) -> bool {
    match ev {
        Event::Call(c) => {
            &&& c.block == block
            &&& c.callee@ == "alloc::vec::Vec::"@ + method
            &&& c.method@ == method
            &&& path_is(c.receiver, seq!["self"@, field])
            &&& text_is(c.receiver_ty, "alloc::vec::Vec<T>"@)
            &&& c.receiver_access == access
            &&& c.args@.len() == 0
            &&& !c.is_trait_call
            &&& c.destination is None
        },
        _ => false,
    }
}

/// A method `Queue::<name>` taking `&mut self`, generic over `T`.
pub open spec fn queue_method(f: FunctionIr, name: Seq<char>, blocks: usize) -> bool {
    &&& f.name@ == name
    &&& text_is(f.owner_type, "Queue"@)
    &&& f.signature.self_access == Some(AccessKind::MutBorrow)
    &&& texts(f.signature.generic_params@) == seq!["T"@]
    &&& f.blocks == blocks
    &&& f.successors@.len() == 0
}

/// The two-stack queue: `push` pushes onto `back`; `pop` checks `front`,
/// drains `back` into `front` in a loop, and pops `front`.
pub open spec fn is_demo_program(p: ProgramIr) -> bool {
    &&& p.crate_name@ == "demo"@
    &&& p.functions@.len() == 2
    &&& queue_method(p.functions@[0], "push"@, 1)
    &&& p.functions@[0].loops@.len() == 0
    &&& p.functions@[0].events@.len() == 1
    &&& vec_call_is(p.functions@[0].events@[0], 0, "push"@, "back"@, AccessKind::MutBorrow)
    &&& queue_method(p.functions@[1], "pop"@, 4)
    &&& p.functions@[1].loops@.len() == 1
    &&& p.functions@[1].loops@[0].blocks@ == seq![1usize, 2usize]
    &&& p.functions@[1].events@.len() == 4
    &&& vec_call_is(p.functions@[1].events@[0], 0, "is_empty"@, "front"@, AccessKind::SharedBorrow)
    &&& vec_call_is(p.functions@[1].events@[1], 1, "pop"@, "back"@, AccessKind::MutBorrow)
    &&& vec_call_is(p.functions@[1].events@[2], 2, "push"@, "front"@, AccessKind::MutBorrow)
    &&& vec_call_is(p.functions@[1].events@[3], 3, "pop"@, "front"@, AccessKind::MutBorrow)
}

fn vec_call(block: usize, method: &str, field: &str, access: AccessKind) -> (r: Event)
    ensures
        vec_call_is(r, block, method@, field@, access),
{
    let receiver = ResourcePath::self_field(field);
    assert(receiver@ =~= seq!["self"@, field@]);
    Event::Call(CallEvent {
        block,
        callee: concat2("alloc::vec::Vec::", method),
        method: owned(method),
        receiver: Some(receiver),
        receiver_ty: Some(owned("alloc::vec::Vec<T>")),
        receiver_access: access,
        args: Vec::new(),
        is_trait_call: false,
        destination: None,
    })
}

fn queue_function(name: &str, blocks: usize, loops: Vec<LoopRegion>, events: Vec<Event>) -> (r: FunctionIr)
    ensures
        queue_method(r, name@, blocks),
        r.loops == loops,
        r.events == events,
{
    let mut generic_params: Vec<String> = Vec::new();
    generic_params.push(owned("T"));
    assert(texts(generic_params@) =~= seq!["T"@]);
    FunctionIr {
        name: owned(name),
        owner_type: Some(owned("Queue")),
        signature: FunctionSignature { self_access: Some(AccessKind::MutBorrow), generic_params },
        blocks,
        events,
        loops,
        successors: Vec::new(),
    }
}

/// The program `cargo-ramort analyze-demo` analyzes.
pub fn demo_program() -> (r: ProgramIr)
    ensures
        is_demo_program(r),
{
    let mut push_events: Vec<Event> = Vec::new();
    push_events.push(vec_call(0, "push", "back", AccessKind::MutBorrow));
    let push = queue_function("push", 1, Vec::new(), push_events);
    let mut pop_events: Vec<Event> = Vec::new();
    pop_events.push(vec_call(0, "is_empty", "front", AccessKind::SharedBorrow));
    pop_events.push(vec_call(1, "pop", "back", AccessKind::MutBorrow));
    pop_events.push(vec_call(2, "push", "front", AccessKind::MutBorrow));
    pop_events.push(vec_call(3, "pop", "front", AccessKind::MutBorrow));
    let mut loop_blocks: Vec<usize> = Vec::new();
    loop_blocks.push(1);
    loop_blocks.push(2);
    let mut loops: Vec<LoopRegion> = Vec::new();
    loops.push(LoopRegion { blocks: loop_blocks });
    let pop = queue_function("pop", 4, loops, pop_events);
    let mut functions: Vec<FunctionIr> = Vec::new();
    functions.push(push);
    functions.push(pop);
    let r = ProgramIr { crate_name: owned("demo"), functions };
    assert(r.functions@[1].loops@[0].blocks@ =~= seq![1usize, 2usize]);
    r
}

} // verus!
