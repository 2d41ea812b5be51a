use ramort::policy::{InteriorMutabilityPolicy, RawPointerPolicy, SoundnessPolicy, UnsafePolicy};
use ramort::alias_model::AliasValue;
use ramort::cargo_cli::{demo_program, demo_report_lines, format_diagnostic_level, format_status, join_words, short_resource_name};
use ramort::cargo_integration::CargoAnalyzePlan;
use ramort::certificate::{check_certificate_checked, Certificate};
use ramort::frontend_cli::{
    collect_mir_ir, compiler_args, format_status_badge, has_arg, human_report_lines, last_path_segment,
    push_default_arg, ReportCounts,
};
use ramort::generics::GenericCostModel;
use ramort::interproc::{FunctionSummary, InterprocSummaryDb};
use ramort::ir::PathCondition;
use ramort::loop_summary::infer_draining_loop;
use ramort::lp::eval;
use ramort::transition::AbstractState;
use ramort::obligation::{Obligation, PotentialTemplate};
use ramort::path_conditions::branch_conditions_from_is_empty;
use ramort::potential_text::{format_potential_term, normalize_potential_expression, parse_potential_term, parse_potential_terms};
use ramort::report::Diagnostic;
use ramort::terminal::TerminalStyle;
use ramort::{
    analyze_program, AnalysisOptions, AnalysisReport, IlpSolution, IntegerLinearSolver, KeyMap, LinExpr,
    LinearProblem, MethodReport, ResourcePath, SolverError, Status, SummaryDb,
};

const PLAIN: TerminalStyle = TerminalStyle { enabled: false };
const COLOUR: TerminalStyle = TerminalStyle { enabled: true };

struct QueueSolver;

impl IntegerLinearSolver for QueueSolver {
    fn solve(&self, _problem: &LinearProblem) -> Result<IlpSolution, SolverError> {
        let mut values = KeyMap::new();
        values.insert("a_self_front".to_string(), 0);
        values.insert("a_self_back".to_string(), 2);
        values.insert("c_push".to_string(), 3);
        values.insert("c_pop".to_string(), 1);
        values.insert("c_method".to_string(), 0);
        Ok(IlpSolution { objective: Some(3), values })
    }
}

#[test]
fn paint_wraps_text_only_when_enabled() {
    assert_eq!(COLOUR.paint("1", "x"), "\x1b[1mx\x1b[0m");
    assert_eq!(PLAIN.paint("1", "x"), "x");
    assert_eq!(COLOUR.green("ok"), "\x1b[32;1mok\x1b[0m");
    assert_eq!(COLOUR.dim("d"), "\x1b[2md\x1b[0m");
}

#[test]
fn environment_decides_colour() {
    assert!(TerminalStyle::from_environment(false, None, None, None, true).enabled);
    assert!(!TerminalStyle::from_environment(true, None, None, None, true).enabled);
    assert!(TerminalStyle::from_environment(true, Some("1".into()), None, None, false).enabled);
    assert!(!TerminalStyle::from_environment(false, Some("0".into()), None, None, false).enabled);
    assert!(!TerminalStyle::from_environment(false, None, Some("0".into()), None, true).enabled);
    assert!(!TerminalStyle::from_environment(false, None, None, Some("dumb".into()), true).enabled);
}

#[test]
fn joins_words_as_in_a_sentence() {
    assert_eq!(join_words(&[]), "");
    assert_eq!(join_words(&["a".to_string()]), "a");
    assert_eq!(join_words(&["a".to_string(), "b".to_string()]), "a and b");
    assert_eq!(join_words(&["a".to_string(), "b".to_string(), "c".to_string()]), "a, b, and c");
}

#[test]
fn shortens_self_paths() {
    assert_eq!(short_resource_name("self.back"), "back");
    assert_eq!(short_resource_name("queue.back"), "queue.back");
}

#[test]
fn describes_every_kind_of_potential() {
    let describe_potential = ramort::cargo_cli::describe_potential;
    assert_eq!(describe_potential(None), "no potential inferred");
    assert_eq!(describe_potential(Some("   ")), "no potential inferred");
    assert_eq!(describe_potential(Some(" 0 ")), "zero potential");
    assert_eq!(describe_potential(Some("3*B")), "potential 3 * B");
    assert_eq!(
        describe_potential(Some("0*len(self.front) + 0*len(self.back)")),
        "zero potential on front and back"
    );
    assert_eq!(describe_potential(Some("1*len(self.a) + -1*len(self.b)")), "potential len(self.a) - len(self.b)");
}

#[test]
fn brief_descriptions_of_the_frontend() {
    let describe_potential = ramort::frontend_cli::describe_potential;
    assert_eq!(describe_potential(None), "none inferred");
    assert_eq!(describe_potential(Some("0")), "zero");
    assert_eq!(describe_potential(Some("0*len(self.back)")), "zero");
    assert_eq!(describe_potential(Some("3*B")), "3 * B");
    assert_eq!(describe_potential(Some("0*len(self.front) + 2*len(self.back)")), "2 * len(self.back)");
}

#[test]
fn reads_and_writes_potential_terms() {
    let t = parse_potential_term(" 2 * len(self.back) ").unwrap();
    assert_eq!(t.coeff, 2);
    assert_eq!(t.path, "self.back");
    let u = parse_potential_term("len(x)").unwrap();
    assert_eq!(u.coeff, 1);
    assert_eq!(u.path, "x");
    assert!(parse_potential_term("").is_none());
    assert!(parse_potential_term("2*len(x").is_none());
    assert!(parse_potential_term("k*len(x)").is_none());
    assert_eq!(parse_potential_terms("len(a) + -3*len(b)").unwrap().len(), 2);
    assert!(parse_potential_terms("len(a) + junk").is_none());
    assert_eq!(format_potential_term(1, "p"), "len(p)");
    assert_eq!(format_potential_term(-1, "p"), "-len(p)");
    assert_eq!(format_potential_term(4, "p"), "4 * len(p)");
    assert_eq!(normalize_potential_expression("2*B+a*C"), "2 * B+a * C");
}

#[test]
fn formats_statuses_and_levels() {
    assert_eq!(format_status(&Status::Proven, PLAIN), "proven");
    assert_eq!(format_status(&Status::Undefined, COLOUR), "\x1b[31;1mundefined\x1b[0m");
    assert_eq!(format_diagnostic_level("warn", PLAIN), "warn");
    assert_eq!(format_diagnostic_level("other", COLOUR), "\x1b[1mother\x1b[0m");
    assert_eq!(format_status_badge(&Status::Partial, PLAIN), "[partial]");
    assert_eq!(ramort::frontend_cli::format_diagnostic_level("warn", PLAIN), "warn ");
    assert_eq!(ramort::frontend_cli::format_diagnostic_level("info", PLAIN), "info ");
    assert_eq!(ramort::frontend_cli::format_diagnostic_level("error", PLAIN), "error");
}

fn report_of(method: &str, status: Status) -> MethodReport {
    MethodReport {
        method: method.into(),
        status,
        amortized_bound: "O(1)".into(),
        potential: None,
        obligations: vec![],
        diagnostics: vec![],
        assumptions: vec![],
    }
}

#[test]
fn counts_statuses() {
    let report = AnalysisReport {
        file: "f.rs".into(),
        methods: vec![report_of("a", Status::Proven), report_of("b", Status::Partial), report_of("c", Status::Proven)],
    };
    let c = ReportCounts::from_report(&report);
    assert_eq!((c.proven, c.partial, c.undefined), (2, 1, 0));
}

#[test]
fn writes_the_human_report() {
    let mut m = report_of("main", Status::Partial);
    m.potential = Some("0".into());
    m.assumptions = vec!["because".into()];
    m.diagnostics = vec![Diagnostic::warn("careful".to_string())];
    let report = AnalysisReport { file: "ex.rs".into(), methods: vec![report_of("f", Status::Proven), m] };
    let lines = human_report_lines(&report, PLAIN);
    assert_eq!(
        lines,
        vec![
            "RAMORT analysis: ex.rs",
            "summary: 1 proven  1 partial  0 undefined",
            "",
            "[proven] f      O(1)",
            "  potential: none inferred",
            "",
            "[partial] main   O(1)",
            "  potential: zero",
            "  reason:    because",
            "  diagnostics",
            "    warn  careful",
        ]
    );
    let empty = AnalysisReport { file: "e.rs".into(), methods: vec![] };
    assert_eq!(
        human_report_lines(&empty, PLAIN),
        vec!["RAMORT analysis: e.rs", "summary: 0 proven  0 partial  0 undefined", "", "No functions were collected."]
    );
}

#[test]
fn analyzes_the_demo_queue() {
    let program = demo_program();
    assert_eq!(program.crate_name, "demo");
    assert_eq!(program.functions.len(), 2);
    let report = analyze_program("demo", &program, &SummaryDb::trusted_std(), &QueueSolver, &AnalysisOptions::default());
    assert_eq!(report.methods[0].method, "Queue::push");
    assert_eq!(report.methods[0].status, Status::Proven);
    assert_eq!(report.methods[1].method, "Queue::pop");
    assert_eq!(report.methods[1].status, Status::Proven);
    let lines = demo_report_lines(&report, PLAIN);
    assert_eq!(lines[0], "- Queue::push: O(1) with potential 2 * len(self.back) (proven)");
    assert_eq!(lines[1], "- Queue::pop: O(1) with potential 2 * len(self.back) (proven)");
    assert_eq!(lines.len(), 2);
}

#[test]
fn builds_compiler_arguments() {
    let user = vec!["--edition=2018".to_string(), "-Zfoo".to_string()];
    assert!(has_arg(&user, "--edition"));
    assert!(!has_arg(&user, "--crate-type"));
    let mut args = vec![];
    push_default_arg(&mut args, &user, "--edition", "2021");
    assert!(args.is_empty());
    push_default_arg(&mut args, &user, "--crate-type", "lib");
    assert_eq!(args, vec!["--crate-type", "lib"]);
    assert_eq!(
        compiler_args("a.rs", &user, Some("/sys".into())),
        vec!["ramort-rustc", "a.rs", "--crate-type", "lib", "--sysroot", "/sys", "--edition=2018", "-Zfoo"]
    );
    assert_eq!(last_path_segment("alloc::vec::Vec<T>"), "Vec");
    assert_eq!(last_path_segment("push"), "push");
    assert_eq!(last_path_segment("a::b::c<x::y>"), "y>");
    assert!(collect_mir_ir("a.rs", &user).unwrap_err().contains("rustc-private MIR collector"));
}

#[test]
fn plans_the_cargo_command() {
    let plan = CargoAnalyzePlan {
        package: Some("demo".into()),
        features: vec!["a".into(), "b".into()],
        target: None,
        rustc_args: vec![],
    };
    assert_eq!(
        plan.to_cargo_command(),
        vec!["cargo", "check", "--message-format=json", "-p", "demo", "--features", "a,b"]
    );
    let bare = CargoAnalyzePlan { package: None, features: vec![], target: Some("x86".into()), rustc_args: vec![] };
    assert_eq!(bare.to_cargo_command(), vec!["cargo", "check", "--message-format=json", "--target", "x86"]);
}

#[test]
fn symbolic_generic_costs() {
    let m = GenericCostModel::default_symbolic();
    assert_eq!(m.costs.len(), 3);
    assert_eq!(m.costs.get(&"Hash<T>".to_string()), Some(&LinExpr::var("K_hash_T", 1)));
}

#[test]
fn is_empty_branches_give_both_conditions() {
    let p = ResourcePath::self_field("front");
    let (t, f) = branch_conditions_from_is_empty(&p);
    assert_eq!(t, PathCondition::LenEqZero(p.clone()));
    assert_eq!(f, PathCondition::LenGtZero(p));
}

#[test]
fn interprocedural_summaries_read_back_what_was_written() {
    let mut db = InterprocSummaryDb::default();
    let s = FunctionSummary {
        function: "Queue::pop".into(),
        amortized_cost: LinExpr::one(),
        potential_delta: LinExpr::zero(),
        status: "proven".into(),
    };
    db.insert(s.clone());
    assert_eq!(db.get("Queue::pop"), Some(&s));
    assert_eq!(db.get("Queue::push"), None);
}

#[test]
fn alias_merge_is_commutative_and_neutral() {
    let a = AliasValue::Known(ResourcePath::self_field("a"));
    let b = AliasValue::Moved;
    assert_eq!(a.merge(&b), b.merge(&a));
    assert_eq!(a.merge(&AliasValue::NoInfo), a);
    assert_eq!(AliasValue::NoInfo.merge(&a), a);
    assert_eq!(a.merge(&a), a);
    assert_eq!(AliasValue::Moved.merge(&AliasValue::Moved), AliasValue::Moved);
}

#[test]
fn evaluates_expressions_and_renames_variables() {
    let e = LinExpr::constant(1).add(&LinExpr::var("x", 2)).add(&LinExpr::var("y", -3));
    let mut vals = KeyMap::new();
    vals.insert("x".to_string(), 5);
    assert_eq!(eval(&e, &vals), 11);
    let r = e.rename_vars(|n: &str| if n == "y" { "x".to_string() } else { n.to_string() });
    assert_eq!(r, LinExpr::constant(1).add(&LinExpr::var("x", -1)));
}

#[test]
fn potential_of_known_lengths() {
    let front = ResourcePath::self_field("front");
    let back = ResourcePath::self_field("back");
    let template = PotentialTemplate::from_paths(&[front.clone(), back.clone()]);
    let mut lens = KeyMap::new();
    lens.insert(back.clone(), LinExpr::constant(1).add(&LinExpr::var("B", 2)));
    let phi = template.phi_for_len_state(&lens);
    assert_eq!(phi, LinExpr::var("a_self_back*B", 2).add(&LinExpr::var("a_self_back", 1)));
}

#[test]
fn describes_trusted_summaries_with_their_effects() {
    let lines = SummaryDb::trusted_std().describe();
    assert_eq!(lines[0], "[TrustedStd] Vec::push cost=1 effects=[\"len(receiver) += 1\"]");
}

#[test]
fn exact_check_agrees_with_evaluation() {
    let lhs = LinExpr::constant(1).add(&LinExpr::var("B", 2));
    let rhs = LinExpr::constant(1).add(&LinExpr::var("B", 2)).add(&LinExpr::var("F", 1));
    let check = lhs.leq_under_nonnegative_vars(&rhs);
    assert!(check.proven);
    for b in 0..4 {
        for f in 0..4 {
            let mut vals = KeyMap::new();
            vals.insert("B".to_string(), b);
            vals.insert("F".to_string(), f);
            assert!(eval(&lhs, &vals) <= eval(&rhs, &vals));
        }
    }
    assert!(!rhs.leq_under_nonnegative_vars(&lhs).proven);
}

#[test]
fn drained_lengths_are_conserved() {
    let program = demo_program();
    let events = &program.functions[1].events;
    let front = ResourcePath::self_field("front");
    let back = ResourcePath::self_field("back");
    let mut before = AbstractState::default();
    before.set_len(front.clone(), LinExpr::var("F", 1));
    before.set_len(back.clone(), LinExpr::var("B", 1));
    let s = infer_draining_loop("d", events, &SummaryDb::default(), &before).unwrap();
    let total_before = before.len_of(&front).add(&before.len_of(&back));
    let total_after = s.after.len_of(&front).add(&s.after.len_of(&back));
    assert_eq!(total_before, total_after);
    assert_eq!(s.explanation, "draining loop: self.back.pop -> self.front.push");
}

fn single_obligation_certificate(coeff: i64) -> Certificate {
    let mut coefficients = KeyMap::new();
    coefficients.insert("c_push".to_string(), coeff);
    Certificate {
        function: "Queue::push".into(),
        potential: "len(self.back)".into(),
        coefficients,
        obligations: vec![Obligation {
            name: "push".into(),
            actual: LinExpr::one(),
            phi_before: LinExpr::var("B", 1),
            phi_after: LinExpr::var("B", 1),
            amortized: LinExpr::var("c_push", 1),
            explanation: "push".into(),
        }],
    }
}

#[test]
fn checked_certificate_reports_verdict_when_in_range() {
    let good = check_certificate_checked(&single_obligation_certificate(2)).expect("in range");
    assert!(good.verified);
    assert_eq!(good.function, "Queue::push");
    assert_eq!(good.obligations[0].obligation.amortized, LinExpr::constant(2));

    let bad = check_certificate_checked(&single_obligation_certificate(0)).expect("in range");
    assert!(!bad.verified);
    assert!(!bad.obligations[0].check.proven);
}

#[test]
fn checked_certificate_refuses_overflowing_coefficients() {
    let mut cert = single_obligation_certificate(i64::MAX);
    cert.obligations[0].amortized = LinExpr::var("c_push", 2);
    assert!(check_certificate_checked(&cert).is_none());
}

#[test]
fn raw_pointer_receiver_is_undefined_under_undefined_policy() {
    let policy = SoundnessPolicy {
        unsafe_policy: UnsafePolicy::Undefined,
        raw_pointer_policy: RawPointerPolicy::Undefined,
        interior_mutability_policy: InteriorMutabilityPolicy::SummaryRequired,
    };
    let mut call = match demo_program().functions[0].events[0].clone() {
        ramort::Event::Call(c) => c,
        _ => unreachable!(),
    };
    call.receiver_access = ramort::AccessKind::RawPointer;
    let (status, diags) = policy.inspect_events(&[ramort::Event::Call(call)]);
    assert_eq!(status, Status::Undefined);
    assert_eq!(diags[0].level, "error");
    assert_eq!(diags[0].message, "raw pointer receiver unsupported: alloc::vec::Vec::push");
}

#[test]
fn checked_evaluation_refuses_overflow() {
    let mut vals = KeyMap::new();
    vals.insert("B".to_string(), 3);
    let e = LinExpr::constant(1).add(&LinExpr::var("B", 2)).add(&LinExpr::var("F", 5));
    assert_eq!(ramort::lp::eval_checked(&e, &vals), Some(7));
    let mut big = KeyMap::new();
    big.insert("B".to_string(), i64::MAX);
    assert_eq!(ramort::lp::eval_checked(&e, &big), None);
}

#[test]
fn bundled_vec_summaries_have_their_effects() {
    let db = SummaryDb::trusted_std();
    let pop = db.summaries.iter().find(|s| s.type_contains.as_deref() == Some("Vec") && s.method == "pop").unwrap();
    assert_eq!(pop.effects, vec!["len(receiver) -= 1"]);
    assert_eq!(pop.cost, "1");
    assert_eq!(pop.condition.as_deref(), Some("old(len(receiver)) > 0"));
    let clear = db.summaries.iter().find(|s| s.type_contains.as_deref() == Some("Vec") && s.method == "clear").unwrap();
    assert_eq!(clear.cost, "len(receiver)");
    assert_eq!(clear.amortized_cost, None);
    assert_eq!(clear.effects, vec!["len(receiver) := 0"]);
}

#[test]
fn summary_line_takes_the_effects_text() {
    let db = SummaryDb::trusted_std();
    let line = ramort::summary::summary_line(&db.summaries[1], "[\"x\"]");
    assert_eq!(line, "[TrustedStd] Vec::pop cost=1 effects=[\"x\"]");
}

#[test]
fn written_expr_reads_back() {
    let e = LinExpr::constant(-7)
        .add(&LinExpr::var("n", -1))
        .add(&LinExpr::var("B", 12))
        .add(&LinExpr::var("a_self", -3))
        .add(&LinExpr::var("k", 1));
    let text = e.to_string();
    assert_eq!(text, "-7 + 12*B - 3*a_self + k - n");
    assert_eq!(ramort::parse_lin_expr(&text), Ok(e));
    let t = LinExpr::var("x", 2);
    assert_eq!(t.to_string(), "2*x");
    assert_eq!(ramort::parse_lin_expr(&t.to_string()), Ok(t));
    let z = LinExpr::zero();
    assert_eq!(ramort::parse_lin_expr(&z.to_string()), Ok(z));
}
