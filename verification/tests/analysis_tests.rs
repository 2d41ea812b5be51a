use ramort::ir::BranchEvent;
use ramort::{
    analyze_function, analyze_program, AccessKind, AnalysisOptions, CallEvent, ConstraintOp, Event, FunctionIr,
    FunctionSignature, IlpSolution, IntegerLinearSolver, KeyMap, LinExpr, LinearProblem, LoopRegion, ProgramIr,
    ResourcePath, SolverError, Status, SummaryDb,
};
use std::cell::RefCell;

#[derive(Default)]
struct CapturingSolver {
    problem: RefCell<Option<LinearProblem>>,
}

impl IntegerLinearSolver for CapturingSolver {
    fn solve(&self, problem: &LinearProblem) -> Result<IlpSolution, SolverError> {
        *self.problem.borrow_mut() = Some(problem.clone());
        let mut values = KeyMap::new();
        values.insert("a_self_front".to_string(), 0);
        values.insert("a_self_back".to_string(), 2);
        values.insert("c_push".to_string(), 0);
        values.insert("c_pop".to_string(), 1);
        values.insert("c_method".to_string(), 0);
        Ok(IlpSolution { objective: Some(3), values })
    }
}

struct FailingSolver;

impl IntegerLinearSolver for FailingSolver {
    fn solve(&self, _problem: &LinearProblem) -> Result<IlpSolution, SolverError> {
        Err(SolverError::Infeasible)
    }
}

fn scalar_call(block: usize, callee: &str, method: &str, args: &[&str]) -> Event {
    Event::Call(CallEvent {
        block,
        callee: callee.into(),
        method: method.into(),
        receiver: None,
        receiver_ty: None,
        receiver_access: AccessKind::Unknown,
        args: args.iter().map(|arg| (*arg).into()).collect(),
        is_trait_call: false,
        destination: None,
    })
}

fn vec_call(block: usize, method: &str, receiver: ResourcePath, receiver_access: AccessKind) -> Event {
    Event::Call(CallEvent {
        block,
        callee: format!("alloc::vec::Vec::{method}"),
        method: method.into(),
        receiver: Some(receiver),
        receiver_ty: Some("alloc::vec::Vec<T>".into()),
        receiver_access,
        args: vec![],
        is_trait_call: false,
        destination: None,
    })
}

fn queue_pop_ir() -> FunctionIr {
    let front = ResourcePath::self_field("front");
    let back = ResourcePath::self_field("back");
    FunctionIr {
        name: "pop".into(),
        owner_type: Some("Queue".into()),
        signature: FunctionSignature { self_access: Some(AccessKind::MutBorrow), generic_params: vec!["T".into()] },
        blocks: 4,
        loops: vec![LoopRegion { blocks: vec![1, 2] }],
        successors: vec![],
        events: vec![
            vec_call(0, "is_empty", front.clone(), AccessKind::SharedBorrow),
            vec_call(1, "pop", back, AccessKind::MutBorrow),
            vec_call(2, "push", front.clone(), AccessKind::MutBorrow),
            vec_call(3, "pop", front, AccessKind::MutBorrow),
        ],
    }
}

fn assert_constraint_rhs(problem: &LinearProblem, name: &str, rhs: LinExpr) {
    let constraint = problem
        .constraints
        .iter()
        .find(|c| c.name == name)
        .unwrap_or_else(|| panic!("missing constraint `{name}`"));
    assert_eq!(constraint.lhs, LinExpr::zero());
    assert_eq!(constraint.op, ConstraintOp::Le);
    assert_eq!(constraint.rhs, rhs);
}

#[test]
fn analyze_scalar_acyclic_function_is_constant() {
    let solver = CapturingSolver::default();
    let function = FunctionIr {
        name: "is_divisible_by".into(),
        owner_type: None,
        signature: FunctionSignature::default(),
        blocks: 5,
        loops: vec![],
        successors: vec![],
        events: vec![
            Event::Branch(BranchEvent { block: 0, condition: None, detail: "switchInt".into() }),
            Event::Return { block: 4 },
        ],
    };
    let report = analyze_function(&function, &SummaryDb::trusted_std(), &solver, &AnalysisOptions::default());
    assert_eq!(report.status, Status::Proven);
    assert_eq!(report.amortized_bound, "O(1)");
    assert_eq!(report.potential.as_deref(), Some("0"));
    assert!(report.obligations.is_empty());
    assert!(solver.problem.borrow().is_none());
}

#[test]
fn analyze_scalar_range_loop_uses_upper_bound() {
    let solver = CapturingSolver::default();
    let function = FunctionIr {
        name: "fizzbuzz_to".into(),
        owner_type: None,
        signature: FunctionSignature::default(),
        blocks: 8,
        loops: vec![LoopRegion { blocks: vec![3, 4, 5, 6] }],
        successors: vec![],
        events: vec![
            scalar_call(0, "std::ops::RangeInclusive::<Idx>::new", "new", &["const 1_u32", "n"]),
            scalar_call(1, "std::iter::IntoIterator::into_iter", "into_iter", &["move _3"]),
            scalar_call(3, "std::iter::Iterator::next", "next", &["copy _6"]),
            Event::Branch(BranchEvent { block: 4, condition: None, detail: "switchInt".into() }),
            scalar_call(6, "fizzbuzz", "fizzbuzz", &["n"]),
            Event::Return { block: 7 },
        ],
    };
    let report = analyze_function(&function, &SummaryDb::trusted_std(), &solver, &AnalysisOptions::default());
    assert_eq!(report.status, Status::Proven);
    assert_eq!(report.amortized_bound, "O(n)");
    assert_eq!(report.potential.as_deref(), Some("0"));
    assert!(report.obligations.is_empty());
    assert!(solver.problem.borrow().is_none());
}

#[test]
fn analyze_queue_pop_includes_and_verifies_transfer_obligation() {
    let solver = CapturingSolver::default();
    let report = analyze_function(&queue_pop_ir(), &SummaryDb::trusted_std(), &solver, &AnalysisOptions::default());
    assert_eq!(report.status, Status::Proven);
    assert_eq!(report.potential.as_deref(), Some("0*len(self.front) + 2*len(self.back)"));
    assert_eq!(
        report.obligations.iter().map(|o| o.obligation.name.as_str()).collect::<Vec<_>>(),
        vec!["pop-normal", "pop-transfer"]
    );
    assert!(report.obligations.iter().all(|o| o.check.proven));

    let problem = solver.problem.borrow().clone().unwrap();
    assert_constraint_rhs(
        &problem,
        "pop-transfer:constant",
        LinExpr::constant(-1).add(&LinExpr::var("a_self_front", 1)).add(&LinExpr::var("c_pop", 1)),
    );
    assert_constraint_rhs(
        &problem,
        "pop-transfer:coeff:B",
        LinExpr::constant(-2).add(&LinExpr::var("a_self_back", 1)).add(&LinExpr::var("a_self_front", -1)),
    );
    assert!(problem.constraints.iter().all(|c| c.name != "pop-transfer:coeff:F"));
}

#[test]
fn potential_problem_declares_template_and_amortized_variables() {
    let solver = CapturingSolver::default();
    let _ = analyze_function(&queue_pop_ir(), &SummaryDb::trusted_std(), &solver, &AnalysisOptions::default());
    let problem = solver.problem.borrow().clone().unwrap();
    assert_eq!(problem.name, "Queue::pop-potential");
    assert_eq!(
        problem.vars.iter().map(|v| v.name.as_str()).collect::<Vec<_>>(),
        vec!["a_self_back", "a_self_front", "c_push", "c_pop", "c_method"]
    );
    assert_eq!(
        problem.objective,
        LinExpr::var("a_self_back", 1)
            .add(&LinExpr::var("a_self_front", 1))
            .add(&LinExpr::var("c_push", 1))
            .add(&LinExpr::var("c_pop", 1))
    );
    assert!(problem.minimize);
}

struct PushSolver;

impl IntegerLinearSolver for PushSolver {
    fn solve(&self, _problem: &LinearProblem) -> Result<IlpSolution, SolverError> {
        let mut values = KeyMap::new();
        values.insert("a_self_back".to_string(), 2);
        values.insert("c_push".to_string(), 3);
        Ok(IlpSolution { objective: Some(5), values })
    }
}

#[test]
fn analyze_queue_push_proves_constant_amortized_cost() {
    let solver = PushSolver;
    let function = FunctionIr {
        name: "push".into(),
        owner_type: Some("Queue".into()),
        signature: FunctionSignature::default(),
        blocks: 1,
        loops: vec![],
        successors: vec![],
        events: vec![vec_call(0, "push", ResourcePath::self_field("back"), AccessKind::MutBorrow)],
    };
    let report = analyze_function(&function, &SummaryDb::trusted_std(), &solver, &AnalysisOptions::default());
    assert_eq!(report.method, "Queue::push");
    assert_eq!(report.status, Status::Proven);
    assert_eq!(report.amortized_bound, "O(1)");
    assert_eq!(report.potential.as_deref(), Some("2*len(self.back)"));
    assert_eq!(report.obligations.len(), 1);
    assert_eq!(report.obligations[0].obligation.name, "push");
    assert!(report.obligations[0].check.proven);
    assert_eq!(report.assumptions, vec!["potential inferred by integer LP; exact verification performed"]);
}

#[test]
fn failed_obligation_is_reported_with_its_slack() {
    let solver = CapturingSolver::default();
    let function = FunctionIr {
        name: "push".into(),
        owner_type: Some("Queue".into()),
        signature: FunctionSignature::default(),
        blocks: 1,
        loops: vec![],
        successors: vec![],
        events: vec![vec_call(0, "push", ResourcePath::self_field("back"), AccessKind::MutBorrow)],
    };
    let report = analyze_function(&function, &SummaryDb::trusted_std(), &solver, &AnalysisOptions::default());
    assert_eq!(report.status, Status::Undefined);
    assert!(!report.obligations[0].check.proven);
    assert_eq!(report.diagnostics.len(), 1);
    assert_eq!(report.diagnostics[0].level, "error");
    assert_eq!(report.diagnostics[0].message, "failed obligation `push`; slack rhs-lhs = -3");
}

#[test]
fn solver_failure_is_reported_undefined() {
    let report = analyze_function(&queue_pop_ir(), &SummaryDb::trusted_std(), &FailingSolver, &AnalysisOptions::default());
    assert_eq!(report.status, Status::Undefined);
    assert_eq!(report.amortized_bound, "O(?)");
    assert_eq!(report.potential, None);
    assert_eq!(report.diagnostics.len(), 1);
    assert_eq!(report.diagnostics[0].level, "error");
    assert_eq!(report.diagnostics[0].message, "solver failed: infeasible");
}

#[test]
fn unsafe_event_makes_scalar_function_undefined() {
    let solver = CapturingSolver::default();
    let function = FunctionIr {
        name: "raw".into(),
        owner_type: None,
        signature: FunctionSignature::default(),
        blocks: 1,
        loops: vec![],
        successors: vec![],
        events: vec![Event::Unsafe { block: 0, detail: "deref".into() }],
    };
    let report = analyze_function(&function, &SummaryDb::trusted_std(), &solver, &AnalysisOptions::default());
    assert_eq!(report.status, Status::Undefined);
    assert_eq!(report.amortized_bound, "O(?)");
    assert_eq!(report.diagnostics[0].level, "error");
    assert_eq!(report.diagnostics[0].message, "unsafe unsupported: deref");
}

#[test]
fn unknown_event_blocks_scalar_proof() {
    let solver = CapturingSolver::default();
    let function = FunctionIr {
        name: "count_time".into(),
        owner_type: None,
        signature: FunctionSignature::default(),
        blocks: 1,
        loops: vec![],
        successors: vec![],
        events: vec![Event::Unknown { block: 0, detail: "unresolved call terminator".into() }],
    };
    let report = analyze_function(&function, &SummaryDb::trusted_std(), &solver, &AnalysisOptions::default());
    assert_eq!(report.status, Status::Partial);
    assert_eq!(report.amortized_bound, "O(?)");
    assert_eq!(report.diagnostics[0].level, "warn");
    assert_eq!(report.diagnostics[0].message, "unknown MIR event prevents scalar proof: unresolved call terminator");
}

#[test]
fn resources_without_queue_shape_are_partial() {
    let solver = CapturingSolver::default();
    let function = FunctionIr {
        name: "len_of".into(),
        owner_type: None,
        signature: FunctionSignature::default(),
        blocks: 1,
        loops: vec![],
        successors: vec![],
        events: vec![vec_call(0, "len", ResourcePath::self_field("items"), AccessKind::SharedBorrow)],
    };
    let report = analyze_function(&function, &SummaryDb::trusted_std(), &solver, &AnalysisOptions::default());
    assert_eq!(report.status, Status::Partial);
    assert_eq!(report.amortized_bound, "O(?)");
    assert_eq!(report.diagnostics.last().unwrap().message, "no generic transition proof found; reporting partial/undefined");
    assert!(solver.problem.borrow().is_none());
}

#[test]
fn recursive_function_is_solved_by_recurrence_in_second_pass() {
    let solver = CapturingSolver::default();
    let partition = FunctionIr {
        name: "partition".into(),
        owner_type: None,
        signature: FunctionSignature::default(),
        blocks: 4,
        loops: vec![LoopRegion { blocks: vec![1, 2] }],
        successors: vec![],
        events: vec![scalar_call(0, "std::ops::Range::<Idx>::new", "new", &["const 0_usize", "move _2"])],
    };
    let quicksort = FunctionIr {
        name: "quicksort".into(),
        owner_type: None,
        signature: FunctionSignature::default(),
        blocks: 4,
        loops: vec![],
        successors: vec![],
        events: vec![
            scalar_call(0, "partition", "partition", &["move _1"]),
            scalar_call(1, "quicksort", "quicksort", &["move _3"]),
            scalar_call(2, "quicksort", "quicksort", &["move _4"]),
        ],
    };
    let program = ProgramIr { crate_name: "qs".into(), functions: vec![partition, quicksort] };
    let report = analyze_program("qs.rs", &program, &SummaryDb::trusted_std(), &solver, &AnalysisOptions::default());
    assert_eq!(report.file, "qs.rs");
    assert_eq!(report.methods[0].status, Status::Proven);
    assert_eq!(report.methods[0].amortized_bound, "O(arg2)");
    let qs = &report.methods[1];
    assert_eq!(qs.status, Status::Partial);
    assert_eq!(qs.amortized_bound, "O(n log n)");
    assert_eq!(
        qs.assumptions,
        vec![
            "extracted recurrence T(n) = 2*T(n/2) + O(n) (solved by Master theorem case 2 (a=2, b=2, log_b(a)=1): f(n) = Θ(n^1))",
            "subproblems assumed balanced (split sizes treated as n/2); not verified by dataflow",
            "non-recursive cost f(n) inferred from `partition` (O(arg2))",
        ]
    );
    assert_eq!(qs.diagnostics.len(), 1);
    assert_eq!(qs.diagnostics[0].level, "warn");
}

#[test]
fn single_recursive_call_gives_linear_recurrence() {
    let solver = CapturingSolver::default();
    let power = FunctionIr {
        name: "power_recursive".into(),
        owner_type: None,
        signature: FunctionSignature::default(),
        blocks: 3,
        loops: vec![],
        successors: vec![],
        events: vec![scalar_call(1, "power_recursive", "power_recursive", &["move _3"])],
    };
    let program = ProgramIr { crate_name: "pow".into(), functions: vec![power] };
    let report = analyze_program("pow.rs", &program, &SummaryDb::trusted_std(), &solver, &AnalysisOptions::default());
    let m = &report.methods[0];
    assert_eq!(m.status, Status::Partial);
    assert_eq!(m.amortized_bound, "O(n)");
    assert_eq!(
        m.assumptions,
        vec!["extracted recurrence T(n) = 1*T(n-1) + O(1) (solved by linear recurrence T(n) = T(n−1) + f(n) ⇒ O(n · f(n)))"]
    );
    assert!(m.diagnostics.is_empty());
}

#[test]
fn halving_loop_with_constant_body_is_proven_logarithmic() {
    let solver = CapturingSolver::default();
    let function = FunctionIr {
        name: "power_log".into(),
        owner_type: None,
        signature: FunctionSignature::default(),
        blocks: 4,
        loops: vec![LoopRegion { blocks: vec![1, 2] }],
        successors: vec![vec![1], vec![2, 3], vec![1], vec![]],
        events: vec![
            Event::Branch(BranchEvent { block: 1, condition: None, detail: "while".into() }),
            Event::Binop {
                block: 2,
                op: "Div".into(),
                target: Some("degree".into()),
                lhs: Some("degree".into()),
                rhs_const: Some(2),
            },
            Event::Return { block: 3 },
        ],
    };
    let report = analyze_function(&function, &SummaryDb::trusted_std(), &solver, &AnalysisOptions::default());
    assert_eq!(report.status, Status::Proven);
    assert_eq!(report.amortized_bound, "O(log n)");
    assert_eq!(report.potential, None);
    assert_eq!(
        report.assumptions,
        vec![
            "ranking function `degree` proves termination via path-sensitive logarithmic decrease",
            "`degree` halved on every back-edge path",
            "loop body has no Call events ⇒ constant cost per iteration",
        ]
    );
}

#[test]
fn decrementing_loop_with_calls_is_partial_linear() {
    let solver = CapturingSolver::default();
    let function = FunctionIr {
        name: "countdown".into(),
        owner_type: None,
        signature: FunctionSignature::default(),
        blocks: 4,
        loops: vec![LoopRegion { blocks: vec![1, 2] }],
        successors: vec![vec![1], vec![2, 3], vec![1], vec![]],
        events: vec![
            scalar_call(2, "crate::tick", "tick", &[]),
            Event::Binop { block: 2, op: "Sub".into(), target: Some("n".into()), lhs: Some("n".into()), rhs_const: Some(1) },
        ],
    };
    let report = analyze_function(&function, &SummaryDb::trusted_std(), &solver, &AnalysisOptions::default());
    assert_eq!(report.status, Status::Partial);
    assert_eq!(report.amortized_bound, "O(n)");
    assert_eq!(report.assumptions[1], "`n` decremented on every back-edge path");
}

#[test]
fn failed_obligation_report_carries_no_bound() {
    let solver = CapturingSolver::default();
    let function = FunctionIr {
        name: "push".into(),
        owner_type: Some("Queue".into()),
        signature: FunctionSignature::default(),
        blocks: 1,
        loops: vec![],
        successors: vec![],
        events: vec![vec_call(0, "push", ResourcePath::self_field("back"), AccessKind::MutBorrow)],
    };
    let report = analyze_function(&function, &SummaryDb::trusted_std(), &solver, &AnalysisOptions::default());
    assert_eq!(report.status, Status::Undefined);
    assert_eq!(report.amortized_bound, "O(?)");
}
