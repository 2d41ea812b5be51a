use ramort::alias_field_sensitive::{merge_states, set_alias};
use ramort::alias_model::{AliasValue, BorrowKind, FieldSensitiveAliasState, PlaceKey};
use ramort::constraints::coeff_constraints_for_universal_leq;
use ramort::ir::BranchEvent;
use ramort::loop_summary::infer_draining_loop;
use ramort::lp::{check_declared, LinearConstraint};
use ramort::ranking::{find_ranking_function, RankingClass};
use ramort::recurrence::integer_log;
use ramort::transition::AbstractState;
use ramort::{
    check_certificate, AccessKind, BoundClass, BranchShape, CallEvent, Certificate, ConstraintOp, Event, FunctionIr,
    FunctionSignature, KeyMap, LinExpr, LinearProblem, LoopRegion, Obligation, Recurrence, ResourcePath, SolveError,
    SolveRule, SolverError, SummaryDb,
};

fn values(entries: &[(&str, i64)]) -> KeyMap<String, i64> {
    let mut m = KeyMap::new();
    for (k, v) in entries {
        m.insert((*k).to_string(), *v);
    }
    m
}

#[test]
fn verifies_queue_pop_certificate_with_encoded_product_terms() {
    let cert = Certificate {
        function: "Queue::pop".into(),
        potential: "2*len(self.back)".into(),
        coefficients: values(&[("a_self_front", 0), ("a_self_back", 2), ("c_pop", 1)]),
        obligations: vec![
            Obligation {
                name: "pop-normal".into(),
                actual: LinExpr::one(),
                phi_before: LinExpr::var("a_self_front*F", 1).add(&LinExpr::var("a_self_back*B", 1)),
                phi_after: LinExpr::var("a_self_front*F", 1).add(&LinExpr::var("a_self_back*B", 1)),
                amortized: LinExpr::var("c_pop", 1),
                explanation: "normal branch: front.pop".into(),
            },
            Obligation {
                name: "pop-transfer".into(),
                actual: LinExpr::one().add(&LinExpr::var("B", 2)),
                phi_before: LinExpr::var("a_self_front*F", 1).add(&LinExpr::var("a_self_back*B", 1)),
                phi_after: LinExpr::var("a_self_front*F", 1)
                    .add(&LinExpr::var("a_self_front*B", 1))
                    .add(&LinExpr::var("a_self_front", -1)),
                amortized: LinExpr::var("c_pop", 1),
                explanation: "draining loop back->front".into(),
            },
        ],
    };

    let check = check_certificate(&cert);

    assert!(check.verified);
    assert_eq!(check.obligations.len(), 2);
    assert!(check.obligations.iter().all(|o| o.check.proven));
    assert_eq!(check.obligations[1].obligation.phi_before, LinExpr::var("B", 2));
    assert_eq!(check.obligations[1].obligation.phi_after, LinExpr::zero());
}

#[test]
fn groups_solver_and_program_coefficients_by_slack_dimension() {
    let lhs = LinExpr::one()
        .add(&LinExpr::var("B", 2))
        .add(&LinExpr::var("a_self_front*F", 1))
        .add(&LinExpr::var("a_self_front*B", 1))
        .add(&LinExpr::var("a_self_front", -1));
    let rhs = LinExpr::var("c_pop", 1).add(&LinExpr::var("a_self_front*F", 1)).add(&LinExpr::var("a_self_back*B", 1));

    let constraints = coeff_constraints_for_universal_leq("pop-transfer", &lhs, &rhs);

    assert_eq!(constraints.len(), 2);
    assert_eq!(
        constraints[0],
        LinearConstraint {
            name: "pop-transfer:constant".into(),
            lhs: LinExpr::zero(),
            op: ConstraintOp::Le,
            rhs: LinExpr::constant(-1).add(&LinExpr::var("a_self_front", 1)).add(&LinExpr::var("c_pop", 1)),
        }
    );
    assert_eq!(
        constraints[1],
        LinearConstraint {
            name: "pop-transfer:coeff:B".into(),
            lhs: LinExpr::zero(),
            op: ConstraintOp::Le,
            rhs: LinExpr::constant(-2).add(&LinExpr::var("a_self_back", 1)).add(&LinExpr::var("a_self_front", -1)),
        }
    );
}

#[test]
fn substitute_expands_encoded_product_terms() {
    let expr = LinExpr::constant(1).add(&LinExpr::var("a_self_back*B", 2)).add(&LinExpr::var("a_self_back", 3));
    let vals = values(&[("a_self_back", 4)]);
    assert_eq!(expr.substitute(&vals), LinExpr::constant(13).add(&LinExpr::var("B", 8)));
}

fn pop_push_event(block: usize, method: &str, receiver: &ResourcePath) -> Event {
    Event::Call(CallEvent {
        block,
        callee: format!("alloc::vec::Vec::{method}"),
        method: method.into(),
        receiver: Some(receiver.clone()),
        receiver_ty: None,
        receiver_access: AccessKind::MutBorrow,
        args: vec![],
        is_trait_call: false,
        destination: None,
    })
}

#[test]
fn ignores_later_pop_after_draining_push() {
    let front = ResourcePath::self_field("front");
    let back = ResourcePath::self_field("back");
    let events = vec![
        pop_push_event(1, "pop", &back),
        pop_push_event(2, "push", &front),
        pop_push_event(3, "pop", &front),
    ];
    let mut before = AbstractState::default();
    before.set_len(front.clone(), LinExpr::var("F", 1));
    before.set_len(back.clone(), LinExpr::var("B", 1));

    let summary = infer_draining_loop("drain", &events, &SummaryDb::default(), &before).unwrap();

    assert_eq!(summary.cost, LinExpr::var("B", 2));
    assert_eq!(summary.after.len_of(&back), LinExpr::zero());
    assert_eq!(summary.after.len_of(&front), LinExpr::var("F", 1).add(&LinExpr::var("B", 1)));
}

fn binop(block: usize, op: &str, target: &str, rhs_const: Option<i64>) -> Event {
    Event::Binop { block, op: op.into(), target: Some(target.into()), lhs: Some(target.into()), rhs_const }
}

fn guard() -> Event {
    Event::Branch(BranchEvent { block: 0, condition: None, detail: "guard".into() })
}

fn fn_with(blocks: usize, events: Vec<Event>, successors: Vec<Vec<usize>>) -> FunctionIr {
    FunctionIr {
        name: "test".into(),
        owner_type: None,
        signature: FunctionSignature::default(),
        blocks,
        events,
        loops: vec![],
        successors,
    }
}

#[test]
fn linear_ranking_on_decrement_loop() {
    let f = fn_with(3, vec![guard(), binop(1, "Sub", "V", Some(1))], vec![vec![1, 2], vec![0], vec![]]);
    let region = LoopRegion { blocks: vec![0, 1] };
    let r = find_ranking_function(&f, &region).expect("linear ranking found");
    assert_eq!(r.variable, "V");
    assert_eq!(r.class, RankingClass::Linear);
}

#[test]
fn log_ranking_on_halving_loop() {
    let f = fn_with(3, vec![guard(), binop(1, "Div", "V", Some(2))], vec![vec![1, 2], vec![0], vec![]]);
    let region = LoopRegion { blocks: vec![0, 1] };
    let r = find_ranking_function(&f, &region).expect("log ranking found");
    assert_eq!(r.class, RankingClass::Logarithmic);
}

#[test]
fn rejects_when_one_branch_does_not_decrement() {
    let f = fn_with(
        4,
        vec![guard(), binop(1, "Sub", "V", Some(1))],
        vec![vec![1, 2, 3], vec![0], vec![0], vec![]],
    );
    let region = LoopRegion { blocks: vec![0, 1, 2] };
    assert!(find_ranking_function(&f, &region).is_none());
}

#[test]
fn power_log_shape_finds_log_ranking() {
    let f = fn_with(
        4,
        vec![guard(), binop(1, "Sub", "V", Some(1)), binop(2, "Div", "V", Some(2))],
        vec![vec![1, 2, 3], vec![0], vec![0], vec![]],
    );
    let region = LoopRegion { blocks: vec![0, 1, 2] };
    let r = find_ranking_function(&f, &region).expect("ranking found");
    assert_eq!(r.class, RankingClass::Logarithmic);
}

#[test]
fn rejects_when_var_is_incremented() {
    let f = fn_with(
        3,
        vec![guard(), binop(1, "Sub", "V", Some(1)), binop(1, "Add", "V", Some(2))],
        vec![vec![1, 2], vec![0], vec![]],
    );
    let region = LoopRegion { blocks: vec![0, 1] };
    assert!(find_ranking_function(&f, &region).is_none());
}

#[test]
fn master_case2_quicksort_shape() {
    let r = Recurrence { branches: 2, shape: BranchShape::Divide(2), non_recursive_cost: BoundClass::Linear };
    let s = r.solve().unwrap();
    assert_eq!(s.bound, BoundClass::NLogN);
    assert!(matches!(s.rule, SolveRule::MasterCase2 { a: 2, b: 2, log_b_a: 1 }));
}

#[test]
fn master_case2_binary_search() {
    let r = Recurrence { branches: 1, shape: BranchShape::Divide(2), non_recursive_cost: BoundClass::Constant };
    let s = r.solve().unwrap();
    assert_eq!(s.bound, BoundClass::Logarithmic);
}

#[test]
fn master_case1_more_subproblems_than_work() {
    let r = Recurrence { branches: 4, shape: BranchShape::Divide(2), non_recursive_cost: BoundClass::Linear };
    let s = r.solve().unwrap();
    assert_eq!(s.bound, BoundClass::Polynomial(2));
    assert!(matches!(s.rule, SolveRule::MasterCase1 { .. }));
}

#[test]
fn master_case3_work_dominates() {
    let r =
        Recurrence { branches: 2, shape: BranchShape::Divide(2), non_recursive_cost: BoundClass::Polynomial(2) };
    let s = r.solve().unwrap();
    assert_eq!(s.bound, BoundClass::Polynomial(2));
    assert!(matches!(s.rule, SolveRule::MasterCase3 { .. }));
}

#[test]
fn linear_recurrence_constant_work() {
    let r = Recurrence { branches: 1, shape: BranchShape::Decrement(1), non_recursive_cost: BoundClass::Constant };
    let s = r.solve().unwrap();
    assert_eq!(s.bound, BoundClass::Linear);
}

#[test]
fn linear_recurrence_linear_work_gives_quadratic() {
    let r = Recurrence { branches: 1, shape: BranchShape::Decrement(1), non_recursive_cost: BoundClass::Linear };
    let s = r.solve().unwrap();
    assert_eq!(s.bound, BoundClass::Polynomial(2));
}

#[test]
fn rejects_non_integer_log() {
    let r = Recurrence { branches: 3, shape: BranchShape::Divide(2), non_recursive_cost: BoundClass::Linear };
    assert!(matches!(r.solve(), Err(SolveError::NonIntegerExponent)));
}

#[test]
fn integer_log_basics() {
    assert_eq!(integer_log(2, 2), Some(1));
    assert_eq!(integer_log(4, 2), Some(2));
    assert_eq!(integer_log(8, 2), Some(3));
    assert_eq!(integer_log(1, 2), Some(0));
    assert_eq!(integer_log(3, 2), None);
    assert_eq!(integer_log(9, 3), Some(2));
}

fn key(local: &str, projection: &[&str]) -> PlaceKey {
    PlaceKey { local: local.into(), projection: projection.iter().map(|p| (*p).into()).collect() }
}

#[test]
fn set_alias_records_field_sensitive_place_value() {
    let mut state = FieldSensitiveAliasState::default();
    let place = key("_1", &["back"]);
    let target = ResourcePath::self_field("back");

    set_alias(&mut state, place.clone(), AliasValue::BorrowOf(target.clone(), BorrowKind::Mut));

    assert_eq!(state.values.get(&place), Some(&AliasValue::BorrowOf(target, BorrowKind::Mut)));
}

#[test]
fn merge_states_keeps_matching_aliases_and_includes_one_sided_aliases() {
    let front = key("_1", &["front"]);
    let back = key("_1", &["back"]);
    let shared = AliasValue::Known(ResourcePath::self_field("front"));
    let one_sided = AliasValue::Known(ResourcePath::self_field("back"));

    let mut left = FieldSensitiveAliasState::default();
    set_alias(&mut left, front.clone(), shared.clone());

    let mut right = FieldSensitiveAliasState::default();
    set_alias(&mut right, front.clone(), shared.clone());
    set_alias(&mut right, back.clone(), one_sided.clone());

    let merged = merge_states(&left, &right);

    assert_eq!(merged.values.get(&front), Some(&shared));
    assert_eq!(merged.values.get(&back), Some(&one_sided));
}

#[test]
fn merge_states_marks_conflicting_aliases_unknown() {
    let place = key("_1", &["target"]);

    let mut left = FieldSensitiveAliasState::default();
    set_alias(&mut left, place.clone(), AliasValue::Known(ResourcePath::self_field("front")));

    let mut right = FieldSensitiveAliasState::default();
    set_alias(&mut right, place.clone(), AliasValue::Known(ResourcePath::self_field("back")));

    let merged = merge_states(&left, &right);

    assert_eq!(merged.values.get(&place), Some(&AliasValue::Unknown));
}

#[test]
fn rejects_objectives_that_reference_undeclared_variables() {
    let mut problem = LinearProblem::new("missing_var");
    problem.objective = LinExpr::var("missing", 1);

    let err = check_declared(&problem).expect_err("undeclared objective variables should be rejected");

    match err {
        SolverError::Unsupported(message) => {
            assert!(message.contains("undeclared solver var `missing`"));
        }
        other => panic!("expected unsupported-var error, got {other:?}"),
    }
}

#[test]
fn master_case2_with_log_work_leaves_the_classes() {
    let halving = Recurrence { branches: 1, shape: BranchShape::Divide(2), non_recursive_cost: BoundClass::Logarithmic };
    assert!(matches!(halving.solve(), Err(SolveError::OutOfClass)));
    let splitting = Recurrence { branches: 2, shape: BranchShape::Divide(2), non_recursive_cost: BoundClass::NLogN };
    assert!(matches!(splitting.solve(), Err(SolveError::OutOfClass)));
}
