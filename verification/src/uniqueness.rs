//! A report is determined, by value, by the function it describes, where
//! the solver answers problems of the same value alike.
use vstd::prelude::*;
use crate::expr::{lemma_normal_form_unique, lemma_string_key, same_expr, LinExpr};
use crate::keymap::{
    lemma_same_entries_map, entries_have_key, lemma_path_lt_irrefl, lemma_path_lt_trans, path_lt, same_keys, sorted_entries, KeyMap, TextKey,
};
use crate::text::{lemma_seq_lt_asym, lemma_seq_lt_irrefl, seq_lt};
use crate::analysis::{
    expected_obligations, first_pass, function_report, program_entry, scalar_outcome, second_pass, solver_report, warn_text,
    all_hold, potential_part, potential_text, report_is, solution_report, ReportText,
    expr_sum, obligation_is, obligations_are, path_views, posed_problem, potential_problem_is, receivers_upto, template_for,
    template_names, ObligationSpec, Sum,
};
use crate::ir::{lemma_same_view_same_text, FunctionIr, ResourcePath};
use crate::obligation::{coeff_name, PotentialTemplate};
use crate::constraints::{
    flatten_parts, obligation_constraints, coeff_constraint_name, constant_constraint, constraint_of_some_var, has_program_var, is_constant_term, leq_constraints,
    nonneg_form, program_coeff, program_constant, program_constraint, program_var_of, slack_coeff, star_join,
};
use crate::expr::weight_of;
use crate::lp::{Bound, ConstraintOp, LinearConstraint, LinearProblem, VarKind, VariableDecl};
use crate::obligation::{all_candidate_fits, expr_value, subst_value, verified_as, Obligation, VerifiedObligation};
use crate::lp::{IlpSolution, IntegerLinearSolver, SolverError};
use crate::report::{MethodReport, Status};
use crate::policy::{diag_texts, policy_trace, DiagText, SoundnessPolicy};
use crate::diagnostics::failure_texts;
use crate::text::texts;


verus! {

/// An expression by value: its constant and its stored terms, by name and
/// coefficient, in order.
pub open spec fn expr_view(e: LinExpr) -> (int, Seq<(Seq<char>, int)>) {
    (e.constant as int, entry_views(e.terms.entries()))
}

/// Stored terms by name and coefficient.
pub open spec fn entry_views(es: Seq<(String, i64)>) -> Seq<(Seq<char>, int)> {
    es.map_values(|t: (String, i64)| (t.0@, t.1 as int))
}

/// Expressions that are the same entry for entry have the same view.
pub proof fn lemma_same_expr_view(a: LinExpr, b: LinExpr)
    requires
        same_expr(a, b),
    ensures
        expr_view(a) == expr_view(b),
{
    let x = a.terms.entries();
    let y = b.terms.entries();
    assert forall|i: int| 0 <= i < x.len() implies #[trigger] entry_views(x)[i] == entry_views(y)[i] by {
        assert(x[i].0.key_view() == y[i].0.key_view());
        lemma_string_key(x[i].0);
        lemma_string_key(y[i].0);
    }
    assert(entry_views(x) =~= entry_views(y));
}

/// Expressions stored without zero terms, with the same constant and
/// coefficients, have the same view.
pub proof fn lemma_normal_view(a: LinExpr, b: LinExpr)
    requires
        a.wf(),
        b.wf(),
        a.normalized(),
        b.normalized(),
        a.constant == b.constant,
        forall|n: Seq<char>| #[trigger] a.coeff_of(n) == b.coeff_of(n),
    ensures
        expr_view(a) == expr_view(b),
{
    lemma_normal_form_unique(a, b);
    lemma_same_expr_view(a, b);
}

/// Substitution reads an expression and the values only by value.
pub proof fn lemma_subst_by_view(e1: LinExpr, e2: LinExpr, v1: KeyMap<String, i64>, v2: KeyMap<String, i64>, k: nat)
    requires
        expr_view(e1) == expr_view(e2),
        v1@ == v2@,
    ensures
        e1.subst_state(v1, k) == e2.subst_state(v2, k),
        e1.subst_fits(v1, k) == e2.subst_fits(v2, k),
    decreases k,
{
    assert(e1.terms.entries().len() == entry_views(e1.terms.entries()).len());
    assert(e2.terms.entries().len() == entry_views(e2.terms.entries()).len());
    if k > 0 && k <= e1.terms.entries().len() {
        lemma_subst_by_view(e1, e2, v1, v2, (k - 1) as nat);
        assert(entry_views(e1.terms.entries())[k - 1] == entry_views(e2.terms.entries())[k - 1]);
    }
}

/// The written form of an expression depends on its view alone.
pub proof fn lemma_text_by_view(e1: LinExpr, e2: LinExpr)
    requires
        expr_view(e1) == expr_view(e2),
    ensures
        e1.text() == e2.text(),
{
    lemma_terms_text_by_view(e1.terms.entries(), e2.terms.entries());
    assert(e1.terms.entries().len() == entry_views(e1.terms.entries()).len());
    assert(e1.text_parts() == e2.text_parts());
}

proof fn lemma_terms_text_by_view(a: Seq<(String, i64)>, b: Seq<(String, i64)>)
    requires
        entry_views(a) == entry_views(b),
    ensures
        crate::expr::terms_text(a) == crate::expr::terms_text(b),
    decreases a.len(),
{
    assert(a.len() == entry_views(a).len());
    assert(b.len() == entry_views(b).len());
    if a.len() > 0 {
        assert(entry_views(a.drop_last()) =~= entry_views(a).drop_last());
        assert(entry_views(b.drop_last()) =~= entry_views(b).drop_last());
        lemma_terms_text_by_view(a.drop_last(), b.drop_last());
        assert(entry_views(a)[a.len() - 1] == entry_views(b)[b.len() - 1]);
    }
}

/// Strictly increasing texts.
pub open spec fn names_sorted(s: Seq<Seq<char>>) -> bool {
    forall|i: int, j: int| 0 <= i < j < s.len() ==> seq_lt(#[trigger] s[i], #[trigger] s[j])
}

/// Strictly increasing texts are determined by which texts they hold.
pub proof fn lemma_sorted_names_unique(a: Seq<Seq<char>>, b: Seq<Seq<char>>)
    requires
        names_sorted(a),
        names_sorted(b),
        forall|x: Seq<char>| #[trigger] a.contains(x) == b.contains(x),
    ensures
        a == b,
    decreases a.len(),
{
    if a.len() == 0 {
        assert(b.len() == 0) by {
            if b.len() > 0 {
                assert(b.contains(b[0]));
                assert(a.contains(b[0]));
            }
        }
        assert(a =~= b);
    } else {
        assert(a.contains(a[0]));
        assert(b.contains(a[0]));
        assert(b.len() > 0);
        assert(b.contains(b[0]));
        assert(a.contains(b[0]));
        let i = choose|i: int| 0 <= i < b.len() && b[i] == a[0];
        let j = choose|j: int| 0 <= j < a.len() && a[j] == b[0];
        lemma_seq_lt_irrefl(a[0]);
        if i > 0 {
            assert(seq_lt(b[0], b[i]));
            if j > 0 {
                assert(seq_lt(a[0], a[j]));
                lemma_seq_lt_asym(a[0], b[0]);
            }
        }
        assert(b[0] == a[0]);
        let a2 = a.drop_first();
        let b2 = b.drop_first();
        assert forall|i: int, j: int| 0 <= i < j < a2.len() implies seq_lt(#[trigger] a2[i], #[trigger] a2[j]) by {
            assert(a2[i] == a[i + 1] && a2[j] == a[j + 1]);
        }
        assert forall|i: int, j: int| 0 <= i < j < b2.len() implies seq_lt(#[trigger] b2[i], #[trigger] b2[j]) by {
            assert(b2[i] == b[i + 1] && b2[j] == b[j + 1]);
        }
        assert forall|x: Seq<char>| #[trigger] a2.contains(x) == b2.contains(x) by {
            if a2.contains(x) {
                let t = choose|t: int| 0 <= t < a2.len() && a2[t] == x;
                assert(a.contains(x));
                assert(seq_lt(a[0], a[t + 1]));
                assert(x != a[0]);
                let u = choose|u: int| 0 <= u < b.len() && b[u] == x;
                assert(u != 0);
                assert(b2[u - 1] == x);
            }
            if b2.contains(x) {
                let t = choose|t: int| 0 <= t < b2.len() && b2[t] == x;
                assert(b[t + 1] == x);
                assert(b.contains(x));
                assert(a.contains(x));
                assert(seq_lt(b[0], b[t + 1]));
                assert(x != b[0]);
                let u = choose|u: int| 0 <= u < a.len() && a[u] == x;
                assert(u != 0);
                assert(a2[u - 1] == x);
            }
        }
        lemma_sorted_names_unique(a2, b2);
        assert(a =~= b) by {
            assert forall|t: int| 0 <= t < a.len() implies a[t] == b[t] by {
                if t > 0 {
                    assert(a2[t - 1] == b2[t - 1]);
                }
            }
        }
    }
}

/// Sorted entries holding the same keys hold them in the same places.
pub proof fn lemma_sorted_keys_unique<K: TextKey, V, W>(a: Seq<(K, V)>, b: Seq<(K, W)>)
    requires
        sorted_entries(a),
        sorted_entries(b),
        forall|k: Seq<Seq<char>>| #[trigger] entries_have_key(a, k) == entries_have_key(b, k),
    ensures
        same_keys(a, b),
    decreases a.len(),
{
    if a.len() == 0 {
        assert(b.len() == 0) by {
            if b.len() > 0 {
                assert(entries_have_key(b, b[0].0.key_view()));
                assert(entries_have_key(a, b[0].0.key_view()));
            }
        }
    } else {
        let k0 = a[0].0.key_view();
        assert(entries_have_key(a, k0));
        assert(entries_have_key(b, k0));
        assert(b.len() > 0);
        let m0 = b[0].0.key_view();
        assert(entries_have_key(b, m0));
        assert(entries_have_key(a, m0));
        let i = choose|i: int| 0 <= i < b.len() && #[trigger] b[i].0.key_view() == k0;
        let j = choose|j: int| 0 <= j < a.len() && #[trigger] a[j].0.key_view() == m0;
        lemma_path_lt_irrefl(k0);
        if i > 0 {
            assert(path_lt(b[0].0.key_view(), b[i].0.key_view()));
            if j > 0 {
                assert(path_lt(a[0].0.key_view(), a[j].0.key_view()));
                lemma_path_lt_trans(k0, m0, k0);
            }
        }
        assert(m0 == k0);
        let a2 = a.drop_first();
        let b2 = b.drop_first();
        assert forall|i: int, j: int| 0 <= i < j < a2.len() implies path_lt(#[trigger] a2[i].0.key_view(), #[trigger] a2[j].0.key_view()) by {
            assert(a2[i] == a[i + 1] && a2[j] == a[j + 1]);
        }
        assert forall|i: int, j: int| 0 <= i < j < b2.len() implies path_lt(#[trigger] b2[i].0.key_view(), #[trigger] b2[j].0.key_view()) by {
            assert(b2[i] == b[i + 1] && b2[j] == b[j + 1]);
        }
        assert forall|k: Seq<Seq<char>>| #[trigger] entries_have_key(a2, k) == entries_have_key(b2, k) by {
            if entries_have_key(a2, k) {
                let t = choose|t: int| 0 <= t < a2.len() && #[trigger] a2[t].0.key_view() == k;
                assert(a[t + 1].0.key_view() == k);
                assert(entries_have_key(a, k));
                assert(path_lt(a[0].0.key_view(), a[t + 1].0.key_view()));
                let u = choose|u: int| 0 <= u < b.len() && #[trigger] b[u].0.key_view() == k;
                assert(u != 0);
                assert(b2[u - 1].0.key_view() == k);
            }
            if entries_have_key(b2, k) {
                let t = choose|t: int| 0 <= t < b2.len() && #[trigger] b2[t].0.key_view() == k;
                assert(b[t + 1].0.key_view() == k);
                assert(entries_have_key(b, k));
                assert(entries_have_key(a, k));
                assert(path_lt(b[0].0.key_view(), b[t + 1].0.key_view()));
                let u = choose|u: int| 0 <= u < a.len() && #[trigger] a[u].0.key_view() == k;
                assert(u != 0);
                assert(a2[u - 1].0.key_view() == k);
            }
        }
        lemma_sorted_keys_unique(a2, b2);
        assert(a.len() == b.len());
        assert forall|t: int| 0 <= t < a.len() implies #[trigger] a[t].0.key_view() == b[t].0.key_view() by {
            if t > 0 {
                assert(a2[t - 1] == a[t]);
                assert(b2[t - 1] == b[t]);
            }
        }
    }
}

/// An obligation by value: names and the view of each part.
pub open spec fn ob_view(o: Obligation) -> (
    Seq<char>,
    Seq<char>,
    (int, Seq<(Seq<char>, int)>),
    (int, Seq<(Seq<char>, int)>),
    (int, Seq<(Seq<char>, int)>),
    (int, Seq<(Seq<char>, int)>),
) {
    (o.name@, o.explanation@, expr_view(o.actual), expr_view(o.phi_before), expr_view(o.phi_after), expr_view(o.amortized))
}

/// Expressions that both match a sum have the same view.
proof fn lemma_sum_view(a: LinExpr, b: LinExpr, s: Sum)
    requires
        expr_sum(a, s),
        expr_sum(b, s),
    ensures
        expr_view(a) == expr_view(b),
{
    assert forall|n: Seq<char>| #[trigger] a.coeff_of(n) == b.coeff_of(n) by {
        assert(a.coeff_of(n) == weight_of(s.1, n));
        assert(b.coeff_of(n) == weight_of(s.1, n));
    }
    lemma_normal_view(a, b);
}

/// Obligations described by the same specs are the same by value.
pub proof fn lemma_obligations_unique(o1: Seq<Obligation>, o2: Seq<Obligation>, specs: Seq<ObligationSpec>)
    requires
        obligations_are(o1, specs),
        obligations_are(o2, specs),
    ensures
        o1.len() == o2.len(),
        forall|i: int| 0 <= i < o1.len() ==> #[trigger] ob_view(o1[i]) == ob_view(o2[i]),
{
    assert forall|i: int| 0 <= i < o1.len() implies #[trigger] ob_view(o1[i]) == ob_view(o2[i]) by {
        assert(obligation_is(o1[i], specs[i]));
        assert(obligation_is(o2[i], specs[i]));
        lemma_sum_view(o1[i].actual, o2[i].actual, specs[i].1);
        lemma_sum_view(o1[i].phi_before, o2[i].phi_before, specs[i].2);
        lemma_sum_view(o1[i].phi_after, o2[i].phi_after, specs[i].3);
        lemma_sum_view(o1[i].amortized, o2[i].amortized, specs[i].4);
    }
}

/// A constraint by value.
pub open spec fn constraint_view(c: LinearConstraint) -> (
    Seq<char>,
    (int, Seq<(Seq<char>, int)>),
    ConstraintOp,
    (int, Seq<(Seq<char>, int)>),
) {
    (c.name@, expr_view(c.lhs), c.op, expr_view(c.rhs))
}

/// Constraints by value.
pub open spec fn constraint_views(cs: Seq<LinearConstraint>) -> Seq<(Seq<char>, (int, Seq<(Seq<char>, int)>), ConstraintOp, (int, Seq<(Seq<char>, int)>))> {
    cs.map_values(|c: LinearConstraint| constraint_view(c))
}

/// The same constant and coefficients.
pub open spec fn same_value(a: LinExpr, b: LinExpr) -> bool {
    &&& a.constant == b.constant
    &&& forall|n: Seq<char>| #[trigger] a.coeff_of(n) == b.coeff_of(n)
}

/// `0 <= e` and `0 <= e'` with the same constant and coefficients are the same by value.
proof fn lemma_nonneg_view(c1: LinearConstraint, c2: LinearConstraint)
    requires
        nonneg_form(c1),
        nonneg_form(c2),
        c1.name@ == c2.name@,
        same_value(c1.rhs, c2.rhs),
    ensures
        constraint_view(c1) == constraint_view(c2),
{
    assert(entry_views(c1.lhs.terms.entries()) =~= entry_views(c2.lhs.terms.entries()));
    lemma_normal_view(c1.rhs, c2.rhs);
}

proof fn lemma_name_suffix(p: Seq<char>, a: Seq<char>, b: Seq<char>)
    requires
        p + a == p + b,
    ensures
        a == b,
{
    assert(a =~= (p + a).skip(p.len() as int));
    assert(b =~= (p + b).skip(p.len() as int));
}

/// The constraints generated for `lhs <= rhs` are determined, by value,
/// by the values of the two sides.
#[verifier::rlimit(40)]
pub proof fn lemma_leq_constraints_unique(
    c1: Seq<LinearConstraint>,
    c2: Seq<LinearConstraint>,
    name: Seq<char>,
    l1: LinExpr,
    r1: LinExpr,
    l2: LinExpr,
    r2: LinExpr,
)
    requires
        leq_constraints(c1, name, l1, r1),
        leq_constraints(c2, name, l2, r2),
        same_value(l1, l2),
        same_value(r1, r2),
    ensures
        constraint_views(c1) == constraint_views(c2),
{
    assert forall|n: Seq<char>| #[trigger] slack_coeff(l1, r1, n) == slack_coeff(l2, r2, n) by {
        assert(l1.coeff_of(n) == l2.coeff_of(n));
        assert(r1.coeff_of(n) == r2.coeff_of(n));
    }
    assert forall|v: Seq<char>| #[trigger] has_program_var(l1, r1, v) == has_program_var(l2, r2, v) by {
        if has_program_var(l1, r1, v) {
            let n = choose|n: Seq<char>| #[trigger] slack_coeff(l1, r1, n) != 0 && !is_constant_term(n) && program_var_of(n) == v;
            assert(slack_coeff(l2, r2, n) != 0);
        }
        if has_program_var(l2, r2, v) {
            let n = choose|n: Seq<char>| #[trigger] slack_coeff(l2, r2, n) != 0 && !is_constant_term(n) && program_var_of(n) == v;
            assert(slack_coeff(l1, r1, n) != 0);
        }
    }
    // the first constraint
    assert(constant_constraint(c1[0], l1, r1));
    assert(constant_constraint(c2[0], l2, r2));
    assert(same_value(c1[0].rhs, c2[0].rhs)) by {
        assert forall|m: Seq<char>| #[trigger] c1[0].rhs.coeff_of(m) == c2[0].rhs.coeff_of(m) by {
            assert(slack_coeff(l1, r1, m) == slack_coeff(l2, r2, m));
        }
    }
    lemma_nonneg_view(c1[0], c2[0]);
    // the names of the others
    let t1 = c1.skip(1).map_values(|c: LinearConstraint| c.name@);
    let t2 = c2.skip(1).map_values(|c: LinearConstraint| c.name@);
    assert forall|i: int, j: int| 0 <= i < j < t1.len() implies seq_lt(#[trigger] t1[i], #[trigger] t1[j]) by {
        assert(seq_lt(c1[i + 1].name@, c1[j + 1].name@));
    }
    assert forall|i: int, j: int| 0 <= i < j < t2.len() implies seq_lt(#[trigger] t2[i], #[trigger] t2[j]) by {
        assert(seq_lt(c2[i + 1].name@, c2[j + 1].name@));
    }
    assert forall|x: Seq<char>| #[trigger] t1.contains(x) == t2.contains(x) by {
        if t1.contains(x) {
            let t = choose|t: int| 0 <= t < t1.len() && t1[t] == x;
            assert(constraint_of_some_var(c1[t + 1], name, l1, r1));
            let v = choose|v: Seq<char>| {
                &&& c1[t + 1].name@ == #[trigger] coeff_constraint_name(name, v)
                &&& has_program_var(l1, r1, v)
                &&& program_constraint(c1[t + 1], l1, r1, v)
            };
            assert(has_program_var(l2, r2, v));
            let u = choose|u: int| 1 <= u < c2.len() && #[trigger] c2[u].name@ == coeff_constraint_name(name, v);
            assert(t2[u - 1] == x);
        }
        if t2.contains(x) {
            let t = choose|t: int| 0 <= t < t2.len() && t2[t] == x;
            assert(constraint_of_some_var(c2[t + 1], name, l2, r2));
            let v = choose|v: Seq<char>| {
                &&& c2[t + 1].name@ == #[trigger] coeff_constraint_name(name, v)
                &&& has_program_var(l2, r2, v)
                &&& program_constraint(c2[t + 1], l2, r2, v)
            };
            assert(has_program_var(l1, r1, v));
            let u = choose|u: int| 1 <= u < c1.len() && #[trigger] c1[u].name@ == coeff_constraint_name(name, v);
            assert(t1[u - 1] == x);
        }
    }
    lemma_sorted_names_unique(t1, t2);
    assert(c1.len() == c2.len());
    assert forall|j: int| 0 <= j < c1.len() implies #[trigger] constraint_views(c1)[j] == constraint_views(c2)[j] by {
        if j > 0 {
            assert(t1[j - 1] == t2[j - 1]);
            assert(constraint_of_some_var(c1[j], name, l1, r1));
            assert(constraint_of_some_var(c2[j], name, l2, r2));
            let v1 = choose|v: Seq<char>| {
                &&& c1[j].name@ == #[trigger] coeff_constraint_name(name, v)
                &&& has_program_var(l1, r1, v)
                &&& program_constraint(c1[j], l1, r1, v)
            };
            let v2 = choose|v: Seq<char>| {
                &&& c2[j].name@ == #[trigger] coeff_constraint_name(name, v)
                &&& has_program_var(l2, r2, v)
                &&& program_constraint(c2[j], l2, r2, v)
            };
            assert(name + ":coeff:"@ + v1 == name + ":coeff:"@ + v2);
            lemma_name_suffix(name + ":coeff:"@, v1, v2);
            assert(same_value(c1[j].rhs, c2[j].rhs)) by {
                assert forall|m: Seq<char>| #[trigger] c1[j].rhs.coeff_of(m) == c2[j].rhs.coeff_of(m) by {
                    assert(program_coeff(l1, r1, v1, m) == program_coeff(l2, r2, v1, m)) by {
                        assert(slack_coeff(l1, r1, star_join(m, v1)) == slack_coeff(l2, r2, star_join(m, v1)));
                    }
                }
                assert(program_constant(l1, r1, v1) == program_constant(l2, r2, v1)) by {
                    assert(slack_coeff(l1, r1, v1) == slack_coeff(l2, r2, v1));
                }
            }
            lemma_nonneg_view(c1[j], c2[j]);
        }
    }
    assert(constraint_views(c1) =~= constraint_views(c2));
}

/// The constraints of two obligations matching the same spec are the same by value.
proof fn lemma_obligation_constraints_unique(
    part1: Seq<LinearConstraint>,
    part2: Seq<LinearConstraint>,
    o1: Obligation,
    o2: Obligation,
    spec: ObligationSpec,
)
    requires
        obligation_is(o1, spec),
        obligation_is(o2, spec),
        obligation_constraints(part1, o1),
        obligation_constraints(part2, o2),
    ensures
        constraint_views(part1) == constraint_views(part2),
{
    let (l1, r1) = choose|l: LinExpr, r: LinExpr| {
        &&& l.wf()
        &&& r.wf()
        &&& l.constant == o1.actual.constant + o1.phi_after.constant
        &&& r.constant == o1.amortized.constant + o1.phi_before.constant
        &&& (forall|n: Seq<char>| #[trigger] l.coeff_of(n) == o1.actual.coeff_of(n) + o1.phi_after.coeff_of(n))
        &&& (forall|n: Seq<char>| #[trigger] r.coeff_of(n) == o1.amortized.coeff_of(n) + o1.phi_before.coeff_of(n))
        &&& #[trigger] leq_constraints(part1, o1.name@, l, r)
    };
    let (l2, r2) = choose|l: LinExpr, r: LinExpr| {
        &&& l.wf()
        &&& r.wf()
        &&& l.constant == o2.actual.constant + o2.phi_after.constant
        &&& r.constant == o2.amortized.constant + o2.phi_before.constant
        &&& (forall|n: Seq<char>| #[trigger] l.coeff_of(n) == o2.actual.coeff_of(n) + o2.phi_after.coeff_of(n))
        &&& (forall|n: Seq<char>| #[trigger] r.coeff_of(n) == o2.amortized.coeff_of(n) + o2.phi_before.coeff_of(n))
        &&& #[trigger] leq_constraints(part2, o2.name@, l, r)
    };
    assert forall|n: Seq<char>| #[trigger] l1.coeff_of(n) == l2.coeff_of(n) by {
        assert(o1.actual.coeff_of(n) == weight_of(spec.1.1, n));
        assert(o2.actual.coeff_of(n) == weight_of(spec.1.1, n));
        assert(o1.phi_after.coeff_of(n) == weight_of(spec.3.1, n));
        assert(o2.phi_after.coeff_of(n) == weight_of(spec.3.1, n));
    }
    assert forall|n: Seq<char>| #[trigger] r1.coeff_of(n) == r2.coeff_of(n) by {
        assert(o1.amortized.coeff_of(n) == weight_of(spec.4.1, n));
        assert(o2.amortized.coeff_of(n) == weight_of(spec.4.1, n));
        assert(o1.phi_before.coeff_of(n) == weight_of(spec.2.1, n));
        assert(o2.phi_before.coeff_of(n) == weight_of(spec.2.1, n));
    }
    lemma_leq_constraints_unique(part1, part2, o1.name@, l1, r1, l2, r2);
}

/// Concatenating parts that agree by value gives lists that agree by value.
proof fn lemma_flatten_views(p1: Seq<Seq<LinearConstraint>>, p2: Seq<Seq<LinearConstraint>>)
    requires
        p1.len() == p2.len(),
        forall|i: int| 0 <= i < p1.len() ==> #[trigger] constraint_views(p1[i]) == constraint_views(p2[i]),
    ensures
        constraint_views(flatten_parts(p1)) == constraint_views(flatten_parts(p2)),
    decreases p1.len(),
{
    if p1.len() > 0 {
        let a1 = flatten_parts(p1.drop_last());
        let a2 = flatten_parts(p2.drop_last());
        assert forall|i: int| 0 <= i < p1.drop_last().len() implies #[trigger] constraint_views(p1.drop_last()[i])
            == constraint_views(p2.drop_last()[i]) by {
            assert(p1.drop_last()[i] == p1[i]);
            assert(p2.drop_last()[i] == p2[i]);
        }
        lemma_flatten_views(p1.drop_last(), p2.drop_last());
        assert(constraint_views(p1.last()) == constraint_views(p2.last()));
        assert(constraint_views(a1 + p1.last()) =~= constraint_views(a1) + constraint_views(p1.last()));
        assert(constraint_views(a2 + p2.last()) =~= constraint_views(a2) + constraint_views(p2.last()));
    }
}

/// A problem by value.
pub open spec fn problem_view(p: LinearProblem) -> (
    Seq<char>,
    Seq<(Seq<char>, VarKind, Bound)>,
    Seq<(Seq<char>, (int, Seq<(Seq<char>, int)>), ConstraintOp, (int, Seq<(Seq<char>, int)>))>,
    (int, Seq<(Seq<char>, int)>),
    bool,
) {
    (
        p.name@,
        p.vars@.map_values(|d: VariableDecl| (d.name@, d.kind, d.bound)),
        constraint_views(p.constraints@),
        expr_view(p.objective),
        p.minimize,
    )
}

/// Templates for paths of the same views name their coefficients alike.
proof fn lemma_template_names_unique(t1: PotentialTemplate, t2: PotentialTemplate, ps1: Seq<ResourcePath>, ps2: Seq<ResourcePath>)
    requires
        template_for(t1, ps1),
        template_for(t2, ps2),
        path_views(ps1) == path_views(ps2),
    ensures
        template_names(t1) == template_names(t2),
{
    let e1 = t1.coeffs.entries();
    let e2 = t2.coeffs.entries();
    assert(ps1.len() == path_views(ps1).len());
    assert(ps2.len() == path_views(ps2).len());
    assert forall|k: Seq<Seq<char>>| #[trigger] entries_have_key(e1, k) == entries_have_key(e2, k) by {
        if entries_have_key(e1, k) {
            assert(t1.coeffs@.contains_key(k));
            let i = choose|i: int| 0 <= i < ps1.len() && ps1[i]@ == k;
            assert(path_views(ps1)[i] == k);
            assert(ps2[i]@ == k);
            assert(t2.coeffs@.contains_key(k));
        }
        if entries_have_key(e2, k) {
            assert(t2.coeffs@.contains_key(k));
            let i = choose|i: int| 0 <= i < ps2.len() && ps2[i]@ == k;
            assert(path_views(ps2)[i] == k);
            assert(ps1[i]@ == k);
            assert(t1.coeffs@.contains_key(k));
        }
    }
    lemma_sorted_keys_unique(e1, e2);
    assert forall|j: int| 0 <= j < e1.len() implies #[trigger] template_names(t1)[j] == template_names(t2)[j] by {
        t1.coeffs.lemma_index_of(j);
        t2.coeffs.lemma_index_of(j);
        let k = t1.coeffs.key_at(j);
        assert(t2.coeffs.key_at(j) == k);
        let i1 = choose|i: int| 0 <= i < ps1.len() && ps1[i]@ == k;
        let i2 = choose|i: int| 0 <= i < ps2.len() && ps2[i]@ == k;
        assert(t1.coeffs@[ps1[i1]@]@ == coeff_name(ps1[i1]));
        assert(t2.coeffs@[ps2[i2]@]@ == coeff_name(ps2[i2]));
        lemma_same_view_same_text(ps1[i1], ps2[i2]);
    }
    assert(template_names(t1) =~= template_names(t2));
}

/// Potential problems over templates naming coefficients alike, for
/// obligations of the same specs, are the same by value.
#[verifier::rlimit(40)]
pub proof fn lemma_potential_problem_unique(
    p1: LinearProblem,
    p2: LinearProblem,
    name: Seq<char>,
    t1: PotentialTemplate,
    t2: PotentialTemplate,
    o1: Seq<Obligation>,
    o2: Seq<Obligation>,
    specs: Seq<ObligationSpec>,
)
    requires
        potential_problem_is(p1, name, t1, o1),
        potential_problem_is(p2, name, t2, o2),
        template_names(t1) == template_names(t2),
        obligations_are(o1, specs),
        obligations_are(o2, specs),
    ensures
        problem_view(p1) == problem_view(p2),
{
    let names = template_names(t1) + seq!["c_push"@, "c_pop"@, "c_method"@];
    assert(p1.vars@.map_values(|d: VariableDecl| (d.name@, d.kind, d.bound)) =~= p2.vars@.map_values(
        |d: VariableDecl| (d.name@, d.kind, d.bound),
    )) by {
        assert forall|i: int| 0 <= i < p1.vars@.len() implies #[trigger] p1.vars@[i].name@ == p2.vars@[i].name@ by {
            assert(p1.vars@[i].name@ == names[i]);
            assert(p2.vars@[i].name@ == names[i]);
        }
    }
    assert forall|n: Seq<char>| #[trigger] p1.objective.coeff_of(n) == p2.objective.coeff_of(n) by {
    }
    lemma_normal_view(p1.objective, p2.objective);
    let parts1 = choose|parts: Seq<Seq<LinearConstraint>>| {
        &&& parts.len() == o1.len()
        &&& p1.constraints@ == #[trigger] flatten_parts(parts)
        &&& forall|i: int| 0 <= i < parts.len() ==> #[trigger] obligation_constraints(parts[i], o1[i])
    };
    let parts2 = choose|parts: Seq<Seq<LinearConstraint>>| {
        &&& parts.len() == o2.len()
        &&& p2.constraints@ == #[trigger] flatten_parts(parts)
        &&& forall|i: int| 0 <= i < parts.len() ==> #[trigger] obligation_constraints(parts[i], o2[i])
    };
    assert forall|i: int| 0 <= i < parts1.len() implies #[trigger] constraint_views(parts1[i]) == constraint_views(parts2[i]) by {
        assert(obligation_constraints(parts1[i], o1[i]));
        assert(obligation_constraints(parts2[i], o2[i]));
        assert(obligation_is(o1[i], specs[i]));
        assert(obligation_is(o2[i], specs[i]));
        lemma_obligation_constraints_unique(parts1[i], parts2[i], o1[i], o2[i], specs[i]);
    }
    lemma_flatten_views(parts1, parts2);
}

/// Problems posed for the same function and obligations of the same specs
/// are the same by value.
pub proof fn lemma_posed_problem_unique(
    p1: LinearProblem,
    p2: LinearProblem,
    f: FunctionIr,
    o1: Seq<Obligation>,
    o2: Seq<Obligation>,
    specs: Seq<ObligationSpec>,
)
    requires
        posed_problem(p1, f, o1),
        posed_problem(p2, f, o2),
        obligations_are(o1, specs),
        obligations_are(o2, specs),
    ensures
        problem_view(p1) == problem_view(p2),
{
    let (ps1, t1) = choose|paths: Seq<ResourcePath>, t: PotentialTemplate|
        #![trigger template_for(t, paths), path_views(paths)]
        path_views(paths) == receivers_upto(f.events@) && template_for(t, paths) && potential_problem_is(
            p1,
            f.full_name_text(),
            t,
            o1,
        );
    let (ps2, t2) = choose|paths: Seq<ResourcePath>, t: PotentialTemplate|
        #![trigger template_for(t, paths), path_views(paths)]
        path_views(paths) == receivers_upto(f.events@) && template_for(t, paths) && potential_problem_is(
            p2,
            f.full_name_text(),
            t,
            o2,
        );
    lemma_template_names_unique(t1, t2, ps1, ps2);
    lemma_potential_problem_unique(p1, p2, f.full_name_text(), t1, t2, o1, o2, specs);
}

/// A checked obligation by value: the obligation, the verdict and the slack.
pub open spec fn vo_view(v: VerifiedObligation) -> (
    (
        Seq<char>,
        Seq<char>,
        (int, Seq<(Seq<char>, int)>),
        (int, Seq<(Seq<char>, int)>),
        (int, Seq<(Seq<char>, int)>),
        (int, Seq<(Seq<char>, int)>),
    ),
    bool,
    (int, Seq<(Seq<char>, int)>),
) {
    (ob_view(v.obligation), v.check.proven, expr_view(v.check.slack))
}

/// A text option by value.
pub open spec fn opt_text(o: Option<String>) -> Option<Seq<char>> {
    match o {
        Some(s) => Some(s@),
        None => None,
    }
}

/// A method report by value: every field, with each checked obligation,
/// diagnostic and assumption by value.
pub open spec fn report_view(r: MethodReport) -> (
    Seq<char>,
    Status,
    Seq<char>,
    Option<Seq<char>>,
    Seq<
        (
            (
                Seq<char>,
                Seq<char>,
                (int, Seq<(Seq<char>, int)>),
                (int, Seq<(Seq<char>, int)>),
                (int, Seq<(Seq<char>, int)>),
                (int, Seq<(Seq<char>, int)>),
            ),
            bool,
            (int, Seq<(Seq<char>, int)>),
        ),
    >,
    Seq<DiagText>,
    Seq<Seq<char>>,
) {
    (
        r.method@,
        r.status,
        r.amortized_bound@,
        opt_text(r.potential),
        r.obligations@.map_values(|v: VerifiedObligation| vo_view(v)),
        diag_texts(r.diagnostics@),
        texts(r.assumptions@),
    )
}

/// A solver's answer by value: the objective and the values entry by
/// entry, or the error's text.
pub open spec fn answer_view(a: Result<IlpSolution, SolverError>) -> Result<(Option<i64>, Seq<(Seq<char>, int)>), Seq<char>> {
    match a {
        Ok(sol) => Ok((sol.objective, entry_views(sol.values.entries()))),
        Err(e) => Err(e.text()),
    }
}

/// Values given entry by entry alike are well formed alike and describe the same map.
proof fn lemma_values_by_view(v1: KeyMap<String, i64>, v2: KeyMap<String, i64>)
    requires
        entry_views(v1.entries()) == entry_views(v2.entries()),
    ensures
        v1.wf() == v2.wf(),
        v1.wf() ==> v1@ == v2@,
{
    let a = v1.entries();
    let b = v2.entries();
    assert(a.len() == entry_views(a).len());
    assert(b.len() == entry_views(b).len());
    assert forall|i: int| 0 <= i < a.len() implies #[trigger] a[i].0.key_view() == b[i].0.key_view() && a[i].1 == b[i].1 by {
        assert(entry_views(a)[i] == entry_views(b)[i]);
        lemma_string_key(a[i].0);
        lemma_string_key(b[i].0);
    }
    assert forall|i: int| 0 <= i < b.len() implies #[trigger] b[i].0.key_view() == a[i].0.key_view() && b[i].1 == a[i].1 by {
        assert(a[i].0.key_view() == b[i].0.key_view());
    }
    if v1.wf() {
        lemma_same_entries_map(a, b);
    }
    if v2.wf() {
        lemma_same_entries_map(b, a);
    }
}

/// An expression's value as a pair gives its constant and coefficients.
proof fn lemma_value_pair(a: LinExpr, b: LinExpr)
    requires
        expr_value(a) == expr_value(b),
    ensures
        same_value(a, b),
{
    let fa = expr_value(a).1;
    let fb = expr_value(b).1;
    assert(fa == fb);
    assert forall|n: Seq<char>| #[trigger] a.coeff_of(n) == b.coeff_of(n) by {
        assert(fa(n) == a.coeff_of(n));
        assert(fb(n) == b.coeff_of(n));
        assert(fa(n) == fb(n));
    }
}

/// Obligations alike by value, under values describing the same map, are
/// substituted, checked and fitted alike.
proof fn lemma_candidate_by_view(o1: Obligation, o2: Obligation, v1: KeyMap<String, i64>, v2: KeyMap<String, i64>)
    requires
        ob_view(o1) == ob_view(o2),
        v1@ == v2@,
    ensures
        subst_value(o1.actual, v1) == subst_value(o2.actual, v2),
        subst_value(o1.phi_before, v1) == subst_value(o2.phi_before, v2),
        subst_value(o1.phi_after, v1) == subst_value(o2.phi_after, v2),
        subst_value(o1.amortized, v1) == subst_value(o2.amortized, v2),
        o1.candidate_fits(v1) == o2.candidate_fits(v2),
        o1.holds_under(v1) == o2.holds_under(v2),
{
    lemma_subst_by_view(o1.actual, o2.actual, v1, v2, o1.actual.terms.entries().len());
    lemma_subst_by_view(o1.phi_before, o2.phi_before, v1, v2, o1.phi_before.terms.entries().len());
    lemma_subst_by_view(o1.phi_after, o2.phi_after, v1, v2, o1.phi_after.terms.entries().len());
    lemma_subst_by_view(o1.amortized, o2.amortized, v1, v2, o1.amortized.terms.entries().len());
    assert(o1.actual.terms.entries().len() == entry_views(o1.actual.terms.entries()).len());
    assert(o2.actual.terms.entries().len() == entry_views(o2.actual.terms.entries()).len());
    assert(o1.phi_before.terms.entries().len() == entry_views(o1.phi_before.terms.entries()).len());
    assert(o2.phi_before.terms.entries().len() == entry_views(o2.phi_before.terms.entries()).len());
    assert(o1.phi_after.terms.entries().len() == entry_views(o1.phi_after.terms.entries()).len());
    assert(o2.phi_after.terms.entries().len() == entry_views(o2.phi_after.terms.entries()).len());
    assert(o1.amortized.terms.entries().len() == entry_views(o1.amortized.terms.entries()).len());
    assert(o2.amortized.terms.entries().len() == entry_views(o2.amortized.terms.entries()).len());
    assert(subst_value(o1.actual, v1).1 =~= subst_value(o2.actual, v2).1);
    assert(subst_value(o1.phi_before, v1).1 =~= subst_value(o2.phi_before, v2).1);
    assert(subst_value(o1.phi_after, v1).1 =~= subst_value(o2.phi_after, v2).1);
    assert(subst_value(o1.amortized, v1).1 =~= subst_value(o2.amortized, v2).1);
}

/// Checked obligations of obligations alike, under the same map, are alike.
proof fn lemma_verified_by_view(
    w1: VerifiedObligation,
    w2: VerifiedObligation,
    o1: Obligation,
    o2: Obligation,
    v1: KeyMap<String, i64>,
    v2: KeyMap<String, i64>,
)
    requires
        verified_as(w1, o1, v1),
        verified_as(w2, o2, v2),
        ob_view(o1) == ob_view(o2),
        v1@ == v2@,
    ensures
        vo_view(w1) == vo_view(w2),
{
    lemma_candidate_by_view(o1, o2, v1, v2);
    let (a, b) = (w1.obligation, w2.obligation);
    lemma_value_pair(a.actual, b.actual);
    lemma_value_pair(a.phi_before, b.phi_before);
    lemma_value_pair(a.phi_after, b.phi_after);
    lemma_value_pair(a.amortized, b.amortized);
    lemma_normal_view(a.actual, b.actual);
    lemma_normal_view(a.phi_before, b.phi_before);
    lemma_normal_view(a.phi_after, b.phi_after);
    lemma_normal_view(a.amortized, b.amortized);
    assert forall|n: Seq<char>| #[trigger] w1.check.slack.coeff_of(n) == w2.check.slack.coeff_of(n) by {
        assert(a.actual.coeff_of(n) == b.actual.coeff_of(n));
        assert(a.phi_before.coeff_of(n) == b.phi_before.coeff_of(n));
        assert(a.phi_after.coeff_of(n) == b.phi_after.coeff_of(n));
        assert(a.amortized.coeff_of(n) == b.amortized.coeff_of(n));
    }
    lemma_normal_view(w1.check.slack, w2.check.slack);
}

/// The failure messages of checked obligations alike are alike.
proof fn lemma_failure_texts_by_view(a: Seq<VerifiedObligation>, b: Seq<VerifiedObligation>)
    requires
        a.map_values(|v: VerifiedObligation| vo_view(v)) == b.map_values(|v: VerifiedObligation| vo_view(v)),
    ensures
        failure_texts(a) == failure_texts(b),
    decreases a.len(),
{
    assert(a.len() == a.map_values(|v: VerifiedObligation| vo_view(v)).len());
    assert(b.len() == b.map_values(|v: VerifiedObligation| vo_view(v)).len());
    if a.len() > 0 {
        assert(a.drop_last().map_values(|v: VerifiedObligation| vo_view(v)) =~= a.map_values(|v: VerifiedObligation| vo_view(v)).drop_last());
        assert(b.drop_last().map_values(|v: VerifiedObligation| vo_view(v)) =~= b.map_values(|v: VerifiedObligation| vo_view(v)).drop_last());
        lemma_failure_texts_by_view(a.drop_last(), b.drop_last());
        assert(vo_view(a.last()) == vo_view(b.last())) by {
            assert(a.map_values(|v: VerifiedObligation| vo_view(v))[a.len() - 1] == vo_view(a.last()));
            assert(b.map_values(|v: VerifiedObligation| vo_view(v))[b.len() - 1] == vo_view(b.last()));
        }
        lemma_text_by_view(a.last().check.slack, b.last().check.slack);
    }
}

/// Two reports described by the same text are alike.
proof fn lemma_report_is_view(r1: MethodReport, r2: MethodReport, m: Seq<char>, t: ReportText)
    requires
        report_is(r1, m, t),
        report_is(r2, m, t),
    ensures
        report_view(r1) == report_view(r2),
{
    assert(r1.obligations@.map_values(|v: VerifiedObligation| vo_view(v)) =~= r2.obligations@.map_values(
        |v: VerifiedObligation| vo_view(v),
    ));
}

proof fn lemma_fits_at(o: Seq<Obligation>, v: KeyMap<String, i64>, i: int)
    requires
        all_candidate_fits(o, v),
        0 <= i < o.len(),
    ensures
        o[i].wf() && o[i].candidate_fits(v),
{
}

/// Obligations of the same specs fit the same values alike.
proof fn lemma_all_fits_by_view(
    o1: Seq<Obligation>,
    o2: Seq<Obligation>,
    specs: Seq<ObligationSpec>,
    v1: KeyMap<String, i64>,
    v2: KeyMap<String, i64>,
)
    requires
        obligations_are(o1, specs),
        obligations_are(o2, specs),
        v1@ == v2@,
    ensures
        all_candidate_fits(o1, v1) == all_candidate_fits(o2, v2),
{
    lemma_obligations_unique(o1, o2, specs);
    assert forall|i: int| 0 <= i < o1.len() implies (#[trigger] o1[i].wf() && o1[i].candidate_fits(v1)) == (o2[i].wf()
        && o2[i].candidate_fits(v2)) by {
        assert(obligation_is(o1[i], specs[i]));
        assert(obligation_is(o2[i], specs[i]));
        lemma_candidate_by_view(o1[i], o2[i], v1, v2);
    }
    if all_candidate_fits(o1, v1) {
        assert forall|i: int| 0 <= i < o2.len() implies #[trigger] o2[i].wf() && o2[i].candidate_fits(v2) by {
            assert(0 <= i < o1.len());
            assert((o1[i].wf() && o1[i].candidate_fits(v1)) == (o2[i].wf() && o2[i].candidate_fits(v2)));
            lemma_fits_at(o1, v1, i);
        }
    }
    if all_candidate_fits(o2, v2) {
        assert forall|i: int| 0 <= i < o1.len() implies #[trigger] o1[i].wf() && o1[i].candidate_fits(v1) by {
            assert(0 <= i < o2.len());
            assert((o1[i].wf() && o1[i].candidate_fits(v1)) == (o2[i].wf() && o2[i].candidate_fits(v2)));
            lemma_fits_at(o2, v2, i);
        }
    }
}

/// Reports for answers alike, on obligations of the same specs, are alike.
#[verifier::rlimit(60)]
pub proof fn lemma_solution_report_unique(
    r1: MethodReport,
    r2: MethodReport,
    method: Seq<char>,
    ps: Seq<Seq<Seq<char>>>,
    o1: Seq<Obligation>,
    o2: Seq<Obligation>,
    specs: Seq<ObligationSpec>,
    st: Status,
    diags: Seq<DiagText>,
    a1: Result<IlpSolution, SolverError>,
    a2: Result<IlpSolution, SolverError>,
)
    requires
        solution_report(r1, method, ps, o1, st, diags, a1),
        solution_report(r2, method, ps, o2, st, diags, a2),
        obligations_are(o1, specs),
        obligations_are(o2, specs),
        answer_view(a1) == answer_view(a2),
    ensures
        report_view(r1) == report_view(r2),
{
    lemma_obligations_unique(o1, o2, specs);
    match (a1, a2) {
        (Err(e1), Err(e2)) => {
            lemma_report_is_view(r1, r2, method, (Status::Undefined, "O(?)"@, None, seq![("error"@, "solver failed: "@ + e1.text())], Seq::empty()));
        },
        (Ok(s1), Ok(s2)) => {
            lemma_values_by_view(s1.values, s2.values);
            if s1.values.wf() && all_candidate_fits(o1, s1.values) {
                lemma_all_fits_by_view(o1, o2, specs, s1.values, s2.values);
                assert(all_hold(o1, s1.values) == all_hold(o2, s2.values)) by {
                    assert forall|i: int| 0 <= i < o1.len() implies #[trigger] o1[i].holds_under(s1.values) == o2[i].holds_under(s2.values) by {
                        lemma_candidate_by_view(o1[i], o2[i], s1.values, s2.values);
                    }
                    if all_hold(o1, s1.values) {
                        assert forall|i: int| 0 <= i < o2.len() implies #[trigger] o2[i].holds_under(s2.values) by {
                            assert(o1[i].holds_under(s1.values));
                            lemma_candidate_by_view(o1[i], o2[i], s1.values, s2.values);
                        }
                    }
                    if all_hold(o2, s2.values) {
                        assert forall|i: int| 0 <= i < o1.len() implies #[trigger] o1[i].holds_under(s1.values) by {
                            assert(o2[i].holds_under(s2.values));
                            lemma_candidate_by_view(o1[i], o2[i], s1.values, s2.values);
                        }
                    }
                }
                assert(potential_text(s1.values, ps) == potential_text(s2.values, ps)) by {
                    assert(ps.map_values(|v: Seq<Seq<char>>| potential_part(s1.values, v)) =~= ps.map_values(
                        |v: Seq<Seq<char>>| potential_part(s2.values, v),
                    ));
                }
                let w1 = r1.obligations@;
                let w2 = r2.obligations@;
                assert forall|i: int| 0 <= i < w1.len() implies #[trigger] vo_view(w1[i]) == vo_view(w2[i]) by {
                    assert(verified_as(w1[i], o1[i], s1.values));
                    assert(verified_as(w2[i], o2[i], s2.values));
                    lemma_verified_by_view(w1[i], w2[i], o1[i], o2[i], s1.values, s2.values);
                }
                assert(w1.map_values(|v: VerifiedObligation| vo_view(v)) =~= w2.map_values(|v: VerifiedObligation| vo_view(v)));
                lemma_failure_texts_by_view(w1, w2);
            } else {
                if s1.values.wf() {
                    lemma_all_fits_by_view(o1, o2, specs, s1.values, s2.values);
                }
                lemma_report_is_view(r1, r2, method, (Status::Undefined, "O(?)"@, None, seq![("error"@, "solver solution out of range"@)], Seq::empty()));
            }
        },
        _ => {},
    }
}

/// The solver answers problems of the same value alike: it reads a problem
/// only by its name, variables, constraints, objective and sense, and gives
/// one answer to it.
pub open spec fn answers_by_value<S: IntegerLinearSolver>(solver: S) -> bool {
    forall|p1: LinearProblem, p2: LinearProblem, a1: Result<IlpSolution, SolverError>, a2: Result<IlpSolution, SolverError>|
        #![trigger solver.answers(p1, a1), solver.answers(p2, a2)]
        solver.answers(p1, a1) && solver.answers(p2, a2) && problem_view(p1) == problem_view(p2) ==> answer_view(a1)
            == answer_view(a2)
}

/// With a solver that answers problems of the same value alike, the report
/// of a function is determined by the function and the policy: any two
/// reports that meet what `analyze_function` promises are the same, field
/// by field.
pub proof fn lemma_reports_agree<S: IntegerLinearSolver>(
    r1: MethodReport,
    r2: MethodReport,
    f: FunctionIr,
    policy: SoundnessPolicy,
    solver: S,
)
    requires
        answers_by_value(solver),
        function_report(r1, f, policy),
        function_report(r2, f, policy),
        solver_report(r1, f, policy, solver),
        solver_report(r2, f, policy, solver),
    ensures
        report_view(r1) == report_view(r2),
{
    let (ps, pd) = policy_trace(policy, f.events@);
    let recv = receivers_upto(f.events@);
    let specs = expected_obligations(f);
    if specs.len() == 0 {
        if recv.len() == 0 {
            lemma_report_is_view(r1, r2, f.full_name_text(), scalar_outcome(f, ps, pd));
        } else {
            lemma_report_is_view(
                r1,
                r2,
                f.full_name_text(),
                (
                    if ps == Status::Undefined {
                        Status::Undefined
                    } else {
                        Status::Partial
                    },
                    "O(?)"@,
                    None,
                    pd.push(warn_text("no generic transition proof found; reporting partial/undefined"@)),
                    Seq::empty(),
                ),
            );
        }
    } else {
        let (o1, p1, a1) = choose|obligations: Seq<Obligation>, problem: LinearProblem, result: Result<IlpSolution, SolverError>|
            #![trigger posed_problem(problem, f, obligations), solver.answers(problem, result)]
            obligations_are(obligations, expected_obligations(f)) && posed_problem(problem, f, obligations)
                && solver.answers(problem, result) && solution_report(
                r1,
                f.full_name_text(),
                receivers_upto(f.events@),
                obligations,
                policy_trace(policy, f.events@).0,
                policy_trace(policy, f.events@).1,
                result,
            );
        let (o2, p2, a2) = choose|obligations: Seq<Obligation>, problem: LinearProblem, result: Result<IlpSolution, SolverError>|
            #![trigger posed_problem(problem, f, obligations), solver.answers(problem, result)]
            obligations_are(obligations, expected_obligations(f)) && posed_problem(problem, f, obligations)
                && solver.answers(problem, result) && solution_report(
                r2,
                f.full_name_text(),
                receivers_upto(f.events@),
                obligations,
                policy_trace(policy, f.events@).0,
                policy_trace(policy, f.events@).1,
                result,
            );
        lemma_posed_problem_unique(p1, p2, f, o1, o2, specs);
        assert(answer_view(a1) == answer_view(a2));
        lemma_solution_report_unique(r1, r2, f.full_name_text(), recv, o1, o2, specs, ps, pd, a1, a2);
    }
}

/// With a solver that answers problems of the same value alike, each
/// report of `analyze_program` relates to what `analyze_function` gives
/// that function on its own: the first pass is that report, field by
/// field; the second pass keeps every report that is not partial, and
/// leaves a partial one partial.
pub proof fn lemma_program_matches_single_calls<S: IntegerLinearSolver>(
    methods: Seq<MethodReport>,
    pass1: Seq<MethodReport>,
    functions: Seq<FunctionIr>,
    policy: SoundnessPolicy,
    solver: S,
    i: int,
    single: MethodReport,
)
    requires
        answers_by_value(solver),
        first_pass(pass1, functions, policy),
        second_pass(methods, pass1, functions),
        forall|j: int| 0 <= j < pass1.len() ==> #[trigger] solver_report(pass1[j], functions[j], policy, solver),
        0 <= i < functions.len(),
        function_report(single, functions[i], policy),
        solver_report(single, functions[i], policy, solver),
    ensures
        methods.len() == functions.len(),
        report_view(pass1[i]) == report_view(single),
        methods[i].method@ == single.method@,
        single.status != Status::Partial ==> methods[i] == pass1[i],
        single.status == Status::Partial ==> methods[i].status == Status::Partial,
{
    assert(function_report(pass1[i], functions[i], policy));
    assert(solver_report(pass1[i], functions[i], policy, solver));
    lemma_reports_agree(pass1[i], single, functions[i], policy, solver);
    assert(program_entry(methods[i], pass1[i], functions[i], pass1));
}

} // verus!
