//! The constraints handed to the solver say exactly what the exact check
//! says once the solver's values are substituted.
use vstd::prelude::*;
use crate::constraints::{
    coeff_constraint_name, constraint_of_some_var, has_program_var, leq_constraints, program_var_of,
    constant_constraint, is_constant_term, lemma_split_parts, no_star, program_coeff, program_constant, program_constraint,
    slack_coeff, star_join,
};
use crate::expr::{bump, get0, is_solver_name, value_of, LinExpr};
use crate::keymap::{KeyMap, TextKey};
use crate::lp::{eval_terms, value_of_name};
use crate::semantics::{
    distinct, entries_sum, entry_names, eval_at, lemma_eval_by_names, lemma_list_sum_add, lemma_list_sum_ext,
    lemma_list_sum_single, lemma_list_sum_zero, lemma_names_distinct, lemma_union, list_sum, union, Valuation,
};
use crate::expr::lemma_string_key;
use crate::lp::LinearConstraint;
use crate::text::split_once_spec;

verus! {

/// The value each name has under `sigma`, zero for a name it does not give.
pub open spec fn value_fn(sigma: KeyMap<String, i64>) -> Valuation {
    |n: Seq<char>| value_of_name(sigma, n)
}

/// A term name is a solver coefficient that `sigma` gives, a program
/// variable it does not give, or a product `s*p` of the two.
pub open spec fn classified(n: Seq<char>, sigma: KeyMap<String, i64>) -> bool {
    ||| is_constant_term(n) && value_of(sigma, n) is Some
    ||| no_star(n) && !is_solver_name(n) && value_of(sigma, n) is None
    ||| split_once_spec(n, '*') matches Some(p) && is_constant_term(p.0) && value_of(sigma, p.0) is Some && no_star(p.1)
        && !is_solver_name(p.1) && value_of(sigma, p.1) is None && value_of(sigma, n) is None
}

/// Every term name of `e` is classified under `sigma`.
pub open spec fn all_classified(e: LinExpr, sigma: KeyMap<String, i64>) -> bool {
    forall|i: int| 0 <= i < e.terms.entries().len() ==> #[trigger] classified(e.terms.entries()[i].0@, sigma)
}

/// What a term contributes to the constant once `sigma` is substituted, per unit.
pub open spec fn const_weight(sigma: KeyMap<String, i64>) -> Valuation {
    |n: Seq<char>| if is_constant_term(n) { value_of_name(sigma, n) } else { 0 }
}

/// What a term contributes to the coefficient of program variable `x` once
/// `sigma` is substituted, per unit.
pub open spec fn var_weight(sigma: KeyMap<String, i64>, x: Seq<char>) -> Valuation {
    |n: Seq<char>|
        if no_star(n) && !is_solver_name(n) {
            if n == x {
                1
            } else {
                0
            }
        } else {
            match split_once_spec(n, '*') {
                Some(p) => if p.1 == x && is_constant_term(p.0) {
                    value_of_name(sigma, p.0)
                } else {
                    0
                },
                None => 0,
            }
        }
}

/// Substituting classified names: the constant gains each solver term's
/// value, and each program variable gathers its own terms and the products
/// that name it.
pub proof fn lemma_subst_closed(e: LinExpr, sigma: KeyMap<String, i64>, k: nat)
    requires
        all_classified(e, sigma),
        k <= e.terms.entries().len(),
    ensures
        e.subst_state(sigma, k).0 == e.constant + entries_sum(e.terms.entries().take(k as int), const_weight(sigma)),
        forall|x: Seq<char>| #[trigger] get0(e.subst_state(sigma, k).1, x) == entries_sum(
            e.terms.entries().take(k as int),
            var_weight(sigma, x),
        ),
    decreases k,
{
    let es = e.terms.entries();
    if k == 0 {
        assert(es.take(0) =~= Seq::<(String, i64)>::empty());
    } else {
        lemma_subst_closed(e, sigma, (k - 1) as nat);
        let t = es.take(k as int);
        assert(t.drop_last() =~= es.take(k - 1));
        let (n, c) = (es[k - 1].0@, es[k - 1].1 as int);
        assert(t.last() == es[k - 1]);
        assert(classified(n, sigma));
        lemma_split_parts(n);
        let prev = e.subst_state(sigma, (k - 1) as nat);
        if is_constant_term(n) && value_of(sigma, n) is Some {
            assert(e.subst_state(sigma, k).1 == prev.1);
            assert forall|x: Seq<char>| #[trigger] get0(e.subst_state(sigma, k).1, x) == entries_sum(t, var_weight(sigma, x)) by {
                assert(split_once_spec(n, '*') is None);
                assert((var_weight(sigma, x))(n) == 0);
                assert(get0(prev.1, x) == entries_sum(es.take(k - 1), var_weight(sigma, x)));
                assert(entries_sum(t, var_weight(sigma, x)) == entries_sum(es.take(k - 1), var_weight(sigma, x)) + c * (
                var_weight(sigma, x))(n));
            }
        } else if no_star(n) && !is_solver_name(n) && value_of(sigma, n) is None {
            assert(split_once_spec(n, '*') is None);
            assert(e.subst_state(sigma, k).1 == bump(prev.1, n, c));
            assert forall|x: Seq<char>| #[trigger] get0(e.subst_state(sigma, k).1, x) == entries_sum(t, var_weight(sigma, x)) by {
                assert(get0(bump(prev.1, n, c), x) == get0(prev.1, x) + if x == n { c } else { 0 });
                assert(get0(prev.1, x) == entries_sum(es.take(k - 1), var_weight(sigma, x)));
                assert(entries_sum(t, var_weight(sigma, x)) == entries_sum(es.take(k - 1), var_weight(sigma, x)) + c * (
                var_weight(sigma, x))(n));
                assert((var_weight(sigma, x))(n) == if n == x { 1int } else { 0 });
                let w = (var_weight(sigma, x))(n);
                if n == x {
                    assert(c * w == c) by (nonlinear_arith)
                        requires
                            w == 1,
                    ;
                } else {
                    assert(c * w == 0) by (nonlinear_arith)
                        requires
                            w == 0,
                    ;
                }
            }
        } else {
            let p = split_once_spec(n, '*').unwrap();
            assert(!no_star(n));
            assert(!is_constant_term(n));
            let v = value_of(sigma, p.0).unwrap();
            assert(value_of(sigma, p.1) is None);
            assert(e.subst_state(sigma, k).1 == bump(prev.1, p.1, c * v));
            assert(e.subst_state(sigma, k).0 == prev.0);
            assert forall|x: Seq<char>| #[trigger] get0(e.subst_state(sigma, k).1, x) == entries_sum(t, var_weight(sigma, x)) by {
                assert(get0(bump(prev.1, p.1, c * v), x) == get0(prev.1, x) + if x == p.1 { c * v } else { 0 });
                assert(get0(prev.1, x) == entries_sum(es.take(k - 1), var_weight(sigma, x)));
                assert(entries_sum(t, var_weight(sigma, x)) == entries_sum(es.take(k - 1), var_weight(sigma, x)) + c * (
                var_weight(sigma, x))(n));
                assert((var_weight(sigma, x))(n) == if x == p.1 { v } else { 0 });
                if x == p.1 {
                    assert(c * (var_weight(sigma, x))(n) == c * v);
                }
            }
        }
    }
}

/// The coefficient of `n` in the slack `rhs - lhs`.
pub open spec fn slack_at(lhs: LinExpr, rhs: LinExpr) -> Valuation {
    |n: Seq<char>| rhs.coeff_of(n) - lhs.coeff_of(n)
}

/// Over a list of distinct names covering both sides, the difference of the
/// sums of the two sides is the sum of the slack.
proof fn lemma_diff_sum(l: LinExpr, r: LinExpr, names: Seq<Seq<char>>, w: Valuation)
    requires
        l.wf(),
        r.wf(),
        distinct(names),
        forall|i: int| 0 <= i < l.terms.entries().len() ==> names.contains(#[trigger] l.terms.entries()[i].0@),
        forall|i: int| 0 <= i < r.terms.entries().len() ==> names.contains(#[trigger] r.terms.entries()[i].0@),
    ensures
        entries_sum(r.terms.entries(), w) - entries_sum(l.terms.entries(), w) == list_sum(
            names,
            |n: Seq<char>| (slack_at(l, r))(n) * w(n),
        ),
{
    lemma_eval_by_names(l, names, w);
    lemma_eval_by_names(r, names, w);
    let fl = |n: Seq<char>| l.coeff_of(n) * w(n);
    let fr = |n: Seq<char>| r.coeff_of(n) * w(n);
    let fs = |n: Seq<char>| (slack_at(l, r))(n) * w(n);
    assert forall|n: Seq<char>| #[trigger] fr(n) == fl(n) + fs(n) by {
        let (a, b, x) = (r.coeff_of(n), l.coeff_of(n), w(n));
        assert(a * x == b * x + (a - b) * x) by (nonlinear_arith);
    }
    lemma_list_sum_add(names, fl, fs, fr);
}

/// The solver names, in the order of their products with `v` among `names`.
pub open spec fn image_of(names: Seq<Seq<char>>, v: Seq<char>) -> Seq<Seq<char>>
    decreases names.len(),
{
    if names.len() == 0 {
        Seq::empty()
    } else {
        let rest = image_of(names.drop_last(), v);
        match split_once_spec(names.last(), '*') {
            Some(p) => if p.1 == v {
                rest.push(p.0)
            } else {
                rest
            },
            None => rest,
        }
    }
}

/// What the product with `v` named `n` contributes, through `h` of its solver part.
pub open spec fn through_product(v: Seq<char>, h: Valuation) -> Valuation {
    |n: Seq<char>|
        match split_once_spec(n, '*') {
            Some(p) => if p.1 == v {
                h(p.0)
            } else {
                0
            },
            None => 0,
        }
}

proof fn lemma_image_sum(names: Seq<Seq<char>>, v: Seq<char>, h: Valuation)
    ensures
        list_sum(image_of(names, v), h) == list_sum(names, through_product(v, h)),
    decreases names.len(),
{
    if names.len() > 0 {
        lemma_image_sum(names.drop_last(), v, h);
        let rest = image_of(names.drop_last(), v);
        if let Some(p) = split_once_spec(names.last(), '*') {
            if p.1 == v {
                assert(rest.push(p.0).drop_last() =~= rest);
            }
        }
    }
}

proof fn lemma_image_members(names: Seq<Seq<char>>, v: Seq<char>)
    requires
        distinct(names),
    ensures
        distinct(image_of(names, v)),
        forall|m: Seq<char>| #[trigger] image_of(names, v).contains(m) ==> names.contains(star_join(m, v)) && no_star(m),
        forall|m: Seq<char>| no_star(m) && #[trigger] names.contains(star_join(m, v)) ==> image_of(names, v).contains(m),
    decreases names.len(),
{
    if names.len() > 0 {
        let d = names.drop_last();
        let x = names.last();
        assert(distinct(d)) by {
            assert forall|i: int, j: int| 0 <= i < j < d.len() implies d[i] != d[j] by {
                assert(d[i] == names[i] && d[j] == names[j]);
            }
        }
        lemma_image_members(d, v);
        let rest = image_of(d, v);
        lemma_split_parts(x);
        assert forall|y: Seq<char>| #[trigger] names.contains(y) <==> d.contains(y) || y == x by {
            if names.contains(y) {
                let i = choose|i: int| 0 <= i < names.len() && names[i] == y;
                if i < d.len() {
                    assert(d[i] == y);
                }
            }
            if d.contains(y) {
                let i = choose|i: int| 0 <= i < d.len() && d[i] == y;
                assert(names[i] == y);
            }
            if y == x {
                assert(names[names.len() - 1] == y);
            }
        }
        assert(!d.contains(x)) by {
            if d.contains(x) {
                let i = choose|i: int| 0 <= i < d.len() && d[i] == x;
                assert(names[i] == names[names.len() - 1]);
            }
        }
        match split_once_spec(x, '*') {
            Some(p) => {
                if p.1 == v {
                    let img = rest.push(p.0);
                    assert(x == star_join(p.0, v));
                    assert forall|m: Seq<char>| #[trigger] img.contains(m) <==> rest.contains(m) || m == p.0 by {
                        if img.contains(m) {
                            let i = choose|i: int| 0 <= i < img.len() && img[i] == m;
                            if i < rest.len() {
                                assert(rest[i] == m);
                            }
                        }
                        if rest.contains(m) {
                            let i = choose|i: int| 0 <= i < rest.len() && rest[i] == m;
                            assert(img[i] == m);
                        }
                        if m == p.0 {
                            assert(img[rest.len() as int] == m);
                        }
                    }
                    assert(!rest.contains(p.0));
                    assert forall|i: int, j: int| 0 <= i < j < img.len() implies img[i] != img[j] by {
                        if j == rest.len() {
                            assert(rest.contains(img[i]));
                        } else {
                            assert(img[i] == rest[i] && img[j] == rest[j]);
                        }
                    }
                    assert forall|m: Seq<char>| no_star(m) && #[trigger] names.contains(star_join(m, v)) implies img.contains(m) by {
                        if star_join(m, v) == x {
                            crate::constraints::lemma_split_star_join(m, v);
                        }
                    }
                } else {
                    assert forall|m: Seq<char>| no_star(m) && #[trigger] names.contains(star_join(m, v)) implies rest.contains(m) by {
                        if star_join(m, v) == x {
                            crate::constraints::lemma_split_star_join(m, v);
                        }
                    }
                }
            },
            None => {
                assert forall|m: Seq<char>| no_star(m) && #[trigger] names.contains(star_join(m, v)) implies rest.contains(m) by {
                    if star_join(m, v) == x {
                        crate::constraints::lemma_split_star_join(m, v);
                    }
                }
            },
        }
    }
}

/// A stored term of an expression without zero terms has its non-zero
/// coefficient under its name.
proof fn lemma_stored_nonzero(e: LinExpr, i: int)
    requires
        e.wf(),
        e.normalized(),
        0 <= i < e.terms.entries().len(),
    ensures
        e.coeff_of(e.terms.entries()[i].0@) == e.terms.entries()[i].1,
        e.coeff_of(e.terms.entries()[i].0@) != 0,
{
    e.terms.lemma_index_of(i);
    lemma_string_key(e.terms.entries()[i].0);
}

/// A name with a non-zero coefficient is stored.
proof fn lemma_named(e: LinExpr, m: Seq<char>)
    requires
        e.wf(),
        e.coeff_of(m) != 0,
    ensures
        entry_names(e.terms.entries()).contains(m),
{
    let k = seq![m];
    assert(e.terms@.contains_key(k));
    let i = e.terms.index_of(k);
    assert(0 <= i < e.terms.entries().len() && e.terms.entries()[i].0.key_view() == k);
    lemma_string_key(e.terms.entries()[i].0);
    assert(k[0] == m);
    assert(entry_names(e.terms.entries())[i] == m);
}

/// The names of both sides, each once.
pub open spec fn side_names(l: LinExpr, r: LinExpr) -> Seq<Seq<char>> {
    union(entry_names(l.terms.entries()), entry_names(r.terms.entries()))
}

proof fn lemma_side_names(l: LinExpr, r: LinExpr)
    requires
        l.wf(),
        r.wf(),
    ensures
        distinct(side_names(l, r)),
        forall|i: int| 0 <= i < l.terms.entries().len() ==> side_names(l, r).contains(#[trigger] l.terms.entries()[i].0@),
        forall|i: int| 0 <= i < r.terms.entries().len() ==> side_names(l, r).contains(#[trigger] r.terms.entries()[i].0@),
        forall|m: Seq<char>| #[trigger] (slack_at(l, r))(m) != 0 ==> side_names(l, r).contains(m),
        forall|m: Seq<char>| #[trigger] side_names(l, r).contains(m) ==> entry_names(l.terms.entries()).contains(m)
            || entry_names(r.terms.entries()).contains(m),
{
    lemma_names_distinct(l);
    lemma_names_distinct(r);
    lemma_union(entry_names(l.terms.entries()), entry_names(r.terms.entries()));
    assert forall|m: Seq<char>| #[trigger] (slack_at(l, r))(m) != 0 implies side_names(l, r).contains(m) by {
        if l.coeff_of(m) != 0 {
            lemma_named(l, m);
        } else {
            lemma_named(r, m);
        }
    }
}

/// A name of either side is classified when both sides' names are.
proof fn lemma_side_classified(l: LinExpr, r: LinExpr, sigma: KeyMap<String, i64>, m: Seq<char>)
    requires
        all_classified(l, sigma),
        all_classified(r, sigma),
        entry_names(l.terms.entries()).contains(m) || entry_names(r.terms.entries()).contains(m),
    ensures
        classified(m, sigma),
{
    if entry_names(l.terms.entries()).contains(m) {
        let i = choose|i: int| 0 <= i < entry_names(l.terms.entries()).len() && entry_names(l.terms.entries())[i] == m;
        assert(classified(l.terms.entries()[i].0@, sigma));
    } else {
        let i = choose|i: int| 0 <= i < entry_names(r.terms.entries()).len() && entry_names(r.terms.entries())[i] == m;
        assert(classified(r.terms.entries()[i].0@, sigma));
    }
}

/// The first constraint evaluates to the change of the constant.
proof fn lemma_constant_eval(c: LinearConstraint, l: LinExpr, r: LinExpr, sigma: KeyMap<String, i64>)
    requires
        l.wf(),
        r.wf(),
        constant_constraint(c, l, r),
    ensures
        eval_at(c.rhs, value_fn(sigma)) == (r.constant - l.constant) + list_sum(
            side_names(l, r),
            |n: Seq<char>| (slack_at(l, r))(n) * (const_weight(sigma))(n),
        ),
{
    let names = side_names(l, r);
    lemma_side_names(l, r);
    let e = c.rhs;
    assert forall|i: int| 0 <= i < e.terms.entries().len() implies names.contains(#[trigger] e.terms.entries()[i].0@) by {
        lemma_stored_nonzero(e, i);
        let m = e.terms.entries()[i].0@;
        assert(e.coeff_of(m) == if is_constant_term(m) { slack_coeff(l, r, m) } else { 0 });
        assert((slack_at(l, r))(m) != 0);
    }
    lemma_eval_by_names(e, names, value_fn(sigma));
    let f = |n: Seq<char>| e.coeff_of(n) * (value_fn(sigma))(n);
    let g = |n: Seq<char>| (slack_at(l, r))(n) * (const_weight(sigma))(n);
    assert forall|i: int| 0 <= i < names.len() implies f(#[trigger] names[i]) == g(names[i]) by {
        let m = names[i];
        assert(e.coeff_of(m) == if is_constant_term(m) { slack_coeff(l, r, m) } else { 0 });
    }
    lemma_list_sum_ext(names, f, g);
}

/// The constraint of program variable `v` evaluates to the change of its coefficient.
#[verifier::rlimit(40)]
proof fn lemma_program_eval(c: LinearConstraint, l: LinExpr, r: LinExpr, v: Seq<char>, sigma: KeyMap<String, i64>)
    requires
        l.wf(),
        r.wf(),
        all_classified(l, sigma),
        all_classified(r, sigma),
        program_constraint(c, l, r, v),
    ensures
        eval_at(c.rhs, value_fn(sigma)) == list_sum(
            side_names(l, r),
            |n: Seq<char>| (slack_at(l, r))(n) * (var_weight(sigma, v))(n),
        ),
{
    let names = side_names(l, r);
    lemma_side_names(l, r);
    lemma_image_members(names, v);
    let img = image_of(names, v);
    let e = c.rhs;
    let vf = value_fn(sigma);
    let sl = slack_at(l, r);
    assert forall|i: int| 0 <= i < e.terms.entries().len() implies img.contains(#[trigger] e.terms.entries()[i].0@) by {
        lemma_stored_nonzero(e, i);
        let m = e.terms.entries()[i].0@;
        assert(e.coeff_of(m) == program_coeff(l, r, v, m));
        assert(no_star(m));
        assert(sl(star_join(m, v)) != 0);
        assert(names.contains(star_join(m, v)));
    }
    lemma_eval_by_names(e, img, vf);
    let h = |m: Seq<char>| e.coeff_of(m) * vf(m);
    lemma_image_sum(names, v, h);
    let a = |n: Seq<char>| if no_star(n) && !is_solver_name(n) && n == v { sl(n) } else { 0 };
    let b = through_product(v, h);
    let ab = |n: Seq<char>| a(n) + b(n);
    let target = |n: Seq<char>| sl(n) * (var_weight(sigma, v))(n);
    assert forall|i: int| 0 <= i < names.len() implies target(#[trigger] names[i]) == ab(names[i]) by {
        let n = names[i];
        assert(names.contains(n));
        lemma_side_classified(l, r, sigma, n);
        lemma_split_parts(n);
        let w = (var_weight(sigma, v))(n);
        if no_star(n) && !is_solver_name(n) {
            assert(split_once_spec(n, '*') is None);
            assert(b(n) == 0);
            if n == v {
                assert(w == 1);
                assert(sl(n) * w == sl(n)) by (nonlinear_arith)
                    requires
                        w == 1,
                ;
            } else {
                assert(w == 0);
                assert(sl(n) * w == 0) by (nonlinear_arith)
                    requires
                        w == 0,
                ;
            }
        } else {
            assert(a(n) == 0);
            match split_once_spec(n, '*') {
                Some(p) => {
                    assert(n == star_join(p.0, p.1) && no_star(p.0));
                    assert(!is_constant_term(n));
                    assert(is_constant_term(p.0));
                    if p.1 == v {
                        assert(e.coeff_of(p.0) == program_coeff(l, r, v, p.0));
                        assert(e.coeff_of(p.0) == sl(n));
                        assert(w == vf(p.0));
                        assert(b(n) == h(p.0));
                    } else {
                        assert(w == 0);
                        assert(sl(n) * w == 0) by (nonlinear_arith)
                            requires
                                w == 0,
                        ;
                    }
                },
                None => {
                    assert(w == 0);
                    assert(sl(n) * w == 0) by (nonlinear_arith)
                        requires
                            w == 0,
                    ;
                },
            }
        }
    }
    lemma_list_sum_ext(names, target, ab);
    lemma_list_sum_add(names, a, b, ab);
    lemma_list_sum_single(names, a, v);
    assert(e.constant == program_constant(l, r, v));
    if !names.contains(v) {
        assert(sl(v) == 0);
    }
}

/// Every constraint holds under `sigma`: its left side is at most its right side.
pub open spec fn constraints_hold(cs: Seq<LinearConstraint>, sigma: KeyMap<String, i64>) -> bool {
    forall|i: int| 0 <= i < cs.len() ==> eval_at(cs[i].lhs, value_fn(sigma)) <= #[trigger] eval_at(cs[i].rhs, value_fn(sigma))
}

/// The exact check passes on the two sides with `sigma` substituted: the
/// right side has at least the constant and every coefficient of the left.
pub open spec fn substituted_check(l: LinExpr, r: LinExpr, sigma: KeyMap<String, i64>) -> bool {
    &&& r.substituted(sigma).0 >= l.substituted(sigma).0
    &&& forall|x: Seq<char>| #[trigger] get0(r.substituted(sigma).1, x) >= get0(l.substituted(sigma).1, x)
}

proof fn lemma_suffix(p: Seq<char>, a: Seq<char>, b: Seq<char>)
    requires
        p + a == p + b,
    ensures
        a == b,
{
    assert(a =~= (p + a).skip(p.len() as int));
    assert(b =~= (p + b).skip(p.len() as int));
}

/// A coefficient that no constraint speaks of does not change.
proof fn lemma_silent_var(l: LinExpr, r: LinExpr, sigma: KeyMap<String, i64>, x: Seq<char>)
    requires
        l.wf(),
        r.wf(),
        !has_program_var(l, r, x),
    ensures
        list_sum(side_names(l, r), |n: Seq<char>| (slack_at(l, r))(n) * (var_weight(sigma, x))(n)) == 0,
{
    let names = side_names(l, r);
    let f = |n: Seq<char>| (slack_at(l, r))(n) * (var_weight(sigma, x))(n);
    assert forall|i: int| 0 <= i < names.len() implies f(#[trigger] names[i]) == (|n: Seq<char>| 0int)(names[i]) by {
        let n = names[i];
        let w = (var_weight(sigma, x))(n);
        lemma_split_parts(n);
        if w != 0 {
            assert(!is_constant_term(n));
            assert(program_var_of(n) == x);
            if slack_coeff(l, r, n) != 0 {
                assert(has_program_var(l, r, x));
            }
            assert((slack_at(l, r))(n) == 0);
        }
        assert(f(n) == 0) by (nonlinear_arith)
            requires
                f(n) == (slack_at(l, r))(n) * w,
                w == 0 || (slack_at(l, r))(n) == 0,
        ;
    }
    lemma_list_sum_ext(names, f, |n: Seq<char>| 0int);
    lemma_list_sum_zero(names);
}

/// The constraints generated for `lhs <= rhs` hold under `sigma` exactly when
/// the exact check passes on the two sides with `sigma` substituted, where
/// every term name is a solver coefficient that `sigma` gives, a program
/// variable it does not give, or a product `s*p` of the two.
#[verifier::rlimit(60)]
pub proof fn lemma_constraints_exact(
    cs: Seq<LinearConstraint>,
    name: Seq<char>,
    l: LinExpr,
    r: LinExpr,
    sigma: KeyMap<String, i64>,
)
    requires
        l.wf(),
        r.wf(),
        all_classified(l, sigma),
        all_classified(r, sigma),
        leq_constraints(cs, name, l, r),
    ensures
        constraints_hold(cs, sigma) == substituted_check(l, r, sigma),
{
    let names = side_names(l, r);
    let vf = value_fn(sigma);
    lemma_side_names(l, r);
    let le = l.terms.entries();
    let re = r.terms.entries();
    lemma_subst_closed(l, sigma, le.len());
    lemma_subst_closed(r, sigma, re.len());
    assert(le.take(le.len() as int) =~= le);
    assert(re.take(re.len() as int) =~= re);
    lemma_diff_sum(l, r, names, const_weight(sigma));
    let d0 = r.substituted(sigma).0 - l.substituted(sigma).0;
    assert(d0 == (r.constant - l.constant) + list_sum(names, |n: Seq<char>| (slack_at(l, r))(n) * (const_weight(sigma))(n)));
    assert forall|x: Seq<char>| #[trigger] get0(r.substituted(sigma).1, x) - get0(l.substituted(sigma).1, x) == list_sum(
        names,
        |n: Seq<char>| (slack_at(l, r))(n) * (var_weight(sigma, x))(n),
    ) by {
        lemma_diff_sum(l, r, names, var_weight(sigma, x));
    }
    // every left side is zero
    assert forall|i: int| 0 <= i < cs.len() implies #[trigger] eval_at(cs[i].lhs, vf) == 0 by {
        if i == 0 {
            assert(constant_constraint(cs[0], l, r));
        } else {
            assert(constraint_of_some_var(cs[i], name, l, r));
        }
        assert(cs[i].lhs.terms.entries().len() == 0);
    }
    lemma_constant_eval(cs[0], l, r, sigma);
    // the constraint of each program variable
    assert forall|j: int| #![trigger cs[j]] 1 <= j < cs.len() implies exists|v: Seq<char>| #[trigger] has_program_var(l, r, v) && eval_at(
        cs[j].rhs,
        vf,
    ) == get0(r.substituted(sigma).1, v) - get0(l.substituted(sigma).1, v) by {
        assert(constraint_of_some_var(cs[j], name, l, r));
        let v = choose|v: Seq<char>| {
            &&& cs[j].name@ == #[trigger] coeff_constraint_name(name, v)
            &&& has_program_var(l, r, v)
            &&& program_constraint(cs[j], l, r, v)
        };
        lemma_program_eval(cs[j], l, r, v, sigma);
        assert(get0(r.substituted(sigma).1, v) - get0(l.substituted(sigma).1, v) == list_sum(
            names,
            |n: Seq<char>| (slack_at(l, r))(n) * (var_weight(sigma, v))(n),
        ));
    }
    if constraints_hold(cs, sigma) {
        assert(eval_at(cs[0].lhs, vf) <= eval_at(cs[0].rhs, vf));
        assert forall|x: Seq<char>| #[trigger] get0(r.substituted(sigma).1, x) >= get0(l.substituted(sigma).1, x) by {
            assert(get0(r.substituted(sigma).1, x) - get0(l.substituted(sigma).1, x) == list_sum(
                names,
                |n: Seq<char>| (slack_at(l, r))(n) * (var_weight(sigma, x))(n),
            ));
            if has_program_var(l, r, x) {
                let j = choose|j: int| 1 <= j < cs.len() && #[trigger] cs[j].name@ == coeff_constraint_name(name, x);
                assert(constraint_of_some_var(cs[j], name, l, r));
                let v = choose|v: Seq<char>| {
                    &&& cs[j].name@ == #[trigger] coeff_constraint_name(name, v)
                    &&& has_program_var(l, r, v)
                    &&& program_constraint(cs[j], l, r, v)
                };
                assert(name + ":coeff:"@ + v == name + ":coeff:"@ + x);
                lemma_suffix(name + ":coeff:"@, v, x);
                lemma_program_eval(cs[j], l, r, x, sigma);
                assert(eval_at(cs[j].lhs, vf) <= eval_at(cs[j].rhs, vf));
            } else {
                lemma_silent_var(l, r, sigma, x);
            }
        }
    }
    if substituted_check(l, r, sigma) {
        assert forall|i: int| 0 <= i < cs.len() implies eval_at(cs[i].lhs, vf) <= #[trigger] eval_at(cs[i].rhs, vf) by {
            if i > 0 {
                let v = choose|v: Seq<char>| #[trigger] has_program_var(l, r, v) && eval_at(cs[i].rhs, vf) == get0(
                    r.substituted(sigma).1,
                    v,
                ) - get0(l.substituted(sigma).1, v);
                assert(get0(r.substituted(sigma).1, v) >= get0(l.substituted(sigma).1, v));
            }
        }
    }
}

/// What `lp::eval` computes of an expression's terms is its sum under `value_fn`.
pub proof fn lemma_eval_terms_is_sum(es: Seq<(String, i64)>, sigma: KeyMap<String, i64>)
    ensures
        eval_terms(es, sigma) == entries_sum(es, value_fn(sigma)),
    decreases es.len(),
{
    if es.len() > 0 {
        lemma_eval_terms_is_sum(es.drop_last(), sigma);
    }
}

} // verus!
