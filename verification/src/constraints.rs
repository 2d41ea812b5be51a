//! Linear constraints on solver coefficients that make an obligation hold
//! for all non-negative program variables.
use vstd::prelude::*;
use crate::expr::{in_i64, is_solver_name, lemma_string_key, map_coeff, LinExpr};
use crate::keymap::{lemma_path_lt_irrefl, lemma_path_lt_single, path_lt, KeyMap, TextKey};
use crate::lp::{ConstraintOp, LinearConstraint, LinearProblem};
use crate::obligation::{expr_value, leq_fits, Obligation};
use crate::text::{
    concat2, concat3, lemma_first_index_unique, lemma_seq_lt_skip, owned, seq_lt, split_once_char,
    split_once_spec, starts_with,
};

verus! {

/// No `*` occurs in `m`.
pub open spec fn no_star(m: Seq<char>) -> bool {
    forall|j: int| 0 <= j < m.len() ==> m[j] != '*'
}

/// The encoded product name `m*v`.
pub open spec fn star_join(m: Seq<char>, v: Seq<char>) -> Seq<char> {
    m + seq!['*'] + v
}

/// A plain solver coefficient (`a_…`/`c_…` without `*`): it goes to the constant dimension.
pub open spec fn is_constant_term(n: Seq<char>) -> bool {
    no_star(n) && is_solver_name(n)
}

/// The program variable a term belongs to: `v` for `m*v`, the name itself otherwise.
pub open spec fn program_var_of(n: Seq<char>) -> Seq<char> {
    match split_once_spec(n, '*') {
        Some(p) => p.1,
        None => n,
    }
}

/// Coefficient of `n` in the slack `rhs - lhs`.
pub open spec fn slack_coeff(lhs: LinExpr, rhs: LinExpr, n: Seq<char>) -> int {
    rhs.coeff_of(n) - lhs.coeff_of(n)
}

/// Constant part of the coefficient of program variable `v` in the slack.
pub open spec fn program_constant(lhs: LinExpr, rhs: LinExpr, v: Seq<char>) -> int {
    if no_star(v) && !is_solver_name(v) {
        slack_coeff(lhs, rhs, v)
    } else {
        0
    }
}

/// Coefficient of solver variable `m` in the coefficient of program variable `v`.
pub open spec fn program_coeff(lhs: LinExpr, rhs: LinExpr, v: Seq<char>, m: Seq<char>) -> int {
    if no_star(m) {
        slack_coeff(lhs, rhs, star_join(m, v))
    } else {
        0
    }
}

/// Some term of the slack belongs to program variable `v`.
pub open spec fn has_program_var(lhs: LinExpr, rhs: LinExpr, v: Seq<char>) -> bool {
    exists|n: Seq<char>| #[trigger] slack_coeff(lhs, rhs, n) != 0 && !is_constant_term(n) && program_var_of(n) == v
}

/// `0 <= rhs`: a zero left side and the `<=` operator.
pub open spec fn nonneg_form(c: LinearConstraint) -> bool {
    &&& c.lhs.wf()
    &&& c.lhs.constant == 0
    &&& c.lhs.terms.entries().len() == 0
    &&& c.op == ConstraintOp::Le
    &&& c.rhs.wf()
    &&& c.rhs.normalized()
}

/// `0 <= e` where `e` is the constant dimension of the slack: its constant
/// and its plain solver coefficients.
pub open spec fn constant_constraint(c: LinearConstraint, lhs: LinExpr, rhs: LinExpr) -> bool {
    &&& nonneg_form(c)
    &&& c.rhs.constant == rhs.constant - lhs.constant
    &&& forall|m: Seq<char>| #[trigger] c.rhs.coeff_of(m) == if is_constant_term(m) { slack_coeff(lhs, rhs, m) } else { 0 }
}

/// `0 <= e` where `e` is the coefficient of program variable `v` in the slack.
pub open spec fn program_constraint(c: LinearConstraint, lhs: LinExpr, rhs: LinExpr, v: Seq<char>) -> bool {
    &&& nonneg_form(c)
    &&& c.rhs.constant == program_constant(lhs, rhs, v)
    &&& forall|m: Seq<char>| #[trigger] c.rhs.coeff_of(m) == program_coeff(lhs, rhs, v, m)
}

/// `0 <= e'` with `e'` of the same value as `e`.
pub open spec fn copy_constraint(c: LinearConstraint, e: LinExpr) -> bool {
    &&& nonneg_form(c)
    &&& c.rhs.constant == e.constant
    &&& forall|m: Seq<char>| #[trigger] c.rhs.coeff_of(m) == e.coeff_of(m)
}

/// `c` is the constraint, named after `name`, of some program variable of the slack.
pub open spec fn constraint_of_some_var(c: LinearConstraint, name: Seq<char>, lhs: LinExpr, rhs: LinExpr) -> bool {
    exists|v: Seq<char>| {
        &&& c.name@ == #[trigger] coeff_constraint_name(name, v)
        &&& has_program_var(lhs, rhs, v)
        &&& program_constraint(c, lhs, rhs, v)
    }
}

/// Name of the constraint on program variable `v`.
pub open spec fn coeff_constraint_name(name: Seq<char>, v: Seq<char>) -> Seq<char> {
    name + ":coeff:"@ + v
}

pub(crate) proof fn lemma_split_star_join(m: Seq<char>, v: Seq<char>)
    requires
        no_star(m),
    ensures
        split_once_spec(star_join(m, v), '*') == Some((m, v)),
{
    let s = star_join(m, v);
    let i = m.len() as int;
    assert(s[i] == '*');
    assert forall|j: int| 0 <= j < i implies s[j] != '*' by {
        assert(s[j] == m[j]);
    }
    lemma_first_index_unique(s, '*', i);
    assert(s.take(i) =~= m);
    assert(s.skip(i + 1) =~= v);
}

pub(crate) proof fn lemma_split_parts(n: Seq<char>)
    ensures
        split_once_spec(n, '*') is None <==> no_star(n),
        split_once_spec(n, '*') matches Some(p) ==> n == star_join(p.0, p.1) && no_star(p.0),
{
    if exists|i: int| 0 <= i < n.len() && n[i] == '*' {
        let w = choose|i: int| 0 <= i < n.len() && n[i] == '*';
        assert(n[w] == '*');
        let k = choose|i: int| 0 <= i < n.len() && n[i] == '*' && forall|j: int| 0 <= j < i ==> n[j] != '*';
        // a first occurrence exists
        assert(exists|i: int| 0 <= i < n.len() && n[i] == '*' && forall|j: int| 0 <= j < i ==> n[j] != '*') by {
            lemma_first_star(n, w);
        }
        assert(0 <= k < n.len() && n[k] == '*' && forall|j: int| 0 <= j < k ==> n[j] != '*');
        assert(n =~= star_join(n.take(k), n.skip(k + 1)));
        assert(!no_star(n));
    } else {
        assert forall|j: int| 0 <= j < n.len() implies n[j] != '*' by {
        }
    }
}

proof fn lemma_first_star(n: Seq<char>, w: int)
    requires
        0 <= w < n.len(),
        n[w] == '*',
    ensures
        exists|i: int| 0 <= i < n.len() && n[i] == '*' && forall|j: int| 0 <= j < i ==> n[j] != '*',
    decreases w,
{
    if exists|j: int| 0 <= j < w && n[j] == '*' {
        let j = choose|j: int| 0 <= j < w && n[j] == '*';
        lemma_first_star(n, j);
    } else {
        assert(0 <= w < n.len() && n[w] == '*' && forall|j: int| 0 <= j < w ==> n[j] != '*');
    }
}

/// `m*v == m2*v` with both `m`, `m2` free of `*` only when `m == m2`.
proof fn lemma_star_join_injective(m: Seq<char>, m2: Seq<char>, v: Seq<char>, v2: Seq<char>)
    requires
        no_star(m),
        no_star(m2),
        star_join(m, v) == star_join(m2, v2),
    ensures
        m == m2,
        v == v2,
{
    lemma_split_star_join(m, v);
    lemma_split_star_join(m2, v2);
}

/// Adds `expr` to the coefficient expression stored for `program_var`.
fn add_to_coeff(coeffs: &mut KeyMap<String, LinExpr>, program_var: &str, expr: LinExpr)
    requires
        old(coeffs).wf(),
        forall|k: Seq<Seq<char>>| #[trigger] old(coeffs)@.contains_key(k) ==> old(coeffs)@[k].wf(),
        expr.wf(),
        old(coeffs)@.contains_key(seq![program_var@]) ==> old(coeffs)@[seq![program_var@]].add_fits(expr),
    ensures
        final(coeffs).wf(),
        forall|k: Seq<Seq<char>>| #[trigger] final(coeffs)@.contains_key(k) ==> final(coeffs)@[k].wf(),
        final(coeffs)@ == old(coeffs)@.insert(seq![program_var@], final(coeffs)@[seq![program_var@]]),
        final(coeffs)@[seq![program_var@]].normalized(),
        final(coeffs)@[seq![program_var@]].constant == expr.constant + if old(coeffs)@.contains_key(
            seq![program_var@],
        ) {
            old(coeffs)@[seq![program_var@]].constant as int
        } else {
            0
        },
        forall|n: Seq<char>| #[trigger] final(coeffs)@[seq![program_var@]].coeff_of(n) == expr.coeff_of(n)
            + if old(coeffs)@.contains_key(seq![program_var@]) {
            old(coeffs)@[seq![program_var@]].coeff_of(n)
        } else {
            0
        },
{
    let key = owned(program_var);
    proof {
        lemma_string_key(key);
    }
    let updated = match coeffs.get(&key) {
        Some(e) => e.add(&expr),
        None => {
            let z = LinExpr::zero();
            assert(z.add_fits(expr)) by {
                assert forall|n: Seq<char>| in_i64(#[trigger] z.coeff_of(n) + expr.coeff_of(n)) by {
                    assert(z.coeff_of(n) == 0);
                    if expr.terms@.contains_key(seq![n]) {
                        assert(in_i64(expr.terms@[seq![n]] as int));
                    }
                }
            }
            let r = z.add(&expr);
            assert forall|n: Seq<char>| #[trigger] r.coeff_of(n) == expr.coeff_of(n) by {
                assert(z.coeff_of(n) == 0);
            }
            r
        },
    };
    coeffs.insert(key, updated);
}

/// Whether a term names a solver coefficient (`a_…` or `c_…`).
fn is_solver_var(term: &str) -> (r: bool)
    ensures
        r == is_solver_name(term@),
{
    proof {
        reveal_strlit("a_");
        reveal_strlit("c_");
        assert("a_"@ =~= seq!['a', '_']);
        assert("c_"@ =~= seq!['c', '_']);
    }
    starts_with(term, "a_") || starts_with(term, "c_")
}

/// The slack coefficient of `n`, counted only once its term has been processed.
pub open spec fn done(s: LinExpr, n: Seq<char>, i: int) -> bool {
    s.terms@.contains_key(seq![n]) && s.terms.index_of(seq![n]) < i
}

/// The constant dimension after the first `i` slack terms: every plain
/// solver coefficient processed so far, in name order.
pub open spec fn constants_ok(s: LinExpr, ct: KeyMap<String, i64>, i: int) -> bool {
    &&& ct.wf()
    &&& forall|j: int| 0 <= j < ct.entries().len() ==> #[trigger] ct.entries()[j].1 != 0
    &&& forall|j: int, t: int|
        0 <= j < ct.entries().len() && i <= t < s.terms.entries().len() ==> path_lt(
            #[trigger] ct.key_at(j),
            #[trigger] s.terms.key_at(t),
        )
    &&& forall|m: Seq<char>| #[trigger]
        map_coeff(ct@, m) == if is_constant_term(m) && done(s, m, i) {
            s.coeff_of(m)
        } else {
            0
        }
}

/// Which program variables have an entry after the first `i` slack terms.
#[verifier::opaque]
pub open spec fn pr_members(s: LinExpr, pr: Map<Seq<Seq<char>>, LinExpr>, i: int) -> bool {
    forall|v: Seq<char>| #[trigger]
        pr.contains_key(seq![v]) <==> exists|n: Seq<char>|
            #[trigger] done(s, n, i) && !is_constant_term(n) && program_var_of(n) == v
}

/// The constants of the entries after the first `i` slack terms.
#[verifier::opaque]
pub open spec fn pr_constants(s: LinExpr, pr: Map<Seq<Seq<char>>, LinExpr>, i: int) -> bool {
    forall|v: Seq<char>| #[trigger]
        pr.contains_key(seq![v]) ==> pr[seq![v]].constant == if no_star(v) && !is_solver_name(v) && done(s, v, i) {
            s.coeff_of(v)
        } else {
            0
        }
}

/// The coefficients of the entries after the first `i` slack terms.
#[verifier::opaque]
pub open spec fn pr_coeffs(s: LinExpr, pr: Map<Seq<Seq<char>>, LinExpr>, i: int) -> bool {
    forall|v: Seq<char>, m: Seq<char>| #[trigger]
        pr.contains_key(seq![v]) ==> #[trigger] pr[seq![v]].coeff_of(m) == if no_star(m) && done(s, star_join(m, v), i) {
            s.coeff_of(star_join(m, v))
        } else {
            0
        }
}

/// The per-program-variable coefficients after the first `i` slack terms.
pub open spec fn program_ok(s: LinExpr, pr: KeyMap<String, LinExpr>, i: int) -> bool {
    &&& pr.wf()
    &&& forall|k: Seq<Seq<char>>| #[trigger] pr@.contains_key(k) ==> pr@[k].wf() && pr@[k].normalized() && k.len() == 1
    &&& pr_members(s, pr@, i)
    &&& pr_constants(s, pr@, i)
    &&& pr_coeffs(s, pr@, i)
}

/// Processing term `i` changes `done` only for its own name.
proof fn lemma_done_step(s: LinExpr, i: int)
    requires
        s.wf(),
        0 <= i < s.terms.entries().len(),
    ensures
        done(s, s.terms.entries()[i].0@, i + 1),
        !done(s, s.terms.entries()[i].0@, i),
        s.coeff_of(s.terms.entries()[i].0@) == s.terms.entries()[i].1,
        forall|x: Seq<char>| x != s.terms.entries()[i].0@ ==> #[trigger] done(s, x, i + 1) == done(s, x, i),
{
    s.terms.lemma_index_of(i);
    let n = s.terms.entries()[i].0;
    lemma_string_key(n);
    assert forall|x: Seq<char>| x != n@ implies #[trigger] done(s, x, i + 1) == done(s, x, i) by {
        if s.terms@.contains_key(seq![x]) && s.terms.index_of(seq![x]) == i {
            assert(s.terms.key_at(i) == seq![x]);
            assert(seq![x][0] == seq![n@][0]);
        }
    }
}

proof fn lemma_single_ne(x: Seq<char>, y: Seq<char>)
    requires
        x != y,
    ensures
        seq![x] != seq![y],
{
    assert(seq![x][0] != seq![y][0]);
}

/// Membership after a term: a program term adds its variable, a constant term nothing.
proof fn lemma_members_step(s: LinExpr, i: int, before: Map<Seq<Seq<char>>, LinExpr>, after: Map<Seq<Seq<char>>, LinExpr>)
    requires
        s.wf(),
        0 <= i < s.terms.entries().len(),
        pr_members(s, before, i),
        is_constant_term(s.terms.entries()[i].0@) ==> after.dom() == before.dom(),
        !is_constant_term(s.terms.entries()[i].0@) ==> after.dom() == before.dom().insert(
            seq![program_var_of(s.terms.entries()[i].0@)],
        ),
    ensures
        pr_members(s, after, i + 1),
{
    reveal(pr_members);
    lemma_done_step(s, i);
    let nv = s.terms.entries()[i].0@;
    assert forall|x: Seq<char>| #[trigger]
        after.contains_key(seq![x]) <==> exists|n2: Seq<char>|
            #[trigger] done(s, n2, i + 1) && !is_constant_term(n2) && program_var_of(n2) == x by {
        if !is_constant_term(nv) && x == program_var_of(nv) {
            assert(done(s, nv, i + 1) && !is_constant_term(nv) && program_var_of(nv) == x);
        } else {
            if !is_constant_term(nv) {
                lemma_single_ne(x, program_var_of(nv));
            }
            assert(after.contains_key(seq![x]) == before.contains_key(seq![x]));
            if exists|n2: Seq<char>| #[trigger] done(s, n2, i + 1) && !is_constant_term(n2) && program_var_of(n2) == x {
                let n2 = choose|n2: Seq<char>| #[trigger] done(s, n2, i + 1) && !is_constant_term(n2) && program_var_of(n2) == x;
                assert(n2 != nv);
                assert(done(s, n2, i));
            }
            if before.contains_key(seq![x]) {
                let n2 = choose|n2: Seq<char>| #[trigger] done(s, n2, i) && !is_constant_term(n2) && program_var_of(n2) == x;
                assert(n2 != nv);
                assert(done(s, n2, i + 1));
            }
        }
    }
}

/// Constants after a term that leaves every constant as it was.
proof fn lemma_constants_keep(s: LinExpr, i: int, before: Map<Seq<Seq<char>>, LinExpr>, after: Map<Seq<Seq<char>>, LinExpr>)
    requires
        s.wf(),
        0 <= i < s.terms.entries().len(),
        pr_constants(s, before, i),
        pr_members(s, before, i),
        !(no_star(s.terms.entries()[i].0@) && !is_solver_name(s.terms.entries()[i].0@)),
        forall|k: Seq<Seq<char>>| #[trigger] after.contains_key(k) ==> before.contains_key(k) || after[k].constant == 0,
        forall|k: Seq<Seq<char>>| #[trigger] after.contains_key(k) && before.contains_key(k) ==> after[k].constant == before[k].constant,
    ensures
        pr_constants(s, after, i + 1),
{
    reveal(pr_constants);
    reveal(pr_members);
    lemma_done_step(s, i);
    let nv = s.terms.entries()[i].0@;
    assert forall|v: Seq<char>| #[trigger] after.contains_key(seq![v]) implies after[seq![v]].constant == if no_star(v)
        && !is_solver_name(v) && done(s, v, i + 1) {
        s.coeff_of(v)
    } else {
        0
    } by {
        if v != nv {
            assert(done(s, v, i + 1) == done(s, v, i));
        }
        if !before.contains_key(seq![v]) {
            assert(after[seq![v]].constant == 0);
            if no_star(v) && !is_solver_name(v) && done(s, v, i + 1) {
                lemma_split_parts(v);
                assert(done(s, v, i) && !is_constant_term(v) && program_var_of(v) == v);
            }
        }
    }
}

/// Constants after a plain program term `v`: the entry of `v` gains its coefficient.
proof fn lemma_constants_plain(s: LinExpr, i: int, before: Map<Seq<Seq<char>>, LinExpr>, after: Map<Seq<Seq<char>>, LinExpr>)
    requires
        s.wf(),
        0 <= i < s.terms.entries().len(),
        pr_constants(s, before, i),
        no_star(s.terms.entries()[i].0@),
        !is_solver_name(s.terms.entries()[i].0@),
        after == before.insert(seq![s.terms.entries()[i].0@], after[seq![s.terms.entries()[i].0@]]),
        after[seq![s.terms.entries()[i].0@]].constant == s.terms.entries()[i].1 + if before.contains_key(
            seq![s.terms.entries()[i].0@],
        ) {
            before[seq![s.terms.entries()[i].0@]].constant as int
        } else {
            0
        },
    ensures
        pr_constants(s, after, i + 1),
{
    reveal(pr_constants);
    lemma_done_step(s, i);
    let nv = s.terms.entries()[i].0@;
    assert forall|v: Seq<char>| #[trigger] after.contains_key(seq![v]) implies after[seq![v]].constant == if no_star(v)
        && !is_solver_name(v) && done(s, v, i + 1) {
        s.coeff_of(v)
    } else {
        0
    } by {
        if v != nv {
            lemma_single_ne(v, nv);
            assert(done(s, v, i + 1) == done(s, v, i));
            assert(after[seq![v]] == before[seq![v]]);
        } else if before.contains_key(seq![v]) {
            assert(before[seq![v]].constant == 0);
        }
    }
}

/// Coefficients after a term that adds no coefficient anywhere.
proof fn lemma_coeffs_keep(s: LinExpr, i: int, before: Map<Seq<Seq<char>>, LinExpr>, after: Map<Seq<Seq<char>>, LinExpr>)
    requires
        s.wf(),
        0 <= i < s.terms.entries().len(),
        pr_coeffs(s, before, i),
        pr_members(s, before, i),
        no_star(s.terms.entries()[i].0@),
        forall|k: Seq<Seq<char>>, m: Seq<char>| #[trigger] after.contains_key(k) && !before.contains_key(k) ==> #[trigger] after[k].coeff_of(m) == 0,
        forall|k: Seq<Seq<char>>, m: Seq<char>| #[trigger] after.contains_key(k) && before.contains_key(k) ==> #[trigger] after[k].coeff_of(m) == before[k].coeff_of(m),
    ensures
        pr_coeffs(s, after, i + 1),
{
    reveal(pr_coeffs);
    reveal(pr_members);
    lemma_done_step(s, i);
    let nv = s.terms.entries()[i].0@;
    assert forall|v: Seq<char>, m: Seq<char>| #[trigger] after.contains_key(seq![v]) implies #[trigger] after[seq![v]].coeff_of(m) == if no_star(m)
        && done(s, star_join(m, v), i + 1) {
        s.coeff_of(star_join(m, v))
    } else {
        0
    } by {
        if star_join(m, v) == nv {
            assert(nv[m.len() as int] == '*');
        }
        assert(done(s, star_join(m, v), i + 1) == done(s, star_join(m, v), i));
        if before.contains_key(seq![v]) {
            assert(after[seq![v]].coeff_of(m) == before[seq![v]].coeff_of(m));
        } else {
            assert(after[seq![v]].coeff_of(m) == 0);
            if no_star(m) && done(s, star_join(m, v), i) {
                lemma_split_star_join(m, v);
                assert(!is_constant_term(star_join(m, v))) by {
                    assert(star_join(m, v)[m.len() as int] == '*');
                }
                assert(done(s, star_join(m, v), i) && !is_constant_term(star_join(m, v)) && program_var_of(star_join(m, v)) == v);
            }
        }
    }
}

/// Coefficients after a product term `m*v`: the entry of `v` gains `m`.
proof fn lemma_coeffs_product(
    s: LinExpr,
    i: int,
    before: Map<Seq<Seq<char>>, LinExpr>,
    after: Map<Seq<Seq<char>>, LinExpr>,
    mv: Seq<char>,
    vv: Seq<char>,
    term: LinExpr,
)
    requires
        s.wf(),
        0 <= i < s.terms.entries().len(),
        pr_coeffs(s, before, i),
        pr_members(s, before, i),
        s.terms.entries()[i].0@ == star_join(mv, vv),
        no_star(mv),
        forall|x: Seq<char>| #[trigger] term.coeff_of(x) == if x == mv { s.terms.entries()[i].1 as int } else { 0 },
        after == before.insert(seq![vv], after[seq![vv]]),
        forall|x: Seq<char>| #[trigger] after[seq![vv]].coeff_of(x) == term.coeff_of(x) + if before.contains_key(seq![vv]) {
            before[seq![vv]].coeff_of(x)
        } else {
            0
        },
    ensures
        pr_coeffs(s, after, i + 1),
{
    reveal(pr_coeffs);
    lemma_done_step(s, i);
    let nv = s.terms.entries()[i].0@;
    assert forall|v: Seq<char>, m: Seq<char>| #[trigger] after.contains_key(seq![v]) implies #[trigger] after[seq![v]].coeff_of(m) == if no_star(m)
        && done(s, star_join(m, v), i + 1) {
        s.coeff_of(star_join(m, v))
    } else {
        0
    } by {
        if no_star(m) && star_join(m, v) == nv {
            lemma_star_join_injective(m, mv, v, vv);
        }
        if star_join(m, v) != nv {
            assert(done(s, star_join(m, v), i + 1) == done(s, star_join(m, v), i));
        }
        if v != vv {
            lemma_single_ne(v, vv);
            assert(after[seq![v]] == before[seq![v]]);
        } else {
            assert(after[seq![v]].coeff_of(m) == term.coeff_of(m) + if before.contains_key(seq![vv]) {
                before[seq![vv]].coeff_of(m)
            } else {
                0
            });
            if m == mv {
                assert(!done(s, nv, i));
            }
            if !before.contains_key(seq![vv]) && m != mv && no_star(m) && done(s, star_join(m, v), i + 1) {
                reveal(pr_members);
                lemma_split_star_join(m, v);
                assert(!is_constant_term(star_join(m, v))) by {
                    assert(star_join(m, v)[m.len() as int] == '*');
                }
                assert(done(s, star_join(m, v), i) && !is_constant_term(star_join(m, v)) && program_var_of(star_join(m, v)) == v);
            }
        }
    }
}

/// Term `i` is a plain solver coefficient: it joins the constant dimension.
fn absorb_constant(s: &LinExpr, i: usize, ct: &mut KeyMap<String, i64>, pr: &KeyMap<String, LinExpr>)
    requires
        s.wf(),
        s.normalized(),
        i < s.terms.entries().len(),
        is_constant_term(s.terms.entries()[i as int].0@),
        constants_ok(*s, *old(ct), i as int),
        program_ok(*s, *pr, i as int),
    ensures
        constants_ok(*s, *final(ct), i + 1),
        program_ok(*s, *pr, i + 1),
{
    let e = s.terms.entry(i);
    let n = e.0.key_copy();
    let c = e.1;
    let ghost nv = n@;
    let ghost before = *ct;
    proof {
        lemma_done_step(*s, i as int);
        lemma_string_key(n);
        assert forall|j: int| 0 <= j < ct.entries().len() implies path_lt(#[trigger] ct.key_at(j), n.key_view()) by {
            assert(path_lt(ct.key_at(j), s.terms.key_at(i as int)));
        }
    }
    ct.push_last(n, c);
    proof {
        assert forall|j: int, t: int|
            0 <= j < ct.entries().len() && i + 1 <= t < s.terms.entries().len() implies path_lt(
            #[trigger] ct.key_at(j),
            #[trigger] s.terms.key_at(t),
        ) by {
            if j < before.entries().len() {
                assert(ct.key_at(j) == before.key_at(j));
                assert(path_lt(before.key_at(j), s.terms.key_at(t)));
            } else {
                assert(ct.key_at(j) == s.terms.key_at(i as int));
                assert(path_lt(s.terms.entries()[i as int].0.key_view(), s.terms.entries()[t].0.key_view()));
            }
        }
        assert forall|j: int| 0 <= j < ct.entries().len() implies #[trigger] ct.entries()[j].1 != 0 by {
            if j < before.entries().len() {
                assert(ct.entries()[j] == before.entries()[j]);
            } else {
                assert(s.terms.entries()[i as int].1 != 0);
            }
        }
        assert forall|x: Seq<char>| #[trigger]
            map_coeff(ct@, x) == if is_constant_term(x) && done(*s, x, i + 1) {
                s.coeff_of(x)
            } else {
                0
            } by {
            if x != nv {
                lemma_single_ne(x, nv);
                assert(map_coeff(ct@, x) == map_coeff(before@, x));
            }
        }
        lemma_members_step(*s, i as int, pr@, pr@);
        lemma_constants_keep(*s, i as int, pr@, pr@);
        lemma_coeffs_keep(*s, i as int, pr@, pr@);
    }
}

/// The constant dimension is untouched by a term that is not a plain solver coefficient.
proof fn lemma_constants_untouched(s: LinExpr, ct: KeyMap<String, i64>, i: int)
    requires
        s.wf(),
        0 <= i < s.terms.entries().len(),
        !is_constant_term(s.terms.entries()[i].0@),
        constants_ok(s, ct, i),
    ensures
        constants_ok(s, ct, i + 1),
{
    lemma_done_step(s, i);
    let nv = s.terms.entries()[i].0@;
    assert forall|x: Seq<char>| #[trigger]
        map_coeff(ct@, x) == if is_constant_term(x) && done(s, x, i + 1) {
            s.coeff_of(x)
        } else {
            0
        } by {
        if x != nv {
            assert(done(s, x, i + 1) == done(s, x, i));
        }
    }
    assert forall|j: int, t: int|
        0 <= j < ct.entries().len() && i + 1 <= t < s.terms.entries().len() implies path_lt(
        #[trigger] ct.key_at(j),
        #[trigger] s.terms.key_at(t),
    ) by {
    }
}

/// Term `i` is a plain program variable: its coefficient is that variable's constant.
fn absorb_plain(s: &LinExpr, i: usize, ct: &KeyMap<String, i64>, pr: &mut KeyMap<String, LinExpr>)
    requires
        s.wf(),
        s.normalized(),
        i < s.terms.entries().len(),
        no_star(s.terms.entries()[i as int].0@),
        !is_solver_name(s.terms.entries()[i as int].0@),
        constants_ok(*s, *ct, i as int),
        program_ok(*s, *old(pr), i as int),
    ensures
        constants_ok(*s, *ct, i + 1),
        program_ok(*s, *final(pr), i + 1),
{
    let e = s.terms.entry(i);
    let n = e.0.key_copy();
    let c = e.1;
    let ghost nv = n@;
    let ghost before = pr@;
    proof {
        lemma_done_step(*s, i as int);
        lemma_string_key(n);
        lemma_split_parts(nv);
        assert(program_var_of(nv) == nv);
    }
    let term = LinExpr::constant(c);
    proof {
        assert forall|x: Seq<char>| #[trigger] term.coeff_of(x) == 0 by {
        }
        if pr@.contains_key(seq![nv]) {
            let p = pr@[seq![nv]];
            assert forall|x: Seq<char>| in_i64(#[trigger] p.coeff_of(x) + term.coeff_of(x)) by {
                if p.terms@.contains_key(seq![x]) {
                    assert(in_i64(p.terms@[seq![x]] as int));
                }
            }
            reveal(pr_constants);
            assert(p.constant == 0);
        }
    }
    add_to_coeff(pr, n.as_str(), term);
    proof {
        assert(pr@.dom() =~= before.dom().insert(seq![nv]));
        lemma_members_step(*s, i as int, before, pr@);
        lemma_constants_plain(*s, i as int, before, pr@);
        assert forall|k: Seq<Seq<char>>, m: Seq<char>| #[trigger] pr@.contains_key(k) && !before.contains_key(k) implies #[trigger] pr@[k].coeff_of(m) == 0 by {
            assert(k == seq![nv]);
        }
        assert forall|k: Seq<Seq<char>>, m: Seq<char>| #[trigger] pr@.contains_key(k) && before.contains_key(k) implies #[trigger] pr@[k].coeff_of(m) == before[k].coeff_of(m) by {
            if k == seq![nv] {
                assert(pr@[k].coeff_of(m) == term.coeff_of(m) + before[k].coeff_of(m));
            }
        }
        lemma_coeffs_keep(*s, i as int, before, pr@);
        lemma_constants_untouched(*s, *ct, i as int);
        assert(pr@.contains_key(seq![nv]));
        lemma_values_ok(before, pr@, seq![nv]);
    }
}

/// Before a product term `m*v`, the entry of `v` has no `m` yet, so adding it fits.
proof fn lemma_product_fits(s: LinExpr, i: int, before: Map<Seq<Seq<char>>, LinExpr>, mv: Seq<char>, vv: Seq<char>, term: LinExpr)
    requires
        s.wf(),
        0 <= i < s.terms.entries().len(),
        pr_coeffs(s, before, i),
        s.terms.entries()[i].0@ == star_join(mv, vv),
        no_star(mv),
        term.constant == 0,
        forall|x: Seq<char>| #[trigger] term.coeff_of(x) == if x == mv { s.terms.entries()[i].1 as int } else { 0 },
        before.contains_key(seq![vv]) ==> before[seq![vv]].wf(),
    ensures
        before.contains_key(seq![vv]) ==> before[seq![vv]].add_fits(term),
{
    if before.contains_key(seq![vv]) {
        reveal(pr_coeffs);
        lemma_done_step(s, i);
        let p = before[seq![vv]];
        assert(p.coeff_of(mv) == 0);
        assert forall|x: Seq<char>| in_i64(#[trigger] p.coeff_of(x) + term.coeff_of(x)) by {
            if x != mv {
                if p.terms@.contains_key(seq![x]) {
                    assert(in_i64(p.terms@[seq![x]] as int));
                }
            }
        }
    }
}

/// Entries stay well formed when one key is (re)written with a well-formed value.
proof fn lemma_values_ok(before: Map<Seq<Seq<char>>, LinExpr>, after: Map<Seq<Seq<char>>, LinExpr>, key: Seq<Seq<char>>)
    requires
        forall|k: Seq<Seq<char>>| #[trigger] before.contains_key(k) ==> before[k].wf() && before[k].normalized() && k.len() == 1,
        after == before.insert(key, after[key]),
        after[key].wf(),
        after[key].normalized(),
        key.len() == 1,
    ensures
        forall|k: Seq<Seq<char>>| #[trigger] after.contains_key(k) ==> after[k].wf() && after[k].normalized() && k.len() == 1,
{
    assert forall|k: Seq<Seq<char>>| #[trigger] after.contains_key(k) implies after[k].wf() && after[k].normalized() && k.len() == 1 by {
        if k != key {
            assert(before.contains_key(k));
        }
    }
}

/// Term `i` is a product `m*v`: `m` joins the coefficient of `v`.
#[verifier::rlimit(80)]
#[verifier::spinoff_prover]
fn absorb_product(s: &LinExpr, i: usize, m: String, v: String, ct: &KeyMap<String, i64>, pr: &mut KeyMap<String, LinExpr>)
    requires
        s.wf(),
        s.normalized(),
        i < s.terms.entries().len(),
        split_once_spec(s.terms.entries()[i as int].0@, '*') == Some((m@, v@)),
        constants_ok(*s, *ct, i as int),
        program_ok(*s, *old(pr), i as int),
    ensures
        constants_ok(*s, *ct, i + 1),
        program_ok(*s, *final(pr), i + 1),
{
    let e = s.terms.entry(i);
    let c = e.1;
    let ghost nv = e.0@;
    let ghost mv = m@;
    let ghost vv = v@;
    let ghost before = pr@;
    proof {
        lemma_done_step(*s, i as int);
        lemma_split_parts(nv);
        assert(nv == star_join(mv, vv));
        assert(!is_constant_term(nv));
        assert(program_var_of(nv) == vv);
    }
    let term = LinExpr::var(m.as_str(), c);
    proof {
        lemma_product_fits(*s, i as int, before, mv, vv, term);
    }
    add_to_coeff(pr, v.as_str(), term);
    proof {
        assert(pr@.dom() =~= before.dom().insert(seq![vv]));
        lemma_members_step(*s, i as int, before, pr@);
        assert forall|k: Seq<Seq<char>>| #[trigger] pr@.contains_key(k) && before.contains_key(k) implies pr@[k].constant == before[k].constant by {
        }
        lemma_constants_keep(*s, i as int, before, pr@);
        lemma_coeffs_product(*s, i as int, before, pr@, mv, vv, term);
        lemma_constants_untouched(*s, *ct, i as int);
        assert(pr@.contains_key(seq![vv]));
        lemma_values_ok(before, pr@, seq![vv]);
    }
}

proof fn lemma_program_ok_empty(s: LinExpr, pr: KeyMap<String, LinExpr>)
    requires
        pr.wf(),
        pr@ == Map::<Seq<Seq<char>>, LinExpr>::empty(),
    ensures
        program_ok(s, pr, 0),
{
    reveal(pr_members);
    reveal(pr_constants);
    reveal(pr_coeffs);
}

/// Splits the slack into the constant dimension and one coefficient
/// expression per program variable.
fn group_slack(s: &LinExpr) -> (r: (KeyMap<String, i64>, KeyMap<String, LinExpr>))
    requires
        s.wf(),
        s.normalized(),
    ensures
        constants_ok(*s, r.0, s.terms.entries().len() as int),
        program_ok(*s, r.1, s.terms.entries().len() as int),
{
    let mut ct: KeyMap<String, i64> = KeyMap::new();
    let mut pr: KeyMap<String, LinExpr> = KeyMap::new();
    proof {
        lemma_program_ok_empty(*s, pr);
    }
    let mut i: usize = 0;
    while i < s.terms.len()
        invariant
            i <= s.terms.entries().len(),
            s.wf(),
            s.normalized(),
            constants_ok(*s, ct, i as int),
            program_ok(*s, pr, i as int),
        decreases s.terms.entries().len() - i,
    {
        let e = s.terms.entry(i);
        proof {
            lemma_split_parts(e.0@);
        }
        match split_once_char(e.0.as_str(), '*') {
            Some((m, v)) => absorb_product(s, i, m, v, &ct, &mut pr),
            None => {
                if is_solver_var(e.0.as_str()) {
                    absorb_constant(s, i, &mut ct, &pr);
                } else {
                    absorb_plain(s, i, &ct, &mut pr);
                }
            },
        }
        i = i + 1;
    }
    (ct, pr)
}

/// The expression is zero as stored: no constant and no terms.
pub open spec fn is_zero_expr(e: LinExpr) -> bool {
    e.constant == 0 && e.terms.entries().len() == 0
}

/// Positions `base..base + count` of `out` hold the constraints of the first
/// `count` entries of `pr`.
pub open spec fn emitted(out: Seq<LinearConstraint>, name: Seq<char>, pr: KeyMap<String, LinExpr>, base: int, count: int) -> bool {
    forall|t: int|
        base <= t < base + count ==> {
            &&& #[trigger] out[t].name@ == coeff_constraint_name(name, pr.entries()[t - base].0@)
            &&& copy_constraint(out[t], pr.entries()[t - base].1)
        }
}

/// Appends `0 <= e` for every entry `v ↦ e` of `pr`, in key order (no
/// entry is the zero expression, so none is left out).
#[verifier::rlimit(40)]
fn emit_program_constraints(name: &str, pr: &KeyMap<String, LinExpr>, out: &mut Vec<LinearConstraint>)
    requires
        pr.wf(),
        forall|k: Seq<Seq<char>>| #[trigger] pr@.contains_key(k) ==> pr@[k].wf() && !is_zero_expr(pr@[k]) && pr@[k].normalized(),
    ensures
        final(out)@.len() == old(out)@.len() + pr.entries().len(),
        forall|t: int| 0 <= t < old(out)@.len() ==> #[trigger] final(out)@[t] == old(out)@[t],
        forall|t: int|
            old(out)@.len() <= t < final(out)@.len() ==> {
                &&& #[trigger] final(out)@[t].name@ == coeff_constraint_name(name@, pr.entries()[t - old(out)@.len()].0@)
                &&& copy_constraint(final(out)@[t], pr.entries()[t - old(out)@.len()].1)
            },
{
    let ghost base = out@.len();
    let mut j: usize = 0;
    while j < pr.len()
        invariant
            j <= pr.entries().len(),
            pr.wf(),
            forall|k: Seq<Seq<char>>| #[trigger] pr@.contains_key(k) ==> pr@[k].wf() && !is_zero_expr(pr@[k]) && pr@[k].normalized(),
            out@.len() == base + j,
            forall|t: int| 0 <= t < base ==> #[trigger] out@[t] == old(out)@[t],
            emitted(out@, name@, *pr, base as int, j as int),
        decreases pr.entries().len() - j,
    {
        let e = pr.entry(j);
        let pv = &e.0;
        let ce = &e.1;
        proof {
            pr.lemma_index_of(j as int);
            assert(pr@[pr.key_at(j as int)] == *ce);
        }
        let ghost before_out = out@;
        proof {
            assert(pr@.contains_key(pr.key_at(j as int)));
            assert(!is_zero_expr(*ce));
        }
        let rhs_e = ce.clone_expr();
        let c = LinearConstraint {
            name: concat3(name, ":coeff:", pv.as_str()),
            lhs: LinExpr::constant(0),
            op: ConstraintOp::Le,
            rhs: rhs_e,
        };
        proof {
            reveal_strlit(":coeff:");
            assert forall|m: Seq<char>| #[trigger] c.rhs.coeff_of(m) == pr.entries()[j as int].1.coeff_of(m) by {
            }
        }
        out.push(c);
        proof {
            assert forall|t: int|
                base <= t < base + j + 1 implies {
                    &&& #[trigger] out@[t].name@ == coeff_constraint_name(name@, pr.entries()[t - base].0@)
                    &&& copy_constraint(out@[t], pr.entries()[t - base].1)
                } by {
                if t < base + j {
                    assert(emitted(before_out, name@, *pr, base as int, j as int));
                    assert(before_out[t].name@ == coeff_constraint_name(name@, pr.entries()[t - base].0@));
                    assert(out@[t] == before_out[t]);
                } else {
                    assert(out@[t] == c);
                }
            }
            assert(emitted(out@, name@, *pr, base as int, j + 1));
        }
        j = j + 1;
    }
}

/// A finished entry `v ↦ e` is the non-zero coefficient of program variable `v`.
proof fn lemma_program_entry(lhs: LinExpr, rhs: LinExpr, s: LinExpr, pr: Map<Seq<Seq<char>>, LinExpr>, len: int, v: Seq<char>)
    requires
        s.wf(),
        len == s.terms.entries().len(),
        forall|n: Seq<char>| #[trigger] s.coeff_of(n) == slack_coeff(lhs, rhs, n),
        forall|x: Seq<char>| #[trigger] done(s, x, len) == s.terms@.contains_key(seq![x]),
        forall|x: Seq<char>| s.terms@.contains_key(seq![x]) ==> #[trigger] s.coeff_of(x) != 0,
        forall|k: Seq<Seq<char>>| #[trigger] pr.contains_key(k) ==> pr[k].wf() && pr[k].normalized() && k.len() == 1,
        pr_members(s, pr, len),
        pr_constants(s, pr, len),
        pr_coeffs(s, pr, len),
        pr.contains_key(seq![v]),
    ensures
        has_program_var(lhs, rhs, v),
        !is_zero_expr(pr[seq![v]]),
        pr[seq![v]].constant == program_constant(lhs, rhs, v),
        forall|m: Seq<char>| #[trigger] pr[seq![v]].coeff_of(m) == program_coeff(lhs, rhs, v, m),
{
    reveal(pr_members);
    reveal(pr_constants);
    reveal(pr_coeffs);
    let p = pr[seq![v]];
    let n = choose|n: Seq<char>| #[trigger] done(s, n, len) && !is_constant_term(n) && program_var_of(n) == v;
    assert(s.coeff_of(n) != 0);
    assert(slack_coeff(lhs, rhs, n) != 0);
    lemma_split_parts(n);
    match split_once_spec(n, '*') {
        Some(q) => {
            assert(p.coeff_of(q.0) == s.coeff_of(star_join(q.0, v)));
            assert(p.coeff_of(q.0) != 0);
            assert(p.terms@.contains_key(seq![q.0]));
            assert(p.terms.has_key(seq![q.0]));
        },
        None => {
            assert(p.constant == s.coeff_of(v));
        },
    }
    assert forall|m: Seq<char>| #[trigger] p.coeff_of(m) == program_coeff(lhs, rhs, v, m) by {
        if no_star(m) && !s.terms@.contains_key(seq![star_join(m, v)]) {
            assert(s.coeff_of(star_join(m, v)) == 0);
        }
    }
    if !s.terms@.contains_key(seq![v]) {
        assert(s.coeff_of(v) == 0);
    }
}

/// Each emitted constraint is the constraint of a program variable of the slack.
#[verifier::rlimit(40)]
proof fn lemma_outputs_sound(
    lhs: LinExpr,
    rhs: LinExpr,
    name: Seq<char>,
    out: Seq<LinearConstraint>,
    pr: KeyMap<String, LinExpr>,
    s: LinExpr,
    len: int,
)
    requires
        s.wf(),
        len == s.terms.entries().len(),
        forall|n: Seq<char>| #[trigger] s.coeff_of(n) == slack_coeff(lhs, rhs, n),
        forall|x: Seq<char>| #[trigger] done(s, x, len) == s.terms@.contains_key(seq![x]),
        forall|x: Seq<char>| s.terms@.contains_key(seq![x]) ==> #[trigger] s.coeff_of(x) != 0,
        pr.wf(),
        pr_members(s, pr@, len),
        forall|v: Seq<char>| #[trigger] pr@.contains_key(seq![v]) ==> {
            &&& has_program_var(lhs, rhs, v)
            &&& pr@[seq![v]].constant == program_constant(lhs, rhs, v)
            &&& forall|m: Seq<char>| #[trigger] pr@[seq![v]].coeff_of(m) == program_coeff(lhs, rhs, v, m)
        },
        out.len() == 1 + pr.entries().len(),
        forall|t: int|
            1 <= t < out.len() ==> {
                &&& #[trigger] out[t].name@ == coeff_constraint_name(name, pr.entries()[t - 1].0@)
                &&& copy_constraint(out[t], pr.entries()[t - 1].1)
            },
    ensures
        forall|j: int| 1 <= j < out.len() ==> #[trigger] constraint_of_some_var(out[j], name, lhs, rhs),
{
    assert forall|j: int| 1 <= j < out.len() implies #[trigger] constraint_of_some_var(out[j], name, lhs, rhs) by {
        let t = j - 1;
        assert(out[t + 1].name@ == coeff_constraint_name(name, pr.entries()[t].0@));
        pr.lemma_index_of(t);
        lemma_string_key(pr.entries()[t].0);
        let v = pr.entries()[t].0@;
        assert(pr.key_at(t) == seq![v]);
        assert(pr@[seq![v]] == pr.entries()[t].1);
        assert(pr@.contains_key(seq![v]));
        assert forall|m: Seq<char>| #[trigger] out[j].rhs.coeff_of(m) == program_coeff(lhs, rhs, v, m) by {
            assert(out[j].rhs.coeff_of(m) == pr.entries()[t].1.coeff_of(m));
            assert(pr@[seq![v]].coeff_of(m) == program_coeff(lhs, rhs, v, m));
        }
        assert(out[j].name@ == coeff_constraint_name(name, v));
        assert(has_program_var(lhs, rhs, v));
        assert(program_constraint(out[j], lhs, rhs, v));
    }
}

/// Every program variable of the slack has an emitted constraint.
#[verifier::rlimit(100)]
proof fn lemma_outputs_complete(
    lhs: LinExpr,
    rhs: LinExpr,
    name: Seq<char>,
    out: Seq<LinearConstraint>,
    pr: KeyMap<String, LinExpr>,
    s: LinExpr,
    len: int,
)
    requires
        s.wf(),
        len == s.terms.entries().len(),
        forall|n: Seq<char>| #[trigger] s.coeff_of(n) == slack_coeff(lhs, rhs, n),
        forall|x: Seq<char>| #[trigger] done(s, x, len) == s.terms@.contains_key(seq![x]),
        forall|x: Seq<char>| s.terms@.contains_key(seq![x]) ==> #[trigger] s.coeff_of(x) != 0,
        pr.wf(),
        pr_members(s, pr@, len),
        forall|v: Seq<char>| #[trigger] pr@.contains_key(seq![v]) ==> {
            &&& has_program_var(lhs, rhs, v)
            &&& pr@[seq![v]].constant == program_constant(lhs, rhs, v)
            &&& forall|m: Seq<char>| #[trigger] pr@[seq![v]].coeff_of(m) == program_coeff(lhs, rhs, v, m)
        },
        out.len() == 1 + pr.entries().len(),
        forall|t: int|
            1 <= t < out.len() ==> {
                &&& #[trigger] out[t].name@ == coeff_constraint_name(name, pr.entries()[t - 1].0@)
                &&& copy_constraint(out[t], pr.entries()[t - 1].1)
            },
    ensures
        forall|v: Seq<char>|
            has_program_var(lhs, rhs, v) ==> exists|j: int|
                1 <= j < out.len() && #[trigger] out[j].name@ == coeff_constraint_name(name, v),
{
    assert forall|v: Seq<char>|
        has_program_var(lhs, rhs, v) implies exists|j: int|
            1 <= j < out.len() && #[trigger] out[j].name@ == coeff_constraint_name(name, v) by {
        let n = choose|n: Seq<char>| #[trigger] slack_coeff(lhs, rhs, n) != 0 && !is_constant_term(n) && program_var_of(n) == v;
        assert(s.coeff_of(n) != 0);
        assert(done(s, n, len));
        reveal(pr_members);
        assert(pr@.contains_key(seq![v]));
        assert(pr.has_key(seq![v]));
        let t = pr.index_of(seq![v]);
        pr.lemma_index_of(t);
        lemma_string_key(pr.entries()[t].0);
        assert(pr.entries()[t].0@ == v) by {
            assert(seq![pr.entries()[t].0@][0] == seq![v][0]);
        }
        assert(out[t + 1].name@ == coeff_constraint_name(name, pr.entries()[t].0@));
    }
}

/// The emitted constraints come in name order.
#[verifier::rlimit(40)]
proof fn lemma_outputs_sorted(
    lhs: LinExpr,
    rhs: LinExpr,
    name: Seq<char>,
    out: Seq<LinearConstraint>,
    pr: KeyMap<String, LinExpr>,
    s: LinExpr,
    len: int,
)
    requires
        s.wf(),
        len == s.terms.entries().len(),
        forall|n: Seq<char>| #[trigger] s.coeff_of(n) == slack_coeff(lhs, rhs, n),
        forall|x: Seq<char>| #[trigger] done(s, x, len) == s.terms@.contains_key(seq![x]),
        forall|x: Seq<char>| s.terms@.contains_key(seq![x]) ==> #[trigger] s.coeff_of(x) != 0,
        pr.wf(),
        pr_members(s, pr@, len),
        forall|v: Seq<char>| #[trigger] pr@.contains_key(seq![v]) ==> {
            &&& has_program_var(lhs, rhs, v)
            &&& pr@[seq![v]].constant == program_constant(lhs, rhs, v)
            &&& forall|m: Seq<char>| #[trigger] pr@[seq![v]].coeff_of(m) == program_coeff(lhs, rhs, v, m)
        },
        out.len() == 1 + pr.entries().len(),
        forall|t: int|
            1 <= t < out.len() ==> {
                &&& #[trigger] out[t].name@ == coeff_constraint_name(name, pr.entries()[t - 1].0@)
                &&& copy_constraint(out[t], pr.entries()[t - 1].1)
            },
    ensures
        forall|j: int, k: int| 1 <= j < k < out.len() ==> seq_lt(out[j].name@, out[k].name@),
{
    assert forall|j: int, k: int| 1 <= j < k < out.len() implies seq_lt(out[j].name@, out[k].name@) by {
        let a = out[j].name@;
        let b = out[k].name@;
        let ea = pr.entries()[j - 1].0;
        let eb = pr.entries()[k - 1].0;
        assert(out[j].name@ == coeff_constraint_name(name, ea@));
        assert(out[k].name@ == coeff_constraint_name(name, eb@));
        assert(path_lt(ea.key_view(), eb.key_view()));
        lemma_string_key(ea);
        lemma_string_key(eb);
        lemma_path_lt_single(ea@, eb@);
        let pre = name + ":coeff:"@;
        assert(a.take(pre.len() as int) =~= pre);
        assert(b.take(pre.len() as int) =~= pre);
        assert(a.skip(pre.len() as int) =~= ea@);
        assert(b.skip(pre.len() as int) =~= eb@);
        lemma_seq_lt_skip(a, b, pre.len() as int);
    }
}

/// The constant dimension at the end is the slack's constant and its plain solver coefficients.
proof fn lemma_constant_dim(lhs: LinExpr, rhs: LinExpr, s: LinExpr, ct: KeyMap<String, i64>, len: int)
    requires
        s.wf(),
        len == s.terms.entries().len(),
        forall|n: Seq<char>| #[trigger] s.coeff_of(n) == slack_coeff(lhs, rhs, n),
        forall|x: Seq<char>| #[trigger] done(s, x, len) == s.terms@.contains_key(seq![x]),
        constants_ok(s, ct, len),
    ensures
        forall|m: Seq<char>| #[trigger] map_coeff(ct@, m) == if is_constant_term(m) { slack_coeff(lhs, rhs, m) } else { 0 },
{
    assert forall|m: Seq<char>| #[trigger] map_coeff(ct@, m) == if is_constant_term(m) { slack_coeff(lhs, rhs, m) } else { 0 } by {
        if !s.terms@.contains_key(seq![m]) {
            assert(s.coeff_of(m) == 0);
        }
        assert(done(s, m, len) == s.terms@.contains_key(seq![m]));
    }
}

/// The constraints for `lhs <= rhs` named after `name`: first the constant
/// dimension, then one per program variable of the slack, in name order.
pub open spec fn leq_constraints(r: Seq<LinearConstraint>, name: Seq<char>, lhs: LinExpr, rhs: LinExpr) -> bool {
    &&& r.len() >= 1
    &&& r[0].name@ == name + ":constant"@
    &&& constant_constraint(r[0], lhs, rhs)
    &&& forall|j: int| 1 <= j < r.len() ==> #[trigger] constraint_of_some_var(r[j], name, lhs, rhs)
    &&& forall|v: Seq<char>|
        has_program_var(lhs, rhs, v) ==> exists|j: int| 1 <= j < r.len() && #[trigger] r[j].name@ == coeff_constraint_name(name, v)
    &&& forall|j: int, k: int| 1 <= j < k < r.len() ==> seq_lt(r[j].name@, r[k].name@)
}

/// The constraints generated for one obligation: those of
/// `actual + phi_after <= amortized + phi_before`.
pub open spec fn obligation_constraints(part: Seq<LinearConstraint>, o: Obligation) -> bool {
    exists|l: LinExpr, r: LinExpr| {
        &&& l.wf()
        &&& r.wf()
        &&& l.constant == o.actual.constant + o.phi_after.constant
        &&& r.constant == o.amortized.constant + o.phi_before.constant
        &&& (forall|n: Seq<char>| #[trigger] l.coeff_of(n) == o.actual.coeff_of(n) + o.phi_after.coeff_of(n))
        &&& (forall|n: Seq<char>| #[trigger] r.coeff_of(n) == o.amortized.coeff_of(n) + o.phi_before.coeff_of(n))
        &&& #[trigger] leq_constraints(part, o.name@, l, r)
    }
}

/// Every obligation is well formed and its check stays within `i64`.
pub open spec fn all_checkable(obligations: Seq<Obligation>) -> bool {
    forall|i: int| 0 <= i < obligations.len() ==> #[trigger] obligations[i].wf() && obligations[i].check_fits()
}

/// Concatenation of the parts, in order.
pub open spec fn flatten_parts(parts: Seq<Seq<LinearConstraint>>) -> Seq<LinearConstraint>
    decreases parts.len(),
{
    if parts.len() == 0 {
        Seq::empty()
    } else {
        flatten_parts(parts.drop_last()) + parts.last()
    }
}

/// Adds to `problem` the constraints of every obligation, in order.
pub fn generate_potential_constraints(problem: &mut LinearProblem, obligations: &[Obligation])
    requires
        all_checkable(obligations@),
    ensures
        final(problem).name == old(problem).name,
        final(problem).vars == old(problem).vars,
        final(problem).objective == old(problem).objective,
        final(problem).minimize == old(problem).minimize,
        exists|parts: Seq<Seq<LinearConstraint>>| {
            &&& parts.len() == obligations@.len()
            &&& final(problem).constraints@ == old(problem).constraints@ + #[trigger] flatten_parts(parts)
            &&& forall|i: int| 0 <= i < parts.len() ==> #[trigger] obligation_constraints(parts[i], obligations@[i])
        },
{
    let ghost parts: Seq<Seq<LinearConstraint>> = Seq::empty();
    let mut i: usize = 0;
    while i < obligations.len()
        invariant
            i <= obligations@.len(),
            all_checkable(obligations@),
            problem.name == old(problem).name,
            problem.vars == old(problem).vars,
            problem.objective == old(problem).objective,
            problem.minimize == old(problem).minimize,
            parts.len() == i,
            problem.constraints@ == old(problem).constraints@ + flatten_parts(parts),
            forall|k: int| 0 <= k < parts.len() ==> #[trigger] obligation_constraints(parts[k], obligations@[k]),
        decreases obligations@.len() - i,
    {
        let o = &obligations[i];
        assert(o.wf() && o.check_fits()) by {
            assert(obligations@[i as int].wf());
        }
        let ghost a = expr_value(o.actual);
        let ghost b = expr_value(o.phi_after);
        let ghost c = expr_value(o.amortized);
        let ghost d = expr_value(o.phi_before);
        assert(o.actual.add_fits(o.phi_after)) by {
            assert forall|n: Seq<char>| in_i64(#[trigger] o.actual.coeff_of(n) + o.phi_after.coeff_of(n)) by {
                assert(in_i64((a.1)(n) + (b.1)(n)));
            }
        }
        assert(o.amortized.add_fits(o.phi_before)) by {
            assert forall|n: Seq<char>| in_i64(#[trigger] o.amortized.coeff_of(n) + o.phi_before.coeff_of(n)) by {
                assert(in_i64((c.1)(n) + (d.1)(n)));
            }
        }
        let lhs = o.actual.add(&o.phi_after);
        let rhs = o.amortized.add(&o.phi_before);
        assert(rhs.sub_fits(lhs)) by {
            assert forall|n: Seq<char>| in_i64(#[trigger] lhs.coeff_of(n) * -1) by {
                assert(in_i64(-((a.1)(n) + (b.1)(n))));
            }
            assert forall|n: Seq<char>| in_i64(#[trigger] rhs.coeff_of(n) - lhs.coeff_of(n)) by {
                assert(in_i64(((c.1)(n) + (d.1)(n)) - ((a.1)(n) + (b.1)(n))));
            }
        }
        let mut cs = coeff_constraints_for_universal_leq(o.name.as_str(), &lhs, &rhs);
        let ghost csv = cs@;
        let ghost before = problem.constraints@;
        problem.constraints.append(&mut cs);
        proof {
            assert(obligation_constraints(csv, obligations@[i as int])) by {
                assert(leq_constraints(csv, o.name@, lhs, rhs));
            }
            let np = parts.push(csv);
            assert(np.drop_last() =~= parts);
            assert(flatten_parts(np) == flatten_parts(parts) + csv);
            assert(problem.constraints@ =~= old(problem).constraints@ + flatten_parts(np));
            parts = np;
        }
        i = i + 1;
    }
}

/// Constraints, over the solver coefficients, sufficient for `lhs <= rhs`
/// for all non-negative program variables.  The slack `rhs - lhs` is read
/// per program variable: a term `a*B` contributes `a` to the coefficient of
/// `B`, a plain program variable `B` its constant, and a plain solver
/// coefficient goes to the constant dimension.  The first constraint asks the
/// constant dimension to be non-negative, then one per program variable, in
/// name order.
#[verifier::rlimit(40)]
pub fn coeff_constraints_for_universal_leq(name: &str, lhs: &LinExpr, rhs: &LinExpr) -> (r: Vec<LinearConstraint>)
    requires
        lhs.wf(),
        rhs.wf(),
        rhs.sub_fits(*lhs),
    ensures
        leq_constraints(r@, name@, *lhs, *rhs),
{
    let slack = rhs.sub(lhs).normalize();
    let ghost s = slack;
    let (constant_terms, program) = group_slack(&slack);
    let ghost len = slack.terms.entries().len() as int;
    proof {
        assert forall|x: Seq<char>| #[trigger] done(s, x, len) == s.terms@.contains_key(seq![x]) by {
            if s.terms@.contains_key(seq![x]) {
                assert(s.terms.has_key(seq![x]));
            }
        }
        assert forall|x: Seq<char>| #[trigger] s.coeff_of(x) != 0 ==> s.terms@.contains_key(seq![x]) by {
        }
        assert forall|x: Seq<char>| s.terms@.contains_key(seq![x]) implies #[trigger] s.coeff_of(x) != 0 by {
            assert(s.terms.has_key(seq![x]));
            let k = s.terms.index_of(seq![x]);
            s.terms.lemma_index_of(k);
            assert(s.terms.entries()[k].1 != 0);
        }
    }
    let constant_coeff = LinExpr { constant: slack.constant, terms: constant_terms };
    let first = LinearConstraint {
        name: concat2(name, ":constant"),
        lhs: LinExpr::constant(0),
        op: ConstraintOp::Le,
        rhs: constant_coeff,
    };
    proof {
        reveal_strlit(":constant");
        lemma_constant_dim(*lhs, *rhs, s, constant_terms, len);
        assert forall|m: Seq<char>| #[trigger] first.rhs.coeff_of(m) == if is_constant_term(m) { slack_coeff(*lhs, *rhs, m) } else { 0 } by {
            assert(first.rhs.coeff_of(m) == map_coeff(constant_terms@, m));
        }
    }
    proof {
        assert forall|v: Seq<char>| #[trigger] program@.contains_key(seq![v]) implies {
            &&& has_program_var(*lhs, *rhs, v)
            &&& !is_zero_expr(program@[seq![v]])
            &&& program@[seq![v]].constant == program_constant(*lhs, *rhs, v)
            &&& forall|m: Seq<char>| #[trigger] program@[seq![v]].coeff_of(m) == program_coeff(*lhs, *rhs, v, m)
        } by {
            lemma_program_entry(*lhs, *rhs, s, program@, len, v);
        }
        assert forall|k: Seq<Seq<char>>| #[trigger] program@.contains_key(k) implies program@[k].wf() && !is_zero_expr(program@[k]) && program@[k].normalized() by {
            assert(k.len() == 1);
            assert(k == seq![k[0]]);
        }
    }
    let mut out: Vec<LinearConstraint> = Vec::new();
    out.push(first);
    emit_program_constraints(name, &program, &mut out);
    proof {
        assert(out@[0] == first);
        lemma_outputs_sound(*lhs, *rhs, name@, out@, program, s, len);
        lemma_outputs_complete(*lhs, *rhs, name@, out@, program, s, len);
        lemma_outputs_sorted(*lhs, *rhs, name@, out@, program, s, len);
    }
    out
}

} // verus!
