//! What a linear expression is worth once its variables have values, and
//! why the coefficient-by-coefficient check of an obligation is sound.
use vstd::prelude::*;
use crate::expr::{map_coeff, LinExpr};
use crate::keymap::{entries_have_key, entries_index_of, lemma_path_lt_irrefl, TextKey};
use crate::keymap::KeyMap;
use crate::obligation::{expr_value, verified_as, Obligation, VerifiedObligation};

verus! {

/// A valuation: the value of each variable.
pub type Valuation = spec_fn(Seq<char>) -> int;

/// `Σ k·v(n)` over the stored terms.
pub open spec fn entries_sum(es: Seq<(String, i64)>, v: Valuation) -> int
    decreases es.len(),
{
    if es.len() == 0 {
        0
    } else {
        entries_sum(es.drop_last(), v) + es.last().1 * v(es.last().0@)
    }
}

/// The value of `e` when each variable `n` has the value `v(n)`.
pub open spec fn eval_at(e: LinExpr, v: Valuation) -> int {
    e.constant + entries_sum(e.terms.entries(), v)
}

/// Every variable has a non-negative value.
pub open spec fn nonneg(v: Valuation) -> bool {
    forall|n: Seq<char>| #[trigger] v(n) >= 0
}

/// `Σ f(n)` over a list of names.
pub open spec fn list_sum(l: Seq<Seq<char>>, f: Valuation) -> int
    decreases l.len(),
{
    if l.len() == 0 {
        0
    } else {
        list_sum(l.drop_last(), f) + f(l.last())
    }
}

/// No name occurs twice.
pub open spec fn distinct(l: Seq<Seq<char>>) -> bool {
    forall|i: int, j: int| 0 <= i < j < l.len() ==> l[i] != l[j]
}

/// The names of stored terms.
pub open spec fn entry_names(es: Seq<(String, i64)>) -> Seq<Seq<char>> {
    es.map_values(|e: (String, i64)| e.0@)
}

/// The sum of the coefficients stored for `n`.
pub open spec fn entries_coeff(es: Seq<(String, i64)>, n: Seq<char>) -> int
    decreases es.len(),
{
    if es.len() == 0 {
        0
    } else {
        entries_coeff(es.drop_last(), n) + if es.last().0@ == n {
            es.last().1 as int
        } else {
            0
        }
    }
}

pub(crate) proof fn lemma_list_sum_ext(l: Seq<Seq<char>>, f: Valuation, g: Valuation)
    requires
        forall|i: int| 0 <= i < l.len() ==> f(#[trigger] l[i]) == g(l[i]),
    ensures
        list_sum(l, f) == list_sum(l, g),
    decreases l.len(),
{
    if l.len() > 0 {
        lemma_list_sum_ext(l.drop_last(), f, g);
        assert(f(l[l.len() - 1]) == g(l[l.len() - 1]));
    }
}

pub(crate) proof fn lemma_list_sum_add(l: Seq<Seq<char>>, f: Valuation, g: Valuation, h: Valuation)
    requires
        forall|n: Seq<char>| #[trigger] h(n) == f(n) + g(n),
    ensures
        list_sum(l, h) == list_sum(l, f) + list_sum(l, g),
    decreases l.len(),
{
    if l.len() > 0 {
        lemma_list_sum_add(l.drop_last(), f, g, h);
    }
}

pub(crate) proof fn lemma_list_sum_nonneg(l: Seq<Seq<char>>, f: Valuation)
    requires
        forall|i: int| 0 <= i < l.len() ==> f(#[trigger] l[i]) >= 0,
    ensures
        list_sum(l, f) >= 0,
    decreases l.len(),
{
    if l.len() > 0 {
        lemma_list_sum_nonneg(l.drop_last(), f);
        assert(f(l[l.len() - 1]) >= 0);
    }
}

/// In a list without repeats, a function that is zero except at one listed
/// name sums to its value there.
pub(crate) proof fn lemma_list_sum_single(l: Seq<Seq<char>>, f: Valuation, x: Seq<char>)
    requires
        distinct(l),
        forall|n: Seq<char>| n != x ==> #[trigger] f(n) == 0,
    ensures
        list_sum(l, f) == if l.contains(x) { f(x) } else { 0 },
    decreases l.len(),
{
    if l.len() > 0 {
        let p = l.drop_last();
        assert(distinct(p)) by {
            assert forall|i: int, j: int| 0 <= i < j < p.len() implies p[i] != p[j] by {
                assert(p[i] == l[i] && p[j] == l[j]);
            }
        }
        lemma_list_sum_single(p, f, x);
        if l.last() == x {
            assert(!p.contains(x)) by {
                if p.contains(x) {
                    let i = choose|i: int| 0 <= i < p.len() && p[i] == x;
                    assert(l[i] == l[l.len() - 1]);
                }
            }
            assert(l.contains(x)) by {
                assert(l[l.len() - 1] == x);
            }
        } else {
            assert(p.contains(x) == l.contains(x)) by {
                if l.contains(x) {
                    let i = choose|i: int| 0 <= i < l.len() && l[i] == x;
                    assert(i < l.len() - 1);
                    assert(p[i] == x);
                }
                if p.contains(x) {
                    let i = choose|i: int| 0 <= i < p.len() && p[i] == x;
                    assert(l[i] == x);
                }
            }
        }
    }
}

/// Summing the terms is summing, over any list of distinct names that
/// covers them, each name's total coefficient times its value.
proof fn lemma_entries_sum_by_names(es: Seq<(String, i64)>, l: Seq<Seq<char>>, v: Valuation)
    requires
        distinct(l),
        forall|i: int| 0 <= i < es.len() ==> l.contains(#[trigger] es[i].0@),
    ensures
        entries_sum(es, v) == list_sum(l, |n: Seq<char>| entries_coeff(es, n) * v(n)),
    decreases es.len(),
{
    if es.len() == 0 {
        lemma_list_sum_nonneg(l, |n: Seq<char>| entries_coeff(es, n) * v(n));
        lemma_list_sum_ext(l, |n: Seq<char>| entries_coeff(es, n) * v(n), |n: Seq<char>| 0int);
        lemma_list_sum_zero(l);
    } else {
        let p = es.drop_last();
        let x = es.last();
        assert forall|i: int| 0 <= i < p.len() implies l.contains(#[trigger] p[i].0@) by {
            assert(p[i] == es[i]);
        }
        lemma_entries_sum_by_names(p, l, v);
        let fp = |n: Seq<char>| entries_coeff(p, n) * v(n);
        let fx = |n: Seq<char>| if n == x.0@ { x.1 * v(n) } else { 0 };
        let fe = |n: Seq<char>| entries_coeff(es, n) * v(n);
        assert forall|n: Seq<char>| #[trigger] fe(n) == fp(n) + fx(n) by {
            let a = entries_coeff(p, n);
            let k: int = if n == x.0@ { x.1 as int } else { 0 };
            assert(entries_coeff(es, n) == a + k);
            assert((a + k) * v(n) == a * v(n) + k * v(n)) by (nonlinear_arith);
        }
        lemma_list_sum_add(l, fp, fx, fe);
        lemma_list_sum_single(l, fx, x.0@);
        assert(l.contains(es[es.len() - 1].0@));
    }
}

pub(crate) proof fn lemma_list_sum_zero(l: Seq<Seq<char>>)
    ensures
        list_sum(l, |n: Seq<char>| 0int) == 0,
    decreases l.len(),
{
    if l.len() > 0 {
        lemma_list_sum_zero(l.drop_last());
    }
}

/// In sorted entries each name is stored once, so its coefficient is what
/// the map holds for it.
pub(crate) proof fn lemma_coeff_is_entries_coeff(e: LinExpr, n: Seq<char>)
    requires
        e.wf(),
    ensures
        e.coeff_of(n) == entries_coeff(e.terms.entries(), n),
{
    let es = e.terms.entries();
    lemma_entries_unique_coeff(es, n);
    let k = seq![n];
    if e.terms@.contains_key(k) {
        let j = entries_index_of(es, k);
        assert(0 <= j < es.len() && es[j].0.key_view() == k);
        assert(es[j].0@ == n) by {
            assert(es[j].0.key_view()[0] == es[j].0@);
        }
    } else {
        assert forall|i: int| 0 <= i < es.len() implies es[i].0@ != n by {
            if es[i].0@ == n {
                assert(es[i].0.key_view() =~= k);
                assert(entries_have_key(es, k));
            }
        }
    }
}

/// With sorted keys, the total coefficient of `n` is that of its one entry.
proof fn lemma_entries_unique_coeff(es: Seq<(String, i64)>, n: Seq<char>)
    requires
        crate::keymap::sorted_entries(es),
    ensures
        forall|i: int| 0 <= i < es.len() && es[i].0@ == n ==> entries_coeff(es, n) == es[i].1,
        (forall|i: int| 0 <= i < es.len() ==> es[i].0@ != n) ==> entries_coeff(es, n) == 0,
    decreases es.len(),
{
    if es.len() > 0 {
        let p = es.drop_last();
        assert(crate::keymap::sorted_entries(p)) by {
            assert forall|i: int, j: int| 0 <= i < j < p.len() implies crate::keymap::path_lt(
                #[trigger] p[i].0.key_view(),
                #[trigger] p[j].0.key_view(),
            ) by {
                assert(p[i] == es[i] && p[j] == es[j]);
            }
        }
        lemma_entries_unique_coeff(p, n);
        let last = es.len() - 1;
        if es[last].0@ == n {
            assert forall|i: int| 0 <= i < p.len() implies p[i].0@ != n by {
                assert(p[i] == es[i]);
                if es[i].0@ == n {
                    assert(es[i].0.key_view() =~= es[last].0.key_view());
                    assert(crate::keymap::path_lt(es[i].0.key_view(), es[last].0.key_view()));
                    lemma_path_lt_irrefl(es[last].0.key_view());
                }
            }
        }
        assert forall|i: int| 0 <= i < es.len() && es[i].0@ == n implies entries_coeff(es, n) == es[i].1 by {
            if i < last {
                assert(p[i] == es[i]);
            }
        }
        assert((forall|i: int| 0 <= i < es.len() ==> es[i].0@ != n) ==> entries_coeff(es, n) == 0) by {
            if forall|i: int| 0 <= i < es.len() ==> es[i].0@ != n {
                assert forall|i: int| 0 <= i < p.len() implies p[i].0@ != n by {
                    assert(p[i] == es[i]);
                }
            }
        }
    }
}

/// The value of a well-formed expression, over any list of distinct names
/// that covers its terms: its constant plus each name's coefficient times
/// its value.
pub(crate) proof fn lemma_eval_by_names(e: LinExpr, l: Seq<Seq<char>>, v: Valuation)
    requires
        e.wf(),
        distinct(l),
        forall|i: int| 0 <= i < e.terms.entries().len() ==> l.contains(#[trigger] e.terms.entries()[i].0@),
    ensures
        eval_at(e, v) == e.constant + list_sum(l, |n: Seq<char>| e.coeff_of(n) * v(n)),
{
    let es = e.terms.entries();
    lemma_entries_sum_by_names(es, l, v);
    assert forall|i: int| 0 <= i < l.len() implies (|n: Seq<char>| entries_coeff(es, n) * v(n))(#[trigger] l[i]) == (
    |n: Seq<char>| e.coeff_of(n) * v(n))(l[i]) by {
        lemma_coeff_is_entries_coeff(e, l[i]);
    }
    lemma_list_sum_ext(l, |n: Seq<char>| entries_coeff(es, n) * v(n), |n: Seq<char>| e.coeff_of(n) * v(n));
}

/// The names of `b` missing from `a`, in order.
pub open spec fn fresh(b: Seq<Seq<char>>, a: Seq<Seq<char>>) -> Seq<Seq<char>>
    decreases b.len(),
{
    if b.len() == 0 {
        Seq::empty()
    } else if a.contains(b.last()) {
        fresh(b.drop_last(), a)
    } else {
        fresh(b.drop_last(), a).push(b.last())
    }
}

/// The names of `a`, then those of `b` missing from `a`.
pub open spec fn union(a: Seq<Seq<char>>, b: Seq<Seq<char>>) -> Seq<Seq<char>> {
    a + fresh(b, a)
}

proof fn lemma_fresh(b: Seq<Seq<char>>, a: Seq<Seq<char>>)
    requires
        distinct(b),
    ensures
        forall|x: Seq<char>| #[trigger] fresh(b, a).contains(x) <==> b.contains(x) && !a.contains(x),
        distinct(fresh(b, a)),
    decreases b.len(),
{
    if b.len() > 0 {
        let p = b.drop_last();
        assert(distinct(p)) by {
            assert forall|i: int, j: int| 0 <= i < j < p.len() implies p[i] != p[j] by {
                assert(p[i] == b[i] && p[j] == b[j]);
            }
        }
        lemma_fresh(p, a);
        assert forall|x: Seq<char>| #[trigger] b.contains(x) <==> p.contains(x) || x == b.last() by {
            if b.contains(x) {
                let i = choose|i: int| 0 <= i < b.len() && b[i] == x;
                if i < b.len() - 1 {
                    assert(p[i] == x);
                }
            }
            if p.contains(x) {
                let i = choose|i: int| 0 <= i < p.len() && p[i] == x;
                assert(b[i] == x);
            }
            if x == b.last() {
                assert(b[b.len() - 1] == x);
            }
        }
        let fp = fresh(p, a);
        if !a.contains(b.last()) {
            let f = fp.push(b.last());
            assert forall|x: Seq<char>| #[trigger] f.contains(x) <==> fp.contains(x) || x == b.last() by {
                if f.contains(x) {
                    let i = choose|i: int| 0 <= i < f.len() && f[i] == x;
                    if i < fp.len() {
                        assert(fp[i] == x);
                    }
                }
                if fp.contains(x) {
                    let i = choose|i: int| 0 <= i < fp.len() && fp[i] == x;
                    assert(f[i] == x);
                }
                if x == b.last() {
                    assert(f[fp.len() as int] == x);
                }
            }
            assert forall|i: int, j: int| 0 <= i < j < f.len() implies f[i] != f[j] by {
                if j == fp.len() {
                    if fp[i] == b.last() {
                        assert(fp.contains(b.last()));
                        assert(p.contains(b.last()));
                        let k = choose|k: int| 0 <= k < p.len() && p[k] == b.last();
                        assert(b[k] == b[b.len() - 1]);
                    }
                } else {
                    assert(f[i] == fp[i] && f[j] == fp[j]);
                }
            }
        }
    }
}

pub(crate) proof fn lemma_union(a: Seq<Seq<char>>, b: Seq<Seq<char>>)
    requires
        distinct(a),
        distinct(b),
    ensures
        distinct(union(a, b)),
        forall|x: Seq<char>| #[trigger] union(a, b).contains(x) <==> a.contains(x) || b.contains(x),
{
    lemma_fresh(b, a);
    let f = fresh(b, a);
    let u = union(a, b);
    assert forall|x: Seq<char>| #[trigger] u.contains(x) <==> a.contains(x) || f.contains(x) by {
        if u.contains(x) {
            let i = choose|i: int| 0 <= i < u.len() && u[i] == x;
            if i < a.len() {
                assert(a[i] == x);
            } else {
                assert(f[i - a.len()] == x);
            }
        }
        if a.contains(x) {
            let i = choose|i: int| 0 <= i < a.len() && a[i] == x;
            assert(u[i] == x);
        }
        if f.contains(x) {
            let i = choose|i: int| 0 <= i < f.len() && f[i] == x;
            assert(u[a.len() + i] == x);
        }
    }
    assert forall|i: int, j: int| 0 <= i < j < u.len() implies u[i] != u[j] by {
        if j < a.len() {
            assert(u[i] == a[i] && u[j] == a[j]);
        } else if i >= a.len() {
            assert(u[i] == f[i - a.len()] && u[j] == f[j - a.len()]);
        } else {
            assert(u[i] == a[i] && u[j] == f[j - a.len()]);
            assert(f.contains(u[j]));
            assert(a.contains(u[i]));
        }
    }
}

pub(crate) proof fn lemma_names_distinct(e: LinExpr)
    requires
        e.wf(),
    ensures
        distinct(entry_names(e.terms.entries())),
        forall|i: int| 0 <= i < e.terms.entries().len() ==> entry_names(e.terms.entries()).contains(
            #[trigger] e.terms.entries()[i].0@,
        ),
{
    let es = e.terms.entries();
    let l = entry_names(es);
    assert forall|i: int, j: int| 0 <= i < j < l.len() implies l[i] != l[j] by {
        assert(crate::keymap::path_lt(es[i].0.key_view(), es[j].0.key_view()));
        if l[i] == l[j] {
            assert(es[i].0.key_view() =~= es[j].0.key_view());
            lemma_path_lt_irrefl(es[j].0.key_view());
        }
    }
    assert forall|i: int| 0 <= i < es.len() implies l.contains(#[trigger] es[i].0@) by {
        assert(l[i] == es[i].0@);
    }
}

/// The exact check is sound: where `rhs` has at least the constant and at
/// least every coefficient of `lhs`, `lhs <= rhs` for all non-negative
/// values of the variables.
pub proof fn lemma_coefficientwise_leq_sound(lhs: LinExpr, rhs: LinExpr, v: Valuation)
    requires
        lhs.wf(),
        rhs.wf(),
        nonneg(v),
        rhs.constant >= lhs.constant,
        forall|n: Seq<char>| #[trigger] rhs.coeff_of(n) >= lhs.coeff_of(n),
    ensures
        eval_at(lhs, v) <= eval_at(rhs, v),
{
    lemma_names_distinct(lhs);
    lemma_names_distinct(rhs);
    let la = entry_names(lhs.terms.entries());
    let lb = entry_names(rhs.terms.entries());
    lemma_union(la, lb);
    let l = union(la, lb);
    lemma_eval_by_names(lhs, l, v);
    lemma_eval_by_names(rhs, l, v);
    let fa = |n: Seq<char>| lhs.coeff_of(n) * v(n);
    let fb = |n: Seq<char>| rhs.coeff_of(n) * v(n);
    let fd = |n: Seq<char>| (rhs.coeff_of(n) - lhs.coeff_of(n)) * v(n);
    assert forall|n: Seq<char>| #[trigger] fb(n) == fa(n) + fd(n) by {
        assert(rhs.coeff_of(n) * v(n) == lhs.coeff_of(n) * v(n) + (rhs.coeff_of(n) - lhs.coeff_of(n)) * v(n))
            by (nonlinear_arith);
    }
    lemma_list_sum_add(l, fa, fd, fb);
    assert forall|i: int| 0 <= i < l.len() implies fd(#[trigger] l[i]) >= 0 by {
        let n = l[i];
        assert(rhs.coeff_of(n) - lhs.coeff_of(n) >= 0);
        assert(v(n) >= 0);
        assert((rhs.coeff_of(n) - lhs.coeff_of(n)) * v(n) >= 0) by (nonlinear_arith)
            requires
                rhs.coeff_of(n) - lhs.coeff_of(n) >= 0,
                v(n) >= 0,
        ;
    }
    lemma_list_sum_nonneg(l, fd);
}

/// An obligation that passes its exact check holds for all non-negative
/// values of the variables: `actual + Φ_after <= amortized + Φ_before`.
pub proof fn lemma_obligation_sound(o: Obligation, v: Valuation)
    requires
        o.wf(),
        o.holds(),
        nonneg(v),
    ensures
        eval_at(o.actual, v) + eval_at(o.phi_after, v) <= eval_at(o.amortized, v) + eval_at(o.phi_before, v),
{
    let (a, b, c, d) = (o.actual, o.phi_after, o.amortized, o.phi_before);
    lemma_names_distinct(a);
    lemma_names_distinct(b);
    lemma_names_distinct(c);
    lemma_names_distinct(d);
    let na = entry_names(a.terms.entries());
    let nb = entry_names(b.terms.entries());
    let nc = entry_names(c.terms.entries());
    let nd = entry_names(d.terms.entries());
    lemma_union(na, nb);
    let l1 = union(na, nb);
    lemma_union(l1, nc);
    let l2 = union(l1, nc);
    lemma_union(l2, nd);
    let l = union(l2, nd);
    assert forall|i: int| 0 <= i < a.terms.entries().len() implies l.contains(#[trigger] a.terms.entries()[i].0@) by {
        assert(na.contains(a.terms.entries()[i].0@));
    }
    assert forall|i: int| 0 <= i < b.terms.entries().len() implies l.contains(#[trigger] b.terms.entries()[i].0@) by {
        assert(nb.contains(b.terms.entries()[i].0@));
    }
    assert forall|i: int| 0 <= i < c.terms.entries().len() implies l.contains(#[trigger] c.terms.entries()[i].0@) by {
        assert(nc.contains(c.terms.entries()[i].0@));
    }
    assert forall|i: int| 0 <= i < d.terms.entries().len() implies l.contains(#[trigger] d.terms.entries()[i].0@) by {
        assert(nd.contains(d.terms.entries()[i].0@));
    }
    lemma_eval_by_names(a, l, v);
    lemma_eval_by_names(b, l, v);
    lemma_eval_by_names(c, l, v);
    lemma_eval_by_names(d, l, v);
    let fa = |n: Seq<char>| a.coeff_of(n) * v(n);
    let fb = |n: Seq<char>| b.coeff_of(n) * v(n);
    let fc = |n: Seq<char>| c.coeff_of(n) * v(n);
    let fd = |n: Seq<char>| d.coeff_of(n) * v(n);
    let fab = |n: Seq<char>| fa(n) + fb(n);
    let fcd = |n: Seq<char>| fc(n) + fd(n);
    let gap = |n: Seq<char>| fcd(n) - fab(n);
    lemma_list_sum_add(l, fa, fb, fab);
    lemma_list_sum_add(l, fc, fd, fcd);
    lemma_list_sum_add(l, fab, gap, fcd);
    assert forall|i: int| 0 <= i < l.len() implies gap(#[trigger] l[i]) >= 0 by {
        let n = l[i];
        let (ea, eb, ec, ed) = (expr_value(a), expr_value(b), expr_value(c), expr_value(d));
        assert((ec.1)(n) + (ed.1)(n) >= (ea.1)(n) + (eb.1)(n));
        let k = c.coeff_of(n) + d.coeff_of(n) - a.coeff_of(n) - b.coeff_of(n);
        assert(k >= 0);
        assert(v(n) >= 0);
        assert(gap(n) == k * v(n)) by (nonlinear_arith)
            requires
                gap(n) == c.coeff_of(n) * v(n) + d.coeff_of(n) * v(n) - (a.coeff_of(n) * v(n) + b.coeff_of(n) * v(n)),
                k == c.coeff_of(n) + d.coeff_of(n) - a.coeff_of(n) - b.coeff_of(n),
        ;
        assert(k * v(n) >= 0) by (nonlinear_arith)
            requires
                k >= 0,
                v(n) >= 0,
        ;
    }
    lemma_list_sum_nonneg(l, gap);
}


/// A checked obligation that passed is sound: once instantiated with the
/// coefficient values, it holds for all non-negative values of the
/// program variables.
pub proof fn lemma_passed_check_sound(
    vo: VerifiedObligation,
    o: Obligation,
    values: KeyMap<String, i64>,
    v: Valuation,
)
    requires
        verified_as(vo, o, values),
        vo.check.proven,
        nonneg(v),
    ensures
        eval_at(vo.obligation.actual, v) + eval_at(vo.obligation.phi_after, v) <= eval_at(vo.obligation.amortized, v)
            + eval_at(vo.obligation.phi_before, v),
{
    assert(vo.obligation.holds());
    lemma_obligation_sound(vo.obligation, v);
}

} // verus!
