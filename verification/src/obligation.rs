//! Amortized obligations `actual + Φ_after <= amortized + Φ_before`, their
//! exact check, and the potential template they are written over.
use vstd::prelude::*;
use crate::expr::{get0, in_i64, lemma_weights, same_expr, weight_of, ExactCheck, LinExpr};
use crate::ir::ResourcePath;
use crate::keymap::{path_lt, KeyMap, TextKey};
use crate::text::{concat2, concat3, owned, replace_spec, replace_text};

verus! {

/// The value of a linear expression: its constant and the coefficient of
/// every name.
pub open spec fn expr_value(e: LinExpr) -> (int, spec_fn(Seq<char>) -> int) {
    (e.constant as int, |n: Seq<char>| e.coeff_of(n))
}

/// The value of `e` after substituting `values`.
pub open spec fn subst_value(e: LinExpr, values: KeyMap<String, i64>) -> (int, spec_fn(Seq<char>) -> int) {
    (e.substituted(values).0, |n: Seq<char>| get0(e.substituted(values).1, n))
}

/// Computing `a + b` (left side) and `c + d` (right side) and their
/// difference never leaves `i64`.
pub open spec fn leq_fits(
    a: (int, spec_fn(Seq<char>) -> int),
    b: (int, spec_fn(Seq<char>) -> int),
    c: (int, spec_fn(Seq<char>) -> int),
    d: (int, spec_fn(Seq<char>) -> int),
) -> bool {
    &&& in_i64(a.0 + b.0)
    &&& in_i64(c.0 + d.0)
    &&& in_i64(-(a.0 + b.0))
    &&& in_i64((c.0 + d.0) - (a.0 + b.0))
    &&& forall|n: Seq<char>| #![trigger (a.1)(n), (b.1)(n)] in_i64((a.1)(n) + (b.1)(n)) && in_i64(-((a.1)(n) + (b.1)(n)))
    &&& forall|n: Seq<char>| #![trigger (c.1)(n), (d.1)(n)] in_i64((c.1)(n) + (d.1)(n))
    &&& forall|n: Seq<char>| #![trigger (a.1)(n), (c.1)(n)]
        in_i64(((c.1)(n) + (d.1)(n)) - ((a.1)(n) + (b.1)(n)))
}

/// `a + b <= c + d` holds coefficient by coefficient: the constant of the
/// right side is no smaller, and so is every coefficient.
pub open spec fn leq_holds(
    a: (int, spec_fn(Seq<char>) -> int),
    b: (int, spec_fn(Seq<char>) -> int),
    c: (int, spec_fn(Seq<char>) -> int),
    d: (int, spec_fn(Seq<char>) -> int),
) -> bool {
    &&& c.0 + d.0 >= a.0 + b.0
    &&& forall|n: Seq<char>| #![trigger (a.1)(n), (c.1)(n)] (c.1)(n) + (d.1)(n) >= (a.1)(n) + (b.1)(n)
}

/// Name of the solver coefficient of a resource: `a_` and its dotted path with `_`.
pub open spec fn coeff_name(p: ResourcePath) -> Seq<char> {
    "a_"@ + replace_spec(p.text(), "."@, "_"@)
}

/// For each resource, a solver coefficient standing for its weight in the potential.
#[derive(Debug, Clone, PartialEq, Eq)]
pub struct PotentialTemplate {
    pub coeffs: KeyMap<ResourcePath, String>,
}

impl PotentialTemplate {
    /// One coefficient `a_<path>` per path (a repeated path keeps one entry).
    pub fn from_paths(paths: &[ResourcePath]) -> (r: Self)
        ensures
            r.coeffs.wf(),
            r.coeffs.entries().len() <= paths@.len(),
            forall|k: Seq<Seq<char>>| #[trigger] r.coeffs@.contains_key(k)
                <==> exists|i: int| 0 <= i < paths@.len() && paths@[i]@ == k,
            forall|i: int| 0 <= i < paths@.len() ==> #[trigger] r.coeffs@[paths@[i]@]@ == coeff_name(paths@[i]),
    {
        let mut coeffs: KeyMap<ResourcePath, String> = KeyMap::new();
        let mut i: usize = 0;
        while i < paths.len()
            invariant
                i <= paths@.len(),
                coeffs.wf(),
                coeffs.entries().len() <= i,
                forall|k: Seq<Seq<char>>| #[trigger] coeffs@.contains_key(k)
                    <==> exists|j: int| 0 <= j < i && paths@[j]@ == k,
                forall|j: int| 0 <= j < i ==> #[trigger] coeffs@[paths@[j]@]@ == coeff_name(paths@[j]),
            decreases paths@.len() - i,
        {
            let p = &paths[i];
            let text = p.to_string();
            proof {
                reveal_strlit(".");
                reveal_strlit("_");
                reveal_strlit("a_");
            }
            let under = replace_text(text.as_str(), ".", "_");
            let name = concat2("a_", under.as_str());
            let key = p.key_copy();
            let ghost before = coeffs@;
            coeffs.insert(key, name);
            proof {
                assert forall|k: Seq<Seq<char>>| #[trigger] coeffs@.contains_key(k)
                    <==> exists|j: int| 0 <= j < i + 1 && paths@[j]@ == k by {
                    if k == p@ {
                        assert(paths@[i as int]@ == k);
                    } else if before.contains_key(k) {
                        let j = choose|j: int| 0 <= j < i && paths@[j]@ == k;
                        assert(0 <= j < i + 1 && paths@[j]@ == k);
                    }
                }
                assert forall|j: int| 0 <= j < i + 1 implies #[trigger] coeffs@[paths@[j]@]@ == coeff_name(paths@[j]) by {
                    if paths@[j]@ != p@ {
                        assert(before.contains_key(paths@[j]@));
                    } else {
                        assert(paths@[j].text() == p.text()) by {
                            crate::ir::lemma_same_view_same_text(paths@[j], *p);
                        }
                    }
                }
            }
            i = i + 1;
        }
        PotentialTemplate { coeffs }
    }
}

/// The weighted names that `len(p) = e` contributes for the coefficient
/// `cv`: `cv*v` with the weight of each variable `v` of `e`, then `cv` with
/// the constant of `e` when it is non-zero.
pub open spec fn len_terms(cv: Seq<char>, e: LinExpr) -> Seq<(Seq<char>, int)> {
    e.terms.entries().map_values(|t: (String, i64)| (cv + "*"@ + t.0@, t.1 as int)) + if e.constant != 0 {
        seq![(cv, e.constant as int)]
    } else {
        Seq::empty()
    }
}

/// The weighted names of the potential, resource by resource in key order,
/// over the lengths known for them.
pub open spec fn phi_terms(es: Seq<(ResourcePath, String)>, lens: Map<Seq<Seq<char>>, LinExpr>) -> Seq<(Seq<char>, int)>
    decreases es.len(),
{
    if es.len() == 0 {
        Seq::empty()
    } else {
        let prev = phi_terms(es.drop_last(), lens);
        if lens.contains_key(es.last().0@) {
            prev + len_terms(es.last().1@, lens[es.last().0@])
        } else {
            prev
        }
    }
}

/// Every partial sum over a prefix of the weighted names stays within `i64`.
pub open spec fn prefix_fits(ws: Seq<(Seq<char>, int)>) -> bool {
    forall|k: int, n: Seq<char>| 0 <= k <= ws.len() ==> in_i64(#[trigger] weight_of(ws.take(k), n))
}

proof fn lemma_phi_prefix(es: Seq<(ResourcePath, String)>, lens: Map<Seq<Seq<char>>, LinExpr>, i: int)
    requires
        0 <= i <= es.len(),
    ensures
        phi_terms(es.take(i), lens).len() <= phi_terms(es, lens).len(),
        phi_terms(es.take(i), lens) == phi_terms(es, lens).take(phi_terms(es.take(i), lens).len() as int),
    decreases es.len() - i,
{
    if i == es.len() {
        assert(es.take(i) =~= es);
        assert(phi_terms(es, lens).take(phi_terms(es, lens).len() as int) =~= phi_terms(es, lens));
    } else {
        lemma_phi_prefix(es, lens, i + 1);
        assert(es.take(i + 1).drop_last() =~= es.take(i));
        let a = phi_terms(es.take(i), lens);
        let b = phi_terms(es.take(i + 1), lens);
        let full = phi_terms(es, lens);
        assert(b.take(a.len() as int) =~= a);
        assert(full.take(a.len() as int) =~= full.take(b.len() as int).take(a.len() as int));
    }
}

proof fn lemma_weight_push(ws: Seq<(Seq<char>, int)>, x: (Seq<char>, int), n: Seq<char>)
    ensures
        weight_of(ws.push(x), n) == weight_of(ws, n) + if x.0 == n { x.1 } else { 0 },
{
    assert(ws.push(x).drop_last() =~= ws);
}

impl PotentialTemplate {
    /// The potential over the given lengths: for each resource with a known
    /// length `e`, its coefficient times `e`, written with product names
    /// `coeff*var` and the coefficient itself for the constant part.
    pub fn phi_for_len_state(&self, lens: &KeyMap<ResourcePath, LinExpr>) -> (r: LinExpr)
        requires
            self.coeffs.wf(),
            lens.wf(),
            forall|k: Seq<Seq<char>>| #[trigger] lens@.contains_key(k) ==> lens@[k].wf(),
            prefix_fits(phi_terms(self.coeffs.entries(), lens@)),
        ensures
            r.wf(),
            r.constant == 0,
            forall|n: Seq<char>| #[trigger] r.coeff_of(n) == weight_of(phi_terms(self.coeffs.entries(), lens@), n),
    {
        let ghost es = self.coeffs.entries();
        let ghost full = phi_terms(es, lens@);
        let mut out = LinExpr::zero();
        let mut i: usize = 0;
        proof {
            assert(es.take(0) =~= Seq::<(ResourcePath, String)>::empty());
            assert forall|n: Seq<char>| #[trigger] out.coeff_of(n) == weight_of(phi_terms(es.take(0), lens@), n) by {
                lemma_weights((n, 0), (n, 0), (n, 0), n);
                assert(!out.terms@.contains_key(seq![n]));
            }
        }
        while i < self.coeffs.len()
            invariant
                es == self.coeffs.entries(),
                full == phi_terms(es, lens@),
                i <= es.len(),
                lens.wf(),
                forall|k: Seq<Seq<char>>| #[trigger] lens@.contains_key(k) ==> lens@[k].wf(),
                prefix_fits(full),
                out.wf(),
                out.constant == 0,
                forall|n: Seq<char>| #[trigger] out.coeff_of(n) == weight_of(phi_terms(es.take(i as int), lens@), n),
            decreases es.len() - i,
        {
            let entry = self.coeffs.entry(i);
            let ghost done = phi_terms(es.take(i as int), lens@);
            proof {
                assert(es.take(i + 1).drop_last() =~= es.take(i as int));
                assert(es.take(i + 1).last() == *entry);
                lemma_phi_prefix(es, lens@, i + 1);
            }
            match lens.get(&entry.0) {
                Some(len_expr) => {
                    let ghost lt = len_terms(entry.1@, *len_expr);
                    let ghost next = phi_terms(es.take(i + 1), lens@);
                    assert(next == done + lt);
                    let mut j: usize = 0;
                    while j < len_expr.terms.len()
                        invariant
                            full == phi_terms(es, lens@),
                            prefix_fits(full),
                            next == done + lt,
                            next.len() <= full.len(),
                            next == full.take(next.len() as int),
                            lt == len_terms(entry.1@, *len_expr),
                            len_expr.wf(),
                            j <= len_expr.terms.entries().len(),
                            out.wf(),
                            out.constant == 0,
                            forall|n: Seq<char>| #[trigger] out.coeff_of(n) == weight_of(done + lt.take(j as int), n),
                        decreases len_expr.terms.entries().len() - j,
                    {
                        let t = len_expr.terms.entry(j);
                        let name = concat3(entry.1.as_str(), "*", t.0.as_str());
                        let ghost w = done + lt.take(j as int);
                        proof {
                            reveal_strlit("*");
                            assert(lt[j as int] == (name@, t.1 as int));
                            assert(done + lt.take(j + 1) =~= w.push((name@, t.1 as int)));
                            assert((done + lt.take(j + 1)) =~= full.take(done.len() + j + 1));
                        }
                        let v = LinExpr::var(name.as_str(), t.1);
                        assert(out.add_fits(v)) by {
                            assert forall|n: Seq<char>| in_i64(#[trigger] out.coeff_of(n) + v.coeff_of(n)) by {
                                lemma_weight_push(w, (name@, t.1 as int), n);
                                assert(in_i64(weight_of(full.take(done.len() + j + 1), n)));
                            }
                        }
                        out = out.add(&v);
                        proof {
                            assert forall|n: Seq<char>| #[trigger] out.coeff_of(n) == weight_of(done + lt.take(j + 1), n) by {
                                lemma_weight_push(w, (name@, t.1 as int), n);
                            }
                        }
                        j = j + 1;
                    }
                    let ghost nt = len_expr.terms.entries().len();
                    if len_expr.constant != 0 {
                        let ghost w = done + lt.take(nt as int);
                        proof {
                            assert(lt[nt as int] == (entry.1@, len_expr.constant as int));
                            assert(done + lt =~= w.push((entry.1@, len_expr.constant as int)));
                            assert(done + lt =~= full.take((done.len() + nt + 1) as int));
                        }
                        let v = LinExpr::var(entry.1.as_str(), len_expr.constant);
                        assert(out.add_fits(v)) by {
                            assert forall|n: Seq<char>| in_i64(#[trigger] out.coeff_of(n) + v.coeff_of(n)) by {
                                lemma_weight_push(w, (entry.1@, len_expr.constant as int), n);
                                assert(in_i64(weight_of(full.take((done.len() + nt + 1) as int), n)));
                            }
                        }
                        out = out.add(&v);
                        proof {
                            assert forall|n: Seq<char>| #[trigger] out.coeff_of(n) == weight_of(next, n) by {
                                lemma_weight_push(w, (entry.1@, len_expr.constant as int), n);
                            }
                        }
                    } else {
                        assert(lt.take(nt as int) =~= lt);
                    }
                },
                None => {
                    assert(phi_terms(es.take(i + 1), lens@) == done);
                },
            }
            i = i + 1;
        }
        assert(es.take(es.len() as int) =~= es);
        out
    }
}

/// One amortized obligation: `actual + phi_after <= amortized + phi_before`
/// for all non-negative values of the program variables.
#[derive(Debug, Clone, PartialEq, Eq)]
pub struct Obligation {
    pub name: String,
    pub actual: LinExpr,
    pub phi_before: LinExpr,
    pub phi_after: LinExpr,
    pub amortized: LinExpr,
    pub explanation: String,
}

/// `check` is the exact check of `o`: its slack, stored without zero
/// terms, is `(amortized + phi_before) - (actual + phi_after)`.
pub open spec fn slack_is(check: ExactCheck, o: Obligation) -> bool {
    &&& check.slack.wf()
    &&& check.slack.normalized()
    &&& check.slack.constant == (o.amortized.constant + o.phi_before.constant) - (o.actual.constant
        + o.phi_after.constant)
    &&& forall|n: Seq<char>| #[trigger] check.slack.coeff_of(n) == (o.amortized.coeff_of(n) + o.phi_before.coeff_of(n))
        - (o.actual.coeff_of(n) + o.phi_after.coeff_of(n))
}

/// An obligation with the outcome of its exact check.
#[derive(Debug, Clone, PartialEq, Eq)]
pub struct VerifiedObligation {
    pub obligation: Obligation,
    pub check: ExactCheck,
}

impl Obligation {
    pub open spec fn wf(self) -> bool {
        &&& self.actual.wf()
        &&& self.phi_before.wf()
        &&& self.phi_after.wf()
        &&& self.amortized.wf()
    }

    /// The sums and the slack of the check stay within `i64`.
    pub open spec fn check_fits(self) -> bool {
        leq_fits(
            expr_value(self.actual),
            expr_value(self.phi_after),
            expr_value(self.amortized),
            expr_value(self.phi_before),
        )
    }

    /// The obligation holds for all non-negative program variables, read
    /// coefficient by coefficient.
    pub open spec fn holds(self) -> bool {
        leq_holds(
            expr_value(self.actual),
            expr_value(self.phi_after),
            expr_value(self.amortized),
            expr_value(self.phi_before),
        )
    }

    /// `e` has the same name, explanation and expression values as `self`.
    pub open spec fn same_as(self, e: Obligation) -> bool {
        &&& self.name@ == e.name@
        &&& self.explanation@ == e.explanation@
        &&& expr_value(self.actual) == expr_value(e.actual)
        &&& expr_value(self.phi_before) == expr_value(e.phi_before)
        &&& expr_value(self.phi_after) == expr_value(e.phi_after)
        &&& expr_value(self.amortized) == expr_value(e.amortized)
    }

    /// Every part is stored without zero terms.
    pub open spec fn parts_normalized(self) -> bool {
        &&& self.actual.normalized()
        &&& self.phi_before.normalized()
        &&& self.phi_after.normalized()
        &&& self.amortized.normalized()
    }

    /// The same obligation, entry for entry: names, constants and stored terms.
    pub open spec fn identical(self, e: Obligation) -> bool {
        &&& self.name@ == e.name@
        &&& self.explanation@ == e.explanation@
        &&& same_expr(self.actual, e.actual)
        &&& same_expr(self.phi_before, e.phi_before)
        &&& same_expr(self.phi_after, e.phi_after)
        &&& same_expr(self.amortized, e.amortized)
    }

    /// Substituting `values` into each part never leaves `i64`.
    pub open spec fn instantiate_fits(self, values: KeyMap<String, i64>) -> bool {
        &&& self.actual.substitute_fits(values)
        &&& self.phi_before.substitute_fits(values)
        &&& self.phi_after.substitute_fits(values)
        &&& self.amortized.substitute_fits(values)
    }

    /// The instantiated obligation can be checked without leaving `i64`.
    pub open spec fn candidate_fits(self, values: KeyMap<String, i64>) -> bool {
        &&& self.instantiate_fits(values)
        &&& leq_fits(
            subst_value(self.actual, values),
            subst_value(self.phi_after, values),
            subst_value(self.amortized, values),
            subst_value(self.phi_before, values),
        )
    }

    /// The obligation holds once `values` are substituted.
    pub open spec fn holds_under(self, values: KeyMap<String, i64>) -> bool {
        leq_holds(
            subst_value(self.actual, values),
            subst_value(self.phi_after, values),
            subst_value(self.amortized, values),
            subst_value(self.phi_before, values),
        )
    }

    /// A copy of the obligation.
    pub fn copy(&self) -> (r: Self)
        requires
            self.wf(),
        ensures
            r.wf(),
            r.same_as(*self),
            r.identical(*self),
    {
        let actual = self.actual.clone_expr();
        let phi_before = self.phi_before.clone_expr();
        let phi_after = self.phi_after.clone_expr();
        let amortized = self.amortized.clone_expr();
        let r = Obligation {
            name: self.name.clone(),
            actual,
            phi_before,
            phi_after,
            amortized,
            explanation: self.explanation.clone(),
        };
        assert(expr_value(r.actual) == expr_value(self.actual)) by {
            assert(expr_value(r.actual).1 =~= expr_value(self.actual).1);
        }
        assert(expr_value(r.phi_before) == expr_value(self.phi_before)) by {
            assert(expr_value(r.phi_before).1 =~= expr_value(self.phi_before).1);
        }
        assert(expr_value(r.phi_after) == expr_value(self.phi_after)) by {
            assert(expr_value(r.phi_after).1 =~= expr_value(self.phi_after).1);
        }
        assert(expr_value(r.amortized) == expr_value(self.amortized)) by {
            assert(expr_value(r.amortized).1 =~= expr_value(self.amortized).1);
        }
        r
    }

    /// Checks `actual + phi_after <= amortized + phi_before` exactly: proven
    /// when the slack has a non-negative constant and coefficients.
    pub fn verify(&self) -> (r: VerifiedObligation)
        requires
            self.wf(),
            self.check_fits(),
        ensures
            r.obligation.wf(),
            r.obligation.same_as(*self),
            r.obligation.identical(*self),
            r.check.proven == self.holds(),
            slack_is(r.check, *self),
            r.check.slack.wf(),
            r.check.slack.constant == (self.amortized.constant + self.phi_before.constant) - (
            self.actual.constant + self.phi_after.constant),
            forall|n: Seq<char>| #[trigger] r.check.slack.coeff_of(n) == (self.amortized.coeff_of(n)
                + self.phi_before.coeff_of(n)) - (self.actual.coeff_of(n) + self.phi_after.coeff_of(n)),
    {
        let ghost a = expr_value(self.actual);
        let ghost b = expr_value(self.phi_after);
        let ghost c = expr_value(self.amortized);
        let ghost d = expr_value(self.phi_before);
        assert(self.actual.add_fits(self.phi_after)) by {
            assert forall|n: Seq<char>| in_i64(#[trigger] self.actual.coeff_of(n) + self.phi_after.coeff_of(n)) by {
                assert(in_i64((a.1)(n) + (b.1)(n)));
            }
        }
        assert(self.amortized.add_fits(self.phi_before)) by {
            assert forall|n: Seq<char>| in_i64(#[trigger] self.amortized.coeff_of(n) + self.phi_before.coeff_of(n)) by {
                assert(in_i64((c.1)(n) + (d.1)(n)));
            }
        }
        let lhs = self.actual.add(&self.phi_after);
        let rhs = self.amortized.add(&self.phi_before);
        assert(rhs.sub_fits(lhs)) by {
            assert forall|n: Seq<char>| in_i64(#[trigger] lhs.coeff_of(n) * -1) by {
                assert(in_i64(-((a.1)(n) + (b.1)(n))));
            }
            assert forall|n: Seq<char>| in_i64(#[trigger] rhs.coeff_of(n) - lhs.coeff_of(n)) by {
                assert(in_i64(((c.1)(n) + (d.1)(n)) - ((a.1)(n) + (b.1)(n))));
            }
        }
        let check = lhs.leq_under_nonnegative_vars(&rhs);
        assert(check.proven == self.holds()) by {
            if check.proven {
                assert forall|n: Seq<char>| #![trigger (a.1)(n), (c.1)(n)] (c.1)(n) + (d.1)(n) >= (a.1)(n) + (b.1)(n) by {
                    assert(rhs.coeff_of(n) >= lhs.coeff_of(n));
                }
            }
            if self.holds() {
                assert forall|n: Seq<char>| #[trigger] rhs.coeff_of(n) >= lhs.coeff_of(n) by {
                    assert((c.1)(n) + (d.1)(n) >= (a.1)(n) + (b.1)(n));
                }
            }
        }
        VerifiedObligation { obligation: self.copy(), check }
    }

    /// The obligation with `values` substituted into each part.
    pub fn instantiate(&self, values: &KeyMap<String, i64>) -> (r: Self)
        requires
            self.wf(),
            values.wf(),
            self.instantiate_fits(*values),
        ensures
            r.wf(),
            r.name@ == self.name@,
            r.explanation@ == self.explanation@,
            expr_value(r.actual) == subst_value(self.actual, *values),
            expr_value(r.phi_before) == subst_value(self.phi_before, *values),
            expr_value(r.phi_after) == subst_value(self.phi_after, *values),
            expr_value(r.amortized) == subst_value(self.amortized, *values),
            r.parts_normalized(),
    {
        let r = Obligation {
            name: self.name.clone(),
            actual: self.actual.substitute(values),
            phi_before: self.phi_before.substitute(values),
            phi_after: self.phi_after.substitute(values),
            amortized: self.amortized.substitute(values),
            explanation: self.explanation.clone(),
        };
        assert(expr_value(r.actual).1 =~= subst_value(self.actual, *values).1);
        assert(expr_value(r.phi_before).1 =~= subst_value(self.phi_before, *values).1);
        assert(expr_value(r.phi_after).1 =~= subst_value(self.phi_after, *values).1);
        assert(expr_value(r.amortized).1 =~= subst_value(self.amortized, *values).1);
        r
    }
}

/// Every obligation is well formed and can be instantiated and checked
/// with `values` without leaving `i64`.
pub open spec fn all_candidate_fits(obligations: Seq<Obligation>, values: KeyMap<String, i64>) -> bool {
    forall|i: int| 0 <= i < obligations.len() ==> #[trigger] obligations[i].wf() && obligations[i].candidate_fits(values)
}

/// Instantiates every obligation with the candidate coefficients and checks it.
pub fn verify_candidate(obligations: &[Obligation], candidate: &KeyMap<String, i64>) -> (r: Vec<VerifiedObligation>)
    requires
        candidate.wf(),
        all_candidate_fits(obligations@, *candidate),
    ensures
        r@.len() == obligations@.len(),
        forall|i: int| 0 <= i < r@.len() ==> {
            &&& #[trigger] r@[i].obligation.wf()
            &&& r@[i].obligation.name@ == obligations@[i].name@
            &&& r@[i].obligation.explanation@ == obligations@[i].explanation@
            &&& expr_value(r@[i].obligation.actual) == subst_value(obligations@[i].actual, *candidate)
            &&& expr_value(r@[i].obligation.phi_before) == subst_value(obligations@[i].phi_before, *candidate)
            &&& expr_value(r@[i].obligation.phi_after) == subst_value(obligations@[i].phi_after, *candidate)
            &&& expr_value(r@[i].obligation.amortized) == subst_value(obligations@[i].amortized, *candidate)
            &&& r@[i].check.proven == obligations@[i].holds_under(*candidate)
            &&& r@[i].obligation.parts_normalized()
            &&& slack_is(r@[i].check, r@[i].obligation)
        },
{
    let mut out: Vec<VerifiedObligation> = Vec::new();
    let mut i: usize = 0;
    while i < obligations.len()
        invariant
            i <= obligations@.len(),
            candidate.wf(),
            all_candidate_fits(obligations@, *candidate),
            out@.len() == i,
            forall|j: int| 0 <= j < i ==> {
                &&& #[trigger] out@[j].obligation.wf()
                &&& out@[j].obligation.name@ == obligations@[j].name@
                &&& out@[j].obligation.explanation@ == obligations@[j].explanation@
                &&& expr_value(out@[j].obligation.actual) == subst_value(obligations@[j].actual, *candidate)
                &&& expr_value(out@[j].obligation.phi_before) == subst_value(obligations@[j].phi_before, *candidate)
                &&& expr_value(out@[j].obligation.phi_after) == subst_value(obligations@[j].phi_after, *candidate)
                &&& expr_value(out@[j].obligation.amortized) == subst_value(obligations@[j].amortized, *candidate)
                &&& out@[j].check.proven == obligations@[j].holds_under(*candidate)
                &&& out@[j].obligation.parts_normalized()
                &&& slack_is(out@[j].check, out@[j].obligation)
            },
        decreases obligations@.len() - i,
    {
        let o = &obligations[i];
        assert(o.wf() && o.candidate_fits(*candidate));
        let inst = o.instantiate(candidate);
        let v = inst.verify();
        proof {
            lemma_identical_check(v.obligation, inst, v.check);
        }
        out.push(v);
        i = i + 1;
    }
    out
}

/// The same check describes an identical copy of its obligation.
proof fn lemma_identical_check(a: Obligation, b: Obligation, check: ExactCheck)
    requires
        a.identical(b),
        a.same_as(b),
        b.parts_normalized(),
        slack_is(check, b),
    ensures
        a.parts_normalized(),
        slack_is(check, a),
{
    assert forall|n: Seq<char>| #[trigger] check.slack.coeff_of(n) == (a.amortized.coeff_of(n) + a.phi_before.coeff_of(n))
        - (a.actual.coeff_of(n) + a.phi_after.coeff_of(n)) by {
        assert((expr_value(a.actual).1)(n) == (expr_value(b.actual).1)(n));
        assert((expr_value(a.phi_before).1)(n) == (expr_value(b.phi_before).1)(n));
        assert((expr_value(a.phi_after).1)(n) == (expr_value(b.phi_after).1)(n));
        assert((expr_value(a.amortized).1)(n) == (expr_value(b.amortized).1)(n));
    }
    assert forall|i: int| 0 <= i < a.actual.terms.entries().len() implies #[trigger] a.actual.terms.entries()[i].1 != 0 by {
        assert(a.actual.terms.entries()[i].0.key_view() == b.actual.terms.entries()[i].0.key_view());
        assert(b.actual.terms.entries()[i].1 != 0);
    }
    assert forall|i: int| 0 <= i < a.phi_before.terms.entries().len() implies #[trigger] a.phi_before.terms.entries()[i].1 != 0 by {
        assert(a.phi_before.terms.entries()[i].0.key_view() == b.phi_before.terms.entries()[i].0.key_view());
        assert(b.phi_before.terms.entries()[i].1 != 0);
    }
    assert forall|i: int| 0 <= i < a.phi_after.terms.entries().len() implies #[trigger] a.phi_after.terms.entries()[i].1 != 0 by {
        assert(a.phi_after.terms.entries()[i].0.key_view() == b.phi_after.terms.entries()[i].0.key_view());
        assert(b.phi_after.terms.entries()[i].1 != 0);
    }
    assert forall|i: int| 0 <= i < a.amortized.terms.entries().len() implies #[trigger] a.amortized.terms.entries()[i].1 != 0 by {
        assert(a.amortized.terms.entries()[i].0.key_view() == b.amortized.terms.entries()[i].0.key_view());
        assert(b.amortized.terms.entries()[i].1 != 0);
    }
}

/// `v` is `o` instantiated with `values`, with the outcome of its check.
pub open spec fn verified_as(v: VerifiedObligation, o: Obligation, values: KeyMap<String, i64>) -> bool {
    &&& v.obligation.wf()
    &&& v.obligation.name@ == o.name@
    &&& v.obligation.explanation@ == o.explanation@
    &&& expr_value(v.obligation.actual) == subst_value(o.actual, values)
    &&& expr_value(v.obligation.phi_before) == subst_value(o.phi_before, values)
    &&& expr_value(v.obligation.phi_after) == subst_value(o.phi_after, values)
    &&& expr_value(v.obligation.amortized) == subst_value(o.amortized, values)
    &&& v.check.proven == o.holds_under(values)
    &&& v.obligation.parts_normalized()
    &&& slack_is(v.check, v.obligation)
}

/// Checks every obligation against the candidate, or `None` where some
/// substitution or sum would leave `i64`.
pub fn verify_candidate_checked(obligations: &[Obligation], candidate: &KeyMap<String, i64>) -> (r: Option<Vec<VerifiedObligation>>)
    requires
        candidate.wf(),
        forall|i: int| 0 <= i < obligations@.len() ==> #[trigger] obligations@[i].wf(),
    ensures
        r is Some <==> all_candidate_fits(obligations@, *candidate),
        r matches Some(v) ==> v@.len() == obligations@.len() && forall|i: int| 0 <= i < v@.len() ==>
            #[trigger] verified_as(v@[i], obligations@[i], *candidate),
{
    let mut i: usize = 0;
    while i < obligations.len()
        invariant
            i <= obligations@.len(),
            candidate.wf(),
            forall|j: int| 0 <= j < obligations@.len() ==> #[trigger] obligations@[j].wf(),
            forall|j: int| 0 <= j < i ==> #[trigger] obligations@[j].candidate_fits(*candidate),
        decreases obligations@.len() - i,
    {
        let o = &obligations[i];
        assert(o.wf()) by {
            assert(obligations@[i as int].wf());
        }
        let a = o.actual.substitute_checked(candidate);
        let b = o.phi_before.substitute_checked(candidate);
        let c = o.phi_after.substitute_checked(candidate);
        let d = o.amortized.substitute_checked(candidate);
        match (a, b, c, d) {
            (Some(a), Some(b), Some(c), Some(d)) => {
                let inst = Obligation {
                    name: o.name.clone(),
                    actual: a,
                    phi_before: b,
                    phi_after: c,
                    amortized: d,
                    explanation: o.explanation.clone(),
                };
                assert(expr_value(inst.actual).1 =~= subst_value(o.actual, *candidate).1);
                assert(expr_value(inst.phi_before).1 =~= subst_value(o.phi_before, *candidate).1);
                assert(expr_value(inst.phi_after).1 =~= subst_value(o.phi_after, *candidate).1);
                assert(expr_value(inst.amortized).1 =~= subst_value(o.amortized, *candidate).1);
                if !check_fits_exec(&inst) {
                    return None;
                }
            },
            _ => {
                return None;
            },
        }
        i = i + 1;
    }
    let v = verify_candidate(obligations, candidate);
    assert forall|i: int| 0 <= i < v@.len() implies #[trigger] verified_as(v@[i], obligations@[i], *candidate) by {
        assert(v@[i].obligation.wf());
    }
    Some(v)
}

/// Whether the sums and slack of an obligation's check stay within `i64`.
fn check_fits_exec(o: &Obligation) -> (r: bool)
    requires
        o.wf(),
    ensures
        r == o.check_fits(),
{
    let ghost a = expr_value(o.actual);
    let ghost b = expr_value(o.phi_after);
    let ghost c = expr_value(o.amortized);
    let ghost d = expr_value(o.phi_before);
    let lhs = match o.actual.checked_add(&o.phi_after) {
        Some(l) => l,
        None => {
            proof {
                if o.check_fits() {
                    assert forall|n: Seq<char>| in_i64(#[trigger] o.actual.coeff_of(n) + o.phi_after.coeff_of(n)) by {
                        assert(in_i64((a.1)(n) + (b.1)(n)));
                    }
                }
            }
            return false;
        },
    };
    let rhs = match o.amortized.checked_add(&o.phi_before) {
        Some(l) => l,
        None => {
            proof {
                if o.check_fits() {
                    assert forall|n: Seq<char>| in_i64(#[trigger] o.amortized.coeff_of(n) + o.phi_before.coeff_of(n)) by {
                        assert(in_i64((c.1)(n) + (d.1)(n)));
                    }
                }
            }
            return false;
        },
    };
    let ok = rhs.checked_sub(&lhs).is_some();
    proof {
        if ok {
            assert forall|n: Seq<char>| #![trigger (a.1)(n), (b.1)(n)] in_i64((a.1)(n) + (b.1)(n)) && in_i64(-((a.1)(n) + (b.1)(n))) by {
                assert(in_i64(lhs.coeff_of(n) * -1));
            }
            assert forall|n: Seq<char>| #![trigger (c.1)(n), (d.1)(n)] in_i64((c.1)(n) + (d.1)(n)) by {
                assert(in_i64(rhs.coeff_of(n)));
            }
            assert forall|n: Seq<char>| #![trigger (a.1)(n), (c.1)(n)]
                in_i64(((c.1)(n) + (d.1)(n)) - ((a.1)(n) + (b.1)(n))) by {
                assert(in_i64(rhs.coeff_of(n) - lhs.coeff_of(n)));
            }
        }
        if o.check_fits() {
            assert forall|n: Seq<char>| in_i64(#[trigger] lhs.coeff_of(n) * -1) by {
                assert(in_i64(-((a.1)(n) + (b.1)(n))));
            }
            assert forall|n: Seq<char>| in_i64(#[trigger] rhs.coeff_of(n) - lhs.coeff_of(n)) by {
                assert(in_i64(((c.1)(n) + (d.1)(n)) - ((a.1)(n) + (b.1)(n))));
            }
        }
    }
    ok
}

} // verus!
