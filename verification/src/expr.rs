//! Linear cost expressions `constant + Σ coeff·name` over named variables.
use vstd::prelude::*;
use crate::keymap::{lemma_path_lt_irrefl, path_lt, KeyMap, TextKey};
use crate::text::{
    char_at, ends_with, push_char, remove_spaces, text_eq, trim,
    char_len, parse_i64, parse_int_spec, split_once_char, split_once_spec, trim_spec, without_spaces, is_suffix,
    concat2, concat3, i64_text, int_text, is_prefix, join, join_spec, owned, replace_spec, replace_text,
    starts_with, texts,
};

verus! {

pub open spec fn in_i64(x: int) -> bool {
    i64::MIN <= x <= i64::MAX
}

/// Coefficient of `n` in a map of terms (absent terms count as zero).
pub open spec fn map_coeff(m: Map<Seq<Seq<char>>, i64>, n: Seq<char>) -> int {
    if m.contains_key(seq![n]) {
        m[seq![n]] as int
    } else {
        0
    }
}

/// Every stored coefficient is non-zero.
pub open spec fn nonzero_entries(m: KeyMap<String, i64>) -> bool {
    forall|i: int| 0 <= i < m.entries().len() ==> #[trigger] m.entries()[i].1 != 0
}

/// The key of a text-keyed map entry is the one-text sequence of its name.
pub proof fn lemma_string_key(s: String)
    ensures
        s.key_view() == seq![s@],
        s.key_view()[0] == s@,
        s.key_view().len() == 1,
{
}

/// A linear expression: a constant plus integer multiples of named variables.
///
/// Names may encode a product `a*B` of a solver coefficient `a` and a
/// program variable `B`; substitution expands such terms.
#[derive(Debug, Clone, PartialEq, Eq)]
pub struct LinExpr {
    pub constant: i64,
    pub terms: KeyMap<String, i64>,
}

/// Outcome of an exact check: whether it was proven, and the slack `rhs - lhs`.
#[derive(Debug, Clone, PartialEq, Eq)]
pub struct ExactCheck {
    pub proven: bool,
    pub slack: LinExpr,
}

/// Why a text is not a linear expression.
#[derive(Debug, Clone, PartialEq, Eq)]
pub enum ParseLinExprError {
    EmptyTerm,
    UnsupportedTerm(String),
}

/// Scales every coefficient by `k`, dropping the terms that become zero.
fn scale_terms(m: &KeyMap<String, i64>, k: i64) -> (r: KeyMap<String, i64>)
    requires
        m.wf(),
        forall|n: Seq<char>| in_i64(#[trigger] map_coeff(m@, n) * k),
    ensures
        r.wf(),
        forall|n: Seq<char>| #[trigger] map_coeff(r@, n) == map_coeff(m@, n) * k,
        nonzero_entries(r),
{
    let mut r: KeyMap<String, i64> = KeyMap::new();
    let mut i: usize = 0;
    while i < m.len()
        invariant
            i <= m.entries().len(),
            m.wf(),
            r.wf(),
            forall|n: Seq<char>| in_i64(#[trigger] map_coeff(m@, n) * k),
            nonzero_entries(r),
            forall|j: int, t: int|
                0 <= j < r.entries().len() && i <= t < m.entries().len() ==> path_lt(
                    #[trigger] r.key_at(j),
                    #[trigger] m.key_at(t),
                ),
            forall|n: Seq<char>| #[trigger]
                map_coeff(r@, n) == if m@.contains_key(seq![n]) && m.index_of(seq![n]) < i {
                    map_coeff(m@, n) * k
                } else {
                    0
                },
        decreases m.entries().len() - i,
    {
        let e = m.entry(i);
        let name = e.0.key_copy();
        let c = e.1;
        let ghost kv = name.key_view();
        proof {
            m.lemma_index_of(i as int);
            lemma_string_key(name);
            assert(map_coeff(m@, name@) == c);
            assert(in_i64(map_coeff(m@, name@) * k));
        }
        let v = c * k;
        let ghost before = r;
        if v != 0 {
            proof {
                assert forall|j: int| 0 <= j < before.entries().len() implies path_lt(
                    #[trigger] before.key_at(j),
                    kv,
                ) by {
                    assert(path_lt(before.key_at(j), m.key_at(i as int)));
                }
            }
            r.push_last(name, v);
            proof {
                assert forall|j: int, t: int|
                    0 <= j < r.entries().len() && i + 1 <= t < m.entries().len() implies path_lt(
                    #[trigger] r.key_at(j),
                    #[trigger] m.key_at(t),
                ) by {
                    if j < before.entries().len() {
                        assert(r.key_at(j) == before.key_at(j));
                    } else {
                        assert(r.key_at(j) == m.key_at(i as int));
                        assert(path_lt(m.entries()[i as int].0.key_view(), m.entries()[t].0.key_view()));
                    }
                }
                assert forall|j: int| 0 <= j < r.entries().len() implies #[trigger] r.entries()[j].1 != 0 by {
                    if j < before.entries().len() {
                        assert(r.entries()[j] == before.entries()[j]);
                    }
                }
            }
        } else {
            proof {
                assert forall|j: int, t: int|
                    0 <= j < r.entries().len() && i + 1 <= t < m.entries().len() implies path_lt(
                    #[trigger] r.key_at(j),
                    #[trigger] m.key_at(t),
                ) by {
                    assert(path_lt(r.key_at(j), m.key_at(t)));
                }
                if r@.contains_key(kv) {
                    let j = r.index_of(kv);
                    assert(path_lt(r.key_at(j), m.key_at(i as int)));
                    lemma_path_lt_irrefl(kv);
                }
            }
        }
        proof {
            assert forall|n: Seq<char>| #[trigger]
                map_coeff(r@, n) == if m@.contains_key(seq![n]) && m.index_of(seq![n]) < i + 1 {
                    map_coeff(m@, n) * k
                } else {
                    0
                } by {
                if seq![n] == kv {
                    assert(m.index_of(seq![n]) == i);
                } else {
                    assert(map_coeff(r@, n) == map_coeff(before@, n));
                    if m@.contains_key(seq![n]) && m.index_of(seq![n]) == i {
                        assert(m.key_at(i as int) == seq![n]);
                    }
                }
            }
        }
        i = i + 1;
    }
    proof {
        assert forall|n: Seq<char>| #[trigger] map_coeff(r@, n) == map_coeff(m@, n) * k by {
            if m@.contains_key(seq![n]) {
                assert(m.has_key(seq![n]));
                let j = m.index_of(seq![n]);
                assert(0 <= j < m.entries().len());
            }
        }
    }
    r
}

/// Adds `d` to the coefficient of `name`.
fn add_to_term(r: &mut KeyMap<String, i64>, name: String, d: i64)
    requires
        old(r).wf(),
        in_i64(map_coeff(old(r)@, name@) + d),
    ensures
        final(r).wf(),
        forall|n: Seq<char>| #[trigger]
            map_coeff(final(r)@, n) == map_coeff(old(r)@, n) + if n == name@ {
                d as int
            } else {
                0
            },
{
    let ghost kv = name.key_view();
    proof {
        lemma_string_key(name);
    }
    let cur: i64 = match r.get(&name) {
        Some(v) => *v,
        None => 0,
    };
    r.insert(name, cur + d);
    proof {
        assert forall|n: Seq<char>| #[trigger]
            map_coeff(r@, n) == map_coeff(old(r)@, n) + if n == name@ {
                d as int
            } else {
                0
            } by {
            if n == name@ {
            } else {
                assert(seq![n] != kv) by {
                    assert(seq![n][0] == n);
                    assert(kv[0] == name@);
                }
            }
        }
    }
}

/// The same expression, entry for entry: the constant and the stored terms
/// in order.
pub open spec fn same_expr(a: LinExpr, b: LinExpr) -> bool {
    &&& a.constant == b.constant
    &&& crate::keymap::same_entries(a.terms.entries(), b.terms.entries())
}

/// A stored coefficient of an expression without zero terms is its
/// non-zero coefficient of that name.
proof fn lemma_stored_coeff(a: LinExpr, k: Seq<Seq<char>>)
    requires
        a.wf(),
        a.normalized(),
        a.terms@.contains_key(k),
    ensures
        k == seq![k[0]],
        a.coeff_of(k[0]) == a.terms@[k],
        a.coeff_of(k[0]) != 0,
{
    let i = a.terms.index_of(k);
    assert(0 <= i < a.terms.entries().len() && a.terms.entries()[i].0.key_view() == k);
    a.terms.lemma_index_of(i);
    lemma_string_key(a.terms.entries()[i].0);
    assert(a.terms.entries()[i].1 != 0);
}

/// An expression stored without zero terms is determined by its value: two
/// such expressions with the same constant and the same coefficients are the
/// same, entry for entry.
pub proof fn lemma_normal_form_unique(a: LinExpr, b: LinExpr)
    requires
        a.wf(),
        b.wf(),
        a.normalized(),
        b.normalized(),
        a.constant == b.constant,
        forall|n: Seq<char>| #[trigger] a.coeff_of(n) == b.coeff_of(n),
    ensures
        same_expr(a, b),
{
    assert forall|k: Seq<Seq<char>>| #[trigger] a.terms@.contains_key(k) implies b.terms@.contains_key(k) && a.terms@[k]
        == b.terms@[k] by {
        lemma_stored_coeff(a, k);
        assert(a.coeff_of(k[0]) == b.coeff_of(k[0]));
    }
    assert forall|k: Seq<Seq<char>>| #[trigger] b.terms@.contains_key(k) implies a.terms@.contains_key(k) by {
        lemma_stored_coeff(b, k);
        assert(a.coeff_of(k[0]) == b.coeff_of(k[0]));
    }
    assert(a.terms@ =~= b.terms@);
    crate::keymap::lemma_sorted_entries_unique(a.terms.entries(), b.terms.entries());
}

impl LinExpr {
    /// Well-formed: the terms are sorted by name, each name once.
    pub open spec fn wf(self) -> bool {
        self.terms.wf()
    }

    /// Coefficient of the variable `n` (zero when absent).
    pub open spec fn coeff_of(self, n: Seq<char>) -> int {
        map_coeff(self.terms@, n)
    }

    /// No term is stored with a zero coefficient.
    pub open spec fn normalized(self) -> bool {
        nonzero_entries(self.terms)
    }

    /// `self + rhs` stays within `i64` in its constant and every coefficient.
    pub open spec fn add_fits(self, rhs: LinExpr) -> bool {
        &&& in_i64(self.constant + rhs.constant)
        &&& forall|n: Seq<char>| in_i64(#[trigger] self.coeff_of(n) + rhs.coeff_of(n))
    }

    /// `k·self` stays within `i64`.
    pub open spec fn scale_fits(self, k: int) -> bool {
        &&& in_i64(self.constant * k)
        &&& forall|n: Seq<char>| in_i64(#[trigger] self.coeff_of(n) * k)
    }

    /// `self - rhs` (as `self + (-1)·rhs`) stays within `i64`.
    pub open spec fn sub_fits(self, rhs: LinExpr) -> bool {
        &&& rhs.scale_fits(-1)
        &&& in_i64(self.constant - rhs.constant)
        &&& forall|n: Seq<char>| in_i64(#[trigger] self.coeff_of(n) - rhs.coeff_of(n))
    }

    /// The names of the stored terms, in order.
    pub open spec fn names(self) -> Seq<Seq<char>> {
        self.terms.entries().map_values(|e: (String, i64)| e.0@)
    }

    pub fn zero() -> (r: Self)
        ensures
            r.wf(),
            r.constant == 0,
            r.terms.entries().len() == 0,
    {
        LinExpr { constant: 0, terms: KeyMap::new() }
    }

    pub fn one() -> (r: Self)
        ensures
            r.wf(),
            r.constant == 1,
            r.terms.entries().len() == 0,
    {
        Self::constant(1)
    }

    pub fn constant(c: i64) -> (r: Self)
        ensures
            r.wf(),
            r.constant == c,
            r.terms.entries().len() == 0,
    {
        LinExpr { constant: c, terms: KeyMap::new() }
    }

    /// `coeff · name` (no term at all when `coeff` is zero).
    pub fn var(name: &str, coeff: i64) -> (r: Self)
        ensures
            r.wf(),
            r.constant == 0,
            coeff != 0 ==> r.terms.entries().len() == 1 && r.terms.entries()[0].0@ == name@
                && r.terms.entries()[0].1 == coeff,
            coeff == 0 ==> r.terms.entries().len() == 0,
            r.normalized(),
            forall|n: Seq<char>| #[trigger]
                r.coeff_of(n) == if n == name@ {
                    coeff as int
                } else {
                    0
                },
    {
        let mut terms: KeyMap<String, i64> = KeyMap::new();
        if coeff != 0 {
            let s = owned(name);
            proof {
                lemma_string_key(s);
            }
            terms.push_last(s, coeff);
            proof {
                assert forall|n: Seq<char>| #[trigger]
                    map_coeff(terms@, n) == if n == name@ {
                        coeff as int
                    } else {
                        0
                    } by {
                    if n != name@ {
                        assert(seq![n][0] != seq![name@][0]);
                    }
                }
            }
        }
        LinExpr { constant: 0, terms }
    }

    /// The same expression with its zero-coefficient terms dropped.
    pub fn normalize(self) -> (r: Self)
        requires
            self.wf(),
        ensures
            r.wf(),
            r.constant == self.constant,
            forall|n: Seq<char>| #[trigger] r.coeff_of(n) == self.coeff_of(n),
            r.normalized(),
    {
        assert forall|n: Seq<char>| in_i64(#[trigger] map_coeff(self.terms@, n) * 1) by {
        }
        let terms = scale_terms(&self.terms, 1);
        LinExpr { constant: self.constant, terms }
    }

    /// `k · self`.
    pub fn scale(&self, k: i64) -> (r: Self)
        requires
            self.wf(),
            self.scale_fits(k as int),
        ensures
            r.wf(),
            r.constant == self.constant * k,
            forall|n: Seq<char>| #[trigger] r.coeff_of(n) == self.coeff_of(n) * k,
            r.normalized(),
    {
        assert forall|n: Seq<char>| in_i64(#[trigger] map_coeff(self.terms@, n) * k) by {
            assert(in_i64(self.coeff_of(n) * k));
        }
        let terms = scale_terms(&self.terms, k);
        LinExpr { constant: self.constant * k, terms }
    }

    /// `self + rhs`, normalized.
    pub fn add(&self, rhs: &Self) -> (r: Self)
        requires
            self.wf(),
            rhs.wf(),
            self.add_fits(*rhs),
        ensures
            r.wf(),
            r.constant == self.constant + rhs.constant,
            forall|n: Seq<char>| #[trigger] r.coeff_of(n) == self.coeff_of(n) + rhs.coeff_of(n),
            r.normalized(),
    {
        assert forall|n: Seq<char>| in_i64(#[trigger] map_coeff(self.terms@, n) * 1) by {
        }
        let mut acc = scale_terms(&self.terms, 1);
        let mut i: usize = 0;
        while i < rhs.terms.len()
            invariant
                i <= rhs.terms.entries().len(),
                rhs.wf(),
                acc.wf(),
                self.add_fits(*rhs),
                forall|n: Seq<char>| #[trigger]
                    map_coeff(acc@, n) == self.coeff_of(n) + if rhs.terms@.contains_key(seq![n])
                        && rhs.terms.index_of(seq![n]) < i {
                        rhs.coeff_of(n)
                    } else {
                        0
                    },
            decreases rhs.terms.entries().len() - i,
        {
            let e = rhs.terms.entry(i);
            let name = e.0.key_copy();
            let v = e.1;
            proof {
                rhs.terms.lemma_index_of(i as int);
                lemma_string_key(name);
                assert(rhs.coeff_of(name@) == v);
                assert(map_coeff(acc@, name@) == self.coeff_of(name@));
                assert(in_i64(self.coeff_of(name@) + rhs.coeff_of(name@)));
            }
            let ghost before = acc;
            add_to_term(&mut acc, name, v);
            proof {
                assert forall|n: Seq<char>| #[trigger]
                    map_coeff(acc@, n) == self.coeff_of(n) + if rhs.terms@.contains_key(seq![n])
                        && rhs.terms.index_of(seq![n]) < i + 1 {
                        rhs.coeff_of(n)
                    } else {
                        0
                    } by {
                    if n == name@ {
                        assert(rhs.terms.index_of(seq![n]) == i);
                    } else if rhs.terms@.contains_key(seq![n]) && rhs.terms.index_of(seq![n]) == i {
                        assert(rhs.terms.key_at(i as int) == seq![n]);
                        assert(seq![n][0] == n);
                    }
                }
            }
            i = i + 1;
        }
        proof {
            assert forall|n: Seq<char>| #[trigger]
                map_coeff(acc@, n) == self.coeff_of(n) + rhs.coeff_of(n) by {
                if rhs.terms@.contains_key(seq![n]) {
                    assert(rhs.terms.has_key(seq![n]));
                }
            }
        }
        assert forall|n: Seq<char>| in_i64(#[trigger] map_coeff(acc@, n) * 1) by {
            assert(in_i64(self.coeff_of(n) + rhs.coeff_of(n)));
        }
        let terms = scale_terms(&acc, 1);
        LinExpr { constant: self.constant + rhs.constant, terms }
    }

    /// `self - rhs`, computed as `self + (-1)·rhs`.
    pub fn sub(&self, rhs: &Self) -> (r: Self)
        requires
            self.wf(),
            rhs.wf(),
            self.sub_fits(*rhs),
        ensures
            r.wf(),
            r.constant == self.constant - rhs.constant,
            forall|n: Seq<char>| #[trigger] r.coeff_of(n) == self.coeff_of(n) - rhs.coeff_of(n),
            r.normalized(),
    {
        let neg = rhs.scale(-1);
        assert(self.add_fits(neg)) by {
            assert forall|n: Seq<char>| in_i64(#[trigger] self.coeff_of(n) + neg.coeff_of(n)) by {
                assert(in_i64(self.coeff_of(n) - rhs.coeff_of(n)));
            }
        }
        let r = self.add(&neg);
        assert forall|n: Seq<char>| #[trigger] r.coeff_of(n) == self.coeff_of(n) - rhs.coeff_of(n) by {
            assert(r.coeff_of(n) == self.coeff_of(n) + neg.coeff_of(n));
        }
        r
    }

    /// Coefficient of the variable `name` (zero when absent).
    pub fn coeff(&self, name: &str) -> (r: i64)
        requires
            self.wf(),
        ensures
            r == self.coeff_of(name@),
    {
        let key = owned(name);
        proof {
            lemma_string_key(key);
        }
        match self.terms.get(&key) {
            Some(v) => *v,
            None => 0,
        }
    }

    /// The names of the stored terms, in increasing order.
    pub fn vars(&self) -> (r: Vec<String>)
        ensures
            r@.len() == self.terms.entries().len(),
            forall|i: int| 0 <= i < r@.len() ==> #[trigger] r@[i] == self.terms.entries()[i].0,
    {
        let mut out: Vec<String> = Vec::new();
        let mut i: usize = 0;
        while i < self.terms.len()
            invariant
                i <= self.terms.entries().len(),
                out@.len() == i,
                forall|j: int| 0 <= j < i ==> #[trigger] out@[j] == self.terms.entries()[j].0,
            decreases self.terms.entries().len() - i,
        {
            let e = self.terms.entry(i);
            out.push(e.0.clone());
            i = i + 1;
        }
        out
    }
}


/// The total weight of `n` among the weighted names.
pub open spec fn weight_of(vs: Seq<(Seq<char>, int)>, n: Seq<char>) -> int
    decreases vs.len(),
{
    if vs.len() == 0 {
        0
    } else {
        weight_of(vs.drop_last(), n) + if vs.last().0 == n {
            vs.last().1
        } else {
            0
        }
    }
}

pub proof fn lemma_weights(a: (Seq<char>, int), b: (Seq<char>, int), c: (Seq<char>, int), n: Seq<char>)
    ensures
        weight_of(Seq::empty(), n) == 0,
        weight_of(seq![a], n) == (if a.0 == n { a.1 } else { 0 }),
        weight_of(seq![a, b], n) == (if a.0 == n { a.1 } else { 0 }) + (if b.0 == n { b.1 } else { 0 }),
        weight_of(seq![a, b, c], n) == (if a.0 == n { a.1 } else { 0 }) + (if b.0 == n { b.1 } else { 0 }) + (
        if c.0 == n { c.1 } else { 0 }),
{
    let s1 = seq![a];
    let s2 = seq![a, b];
    let s3 = seq![a, b, c];
    assert(s1.drop_last() =~= Seq::<(Seq<char>, int)>::empty());
    assert(s2.drop_last() =~= s1);
    assert(s3.drop_last() =~= s2);
    assert(weight_of(Seq::<(Seq<char>, int)>::empty(), n) == 0);
    assert(weight_of(s1, n) == weight_of(s1.drop_last(), n) + if s1.last().0 == n { s1.last().1 } else { 0 });
    assert(weight_of(s2, n) == weight_of(s2.drop_last(), n) + if s2.last().0 == n { s2.last().1 } else { 0 });
    assert(weight_of(s3, n) == weight_of(s3.drop_last(), n) + if s3.last().0 == n { s3.last().1 } else { 0 });
}

/// `f` may give `out` for the name `name`.
pub open spec fn renames_to<F: Fn(&str) -> String>(f: F, name: Seq<char>, out: Seq<char>) -> bool {
    exists|s: &str, o: String| s@ == name && o@ == out && #[trigger] call_ensures(f, (s,), o)
}

/// `outs` are results `f` may give for the first names of the entries.
pub open spec fn renamed_by<F: Fn(&str) -> String>(f: F, es: Seq<(String, i64)>, outs: Seq<Seq<char>>) -> bool {
    &&& outs.len() <= es.len()
    &&& forall|i: int| 0 <= i < outs.len() ==> #[trigger] renames_to(f, es[i].0@, outs[i])
}

/// The coefficient of `n` once the first entries are renamed to `outs`:
/// the sum of their coefficients renamed to `n`.
pub open spec fn renamed_coeff(es: Seq<(String, i64)>, outs: Seq<Seq<char>>, n: Seq<char>) -> int
    decreases outs.len(),
{
    if outs.len() == 0 || outs.len() > es.len() {
        0
    } else {
        renamed_coeff(es, outs.drop_last(), n) + if outs.last() == n {
            es[outs.len() - 1].1 as int
        } else {
            0
        }
    }
}

/// Every sum that renaming with `f` can build stays within `i64`.
pub open spec fn rename_fits<F: Fn(&str) -> String>(f: F, es: Seq<(String, i64)>) -> bool {
    forall|outs: Seq<Seq<char>>| #[trigger] renamed_by(f, es, outs) ==> forall|n: Seq<char>|
        in_i64(#[trigger] renamed_coeff(es, outs, n))
}

impl LinExpr {
    /// The expression with every variable renamed by `f`; terms renamed to
    /// the same name are added.
    pub fn rename_vars<F: Fn(&str) -> String>(&self, f: F) -> (r: Self)
        requires
            self.wf(),
            forall|s: &str| #[trigger] call_requires(f, (s,)),
            rename_fits(f, self.terms.entries()),
        ensures
            r.wf(),
            r.normalized(),
            r.constant == self.constant,
            exists|outs: Seq<Seq<char>>| {
                &&& #[trigger] renamed_by(f, self.terms.entries(), outs)
                &&& outs.len() == self.terms.entries().len()
                &&& forall|n: Seq<char>| #[trigger] r.coeff_of(n) == renamed_coeff(self.terms.entries(), outs, n)
            },
    {
        let ghost es = self.terms.entries();
        let ghost mut outs: Seq<Seq<char>> = Seq::empty();
        let mut out = LinExpr::constant(self.constant);
        let mut i: usize = 0;
        while i < self.terms.len()
            invariant
                es == self.terms.entries(),
                i <= es.len(),
                outs.len() == i,
                forall|s: &str| #[trigger] call_requires(f, (s,)),
                rename_fits(f, es),
                renamed_by(f, es, outs),
                out.wf(),
                out.constant == self.constant,
                forall|n: Seq<char>| #[trigger] out.coeff_of(n) == renamed_coeff(es, outs, n),
            decreases es.len() - i,
        {
            let e = self.terms.entry(i);
            let s: &str = e.0.as_str();
            let name = f(s);
            let ghost next = outs.push(name@);
            proof {
                assert(renames_to(f, es[i as int].0@, name@));
                assert forall|j: int| 0 <= j < next.len() implies #[trigger] renames_to(f, es[j].0@, next[j]) by {
                    if j < outs.len() {
                        assert(next[j] == outs[j]);
                    }
                }
                assert(renamed_by(f, es, next));
                assert(next.drop_last() =~= outs);
            }
            let v = LinExpr::var(name.as_str(), e.1);
            assert(out.add_fits(v)) by {
                assert forall|n: Seq<char>| in_i64(#[trigger] out.coeff_of(n) + v.coeff_of(n)) by {
                    assert(in_i64(renamed_coeff(es, next, n)));
                }
            }
            out = out.add(&v);
            proof {
                outs = next;
            }
            i = i + 1;
        }
        let r = out.normalize();
        assert(renamed_by(f, self.terms.entries(), outs) && outs.len() == self.terms.entries().len());
        assert(forall|n: Seq<char>| #[trigger] r.coeff_of(n) == renamed_coeff(self.terms.entries(), outs, n));
        r
    }
}

/// Coefficient a map of spec integers gives `n` (zero when absent).
pub open spec fn get0(m: Map<Seq<char>, int>, n: Seq<char>) -> int {
    if m.contains_key(n) {
        m[n]
    } else {
        0
    }
}

/// `m` with `d` added to the coefficient of `n`.
pub open spec fn bump(m: Map<Seq<char>, int>, n: Seq<char>, d: int) -> Map<Seq<char>, int> {
    m.insert(n, get0(m, n) + d)
}

/// The value a substitution assigns to `n`, if any.
pub open spec fn value_of(values: KeyMap<String, i64>, n: Seq<char>) -> Option<int> {
    if values@.contains_key(seq![n]) {
        Some(values@[seq![n]] as int)
    } else {
        None
    }
}

/// One step of substitution: the term `c·n` applied to the state
/// (constant, coefficients).  A name `l*r` whose parts have values is a
/// product of those values; with one part known it becomes a term in the other.
pub open spec fn subst_step(
    st: (int, Map<Seq<char>, int>),
    n: Seq<char>,
    c: int,
    values: KeyMap<String, i64>,
) -> (int, Map<Seq<char>, int>) {
    match value_of(values, n) {
        Some(v) => (st.0 + c * v, st.1),
        None => match crate::text::split_once_spec(n, '*') {
            Some(parts) => match (value_of(values, parts.0), value_of(values, parts.1)) {
                (Some(lv), Some(rv)) => (st.0 + (c * lv) * rv, st.1),
                (Some(lv), None) => (st.0, bump(st.1, parts.1, c * lv)),
                (None, Some(rv)) => (st.0, bump(st.1, parts.0, c * rv)),
                (None, None) => (st.0, bump(st.1, n, c)),
            },
            None => (st.0, bump(st.1, n, c)),
        },
    }
}

/// The step keeps every product and partial sum within `i64`.
pub open spec fn subst_step_fits(
    st: (int, Map<Seq<char>, int>),
    n: Seq<char>,
    c: int,
    values: KeyMap<String, i64>,
) -> bool {
    match value_of(values, n) {
        Some(v) => in_i64(c * v) && in_i64(st.0 + c * v),
        None => match crate::text::split_once_spec(n, '*') {
            Some(parts) => match (value_of(values, parts.0), value_of(values, parts.1)) {
                (Some(lv), Some(rv)) => in_i64(c * lv) && in_i64((c * lv) * rv) && in_i64(
                    st.0 + (c * lv) * rv,
                ),
                (Some(lv), None) => in_i64(c * lv) && in_i64(get0(st.1, parts.1) + c * lv),
                (None, Some(rv)) => in_i64(c * rv) && in_i64(get0(st.1, parts.0) + c * rv),
                (None, None) => in_i64(get0(st.1, n) + c),
            },
            None => in_i64(get0(st.1, n) + c),
        },
    }
}

impl LinExpr {
    /// State after substituting into the first `i` terms (in name order).
    pub open spec fn subst_state(self, values: KeyMap<String, i64>, i: nat) -> (
        int,
        Map<Seq<char>, int>,
    )
        decreases i,
    {
        if i == 0 || i > self.terms.entries().len() {
            (self.constant as int, Map::empty())
        } else {
            let e = self.terms.entries()[i - 1];
            subst_step(self.subst_state(values, (i - 1) as nat), e.0@, e.1 as int, values)
        }
    }

    /// Substituting into the first `i` terms never leaves `i64`.
    pub open spec fn subst_fits(self, values: KeyMap<String, i64>, i: nat) -> bool
        decreases i,
    {
        if i == 0 || i > self.terms.entries().len() {
            true
        } else {
            let e = self.terms.entries()[i - 1];
            self.subst_fits(values, (i - 1) as nat) && subst_step_fits(
                self.subst_state(values, (i - 1) as nat),
                e.0@,
                e.1 as int,
                values,
            )
        }
    }

    /// The whole substitution never leaves `i64`.
    pub open spec fn substitute_fits(self, values: KeyMap<String, i64>) -> bool {
        self.subst_fits(values, self.terms.entries().len())
    }

    /// The substituted expression: its constant and coefficients.
    pub open spec fn substituted(self, values: KeyMap<String, i64>) -> (int, Map<Seq<char>, int>) {
        self.subst_state(values, self.terms.entries().len())
    }

    /// Substitution, or `None` where a product or sum would leave `i64`.
    pub fn substitute_checked(&self, values: &KeyMap<String, i64>) -> (r: Option<Self>)
        requires
            self.wf(),
            values.wf(),
        ensures
            r is Some <==> self.substitute_fits(*values),
            r matches Some(e) ==> e.wf() && e.normalized() && e.constant == self.substituted(*values).0
                && forall|n: Seq<char>| #[trigger] e.coeff_of(n) == get0(self.substituted(*values).1, n),
    {
        let mut constant: i64 = self.constant;
        let mut acc: KeyMap<String, i64> = KeyMap::new();
        let mut i: usize = 0;
        while i < self.terms.len()
            invariant
                i <= self.terms.entries().len(),
                self.wf(),
                values.wf(),
                acc.wf(),
                self.subst_fits(*values, i as nat),
                constant == self.subst_state(*values, i as nat).0,
                forall|n: Seq<char>| #[trigger] map_coeff(acc@, n) == get0(self.subst_state(*values, i as nat).1, n),
            decreases self.terms.entries().len() - i,
        {
            let e = self.terms.entry(i);
            let name = &e.0;
            let c = e.1;
            let ghost st = self.subst_state(*values, i as nat);
            assert(self.subst_state(*values, (i + 1) as nat) == subst_step(st, name@, c as int, *values));
            assert(self.subst_fits(*values, (i + 1) as nat) == subst_step_fits(st, name@, c as int, *values));
            let key = name.key_copy();
            proof {
                lemma_string_key(key);
            }
            match values.get(&key) {
                Some(v) => {
                    let prod = match c.checked_mul(*v) {
                        Some(p) => p,
                        None => {
                            proof {
                                self.lemma_subst_fits_prefix(*values, (i + 1) as nat, self.terms.entries().len());
                            }
                            return None;
                        },
                    };
                    constant = match constant.checked_add(prod) {
                        Some(x) => x,
                        None => {
                            proof {
                                self.lemma_subst_fits_prefix(*values, (i + 1) as nat, self.terms.entries().len());
                            }
                            return None;
                        },
                    };
                },
                None => {
                    match crate::text::split_once_char(name.as_str(), '*') {
                        Some((l, r)) => {
                            let lk = owned(l.as_str());
                            let rk = owned(r.as_str());
                            proof {
                                lemma_string_key(lk);
                                lemma_string_key(rk);
                            }
                            let lv = values.get(&lk);
                            let rv = values.get(&rk);
                            match (lv, rv) {
                                (Some(a), Some(b)) => {
                                    let ok = match c.checked_mul(*a) {
                                        Some(p) => match p.checked_mul(*b) {
                                            Some(q) => match constant.checked_add(q) {
                                                Some(x) => {
                                                    constant = x;
                                                    true
                                                },
                                                None => false,
                                            },
                                            None => false,
                                        },
                                        None => false,
                                    };
                                    if !ok {
                                        proof {
                                            self.lemma_subst_fits_prefix(*values, (i + 1) as nat, self.terms.entries().len());
                                        }
                                        return None;
                                    }
                                },
                                (Some(a), None) => {
                                    let ok = match c.checked_mul(*a) {
                                        Some(p) => bump_checked(&mut acc, rk, p),
                                        None => false,
                                    };
                                    if !ok {
                                        proof {
                                            self.lemma_subst_fits_prefix(*values, (i + 1) as nat, self.terms.entries().len());
                                        }
                                        return None;
                                    }
                                },
                                (None, Some(b)) => {
                                    let ok = match c.checked_mul(*b) {
                                        Some(p) => bump_checked(&mut acc, lk, p),
                                        None => false,
                                    };
                                    if !ok {
                                        proof {
                                            self.lemma_subst_fits_prefix(*values, (i + 1) as nat, self.terms.entries().len());
                                        }
                                        return None;
                                    }
                                },
                                (None, None) => {
                                    if !bump_checked(&mut acc, key, c) {
                                        proof {
                                            self.lemma_subst_fits_prefix(*values, (i + 1) as nat, self.terms.entries().len());
                                        }
                                        return None;
                                    }
                                },
                            }
                        },
                        None => {
                            if !bump_checked(&mut acc, key, c) {
                                proof {
                                    self.lemma_subst_fits_prefix(*values, (i + 1) as nat, self.terms.entries().len());
                                }
                                return None;
                            }
                        },
                    }
                },
            }
            i = i + 1;
        }
        assert forall|n: Seq<char>| in_i64(#[trigger] map_coeff(acc@, n) * 1) by {
            if acc@.contains_key(seq![n]) {
            }
        }
        let terms = scale_terms(&acc, 1);
        Some(LinExpr { constant, terms })
    }

    /// A failure within the first `i` terms is a failure of the whole.
    proof fn lemma_subst_fits_prefix(self, values: KeyMap<String, i64>, i: nat, j: nat)
        requires
            i <= j,
            j <= self.terms.entries().len(),
        ensures
            self.subst_fits(values, j) ==> self.subst_fits(values, i),
        decreases j - i,
    {
        if i < j {
            self.lemma_subst_fits_prefix(values, i, (j - 1) as nat);
        }
    }

    /// Substitutes known values; products `l*r` with known parts are expanded.
    pub fn substitute(&self, values: &KeyMap<String, i64>) -> (r: Self)
        requires
            self.wf(),
            values.wf(),
            self.substitute_fits(*values),
        ensures
            r.wf(),
            r.normalized(),
            r.constant == self.substituted(*values).0,
            forall|n: Seq<char>| #[trigger] r.coeff_of(n) == get0(self.substituted(*values).1, n),
    {
        match self.substitute_checked(values) {
            Some(e) => e,
            None => {
                assert(false);
                LinExpr::zero()
            },
        }
    }
}

/// Adds `d` to the coefficient of `name` unless the sum leaves `i64`.
fn bump_checked(acc: &mut KeyMap<String, i64>, name: String, d: i64) -> (ok: bool)
    requires
        old(acc).wf(),
    ensures
        final(acc).wf(),
        ok == in_i64(map_coeff(old(acc)@, name@) + d),
        ok ==> forall|n: Seq<char>| #[trigger]
            map_coeff(final(acc)@, n) == map_coeff(old(acc)@, n) + if n == name@ {
                d as int
            } else {
                0
            },
        !ok ==> final(acc)@ == old(acc)@,
{
    proof {
        lemma_string_key(name);
    }
    let cur: i64 = match acc.get(&name) {
        Some(v) => *v,
        None => 0,
    };
    match cur.checked_add(d) {
        Some(_) => {
            add_to_term(acc, name, d);
            true
        },
        None => false,
    }
}


impl LinExpr {
    /// `add`, or `None` where it would leave `i64`.
    pub fn checked_add(&self, rhs: &Self) -> (r: Option<Self>)
        requires
            self.wf(),
            rhs.wf(),
        ensures
            r is Some <==> self.add_fits(*rhs),
            r matches Some(e) ==> e.wf() && e.normalized() && e.constant == self.constant + rhs.constant
                && forall|n: Seq<char>| #[trigger] e.coeff_of(n) == self.coeff_of(n) + rhs.coeff_of(n),
    {
        if self.constant.checked_add(rhs.constant).is_none() {
            return None;
        }
        let mut i: usize = 0;
        while i < rhs.terms.len()
            invariant
                i <= rhs.terms.entries().len(),
                rhs.wf(),
                self.wf(),
                forall|j: int| 0 <= j < i ==> in_i64(
                    self.coeff_of(#[trigger] rhs.terms.entries()[j].0@) + rhs.terms.entries()[j].1,
                ),
            decreases rhs.terms.entries().len() - i,
        {
            let e = rhs.terms.entry(i);
            let mine = self.coeff(e.0.as_str());
            if mine.checked_add(e.1).is_none() {
                proof {
                    rhs.terms.lemma_index_of(i as int);
                    lemma_string_key(e.0);
                    assert(rhs.coeff_of(e.0@) == e.1);
                    assert(!in_i64(self.coeff_of(e.0@) + rhs.coeff_of(e.0@)));
                }
                return None;
            }
            i = i + 1;
        }
        proof {
            assert forall|n: Seq<char>| in_i64(#[trigger] self.coeff_of(n) + rhs.coeff_of(n)) by {
                if rhs.terms@.contains_key(seq![n]) {
                    assert(rhs.terms.has_key(seq![n]));
                    let j = rhs.terms.index_of(seq![n]);
                    rhs.terms.lemma_index_of(j);
                    lemma_string_key(rhs.terms.entries()[j].0);
                    assert(rhs.terms.entries()[j].0@ == n) by {
                        assert(seq![rhs.terms.entries()[j].0@][0] == seq![n][0]);
                    }
                } else {
                    if self.terms@.contains_key(seq![n]) {
                        assert(self.terms@[seq![n]] as int == self.coeff_of(n));
                    }
                }
            }
        }
        Some(self.add(rhs))
    }

    /// `scale`, or `None` where it would leave `i64`.
    pub fn checked_scale(&self, k: i64) -> (r: Option<Self>)
        requires
            self.wf(),
        ensures
            r is Some <==> self.scale_fits(k as int),
            r matches Some(e) ==> e.wf() && e.normalized() && e.constant == self.constant * k
                && forall|n: Seq<char>| #[trigger] e.coeff_of(n) == self.coeff_of(n) * k,
    {
        if self.constant.checked_mul(k).is_none() {
            return None;
        }
        let mut i: usize = 0;
        while i < self.terms.len()
            invariant
                i <= self.terms.entries().len(),
                self.wf(),
                forall|j: int| 0 <= j < i ==> in_i64(#[trigger] self.terms.entries()[j].1 * k),
            decreases self.terms.entries().len() - i,
        {
            let e = self.terms.entry(i);
            if e.1.checked_mul(k).is_none() {
                proof {
                    self.terms.lemma_index_of(i as int);
                    lemma_string_key(e.0);
                    assert(self.coeff_of(e.0@) == e.1);
                }
                return None;
            }
            i = i + 1;
        }
        proof {
            assert forall|n: Seq<char>| in_i64(#[trigger] self.coeff_of(n) * k) by {
                if self.terms@.contains_key(seq![n]) {
                    assert(self.terms.has_key(seq![n]));
                    let j = self.terms.index_of(seq![n]);
                    self.terms.lemma_index_of(j);
                    assert(in_i64(self.terms.entries()[j].1 * k));
                }
            }
        }
        Some(self.scale(k))
    }

    /// `sub`, or `None` where it would leave `i64`.
    pub fn checked_sub(&self, rhs: &Self) -> (r: Option<Self>)
        requires
            self.wf(),
            rhs.wf(),
        ensures
            r is Some <==> self.sub_fits(*rhs),
            r matches Some(e) ==> e.wf() && e.normalized() && e.constant == self.constant - rhs.constant
                && forall|n: Seq<char>| #[trigger] e.coeff_of(n) == self.coeff_of(n) - rhs.coeff_of(n),
    {
        match rhs.checked_scale(-1) {
            None => None,
            Some(neg) => {
                match self.checked_add(&neg) {
                    None => {
                        proof {
                            if self.sub_fits(*rhs) {
                                assert forall|n: Seq<char>| in_i64(#[trigger] self.coeff_of(n) + neg.coeff_of(n)) by {
                                    assert(in_i64(self.coeff_of(n) - rhs.coeff_of(n)));
                                }
                            }
                        }
                        None
                    },
                    Some(r) => {
                        proof {
                            assert forall|n: Seq<char>| in_i64(#[trigger] self.coeff_of(n) - rhs.coeff_of(n)) by {
                                assert(in_i64(self.coeff_of(n) + neg.coeff_of(n)));
                            }
                            assert forall|n: Seq<char>| #[trigger] r.coeff_of(n) == self.coeff_of(n) - rhs.coeff_of(n) by {
                                assert(r.coeff_of(n) == self.coeff_of(n) + neg.coeff_of(n));
                            }
                        }
                        Some(r)
                    },
                }
            },
        }
    }

    /// Exact sufficient check for `self <= rhs` under all remaining variables >= 0:
    /// proven exactly when the slack `rhs - self` has a non-negative constant
    /// and only non-negative coefficients.
    pub fn leq_under_nonnegative_vars(&self, rhs: &Self) -> (r: ExactCheck)
        requires
            self.wf(),
            rhs.wf(),
            rhs.sub_fits(*self),
        ensures
            r.slack.wf(),
            r.slack.normalized(),
            r.slack.constant == rhs.constant - self.constant,
            forall|n: Seq<char>| #[trigger] r.slack.coeff_of(n) == rhs.coeff_of(n) - self.coeff_of(n),
            r.proven == (rhs.constant >= self.constant && forall|n: Seq<char>|
                #[trigger] rhs.coeff_of(n) >= self.coeff_of(n)),
    {
        let slack = rhs.sub(self).normalize();
        let mut ok = slack.constant >= 0;
        let mut i: usize = 0;
        while i < slack.terms.len()
            invariant
                i <= slack.terms.entries().len(),
                slack.wf(),
                ok == (slack.constant >= 0 && forall|j: int| 0 <= j < i ==> #[trigger] slack.terms.entries()[j].1 >= 0),
            decreases slack.terms.entries().len() - i,
        {
            let e = slack.terms.entry(i);
            if e.1 < 0 {
                ok = false;
            }
            i = i + 1;
        }
        proof {
            if ok {
                assert forall|n: Seq<char>| #[trigger] rhs.coeff_of(n) >= self.coeff_of(n) by {
                    if slack.terms@.contains_key(seq![n]) {
                        assert(slack.terms.has_key(seq![n]));
                        let j = slack.terms.index_of(seq![n]);
                        slack.terms.lemma_index_of(j);
                        assert(slack.terms.entries()[j].1 >= 0);
                    }
                    assert(slack.coeff_of(n) == rhs.coeff_of(n) - self.coeff_of(n));
                }
            }
            if rhs.constant >= self.constant && forall|n: Seq<char>| #[trigger] rhs.coeff_of(n) >= self.coeff_of(n) {
                assert forall|j: int| 0 <= j < slack.terms.entries().len() implies #[trigger] slack.terms.entries()[j].1 >= 0 by {
                    slack.terms.lemma_index_of(j);
                    let e = slack.terms.entries()[j];
                    lemma_string_key(e.0);
                    assert(slack.coeff_of(e.0@) == e.1);
                    assert(rhs.coeff_of(e.0@) >= self.coeff_of(e.0@));
                }
            }
        }
        ExactCheck { proven: ok, slack }
    }

    /// `leq_under_nonnegative_vars`, or `None` where the slack would leave `i64`.
    pub fn checked_leq_under_nonnegative_vars(&self, rhs: &Self) -> (r: Option<ExactCheck>)
        requires
            self.wf(),
            rhs.wf(),
        ensures
            r is Some <==> rhs.sub_fits(*self),
            r matches Some(c) ==> c.slack.wf() && c.slack.normalized() && c.slack.constant == rhs.constant
                - self.constant && (forall|n: Seq<char>| #[trigger] c.slack.coeff_of(n) == rhs.coeff_of(n)
                - self.coeff_of(n)) && c.proven == (rhs.constant >= self.constant && forall|n: Seq<char>|
                #[trigger] rhs.coeff_of(n) >= self.coeff_of(n)),
    {
        match rhs.checked_sub(self) {
            None => None,
            Some(_) => Some(self.leq_under_nonnegative_vars(rhs)),
        }
    }
}


// ---------------------------------------------------------------------------
// Rendering
// ---------------------------------------------------------------------------

/// How one term `c·n` is written.
pub open spec fn term_text(n: Seq<char>, c: int) -> Seq<char> {
    if c == 1 {
        n
    } else if c == -1 {
        seq!['-'] + n
    } else {
        int_text(c) + seq!['*'] + n
    }
}

/// The written terms of a list of entries.
pub open spec fn terms_text(es: Seq<(String, i64)>) -> Seq<Seq<char>>
    decreases es.len(),
{
    if es.len() == 0 {
        Seq::empty()
    } else {
        terms_text(es.drop_last()).push(term_text(es.last().0@, es.last().1 as int))
    }
}

/// Names of solver coefficients start with `a_` or `c_`.
pub open spec fn is_solver_name(n: Seq<char>) -> bool {
    is_prefix(seq!['a', '_'], n) || is_prefix(seq!['c', '_'], n)
}

/// The names among the entries that are not solver coefficients, in order.
pub open spec fn program_names(es: Seq<(String, i64)>) -> Seq<Seq<char>>
    decreases es.len(),
{
    if es.len() == 0 {
        Seq::empty()
    } else if is_solver_name(es.last().0@) {
        program_names(es.drop_last())
    } else {
        program_names(es.drop_last()).push(es.last().0@)
    }
}

impl LinExpr {
    /// The parts that are joined by `" + "` when the expression is written.
    pub open spec fn text_parts(self) -> Seq<Seq<char>> {
        let head = if self.constant != 0 || self.terms.entries().len() == 0 {
            seq![int_text(self.constant as int)]
        } else {
            Seq::empty()
        };
        head + terms_text(self.terms.entries())
    }

    /// The written form, e.g. `1 + 2*B - a`.
    pub open spec fn text(self) -> Seq<char> {
        replace_spec(join_spec(self.text_parts(), " + "@), "+ -"@, "- "@)
    }

    /// The written form: the constant (when non-zero or alone), then each
    /// term as `n`, `-n` or `k*n`, joined by `+` with `+ -` written `-`.
    pub fn to_string(&self) -> (r: String)
        ensures
            r@ == self.text(),
    {
        let mut parts: Vec<String> = Vec::new();
        if self.constant != 0 || self.terms.len() == 0 {
            parts.push(i64_text(self.constant));
        }
        let ghost head = texts(parts@);
        let n0 = parts.len();
        let mut i: usize = 0;
        while i < self.terms.len()
            invariant
                i <= self.terms.entries().len(),
                n0 == head.len(),
                texts(parts@) == head + terms_text(self.terms.entries().take(i as int)),
            decreases self.terms.entries().len() - i,
        {
            let e = self.terms.entry(i);
            let c = e.1;
            let t = if c == 1 {
                owned(e.0.as_str())
            } else if c == -1 {
                concat2("-", e.0.as_str())
            } else {
                let k = i64_text(c);
                concat3(k.as_str(), "*", e.0.as_str())
            };
            proof {
                reveal_strlit("-");
                reveal_strlit("*");
                assert(t@ == term_text(e.0@, c as int));
                assert(self.terms.entries().take(i + 1).drop_last() =~= self.terms.entries().take(i as int));
                assert(self.terms.entries().take(i + 1).last() == *e);
                assert(terms_text(self.terms.entries().take(i + 1)) == terms_text(
                    self.terms.entries().take(i as int),
                ).push(term_text(e.0@, c as int)));
            }
            let ghost before = parts@;
            parts.push(t);
            assert(texts(parts@) =~= texts(before).push(t@));
            assert(texts(parts@) =~= head + terms_text(self.terms.entries().take(i + 1)));
            i = i + 1;
        }
        proof {
            assert(self.terms.entries().take(self.terms.entries().len() as int) =~= self.terms.entries());
            assert(texts(parts@) =~= self.text_parts());
            reveal_strlit("+ -");
        }
        let joined = join(&parts, " + ");
        replace_text(joined.as_str(), "+ -", "- ")
    }

    /// `O(1)` when only solver coefficients occur, else `O(v1 + v2 + ...)`
    /// over the other variables.
    pub open spec fn big_o_text(self) -> Seq<char> {
        let vs = program_names(self.terms.entries());
        if vs.len() == 0 {
            "O(1)"@
        } else {
            "O("@ + join_spec(vs, " + "@) + ")"@
        }
    }

    pub fn to_big_o(&self) -> (r: String)
        ensures
            r@ == self.big_o_text(),
    {
        let mut vars: Vec<String> = Vec::new();
        let mut i: usize = 0;
        while i < self.terms.len()
            invariant
                i <= self.terms.entries().len(),
                texts(vars@) == program_names(self.terms.entries().take(i as int)),
            decreases self.terms.entries().len() - i,
        {
            let e = self.terms.entry(i);
            let solver = starts_with(e.0.as_str(), "a_") || starts_with(e.0.as_str(), "c_");
            proof {
                reveal_strlit("a_");
                reveal_strlit("c_");
                assert("a_"@ =~= seq!['a', '_']);
                assert("c_"@ =~= seq!['c', '_']);
                assert(self.terms.entries().take(i + 1).drop_last() =~= self.terms.entries().take(i as int));
                assert(self.terms.entries().take(i + 1).last() == *e);
            }
            let ghost before = vars@;
            if !solver {
                vars.push(e.0.clone());
                assert(texts(vars@) =~= texts(before).push(e.0@));
            }
            assert(texts(vars@) =~= program_names(self.terms.entries().take(i + 1)));
            i = i + 1;
        }
        assert(self.terms.entries().take(self.terms.entries().len() as int) =~= self.terms.entries());
        if vars.len() == 0 {
            owned("O(1)")
        } else {
            let j = join(&vars, " + ");
            concat3("O(", j.as_str(), ")")
        }
    }
}


// ---------------------------------------------------------------------------
// Parsing
// ---------------------------------------------------------------------------

/// A coefficient map with its zero entries left out.
pub open spec fn canonical(m: Map<Seq<char>, int>) -> bool {
    forall|n: Seq<char>| m.contains_key(n) ==> #[trigger] m[n] != 0
}

/// `m` with `d` added to the coefficient of `n`, zero coefficients dropped.
pub open spec fn bump0(m: Map<Seq<char>, int>, n: Seq<char>, d: int) -> Map<Seq<char>, int> {
    if get0(m, n) + d == 0 {
        m.remove(n)
    } else {
        m.insert(n, get0(m, n) + d)
    }
}

/// A parsed term: its constant, and a name with its coefficient.
pub type TermValue = (int, Seq<char>, int);

/// A parse failure: `None` for an empty term, `Some(t)` for an unsupported term `t`.
pub type TermError = Option<Seq<char>>;

pub open spec fn i64_value(s: Seq<char>) -> Option<int> {
    parse_int_spec(s, true, i64::MIN as int, i64::MAX as int)
}

/// One term of a linear expression under a sign: `n`, `k*x`, `x*k` or `x`.
/// `None` when applying the sign leaves `i64`.
pub open spec fn term_spec(tok: Seq<char>, sign: int) -> Option<Result<TermValue, TermError>> {
    if tok.len() == 0 {
        Some(Err(None))
    } else {
        match i64_value(tok) {
            Some(n) => if in_i64(sign * n) {
                Some(Ok((sign * n, Seq::empty(), 0)))
            } else {
                None
            },
            None => match split_once_spec(tok, '*') {
                Some(parts) => match i64_value(parts.0) {
                    Some(n) => if in_i64(sign * n) {
                        Some(Ok((0, parts.1, sign * n)))
                    } else {
                        None
                    },
                    None => match i64_value(parts.1) {
                        Some(n) => if in_i64(sign * n) {
                            Some(Ok((0, parts.0, sign * n)))
                        } else {
                            None
                        },
                        None => Some(Err(Some(tok))),
                    },
                },
                None => Some(Ok((0, tok, sign))),
            },
        }
    }
}

/// Adds a parsed term to the sum so far; `None` where that leaves `i64`.
pub open spec fn accumulate(acc: (int, Map<Seq<char>, int>), t: TermValue) -> Option<(int, Map<Seq<char>, int>)> {
    if !in_i64(acc.0 + t.0) {
        None
    } else if t.2 == 0 {
        Some((acc.0 + t.0, acc.1))
    } else if in_i64(get0(acc.1, t.1) + t.2) {
        Some((acc.0 + t.0, bump0(acc.1, t.1, t.2)))
    } else {
        None
    }
}

pub type ParseState = Option<Result<(int, Map<Seq<char>, int>), TermError>>;

/// Ends the pending token: an empty token adds nothing.
pub open spec fn flush_spec(buf: Seq<char>, sign: int, acc: (int, Map<Seq<char>, int>)) -> ParseState {
    if buf.len() == 0 {
        Some(Ok(acc))
    } else {
        match term_spec(buf, sign) {
            None => None,
            Some(Err(e)) => Some(Err(e)),
            Some(Ok(t)) => match accumulate(acc, t) {
                None => None,
                Some(a) => Some(Ok(a)),
            },
        }
    }
}

/// Reads the rest of the text: `+` and `-` end a token and set the sign of the next.
pub open spec fn scan_spec(rest: Seq<char>, buf: Seq<char>, sign: int, acc: (int, Map<Seq<char>, int>)) -> ParseState
    decreases rest.len(),
{
    if rest.len() == 0 {
        flush_spec(buf, sign, acc)
    } else if rest[0] == '+' || rest[0] == '-' {
        match flush_spec(buf, sign, acc) {
            Some(Ok(a)) => scan_spec(
                rest.drop_first(),
                Seq::empty(),
                if rest[0] == '+' {
                    1
                } else {
                    -1
                },
                a,
            ),
            other => other,
        }
    } else {
        scan_spec(rest.drop_first(), buf.push(rest[0]), sign, acc)
    }
}

/// The text that is read: spaces removed, surrounding white space trimmed,
/// and an enclosing `O(...)` dropped.
pub open spec fn parse_body(src: Seq<char>) -> Seq<char> {
    let s = without_spaces(trim_spec(src));
    if is_prefix("O("@, s) && is_suffix(")"@, s) {
        s.subrange(2, s.len() - 1)
    } else {
        s
    }
}

/// What parsing `src` gives: `None` where a sum leaves `i64`.
pub open spec fn parse_spec(src: Seq<char>) -> ParseState {
    let s = without_spaces(trim_spec(src));
    if s.len() == 0 {
        Some(Ok((0, Map::empty())))
    } else if s == "O(1)"@ {
        Some(Ok((1, Map::empty())))
    } else {
        scan_spec(parse_body(src), Seq::empty(), 1, (0, Map::empty()))
    }
}

impl LinExpr {
    /// The coefficients of the non-zero terms.
    pub open spec fn canon(self) -> Map<Seq<char>, int> {
        Map::new(|n: Seq<char>| self.coeff_of(n) != 0, |n: Seq<char>| self.coeff_of(n))
    }
}

/// The error value that stands for a spec term error.
pub open spec fn error_matches(e: ParseLinExprError, t: TermError) -> bool {
    match e {
        ParseLinExprError::EmptyTerm => t is None,
        ParseLinExprError::UnsupportedTerm(s) => t == Some(s@),
    }
}

/// Whether a parse result agrees with a spec parse state that is not an overflow.
pub open spec fn parse_matches(r: Result<LinExpr, ParseLinExprError>, st: ParseState) -> bool {
    match (r, st) {
        (Ok(e), Some(Ok(v))) => e.wf() && e.normalized() && e.constant == v.0 && e.canon() == v.1,
        (Err(e), Some(Err(t))) => error_matches(e, t),
        _ => false,
    }
}

proof fn lemma_canon_after_add(out: LinExpr, t: LinExpr, r: LinExpr, name: Seq<char>, c: int)
    requires
        forall|n: Seq<char>| #[trigger] t.coeff_of(n) == if n == name { c } else { 0 },
        forall|n: Seq<char>| #[trigger] r.coeff_of(n) == out.coeff_of(n) + t.coeff_of(n),
        c != 0,
    ensures
        r.canon() == bump0(out.canon(), name, c),
{
    assert(get0(out.canon(), name) == out.coeff_of(name));
    assert(r.canon() =~= bump0(out.canon(), name, c)) by {
        assert forall|n: Seq<char>| #![auto] r.canon().contains_key(n) == bump0(out.canon(), name, c).contains_key(n) by {
            if n != name {
                assert(r.coeff_of(n) == out.coeff_of(n) + t.coeff_of(n));
            }
        }
    }
}

fn parse_term(tok: &str, sign: i64) -> (r: Result<LinExpr, ParseLinExprError>)
    requires
        term_spec(tok@, sign as int) is Some,
    ensures
        match (r, term_spec(tok@, sign as int)) {
            (Ok(e), Some(Ok(t))) => e.wf() && e.normalized() && e.constant == t.0 && forall|n: Seq<char>| #[trigger]
                e.coeff_of(n) == if n == t.1 && t.2 != 0 {
                    t.2
                } else {
                    0
                },
            (Err(e), Some(Err(t))) => error_matches(e, t),
            _ => false,
        },
{
    if char_len(tok) == 0 {
        return Err(ParseLinExprError::EmptyTerm);
    }
    if let Some(n) = parse_i64(tok) {
        return Ok(LinExpr::constant(sign * n));
    }
    if let Some((a, b)) = split_once_char(tok, '*') {
        if let Some(n) = parse_i64(a.as_str()) {
            return Ok(LinExpr::var(b.as_str(), sign * n));
        }
        if let Some(n) = parse_i64(b.as_str()) {
            return Ok(LinExpr::var(a.as_str(), sign * n));
        }
        return Err(ParseLinExprError::UnsupportedTerm(owned(tok)));
    }
    Ok(LinExpr::var(tok, sign))
}

/// Ends the pending token `buf` and adds its term to `out`.
fn flush(buf: &str, sign: i64, out: &LinExpr) -> (r: Option<Result<LinExpr, ParseLinExprError>>)
    requires
        out.wf(),
        out.normalized(),
    ensures
        match (r, flush_spec(buf@, sign as int, (out.constant as int, out.canon()))) {
            (None, None) => true,
            (Some(x), Some(y)) => parse_matches(x, Some(y)),
            _ => false,
        },
{
    if char_len(buf) == 0 {
        let c = out.clone_expr();
        assert(c.canon() =~= out.canon());
        return Some(Ok(c));
    }
    let ghost ts = term_spec(buf@, sign as int);
    let n = char_len(buf);
    if !term_fits(buf, sign) {
        return None;
    }
    match parse_term(buf, sign) {
        Err(e) => Some(Err(e)),
        Ok(t) => {
            let ghost tv = match ts {
                Some(Ok(t)) => t,
                _ => (0int, Seq::<char>::empty(), 0int),
            };
            match out.checked_add(&t) {
                None => {
                    proof {
                        if tv.2 != 0 && in_i64(out.constant + tv.0) {
                            assert(get0(out.canon(), tv.1) == out.coeff_of(tv.1));
                            if in_i64(get0(out.canon(), tv.1) + tv.2) {
                                assert forall|m: Seq<char>| in_i64(#[trigger] out.coeff_of(m) + t.coeff_of(m)) by {
                                    if m != tv.1 {
                                        assert(t.coeff_of(m) == 0);
                                        if out.terms@.contains_key(seq![m]) {
                                            assert(out.terms@[seq![m]] as int == out.coeff_of(m));
                                        }
                                    }
                                }
                            }
                        }
                        if tv.2 == 0 && in_i64(out.constant + tv.0) {
                            assert forall|m: Seq<char>| in_i64(#[trigger] out.coeff_of(m) + t.coeff_of(m)) by {
                                assert(t.coeff_of(m) == 0);
                                if out.terms@.contains_key(seq![m]) {
                                    assert(out.terms@[seq![m]] as int == out.coeff_of(m));
                                }
                            }
                        }
                    }
                    None
                },
                Some(sum) => {
                    proof {
                        assert(in_i64(out.coeff_of(tv.1) + t.coeff_of(tv.1)));
                        assert(get0(out.canon(), tv.1) == out.coeff_of(tv.1));
                        if tv.2 != 0 {
                            lemma_canon_after_add(*out, t, sum, tv.1, tv.2);
                        } else {
                            assert(sum.canon() =~= out.canon()) by {
                                assert forall|m: Seq<char>| #![auto] sum.coeff_of(m) == out.coeff_of(m) by {
                                    assert(t.coeff_of(m) == 0);
                                }
                            }
                        }
                    }
                    Some(Ok(sum))
                },
            }
        },
    }
}

/// Whether applying `sign` to the term `buf` stays within `i64`.
fn term_fits(buf: &str, sign: i64) -> (r: bool)
    requires
        buf@.len() > 0,
    ensures
        r == term_spec(buf@, sign as int) is Some,
{
    if let Some(n) = parse_i64(buf) {
        return sign.checked_mul(n).is_some();
    }
    if let Some((a, b)) = split_once_char(buf, '*') {
        if let Some(n) = parse_i64(a.as_str()) {
            return sign.checked_mul(n).is_some();
        }
        if let Some(n) = parse_i64(b.as_str()) {
            return sign.checked_mul(n).is_some();
        }
    }
    true
}

impl LinExpr {
    /// A copy of the expression.
    pub fn clone_expr(&self) -> (r: Self)
        requires
            self.wf(),
        ensures
            r.wf(),
            r.constant == self.constant,
            crate::keymap::same_entries(r.terms.entries(), self.terms.entries()),
            r.terms@ == self.terms@,
            self.normalized() ==> r.normalized(),
    {
        let r = LinExpr { constant: self.constant, terms: self.terms.duplicate() };
        assert(self.normalized() ==> r.normalized()) by {
            if self.normalized() {
                assert forall|i: int| 0 <= i < r.terms.entries().len() implies #[trigger] r.terms.entries()[i].1 != 0 by {
                    assert(r.terms.entries()[i].0.key_view() == self.terms.entries()[i].0.key_view());
                    assert(self.terms.entries()[i].1 != 0);
                }
            }
        }
        r
    }
}

/// Parsing, or `None` where a sum of terms would leave `i64`.
pub fn parse_lin_expr_checked(src: &str) -> (r: Option<Result<LinExpr, ParseLinExprError>>)
    ensures
        match (r, parse_spec(src@)) {
            (None, None) => true,
            (Some(x), Some(y)) => parse_matches(x, Some(y)),
            _ => false,
        },
{
    let t = trim(src);
    let s = remove_spaces(t.as_str());
    let n = char_len(s.as_str());
    if n == 0 {
        let z = LinExpr::zero();
        assert(z.canon() =~= Map::<Seq<char>, int>::empty());
        return Some(Ok(z));
    }
    if text_eq(s.as_str(), "O(1)") {
        let o = LinExpr::one();
        assert(o.canon() =~= Map::<Seq<char>, int>::empty());
        return Some(Ok(o));
    }
    let wrapped = starts_with(s.as_str(), "O(") && ends_with(s.as_str(), ")");
    let body = if wrapped {
        proof {
            reveal_strlit("O(");
            reveal_strlit(")");
            assert(s@.take(2) == "O("@);
            assert(s@.take(2)[1] == s@[1]);
            assert(s@[1] == '(');
            if n == 2 {
                assert(s@.skip(1) == ")"@);
                assert(s@.skip(1)[0] == s@[1]);
                assert(s@[1] == ')');
            }
        }
        owned(s.substring_char(2, n - 1))
    } else {
        s
    };
    assert(body@ == parse_body(src@));
    assert(parse_spec(src@) == scan_spec(body@, Seq::empty(), 1, (0, Map::empty())));
    let m = char_len(body.as_str());
    let mut out = LinExpr::zero();
    let mut buf = String::new();
    let mut sign: i64 = 1;
    let mut i: usize = 0;
    assert(out.canon() =~= Map::<Seq<char>, int>::empty());
    assert(body@.skip(0) =~= body@);
    assert(buf@ =~= Seq::<char>::empty());
    while i < m
        invariant
            m == body@.len(),
            i <= m,
            parse_spec(src@) == scan_spec(body@, Seq::empty(), 1, (0, Map::empty())),
            out.wf(),
            out.normalized(),
            sign == 1 || sign == -1,
            scan_spec(body@.skip(i as int), buf@, sign as int, (out.constant as int, out.canon())) == scan_spec(
                body@,
                Seq::empty(),
                1,
                (0, Map::empty()),
            ),
        decreases m - i,
    {
        let ch = char_at(body.as_str(), i);
        let ghost rest = body@.skip(i as int);
        assert(rest[0] == ch);
        assert(rest.drop_first() =~= body@.skip(i + 1));
        if ch == '+' || ch == '-' {
            let ghost acc = (out.constant as int, out.canon());
            assert(scan_spec(rest, buf@, sign as int, acc) == match flush_spec(buf@, sign as int, acc) {
                Some(Ok(a)) => scan_spec(
                    rest.drop_first(),
                    Seq::empty(),
                    if rest[0] == '+' {
                        1
                    } else {
                        -1
                    },
                    a,
                ),
                other => other,
            });
            match flush(buf.as_str(), sign, &out) {
                None => {
                    return None;
                },
                Some(Err(e)) => {
                    return Some(Err(e));
                },
                Some(Ok(o)) => {
                    out = o;
                    buf = String::new();
                    sign = if ch == '+' {
                        1
                    } else {
                        -1
                    };
                    assert(buf@ =~= Seq::<char>::empty());
                },
            }
        } else {
            push_char(&mut buf, ch);
        }
        i = i + 1;
    }
    assert(body@.skip(m as int).len() == 0);
    flush(buf.as_str(), sign, &out)
}

/// Parses a linear expression such as `1 + 2*B - a` or `O(n)`.
pub fn parse_lin_expr(src: &str) -> (r: Result<LinExpr, ParseLinExprError>)
    requires
        parse_spec(src@) is Some,
    ensures
        parse_matches(r, parse_spec(src@)),
{
    match parse_lin_expr_checked(src) {
        Some(r) => r,
        None => {
            assert(false);
            Err(ParseLinExprError::EmptyTerm)
        },
    }
}

} // verus!
