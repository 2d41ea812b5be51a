//! Asymptotic solutions of cost recurrences `T(n) = a·T(n/b) + f(n)`
//! (Master theorem) and `T(n) = a·T(n−c) + f(n)` (linear recurrence).
use vstd::prelude::*;
use vstd::arithmetic::power::{lemma_pow_increases, lemma_pow_increases_converse, lemma_pow_strictly_increases, pow};
use crate::text::{concat2, concat3, nat_text, owned, push_text, u64_text};

verus! {

/// Closed-form complexity classes, ordered by growth.
#[derive(Debug, Clone, Copy, PartialEq, Eq, Structural)]
pub enum BoundClass {
    Constant,
    Logarithmic,
    Linear,
    NLogN,
    /// `O(n^k)` for `k >= 2`.
    Polynomial(u32),
}

/// The growth rank of a class: constant, log, linear, n log n, then `2k + 2` for `n^k`.
pub open spec fn rank_of(b: BoundClass) -> int {
    match b {
        BoundClass::Constant => 0,
        BoundClass::Logarithmic => 1,
        BoundClass::Linear => 2,
        BoundClass::NLogN => 3,
        BoundClass::Polynomial(k) => 2 * k + 2,
    }
}

/// The polynomial part of a class: `log n` counts as `n^0`, `n log n` as `n^1`.
pub open spec fn poly_exp_of(b: BoundClass) -> int {
    match b {
        BoundClass::Constant | BoundClass::Logarithmic => 0,
        BoundClass::Linear | BoundClass::NLogN => 1,
        BoundClass::Polynomial(k) => k as int,
    }
}

/// How a class is written, e.g. `O(n log n)` or `O(n^3)`.
pub open spec fn bound_text(b: BoundClass) -> Seq<char> {
    match b {
        BoundClass::Constant => "O(1)"@,
        BoundClass::Logarithmic => "O(log n)"@,
        BoundClass::Linear => "O(n)"@,
        BoundClass::NLogN => "O(n log n)"@,
        BoundClass::Polynomial(k) => "O(n^"@ + nat_text(k as nat) + ")"@,
    }
}

impl BoundClass {
    /// Whether the class carries a factor `log n`.
    pub fn has_log_factor(self) -> (r: bool)
        ensures
            r == has_log_factor(self),
    {
        match self {
            BoundClass::Logarithmic | BoundClass::NLogN => true,
            _ => false,
        }
    }

    pub fn poly_exp(self) -> (r: u32)
        ensures
            r == poly_exp_of(self),
    {
        match self {
            BoundClass::Constant | BoundClass::Logarithmic => 0,
            BoundClass::Linear | BoundClass::NLogN => 1,
            BoundClass::Polynomial(k) => k,
        }
    }

    /// The growth rank; classes compare by it.
    pub fn rank(self) -> (r: u64)
        ensures
            r == rank_of(self),
    {
        match self {
            BoundClass::Constant => 0,
            BoundClass::Logarithmic => 1,
            BoundClass::Linear => 2,
            BoundClass::NLogN => 3,
            BoundClass::Polynomial(k) => 2 * (k as u64) + 2,
        }
    }

    /// `self` grows strictly faster than `other`.
    pub fn dominates(self, other: BoundClass) -> (r: bool)
        ensures
            r == (rank_of(self) > rank_of(other)),
    {
        self.rank() > other.rank()
    }

    pub fn to_string(&self) -> (r: String)
        ensures
            r@ == bound_text(*self),
    {
        match self {
            BoundClass::Constant => owned("O(1)"),
            BoundClass::Logarithmic => owned("O(log n)"),
            BoundClass::Linear => owned("O(n)"),
            BoundClass::NLogN => owned("O(n log n)"),
            BoundClass::Polynomial(k) => {
                let t = u64_text(*k as u64);
                concat3("O(n^", t.as_str(), ")")
            },
        }
    }
}

/// Shape of the recursive calls.
#[derive(Debug, Clone, Copy, PartialEq, Eq, Structural)]
pub enum BranchShape {
    /// `T(n/b)`, `b >= 2`.
    Divide(u32),
    /// `T(n − c)`, `c >= 1`.
    Decrement(u32),
}

/// `T(n) = branches · T(shape) + non_recursive_cost`.
#[derive(Debug, Clone, Copy, PartialEq, Eq, Structural)]
pub struct Recurrence {
    pub branches: u32,
    pub shape: BranchShape,
    pub non_recursive_cost: BoundClass,
}

/// The rule that solved a recurrence.
#[derive(Debug, Clone, Copy, PartialEq, Eq, Structural)]
pub enum SolveRule {
    /// `f` grows slower than `n^log_b(a)`.
    MasterCase1 { a: u32, b: u32, log_b_a: u32 },
    /// `f` matches `n^log_b(a)`: one more factor `log n`.
    MasterCase2 { a: u32, b: u32, log_b_a: u32 },
    /// `f` dominates: `T(n) = Θ(f(n))`.
    MasterCase3 { a: u32, b: u32, log_b_a: u32 },
    /// `a = 1`: one more factor `n`.
    LinearRecurrence { c: u32 },
    /// `a >= 2`: exponential, outside the classes.
    LinearRecurrenceExponential { a: u32, c: u32 },
}

/// A solution: the bound and the rule that gave it.
#[derive(Debug, Clone, Copy, PartialEq, Eq, Structural)]
pub struct Solution {
    pub bound: BoundClass,
    pub rule: SolveRule,
}

/// Why a recurrence has no solution among the classes.
#[derive(Debug, Clone, Copy, PartialEq, Eq, Structural)]
pub enum SolveError {
    /// `a` is not an integer power of `b`.
    NonIntegerExponent,
    /// Exponential or otherwise outside the classes.
    OutOfClass,
    /// `b < 2`, `c = 0` or no branches.
    Malformed,
}

/// `log_b(a)` when `a` is an exact power of `b >= 2`.
pub open spec fn integer_log_spec(a: int, b: int) -> Option<int> {
    if a <= 0 || b < 2 {
        None
    } else if exists|k: nat| pow(b, k) == a {
        Some((choose|k: nat| pow(b, k) == a) as int)
    } else {
        None
    }
}

/// The class carries a factor `log n` beside its power of `n`.
pub open spec fn has_log_factor(b: BoundClass) -> bool {
    b == BoundClass::Logarithmic || b == BoundClass::NLogN
}

/// The class `n^k`: constant, linear or polynomial.
pub open spec fn bound_for_exponent_spec(k: int) -> BoundClass {
    if k == 0 {
        BoundClass::Constant
    } else if k == 1 {
        BoundClass::Linear
    } else {
        BoundClass::Polynomial(k as u32)
    }
}

/// The solution of a recurrence, by the Master theorem for `n/b` (case 2
/// only where the work is a plain power of `n`: with a `log n` factor the
/// solution leaves the classes) and by
/// unrolling for `n − c`.
pub open spec fn solve_spec(r: Recurrence) -> Result<Solution, SolveError> {
    if r.branches == 0 {
        Err(SolveError::Malformed)
    } else {
        match r.shape {
            BranchShape::Divide(b) => if b < 2 {
                Err(SolveError::Malformed)
            } else {
                match integer_log_spec(r.branches as int, b as int) {
                    None => Err(SolveError::NonIntegerExponent),
                    Some(l) => {
                        let f = poly_exp_of(r.non_recursive_cost);
                        let (a, bb, lg) = (r.branches, b, l as u32);
                        if f < l {
                            Ok(Solution { bound: bound_for_exponent_spec(l), rule: SolveRule::MasterCase1 { a, b: bb, log_b_a: lg } })
                        } else if f == l {
                            if has_log_factor(r.non_recursive_cost) {
                                Err(SolveError::OutOfClass)
                            } else if l == 0 {
                                Ok(Solution { bound: BoundClass::Logarithmic, rule: SolveRule::MasterCase2 { a, b: bb, log_b_a: lg } })
                            } else if l == 1 {
                                Ok(Solution { bound: BoundClass::NLogN, rule: SolveRule::MasterCase2 { a, b: bb, log_b_a: lg } })
                            } else {
                                Err(SolveError::OutOfClass)
                            }
                        } else {
                            Ok(Solution { bound: r.non_recursive_cost, rule: SolveRule::MasterCase3 { a, b: bb, log_b_a: lg } })
                        }
                    },
                }
            },
            BranchShape::Decrement(c) => if c == 0 {
                Err(SolveError::Malformed)
            } else if r.branches >= 2 {
                Err(SolveError::OutOfClass)
            } else {
                match r.non_recursive_cost {
                    BoundClass::Constant => Ok(Solution { bound: BoundClass::Linear, rule: SolveRule::LinearRecurrence { c } }),
                    BoundClass::Logarithmic => Ok(Solution { bound: BoundClass::NLogN, rule: SolveRule::LinearRecurrence { c } }),
                    BoundClass::Linear => Ok(Solution { bound: BoundClass::Polynomial(2), rule: SolveRule::LinearRecurrence { c } }),
                    BoundClass::NLogN => Err(SolveError::OutOfClass),
                    BoundClass::Polynomial(k) => Ok(Solution { bound: BoundClass::Polynomial((k + 1) as u32), rule: SolveRule::LinearRecurrence { c } }),
                }
            },
        }
    }
}

/// Unrolling `n − c` with `f = n^k` would need `n^(k+1)` beyond `u32`.
pub open spec fn solve_overflows(r: Recurrence) -> bool {
    &&& r.branches == 1
    &&& r.shape matches BranchShape::Decrement(c) && c != 0
    &&& r.non_recursive_cost == BoundClass::Polynomial(u32::MAX)
}

/// A class as documented: polynomials have an exponent of at least 2.
pub open spec fn valid_class(b: BoundClass) -> bool {
    match b {
        BoundClass::Polynomial(k) => k >= 2,
        _ => true,
    }
}

proof fn lemma_pow_at_least_pow2(b: int, k: nat)
    requires
        b >= 2,
    ensures
        pow(b, k) >= pow(2, k),
        pow(2, k) >= 1,
    decreases k,
{
    reveal_with_fuel(pow, 2);
    if k > 0 {
        lemma_pow_at_least_pow2(b, (k - 1) as nat);
        let p = pow(b, (k - 1) as nat);
        let q = pow(2, (k - 1) as nat);
        assert(b * p >= 2 * q) by (nonlinear_arith)
            requires
                b >= 2,
                p >= q,
                q >= 1,
        ;
    }
}

/// The exponent `log_b(a)` of a `u32` is at most 32.
proof fn lemma_log_small(a: int, b: int)
    requires
        0 < a <= u32::MAX,
        b >= 2,
    ensures
        integer_log_spec(a, b) matches Some(l) ==> 0 <= l <= 32,
{
    if let Some(l) = integer_log_spec(a, b) {
        let k = choose|k: nat| pow(b, k) == a;
        if k > 32 {
            lemma_pow_increases(b as nat, 33, k);
            lemma_pow_at_least_pow2(b, 33);
            assert(pow(2, 33) == 0x2_0000_0000) by {
                reveal_with_fuel(pow, 34);
            }
        }
    }
}

/// A solved recurrence never costs less than its non-recursive part, and
/// unrolling a decrement costs one factor `n` more than that part.
pub proof fn lemma_solution_dominates_cost(r: Recurrence)
    requires
        valid_class(r.non_recursive_cost),
        !solve_overflows(r),
    ensures
        solve_spec(r) matches Ok(s) ==> rank_of(s.bound) >= rank_of(r.non_recursive_cost),
        r.shape is Decrement ==> (solve_spec(r) matches Ok(s) ==> poly_exp_of(s.bound) == poly_exp_of(
            r.non_recursive_cost,
        ) + 1),
{
    if let BranchShape::Divide(b) = r.shape {
        if r.branches != 0 && b >= 2 {
            lemma_log_small(r.branches as int, b as int);
        }
    }
}

/// The growth `n^p · (log n)^q` of a class, as `(p, q)`.
pub open spec fn growth(b: BoundClass) -> (int, int) {
    match b {
        BoundClass::Constant => (0, 0),
        BoundClass::Logarithmic => (0, 1),
        BoundClass::Linear => (1, 0),
        BoundClass::NLogN => (1, 1),
        BoundClass::Polynomial(k) => (k as int, 0),
    }
}

/// Some class, as documented, grows as `n^p · (log n)^q`.
pub open spec fn named_growth(p: int, q: int) -> bool {
    exists|c: BoundClass| valid_class(c) && #[trigger] growth(c) == (p, q)
}

/// Only `n^0·log n` and `n^1·log n` are classes among the powers of `n`
/// times one factor `log n`.
proof fn lemma_named_log_growth(p: int)
    requires
        p >= 0,
    ensures
        named_growth(p, 1) <==> p <= 1,
{
    if p == 0 {
        assert(valid_class(BoundClass::Logarithmic) && growth(BoundClass::Logarithmic) == (0int, 1int));
    } else if p == 1 {
        assert(valid_class(BoundClass::NLogN) && growth(BoundClass::NLogN) == (1int, 1int));
    }
}

/// `log_b(a)` is the exponent `l` with `b^l = a`.
proof fn lemma_integer_log_is(a: int, b: int, l: nat)
    requires
        b >= 2,
        a > 0,
        pow(b, l) == a,
    ensures
        integer_log_spec(a, b) == Some(l as int),
{
    assert(exists|k: nat| pow(b, k) == a);
    let k = choose|k: nat| pow(b, k) == a;
    if k < l {
        lemma_pow_strictly_increases(b as nat, k, l);
    } else if l < k {
        lemma_pow_strictly_increases(b as nat, l, k);
    }
}

/// The Master theorem for `T(n) = a·T(n/b) + f(n)` with `a = b^l` and `b >= 2`:
/// where `f` grows polynomially slower than `n^l` the solution grows as
/// `n^l`; where `f` grows as `n^l` the solution grows as `n^l·log n`, and
/// is refused when no class grows so; where `f` grows as `n^l·log n` the
/// solution `n^l·(log n)^2` is refused; and where `f` grows polynomially
/// faster than `n^l` the solution is `f` itself.
pub proof fn lemma_master_theorem(r: Recurrence, b: u32, l: nat)
    requires
        r.branches > 0,
        r.shape == BranchShape::Divide(b),
        b >= 2,
        pow(b as int, l) == r.branches as int,
        valid_class(r.non_recursive_cost),
    ensures
        growth(r.non_recursive_cost).0 < l ==> (solve_spec(r) matches Ok(s) && growth(s.bound) == (l as int, 0int)
            && s.rule is MasterCase1),
        growth(r.non_recursive_cost) == (l as int, 0int) ==> if named_growth(l as int, 1) {
            (solve_spec(r) matches Ok(s) && growth(s.bound) == (l as int, 1int) && s.rule is MasterCase2)
        } else {
            solve_spec(r) == Err::<Solution, SolveError>(SolveError::OutOfClass)
        },
        growth(r.non_recursive_cost) == (l as int, 1int) ==> solve_spec(r) == Err::<Solution, SolveError>(
            SolveError::OutOfClass,
        ),
        growth(r.non_recursive_cost).0 > l ==> (solve_spec(r) matches Ok(s) && s.bound == r.non_recursive_cost
            && s.rule is MasterCase3),
{
    lemma_integer_log_is(r.branches as int, b as int, l);
    lemma_log_small(r.branches as int, b as int);
    lemma_named_log_growth(l as int);
}

/// Unrolling `T(n) = a·T(n − c) + f(n)` with `c >= 1`: with one branch the
/// solution grows as `n·f(n)` (one more power of `n`, the same factor
/// `log n`), and is refused when no class grows so; with two or more
/// branches it is exponential, outside the classes.
pub proof fn lemma_unrolling(r: Recurrence, c: u32)
    requires
        r.branches > 0,
        r.shape == BranchShape::Decrement(c),
        c >= 1,
        valid_class(r.non_recursive_cost),
        !solve_overflows(r),
    ensures
        r.branches >= 2 ==> solve_spec(r) == Err::<Solution, SolveError>(SolveError::OutOfClass),
        r.branches == 1 ==> if named_growth(growth(r.non_recursive_cost).0 + 1, growth(r.non_recursive_cost).1) {
            (solve_spec(r) matches Ok(s) && growth(s.bound) == (
                growth(r.non_recursive_cost).0 + 1,
                growth(r.non_recursive_cost).1,
            ) && s.rule == SolveRule::LinearRecurrence { c })
        } else {
            solve_spec(r) == Err::<Solution, SolveError>(SolveError::OutOfClass)
        },
{
    let g = growth(r.non_recursive_cost);
    lemma_named_log_growth(g.0 + 1);
    if g.1 == 0 && r.branches == 1 {
        if g.0 + 1 == 1 {
            assert(valid_class(BoundClass::Linear) && growth(BoundClass::Linear) == (1int, 0int));
        } else if g.0 + 1 == 2 {
            assert(valid_class(BoundClass::Polynomial(2)) && growth(BoundClass::Polynomial(2)) == (2int, 0int));
        } else {
            let k = (g.0 + 1) as u32;
            assert(valid_class(BoundClass::Polynomial(k)) && growth(BoundClass::Polynomial(k)) == (g.0 + 1, 0int));
        }
    }
}

/// Case 2 of the Master theorem adds one factor `log n` to the work `f`:
/// whenever the solver answers by it, the bound grows as `f` times `log n`,
/// strictly faster than `f`.
pub proof fn lemma_master_case2_adds_log(r: Recurrence)
    requires
        valid_class(r.non_recursive_cost),
    ensures
        solve_spec(r) matches Ok(s) ==> (s.rule is MasterCase2 ==> growth(s.bound) == (
            growth(r.non_recursive_cost).0,
            growth(r.non_recursive_cost).1 + 1,
        ) && rank_of(s.bound) > rank_of(r.non_recursive_cost)),
{
}

/// `log_b(a)` when `a` is an exact power of `b`; `None` otherwise.
pub fn integer_log(a: u32, b: u32) -> (r: Option<u32>)
    ensures
        match r {
            Some(k) => a > 0 && b >= 2 && pow(b as int, k as nat) == a,
            None => integer_log_spec(a as int, b as int) is None,
        },
        r matches Some(k) ==> integer_log_spec(a as int, b as int) == Some(k as int),
{
    if a == 0 || b < 2 {
        return None;
    }
    let mut k: u32 = 0;
    let mut acc: u64 = 1;
    let b64 = b as u64;
    assert(pow(b as int, 0) == 1) by {
        reveal_with_fuel(pow, 1);
    }
    assert(pow(2, 0) == 1) by {
        reveal_with_fuel(pow, 1);
    }
    while acc < a as u64
        invariant
            b >= 2,
            a > 0,
            b64 == b,
            acc == pow(b as int, k as nat),
            k <= 32,
            k > 0 ==> pow(b as int, (k - 1) as nat) < a,
            acc >= pow(2, k as nat),
        decreases 33 - k,
    {
        assert(acc * b64 <= (u32::MAX as u64) * (u32::MAX as u64)) by (nonlinear_arith)
            requires
                acc < a,
                a <= u32::MAX,
                b64 <= u32::MAX,
        ;
        assert(pow(b as int, (k + 1) as nat) == b * pow(b as int, k as nat)) by {
            reveal_with_fuel(pow, 2);
        }
        assert(pow(2, (k + 1) as nat) == 2 * pow(2, k as nat)) by {
            reveal_with_fuel(pow, 2);
        }
        let ghost old_acc = acc;
        acc = acc * b64;
        assert(acc >= 2 * old_acc) by (nonlinear_arith)
            requires
                acc == old_acc * b64,
                b64 >= 2,
        ;
        if k >= 32 {
            assert(pow(2, 32) == 0x1_0000_0000) by {
                reveal_with_fuel(pow, 33);
            }
            assert(false);
        }
        k = k + 1;
    }
    if acc == a as u64 {
        proof {
            if integer_log_spec(a as int, b as int) != Some(k as int) {
                let kk = choose|kk: nat| pow(b as int, kk) == a;
                lemma_pow_increases_converse(b as nat, kk, k as nat);
                lemma_pow_increases_converse(b as nat, k as nat, kk);
            }
        }
        Some(k)
    } else {
        proof {
            if exists|kk: nat| pow(b as int, kk) == a {
                let kk = choose|kk: nat| pow(b as int, kk) == a;
                lemma_pow_increases_converse(b as nat, kk, k as nat);
                if k > 0 {
                    lemma_pow_increases_converse(b as nat, (k - 1) as nat, kk);
                } else {
                    assert(kk == 0);
                }
            }
        }
        None
    }
}

/// `n^k` as a class.
pub fn bound_for_exponent(k: u32) -> (r: Result<BoundClass, SolveError>)
    ensures
        r == Ok::<BoundClass, SolveError>(bound_for_exponent_spec(k as int)),
{
    Ok(match k {
        0 => BoundClass::Constant,
        1 => BoundClass::Linear,
        k => BoundClass::Polynomial(k),
    })
}

impl Recurrence {
    /// Solves the recurrence; see `solve_spec` for the rules.
    pub fn solve(&self) -> (r: Result<Solution, SolveError>)
        requires
            !solve_overflows(*self),
        ensures
            r == solve_spec(*self),
    {
        if self.branches == 0 {
            return Err(SolveError::Malformed);
        }
        match self.shape {
            BranchShape::Divide(b) => self.solve_master(b),
            BranchShape::Decrement(c) => self.solve_linear(c),
        }
    }

    fn solve_master(&self, b: u32) -> (r: Result<Solution, SolveError>)
        requires
            self.branches != 0,
            self.shape == BranchShape::Divide(b),
        ensures
            r == solve_spec(*self),
    {
        if b < 2 {
            return Err(SolveError::Malformed);
        }
        let a = self.branches;
        let log_b_a = match integer_log(a, b) {
            Some(l) => l,
            None => return Err(SolveError::NonIntegerExponent),
        };
        let f_exp = self.non_recursive_cost.poly_exp();
        if f_exp < log_b_a {
            let bound = match bound_for_exponent(log_b_a) {
                Ok(x) => x,
                Err(e) => return Err(e),
            };
            Ok(Solution { bound, rule: SolveRule::MasterCase1 { a, b, log_b_a } })
        } else if f_exp == log_b_a {
            if self.non_recursive_cost.has_log_factor() {
                return Err(SolveError::OutOfClass);
            }
            let bound = match log_b_a {
                0 => BoundClass::Logarithmic,
                1 => BoundClass::NLogN,
                _ => return Err(SolveError::OutOfClass),
            };
            Ok(Solution { bound, rule: SolveRule::MasterCase2 { a, b, log_b_a } })
        } else {
            Ok(Solution { bound: self.non_recursive_cost, rule: SolveRule::MasterCase3 { a, b, log_b_a } })
        }
    }

    fn solve_linear(&self, c: u32) -> (r: Result<Solution, SolveError>)
        requires
            self.branches != 0,
            self.shape == BranchShape::Decrement(c),
            !solve_overflows(*self),
        ensures
            r == solve_spec(*self),
    {
        if c == 0 {
            return Err(SolveError::Malformed);
        }
        let a = self.branches;
        if a >= 2 {
            return Err(SolveError::OutOfClass);
        }
        let bound = match self.non_recursive_cost {
            BoundClass::Constant => BoundClass::Linear,
            BoundClass::Logarithmic => BoundClass::NLogN,
            BoundClass::Linear => BoundClass::Polynomial(2),
            BoundClass::NLogN => return Err(SolveError::OutOfClass),
            BoundClass::Polynomial(k) => BoundClass::Polynomial(k + 1),
        };
        Ok(Solution { bound, rule: SolveRule::LinearRecurrence { c } })
    }

    /// How the equation is written, e.g. `T(n) = 2*T(n/2) + O(n)`.
    pub open spec fn equation_text(self) -> Seq<char> {
        "T(n) = "@ + nat_text(self.branches as nat) + match self.shape {
            BranchShape::Divide(b) => "*T(n/"@ + nat_text(b as nat),
            BranchShape::Decrement(c) => "*T(n-"@ + nat_text(c as nat),
        } + ") + "@ + bound_text(self.non_recursive_cost)
    }

    /// The equation, e.g. `T(n) = 2*T(n/2) + O(n)`.
    pub fn equation(&self) -> (r: String)
        ensures
            r@ == self.equation_text(),
    {
        let mut out = owned("T(n) = ");
        push_text(&mut out, u64_text(self.branches as u64).as_str());
        match self.shape {
            BranchShape::Divide(b) => {
                push_text(&mut out, "*T(n/");
                push_text(&mut out, u64_text(b as u64).as_str());
            },
            BranchShape::Decrement(c) => {
                push_text(&mut out, "*T(n-");
                push_text(&mut out, u64_text(c as u64).as_str());
            },
        }
        push_text(&mut out, ") + ");
        push_text(&mut out, self.non_recursive_cost.to_string().as_str());
        out
    }
}

impl SolveRule {
    /// How the rule is cited, e.g. `Master theorem case 2 (a=2, b=2, log_b(a)=1): f(n) = Θ(n^1)`.
    pub open spec fn text(self) -> Seq<char> {
        match self {
            SolveRule::MasterCase1 { a, b, log_b_a } => "Master theorem case 1 (a="@ + nat_text(a as nat) + ", b="@
                + nat_text(b as nat) + ", log_b(a)="@ + nat_text(log_b_a as nat) + "): f(n) ≺ n^"@ + nat_text(log_b_a as nat),
            SolveRule::MasterCase2 { a, b, log_b_a } => "Master theorem case 2 (a="@ + nat_text(a as nat) + ", b="@
                + nat_text(b as nat) + ", log_b(a)="@ + nat_text(log_b_a as nat) + "): f(n) = Θ(n^"@ + nat_text(log_b_a as nat)
                + ")"@,
            SolveRule::MasterCase3 { a, b, log_b_a } => "Master theorem case 3 (a="@ + nat_text(a as nat) + ", b="@
                + nat_text(b as nat) + ", log_b(a)="@ + nat_text(log_b_a as nat) + "): f(n) ≻ n^"@ + nat_text(log_b_a as nat),
            SolveRule::LinearRecurrence { c } => "linear recurrence T(n) = T(n−"@ + nat_text(c as nat) + ") + f(n) ⇒ O(n · f(n))"@,
            SolveRule::LinearRecurrenceExponential { a, c } => "linear recurrence T(n) = "@ + nat_text(a as nat) + "·T(n−"@
                + nat_text(c as nat) + ") + f(n): exponential growth, out of supported classes"@,
        }
    }

    pub fn to_string(&self) -> (r: String)
        ensures
            r@ == self.text(),
    {
        proof {
            reveal_strlit("");
        }
        match *self {
            SolveRule::MasterCase1 { a, b, log_b_a } => master_text("Master theorem case 1 (a=", a, b, log_b_a, "): f(n) ≺ n^", ""),
            SolveRule::MasterCase2 { a, b, log_b_a } => master_text("Master theorem case 2 (a=", a, b, log_b_a, "): f(n) = Θ(n^", ")"),
            SolveRule::MasterCase3 { a, b, log_b_a } => master_text("Master theorem case 3 (a=", a, b, log_b_a, "): f(n) ≻ n^", ""),
            SolveRule::LinearRecurrence { c } => {
                let mut out = owned("linear recurrence T(n) = T(n−");
                push_text(&mut out, u64_text(c as u64).as_str());
                push_text(&mut out, ") + f(n) ⇒ O(n · f(n))");
                out
            },
            SolveRule::LinearRecurrenceExponential { a, c } => {
                let mut out = owned("linear recurrence T(n) = ");
                push_text(&mut out, u64_text(a as u64).as_str());
                push_text(&mut out, "·T(n−");
                push_text(&mut out, u64_text(c as u64).as_str());
                push_text(&mut out, ") + f(n): exponential growth, out of supported classes");
                out
            },
        }
    }
}

fn master_text(head: &str, a: u32, b: u32, l: u32, mid: &str, tail: &str) -> (r: String)
    ensures
        r@ == head@ + nat_text(a as nat) + ", b="@ + nat_text(b as nat) + ", log_b(a)="@ + nat_text(l as nat) + mid@
            + nat_text(l as nat) + tail@,
{
    let mut out = owned(head);
    push_text(&mut out, u64_text(a as u64).as_str());
    push_text(&mut out, ", b=");
    push_text(&mut out, u64_text(b as u64).as_str());
    push_text(&mut out, ", log_b(a)=");
    push_text(&mut out, u64_text(l as u64).as_str());
    push_text(&mut out, mid);
    push_text(&mut out, u64_text(l as u64).as_str());
    push_text(&mut out, tail);
    out
}

} // verus!
