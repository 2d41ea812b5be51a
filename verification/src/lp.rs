//! Integer linear problems over named variables, and the solver interface.
use vstd::prelude::*;
use crate::expr::{in_i64, LinExpr};
use crate::keymap::KeyMap;
use crate::text::{concat2, owned};

verus! {

#[derive(Debug, Clone, Copy, PartialEq, Eq, Structural)]
pub enum VarKind {
    Continuous,
    Integer,
}

/// Optional lower and upper bounds of a variable.
#[derive(Debug, Clone, Copy, PartialEq, Eq, Structural)]
pub struct Bound {
    pub lower: Option<i64>,
    pub upper: Option<i64>,
}

impl Bound {
    /// `x >= 0`, no upper bound.
    pub fn non_negative() -> (r: Self)
        ensures
            r.lower == Some(0i64),
            r.upper is None,
    {
        Bound { lower: Some(0), upper: None }
    }
}

#[derive(Debug, Clone, PartialEq, Eq)]
pub struct VariableDecl {
    pub name: String,
    pub kind: VarKind,
    pub bound: Bound,
}

#[derive(Debug, Clone, Copy, PartialEq, Eq, Structural)]
pub enum ConstraintOp {
    Le,
    Eq,
    Ge,
}

/// `lhs op rhs`, named.
#[derive(Debug, Clone, PartialEq, Eq)]
pub struct LinearConstraint {
    pub name: String,
    pub lhs: LinExpr,
    pub op: ConstraintOp,
    pub rhs: LinExpr,
}

/// Variables, constraints and an objective to minimize or maximize.
#[derive(Debug, Clone, PartialEq, Eq)]
pub struct LinearProblem {
    pub name: String,
    pub vars: Vec<VariableDecl>,
    pub constraints: Vec<LinearConstraint>,
    pub objective: LinExpr,
    pub minimize: bool,
}

impl LinearProblem {
    /// An empty minimization problem.
    pub fn new(name: &str) -> (r: Self)
        ensures
            r.name@ == name@,
            r.vars@.len() == 0,
            r.constraints@.len() == 0,
            r.objective.wf(),
            r.objective.constant == 0,
            r.objective.terms.entries().len() == 0,
            r.minimize,
    {
        LinearProblem {
            name: owned(name),
            vars: Vec::new(),
            constraints: Vec::new(),
            objective: LinExpr::zero(),
            minimize: true,
        }
    }

    /// Declares a non-negative integer variable.
    pub fn add_integer_nonnegative_var(&mut self, name: &str)
        ensures
            final(self).name == old(self).name,
            final(self).constraints == old(self).constraints,
            final(self).objective == old(self).objective,
            final(self).minimize == old(self).minimize,
            final(self).vars@.len() == old(self).vars@.len() + 1,
            final(self).vars@.drop_last() == old(self).vars@,
            final(self).vars@.last().name@ == name@,
            final(self).vars@.last().kind == VarKind::Integer,
            final(self).vars@.last().bound == (Bound { lower: Some(0i64), upper: None }),
    {
        self.vars.push(VariableDecl { name: owned(name), kind: VarKind::Integer, bound: Bound::non_negative() });
        assert(self.vars@.drop_last() =~= old(self).vars@);
    }

    /// Appends the constraint `lhs op rhs`.
    pub fn add_constraint(&mut self, name: &str, lhs: LinExpr, op: ConstraintOp, rhs: LinExpr)
        ensures
            final(self).name == old(self).name,
            final(self).vars == old(self).vars,
            final(self).objective == old(self).objective,
            final(self).minimize == old(self).minimize,
            final(self).constraints@ == old(self).constraints@.push(
                (LinearConstraint { name: final(self).constraints@.last().name, lhs, op, rhs }),
            ),
            final(self).constraints@.last().name@ == name@,
    {
        self.constraints.push(LinearConstraint { name: owned(name), lhs, op, rhs });
    }
}

/// An optimal assignment, when the solver found one.
#[derive(Debug, Clone, PartialEq, Eq)]
pub struct IlpSolution {
    pub objective: Option<i64>,
    pub values: KeyMap<String, i64>,
}

/// Why a solver gave no solution.
#[derive(Debug, Clone, PartialEq, Eq)]
pub enum SolverError {
    Infeasible,
    Unbounded,
    Unsupported(String),
    Backend(String),
}

impl SolverError {
    /// The message of the error.
    pub open spec fn text(self) -> Seq<char> {
        match self {
            SolverError::Infeasible => "infeasible"@,
            SolverError::Unbounded => "unbounded"@,
            SolverError::Unsupported(s) => "unsupported problem: "@ + s@,
            SolverError::Backend(s) => "backend error: "@ + s@,
        }
    }

    pub fn to_string(&self) -> (r: String)
        ensures
            r@ == self.text(),
    {
        match self {
            SolverError::Infeasible => owned("infeasible"),
            SolverError::Unbounded => owned("unbounded"),
            SolverError::Unsupported(s) => concat2("unsupported problem: ", s.as_str()),
            SolverError::Backend(s) => concat2("backend error: ", s.as_str()),
        }
    }
}

/// An integer linear programming backend.
pub trait IntegerLinearSolver {
    /// `r` is an answer this backend may give to `problem`; a backend that
    /// states nothing of its answers admits every one.
    open spec fn answers(&self, problem: LinearProblem, r: Result<IlpSolution, SolverError>) -> bool {
        true
    }

    /// Solves `problem`; what comes back is one of the backend's answers to it.
    fn solve(&self, problem: &LinearProblem) -> (r: Result<IlpSolution, SolverError>)
        ensures
            self.answers(*problem, r),
    ;
}


/// The value `values` gives `name`, zero when it gives none.
pub open spec fn value_of_name(values: KeyMap<String, i64>, name: Seq<char>) -> int {
    if values@.contains_key(seq![name]) {
        values@[seq![name]] as int
    } else {
        0
    }
}

/// `Σ c·value(n)` over the entries.
pub open spec fn eval_terms(es: Seq<(String, i64)>, values: KeyMap<String, i64>) -> int
    decreases es.len(),
{
    if es.len() == 0 {
        0
    } else {
        eval_terms(es.drop_last(), values) + es.last().1 * value_of_name(values, es.last().0@)
    }
}

/// Evaluating `e` term by term stays within `i64`.
pub open spec fn eval_fits(e: LinExpr, values: KeyMap<String, i64>) -> bool {
    let es = e.terms.entries();
    &&& forall|i: int| 0 <= i < es.len() ==> in_i64(#[trigger] es[i].1 * value_of_name(values, es[i].0@))
    &&& forall|k: int| 0 <= k <= es.len() ==> in_i64(e.constant + #[trigger] eval_terms(es.take(k), values))
}

/// The value of `e` under `values`, a missing value counting as zero, or
/// `None` where some product or running sum of the evaluation leaves `i64`.
pub fn eval_checked(e: &LinExpr, values: &KeyMap<String, i64>) -> (r: Option<i64>)
    requires
        values.wf(),
    ensures
        r is Some <==> eval_fits(*e, *values),
        r matches Some(x) ==> x == e.constant + eval_terms(e.terms.entries(), *values),
{
    let ghost es = e.terms.entries();
    let mut out = e.constant;
    let mut i: usize = 0;
    assert(es.take(0) =~= Seq::<(String, i64)>::empty());
    while i < e.terms.len()
        invariant
            es == e.terms.entries(),
            i <= es.len(),
            values.wf(),
            out == e.constant + eval_terms(es.take(i as int), *values),
            forall|j: int| 0 <= j < i ==> in_i64(#[trigger] es[j].1 * value_of_name(*values, es[j].0@)),
            forall|k: int| 0 <= k <= i ==> in_i64(e.constant + #[trigger] eval_terms(es.take(k), *values)),
        decreases es.len() - i,
    {
        let t = e.terms.entry(i);
        let v: i64 = match values.get(&t.0) {
            Some(x) => *x,
            None => 0,
        };
        proof {
            crate::expr::lemma_string_key(t.0);
            assert(v == value_of_name(*values, es[i as int].0@));
            assert(es.take(i + 1).drop_last() =~= es.take(i as int));
        }
        let p = match t.1.checked_mul(v) {
            Some(p) => p,
            None => {
                assert(!in_i64(es[i as int].1 * value_of_name(*values, es[i as int].0@)));
                return None;
            },
        };
        out = match out.checked_add(p) {
            Some(o) => o,
            None => {
                assert(!in_i64(e.constant + eval_terms(es.take(i + 1), *values)));
                return None;
            },
        };
        i = i + 1;
    }
    assert(es.take(es.len() as int) =~= es);
    Some(out)
}

/// The value of `e` under `values`, a missing value counting as zero.
pub fn eval(e: &LinExpr, values: &KeyMap<String, i64>) -> (r: i64)
    requires
        values.wf(),
        eval_fits(*e, *values),
    ensures
        r == e.constant + eval_terms(e.terms.entries(), *values),
{
    let ghost es = e.terms.entries();
    let mut out = e.constant;
    let mut i: usize = 0;
    assert(es.take(0) =~= Seq::<(String, i64)>::empty());
    while i < e.terms.len()
        invariant
            es == e.terms.entries(),
            i <= es.len(),
            values.wf(),
            eval_fits(*e, *values),
            out == e.constant + eval_terms(es.take(i as int), *values),
        decreases es.len() - i,
    {
        let t = e.terms.entry(i);
        let v: i64 = match values.get(&t.0) {
            Some(x) => *x,
            None => 0,
        };
        proof {
            crate::expr::lemma_string_key(t.0);
            assert(v == value_of_name(*values, es[i as int].0@));
            assert(in_i64(es[i as int].1 * value_of_name(*values, es[i as int].0@)));
            assert(es.take(i + 1).drop_last() =~= es.take(i as int));
            assert(in_i64(e.constant + eval_terms(es.take(i + 1), *values)));
        }
        out = out + t.1 * v;
        i = i + 1;
    }
    assert(es.take(es.len() as int) =~= es);
    out
}

/// Some variable of the problem is named `n`.
pub open spec fn declared(problem: LinearProblem, n: Seq<char>) -> bool {
    exists|i: int| 0 <= i < problem.vars@.len() && #[trigger] problem.vars@[i].name@ == n
}

/// The names an expression mentions, in order.
pub open spec fn expr_names(e: LinExpr) -> Seq<Seq<char>> {
    e.terms.entries().map_values(|t: (String, i64)| t.0@)
}

/// The names of the constraints' sides, left then right, in order.
pub open spec fn constraint_names(cs: Seq<LinearConstraint>) -> Seq<Seq<char>>
    decreases cs.len(),
{
    if cs.len() == 0 {
        Seq::empty()
    } else {
        constraint_names(cs.drop_last()) + expr_names(cs.last().lhs) + expr_names(cs.last().rhs)
    }
}

/// The first name that no variable declares.
pub open spec fn first_undeclared(names: Seq<Seq<char>>, problem: LinearProblem) -> Option<Seq<char>>
    decreases names.len(),
{
    if names.len() == 0 {
        None
    } else if !declared(problem, names[0]) {
        Some(names[0])
    } else {
        first_undeclared(names.drop_first(), problem)
    }
}

/// The names the objective and then the constraints mention.
pub open spec fn problem_names(problem: LinearProblem) -> Seq<Seq<char>> {
    expr_names(problem.objective) + constraint_names(problem.constraints@)
}

fn is_declared(problem: &LinearProblem, n: &str) -> (r: bool)
    ensures
        r == declared(*problem, n@),
{
    let mut i: usize = 0;
    while i < problem.vars.len()
        invariant
            i <= problem.vars@.len(),
            forall|j: int| 0 <= j < i ==> #[trigger] problem.vars@[j].name@ != n@,
        decreases problem.vars@.len() - i,
    {
        if crate::text::text_eq(problem.vars[i].name.as_str(), n) {
            return true;
        }
        i = i + 1;
    }
    false
}

proof fn lemma_first_undeclared_append(a: Seq<Seq<char>>, b: Seq<Seq<char>>, problem: LinearProblem)
    ensures
        first_undeclared(a + b, problem) == match first_undeclared(a, problem) {
            Some(n) => Some(n),
            None => first_undeclared(b, problem),
        },
    decreases a.len(),
{
    if a.len() > 0 {
        assert((a + b)[0] == a[0]);
        assert((a + b).drop_first() =~= a.drop_first() + b);
        lemma_first_undeclared_append(a.drop_first(), b, problem);
    } else {
        assert(a + b =~= b);
    }
}

/// The first undeclared name an expression mentions.
fn undeclared_in(problem: &LinearProblem, e: &LinExpr) -> (r: Option<String>)
    ensures
        match (r, first_undeclared(expr_names(*e), *problem)) {
            (Some(a), Some(b)) => a@ == b,
            (None, None) => true,
            _ => false,
        },
{
    let ghost names = expr_names(*e);
    let mut i: usize = 0;
    assert(names.skip(0) =~= names);
    while i < e.terms.len()
        invariant
            i <= names.len(),
            names == expr_names(*e),
            first_undeclared(names, *problem) == first_undeclared(names.skip(i as int), *problem),
        decreases names.len() - i,
    {
        let t = e.terms.entry(i);
        assert(names.skip(i as int)[0] == t.0@);
        assert(names.skip(i as int).drop_first() =~= names.skip(i + 1));
        if !is_declared(problem, t.0.as_str()) {
            return Some(t.0.clone());
        }
        i = i + 1;
    }
    assert(names.skip(names.len() as int) =~= Seq::<Seq<char>>::empty());
    None
}

/// Refuses a problem that mentions a variable it does not declare, naming
/// the first such variable of the objective, then of the constraints.
pub fn check_declared(problem: &LinearProblem) -> (r: Result<(), SolverError>)
    ensures
        match first_undeclared(problem_names(*problem), *problem) {
            Some(n) => r matches Err(SolverError::Unsupported(m)) && m@ == "undeclared solver var `"@ + n + "`"@,
            None => r is Ok,
        },
{
    proof {
        lemma_first_undeclared_append(expr_names(problem.objective), constraint_names(problem.constraints@), *problem);
    }
    if let Some(n) = undeclared_in(problem, &problem.objective) {
        return Err(SolverError::Unsupported(crate::text::concat3("undeclared solver var `", n.as_str(), "`")));
    }
    let mut i: usize = 0;
    assert(problem.constraints@.take(0) =~= Seq::<LinearConstraint>::empty());
    while i < problem.constraints.len()
        invariant
            i <= problem.constraints@.len(),
            first_undeclared(constraint_names(problem.constraints@.take(i as int)), *problem) is None,
            first_undeclared(problem_names(*problem), *problem) == first_undeclared(
                constraint_names(problem.constraints@),
                *problem,
            ),
        decreases problem.constraints@.len() - i,
    {
        let c = &problem.constraints[i];
        let ghost prefix = problem.constraints@.take(i as int);
        assert(problem.constraints@.take(i + 1).drop_last() =~= prefix);
        assert(problem.constraints@.take(i + 1).last() == *c);
        assert(constraint_names(problem.constraints@.take(i + 1)) == constraint_names(prefix) + expr_names(c.lhs)
            + expr_names(c.rhs));
        proof {
            lemma_first_undeclared_append(constraint_names(prefix), expr_names(c.lhs), *problem);
            lemma_first_undeclared_append(constraint_names(prefix) + expr_names(c.lhs), expr_names(c.rhs), *problem);
            lemma_constraint_names_prefix(problem.constraints@, i as int + 1, *problem);
        }
        let l = undeclared_in(problem, &c.lhs);
        if let Some(n) = l {
            return Err(SolverError::Unsupported(crate::text::concat3("undeclared solver var `", n.as_str(), "`")));
        }
        let rr = undeclared_in(problem, &c.rhs);
        if let Some(n) = rr {
            return Err(SolverError::Unsupported(crate::text::concat3("undeclared solver var `", n.as_str(), "`")));
        }
        i = i + 1;
    }
    assert(problem.constraints@.take(problem.constraints@.len() as int) =~= problem.constraints@);
    Ok(())
}

proof fn lemma_constraint_names_prefix(cs: Seq<LinearConstraint>, k: int, problem: LinearProblem)
    requires
        0 <= k <= cs.len(),
    ensures
        first_undeclared(constraint_names(cs.take(k)), problem) is Some ==> first_undeclared(constraint_names(cs), problem)
            == first_undeclared(constraint_names(cs.take(k)), problem),
    decreases cs.len() - k,
{
    if k == cs.len() {
        assert(cs.take(k) =~= cs);
    } else {
        assert(cs.take(k + 1).drop_last() =~= cs.take(k));
        let last = cs.take(k + 1).last();
        lemma_first_undeclared_append(constraint_names(cs.take(k)), expr_names(last.lhs), problem);
        lemma_first_undeclared_append(
            constraint_names(cs.take(k)) + expr_names(last.lhs),
            expr_names(last.rhs),
            problem,
        );
        lemma_constraint_names_prefix(cs, k + 1, problem);
    }
}

} // verus!
