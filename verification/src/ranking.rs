//! Ranking functions for loops: a variable that every iteration decrements
//! (linear bound) or halves (logarithmic bound) on every path.
use vstd::prelude::*;
use vstd::set_lib::*;
use vstd::arithmetic::power2::{lemma2_to64, lemma_pow2_strictly_increases, pow2};
use vstd::arithmetic::div_mod::{lemma_div_is_ordered_by_denominator, lemma_fundamental_div_mod};
use crate::ir::{Event, FunctionIr, LoopRegion};
use crate::keymap::{path_lt, KeyMap, TextKey};
use crate::expr::lemma_string_key;
use crate::text::{concat3, seq_lt, text_eq};

verus! {

#[derive(Debug, Clone, Copy, PartialEq, Eq, Structural)]
pub enum RankingClass {
    /// Decremented by at least 1 on every path.
    Linear,
    /// Divided by at least 2 (or shifted right) on every path.
    Logarithmic,
}

/// A ranking variable, its class, and why.
#[derive(Debug, Clone, PartialEq, Eq)]
pub struct RankingFunction {
    pub variable: String,
    pub class: RankingClass,
    pub witness: String,
}

/// An edge of the loop body that avoids the progress blocks: `v` follows
/// `u` in the CFG, lies in the region and is not a progress block.
pub open spec fn edge(f: FunctionIr, region: Seq<usize>, progress: Seq<usize>, u: usize, v: usize) -> bool {
    &&& u < f.successors@.len()
    &&& f.successors@[u as int]@.contains(v)
    &&& region.contains(v)
    &&& !progress.contains(v)
}

/// A path of such edges.
pub open spec fn is_walk(f: FunctionIr, region: Seq<usize>, progress: Seq<usize>, p: Seq<usize>) -> bool {
    &&& p.len() >= 1
    &&& forall|i: int| 0 <= i < p.len() - 1 ==> #[trigger] edge(f, region, progress, p[i], p[i + 1])
}

/// `x` can be reached from `h` by at least one such edge.
pub open spec fn reaches(f: FunctionIr, region: Seq<usize>, progress: Seq<usize>, h: usize, x: usize) -> bool {
    exists|p: Seq<usize>| p.len() >= 2 && p[0] == h && p.last() == x && #[trigger] is_walk(f, region, progress, p)
}

/// The successors of `bb` in the region that are not progress blocks, in CFG order.
fn successors_in(f: &FunctionIr, bb: usize, region: &Vec<usize>, progress: &Vec<usize>) -> (r: Vec<usize>)
    ensures
        forall|v: usize| r@.contains(v) <==> edge(*f, region@, progress@, bb, v),
{
    let mut out: Vec<usize> = Vec::new();
    if bb >= f.successors.len() {
        return out;
    }
    let succ = &f.successors[bb];
    let mut i: usize = 0;
    while i < succ.len()
        invariant
            i <= succ@.len(),
            bb < f.successors@.len(),
            *succ == f.successors@[bb as int],
            forall|v: usize| out@.contains(v) <==> (succ@.take(i as int).contains(v) && region@.contains(v) && !progress@.contains(v)),
        decreases succ@.len() - i,
    {
        let s = succ[i];
        assert(succ@.take(i + 1) =~= succ@.take(i as int).push(s));
        proof {
            assert forall|v: usize| #[trigger] succ@.take(i + 1).contains(v) == (succ@.take(i as int).contains(v) || v == s) by {
                lemma_push_contains(succ@.take(i as int), s, v);
            }
        }
        let ghost before = out@;
        if contains_usize(region, s) && !contains_usize(progress, s) {
            out.push(s);
            proof {
                assert forall|v: usize| #[trigger] out@.contains(v) == (before.contains(v) || v == s) by {
                    lemma_push_contains(before, s, v);
                }
            }
        }
        i = i + 1;
    }
    assert(succ@.take(succ@.len() as int) =~= succ@);
    out
}

pub(crate) fn contains_usize(v: &Vec<usize>, x: usize) -> (r: bool)
    ensures
        r == v@.contains(x),
{
    let mut i: usize = 0;
    while i < v.len()
        invariant
            i <= v@.len(),
            forall|j: int| 0 <= j < i ==> v@[j] != x,
        decreases v@.len() - i,
    {
        if v[i] == x {
            return true;
        }
        i = i + 1;
    }
    false
}

proof fn lemma_push_contains(s: Seq<usize>, x: usize, v: usize)
    ensures
        s.push(x).contains(v) == (s.contains(v) || v == x),
{
    if s.push(x).contains(v) {
        let j = choose|j: int| 0 <= j < s.push(x).len() && s.push(x)[j] == v;
        if j < s.len() {
            assert(s[j] == v);
        }
    }
    if s.contains(v) {
        let j = choose|j: int| 0 <= j < s.len() && s[j] == v;
        assert(s.push(x)[j] == v);
    }
    if v == x {
        assert(s.push(x)[s.len() as int] == x);
    }
}

/// A walk extended by one more edge is a walk.
proof fn lemma_walk_push(f: FunctionIr, region: Seq<usize>, progress: Seq<usize>, p: Seq<usize>, x: usize)
    requires
        is_walk(f, region, progress, p),
        edge(f, region, progress, p.last(), x),
    ensures
        is_walk(f, region, progress, p.push(x)),
{
    let q = p.push(x);
    assert forall|i: int| 0 <= i < q.len() - 1 implies #[trigger] edge(f, region, progress, q[i], q[i + 1]) by {
        if i < p.len() - 1 {
            assert(q[i] == p[i] && q[i + 1] == p[i + 1]);
        } else {
            assert(q[i] == p.last());
        }
    }
}

/// In a set closed under edges that holds the first step of a walk, the whole walk stays.
proof fn lemma_walk_closed(f: FunctionIr, region: Seq<usize>, progress: Seq<usize>, p: Seq<usize>, vis: Set<usize>, k: int)
    requires
        is_walk(f, region, progress, p),
        p.len() >= 2,
        vis.contains(p[1]),
        forall|u: usize, v: usize| vis.contains(u) && #[trigger] edge(f, region, progress, u, v) ==> vis.contains(v),
        1 <= k < p.len(),
    ensures
        vis.contains(p[k]),
    decreases k,
{
    if k > 1 {
        lemma_walk_closed(f, region, progress, p, vis, k - 1);
        let i = k - 1;
        assert(edge(f, region, progress, p[i], p[i + 1]));
        assert(p[i + 1] == p[k]);
    }
}

/// Whether every cycle through `header` in the region passes a progress
/// block: a depth-first search from `header` over the other region blocks
/// that fails when it meets `header` again.
fn progress_dominates_back_edges(f: &FunctionIr, region: &Vec<usize>, header: usize, progress: &Vec<usize>) -> (r: bool)
    ensures
        r == !reaches(*f, region@, progress@, header, header),
{
    let mut visited: Vec<usize> = Vec::new();
    let ghost vis: Set<usize> = Set::empty();
    let mut stack: Vec<usize> = successors_in(f, header, region, progress);
    let ghost rset = region@.to_set();
    proof {
        region@.lemma_cardinality_of_set();
        assert forall|x: usize| stack@.contains(x) implies reaches(*f, region@, progress@, header, x) by {
            let p = seq![header, x];
            assert(is_walk(*f, region@, progress@, p)) by {
                assert forall|i: int| 0 <= i < p.len() - 1 implies #[trigger] edge(*f, region@, progress@, p[i], p[i + 1]) by {
                    assert(i == 0);
                }
            }
            assert(p.last() == x);
        }
    }
    while stack.len() > 0
        invariant
            vis == visited@.to_set(),
            rset == region@.to_set(),
            rset.finite(),
            vis.subset_of(rset),
            forall|x: usize| stack@.contains(x) ==> reaches(*f, region@, progress@, header, x),
            forall|x: usize| vis.contains(x) ==> reaches(*f, region@, progress@, header, x) && x != header,
            forall|u: usize, v: usize| vis.contains(u) && #[trigger] edge(*f, region@, progress@, u, v) ==> vis.contains(v) || stack@.contains(v),
            forall|v: usize| #[trigger] edge(*f, region@, progress@, header, v) ==> vis.contains(v) || stack@.contains(v),
        decreases rset.difference(vis).len(), stack@.len(),
    {
        let ghost st0 = stack@;
        let bb = stack.pop().unwrap();
        let ghost rest = stack@;
        proof {
            assert(st0 == rest.push(bb));
            assert(st0[st0.len() - 1] == bb);
            assert(st0.contains(bb));
            assert forall|v: usize| #[trigger] st0.contains(v) == (rest.contains(v) || v == bb) by {
                lemma_push_contains(rest, bb, v);
            }
        }
        if bb == header {
            return false;
        }
        if contains_usize(&visited, bb) {
            proof {
                assert forall|u: usize, v: usize| vis.contains(u) && #[trigger] edge(*f, region@, progress@, u, v) implies vis.contains(v) || stack@.contains(v) by {
                    if !vis.contains(v) {
                        assert(rest.push(bb).contains(v));
                        if v != bb {
                            let j = choose|j: int| 0 <= j < rest.push(bb).len() && rest.push(bb)[j] == v;
                            assert(rest[j] == v);
                        }
                    }
                }
                assert forall|v: usize| #[trigger] edge(*f, region@, progress@, header, v) implies vis.contains(v) || stack@.contains(v) by {
                    if !vis.contains(v) {
                        assert(rest.push(bb).contains(v));
                        if v != bb {
                            let j = choose|j: int| 0 <= j < rest.push(bb).len() && rest.push(bb)[j] == v;
                            assert(rest[j] == v);
                        }
                    }
                }
            }
            proof {
                assert forall|x: usize| stack@.contains(x) implies reaches(*f, region@, progress@, header, x) by {
                    assert(st0.contains(x));
                }
            }
            continue;
        }
        let ghost old_vis = vis;
        let ghost ov = visited@;
        visited.push(bb);
        proof {
            assert(rest.push(bb).contains(bb));
            assert(reaches(*f, region@, progress@, header, bb));
            let p = choose|p: Seq<usize>| p.len() >= 2 && p[0] == header && p.last() == bb && #[trigger] is_walk(*f, region@, progress@, p);
            let i = p.len() - 2;
            assert(edge(*f, region@, progress@, p[i], p[i + 1]));
            assert(region@.contains(bb));
            vis = vis.insert(bb);
            assert(vis =~= visited@.to_set()) by {
                assert forall|x: usize| vis.contains(x) <==> visited@.to_set().contains(x) by {
                    lemma_push_contains(ov, bb, x);
                    assert(visited@ == ov.push(bb));
                }
            }
            rset.lemma_set_insert_diff_decreases(old_vis, bb);
        }
        let mut succ = successors_in(f, bb, region, progress);
        let ghost sv = succ@;
        stack.append(&mut succ);
        proof {
            assert forall|x: usize| stack@.contains(x) implies reaches(*f, region@, progress@, header, x) by {
                let j = choose|j: int| 0 <= j < stack@.len() && stack@[j] == x;
                if j < rest.len() {
                    assert(rest[j] == x);
                    assert(rest.push(bb).contains(x));
                } else {
                    assert(sv[j - rest.len()] == x);
                    assert(sv.contains(x));
                    let p = choose|p: Seq<usize>| p.len() >= 2 && p[0] == header && p.last() == bb && #[trigger] is_walk(*f, region@, progress@, p);
                    lemma_walk_push(*f, region@, progress@, p, x);
                    assert(p.push(x).last() == x);
                }
            }
            assert forall|u: usize, v: usize| vis.contains(u) && #[trigger] edge(*f, region@, progress@, u, v) implies vis.contains(v) || stack@.contains(v) by {
                if u == bb {
                    assert(sv.contains(v));
                    let j = choose|j: int| 0 <= j < sv.len() && sv[j] == v;
                    assert(stack@[rest.len() + j] == v);
                } else if !vis.contains(v) {
                    assert(old_vis.contains(u));
                    assert(rest.push(bb).contains(v));
                    let j = choose|j: int| 0 <= j < rest.push(bb).len() && rest.push(bb)[j] == v;
                    if j < rest.len() {
                        assert(stack@[j] == v);
                    }
                }
            }
            assert forall|v: usize| #[trigger] edge(*f, region@, progress@, header, v) implies vis.contains(v) || stack@.contains(v) by {
                if !vis.contains(v) {
                    assert(rest.push(bb).contains(v));
                    let j = choose|j: int| 0 <= j < rest.push(bb).len() && rest.push(bb)[j] == v;
                    if j < rest.len() {
                        assert(stack@[j] == v);
                    }
                }
            }
        }
    }
    proof {
        if reaches(*f, region@, progress@, header, header) {
            let p = choose|p: Seq<usize>| p.len() >= 2 && p[0] == header && p.last() == header && #[trigger] is_walk(*f, region@, progress@, p);
            let i = 0int;
            assert(edge(*f, region@, progress@, p[i], p[i + 1]));
            assert(vis.contains(p[1]));
            lemma_walk_closed(*f, region@, progress@, p, vis, p.len() - 1);
        }
    }
    true
}

/// Reaching depends on the progress blocks only through which blocks they are.
proof fn lemma_reaches_same_progress(f: FunctionIr, region: Seq<usize>, p1: Seq<usize>, p2: Seq<usize>, h: usize, x: usize)
    requires
        forall|b: usize| p1.contains(b) <==> p2.contains(b),
    ensures
        reaches(f, region, p1, h, x) == reaches(f, region, p2, h, x),
{
    assert forall|w: Seq<usize>| is_walk(f, region, p1, w) <==> is_walk(f, region, p2, w) by {
        if is_walk(f, region, p1, w) {
            assert forall|i: int| 0 <= i < w.len() - 1 implies #[trigger] edge(f, region, p2, w[i], w[i + 1]) by {
                assert(edge(f, region, p1, w[i], w[i + 1]));
            }
        }
        if is_walk(f, region, p2, w) {
            assert forall|i: int| 0 <= i < w.len() - 1 implies #[trigger] edge(f, region, p1, w[i], w[i + 1]) by {
                assert(edge(f, region, p2, w[i], w[i + 1]));
            }
        }
    }
    if reaches(f, region, p1, h, x) {
        let w = choose|w: Seq<usize>| w.len() >= 2 && w[0] == h && w.last() == x && #[trigger] is_walk(f, region, p1, w);
        assert(is_walk(f, region, p2, w));
    }
    if reaches(f, region, p2, h, x) {
        let w = choose|w: Seq<usize>| w.len() >= 2 && w[0] == h && w.last() == x && #[trigger] is_walk(f, region, p2, w);
        assert(is_walk(f, region, p1, w));
    }
}

/// The arithmetic on `var` an event performs in the region: block, operator
/// and right constant (`0` when it is not a literal).
pub open spec fn binop_on(ev: Event, region: Seq<usize>, var: Seq<char>) -> Option<(usize, Seq<char>, int)> {
    match ev {
        Event::Binop { block, op, target, rhs_const, .. } => if region.contains(block) && target is Some && target.unwrap()@ == var {
            Some((block, op@, match rhs_const { Some(c) => c as int, None => 0 }))
        } else {
            None
        },
        _ => None,
    }
}

/// An operation that decrements (`Sub` by at least 1).
pub open spec fn decrements(o: (usize, Seq<char>, int)) -> bool {
    o.1 == "Sub"@ && o.2 >= 1
}

/// An operation that halves (`Shr` by at least 1, `Div` by at least 2).
pub open spec fn halves(o: (usize, Seq<char>, int)) -> bool {
    (o.1 == "Shr"@ && o.2 >= 1) || (o.1 == "Div"@ && o.2 >= 2)
}

/// An operation that may grow the variable (`Add` or `Mul`, whatever the constant).
pub open spec fn may_grow(o: (usize, Seq<char>, int)) -> bool {
    o.1 == "Add"@ || o.1 == "Mul"@
}

/// Some event in the region may grow `var`.
pub open spec fn grows(f: FunctionIr, region: Seq<usize>, var: Seq<char>) -> bool {
    exists|i: int| 0 <= i < f.events@.len() && #[trigger] binop_on(f.events@[i], region, var) is Some
        && may_grow(binop_on(f.events@[i], region, var).unwrap())
}

/// Block `b` decrements `var`.
pub open spec fn linear_block(f: FunctionIr, region: Seq<usize>, var: Seq<char>, b: usize) -> bool {
    exists|i: int| 0 <= i < f.events@.len() && #[trigger] binop_on(f.events@[i], region, var) is Some
        && binop_on(f.events@[i], region, var).unwrap().0 == b && decrements(binop_on(f.events@[i], region, var).unwrap())
}

/// Block `b` halves `var`.
pub open spec fn log_block(f: FunctionIr, region: Seq<usize>, var: Seq<char>, b: usize) -> bool {
    exists|i: int| 0 <= i < f.events@.len() && #[trigger] binop_on(f.events@[i], region, var) is Some
        && binop_on(f.events@[i], region, var).unwrap().0 == b && halves(binop_on(f.events@[i], region, var).unwrap())
}

/// The blocks that make progress on `var`.
pub open spec fn is_progress(f: FunctionIr, region: Seq<usize>, var: Seq<char>, b: usize) -> bool {
    linear_block(f, region, var, b) || log_block(f, region, var, b)
}

/// Some cycle through `header` avoids every progress block of `var`.
pub open spec fn has_free_cycle(f: FunctionIr, region: Seq<usize>, var: Seq<char>, header: usize) -> bool {
    forall|ps: Seq<usize>| (forall|b: usize| #[trigger] ps.contains(b) <==> is_progress(f, region, var, b))
        ==> reaches(f, region, ps, header, header)
}

/// The class of `var` as a ranking variable of the loop at `header`, if it is one:
/// nothing grows it, some block makes progress, every cycle through the header
/// passes such a block; logarithmic when some block halves it.
pub open spec fn classify_spec(f: FunctionIr, region: Seq<usize>, header: usize, var: Seq<char>) -> Option<RankingClass> {
    if grows(f, region, var) {
        None
    } else if !exists|b: usize| #[trigger] is_progress(f, region, var, b) {
        None
    } else if has_free_cycle(f, region, var, header) {
        None
    } else if exists|b: usize| #[trigger] log_block(f, region, var, b) {
        Some(RankingClass::Logarithmic)
    } else {
        Some(RankingClass::Linear)
    }
}

/// The witness text of a class.
pub open spec fn witness_text(var: Seq<char>, class: RankingClass) -> Seq<char> {
    match class {
        RankingClass::Linear => "`"@ + var + "` decremented on every back-edge path"@,
        RankingClass::Logarithmic => "`"@ + var + "` halved on every back-edge path"@,
    }
}

/// The operator names are distinct texts.
proof fn lemma_op_names()
    ensures
        "Sub"@ != "Shr"@,
        "Sub"@ != "Div"@,
        "Sub"@ != "Add"@,
        "Sub"@ != "Mul"@,
        "Shr"@ != "Div"@,
        "Shr"@ != "Add"@,
        "Shr"@ != "Mul"@,
        "Div"@ != "Add"@,
        "Div"@ != "Mul"@,
        "Add"@ != "Mul"@,
{
    reveal_strlit("Sub");
    reveal_strlit("Shr");
    reveal_strlit("Div");
    reveal_strlit("Add");
    reveal_strlit("Mul");
    assert("Sub"@[1] != "Shr"@[1]);
    assert("Sub"@[0] != "Div"@[0]);
    assert("Sub"@[0] != "Add"@[0]);
    assert("Sub"@[0] != "Mul"@[0]);
    assert("Shr"@[0] != "Div"@[0]);
    assert("Shr"@[0] != "Add"@[0]);
    assert("Shr"@[0] != "Mul"@[0]);
    assert("Div"@[0] != "Add"@[0]);
    assert("Div"@[0] != "Mul"@[0]);
    assert("Add"@[0] != "Mul"@[0]);
}

/// The value an arithmetic event leaves in a variable that held `v`, for
/// the operator and right constant `c` of the event: `v - c`, `v >> c`
/// (that is `v / 2^c`), `v / c`, `v + c` or `v * c`. A shift by a negative
/// amount, a division by zero or by a negative constant, and any other
/// operator are taken to leave the value unchanged.
pub open spec fn op_value(op: Seq<char>, v: int, c: int) -> int {
    if op == "Sub"@ {
        v - c
    } else if op == "Shr"@ {
        if c >= 0 {
            v / (pow2(c as nat) as int)
        } else {
            v
        }
    } else if op == "Div"@ {
        if c > 0 {
            v / c
        } else {
            v
        }
    } else if op == "Add"@ {
        v + c
    } else if op == "Mul"@ {
        v * c
    } else {
        v
    }
}

/// The operation leaves at most half of every positive value.
pub open spec fn halves_every_value(op: Seq<char>, c: int) -> bool {
    forall|v: int| v > 0 ==> 2 * #[trigger] op_value(op, v, c) <= v
}

/// Dividing a non-negative value by at least two leaves at most half of it.
proof fn lemma_div_at_least_two(v: int, d: int)
    requires
        v >= 0,
        d >= 2,
    ensures
        2 * (v / d) <= v,
{
    lemma_div_is_ordered_by_denominator(v, 2, d);
    lemma_fundamental_div_mod(v, 2);
}

/// The operation leaves less than every positive value.
pub open spec fn shrinks_every_value(op: Seq<char>, c: int) -> bool {
    forall|v: int| v > 0 ==> #[trigger] op_value(op, v, c) < v
}

/// Among operations that do not grow the variable, those the analysis takes
/// as progress are exactly those that shrink every positive value, and those
/// it takes as halving are exactly those that halve every positive value.
proof fn lemma_progress_is_shrinking(o: (usize, Seq<char>, int))
    requires
        !may_grow(o),
    ensures
        (decrements(o) || halves(o)) <==> shrinks_every_value(o.1, o.2),
        halves(o) <==> halves_every_value(o.1, o.2),
{
    lemma_op_names();
    lemma2_to64();
    if halves(o) {
        assert forall|v: int| v > 0 implies 2 * #[trigger] op_value(o.1, v, o.2) <= v by {
            if o.1 == "Shr"@ {
                if o.2 > 1 {
                    lemma_pow2_strictly_increases(1, o.2 as nat);
                }
                lemma_div_at_least_two(v, pow2(o.2 as nat) as int);
            } else {
                lemma_div_at_least_two(v, o.2);
            }
        }
        assert forall|v: int| v > 0 implies #[trigger] op_value(o.1, v, o.2) < v by {
            assert(2 * op_value(o.1, v, o.2) <= v);
        }
    } else {
        let v = if o.1 == "Sub"@ && o.2 > 0 { 2 * o.2 + 1 } else { 1 };
        assert(2 * op_value(o.1, v, o.2) > v) by {
            if o.1 == "Shr"@ {
                if o.2 == 0 {
                    assert(1int / (pow2(0) as int) == 1);
                }
            } else if o.1 == "Div"@ {
                if o.2 == 1 {
                    assert(1int / 1int == 1);
                }
            }
        }
        if decrements(o) {
            assert forall|w: int| w > 0 implies #[trigger] op_value(o.1, w, o.2) < w by {}
        } else {
            assert(op_value(o.1, 1, o.2) >= 1) by {
                if o.1 == "Shr"@ {
                    if o.2 == 0 {
                        assert(1int / (pow2(0) as int) == 1);
                    }
                } else if o.1 == "Div"@ {
                    if o.2 == 1 {
                        assert(1int / 1int == 1);
                    }
                }
            }
        }
    }
}

/// Halving loops are logarithmic: where `var` is a ranking variable of the
/// loop at `header`, its class is logarithmic exactly when some arithmetic
/// event in the loop leaves at most half of every positive value of `var`
/// (a right shift by at least one bit, a division by at least two); every
/// other ranking variable is linear.
pub proof fn lemma_halving_is_logarithmic(f: FunctionIr, region: Seq<usize>, header: usize, var: Seq<char>)
    requires
        classify_spec(f, region, header, var) is Some,
    ensures
        (classify_spec(f, region, header, var) == Some(RankingClass::Logarithmic)) <==> exists|b: usize|
            #[trigger] halving_block(f, region, var, b),
{
    lemma_blocks_by_value(f, region, var);
    if exists|b: usize| #[trigger] halving_block(f, region, var, b) {
        let b = choose|b: usize| #[trigger] halving_block(f, region, var, b);
        assert(log_block(f, region, var, b));
    }
    if exists|b: usize| #[trigger] log_block(f, region, var, b) {
        let b = choose|b: usize| #[trigger] log_block(f, region, var, b);
        assert(halving_block(f, region, var, b));
    }
}

/// Block `b` updates `var` so that every positive value shrinks.
pub open spec fn shrinking_block(f: FunctionIr, region: Seq<usize>, var: Seq<char>, b: usize) -> bool {
    exists|i: int| 0 <= i < f.events@.len() && #[trigger] binop_on(f.events@[i], region, var) is Some
        && binop_on(f.events@[i], region, var).unwrap().0 == b && shrinks_every_value(
        binop_on(f.events@[i], region, var).unwrap().1,
        binop_on(f.events@[i], region, var).unwrap().2,
    )
}

/// Block `b` updates `var` so that at most half of every positive value is left.
pub open spec fn halving_block(f: FunctionIr, region: Seq<usize>, var: Seq<char>, b: usize) -> bool {
    exists|i: int| 0 <= i < f.events@.len() && #[trigger] binop_on(f.events@[i], region, var) is Some
        && binop_on(f.events@[i], region, var).unwrap().0 == b && halves_every_value(
        binop_on(f.events@[i], region, var).unwrap().1,
        binop_on(f.events@[i], region, var).unwrap().2,
    )
}

/// Every cycle of the loop through `header` passes a block that shrinks `var`.
pub open spec fn every_cycle_shrinks(f: FunctionIr, region: Seq<usize>, var: Seq<char>, header: usize) -> bool {
    exists|ps: Seq<usize>|
        (forall|b: usize| #[trigger] ps.contains(b) <==> shrinking_block(f, region, var, b)) && !#[trigger] reaches(
            f,
            region,
            ps,
            header,
            header,
        )
}

/// Where nothing grows `var`, the progress blocks are the shrinking ones
/// and the halving blocks of the analysis the halving ones.
proof fn lemma_blocks_by_value(f: FunctionIr, region: Seq<usize>, var: Seq<char>)
    requires
        !grows(f, region, var),
    ensures
        forall|b: usize| #[trigger] is_progress(f, region, var, b) <==> shrinking_block(f, region, var, b),
        forall|b: usize| #[trigger] log_block(f, region, var, b) <==> halving_block(f, region, var, b),
{
    assert forall|i: int| 0 <= i < f.events@.len() && #[trigger] binop_on(f.events@[i], region, var) is Some implies
        ((decrements(binop_on(f.events@[i], region, var).unwrap()) || halves(binop_on(f.events@[i], region, var).unwrap()))
        <==> shrinks_every_value(binop_on(f.events@[i], region, var).unwrap().1, binop_on(f.events@[i], region, var).unwrap().2))
        && (halves(binop_on(f.events@[i], region, var).unwrap()) <==> halves_every_value(
        binop_on(f.events@[i], region, var).unwrap().1,
        binop_on(f.events@[i], region, var).unwrap().2,
    )) by {
        assert(!may_grow(binop_on(f.events@[i], region, var).unwrap()));
        lemma_progress_is_shrinking(binop_on(f.events@[i], region, var).unwrap());
    }
    assert forall|b: usize| #[trigger] is_progress(f, region, var, b) <==> shrinking_block(f, region, var, b) by {
        if shrinking_block(f, region, var, b) {
            let i = choose|i: int| 0 <= i < f.events@.len() && #[trigger] binop_on(f.events@[i], region, var) is Some
                && binop_on(f.events@[i], region, var).unwrap().0 == b && shrinks_every_value(
                binop_on(f.events@[i], region, var).unwrap().1,
                binop_on(f.events@[i], region, var).unwrap().2,
            );
            if halves(binop_on(f.events@[i], region, var).unwrap()) {
                assert(log_block(f, region, var, b));
            } else {
                assert(linear_block(f, region, var, b));
            }
        }
        if linear_block(f, region, var, b) {
            let i = choose|i: int| 0 <= i < f.events@.len() && #[trigger] binop_on(f.events@[i], region, var) is Some
                && binop_on(f.events@[i], region, var).unwrap().0 == b && decrements(binop_on(f.events@[i], region, var).unwrap());
            assert(shrinking_block(f, region, var, b));
        }
        if log_block(f, region, var, b) {
            let i = choose|i: int| 0 <= i < f.events@.len() && #[trigger] binop_on(f.events@[i], region, var) is Some
                && binop_on(f.events@[i], region, var).unwrap().0 == b && halves(binop_on(f.events@[i], region, var).unwrap());
            assert(shrinking_block(f, region, var, b));
        }
    }
    assert forall|b: usize| #[trigger] log_block(f, region, var, b) <==> halving_block(f, region, var, b) by {
        if halving_block(f, region, var, b) {
            let i = choose|i: int| 0 <= i < f.events@.len() && #[trigger] binop_on(f.events@[i], region, var) is Some
                && binop_on(f.events@[i], region, var).unwrap().0 == b && halves_every_value(
                binop_on(f.events@[i], region, var).unwrap().1,
                binop_on(f.events@[i], region, var).unwrap().2,
            );
            assert(log_block(f, region, var, b));
        }
        if log_block(f, region, var, b) {
            let i = choose|i: int| 0 <= i < f.events@.len() && #[trigger] binop_on(f.events@[i], region, var) is Some
                && binop_on(f.events@[i], region, var).unwrap().0 == b && halves(binop_on(f.events@[i], region, var).unwrap());
            assert(halving_block(f, region, var, b));
        }
    }
}

/// A variable that nothing grows and that every cycle of the loop through its
/// header shrinks is a ranking variable of the loop: logarithmic when some
/// block leaves at most half of every positive value of it (a right shift by
/// at least one bit, a division by at least two), linear otherwise.
pub proof fn lemma_shrinking_variable_ranks(f: FunctionIr, region: Seq<usize>, header: usize, var: Seq<char>)
    requires
        !grows(f, region, var),
        exists|b: usize| #[trigger] shrinking_block(f, region, var, b),
        every_cycle_shrinks(f, region, var, header),
    ensures
        classify_spec(f, region, header, var) == Some(
            if exists|b: usize| #[trigger] halving_block(f, region, var, b) {
                RankingClass::Logarithmic
            } else {
                RankingClass::Linear
            },
        ),
{
    lemma_blocks_by_value(f, region, var);
    let b = choose|b: usize| #[trigger] shrinking_block(f, region, var, b);
    assert(is_progress(f, region, var, b));
    let ps = choose|ps: Seq<usize>|
        (forall|b: usize| #[trigger] ps.contains(b) <==> shrinking_block(f, region, var, b)) && !#[trigger] reaches(
            f,
            region,
            ps,
            header,
            header,
        );
    assert(forall|b: usize| #[trigger] ps.contains(b) <==> is_progress(f, region, var, b));
    assert(!has_free_cycle(f, region, var, header));
    if exists|b: usize| #[trigger] halving_block(f, region, var, b) {
        let b = choose|b: usize| #[trigger] halving_block(f, region, var, b);
        assert(log_block(f, region, var, b));
    }
    if exists|b: usize| #[trigger] log_block(f, region, var, b) {
        let b = choose|b: usize| #[trigger] log_block(f, region, var, b);
        assert(halving_block(f, region, var, b));
    }
}

/// Whether `var` is a ranking variable of the loop at `header`, and of which class.
fn try_classify(f: &FunctionIr, region: &Vec<usize>, header: usize, var: &str) -> (r: Option<RankingFunction>)
    ensures
        match r {
            Some(rf) => classify_spec(*f, region@, header, var@) == Some(rf.class) && rf.variable@ == var@
                && rf.witness@ == witness_text(var@, rf.class),
            None => classify_spec(*f, region@, header, var@) is None,
        },
{
    let mut linear_blocks: Vec<usize> = Vec::new();
    let mut log_blocks: Vec<usize> = Vec::new();
    let mut has_growth = false;
    let mut i: usize = 0;
    proof {
        reveal_strlit("Sub");
        reveal_strlit("Shr");
        reveal_strlit("Div");
        reveal_strlit("Add");
        reveal_strlit("Mul");
    }
    while i < f.events.len()
        invariant
            i <= f.events@.len(),
            has_growth == exists|j: int| 0 <= j < i && #[trigger] binop_on(f.events@[j], region@, var@) is Some
                && may_grow(binop_on(f.events@[j], region@, var@).unwrap()),
            forall|b: usize| linear_blocks@.contains(b) <==> exists|j: int| 0 <= j < i && #[trigger] binop_on(f.events@[j], region@, var@) is Some
                && binop_on(f.events@[j], region@, var@).unwrap().0 == b && decrements(binop_on(f.events@[j], region@, var@).unwrap()),
            forall|b: usize| log_blocks@.contains(b) <==> exists|j: int| 0 <= j < i && #[trigger] binop_on(f.events@[j], region@, var@) is Some
                && binop_on(f.events@[j], region@, var@).unwrap().0 == b && halves(binop_on(f.events@[j], region@, var@).unwrap()),
        decreases f.events@.len() - i,
    {
        proof {
            lemma_op_names();
        }
        let ghost lb = linear_blocks@;
        let ghost gb = log_blocks@;
        let ghost g0 = has_growth;
        let ghost o = binop_on(f.events@[i as int], region@, var@);
        match &f.events[i] {
            Event::Binop { block, op, target, rhs_const, .. } => {
                let in_region = contains_usize(region, *block);
                let on_var = match target {
                    Some(t) => text_eq(t.as_str(), var),
                    None => false,
                };
                if in_region && on_var {
                    let c: i64 = match rhs_const {
                        Some(c) => *c,
                        None => 0,
                    };
                    assert(o == Some((*block, op@, c as int)));
                    if text_eq(op.as_str(), "Sub") && c >= 1 {
                        linear_blocks.push(*block);
                    } else if text_eq(op.as_str(), "Shr") && c >= 1 {
                        log_blocks.push(*block);
                    } else if text_eq(op.as_str(), "Div") && c >= 2 {
                        log_blocks.push(*block);
                    } else if text_eq(op.as_str(), "Add") || text_eq(op.as_str(), "Mul") {
                        has_growth = true;
                    }
                } else {
                    assert(o is None);
                }
            },
            _ => {
                assert(o is None);
            },
        }
        proof {
            assert(has_growth == (g0 || (o is Some && may_grow(o.unwrap()))));
            if o is Some && may_grow(o.unwrap()) {
                assert(binop_on(f.events@[i as int], region@, var@) is Some);
            }
            if g0 {
                let j = choose|j: int| 0 <= j < i && #[trigger] binop_on(f.events@[j], region@, var@) is Some
                    && may_grow(binop_on(f.events@[j], region@, var@).unwrap());
                assert(0 <= j < i + 1);
            }
            if exists|j: int| 0 <= j < i + 1 && #[trigger] binop_on(f.events@[j], region@, var@) is Some
                && may_grow(binop_on(f.events@[j], region@, var@).unwrap()) {
                let j = choose|j: int| 0 <= j < i + 1 && #[trigger] binop_on(f.events@[j], region@, var@) is Some
                    && may_grow(binop_on(f.events@[j], region@, var@).unwrap());
                if j < i {
                    assert(g0);
                }
            }
            assert forall|b: usize| linear_blocks@.contains(b) <==> exists|j: int| 0 <= j < i + 1 && #[trigger] binop_on(f.events@[j], region@, var@) is Some
                && binop_on(f.events@[j], region@, var@).unwrap().0 == b && decrements(binop_on(f.events@[j], region@, var@).unwrap()) by {
                if linear_blocks@.len() > lb.len() {
                    lemma_push_contains(lb, o.unwrap().0, b);
                }
                if exists|j: int| 0 <= j < i + 1 && #[trigger] binop_on(f.events@[j], region@, var@) is Some
                    && binop_on(f.events@[j], region@, var@).unwrap().0 == b && decrements(binop_on(f.events@[j], region@, var@).unwrap()) {
                    let j = choose|j: int| 0 <= j < i + 1 && #[trigger] binop_on(f.events@[j], region@, var@) is Some
                        && binop_on(f.events@[j], region@, var@).unwrap().0 == b && decrements(binop_on(f.events@[j], region@, var@).unwrap());
                    if j < i {
                        assert(lb.contains(b));
                    }
                }
            }
            assert forall|b: usize| log_blocks@.contains(b) <==> exists|j: int| 0 <= j < i + 1 && #[trigger] binop_on(f.events@[j], region@, var@) is Some
                && binop_on(f.events@[j], region@, var@).unwrap().0 == b && halves(binop_on(f.events@[j], region@, var@).unwrap()) by {
                if log_blocks@.len() > gb.len() {
                    lemma_push_contains(gb, o.unwrap().0, b);
                }
                if exists|j: int| 0 <= j < i + 1 && #[trigger] binop_on(f.events@[j], region@, var@) is Some
                    && binop_on(f.events@[j], region@, var@).unwrap().0 == b && halves(binop_on(f.events@[j], region@, var@).unwrap()) {
                    let j = choose|j: int| 0 <= j < i + 1 && #[trigger] binop_on(f.events@[j], region@, var@) is Some
                        && binop_on(f.events@[j], region@, var@).unwrap().0 == b && halves(binop_on(f.events@[j], region@, var@).unwrap());
                    if j < i {
                        assert(gb.contains(b));
                    }
                }
            }
        }
        i = i + 1;
    }
    if has_growth {
        return None;
    }
    let mut progress: Vec<usize> = Vec::new();
    let mut lcopy = linear_blocks.clone();
    let mut gcopy = log_blocks.clone();
    progress.append(&mut lcopy);
    progress.append(&mut gcopy);
    proof {
        assert forall|b: usize| #[trigger] progress@.contains(b) <==> is_progress(*f, region@, var@, b) by {
            assert(progress@ == linear_blocks@ + log_blocks@);
            if progress@.contains(b) {
                let j = choose|j: int| 0 <= j < progress@.len() && progress@[j] == b;
                if j < linear_blocks@.len() {
                    assert(linear_blocks@[j] == b);
                    assert(linear_blocks@.contains(b));
                } else {
                    assert(log_blocks@[j - linear_blocks@.len()] == b);
                    assert(log_blocks@.contains(b));
                }
            }
            if linear_blocks@.contains(b) {
                let j = choose|j: int| 0 <= j < linear_blocks@.len() && linear_blocks@[j] == b;
                assert(progress@[j] == b);
            }
            if log_blocks@.contains(b) {
                let j = choose|j: int| 0 <= j < log_blocks@.len() && log_blocks@[j] == b;
                assert(progress@[linear_blocks@.len() + j] == b);
            }
        }
    }
    if progress.len() == 0 {
        proof {
            if exists|b: usize| #[trigger] is_progress(*f, region@, var@, b) {
                let b = choose|b: usize| #[trigger] is_progress(*f, region@, var@, b);
                assert(progress@.contains(b));
            }
        }
        return None;
    }
    proof {
        assert(progress@.contains(progress@[0]));
        assert(is_progress(*f, region@, var@, progress@[0]));
    }
    if !progress_dominates_back_edges(f, region, header, &progress) {
        proof {
            assert forall|ps: Seq<usize>| (forall|b: usize| #[trigger] ps.contains(b) <==> is_progress(*f, region@, var@, b))
                implies reaches(*f, region@, ps, header, header) by {
                lemma_reaches_same_progress(*f, region@, ps, progress@, header, header);
            }
        }
        return None;
    }
    proof {
        if has_free_cycle(*f, region@, var@, header) {
            assert(reaches(*f, region@, progress@, header, header));
        }
    }
    let class = if log_blocks.len() > 0 {
        proof {
            assert(log_blocks@.contains(log_blocks@[0]));
            assert(log_block(*f, region@, var@, log_blocks@[0]));
        }
        RankingClass::Logarithmic
    } else {
        proof {
            if exists|b: usize| #[trigger] log_block(*f, region@, var@, b) {
                let b = choose|b: usize| #[trigger] log_block(*f, region@, var@, b);
                assert(log_blocks@.contains(b));
            }
        }
        RankingClass::Linear
    };
    let witness = match class {
        RankingClass::Linear => concat3("`", var, "` decremented on every back-edge path"),
        RankingClass::Logarithmic => concat3("`", var, "` halved on every back-edge path"),
    };
    Some(RankingFunction { variable: crate::text::owned(var), class, witness })
}

/// The variable an arithmetic event in the region writes, if any.
pub open spec fn target_in(ev: Event, region: Seq<usize>) -> Option<Seq<char>> {
    match ev {
        Event::Binop { block, target, .. } => if region.contains(block) && target is Some {
            Some(target.unwrap()@)
        } else {
            None
        },
        _ => None,
    }
}

/// `v` is written by some arithmetic event in the region.
pub open spec fn is_candidate(f: FunctionIr, region: Seq<usize>, v: Seq<char>) -> bool {
    exists|i: int| 0 <= i < f.events@.len() && #[trigger] target_in(f.events@[i], region) == Some(v)
}

/// `var` is the ranking variable the search settles on: a candidate that
/// classifies, while no candidate before it in name order does.
pub open spec fn least_ranking(f: FunctionIr, region: Seq<usize>, var: Seq<char>) -> bool {
    &&& region.len() > 0
    &&& is_candidate(f, region, var)
    &&& classify_spec(f, region, region[0], var) is Some
    &&& forall|w: Seq<char>| is_candidate(f, region, w) && seq_lt(w, var)
        ==> #[trigger] classify_spec(f, region, region[0], w) is None
}

/// The ranking function of the loop, if it has one: the least ranking
/// variable in name order, with its class.
pub open spec fn ranking_spec(f: FunctionIr, region: Seq<usize>) -> Option<(Seq<char>, RankingClass)> {
    if exists|v: Seq<char>| #[trigger] least_ranking(f, region, v) {
        let v = choose|v: Seq<char>| #[trigger] least_ranking(f, region, v);
        Some((v, classify_spec(f, region, region[0], v).unwrap()))
    } else {
        None
    }
}

/// What the search finds is the ranking function of the loop.
pub proof fn lemma_search_gives_ranking(f: FunctionIr, region: Seq<usize>, r: Option<RankingFunction>)
    requires
        region.len() == 0 ==> r is None,
        region.len() > 0 ==> match r {
            Some(rf) => {
                &&& is_candidate(f, region, rf.variable@)
                &&& classify_spec(f, region, region[0], rf.variable@) == Some(rf.class)
                &&& forall|w: Seq<char>| is_candidate(f, region, w) && seq_lt(w, rf.variable@)
                    ==> #[trigger] classify_spec(f, region, region[0], w) is None
            },
            None => forall|w: Seq<char>| is_candidate(f, region, w)
                ==> #[trigger] classify_spec(f, region, region[0], w) is None,
        },
    ensures
        match r {
            Some(rf) => ranking_spec(f, region) == Some((rf.variable@, rf.class)),
            None => ranking_spec(f, region) is None,
        },
{
    match r {
        Some(rf) => {
            assert(least_ranking(f, region, rf.variable@));
            let v = choose|v: Seq<char>| #[trigger] least_ranking(f, region, v);
            crate::text::lemma_seq_lt_total(v, rf.variable@);
            if v != rf.variable@ {
                if seq_lt(v, rf.variable@) {
                    assert(classify_spec(f, region, region[0], v) is None);
                } else {
                    assert(classify_spec(f, region, region[0], rf.variable@) is None);
                }
            }
        },
        None => {
            if exists|v: Seq<char>| #[trigger] least_ranking(f, region, v) {
                let v = choose|v: Seq<char>| #[trigger] least_ranking(f, region, v);
                assert(classify_spec(f, region, region[0], v) is None);
            }
        },
    }
}

/// The first candidate variable, in name order, that is a ranking variable of
/// the loop (whose header is the region's first block).
pub fn find_ranking_function(f: &FunctionIr, region: &LoopRegion) -> (r: Option<RankingFunction>)
    ensures
        region.blocks@.len() == 0 ==> r is None,
        region.blocks@.len() > 0 ==> match r {
            Some(rf) => {
                &&& is_candidate(*f, region.blocks@, rf.variable@)
                &&& classify_spec(*f, region.blocks@, region.blocks@[0], rf.variable@) == Some(rf.class)
                &&& rf.witness@ == witness_text(rf.variable@, rf.class)
                &&& forall|w: Seq<char>| is_candidate(*f, region.blocks@, w) && seq_lt(w, rf.variable@)
                    ==> #[trigger] classify_spec(*f, region.blocks@, region.blocks@[0], w) is None
            },
            None => forall|w: Seq<char>| is_candidate(*f, region.blocks@, w)
                ==> #[trigger] classify_spec(*f, region.blocks@, region.blocks@[0], w) is None,
        },
{
    if region.blocks.len() == 0 {
        return None;
    }
    let header = region.blocks[0];
    let mut cands: KeyMap<String, bool> = KeyMap::new();
    let mut i: usize = 0;
    while i < f.events.len()
        invariant
            i <= f.events@.len(),
            cands.wf(),
            forall|v: Seq<char>| #[trigger] cands@.contains_key(seq![v]) <==> exists|j: int| 0 <= j < i && #[trigger] target_in(f.events@[j], region.blocks@) == Some(v),
            forall|k: Seq<Seq<char>>| #[trigger] cands@.contains_key(k) ==> k.len() == 1,
        decreases f.events@.len() - i,
    {
        let ghost before = cands@;
        match &f.events[i] {
            Event::Binop { block, target: Some(t), .. } => {
                if contains_usize(&region.blocks, *block) {
                    let key = t.clone();
                    proof {
                        lemma_string_key(key);
                    }
                    cands.insert(key, true);
                }
            },
            _ => {},
        }
        proof {
            let o = target_in(f.events@[i as int], region.blocks@);
            assert forall|v: Seq<char>| #[trigger] cands@.contains_key(seq![v]) <==> exists|j: int| 0 <= j < i + 1 && #[trigger] target_in(f.events@[j], region.blocks@) == Some(v) by {
                if o == Some(v) {
                    assert(target_in(f.events@[i as int], region.blocks@) == Some(v));
                } else {
                    if o is Some {
                        assert(seq![o.unwrap()] != seq![v]) by {
                            assert(seq![o.unwrap()][0] != seq![v][0]);
                        }
                    }
                    assert(cands@.contains_key(seq![v]) == before.contains_key(seq![v]));
                    if exists|j: int| 0 <= j < i + 1 && #[trigger] target_in(f.events@[j], region.blocks@) == Some(v) {
                        let j = choose|j: int| 0 <= j < i + 1 && #[trigger] target_in(f.events@[j], region.blocks@) == Some(v);
                        assert(j < i);
                    }
                }
            }
            assert forall|k: Seq<Seq<char>>| #[trigger] cands@.contains_key(k) implies k.len() == 1 by {
                if !before.contains_key(k) {
                    assert(o is Some && k == seq![o.unwrap()]);
                }
            }
        }
        i = i + 1;
    }
    let mut j: usize = 0;
    while j < cands.len()
        invariant
            j <= cands.entries().len(),
            cands.wf(),
            header == region.blocks@[0],
            forall|v: Seq<char>| #[trigger] cands@.contains_key(seq![v]) <==> is_candidate(*f, region.blocks@, v),
            forall|jj: int| 0 <= jj < j ==> #[trigger] classify_spec(*f, region.blocks@, header, cands.entries()[jj].0@) is None,
        decreases cands.entries().len() - j,
    {
        let e = cands.entry(j);
        match try_classify(f, &region.blocks, header, e.0.as_str()) {
            Some(rf) => {
                proof {
                    cands.lemma_index_of(j as int);
                    lemma_string_key(e.0);
                    assert(cands@.contains_key(seq![e.0@]));
                    assert forall|w: Seq<char>| is_candidate(*f, region.blocks@, w) && seq_lt(w, rf.variable@)
                        implies #[trigger] classify_spec(*f, region.blocks@, region.blocks@[0], w) is None by {
                        assert(cands@.contains_key(seq![w]));
                        assert(cands.has_key(seq![w]));
                        let jj = cands.index_of(seq![w]);
                        cands.lemma_index_of(jj);
                        lemma_string_key(cands.entries()[jj].0);
                        assert(cands.entries()[jj].0@ == w) by {
                            assert(seq![cands.entries()[jj].0@][0] == seq![w][0]);
                        }
                        crate::keymap::lemma_path_lt_single(w, e.0@);
                        if jj >= j {
                            if jj > j {
                                assert(path_lt(cands.entries()[j as int].0.key_view(), cands.entries()[jj].0.key_view()));
                                crate::keymap::lemma_path_lt_single(e.0@, w);
                                crate::text::lemma_seq_lt_asym(w, e.0@);
                            } else {
                                crate::text::lemma_seq_lt_irrefl(w);
                            }
                        }
                    }
                }
                return Some(rf);
            },
            None => {},
        }
        j = j + 1;
    }
    proof {
        assert forall|w: Seq<char>| is_candidate(*f, region.blocks@, w) implies #[trigger] classify_spec(*f, region.blocks@, region.blocks@[0], w) is None by {
            assert(cands@.contains_key(seq![w]));
            assert(cands.has_key(seq![w]));
            let jj = cands.index_of(seq![w]);
            cands.lemma_index_of(jj);
            lemma_string_key(cands.entries()[jj].0);
            assert(cands.entries()[jj].0@ == w) by {
                assert(seq![cands.entries()[jj].0@][0] == seq![w][0]);
            }
        }
    }
    None
}

} // verus!
