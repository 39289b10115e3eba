//! A manager of reduced ordered binary decision diagrams with complement
//! edges. Variables are ordered by their label (label 0 is tested first).
//! Nodes live in one subtable per variable and are hash-consed, so that two
//! pointers denote the same Boolean function exactly when they are equal;
//! the results of if-then-else are cached.

use vstd::prelude::*;
use std::collections::HashMap;
use crate::repr::{BddNode, BddPtr, VarLabel};

verus! {

/// An assignment of truth values to all variables.
pub type Assignment = spec_fn(u64) -> bool;

/// The node subtables, one per variable.
pub type NodeTable = Seq<Seq<BddNode>>;

/// A measure that strictly decreases from a node to its children: constants
/// are lowest, and a node ranks above every node of a later variable.
pub open spec fn rank(p: BddPtr) -> int {
    if p.special {
        0
    } else {
        0x1_0000_0000_0000_0000int - p.var as int
    }
}

/// `c` is a constant or a node of a variable after `v`.
pub open spec fn below(c: BddPtr, v: u64) -> bool {
    c.special || c.var > v
}

/// `p` is one of the two constants, or points at an existing node of `t`.
pub open spec fn valid_ptr(t: NodeTable, p: BddPtr) -> bool {
    if p.special {
        p.var == 0 && p.idx == 0
    } else {
        p.var < t.len() && p.idx < t[p.var as int].len()
    }
}

/// The node that a (valid, non-constant) pointer refers to.
pub open spec fn node_at(t: NodeTable, p: BddPtr) -> BddNode {
    t[p.var as int][p.idx as int]
}

/// `a` with variable `v` set to `b`.
pub open spec fn assign(a: Assignment, v: u64, b: bool) -> Assignment {
    |x: u64| if x == v { b } else { a(x) }
}

/// The truth value of the function that `p` denotes under assignment `a`.
pub open spec fn eval(t: NodeTable, p: BddPtr, a: Assignment) -> bool
    decreases rank(p),
{
    if p.special {
        !p.compl
    } else if valid_ptr(t, p) {
        let n = node_at(t, p);
        let c = if a(p.var) {
            n.high
        } else {
            n.low
        };
        let r = if below(c, p.var) {
            eval(t, c, a)
        } else {
            false
        };
        r != p.compl
    } else {
        false
    }
}

/// The variables tested by the nodes reachable from `p`.
pub open spec fn support(t: NodeTable, p: BddPtr) -> Set<u64>
    decreases rank(p),
{
    if p.special {
        Set::empty()
    } else if valid_ptr(t, p) {
        let n = node_at(t, p);
        let sl = if below(n.low, p.var) {
            support(t, n.low)
        } else {
            Set::empty()
        };
        let sh = if below(n.high, p.var) {
            support(t, n.high)
        } else {
            Set::empty()
        };
        sl.union(sh).insert(p.var)
    } else {
        Set::empty()
    }
}

/// The node `t[v][i]` is well formed: it tests `v`, its children exist and
/// lie after `v`, it is not redundant, and its high edge is not complemented.
pub open spec fn node_wf(t: NodeTable, v: int, i: int) -> bool {
    let n = t[v][i];
    &&& n.var.0 == v
    &&& valid_ptr(t, n.low)
    &&& valid_ptr(t, n.high)
    &&& below(n.low, v as u64)
    &&& below(n.high, v as u64)
    &&& n.low != n.high
    &&& !n.high.compl
}

/// Every node is well formed and no node occurs twice in its subtable.
#[verifier::opaque]
pub open spec fn table_wf(t: NodeTable) -> bool {
    &&& forall|v: int, i: int|
        0 <= v < t.len() && 0 <= i < t[v].len() ==> #[trigger] node_wf(t, v, i)
    &&& forall|v: int, i: int, j: int|
        0 <= v < t.len() && 0 <= i < t[v].len() && 0 <= j < t[v].len() && i != j
            ==> #[trigger] t[v][i] != #[trigger] t[v][j]
}

/// `t2` keeps every node of `t` where it was, and may add nodes and variables.
#[verifier::opaque]
pub open spec fn extends(t: NodeTable, t2: NodeTable) -> bool {
    &&& t.len() <= t2.len()
    &&& forall|v: int| 0 <= v < t.len() ==> #[trigger] t[v].len() <= t2[v].len()
    &&& forall|v: int, i: int|
        0 <= v < t.len() && 0 <= i < t[v].len() ==> #[trigger] t2[v][i] == t[v][i]
}

/// The same pointer, complemented when `c` holds.
pub open spec fn cond_neg(p: BddPtr, c: bool) -> BddPtr {
    if c {
        p.neg_spec()
    } else {
        p
    }
}

pub proof fn lemma_extends_refl(t: NodeTable)
    ensures
        extends(t, t),
{
    reveal(extends);
}

pub proof fn lemma_extends_trans(t1: NodeTable, t2: NodeTable, t3: NodeTable)
    requires
        extends(t1, t2),
        extends(t2, t3),
    ensures
        extends(t1, t3),
{
    reveal(extends);
    assert forall|v: int| 0 <= v < t1.len() implies #[trigger] t1[v].len() <= t3[v].len() by {
        assert(t1[v].len() <= t2[v].len());
    }
    assert forall|v: int, i: int| 0 <= v < t1.len() && 0 <= i < t1[v].len() implies #[trigger] t3[
        v
    ][i] == t1[v][i] by {
        assert(t1[v].len() <= t2[v].len());
        assert(t2[v][i] == t1[v][i]);
    }
}

pub proof fn lemma_valid_extends(t: NodeTable, t2: NodeTable, p: BddPtr)
    requires
        extends(t, t2),
        valid_ptr(t, p),
    ensures
        valid_ptr(t2, p),
        !p.special ==> node_at(t2, p) == node_at(t, p),
{
    reveal(extends);
    if !p.special {
        assert(t[p.var as int].len() <= t2[p.var as int].len());
    }
}

/// The children of a node of a well-formed table are valid and below it.
pub proof fn lemma_node_children(t: NodeTable, p: BddPtr)
    requires
        table_wf(t),
        valid_ptr(t, p),
        !p.special,
    ensures
        node_at(t, p).var.0 == p.var,
        valid_ptr(t, node_at(t, p).low),
        valid_ptr(t, node_at(t, p).high),
        below(node_at(t, p).low, p.var),
        below(node_at(t, p).high, p.var),
        rank(node_at(t, p).low) < rank(p),
        rank(node_at(t, p).high) < rank(p),
        node_at(t, p).low != node_at(t, p).high,
        !node_at(t, p).high.compl,
{
    reveal(table_wf);
    assert(node_wf(t, p.var as int, p.idx as int));
}

/// Growing a well-formed table changes neither what a pointer denotes nor
/// its support.
pub proof fn lemma_eval_extends(t: NodeTable, t2: NodeTable, p: BddPtr)
    requires
        table_wf(t),
        extends(t, t2),
        valid_ptr(t, p),
    ensures
        valid_ptr(t2, p),
        forall|a: Assignment| #[trigger] eval(t2, p, a) == eval(t, p, a),
        support(t2, p) == support(t, p),
    decreases rank(p),
{
    lemma_valid_extends(t, t2, p);
    if !p.special {
        lemma_node_children(t, p);
        let n = node_at(t, p);
        lemma_eval_extends(t, t2, n.low);
        lemma_eval_extends(t, t2, n.high);
        assert forall|a: Assignment| #[trigger] eval(t2, p, a) == eval(t, p, a) by {
            assert(eval(t2, n.high, a) == eval(t, n.high, a));
            assert(eval(t2, n.low, a) == eval(t, n.low, a));
        }
    }
}

/// Every variable in the support of a node comes at or after the node's own.
pub proof fn lemma_support_after(t: NodeTable, p: BddPtr)
    ensures
        forall|x: u64| #[trigger] support(t, p).contains(x) ==> !p.special && x >= p.var,
    decreases rank(p),
{
    if !p.special && valid_ptr(t, p) {
        let n = node_at(t, p);
        if below(n.low, p.var) {
            lemma_support_after(t, n.low);
        }
        if below(n.high, p.var) {
            lemma_support_after(t, n.high);
        }
        assert forall|x: u64| #[trigger] support(t, p).contains(x) implies !p.special && x
            >= p.var by {
            if below(n.low, p.var) && support(t, n.low).contains(x) {
            }
            if below(n.high, p.var) && support(t, n.high).contains(x) {
            }
        }
    }
}

/// What a pointer denotes depends only on the variables in its support.
pub proof fn lemma_eval_support(t: NodeTable, p: BddPtr, a: Assignment, b: Assignment)
    requires
        forall|x: u64| #[trigger] support(t, p).contains(x) ==> a(x) == b(x),
    ensures
        eval(t, p, a) == eval(t, p, b),
    decreases rank(p),
{
    if !p.special && valid_ptr(t, p) {
        let n = node_at(t, p);
        assert(support(t, p).contains(p.var));
        if below(n.low, p.var) {
            assert forall|x: u64| #[trigger] support(t, n.low).contains(x) implies a(x) == b(x) by {
                assert(support(t, p).contains(x));
            }
            lemma_eval_support(t, n.low, a, b);
        }
        if below(n.high, p.var) {
            assert forall|x: u64| #[trigger] support(t, n.high).contains(x) implies a(x) == b(
                x,
            ) by {
                assert(support(t, p).contains(x));
            }
            lemma_eval_support(t, n.high, a, b);
        }
    }
}

/// Setting a variable outside the support does not change the value.
pub proof fn lemma_eval_assign_outside(t: NodeTable, p: BddPtr, a: Assignment, v: u64, b: bool)
    requires
        !support(t, p).contains(v),
    ensures
        eval(t, p, assign(a, v, b)) == eval(t, p, a),
{
    lemma_eval_support(t, p, assign(a, v, b), a);
}

/// Complementing a valid pointer complements its function and keeps its
/// support.
pub proof fn lemma_neg(t: NodeTable, p: BddPtr)
    requires
        valid_ptr(t, p),
    ensures
        valid_ptr(t, p.neg_spec()),
        forall|a: Assignment| #[trigger] eval(t, p.neg_spec(), a) == !eval(t, p, a),
        support(t, p.neg_spec()) == support(t, p),
        rank(p.neg_spec()) == rank(p),
{
    assert forall|a: Assignment| #[trigger] eval(t, p.neg_spec(), a) == !eval(t, p, a) by {
    }
}

/// How a node pointer evaluates, one level down.
pub proof fn lemma_eval_unfold(t: NodeTable, p: BddPtr, a: Assignment)
    requires
        table_wf(t),
        valid_ptr(t, p),
        !p.special,
    ensures
        eval(t, p, a) == ((if a(p.var) {
            eval(t, node_at(t, p).high, a)
        } else {
            eval(t, node_at(t, p).low, a)
        }) != p.compl),
        support(t, p) == support(t, node_at(t, p).low).union(
            support(t, node_at(t, p).high),
        ).insert(p.var),
{
    lemma_node_children(t, p);
}

/// A pointer ranked below a node is a constant or lies after the node.
pub proof fn lemma_rank_below(x: BddPtr, p: BddPtr)
    requires
        !p.special,
        rank(x) < rank(p),
    ensures
        below(x, p.var),
{
}

/// The larger of three ranks.
pub open spec fn max_rank(f: BddPtr, g: BddPtr, h: BddPtr) -> int {
    let m = if rank(f) >= rank(g) {
        rank(f)
    } else {
        rank(g)
    };
    if m >= rank(h) {
        m
    } else {
        rank(h)
    }
}

/// `r` in table `t2` denotes the function of `p` in table `t` with variable
/// `v` fixed to `b`.
#[verifier::opaque]
pub open spec fn restricts(t2: NodeTable, r: BddPtr, t: NodeTable, p: BddPtr, v: u64, b: bool) -> bool {
    forall|a: Assignment| #[trigger] eval(t2, r, a) == eval(t, p, assign(a, v, b))
}

/// One instance of `restricts`.
pub proof fn lemma_restricts_at(
    t2: NodeTable,
    r: BddPtr,
    t: NodeTable,
    p: BddPtr,
    v: u64,
    b: bool,
    a: Assignment,
)
    requires
        restricts(t2, r, t, p, v, b),
    ensures
        eval(t2, r, a) == eval(t, p, assign(a, v, b)),
{
    reveal(restricts);
}

/// Shannon expansion: a function is its positive cofactor where `v` holds
/// and its negative cofactor elsewhere.
pub proof fn lemma_shannon(t: NodeTable, f: BddPtr, f1: BddPtr, f0: BddPtr, v: u64, a: Assignment)
    requires
        restricts(t, f1, t, f, v, true),
        restricts(t, f0, t, f, v, false),
    ensures
        eval(t, f, a) == if a(v) {
            eval(t, f1, a)
        } else {
            eval(t, f0, a)
        },
{
    assert(assign(a, v, a(v)) =~= a);
    lemma_restricts_at(t, f1, t, f, v, true, a);
    lemma_restricts_at(t, f0, t, f, v, false, a);
}

/// Replacing each of three pointers by one that lies after `v`, where `v`
/// is the first variable that any of them tests, lowers the largest rank.
pub proof fn lemma_max_rank_drops(
    f: BddPtr,
    g: BddPtr,
    h: BddPtr,
    v: u64,
    f2: BddPtr,
    g2: BddPtr,
    h2: BddPtr,
)
    requires
        !f.special && f.var == v || !g.special && g.var == v || !h.special && h.var == v,
        below(f2, v),
        below(g2, v),
        below(h2, v),
    ensures
        max_rank(f2, g2, h2) < max_rank(f, g, h),
{
    let rv = 0x1_0000_0000_0000_0000int - v as int;
    assert(rank(f2) < rv);
    assert(rank(g2) < rv);
    assert(rank(h2) < rv);
    assert(max_rank(f, g, h) >= rv);
}

/// The function of `if f then g else h`.
pub open spec fn ite_sem(t: NodeTable, f: BddPtr, g: BddPtr, h: BddPtr, a: Assignment) -> bool {
    if eval(t, f, a) {
        eval(t, g, a)
    } else {
        eval(t, h, a)
    }
}

/// `r` in table `t2` denotes `if f then g else h` of table `t`.
#[verifier::opaque]
pub open spec fn ite_result(t2: NodeTable, r: BddPtr, t: NodeTable, f: BddPtr, g: BddPtr, h: BddPtr) -> bool {
    forall|a: Assignment| #[trigger] eval(t2, r, a) == ite_sem(t, f, g, h, a)
}

pub proof fn lemma_ite_result_at(
    t2: NodeTable,
    r: BddPtr,
    t: NodeTable,
    f: BddPtr,
    g: BddPtr,
    h: BddPtr,
    a: Assignment,
)
    requires
        ite_result(t2, r, t, f, g, h),
    ensures
        eval(t2, r, a) == ite_sem(t, f, g, h, a),
{
    reveal(ite_result);
}

/// `r` in table `t2` denotes `if v then high else low` of table `t`.
#[verifier::opaque]
pub open spec fn node_result(t2: NodeTable, r: BddPtr, t: NodeTable, v: u64, low: BddPtr, high: BddPtr) -> bool {
    forall|a: Assignment| #[trigger]
        eval(t2, r, a) == if a(v) {
            eval(t, high, a)
        } else {
            eval(t, low, a)
        }
}

pub proof fn lemma_node_result_at(
    t2: NodeTable,
    r: BddPtr,
    t: NodeTable,
    v: u64,
    low: BddPtr,
    high: BddPtr,
    a: Assignment,
)
    requires
        node_result(t2, r, t, v, low, high),
    ensures
        eval(t2, r, a) == if a(v) {
            eval(t, high, a)
        } else {
            eval(t, low, a)
        },
{
    reveal(node_result);
}

/// The recursive step of if-then-else is correct: combining the results for
/// the two cofactors at the top variable gives the whole function.
pub proof fn lemma_ite_step(
    t0: NodeTable,
    t1: NodeTable,
    t2: NodeTable,
    t3: NodeTable,
    f: BddPtr,
    g: BddPtr,
    h: BddPtr,
    v: u64,
    c1: (BddPtr, BddPtr, BddPtr),
    c0: (BddPtr, BddPtr, BddPtr),
    t: BddPtr,
    e: BddPtr,
    r: BddPtr,
)
    requires
        table_wf(t0),
        table_wf(t1),
        extends(t0, t1),
        extends(t1, t2),
        restricts(t0, c1.0, t0, f, v, true),
        restricts(t0, c1.1, t0, g, v, true),
        restricts(t0, c1.2, t0, h, v, true),
        restricts(t0, c0.0, t0, f, v, false),
        restricts(t0, c0.1, t0, g, v, false),
        restricts(t0, c0.2, t0, h, v, false),
        valid_ptr(t0, c0.0),
        valid_ptr(t0, c0.1),
        valid_ptr(t0, c0.2),
        valid_ptr(t1, t),
        ite_result(t1, t, t0, c1.0, c1.1, c1.2),
        ite_result(t2, e, t1, c0.0, c0.1, c0.2),
        node_result(t3, r, t2, v, e, t),
    ensures
        ite_result(t3, r, t0, f, g, h),
{
    reveal(ite_result);
    lemma_eval_extends(t0, t1, c0.0);
    lemma_eval_extends(t0, t1, c0.1);
    lemma_eval_extends(t0, t1, c0.2);
    lemma_eval_extends(t1, t2, t);
    assert forall|a: Assignment| #[trigger] eval(t3, r, a) == ite_sem(t0, f, g, h, a) by {
        lemma_shannon(t0, f, c1.0, c0.0, v, a);
        lemma_shannon(t0, g, c1.1, c0.1, v, a);
        lemma_shannon(t0, h, c1.2, c0.2, v, a);
        lemma_node_result_at(t3, r, t2, v, e, t, a);
        if a(v) {
            assert(eval(t2, t, a) == eval(t1, t, a));
            assert(eval(t1, t, a) == ite_sem(t0, c1.0, c1.1, c1.2, a));
        } else {
            assert(eval(t2, e, a) == ite_sem(t1, c0.0, c0.1, c0.2, a));
            assert(ite_sem(t1, c0.0, c0.1, c0.2, a) == ite_sem(t0, c0.0, c0.1, c0.2, a));
        }
    }
}

/// A node depends on the variable it tests: some assignment changes value
/// when only that variable is flipped.
pub proof fn lemma_depends(t: NodeTable, p: BddPtr)
    requires
        table_wf(t),
        valid_ptr(t, p),
        !p.special,
    ensures
        exists|a: Assignment|
            eval(t, p, assign(a, p.var, true)) != eval(t, p, assign(a, p.var, false)),
    decreases rank(p), 0int,
{
    lemma_node_children(t, p);
    let n = node_at(t, p);
    if forall|a: Assignment| #[trigger] eval(t, n.low, a) == eval(t, n.high, a) {
        lemma_canonical(t, n.low, n.high);
    }
    let a0 = choose|a: Assignment| eval(t, n.low, a) != eval(t, n.high, a);
    lemma_support_after(t, n.low);
    lemma_support_after(t, n.high);
    lemma_eval_assign_outside(t, n.low, a0, p.var, false);
    lemma_eval_assign_outside(t, n.high, a0, p.var, true);
    lemma_eval_unfold(t, p, assign(a0, p.var, true));
    lemma_eval_unfold(t, p, assign(a0, p.var, false));
}

/// The function of `p` depends on variable `x`: some assignment changes
/// value when only `x` is flipped.
pub open spec fn depends_on(t: NodeTable, p: BddPtr, x: u64) -> bool {
    exists|a: Assignment| eval(t, p, assign(a, x, true)) != eval(t, p, assign(a, x, false))
}

/// In a well-formed table, the variables a pointer reaches are exactly the
/// variables its function depends on.
pub proof fn lemma_support_essential(t: NodeTable, p: BddPtr, x: u64)
    requires
        table_wf(t),
        valid_ptr(t, p),
    ensures
        support(t, p).contains(x) <==> depends_on(t, p, x),
    decreases rank(p),
{
    if !support(t, p).contains(x) {
        if depends_on(t, p, x) {
            let a = choose|a: Assignment| eval(t, p, assign(a, x, true)) != eval(t, p, assign(a, x, false));
            lemma_eval_assign_outside(t, p, a, x, true);
            lemma_eval_assign_outside(t, p, a, x, false);
        }
    } else {
        lemma_support_after(t, p);
        lemma_node_children(t, p);
        lemma_eval_unfold(t, p, |y: u64| true);
        if x == p.var {
            lemma_depends(t, p);
        } else {
            let n = node_at(t, p);
            let b = !support(t, n.low).contains(x);
            let c = if b {
                n.high
            } else {
                n.low
            };
            assert(support(t, c).contains(x));
            lemma_support_essential(t, c, x);
            lemma_support_after(t, c);
            let a0 = choose|a: Assignment| eval(t, c, assign(a, x, true)) != eval(t, c, assign(a, x, false));
            let a = assign(a0, p.var, b);
            assert forall|y: bool| eval(t, p, #[trigger] assign(a, x, y)) == (eval(t, c, assign(a0, x, y)) != p.compl) by {
                assert(assign(a, x, y) =~= assign(assign(a0, x, y), p.var, b));
                assert(!support(t, c).contains(p.var));
                lemma_eval_assign_outside(t, c, assign(a0, x, y), p.var, b);
                lemma_eval_unfold(t, p, assign(a, x, y));
            }
            assert(eval(t, p, assign(a, x, true)) != eval(t, p, assign(a, x, false)));
        }
    }
}

/// Conditioning on a variable gives two different pointers exactly when
/// the function depends on that variable: for the results `c1` (variable
/// set to true) and `c0` (set to false), both in a well-formed table.
pub proof fn lemma_conditions_differ(t: NodeTable, t2: NodeTable, p: BddPtr, x: u64, c1: BddPtr, c0: BddPtr)
    requires
        table_wf(t),
        valid_ptr(t, p),
        table_wf(t2),
        valid_ptr(t2, c1),
        valid_ptr(t2, c0),
        restricts(t2, c1, t, p, x, true),
        restricts(t2, c0, t, p, x, false),
    ensures
        (c1 != c0) <==> support(t, p).contains(x),
        (c1 != c0) <==> depends_on(t, p, x),
{
    lemma_support_essential(t, p, x);
    if depends_on(t, p, x) {
        let a = choose|a: Assignment| eval(t, p, assign(a, x, true)) != eval(t, p, assign(a, x, false));
        lemma_restricts_at(t2, c1, t, p, x, true, a);
        lemma_restricts_at(t2, c0, t, p, x, false, a);
    } else {
        assert forall|a: Assignment| #[trigger] eval(t2, c1, a) == eval(t2, c0, a) by {
            lemma_restricts_at(t2, c1, t, p, x, true, a);
            lemma_restricts_at(t2, c0, t, p, x, false, a);
        }
        lemma_canonical(t2, c1, c0);
    }
}

/// Canonicity: in a well-formed table, two valid pointers that denote the
/// same Boolean function are the same pointer.
pub proof fn lemma_canonical(t: NodeTable, p: BddPtr, q: BddPtr)
    requires
        table_wf(t),
        valid_ptr(t, p),
        valid_ptr(t, q),
        forall|a: Assignment| #[trigger] eval(t, p, a) == eval(t, q, a),
    ensures
        p == q,
    decreases (if rank(p) >= rank(q) {
        rank(p)
    } else {
        rank(q)
    }), 1int,
{
    if p.special && q.special {
        assert(eval(t, p, |x: u64| true) == eval(t, q, |x: u64| true));
    } else if rank(p) != rank(q) {
        let (x, y) = if rank(p) > rank(q) {
            (p, q)
        } else {
            (q, p)
        };
        lemma_depends(t, x);
        let a = choose|a: Assignment|
            eval(t, x, assign(a, x.var, true)) != eval(t, x, assign(a, x.var, false));
        lemma_support_after(t, y);
        lemma_eval_assign_outside(t, y, a, x.var, true);
        lemma_eval_assign_outside(t, y, a, x.var, false);
        assert(eval(t, p, assign(a, x.var, true)) == eval(t, q, assign(a, x.var, true)));
        assert(eval(t, p, assign(a, x.var, false)) == eval(t, q, assign(a, x.var, false)));
    } else {
        let v = p.var;
        assert(q.var == v);
        lemma_node_children(t, p);
        lemma_node_children(t, q);
        let np = node_at(t, p);
        let nq = node_at(t, q);
        lemma_neg(t, np.high);
        lemma_neg(t, nq.high);
        lemma_neg(t, np.low);
        lemma_neg(t, nq.low);
        lemma_support_after(t, np.high);
        lemma_support_after(t, nq.high);
        lemma_support_after(t, np.low);
        lemma_support_after(t, nq.low);
        let hp = cond_neg(np.high, p.compl);
        let hq = cond_neg(nq.high, q.compl);
        let lp = cond_neg(np.low, p.compl);
        let lq = cond_neg(nq.low, q.compl);
        assert forall|a: Assignment| #[trigger] eval(t, hp, a) == eval(t, hq, a) by {
            let b = assign(a, v, true);
            lemma_eval_unfold(t, p, b);
            lemma_eval_unfold(t, q, b);
            lemma_eval_assign_outside(t, np.high, a, v, true);
            lemma_eval_assign_outside(t, nq.high, a, v, true);
            assert(eval(t, p, b) == eval(t, q, b));
        }
        assert forall|a: Assignment| #[trigger] eval(t, lp, a) == eval(t, lq, a) by {
            let b = assign(a, v, false);
            lemma_eval_unfold(t, p, b);
            lemma_eval_unfold(t, q, b);
            lemma_eval_assign_outside(t, np.low, a, v, false);
            lemma_eval_assign_outside(t, nq.low, a, v, false);
            assert(eval(t, p, b) == eval(t, q, b));
        }
        lemma_canonical(t, hp, hq);
        lemma_canonical(t, lp, lq);
        assert(p.compl == q.compl);
        assert(np.high == nq.high);
        assert(np.low == nq.low);
        assert(np == nq);
        reveal(table_wf);
        assert(p.idx == q.idx);
    }
}

/// The node at `(x, k)` is reachable from `p` (`p`'s own node included).
pub open spec fn reaches(t: NodeTable, p: BddPtr, x: u64, k: u64) -> bool
    decreases rank(p),
{
    if p.special || !valid_ptr(t, p) {
        false
    } else if p.var == x && p.idx == k {
        true
    } else {
        let n = node_at(t, p);
        (below(n.low, p.var) && reaches(t, n.low, x, k)) || (below(n.high, p.var) && reaches(
            t,
            n.high,
            x,
            k,
        ))
    }
}

/// `c` is a regular or complemented edge to the node at `(x, k)`.
pub open spec fn points_to(c: BddPtr, x: u64, k: u64) -> bool {
    !c.special && c.var == x && c.idx == k
}

/// A variable is in the support exactly when some reachable node tests it.
pub proof fn lemma_support_reaches(t: NodeTable, p: BddPtr, x: u64)
    ensures
        support(t, p).contains(x) <==> exists|k: u64| reaches(t, p, x, k),
    decreases rank(p),
{
    if !p.special && valid_ptr(t, p) {
        let n = node_at(t, p);
        if below(n.low, p.var) {
            lemma_support_reaches(t, n.low, x);
        }
        if below(n.high, p.var) {
            lemma_support_reaches(t, n.high, x);
        }
        if x == p.var {
            assert(reaches(t, p, x, p.idx));
        }
        if exists|k: u64| reaches(t, p, x, k) {
            let k = choose|k: u64| reaches(t, p, x, k);
            if below(n.low, p.var) && reaches(t, n.low, x, k) {
            } else if below(n.high, p.var) && reaches(t, n.high, x, k) {
            }
        }
        if support(t, n.low).contains(x) && below(n.low, p.var) {
            let k = choose|k: u64| reaches(t, n.low, x, k);
            assert(reaches(t, p, x, k));
        }
        if support(t, n.high).contains(x) && below(n.high, p.var) {
            let k = choose|k: u64| reaches(t, n.high, x, k);
            assert(reaches(t, p, x, k));
        }
    }
}

/// Reachable nodes exist and lie at or after the starting node.
pub proof fn lemma_reaches_valid(t: NodeTable, p: BddPtr, x: u64, k: u64)
    requires
        table_wf(t),
        reaches(t, p, x, k),
    ensures
        !p.special,
        p.var <= x,
        x < t.len(),
        k < t[x as int].len(),
    decreases rank(p),
{
    if !(p.var == x && p.idx == k) {
        lemma_node_children(t, p);
        let n = node_at(t, p);
        if below(n.low, p.var) && reaches(t, n.low, x, k) {
            lemma_reaches_valid(t, n.low, x, k);
        } else {
            lemma_reaches_valid(t, n.high, x, k);
        }
    }
}

/// Reachability is closed under taking children.
pub proof fn lemma_reaches_child(t: NodeTable, p: BddPtr, y: u64, j: u64, c: BddPtr)
    requires
        table_wf(t),
        reaches(t, p, y, j),
        c == t[y as int][j as int].low || c == t[y as int][j as int].high,
        !c.special,
    ensures
        reaches(t, p, c.var, c.idx),
    decreases rank(p),
{
    lemma_reaches_valid(t, p, y, j);
    lemma_node_children(t, p);
    let n = node_at(t, p);
    if p.var == y && p.idx == j {
        assert(reaches(t, c, c.var, c.idx));
        assert(c.var != p.var);
    } else if below(n.low, p.var) && reaches(t, n.low, y, j) {
        lemma_reaches_child(t, n.low, y, j, c);
    } else {
        lemma_reaches_child(t, n.high, y, j, c);
    }
}

/// Every reachable node other than the start has a reachable parent.
pub proof fn lemma_reaches_parent(t: NodeTable, p: BddPtr, x: u64, k: u64)
    requires
        table_wf(t),
        reaches(t, p, x, k),
        !(p.var == x && p.idx == k),
    ensures
        exists|y: u64, j: u64|
            #![trigger reaches(t, p, y, j)]
            reaches(t, p, y, j) && y < x && (points_to(t[y as int][j as int].low, x, k)
                || points_to(t[y as int][j as int].high, x, k)),
    decreases rank(p),
{
    lemma_node_children(t, p);
    let n = node_at(t, p);
    let c = if below(n.low, p.var) && reaches(t, n.low, x, k) {
        n.low
    } else {
        n.high
    };
    assert(reaches(t, c, x, k));
    lemma_reaches_valid(t, c, x, k);
    if c.var == x && c.idx == k {
        assert(reaches(t, p, p.var, p.idx));
    } else {
        lemma_reaches_parent(t, c, x, k);
        let (y, j) = choose|y: u64, j: u64|
            #![trigger reaches(t, c, y, j)]
            reaches(t, c, y, j) && y < x && (points_to(t[y as int][j as int].low, x, k)
                || points_to(t[y as int][j as int].high, x, k));
        assert(reaches(t, p, y, j));
    }
}

/// Two pointers of a builder are equal exactly when they denote the same
/// Boolean function, so `eq` decides equivalence.
pub proof fn lemma_equal_iff_equivalent(b: RobddBuilder, p: BddPtr, q: BddPtr)
    requires
        b.wf(),
        valid_ptr(b@, p),
        valid_ptr(b@, q),
    ensures
        (p == q) <==> (forall|a: Assignment| #[trigger] eval(b@, p, a) == eval(b@, q, a)),
{
    if forall|a: Assignment| #[trigger] eval(b@, p, a) == eval(b@, q, a) {
        lemma_canonical(b@, p, q);
    }
}

/// Negating twice gives back the same pointer.
pub proof fn lemma_negate_twice(p: BddPtr)
    ensures
        p.neg_spec().neg_spec() == p,
{
}

/// A cached if-then-else: its three arguments and its result.
pub type IteEntry = (BddPtr, BddPtr, BddPtr, BddPtr);

/// A cached if-then-else is right for table `t`: all four pointers are
/// valid, and the result is what `ite` promises for the arguments.
pub open spec fn entry_ok(t: NodeTable, e: IteEntry) -> bool {
    &&& valid_ptr(t, e.0)
    &&& valid_ptr(t, e.1)
    &&& valid_ptr(t, e.2)
    &&& valid_ptr(t, e.3)
    &&& rank(e.3) <= max_rank(e.0, e.1, e.2)
    &&& ite_result(t, e.3, t, e.0, e.1, e.2)
    &&& support(t, e.3).subset_of(support(t, e.0).union(support(t, e.1)).union(support(t, e.2)))
}

/// Every entry of every bucket of the cache is right for `t`.
#[verifier::opaque]
pub open spec fn cache_entries_ok(t: NodeTable, m: Map<u64, Vec<IteEntry>>) -> bool {
    forall|k: u64, j: int|
        #![trigger m[k]@[j]]
        m.dom().contains(k) && 0 <= j < m[k]@.len() ==> entry_ok(t, m[k]@[j])
}

/// Growing the table keeps every cached result right.
pub proof fn lemma_cache_extends(t: NodeTable, t2: NodeTable, m: Map<u64, Vec<IteEntry>>)
    requires
        table_wf(t),
        extends(t, t2),
        cache_entries_ok(t, m),
    ensures
        cache_entries_ok(t2, m),
{
    reveal(cache_entries_ok);
    assert forall|k: u64, j: int| m.dom().contains(k) && 0 <= j < m[k]@.len() implies entry_ok(
        t2,
        #[trigger] m[k]@[j],
    ) by {
        let e = m[k]@[j];
        assert(entry_ok(t, e));
        lemma_eval_extends(t, t2, e.0);
        lemma_eval_extends(t, t2, e.1);
        lemma_eval_extends(t, t2, e.2);
        lemma_eval_extends(t, t2, e.3);
        reveal(ite_result);
        assert forall|a: Assignment| #[trigger] eval(t2, e.3, a) == ite_sem(t2, e.0, e.1, e.2, a) by {
            assert(eval(t, e.3, a) == ite_sem(t, e.0, e.1, e.2, a));
        }
    }
}

/// A result that `ite` computed while growing `t` into `t2` is right for
/// `t2`.
pub proof fn lemma_entry_after(t: NodeTable, t2: NodeTable, e: IteEntry)
    requires
        table_wf(t),
        extends(t, t2),
        valid_ptr(t, e.0),
        valid_ptr(t, e.1),
        valid_ptr(t, e.2),
        valid_ptr(t2, e.3),
        rank(e.3) <= max_rank(e.0, e.1, e.2),
        ite_result(t2, e.3, t, e.0, e.1, e.2),
        support(t2, e.3).subset_of(support(t, e.0).union(support(t, e.1)).union(support(t, e.2))),
    ensures
        entry_ok(t2, e),
{
    lemma_eval_extends(t, t2, e.0);
    lemma_eval_extends(t, t2, e.1);
    lemma_eval_extends(t, t2, e.2);
    reveal(ite_result);
    assert forall|a: Assignment| #[trigger] eval(t2, e.3, a) == ite_sem(t2, e.0, e.1, e.2, a) by {
        assert(eval(t2, e.3, a) == ite_sem(t, e.0, e.1, e.2, a));
    }
}

/// One step of the hash: `acc * 1099511628211 + x`, modulo 2^64.
pub open spec fn mix_spec(acc: u64, x: u64) -> u64 {
    ((acc * 1099511628211 + x) % 0x1_0000_0000_0000_0000) as u64
}

/// The complement flag as bit 0 and the constant flag as bit 1.
pub open spec fn flags_spec(p: BddPtr) -> u64 {
    ((if p.compl {
        1int
    } else {
        0int
    }) + (if p.special {
        2int
    } else {
        0int
    })) as u64
}

/// The hash of an if-then-else triple: the flags of the three pointers,
/// then each variable and index mixed in.
pub open spec fn ite_key_spec(f: BddPtr, g: BddPtr, h: BddPtr) -> u64 {
    let k0 = (flags_spec(f) + 4 * flags_spec(g) + 16 * flags_spec(h)) as u64;
    mix_spec(
        mix_spec(mix_spec(mix_spec(mix_spec(mix_spec(k0, f.var), f.idx), g.var), g.idx), h.var),
        h.idx,
    )
}

/// One step of the hash of an if-then-else triple.
fn mix(acc: u64, x: u64) -> (r: u64)
    ensures
        r == mix_spec(acc, x),
{
    let m = acc.wrapping_mul(1099511628211);
    let r = m.wrapping_add(x);
    proof {
        let big: int = 0x1_0000_0000_0000_0000;
        assert(m as int == (acc * 1099511628211) % big);
        vstd::arithmetic::div_mod::lemma_add_mod_noop(acc * 1099511628211, x as int, big);
        vstd::arithmetic::div_mod::lemma_small_mod(x as nat, big as nat);
        if m + x > u64::MAX {
            vstd::arithmetic::div_mod::lemma_mod_add_multiples_vanish(m + x - big, big);
            vstd::arithmetic::div_mod::lemma_small_mod((m + x - big) as nat, big as nat);
        } else {
            vstd::arithmetic::div_mod::lemma_small_mod((m + x) as nat, big as nat);
        }
    }
    r
}

/// The complement and constant flags of a pointer as a number.
fn flags(p: BddPtr) -> (r: u64)
    ensures
        r == flags_spec(p),
        r < 4,
{
    (if p.compl {
        1
    } else {
        0
    }) + (if p.special {
        2
    } else {
        0
    })
}

/// The bucket of the cache that the triple `(f, g, h)` goes in.
fn ite_key(f: BddPtr, g: BddPtr, h: BddPtr) -> (r: u64)
    ensures
        r == ite_key_spec(f, g, h),
{
    let mut k: u64 = flags(f) + 4 * flags(g) + 16 * flags(h);
    k = mix(k, f.var);
    k = mix(k, f.idx);
    k = mix(k, g.var);
    k = mix(k, g.idx);
    k = mix(k, h.var);
    mix(k, h.idx)
}

/// The result of the last entry of `b` whose arguments are `(f, g, h)`.
pub open spec fn find_last(b: Seq<IteEntry>, f: BddPtr, g: BddPtr, h: BddPtr) -> Option<BddPtr>
    decreases b.len(),
{
    if b.len() == 0 {
        None
    } else if b.last().0 == f && b.last().1 == g && b.last().2 == h {
        Some(b.last().3)
    } else {
        find_last(b.drop_last(), f, g, h)
    }
}

/// The bucket `k` of a cache, empty where there is none.
pub open spec fn bucket_of(m: Map<u64, Seq<IteEntry>>, k: u64) -> Seq<IteEntry> {
    if m.dom().contains(k) {
        m[k]
    } else {
        Seq::empty()
    }
}

/// The builder: one subtable of nodes per variable, and a cache of the
/// results of `ite`.
pub struct RobddBuilder {
    table: Vec<Vec<BddNode>>,
    ite_cache: HashMap<u64, Vec<IteEntry>>,
}

impl View for RobddBuilder {
    type V = NodeTable;

    closed spec fn view(&self) -> NodeTable {
        self.table@.map_values(|r: Vec<BddNode>| r@)
    }
}

impl RobddBuilder {
    /// The cache: for each bucket, its entries in the order they came.
    pub closed spec fn cache_view(&self) -> Map<u64, Seq<IteEntry>> {
        self.ite_cache@.map_values(|b: Vec<IteEntry>| b@)
    }

    /// Every cached if-then-else result is right for the current table.
    pub closed spec fn cache_ok(&self) -> bool {
        cache_entries_ok(self@, self.ite_cache@)
    }

    /// The builder's table is well formed and its cache is right.
    pub open spec fn wf(&self) -> bool {
        table_wf(self@) && self.cache_ok()
    }

    /// The number of variables of the builder.
    pub open spec fn num_vars_spec(&self) -> nat {
        self@.len()
    }

    /// A builder for `num_vars` variables, ordered by label, with no nodes.
    pub fn new(num_vars: usize) -> (r: RobddBuilder)
        ensures
            r.wf(),
            r@.len() == num_vars,
            forall|v: int| 0 <= v < num_vars ==> #[trigger] r@[v].len() == 0,
    {
        let mut table: Vec<Vec<BddNode>> = Vec::new();
        let mut i: usize = 0;
        while i < num_vars
            invariant
                i <= num_vars,
                table@.len() == i,
                forall|v: int| 0 <= v < i ==> #[trigger] table@[v]@.len() == 0,
            decreases num_vars - i,
        {
            table.push(Vec::new());
            i = i + 1;
        }
        let r = RobddBuilder { table, ite_cache: HashMap::new() };
        assert(r@.len() == num_vars);
        proof {
            reveal(table_wf);
            reveal(cache_entries_ok);
        }
        r
    }

    /// A builder for the variables `0..num_vars` in their natural order.
    pub fn new_default_order(num_vars: usize) -> (r: RobddBuilder)
        ensures
            r.wf(),
            r@.len() == num_vars,
            forall|v: int| 0 <= v < num_vars ==> #[trigger] r@[v].len() == 0,
    {
        RobddBuilder::new(num_vars)
    }

    pub fn num_vars(&self) -> (r: usize)
        ensures
            r == self@.len(),
    {
        self.table.len()
    }

    /// Adds a variable after all existing ones and returns its label.
    pub fn new_label(&mut self) -> (r: VarLabel)
        requires
            old(self).wf(),
            old(self)@.len() < u64::MAX,
        ensures
            final(self).wf(),
            extends(old(self)@, final(self)@),
            final(self)@.len() == old(self)@.len() + 1,
            final(self)@[old(self)@.len() as int].len() == 0,
            r.0 == old(self)@.len(),
    {
        let n = self.table.len();
        self.table.push(Vec::new());
        let ghost t0 = old(self)@;
        let ghost t = self@;
        reveal(table_wf);
        reveal(extends);
        assert(t =~= t0.push(Seq::empty()));
        assert forall|v: int, i: int| 0 <= v < t.len() && 0 <= i < t[v].len() implies #[trigger] node_wf(
            t,
            v,
            i,
        ) by {
            assert(v < t0.len());
            assert(node_wf(t0, v, i));
            lemma_valid_extends(t0, t, t0[v][i].low);
            lemma_valid_extends(t0, t, t0[v][i].high);
        }
        assert forall|v: int, i: int, j: int|
            0 <= v < t.len() && 0 <= i < t[v].len() && 0 <= j < t[v].len() && i != j
                implies #[trigger] t[v][i] != #[trigger] t[v][j] by {
            assert(v < t0.len());
        }
        assert(extends(t0, t));
        proof {
            lemma_cache_extends(t0, t, self.ite_cache@);
        }
        VarLabel::new(n as u64)
    }

    /// Looks up the regular node `(v, low, high)`, adding it if it is new.
    fn get_or_insert(&mut self, v: u64, low: BddPtr, high: BddPtr) -> (r: BddPtr)
        requires
            old(self).wf(),
            v < old(self)@.len(),
            valid_ptr(old(self)@, low),
            valid_ptr(old(self)@, high),
            below(low, v),
            below(high, v),
            low != high,
            !high.compl,
        ensures
            final(self).wf(),
            extends(old(self)@, final(self)@),
            final(self)@.len() == old(self)@.len(),
            valid_ptr(final(self)@, r),
            !r.special && !r.compl && r.var == v,
            node_at(final(self)@, r) == (BddNode { low, high, var: VarLabel(v) }),
    {
        assert(v < self.table.len());
        let vu = v as usize;
        assert(vu as int == v as int);
        let n = BddNode { low: low, high: high, var: VarLabel(v) };
        let row_len = self.table[vu].len();
        let mut i: usize = 0;
        let mut found = false;
        while i < row_len && !found
            invariant
                self@ == old(self)@,
                self.wf(),
                vu < self.table@.len(),
                i <= row_len,
                vu == v,
                v < self@.len(),
                row_len == self@[v as int].len(),
                found ==> i < row_len && self@[v as int][i as int] == n,
                forall|j: int| 0 <= j < i ==> self@[v as int][j] != n,
            decreases row_len - i + (if found { 0int } else { 1int }),
        {
            if self.table[vu][i] == n {
                found = true;
            } else {
                i = i + 1;
            }
        }
        if found {
            proof {
                lemma_extends_refl(self@);
            }
            return BddPtr { compl: false, special: false, var: v, idx: i as u64 };
        }
        let ghost t0 = self@;
        self.table[vu].push(n);
        let ghost t = self@;
        reveal(table_wf);
        reveal(extends);
        assert(t =~= t0.update(v as int, t0[v as int].push(n)));
        assert(extends(t0, t));
        proof {
            lemma_cache_extends(t0, t, self.ite_cache@);
        }
        assert forall|x: int, j: int| 0 <= x < t.len() && 0 <= j < t[x].len() implies #[trigger] node_wf(
            t,
            x,
            j,
        ) by {
            if x == v && j == row_len {
                lemma_valid_extends(t0, t, low);
                lemma_valid_extends(t0, t, high);
            } else {
                assert(node_wf(t0, x, j));
                lemma_valid_extends(t0, t, t0[x][j].low);
                lemma_valid_extends(t0, t, t0[x][j].high);
            }
        }
        BddPtr { compl: false, special: false, var: v, idx: row_len as u64 }
    }

    /// The pointer for the function `if v then high else low`, where both
    /// children lie after `v`; reduces redundant tests and normalizes
    /// complement edges so that high edges are never complemented.
    pub fn mk(&mut self, v: u64, low: BddPtr, high: BddPtr) -> (r: BddPtr)
        requires
            old(self).wf(),
            v < old(self)@.len(),
            valid_ptr(old(self)@, low),
            valid_ptr(old(self)@, high),
            below(low, v),
            below(high, v),
        ensures
            final(self).wf(),
            extends(old(self)@, final(self)@),
            final(self)@.len() == old(self)@.len(),
            valid_ptr(final(self)@, r),
            below(r, v) || r.var == v,
            low != high ==> !r.special && r.var == v,
            rank(r) <= rank(BddPtr { compl: false, special: false, var: v, idx: 0 }),
            node_result(final(self)@, r, old(self)@, v, low, high),
            support(final(self)@, r).subset_of(
                support(old(self)@, low).union(support(old(self)@, high)).insert(v),
            ),
    {
        let ghost t0 = self@;
        proof {
            lemma_extends_refl(t0);
        }
        if low == high {
            proof {
                reveal(node_result);
            }
            return low;
        }
        let (l, h, c) = if high.compl {
            (low.neg(), high.neg(), true)
        } else {
            (low, high, false)
        };
        proof {
            lemma_neg(t0, low);
            lemma_neg(t0, high);
        }
        let p = self.get_or_insert(v, l, h);
        let ghost t = self@;
        let r = if c {
            p.neg()
        } else {
            p
        };
        proof {
            lemma_eval_extends(t0, t, l);
            lemma_eval_extends(t0, t, h);
            lemma_node_children(t, p);
            lemma_neg(t, p);
            assert(r == cond_neg(p, c));
            reveal(node_result);
            assert forall|a: Assignment| #[trigger]
                eval(t, r, a) == if a(v) {
                    eval(t0, high, a)
                } else {
                    eval(t0, low, a)
                } by {
                lemma_eval_unfold(t, p, a);
                if a(v) {
                    assert(eval(t, h, a) == eval(t0, h, a));
                    assert(eval(t0, h, a) == (eval(t0, high, a) != c));
                } else {
                    assert(eval(t, l, a) == eval(t0, l, a));
                    assert(eval(t0, l, a) == (eval(t0, low, a) != c));
                }
            }
            lemma_eval_unfold(t, p, |x: u64| true);
        }
        r
    }
    /// The node a non-constant pointer refers to.
    fn node(&self, p: BddPtr) -> (n: BddNode)
        requires
            valid_ptr(self@, p),
            !p.special,
        ensures
            n == node_at(self@, p),
    {
        assert(p.var < self.table.len());
        let row = &self.table[p.var as usize];
        assert(row@ == self@[p.var as int]);
        assert(p.idx < row.len());
        row[p.idx as usize]
    }

    /// The function `p` with variable `lbl` fixed to `val`.
    pub fn condition(&mut self, p: BddPtr, lbl: VarLabel, val: bool) -> (r: BddPtr)
        requires
            old(self).wf(),
            valid_ptr(old(self)@, p),
        ensures
            final(self).wf(),
            extends(old(self)@, final(self)@),
            final(self)@.len() == old(self)@.len(),
            valid_ptr(final(self)@, r),
            rank(r) <= rank(p),
            restricts(final(self)@, r, old(self)@, p, lbl.0, val),
            support(final(self)@, r).subset_of(support(old(self)@, p).remove(lbl.0)),
        decreases rank(p),
    {
        let ghost t0 = self@;
        proof {
            lemma_extends_refl(t0);
        }
        if p.special {
            proof {
                assert(restricts(t0, p, t0, p, lbl.0, val)) by {
                    reveal(restricts);
                }
            }
            return p;
        }
        proof {
            lemma_node_children(t0, p);
            lemma_support_after(t0, p);
        }
        let n = self.node(p);
        if p.var > lbl.0 {
            proof {
                assert(restricts(t0, p, t0, p, lbl.0, val)) by {
                    reveal(restricts);
                    assert forall|a: Assignment| #[trigger]
                        eval(t0, p, a) == eval(t0, p, assign(a, lbl.0, val)) by {
                        lemma_eval_assign_outside(t0, p, a, lbl.0, val);
                    }
                }
                assert(support(t0, p) =~= support(t0, p).remove(lbl.0));
            }
            return p;
        }
        if p.var == lbl.0 {
            let c = if val {
                n.high
            } else {
                n.low
            };
            let r = if p.compl {
                c.neg()
            } else {
                c
            };
            proof {
                lemma_neg(t0, c);
                lemma_support_after(t0, c);
                assert(r == cond_neg(c, p.compl));
                assert(restricts(t0, r, t0, p, lbl.0, val)) by {
                    reveal(restricts);
                    assert forall|a: Assignment| #[trigger]
                        eval(t0, r, a) == eval(t0, p, assign(a, lbl.0, val)) by {
                        lemma_eval_unfold(t0, p, assign(a, lbl.0, val));
                        lemma_eval_assign_outside(t0, c, a, lbl.0, val);
                    }
                }
            }
            return r;
        }
        let l = self.condition(n.low, lbl, val);
        let ghost t1 = self@;
        proof {
            lemma_eval_extends(t0, t1, n.high);
        }
        let h = self.condition(n.high, lbl, val);
        let ghost t2 = self@;
        proof {
            lemma_eval_extends(t1, t2, l);
            lemma_rank_below(l, p);
            lemma_rank_below(h, p);
            lemma_extends_trans(t0, t1, t2);
            lemma_valid_extends(t0, t2, p);
        }
        let m = self.mk(p.var, l, h);
        let ghost t3 = self@;
        let r = if p.compl {
            m.neg()
        } else {
            m
        };
        proof {
            lemma_extends_trans(t0, t2, t3);
            lemma_neg(t3, m);
            assert(r == cond_neg(m, p.compl));
            assert(restricts(t3, r, t0, p, lbl.0, val)) by {
                reveal(restricts);
                assert forall|a: Assignment| #[trigger]
                    eval(t3, r, a) == eval(t0, p, assign(a, lbl.0, val)) by {
                    lemma_eval_unfold(t0, p, assign(a, lbl.0, val));
                    lemma_node_result_at(t3, m, t2, p.var, l, h, a);
                    assert(eval(t2, l, a) == eval(t1, l, a));
                    lemma_restricts_at(t1, l, t0, n.low, lbl.0, val, a);
                    lemma_restricts_at(t2, h, t1, n.high, lbl.0, val, a);
                    assert(eval(t1, n.high, assign(a, lbl.0, val)) == eval(
                        t0,
                        n.high,
                        assign(a, lbl.0, val),
                    ));
                }
            }
            lemma_eval_unfold(t0, p, |x: u64| true);
            assert forall|x: u64| #[trigger] support(t3, r).contains(x) implies support(
                t0,
                p,
            ).remove(lbl.0).contains(x) by {
                assert(support(t3, m).contains(x));
                if support(t2, l).contains(x) {
                    assert(support(t1, l).contains(x));
                }
            }
        }
        r
    }

    /// The cofactor of `p` for `v = b`, where `p` does not test any variable
    /// before `v`.
    fn cofactor(&self, p: BddPtr, v: u64, b: bool) -> (r: BddPtr)
        requires
            self.wf(),
            valid_ptr(self@, p),
            below(p, v) || p.var == v,
        ensures
            valid_ptr(self@, r),
            below(r, v),
            rank(r) <= rank(p),
            restricts(self@, r, self@, p, v, b),
            support(self@, r).subset_of(support(self@, p)),
    {
        let ghost t = self@;
        if !p.special && p.var == v {
            proof {
                lemma_node_children(t, p);
            }
            let n = self.node(p);
            let c = if b {
                n.high
            } else {
                n.low
            };
            let r = if p.compl {
                c.neg()
            } else {
                c
            };
            proof {
                lemma_neg(t, c);
                lemma_support_after(t, c);
                assert(r == cond_neg(c, p.compl));
                assert(restricts(t, r, t, p, v, b)) by {
                    reveal(restricts);
                    assert forall|a: Assignment| #[trigger]
                        eval(t, r, a) == eval(t, p, assign(a, v, b)) by {
                        lemma_eval_unfold(t, p, assign(a, v, b));
                        lemma_eval_assign_outside(t, c, a, v, b);
                    }
                }
                lemma_eval_unfold(t, p, |x: u64| true);
            }
            r
        } else {
            proof {
                lemma_support_after(t, p);
                assert(restricts(t, p, t, p, v, b)) by {
                    reveal(restricts);
                    assert forall|a: Assignment| #[trigger]
                        eval(t, p, a) == eval(t, p, assign(a, v, b)) by {
                        lemma_eval_assign_outside(t, p, a, v, b);
                    }
                }
            }
            p
        }
    }

    /// The cached result of `ite(f, g, h)`, if the bucket `key` holds one.
    fn cache_lookup(&self, key: u64, f: BddPtr, g: BddPtr, h: BddPtr) -> (r: Option<BddPtr>)
        requires
            self.wf(),
        ensures
            r == find_last(bucket_of(self.cache_view(), key), f, g, h),
            r matches Some(c) ==> entry_ok(self@, (f, g, h, c)),
    {
        reveal(cache_entries_ok);
        let mut cached: Option<BddPtr> = None;
        match self.ite_cache.get(&key) {
            Some(bucket) => {
                let mut j: usize = 0;
                while j < bucket.len()
                    invariant
                        j <= bucket@.len(),
                        self.ite_cache@.contains_key(key),
                        *bucket == self.ite_cache@[key],
                        cache_entries_ok(self@, self.ite_cache@),
                        cached matches Some(c) ==> entry_ok(self@, (f, g, h, c)),
                        cached == find_last(bucket@.take(j as int), f, g, h),
                    decreases bucket@.len() - j,
                {
                    let e = bucket[j];
                    assert(bucket@.take(j + 1).drop_last() =~= bucket@.take(j as int));
                    proof {
                        reveal(cache_entries_ok);
                    }
                    assert(entry_ok(self@, self.ite_cache@[key]@[j as int]));
                    if e.0 == f && e.1 == g && e.2 == h {
                        cached = Some(e.3);
                    }
                    j = j + 1;
                }
                assert(bucket@.take(j as int) =~= bucket@);
                assert(self.cache_view()[key] == bucket@);
            },
            None => {
                assert(!self.cache_view().dom().contains(key));
            },
        }
        cached
    }

    /// Records a right result in the bucket `key`.
    fn cache_insert(&mut self, key: u64, e: IteEntry)
        requires
            old(self).wf(),
            entry_ok(old(self)@, e),
        ensures
            final(self).wf(),
            final(self)@ == old(self)@,
            final(self).cache_view() == old(self).cache_view().insert(
                key,
                bucket_of(old(self).cache_view(), key).push(e),
            ),
    {
        reveal(cache_entries_ok);
        let ghost m0 = self.ite_cache@;
        let mut bucket = match self.ite_cache.remove(&key) {
            Some(b) => b,
            None => Vec::new(),
        };
        let ghost b0 = bucket@;
        bucket.push(e);
        self.ite_cache.insert(key, bucket);
        proof {
            let t = self@;
            let m = self.ite_cache@;
            assert forall|k: u64, j: int| m.dom().contains(k) && 0 <= j < m[k]@.len() implies entry_ok(
                t,
                #[trigger] m[k]@[j],
            ) by {
                if k == key {
                    if j < b0.len() {
                        assert(m[k]@[j] == m0[k]@[j]);
                    }
                } else {
                    assert(m[k] == m0[k]);
                }
            }
            let v0 = m0.map_values(|b: Vec<IteEntry>| b@);
            assert(b0 == bucket_of(v0, key));
            assert(self.cache_view() =~= v0.insert(key, b0.push(e)));
        }
    }

    /// If-then-else: the function `if f then g else h`. Results are cached,
    /// so that each triple of arguments is computed once per builder.
    #[verifier::spinoff_prover]
    #[verifier::rlimit(40)]
    pub fn ite(&mut self, f: BddPtr, g: BddPtr, h: BddPtr) -> (r: BddPtr)
        requires
            old(self).wf(),
            valid_ptr(old(self)@, f),
            valid_ptr(old(self)@, g),
            valid_ptr(old(self)@, h),
        ensures
            final(self).wf(),
            extends(old(self)@, final(self)@),
            final(self)@.len() == old(self)@.len(),
            valid_ptr(final(self)@, r),
            rank(r) <= max_rank(f, g, h),
            ite_result(final(self)@, r, old(self)@, f, g, h),
            support(final(self)@, r).subset_of(
                support(old(self)@, f).union(support(old(self)@, g)).union(
                    support(old(self)@, h),
                ),
            ),
        decreases max_rank(f, g, h),
    {
        let ghost t0 = self@;
        proof {
            lemma_extends_refl(t0);
        }
        if f.is_true() || f.is_false() || g == h || (g.is_true() && h.is_false()) || (g.is_false()
            && h.is_true()) {
            let r = if f.is_true() {
                g
            } else if f.is_false() {
                h
            } else if g == h {
                g
            } else if g.is_true() {
                f
            } else {
                f.neg()
            };
            proof {
                lemma_neg(t0, f);
                reveal(ite_result);
            }
            return r;
        }
        let key = ite_key(f, g, h);
        let cached = self.cache_lookup(key, f, g, h);
        if let Some(c) = cached {
            return c;
        }
        let mut v = f.var;
        if !g.special && g.var < v {
            v = g.var;
        }
        if !h.special && h.var < v {
            v = h.var;
        }
        proof {
            lemma_support_after(t0, f);
            lemma_support_after(t0, g);
            lemma_support_after(t0, h);
            lemma_node_children(t0, f);
        }
        assert(!f.special && f.var == v || !g.special && g.var == v || !h.special && h.var == v);
        let f1 = self.cofactor(f, v, true);
        let g1 = self.cofactor(g, v, true);
        let h1 = self.cofactor(h, v, true);
        let f0 = self.cofactor(f, v, false);
        let g0 = self.cofactor(g, v, false);
        let h0 = self.cofactor(h, v, false);
        proof {
            lemma_max_rank_drops(f, g, h, v, f1, g1, h1);
            lemma_max_rank_drops(f, g, h, v, f0, g0, h0);
        }
        let t = self.ite(f1, g1, h1);
        let ghost t1 = self@;
        proof {
            lemma_eval_extends(t0, t1, f0);
            lemma_eval_extends(t0, t1, g0);
            lemma_eval_extends(t0, t1, h0);
        }
        let e = self.ite(f0, g0, h0);
        let ghost t2 = self@;
        proof {
            lemma_eval_extends(t1, t2, t);
            lemma_extends_trans(t0, t1, t2);
            let pv = BddPtr { compl: false, special: false, var: v, idx: 0 };
            lemma_rank_below(t, pv);
            lemma_rank_below(e, pv);
        }
        let r = self.mk(v, e, t);
        let ghost t3 = self@;
        proof {
            lemma_extends_trans(t0, t2, t3);
            lemma_ite_step(t0, t1, t2, t3, f, g, h, v, (f1, g1, h1), (f0, g0, h0), t, e, r);
            let sf = support(t0, f);
            let sg = support(t0, g);
            let sh = support(t0, h);
            assert(sf.contains(v) || sg.contains(v) || sh.contains(v)) by {
                if f.var == v {
                    lemma_eval_unfold(t0, f, |x: u64| true);
                } else if !g.special && g.var == v {
                    lemma_eval_unfold(t0, g, |x: u64| true);
                } else {
                    lemma_eval_unfold(t0, h, |x: u64| true);
                }
            }
            assert forall|x: u64| #[trigger] support(t3, r).contains(x) implies sf.union(sg).union(
                sh,
            ).contains(x) by {
                if support(t2, t).contains(x) {
                    assert(support(t1, t).contains(x));
                }
            }
        }
        proof {
            lemma_entry_after(t0, self@, (f, g, h, r));
        }
        self.cache_insert(key, (f, g, h, r));
        r
    }
    /// The constant true.
    pub fn true_ptr(&self) -> (r: BddPtr)
        ensures
            r == BddPtr::true_spec(),
            valid_ptr(self@, r),
            forall|a: Assignment| #[trigger] eval(self@, r, a),
    {
        BddPtr::true_node()
    }

    /// The constant false.
    pub fn false_ptr(&self) -> (r: BddPtr)
        ensures
            r == BddPtr::false_spec(),
            valid_ptr(self@, r),
            forall|a: Assignment| !#[trigger] eval(self@, r, a),
    {
        BddPtr::false_node()
    }

    /// The literal of variable `lbl`: the variable itself when `polarity`
    /// holds, its negation otherwise.
    pub fn var(&mut self, lbl: VarLabel, polarity: bool) -> (r: BddPtr)
        requires
            old(self).wf(),
            lbl.0 < old(self)@.len(),
        ensures
            final(self).wf(),
            extends(old(self)@, final(self)@),
            final(self)@.len() == old(self)@.len(),
            valid_ptr(final(self)@, r),
            forall|a: Assignment| #[trigger] eval(final(self)@, r, a) == (a(lbl.0) == polarity),
            support(final(self)@, r) == set![lbl.0],
    {
        let ghost t0 = self@;
        let p = self.mk(lbl.0, BddPtr::false_node(), BddPtr::true_node());
        let ghost t = self@;
        let r = if polarity {
            p
        } else {
            p.neg()
        };
        proof {
            lemma_neg(t, p);
            assert(r == cond_neg(p, !polarity));
            assert forall|a: Assignment| #[trigger] eval(t, r, a) == (a(lbl.0) == polarity) by {
                lemma_node_result_at(t, p, t0, lbl.0, BddPtr::false_spec(), BddPtr::true_spec(), a);
            }
            assert(support(t, p).contains(lbl.0)) by {
                lemma_eval_unfold(t, p, |x: u64| true);
            }
            assert(support(t, r) =~= set![lbl.0]);
        }
        r
    }

    /// Adds a variable after all existing ones and returns it with its
    /// literal of the given polarity.
    pub fn new_var(&mut self, polarity: bool) -> (r: (VarLabel, BddPtr))
        requires
            old(self).wf(),
            old(self)@.len() < u64::MAX,
        ensures
            final(self).wf(),
            extends(old(self)@, final(self)@),
            final(self)@.len() == old(self)@.len() + 1,
            r.0.0 == old(self)@.len(),
            valid_ptr(final(self)@, r.1),
            forall|a: Assignment| #[trigger] eval(final(self)@, r.1, a) == (a(r.0.0) == polarity),
    {
        let ghost t0 = self@;
        let lbl = self.new_label();
        let ghost t1 = self@;
        let p = self.var(lbl, polarity);
        proof {
            lemma_extends_trans(t0, t1, self@);
        }
        (lbl, p)
    }

    /// Conjunction.
    pub fn and(&mut self, f: BddPtr, g: BddPtr) -> (r: BddPtr)
        requires
            old(self).wf(),
            valid_ptr(old(self)@, f),
            valid_ptr(old(self)@, g),
        ensures
            final(self).wf(),
            extends(old(self)@, final(self)@),
            final(self)@.len() == old(self)@.len(),
            valid_ptr(final(self)@, r),
            forall|a: Assignment| #[trigger]
                eval(final(self)@, r, a) == (eval(old(self)@, f, a) && eval(old(self)@, g, a)),
            support(final(self)@, r).subset_of(support(old(self)@, f).union(support(old(self)@, g))),
    {
        let ghost t0 = self@;
        let r = self.ite(f, g, BddPtr::false_node());
        proof {
            assert forall|a: Assignment| #[trigger]
                eval(self@, r, a) == (eval(t0, f, a) && eval(t0, g, a)) by {
                lemma_ite_result_at(self@, r, t0, f, g, BddPtr::false_spec(), a);
            }
            assert(support(t0, BddPtr::false_spec()) =~= Set::empty());
        }
        r
    }

    /// Disjunction.
    pub fn or(&mut self, f: BddPtr, g: BddPtr) -> (r: BddPtr)
        requires
            old(self).wf(),
            valid_ptr(old(self)@, f),
            valid_ptr(old(self)@, g),
        ensures
            final(self).wf(),
            extends(old(self)@, final(self)@),
            final(self)@.len() == old(self)@.len(),
            valid_ptr(final(self)@, r),
            forall|a: Assignment| #[trigger]
                eval(final(self)@, r, a) == (eval(old(self)@, f, a) || eval(old(self)@, g, a)),
            support(final(self)@, r).subset_of(support(old(self)@, f).union(support(old(self)@, g))),
    {
        let ghost t0 = self@;
        let r = self.ite(f, BddPtr::true_node(), g);
        proof {
            assert forall|a: Assignment| #[trigger]
                eval(self@, r, a) == (eval(t0, f, a) || eval(t0, g, a)) by {
                lemma_ite_result_at(self@, r, t0, f, BddPtr::true_spec(), g, a);
            }
            assert(support(t0, BddPtr::true_spec()) =~= Set::empty());
        }
        r
    }

    /// Equivalence: true where `f` and `g` agree.
    pub fn iff(&mut self, f: BddPtr, g: BddPtr) -> (r: BddPtr)
        requires
            old(self).wf(),
            valid_ptr(old(self)@, f),
            valid_ptr(old(self)@, g),
        ensures
            final(self).wf(),
            extends(old(self)@, final(self)@),
            final(self)@.len() == old(self)@.len(),
            valid_ptr(final(self)@, r),
            forall|a: Assignment| #[trigger]
                eval(final(self)@, r, a) == (eval(old(self)@, f, a) == eval(old(self)@, g, a)),
            support(final(self)@, r).subset_of(support(old(self)@, f).union(support(old(self)@, g))),
    {
        let ghost t0 = self@;
        proof {
            lemma_neg(t0, g);
        }
        let r = self.ite(f, g, g.neg());
        proof {
            assert forall|a: Assignment| #[trigger]
                eval(self@, r, a) == (eval(t0, f, a) == eval(t0, g, a)) by {
                lemma_ite_result_at(self@, r, t0, f, g, g.neg_spec(), a);
            }
        }
        r
    }

    /// Negation, in constant time: the complemented edge.
    pub fn negate(&self, f: BddPtr) -> (r: BddPtr)
        requires
            valid_ptr(self@, f),
        ensures
            r == f.neg_spec(),
            valid_ptr(self@, r),
            forall|a: Assignment| #[trigger] eval(self@, r, a) == !eval(self@, f, a),
            support(self@, r) == support(self@, f),
    {
        proof {
            lemma_neg(self@, f);
        }
        f.neg()
    }

    /// Existential quantification of variable `lbl`.
    pub fn quantify_exists(&mut self, f: BddPtr, lbl: VarLabel) -> (r: BddPtr)
        requires
            old(self).wf(),
            valid_ptr(old(self)@, f),
        ensures
            final(self).wf(),
            extends(old(self)@, final(self)@),
            final(self)@.len() == old(self)@.len(),
            valid_ptr(final(self)@, r),
            forall|a: Assignment| #[trigger]
                eval(final(self)@, r, a) == (eval(old(self)@, f, assign(a, lbl.0, false)) || eval(
                    old(self)@,
                    f,
                    assign(a, lbl.0, true),
                )),
            support(final(self)@, r).subset_of(support(old(self)@, f).remove(lbl.0)),
    {
        let ghost t0 = self@;
        let lo = self.condition(f, lbl, false);
        let ghost t1 = self@;
        proof {
            lemma_eval_extends(t0, t1, f);
        }
        let hi = self.condition(f, lbl, true);
        let ghost t2 = self@;
        proof {
            lemma_eval_extends(t1, t2, lo);
        }
        let r = self.or(lo, hi);
        proof {
            lemma_extends_trans(t0, t1, t2);
            lemma_extends_trans(t0, t2, self@);
            assert forall|a: Assignment| #[trigger]
                eval(self@, r, a) == (eval(t0, f, assign(a, lbl.0, false)) || eval(
                    t0,
                    f,
                    assign(a, lbl.0, true),
                )) by {
                lemma_restricts_at(t1, lo, t0, f, lbl.0, false, a);
                lemma_restricts_at(t2, hi, t1, f, lbl.0, true, a);
                assert(eval(t2, lo, a) == eval(t1, lo, a));
            }
        }
        r
    }

    /// Substitution of `g` for variable `lbl` in `f`.
    pub fn compose(&mut self, f: BddPtr, lbl: VarLabel, g: BddPtr) -> (r: BddPtr)
        requires
            old(self).wf(),
            valid_ptr(old(self)@, f),
            valid_ptr(old(self)@, g),
        ensures
            final(self).wf(),
            extends(old(self)@, final(self)@),
            final(self)@.len() == old(self)@.len(),
            valid_ptr(final(self)@, r),
            forall|a: Assignment| #[trigger]
                eval(final(self)@, r, a) == eval(
                    old(self)@,
                    f,
                    assign(a, lbl.0, eval(old(self)@, g, a)),
                ),
    {
        let ghost t0 = self@;
        let hi = self.condition(f, lbl, true);
        let ghost t1 = self@;
        proof {
            lemma_eval_extends(t0, t1, f);
            lemma_eval_extends(t0, t1, g);
        }
        let lo = self.condition(f, lbl, false);
        let ghost t2 = self@;
        proof {
            lemma_eval_extends(t1, t2, hi);
            lemma_eval_extends(t1, t2, g);
        }
        let r = self.ite(g, hi, lo);
        proof {
            lemma_extends_trans(t0, t1, t2);
            lemma_extends_trans(t0, t2, self@);
            assert forall|a: Assignment| #[trigger]
                eval(self@, r, a) == eval(t0, f, assign(a, lbl.0, eval(t0, g, a))) by {
                lemma_ite_result_at(self@, r, t2, g, hi, lo, a);
                lemma_restricts_at(t1, hi, t0, f, lbl.0, true, a);
                lemma_restricts_at(t2, lo, t1, f, lbl.0, false, a);
                assert(eval(t2, hi, a) == eval(t1, hi, a));
            }
        }
        r
    }

    /// Pointer equality; by canonicity (`lemma_canonical`) this decides
    /// whether two functions are equal.
    pub fn eq(&self, a: BddPtr, b: BddPtr) -> (r: bool)
        ensures
            r == (a == b),
    {
        a == b
    }

    /// The function on the low edge of a node: `f` with its top variable
    /// set to false.
    pub fn low(&self, f: BddPtr) -> (r: BddPtr)
        requires
            self.wf(),
            valid_ptr(self@, f),
            !f.special,
        ensures
            r == cond_neg(node_at(self@, f).low, f.compl),
            valid_ptr(self@, r),
            restricts(self@, r, self@, f, f.var, false),
    {
        let ghost t = self@;
        proof {
            lemma_node_children(t, f);
        }
        let n = self.node(f);
        let r = if f.compl {
            n.low.neg()
        } else {
            n.low
        };
        proof {
            lemma_neg(t, n.low);
            lemma_support_after(t, n.low);
            assert(r == cond_neg(n.low, f.compl));
            assert(restricts(t, r, t, f, f.var, false)) by {
                reveal(restricts);
                assert forall|a: Assignment| #[trigger]
                    eval(t, r, a) == eval(t, f, assign(a, f.var, false)) by {
                    lemma_eval_unfold(t, f, assign(a, f.var, false));
                    lemma_eval_assign_outside(t, n.low, a, f.var, false);
                }
            }
        }
        r
    }

    /// The function on the high edge of a node: `f` with its top variable
    /// set to true.
    pub fn high(&self, f: BddPtr) -> (r: BddPtr)
        requires
            self.wf(),
            valid_ptr(self@, f),
            !f.special,
        ensures
            r == cond_neg(node_at(self@, f).high, f.compl),
            valid_ptr(self@, r),
            restricts(self@, r, self@, f, f.var, true),
    {
        let ghost t = self@;
        proof {
            lemma_node_children(t, f);
        }
        let n = self.node(f);
        let r = if f.compl {
            n.high.neg()
        } else {
            n.high
        };
        proof {
            lemma_neg(t, n.high);
            lemma_support_after(t, n.high);
            assert(r == cond_neg(n.high, f.compl));
            assert(restricts(t, r, t, f, f.var, true)) by {
                reveal(restricts);
                assert forall|a: Assignment| #[trigger]
                    eval(t, r, a) == eval(t, f, assign(a, f.var, true)) by {
                    lemma_eval_unfold(t, f, assign(a, f.var, true));
                    lemma_eval_assign_outside(t, n.high, a, f.var, true);
                }
            }
        }
        r
    }
    /// The number of nodes of variable `v`.
    pub fn subtable_len(&self, v: usize) -> (r: usize)
        requires
            v < self@.len(),
        ensures
            r == self@[v as int].len(),
    {
        self.table[v].len()
    }

    /// The node at index `i` of the subtable of `v`.
    pub fn node_at_index(&self, v: usize, i: usize) -> (r: BddNode)
        requires
            v < self@.len(),
            i < self@[v as int].len(),
        ensures
            r == self@[v as int][i as int],
    {
        let row = &self.table[v];
        assert(row@ == self@[v as int]);
        row[i]
    }
    /// Whether `p` is a constant or points at a node of this builder.
    pub fn is_valid(&self, p: BddPtr) -> (r: bool)
        ensures
            r == valid_ptr(self@, p),
    {
        if p.special {
            p.var == 0 && p.idx == 0
        } else if p.var < self.table.len() as u64 {
            let row = &self.table[p.var as usize];
            assert(row@ == self@[p.var as int]);
            p.idx < row.len() as u64
        } else {
            false
        }
    }
}

} // verus!
