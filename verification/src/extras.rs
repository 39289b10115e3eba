//! Queries over a single decision diagram: the variables it tests, the
//! value it takes under a partial assignment, and the list of its models.

use vstd::prelude::*;
use itertools::Itertools;
use crate::repr::{BddPtr, VarLabel};
use crate::builder::{reaches, support, valid_ptr, eval, assign, extends, Assignment, RobddBuilder,
    NodeTable, lemma_support_reaches, lemma_reaches_valid, lemma_reaches_child, lemma_reaches_parent,
    points_to, lemma_node_children, lemma_eval_extends, lemma_extends_refl, lemma_extends_trans,
    lemma_restricts_at, lemma_depends, lemma_eval_unfold, lemma_valid_extends, depends_on};

verus! {

/// Each element is smaller than the next.
pub open spec fn strictly_increasing(s: Seq<u64>) -> bool {
    forall|i: int, j: int| 0 <= i < j < s.len() ==> s[i] < s[j]
}

/// The numbers of a sequence of labels.
pub open spec fn label_values(s: Seq<VarLabel>) -> Seq<u64> {
    s.map_values(|l: VarLabel| l.0)
}

/// The marks have one entry per node of the table.
spec fn marks_shape(m: Seq<Vec<bool>>, t: NodeTable) -> bool {
    &&& m.len() == t.len()
    &&& forall|y: int| 0 <= y < t.len() ==> #[trigger] m[y]@.len() == t[y].len()
}

/// Every marked node is reachable from `p`.
spec fn marks_sound(m: Seq<Vec<bool>>, t: NodeTable, p: BddPtr) -> bool {
    forall|y: u64, j: u64|
        0 <= y < t.len() && 0 <= j < t[y as int].len() && #[trigger] m[y as int]@[j as int]
            ==> reaches(t, p, y, j)
}

/// The non-constant children of the node `t[y][j]` are marked.
spec fn children_marked(m: Seq<Vec<bool>>, t: NodeTable, y: u64, j: u64) -> bool {
    let n = t[y as int][j as int];
    &&& !n.low.special ==> m[n.low.var as int]@[n.low.idx as int]
    &&& !n.high.special ==> m[n.high.var as int]@[n.high.idx as int]
}

/// Marks the node `(x, k)`, which is reachable from `p`.
fn set_mark(marks: &mut Vec<Vec<bool>>, x: usize, k: usize, Ghost(t): Ghost<NodeTable>, Ghost(p): Ghost<BddPtr>)
    requires
        marks_shape(old(marks)@, t),
        marks_sound(old(marks)@, t, p),
        x < t.len(),
        k < t[x as int].len(),
        reaches(t, p, x as u64, k as u64),
    ensures
        marks_shape(final(marks)@, t),
        marks_sound(final(marks)@, t, p),
        forall|y: int, j: int|
            0 <= y < t.len() && 0 <= j < t[y].len()
                ==> #[trigger] final(marks)@[y]@[j] == (old(marks)@[y]@[j] || (y == x && j == k)),
{
    marks[x].set(k, true);
    proof {
        assert forall|y: u64, j: u64|
            0 <= y < t.len() && 0 <= j < t[y as int].len() && #[trigger] marks@[y as int]@[j as int]
                implies reaches(t, p, y, j) by {
            if !(y == x && j == k) {
                assert(old(marks)@[y as int]@[j as int]);
            }
        }
    }
}

/// Marks exactly the nodes reachable from the non-constant pointer `p`,
/// visiting each node once, variable by variable.
fn mark_reachable(builder: &RobddBuilder, p: BddPtr) -> (marks: Vec<Vec<bool>>)
    requires
        builder.wf(),
        valid_ptr(builder@, p),
        !p.special,
    ensures
        marks_shape(marks@, builder@),
        forall|y: u64, k: u64|
            0 <= y < builder@.len() && 0 <= k < builder@[y as int].len() ==> (
            #[trigger] marks@[y as int]@[k as int] <==> reaches(builder@, p, y, k)),
{
    let ghost t = builder@;
    let n = builder.num_vars();
    let mut marks: Vec<Vec<bool>> = Vec::new();
    let mut y: usize = 0;
    while y < n
        invariant
            y <= n,
            n == t.len(),
            builder@ == t,
            marks@.len() == y,
            forall|z: int| 0 <= z < y ==> #[trigger] marks@[z]@.len() == t[z].len(),
            forall|z: int, j: int| 0 <= z < y && 0 <= j < t[z].len() ==> !#[trigger] marks@[z]@[j],
        decreases n - y,
    {
        let len = builder.subtable_len(y);
        marks.push(vec![false; len]);
        y = y + 1;
    }
    proof {
        assert(reaches(t, p, p.var, p.idx));
        assert(marks_sound(marks@, t, p));
    }
    assert(p.var < n);
    let pv = p.var as usize;
    assert(pv as int == p.var as int);
    let plen = builder.subtable_len(pv);
    assert(p.idx < plen);
    let pi = p.idx as usize;
    assert(pi as int == p.idx as int);
    set_mark(&mut marks, pv, pi, Ghost(t), Ghost(p));
    let mut x: usize = pv;
    proof {
        assert forall|y: u64, j: u64| y < x && #[trigger] reaches(t, p, y, j) implies children_marked(
            marks@,
            t,
            y,
            j,
        ) by {
            lemma_reaches_valid(t, p, y, j);
        }
    }
    while x < n
        invariant
            builder.wf(),
            builder@ == t,
            n == t.len(),
            !p.special,
            valid_ptr(t, p),
            p.var <= x <= n,
            marks_shape(marks@, t),
            marks_sound(marks@, t, p),
            marks@[p.var as int]@[p.idx as int],
            forall|y: u64, j: u64|
                y < x && #[trigger] reaches(t, p, y, j) ==> children_marked(marks@, t, y, j),
        decreases n - x,
    {
        let ghost m0 = marks@;
        proof {
            assert forall|k: u64| #[trigger] reaches(t, p, x as u64, k)
                implies m0[x as int]@[k as int] by {
                if !(p.var == x && p.idx == k) {
                    lemma_reaches_parent(t, p, x as u64, k);
                    let (y, j) = choose|y: u64, j: u64|
                        #![trigger reaches(t, p, y, j)]
                        reaches(t, p, y, j) && y < x && (points_to(t[y as int][j as int].low, x as u64, k)
                            || points_to(t[y as int][j as int].high, x as u64, k));
                    assert(children_marked(m0, t, y, j));
                }
            }
        }
        let len = builder.subtable_len(x);
        let mut j: usize = 0;
        while j < len
            invariant
                builder.wf(),
                builder@ == t,
                n == t.len(),
                !p.special,
                p.var <= x < n,
                len == t[x as int].len(),
                j <= len,
                marks_shape(marks@, t),
                marks_sound(marks@, t, p),
                forall|y: int, k: int|
                    0 <= y < t.len() && 0 <= k < t[y].len() && #[trigger] m0[y]@[k] ==> marks@[y]@[k],
                forall|k: int| 0 <= k < len ==> #[trigger] marks@[x as int]@[k] == m0[x as int]@[k],
                forall|k: u64| k < j && #[trigger] marks@[x as int]@[k as int] ==> children_marked(marks@, t, x as u64, k),
                forall|y: u64, k: u64|
                    y < x && #[trigger] reaches(t, p, y, k) ==> children_marked(marks@, t, y, k),
            decreases len - j,
        {
            let ghost m_before = marks@;
            if marks[x][j] {
                let nd = builder.node_at_index(x, j);
                proof {
                    assert(reaches(t, p, x as u64, j as u64));
                    lemma_reaches_valid(t, p, x as u64, j as u64);
                    let q = BddPtr { compl: false, special: false, var: x as u64, idx: j as u64 };
                    lemma_node_children(t, q);
                }
                if !nd.low.special {
                    proof {
                        lemma_reaches_child(t, p, x as u64, j as u64, nd.low);
                        lemma_reaches_valid(t, p, nd.low.var, nd.low.idx);
                    }
                    assert(nd.low.var < n);
                    let cv = nd.low.var as usize;
                    assert(cv as int == nd.low.var as int);
                    let clen = builder.subtable_len(cv);
                    assert(nd.low.idx < clen);
                    let ci = nd.low.idx as usize;
                    assert(ci as int == nd.low.idx as int);
                    set_mark(&mut marks, cv, ci, Ghost(t), Ghost(p));
                }
                if !nd.high.special {
                    proof {
                        lemma_reaches_child(t, p, x as u64, j as u64, nd.high);
                        lemma_reaches_valid(t, p, nd.high.var, nd.high.idx);
                    }
                    assert(nd.high.var < n);
                    let cv = nd.high.var as usize;
                    assert(cv as int == nd.high.var as int);
                    let clen = builder.subtable_len(cv);
                    assert(nd.high.idx < clen);
                    let ci = nd.high.idx as usize;
                    assert(ci as int == nd.high.idx as int);
                    set_mark(&mut marks, cv, ci, Ghost(t), Ghost(p));
                }
            }
            proof {
                let q = BddPtr { compl: false, special: false, var: x as u64, idx: j as u64 };
                if m_before[x as int]@[j as int] {
                    lemma_reaches_valid(t, p, x as u64, j as u64);
                    lemma_node_children(t, q);
                }
                assert forall|k: int| 0 <= k < len implies #[trigger] marks@[x as int]@[k] == m_before[
                    x as int]@[k] by {
                }
                assert forall|y: int, k: int|
                    0 <= y < t.len() && 0 <= k < t[y].len() && #[trigger] m_before[y]@[k]
                        implies marks@[y]@[k] by {
                }
                assert forall|y: u64, k: u64|
                    y <= x && #[trigger] reaches(t, p, y, k) && children_marked(m_before, t, y, k)
                        implies children_marked(marks@, t, y, k) by {
                    lemma_reaches_valid(t, p, y, k);
                    let qq = BddPtr { compl: false, special: false, var: y, idx: k };
                    lemma_node_children(t, qq);
                }
                if m_before[x as int]@[j as int] {
                    assert(marks@[x as int]@[j as int]);
                    assert(children_marked(marks@, t, x as u64, j as u64));
                }
            }
            j = j + 1;
        }
        proof {
            assert forall|k: u64| #[trigger] reaches(t, p, x as u64, k) implies children_marked(
                marks@,
                t,
                x as u64,
                k,
            ) by {
                lemma_reaches_valid(t, p, x as u64, k);
                assert(m0[x as int]@[k as int]);
            }
            assert forall|y: u64, j: u64|
                y < x + 1 && #[trigger] reaches(t, p, y, j) implies children_marked(marks@, t, y, j) by {
                if y == x {
                    assert(children_marked(marks@, t, x as u64, j));
                }
            }
        }
        x = x + 1;
    }
    proof {
        assert forall|y: u64, k: u64|
            0 <= y < t.len() && 0 <= k < t[y as int].len() && #[trigger] reaches(t, p, y, k)
                implies marks@[y as int]@[k as int] by {
            if !(p.var == y && p.idx == k) {
                lemma_reaches_parent(t, p, y, k);
                let (z, j) = choose|z: u64, j: u64|
                    #![trigger reaches(t, p, z, j)]
                    reaches(t, p, z, j) && z < y && (points_to(t[z as int][j as int].low, y, k)
                        || points_to(t[z as int][j as int].high, y, k));
                lemma_reaches_valid(t, p, z, j);
                assert(children_marked(marks@, t, z, j));
            }
        }
    }
    marks
}

/// The variables tested by the nodes reachable from `bdd`, in increasing
/// order, each once.
pub fn variables(builder: &RobddBuilder, bdd: &BddPtr) -> (r: Vec<VarLabel>)
    requires
        builder.wf(),
        valid_ptr(builder@, *bdd),
    ensures
        strictly_increasing(label_values(r@)),
        label_values(r@).to_set() == support(builder@, *bdd),
        forall|x: u64| #[trigger] label_values(r@).contains(x) <==> depends_on(builder@, *bdd, x),
{
    let ghost t = builder@;
    let p = *bdd;
    let mut res: Vec<VarLabel> = Vec::new();
    if p.special {
        proof {
            assert(label_values(res@).to_set() =~= support(t, p));
            assert forall|z: u64| #[trigger] label_values(res@).contains(z) <==> depends_on(t, p, z) by {
                crate::builder::lemma_support_essential(t, p, z);
            }
        }
        return res;
    }
    let marks = mark_reachable(builder, p);
    let n = builder.num_vars();
    let mut x: usize = 0;
    while x < n
        invariant
            builder.wf(),
            builder@ == t,
            n == t.len(),
            x <= n,
            marks_shape(marks@, t),
            forall|y: u64, k: u64|
                0 <= y < t.len() && 0 <= k < t[y as int].len() ==> (
                #[trigger] marks@[y as int]@[k as int] <==> reaches(t, p, y, k)),
            strictly_increasing(label_values(res@)),
            forall|i: int| 0 <= i < res@.len() ==> #[trigger] res@[i].0 < x,
            forall|z: u64|
                #[trigger] label_values(res@).contains(z) <==> (z < x && exists|k: u64|
                    reaches(t, p, z, k)),
        decreases n - x,
    {
        let len = builder.subtable_len(x);
        let mut any = false;
        let mut j: usize = 0;
        while j < len
            invariant
                j <= len,
                x < n,
                n == t.len(),
                len == t[x as int].len(),
                marks_shape(marks@, t),
                any <==> exists|k: int| 0 <= k < j && #[trigger] marks@[x as int]@[k],
            decreases len - j,
        {
            if marks[x][j] {
                any = true;
            }
            j = j + 1;
        }
        let ghost old_res = res@;
        if any {
            res.push(VarLabel(x as u64));
        }
        proof {
            if any {
                let k = choose|k: int| 0 <= k < len && #[trigger] marks@[x as int]@[k];
                assert(reaches(t, p, x as u64, k as u64));
                assert(label_values(res@) =~= label_values(old_res).push(x as u64));
            } else {
                assert(label_values(res@) =~= label_values(old_res));
                assert forall|k: u64| !#[trigger] reaches(t, p, x as u64, k) by {
                    if reaches(t, p, x as u64, k) {
                        lemma_reaches_valid(t, p, x as u64, k);
                        assert(marks@[x as int]@[k as int]);
                    }
                }
            }
            assert forall|z: u64| #[trigger] label_values(res@).contains(z) <==> (z < x + 1
                && exists|k: u64| reaches(t, p, z, k)) by {
                if z == x {
                    if any {
                        assert(label_values(res@)[res@.len() - 1] == z);
                    } else {
                        if label_values(res@).contains(z) {
                            assert(label_values(old_res).contains(z));
                        }
                    }
                } else {
                    if label_values(res@).contains(z) {
                        let i = choose|i: int| 0 <= i < res@.len() && label_values(res@)[i] == z;
                        if any && i == res@.len() - 1 {
                        } else {
                            assert(label_values(old_res)[i] == z);
                            assert(label_values(old_res).contains(z));
                        }
                    }
                    if z < x + 1 && exists|k: u64| reaches(t, p, z, k) {
                        assert(label_values(old_res).contains(z));
                        let i = choose|i: int| 0 <= i < old_res.len() && label_values(old_res)[i] == z;
                        assert(label_values(res@)[i] == z);
                    }
                }
            }
        }
        x = x + 1;
    }
    proof {
        assert forall|z: u64| #[trigger] label_values(res@).to_set().contains(z) <==> support(
            t,
            p,
        ).contains(z) by {
            lemma_support_reaches(t, p, z);
            if exists|k: u64| reaches(t, p, z, k) {
                let k = choose|k: u64| reaches(t, p, z, k);
                lemma_reaches_valid(t, p, z, k);
            }
        }
        assert(label_values(res@).to_set() =~= support(t, p));
        assert forall|z: u64| #[trigger] label_values(res@).contains(z) <==> depends_on(t, p, z) by {
            crate::builder::lemma_support_essential(t, p, z);
            assert(label_values(res@).to_set().contains(z) == label_values(res@).contains(z));
        }
    }
    res
}

/// The nodes reachable from `p` that come before position `(x, j)` in the
/// order of the table (by variable, then index).
pub open spec fn reach_before(t: NodeTable, p: BddPtr, x: u64, j: u64) -> Set<(u64, u64)> {
    Set::new(|c: (u64, u64)| reaches(t, p, c.0, c.1) && (c.0 < x || (c.0 == x && c.1 < j)))
}

/// The nodes reachable from `p`.
pub open spec fn reach_set(t: NodeTable, p: BddPtr) -> Set<(u64, u64)> {
    Set::new(|c: (u64, u64)| reaches(t, p, c.0, c.1))
}

/// The set of reachable nodes is finite.
pub proof fn lemma_reach_set_finite(t: NodeTable, p: BddPtr)
    ensures
        reach_set(t, p).finite(),
    decreases crate::builder::rank(p),
{
    if !p.special && valid_ptr(t, p) {
        let n = crate::builder::node_at(t, p);
        let sl = if crate::builder::below(n.low, p.var) {
            lemma_reach_set_finite(t, n.low);
            reach_set(t, n.low)
        } else {
            Set::empty()
        };
        let sh = if crate::builder::below(n.high, p.var) {
            lemma_reach_set_finite(t, n.high);
            reach_set(t, n.high)
        } else {
            Set::empty()
        };
        assert(reach_set(t, p) =~= sl.union(sh).insert((p.var, p.idx)));
    } else {
        assert(reach_set(t, p) =~= Set::empty());
    }
}

/// The number of distinct nodes reachable from `bdd` (0 for a constant).
pub fn count_nodes(builder: &RobddBuilder, bdd: &BddPtr) -> (r: usize)
    requires
        builder.wf(),
        valid_ptr(builder@, *bdd),
        reach_set(builder@, *bdd).len() < usize::MAX,
    ensures
        reach_set(builder@, *bdd).finite(),
        r == reach_set(builder@, *bdd).len(),
{
    let ghost t = builder@;
    let p = *bdd;
    if p.special {
        proof {
            assert(reach_set(t, p) =~= Set::empty());
        }
        return 0;
    }
    let marks = mark_reachable(builder, p);
    let n = builder.num_vars();
    let mut count: usize = 0;
    let mut x: usize = 0;
    proof {
        assert(reach_before(t, p, 0, 0) =~= Set::empty());
    }
    while x < n
        invariant
            builder.wf(),
            builder@ == t,
            n == t.len(),
            x <= n,
            marks_shape(marks@, t),
            forall|y: u64, k: u64|
                0 <= y < t.len() && 0 <= k < t[y as int].len() ==> (
                #[trigger] marks@[y as int]@[k as int] <==> reaches(t, p, y, k)),
            reach_set(t, p).len() < usize::MAX,
            reach_before(t, p, x as u64, 0).finite(),
            count == reach_before(t, p, x as u64, 0).len(),
        decreases n - x,
    {
        let len = builder.subtable_len(x);
        let mut j: usize = 0;
        while j < len
            invariant
                j <= len,
                x < n,
                n == t.len(),
                len == t[x as int].len(),
                marks_shape(marks@, t),
                forall|y: u64, k: u64|
                    0 <= y < t.len() && 0 <= k < t[y as int].len() ==> (
                    #[trigger] marks@[y as int]@[k as int] <==> reaches(t, p, y, k)),
                reach_set(t, p).len() < usize::MAX,
                reach_before(t, p, x as u64, j as u64).finite(),
                count == reach_before(t, p, x as u64, j as u64).len(),
            decreases len - j,
        {
            let ghost before = reach_before(t, p, x as u64, j as u64);
            if marks[x][j] {
                proof {
                    assert(reach_before(t, p, x as u64, (j + 1) as u64) =~= before.insert(
                        (x as u64, j as u64),
                    ));
                    assert(!before.contains((x as u64, j as u64)));
                    assert(before.len() < usize::MAX) by {
                        lemma_reach_set_finite(t, p);
                        vstd::set_lib::lemma_len_subset(before, reach_set(t, p));
                    }
                }
                count = count + 1;
            } else {
                proof {
                    assert(reach_before(t, p, x as u64, (j + 1) as u64) =~= before);
                }
            }
            j = j + 1;
        }
        proof {
            assert forall|c: (u64, u64)| #[trigger] reach_before(t, p, (x + 1) as u64, 0).contains(c) <==> reach_before(
                t,
                p,
                x as u64,
                len as u64,
            ).contains(c) by {
                if reaches(t, p, c.0, c.1) {
                    lemma_reaches_valid(t, p, c.0, c.1);
                }
            }
            assert(reach_before(t, p, (x + 1) as u64, 0) =~= reach_before(t, p, x as u64, len as u64));
        }
        x = x + 1;
    }
    proof {
        assert forall|c: (u64, u64)| #[trigger] reach_set(t, p).contains(c) <==> reach_before(
            t,
            p,
            n as u64,
            0,
        ).contains(c) by {
            if reaches(t, p, c.0, c.1) {
                lemma_reaches_valid(t, p, c.0, c.1);
            }
        }
        assert(reach_set(t, p) =~= reach_before(t, p, n as u64, 0));
    }
    count
}

/// Each element is at most the next.
pub open spec fn sorted_u64(s: Seq<u64>) -> bool {
    forall|i: int, j: int| 0 <= i < j < s.len() ==> s[i] <= s[j]
}

/// The variables of the support of `p`, in increasing order.
pub open spec fn ordered_support(t: NodeTable, p: BddPtr) -> Seq<u64> {
    choose|s: Seq<u64>| strictly_increasing(s) && s.to_set() == support(t, p)
}

/// `a` overridden by the values `xs[i]` for the variables `ls[i]`, for the
/// first `n` pairs; where a variable occurs twice the earlier pair wins.
pub open spec fn assignment_from(a: Assignment, ls: Seq<u64>, xs: Seq<bool>, n: nat) -> Assignment
    decreases n,
{
    if n == 0 {
        a
    } else {
        assignment_from(assign(a, ls[n - 1], xs[n - 1]), ls, xs, (n - 1) as nat)
    }
}

/// The value of `p` once the variables `ls` are set to `xs`, elsewhere
/// following `a`.
pub open spec fn restricted_value(t: NodeTable, p: BddPtr, ls: Seq<u64>, xs: Seq<bool>, a: Assignment) -> bool {
    eval(t, p, assignment_from(a, ls, xs, xs.len()))
}

/// Setting the variables `ls` to `xs` makes `p` constant.
pub open spec fn restriction_constant(t: NodeTable, p: BddPtr, ls: Seq<u64>, xs: Seq<bool>) -> bool {
    forall|a: Assignment, b: Assignment|
        #[trigger] restricted_value(t, p, ls, xs, a) == #[trigger] restricted_value(t, p, ls, xs, b)
}

/// All Boolean vectors of length `n` in lexicographic order, `false`
/// before `true`, the last position changing fastest.
pub open spec fn all_polarities(n: nat) -> Seq<Seq<bool>>
    decreases n,
{
    if n == 0 {
        seq![Seq::empty()]
    } else {
        let rest = all_polarities((n - 1) as nat);
        rest.map_values(|s: Seq<bool>| seq![false] + s) + rest.map_values(|s: Seq<bool>| seq![true] + s)
    }
}

/// The vector `xs` of values for the variables `vs` satisfies `p`.
pub open spec fn is_model(t: NodeTable, p: BddPtr, vs: Seq<u64>, xs: Seq<bool>) -> bool {
    eval(t, p, assignment_from(|x: u64| false, vs, xs, xs.len()))
}

/// The models of `p` over its variables in increasing order, as vectors in
/// lexicographic order.
pub open spec fn models(t: NodeTable, p: BddPtr) -> Seq<Seq<bool>> {
    let vs = ordered_support(t, p);
    all_polarities(vs.len()).filter(|xs: Seq<bool>| is_model(t, p, vs, xs))
}

/// Every vector of `all_polarities(n)` has length `n`.
pub proof fn lemma_all_polarities_len(n: nat)
    ensures
        forall|i: int| 0 <= i < all_polarities(n).len() ==> #[trigger] all_polarities(n)[i].len() == n,
    decreases n,
{
    if n > 0 {
        let m = (n - 1) as nat;
        lemma_all_polarities_len(m);
        let rest = all_polarities(m);
        assert forall|i: int| 0 <= i < all_polarities(n).len() implies #[trigger] all_polarities(
            n,
        )[i].len() == n by {
            if i < rest.len() {
                assert(all_polarities(n)[i] == seq![false] + rest[i]);
            } else {
                assert(all_polarities(n)[i] == seq![true] + rest[i - rest.len()]);
            }
        }
    }
}

/// A strictly increasing sequence is determined by its set of elements.
pub proof fn lemma_increasing_unique(s1: Seq<u64>, s2: Seq<u64>)
    requires
        strictly_increasing(s1),
        strictly_increasing(s2),
        s1.to_set() == s2.to_set(),
    ensures
        s1 == s2,
    decreases s1.len(),
{
    if s1.len() == 0 {
        if s2.len() > 0 {
            assert(s2.to_set().contains(s2[0]));
        }
        assert(s1 =~= s2);
    } else {
        if s2.len() == 0 {
            assert(s1.to_set().contains(s1[0]));
        }
        let x1 = s1.last();
        let x2 = s2.last();
        assert(s1.to_set().contains(x1));
        assert(s2.to_set().contains(x2));
        let i = choose|i: int| 0 <= i < s2.len() && s2[i] == x1;
        let j = choose|j: int| 0 <= j < s1.len() && s1[j] == x2;
        assert(x1 <= x2);
        assert(x2 <= x1);
        let d1 = s1.drop_last();
        let d2 = s2.drop_last();
        assert forall|y: u64| d1.to_set().contains(y) <==> d2.to_set().contains(y) by {
            if d1.to_set().contains(y) {
                let k = choose|k: int| 0 <= k < d1.len() && d1[k] == y;
                assert(s1.to_set().contains(y));
                let m = choose|m: int| 0 <= m < s2.len() && s2[m] == y;
                if m == s2.len() - 1 {
                    assert(s1[k] < s1[s1.len() - 1]);
                }
                assert(d2[m] == y);
            }
            if d2.to_set().contains(y) {
                let k = choose|k: int| 0 <= k < d2.len() && d2[k] == y;
                assert(s2.to_set().contains(y));
                let m = choose|m: int| 0 <= m < s1.len() && s1[m] == y;
                if m == s1.len() - 1 {
                    assert(s2[k] < s2[s2.len() - 1]);
                }
                assert(d1[m] == y);
            }
        }
        assert(d1.to_set() =~= d2.to_set());
        lemma_increasing_unique(d1, d2);
        assert(s1 =~= d1.push(x1));
        assert(s2 =~= d2.push(x2));
    }
}

/// A sorted sequence is determined by its multiset of elements.
pub proof fn lemma_sorted_unique(s1: Seq<u64>, s2: Seq<u64>)
    requires
        sorted_u64(s1),
        sorted_u64(s2),
        s1.to_multiset() == s2.to_multiset(),
    ensures
        s1 == s2,
    decreases s1.len(),
{
    broadcast use vstd::seq_lib::group_to_multiset_ensures;

    vstd::seq_lib::to_multiset_len(s1);
    vstd::seq_lib::to_multiset_len(s2);
    assert(s1.len() == s2.len());
    if s1.len() > 0 {
        let x1 = s1.last();
        let x2 = s2.last();
        assert(s1.to_multiset().count(x1) > 0);
        assert(s2.contains(x1));
        assert(s2.to_multiset().count(x2) > 0);
        assert(s1.contains(x2));
        assert(x1 == x2);
        let d1 = s1.drop_last();
        let d2 = s2.drop_last();
        assert(s1 =~= d1.push(x1));
        assert(s2 =~= d2.push(x2));
        assert(d1.to_multiset() =~= d2.to_multiset()) by {
            assert(d1.push(x1).to_multiset() =~= d1.to_multiset().insert(x1));
            assert(d2.push(x1).to_multiset() =~= d2.to_multiset().insert(x1));
            assert forall|y: u64| d1.to_multiset().count(y) == d2.to_multiset().count(y) by {
                assert(d1.to_multiset().insert(x1).count(y) == d2.to_multiset().insert(x1).count(y));
            }
        }
        lemma_sorted_unique(d1, d2);
    }
}

/// Sorts a vector of numbers in ascending order with itertools' `sorted`,
/// which collects the items and sorts them with the standard stable sort;
/// the contract states that the result is sorted and holds the same items.
#[verifier::external_body]
fn sorted_values(v: Vec<u64>) -> (r: Vec<u64>)
    ensures
        sorted_u64(r@),
        r@.to_multiset() == v@.to_multiset(),
{
    v.into_iter().sorted().collect_vec()
}

/// All vectors of `n` Boolean values, built with itertools'
/// `multi_cartesian_product` over `n` copies of `[false, true]`: its
/// documentation gives the lexicographic order, the last position changing
/// fastest, and a single empty vector when `n` is zero.
#[verifier::external_body]
fn polarity_product(n: usize) -> (r: Vec<Vec<bool>>)
    requires
        n + 6 <= usize::BITS,
    ensures
        r@.map_values(|v: Vec<bool>| v@) == all_polarities(n as nat),
{
    std::iter::repeat([false, true]).take(n).multi_cartesian_product().collect()
}

/// The variables of `bdd` (see `variables`) put in ascending order.
pub fn variables_sorted(builder: &RobddBuilder, bdd: &BddPtr) -> (r: Vec<VarLabel>)
    requires
        builder.wf(),
        valid_ptr(builder@, *bdd),
    ensures
        strictly_increasing(label_values(r@)),
        label_values(r@).to_set() == support(builder@, *bdd),
        label_values(r@) == ordered_support(builder@, *bdd),
        forall|x: u64| #[trigger] label_values(r@).contains(x) <==> depends_on(builder@, *bdd, x),
{
    let vs = variables(builder, bdd);
    let mut values: Vec<u64> = Vec::new();
    let mut i: usize = 0;
    while i < vs.len()
        invariant
            i <= vs@.len(),
            values@ == label_values(vs@).take(i as int),
        decreases vs@.len() - i,
    {
        values.push(vs[i].0);
        i = i + 1;
        assert(values@ =~= label_values(vs@).take(i as int));
    }
    assert(values@ =~= label_values(vs@));
    let sorted = sorted_values(values);
    proof {
        lemma_sorted_unique(sorted@, label_values(vs@));
    }
    let mut r: Vec<VarLabel> = Vec::new();
    let mut j: usize = 0;
    while j < sorted.len()
        invariant
            j <= sorted@.len(),
            label_values(r@) == sorted@.take(j as int),
        decreases sorted@.len() - j,
    {
        let ghost old_r = r@;
        let x = sorted[j];
        r.push(VarLabel(x));
        assert(r@ == old_r.push(VarLabel(x)));
        assert(label_values(r@) =~= label_values(old_r).push(x));
        j = j + 1;
        assert(label_values(r@) =~= sorted@.take(j as int));
    }
    proof {
        assert(label_values(r@) =~= sorted@);
        let vs_spec = ordered_support(builder@, *bdd);
        assert(strictly_increasing(vs_spec) && vs_spec.to_set() == support(builder@, *bdd));
        lemma_increasing_unique(label_values(r@), vs_spec);
        assert forall|x: u64| #[trigger] label_values(r@).contains(x) <==> depends_on(builder@, *bdd, x) by {
            assert(label_values(vs@).contains(x) <==> depends_on(builder@, *bdd, x));
            assert(label_values(r@).to_set().contains(x) == label_values(r@).contains(x));
            assert(label_values(vs@).to_set().contains(x) == label_values(vs@).contains(x));
        }
    }
    r
}

/// `r` in `t2` denotes `p` of `t` with the first `n` variables of `ls` set to
/// the values of `xs`.
#[verifier::opaque]
spec fn restricted_to(t2: NodeTable, r: BddPtr, t: NodeTable, p: BddPtr, ls: Seq<u64>, xs: Seq<bool>, n: nat) -> bool {
    forall|a: Assignment| #[trigger] eval(t2, r, a) == eval(t, p, assignment_from(a, ls, xs, n))
}

/// Conditions `bdd` on `varlabels[i] = xs[i]` for every `i` in turn. Gives
/// `Some(value)` when the result is constant (so for every assignment that
/// agrees with the given values, `bdd` has that value), and `None` otherwise.
pub fn eval_assignment(
    builder: &mut RobddBuilder,
    bdd: BddPtr,
    varlabels: &[VarLabel],
    xs: &[bool],
) -> (r: Option<bool>)
    requires
        old(builder).wf(),
        valid_ptr(old(builder)@, bdd),
        xs@.len() <= varlabels@.len(),
    ensures
        final(builder).wf(),
        extends(old(builder)@, final(builder)@),
        final(builder)@.len() == old(builder)@.len(),
        r == if restriction_constant(old(builder)@, bdd, label_values(varlabels@), xs@) {
            Some(restricted_value(old(builder)@, bdd, label_values(varlabels@), xs@, |x: u64| false))
        } else {
            None::<bool>
        },
        support(old(builder)@, bdd).subset_of(
            label_values(varlabels@).take(xs@.len() as int).to_set(),
        ) ==> r is Some,
{
    let ghost t0 = builder@;
    let ghost ls = label_values(varlabels@);
    let mut ev = bdd;
    let mut i: usize = 0;
    proof {
        lemma_extends_refl(t0);
        assert(restricted_to(t0, ev, t0, bdd, ls, xs@, 0)) by {
            reveal(restricted_to);
        }
    }
    while i < xs.len()
        invariant
            builder.wf(),
            extends(t0, builder@),
            builder@.len() == t0.len(),
            i <= xs@.len(),
            xs@.len() <= varlabels@.len(),
            ls == label_values(varlabels@),
            valid_ptr(builder@, ev),
            restricted_to(builder@, ev, t0, bdd, ls, xs@, i as nat),
            forall|x: u64|
                #[trigger] support(builder@, ev).contains(x) ==> support(t0, bdd).contains(x) && !ls.take(
                    i as int,
                ).contains(x),
        decreases xs@.len() - i,
    {
        let ghost t1 = builder@;
        let ghost ev0 = ev;
        ev = builder.condition(ev, varlabels[i], xs[i]);
        proof {
            let t2 = builder@;
            lemma_extends_trans(t0, t1, t2);
            assert(restricted_to(t2, ev, t0, bdd, ls, xs@, (i + 1) as nat)) by {
                reveal(restricted_to);
                assert forall|a: Assignment| #[trigger]
                    eval(t2, ev, a) == eval(t0, bdd, assignment_from(a, ls, xs@, (i + 1) as nat)) by {
                    lemma_restricts_at(t2, ev, t1, ev0, ls[i as int], xs@[i as int], a);
                    assert(eval(t1, ev0, assign(a, ls[i as int], xs@[i as int])) == eval(
                        t0,
                        bdd,
                        assignment_from(assign(a, ls[i as int], xs@[i as int]), ls, xs@, i as nat),
                    ));
                }
            }
            assert forall|x: u64| #[trigger] support(t2, ev).contains(x) implies support(
                t0,
                bdd,
            ).contains(x) && !ls.take(i + 1).contains(x) by {
                assert(support(t1, ev0).contains(x));
                assert(x != ls[i as int]);
                if ls.take(i + 1).contains(x) {
                    let k = choose|k: int| 0 <= k < i + 1 && #[trigger] ls.take(i + 1)[k] == x;
                    assert(ls.take(i as int)[k] == x);
                }
            }
        }
        i = i + 1;
    }
    let ghost t = builder@;
    proof {
        assert forall|a: Assignment| #[trigger] eval(t, ev, a) == restricted_value(t0, bdd, ls, xs@, a) by {
            reveal(restricted_to);
        }
    }
    if ev.is_const() {
        proof {
            assert forall|a: Assignment, b: Assignment|
                #[trigger] restricted_value(t0, bdd, ls, xs@, a) == #[trigger] restricted_value(t0, bdd, ls, xs@, b) by {
                assert(eval(t, ev, a) == eval(t, ev, b));
            }
            assert(eval(t, ev, |x: u64| false) == restricted_value(t0, bdd, ls, xs@, |x: u64| false));
        }
        Some(ev.is_true())
    } else {
        proof {
            lemma_depends(t, ev);
            let a = choose|a: Assignment|
                eval(t, ev, assign(a, ev.var, true)) != eval(t, ev, assign(a, ev.var, false));
            assert(restricted_value(t0, bdd, ls, xs@, assign(a, ev.var, true)) != restricted_value(
                t0,
                bdd,
                ls,
                xs@,
                assign(a, ev.var, false),
            ));
            lemma_eval_unfold(t, ev, a);
            assert(support(t, ev).contains(ev.var));
            assert(!ls.take(xs@.len() as int).contains(ev.var));
            assert(support(t0, bdd).contains(ev.var));
            assert(!label_values(varlabels@).take(xs@.len() as int).to_set().contains(ev.var));
        }
        None
    }
}

/// The number of variables of `p` is the length of their ordered list.
pub proof fn lemma_ordered_support_len(t: NodeTable, p: BddPtr, s: Seq<u64>)
    requires
        strictly_increasing(s),
        s.to_set() == support(t, p),
    ensures
        s.len() == support(t, p).len(),
        ordered_support(t, p) == s,
{
    assert(s.no_duplicates());
    s.unique_seq_to_set();
    let o = ordered_support(t, p);
    assert(strictly_increasing(o) && o.to_set() == support(t, p));
    lemma_increasing_unique(o, s);
}

/// Every model of `bdd` over its variables in increasing order, as vectors
/// of values in lexicographic order (`false` first).
pub fn all_models(builder: &mut RobddBuilder, bdd: BddPtr) -> (r: Vec<Vec<bool>>)
    requires
        old(builder).wf(),
        valid_ptr(old(builder)@, bdd),
        support(old(builder)@, bdd).len() + 6 <= usize::BITS,
    ensures
        final(builder).wf(),
        extends(old(builder)@, final(builder)@),
        final(builder)@.len() == old(builder)@.len(),
        r@.map_values(|v: Vec<bool>| v@) == models(old(builder)@, bdd),
{
    let ghost t0 = builder@;
    let vars = variables_sorted(builder, &bdd);
    let ghost vs = label_values(vars@);
    proof {
        lemma_ordered_support_len(t0, bdd, vs);
        lemma_all_polarities_len(vs.len());
        lemma_extends_refl(t0);
    }
    let nvars = vars.len();
    let combinations = polarity_product(nvars);
    let ghost all = all_polarities(nvars as nat);
    let ghost pred = |xs: Seq<bool>| is_model(t0, bdd, vs, xs);
    assert(combinations@.len() == all.len());
    let mut out: Vec<Vec<bool>> = Vec::new();
    let mut i: usize = 0;
    while i < combinations.len()
        invariant
            builder.wf(),
            extends(t0, builder@),
            builder@.len() == t0.len(),
            valid_ptr(t0, bdd),
            crate::builder::table_wf(t0),
            i <= combinations@.len(),
            combinations@.map_values(|v: Vec<bool>| v@) == all,
            all == all_polarities(nvars as nat),
            vs == label_values(vars@),
            vs.len() == nvars,
            vs.to_set() == support(t0, bdd),
            forall|k: int| 0 <= k < all.len() ==> #[trigger] all[k].len() == nvars,
            pred == (|xs: Seq<bool>| is_model(t0, bdd, vs, xs)),
            out@.map_values(|v: Vec<bool>| v@) == all.take(i as int).filter(pred),
        decreases combinations@.len() - i,
    {
        let xs = &combinations[i];
        assert(xs@ == all[i as int]);
        let ghost t1 = builder@;
        proof {
            lemma_eval_extends(t0, t1, bdd);
            assert(vs.take(xs@.len() as int) =~= vs);
        }
        let value = eval_assignment(builder, bdd, vars.as_slice(), xs.as_slice());
        proof {
            lemma_extends_trans(t0, t1, builder@);
        }
        let ok = value.expect("assignments are total");
        proof {
            assert(ok == is_model(t0, bdd, vs, xs@)) by {
                assert(eval(t1, bdd, assignment_from(|x: u64| false, vs, xs@, xs@.len())) == eval(
                    t0,
                    bdd,
                    assignment_from(|x: u64| false, vs, xs@, xs@.len()),
                ));
            }
            reveal(Seq::filter);
            assert(all.take(i + 1).drop_last() =~= all.take(i as int));
        }
        let ghost old_out = out@;
        if ok {
            let copy = xs.clone();
            assert(copy@ =~= xs@);
            out.push(copy);
            assert(out@.map_values(|v: Vec<bool>| v@) =~= old_out.map_values(|v: Vec<bool>| v@).push(
                xs@,
            ));
        } else {
            assert(out@.map_values(|v: Vec<bool>| v@) =~= old_out.map_values(|v: Vec<bool>| v@));
        }
        i = i + 1;
    }
    proof {
        assert(all.take(all.len() as int) =~= all);
        assert(out@.map_values(|v: Vec<bool>| v@) == models(t0, bdd));
    }
    out
}

/// The models of `bdd` (see `all_models`) laid end to end.
pub fn all_models_flat(builder: &mut RobddBuilder, bdd: BddPtr) -> (r: Vec<bool>)
    requires
        old(builder).wf(),
        valid_ptr(old(builder)@, bdd),
        support(old(builder)@, bdd).len() + 6 <= usize::BITS,
    ensures
        final(builder).wf(),
        extends(old(builder)@, final(builder)@),
        final(builder)@.len() == old(builder)@.len(),
        r@ == models(old(builder)@, bdd).flatten(),
        r@.len() == ordered_support(old(builder)@, bdd).len() * models(old(builder)@, bdd).len(),
{
    proof {
        lemma_models_width(old(builder)@, bdd);
        lemma_flatten_uniform_len(models(old(builder)@, bdd), ordered_support(old(builder)@, bdd).len());
    }
    let ms = all_models(builder, bdd);
    let ghost m = ms@.map_values(|v: Vec<bool>| v@);
    let mut out: Vec<bool> = Vec::new();
    let mut i: usize = 0;
    while i < ms.len()
        invariant
            i <= ms@.len(),
            m == ms@.map_values(|v: Vec<bool>| v@),
            out@ == m.take(i as int).flatten(),
        decreases ms@.len() - i,
    {
        let row = &ms[i];
        let mut j: usize = 0;
        let ghost before = out@;
        while j < row.len()
            invariant
                j <= row@.len(),
                out@ == before + row@.take(j as int),
            decreases row@.len() - j,
        {
            out.push(row[j]);
            j = j + 1;
            assert(out@ =~= before + row@.take(j as int));
        }
        proof {
            assert(row@.take(row@.len() as int) =~= row@);
            assert(m.take(i + 1) =~= m.take(i as int).push(m[i as int]));
            m.take(i as int).lemma_flatten_push(m[i as int]);
        }
        i = i + 1;
    }
    proof {
        assert(m.take(m.len() as int) =~= m);
    }
    out
}

/// Every vector of values for `vars`, in lexicographic order, each paired
/// with the value of `bdd` under it.
pub fn all_assignments(builder: &mut RobddBuilder, vars: &[VarLabel], bdd: BddPtr) -> (r: Vec<(Vec<bool>, bool)>)
    requires
        old(builder).wf(),
        valid_ptr(old(builder)@, bdd),
        support(old(builder)@, bdd).subset_of(label_values(vars@).to_set()),
        vars@.len() + 6 <= usize::BITS,
    ensures
        final(builder).wf(),
        extends(old(builder)@, final(builder)@),
        final(builder)@.len() == old(builder)@.len(),
        r@.len() == all_polarities(vars@.len() as nat).len(),
        forall|i: int|
            0 <= i < r@.len() ==> (#[trigger] r@[i]).0@ == all_polarities(vars@.len() as nat)[i]
                && r@[i].1 == is_model(old(builder)@, bdd, label_values(vars@), r@[i].0@),
{
    let ghost t0 = builder@;
    let ghost vs = label_values(vars@);
    let nvars = vars.len();
    proof {
        lemma_all_polarities_len(nvars as nat);
        lemma_extends_refl(t0);
    }
    let combinations = polarity_product(nvars);
    let ghost all = all_polarities(nvars as nat);
    assert(combinations@.len() == all.len());
    let mut out: Vec<(Vec<bool>, bool)> = Vec::new();
    let mut i: usize = 0;
    while i < combinations.len()
        invariant
            builder.wf(),
            extends(t0, builder@),
            builder@.len() == t0.len(),
            valid_ptr(t0, bdd),
            crate::builder::table_wf(t0),
            i <= combinations@.len(),
            combinations@.map_values(|v: Vec<bool>| v@) == all,
            all == all_polarities(nvars as nat),
            vs == label_values(vars@),
            vs.len() == nvars,
            support(t0, bdd).subset_of(vs.to_set()),
            forall|k: int| 0 <= k < all.len() ==> #[trigger] all[k].len() == nvars,
            out@.len() == i,
            forall|k: int|
                0 <= k < i ==> (#[trigger] out@[k]).0@ == all[k] && out@[k].1 == is_model(
                    t0,
                    bdd,
                    vs,
                    out@[k].0@,
                ),
        decreases combinations@.len() - i,
    {
        let xs = &combinations[i];
        assert(xs@ == all[i as int]);
        let ghost t1 = builder@;
        proof {
            lemma_eval_extends(t0, t1, bdd);
            assert(vs.take(xs@.len() as int) =~= vs);
        }
        let value = eval_assignment(builder, bdd, vars, xs.as_slice());
        proof {
            lemma_extends_trans(t0, t1, builder@);
        }
        let ok = value.expect("assignments are total");
        proof {
            assert(eval(t1, bdd, assignment_from(|x: u64| false, vs, xs@, xs@.len())) == eval(
                t0,
                bdd,
                assignment_from(|x: u64| false, vs, xs@, xs@.len()),
            ));
        }
        let copy = xs.clone();
        assert(copy@ =~= xs@);
        out.push((copy, ok));
        i = i + 1;
    }
    out
}

/// All models of a diagram in flat form: the variables in increasing order,
/// every vector of values for them laid end to end, and the models among
/// them laid end to end.
#[derive(Clone, Debug)]
pub struct Models {
    pub nvars: usize,
    pub count: usize,
    pub vars: Vec<u64>,
    pub assignments: Vec<bool>,
    pub models: Vec<bool>,
}

/// The `Models` record of `bdd`.
pub fn bdd_all_models(builder: &mut RobddBuilder, bdd: BddPtr) -> (r: Models)
    requires
        old(builder).wf(),
        valid_ptr(old(builder)@, bdd),
        support(old(builder)@, bdd).len() + 6 <= usize::BITS,
    ensures
        final(builder).wf(),
        extends(old(builder)@, final(builder)@),
        final(builder)@.len() == old(builder)@.len(),
        r.nvars == ordered_support(old(builder)@, bdd).len(),
        r.vars@ == ordered_support(old(builder)@, bdd),
        r.count == models(old(builder)@, bdd).len(),
        r.models@ == models(old(builder)@, bdd).flatten(),
        r.models@.len() == r.nvars * r.count,
        r.assignments@ == all_polarities(r.nvars as nat).flatten(),
{
    let ghost t0 = builder@;
    let vars = variables_sorted(builder, &bdd);
    let ghost vs = label_values(vars@);
    proof {
        lemma_ordered_support_len(t0, bdd, vs);
        lemma_models_width(t0, bdd);
        lemma_flatten_uniform_len(models(t0, bdd), ordered_support(t0, bdd).len());
    }
    let nvars = vars.len();
    let assignments = all_assignments(builder, vars.as_slice(), bdd);
    let ghost all = all_polarities(nvars as nat);
    let ghost pred = |xs: Seq<bool>| is_model(t0, bdd, vs, xs);
    let mut models: Vec<bool> = Vec::new();
    let mut flat: Vec<bool> = Vec::new();
    let mut count: usize = 0;
    let mut i: usize = 0;
    while i < assignments.len()
        invariant
            i <= assignments@.len(),
            assignments@.len() == all.len(),
            forall|k: int|
                0 <= k < assignments@.len() ==> (#[trigger] assignments@[k]).0@ == all[k]
                    && assignments@[k].1 == pred(all[k]),
            flat@ == all.take(i as int).flatten(),
            models@ == all.take(i as int).filter(pred).flatten(),
            count == all.take(i as int).filter(pred).len(),
            count <= i,
        decreases assignments@.len() - i,
    {
        let (row, ok) = (&assignments[i].0, assignments[i].1);
        let ghost fb = flat@;
        let ghost mb = models@;
        let mut j: usize = 0;
        while j < row.len()
            invariant
                j <= row@.len(),
                flat@ == fb + row@.take(j as int),
                models@ == mb + (if ok {
                    row@.take(j as int)
                } else {
                    Seq::empty()
                }),
            decreases row@.len() - j,
        {
            flat.push(row[j]);
            if ok {
                models.push(row[j]);
            }
            j = j + 1;
            assert(flat@ =~= fb + row@.take(j as int));
            assert(models@ =~= mb + (if ok {
                row@.take(j as int)
            } else {
                Seq::empty()
            }));
        }
        proof {
            assert(row@.take(row@.len() as int) =~= row@);
            assert(all.take(i + 1) =~= all.take(i as int).push(all[i as int]));
            all.take(i as int).lemma_flatten_push(all[i as int]);
            reveal(Seq::filter);
            assert(all.take(i + 1).drop_last() =~= all.take(i as int));
            if ok {
                all.take(i as int).filter(pred).lemma_flatten_push(all[i as int]);
            } else {
                assert(models@ =~= mb);
            }
        }
        if ok {
            count = count + 1;
        }
        i = i + 1;
    }
    let mut values: Vec<u64> = Vec::new();
    let mut k: usize = 0;
    while k < vars.len()
        invariant
            k <= vars@.len(),
            values@ == label_values(vars@).take(k as int),
        decreases vars@.len() - k,
    {
        values.push(vars[k].0);
        k = k + 1;
        assert(values@ =~= label_values(vars@).take(k as int));
    }
    proof {
        assert(values@ =~= vs);
        assert(all.take(all.len() as int) =~= all);
    }
    Models { nvars, count, vars: values, assignments: flat, models }
}

/// Every Boolean vector of length `n` occurs in `all_polarities(n)`.
pub proof fn lemma_all_polarities_complete(n: nat, xs: Seq<bool>)
    requires
        xs.len() == n,
    ensures
        all_polarities(n).contains(xs),
    decreases n,
{
    if n == 0 {
        assert(xs =~= Seq::<bool>::empty());
        assert(all_polarities(n)[0] == xs);
    } else {
        let m = (n - 1) as nat;
        let rest = all_polarities(m);
        let tail = xs.drop_first();
        lemma_all_polarities_complete(m, tail);
        let j = choose|j: int| 0 <= j < rest.len() && rest[j] == tail;
        assert(xs =~= seq![xs[0]] + tail);
        if xs[0] {
            assert(all_polarities(n)[rest.len() + j] == seq![true] + rest[j]);
            assert(all_polarities(n)[rest.len() + j] == xs);
        } else {
            assert(all_polarities(n)[j] == seq![false] + rest[j]);
            assert(all_polarities(n)[j] == xs);
        }
    }
}

/// With distinct variables, the overriding assignment gives each listed
/// variable its listed value.
pub proof fn lemma_assignment_from_at(a: Assignment, ls: Seq<u64>, xs: Seq<bool>, n: nat, i: int)
    requires
        n <= ls.len(),
        n <= xs.len(),
        strictly_increasing(ls),
        0 <= i < n,
    ensures
        assignment_from(a, ls, xs, n)(ls[i]) == xs[i],
    decreases n,
{
    if i == n - 1 {
        lemma_assignment_from_keeps(assign(a, ls[i], xs[i]), ls, xs, (n - 1) as nat, ls[i]);
    } else {
        lemma_assignment_from_at(assign(a, ls[n - 1], xs[n - 1]), ls, xs, (n - 1) as nat, i);
    }
}

/// The overriding assignment leaves alone the variables it does not list.
pub proof fn lemma_assignment_from_keeps(a: Assignment, ls: Seq<u64>, xs: Seq<bool>, n: nat, v: u64)
    requires
        n <= ls.len(),
        forall|k: int| 0 <= k < n ==> ls[k] != v,
    ensures
        assignment_from(a, ls, xs, n)(v) == a(v),
    decreases n,
{
    if n > 0 {
        lemma_assignment_from_keeps(assign(a, ls[n - 1], xs[n - 1]), ls, xs, (n - 1) as nat, v);
    }
}

/// Every model vector has one value per variable of `p`.
pub proof fn lemma_models_width(t: NodeTable, p: BddPtr)
    ensures
        forall|i: int|
            0 <= i < models(t, p).len() ==> #[trigger] models(t, p)[i].len() == ordered_support(
                t,
                p,
            ).len(),
{
    let vs = ordered_support(t, p);
    let all = all_polarities(vs.len());
    lemma_all_polarities_len(vs.len());
    broadcast use vstd::seq_lib::group_filter_ensures;

    assert forall|i: int| 0 <= i < models(t, p).len() implies #[trigger] models(t, p)[i].len()
        == vs.len() by {
        let m = models(t, p);
        let pred = |xs: Seq<bool>| is_model(t, p, vs, xs);
        assert(m == all.filter(pred));
        assert(m.contains(m[i]));
        all.lemma_filter_contains_rev(pred, m[i]);
        let j = choose|j: int| 0 <= j < all.len() && all[j] == m[i];
    }
}

/// Laying end to end `k` vectors of length `n` gives `n * k` values.
pub proof fn lemma_flatten_uniform_len(s: Seq<Seq<bool>>, n: nat)
    requires
        forall|i: int| 0 <= i < s.len() ==> #[trigger] s[i].len() == n,
    ensures
        s.flatten().len() == n * s.len(),
    decreases s.len(),
{
    if s.len() > 0 {
        let r = s.drop_first();
        assert forall|i: int| 0 <= i < r.len() implies #[trigger] r[i].len() == n by {
            assert(r[i] == s[i + 1]);
        }
        lemma_flatten_uniform_len(r, n);
        let k = s.len();
        assert(n * k == n + n * (k - 1)) by (nonlinear_arith);
    }
}

/// The first pair for a variable sets its value.
pub proof fn lemma_assignment_from_first(a: Assignment, ls: Seq<u64>, xs: Seq<bool>, n: nat, i: int)
    requires
        n <= ls.len(),
        n <= xs.len(),
        0 <= i < n,
        forall|k: int| 0 <= k < i ==> ls[k] != ls[i],
    ensures
        assignment_from(a, ls, xs, n)(ls[i]) == xs[i],
    decreases n,
{
    if i == n - 1 {
        lemma_assignment_from_keeps(assign(a, ls[i], xs[i]), ls, xs, (n - 1) as nat, ls[i]);
    } else {
        lemma_assignment_from_first(assign(a, ls[n - 1], xs[n - 1]), ls, xs, (n - 1) as nat, i);
    }
}

/// Variable `v` is given value `b` by one of the pairs `(ls[i], xs[i])`.
pub open spec fn has_pair(ls: Seq<u64>, xs: Seq<bool>, v: u64, b: bool) -> bool {
    exists|i: int| 0 <= i < ls.len() && ls[i] == v && xs[i] == b
}

/// With distinct variables, the assignment built from pairs depends only
/// on the set of pairs, not on their order.
pub proof fn lemma_assignment_from_pairs(
    a: Assignment,
    ls: Seq<u64>,
    xs: Seq<bool>,
    ls2: Seq<u64>,
    xs2: Seq<bool>,
)
    requires
        ls.len() == xs.len(),
        ls2.len() == xs2.len(),
        ls.no_duplicates(),
        ls2.no_duplicates(),
        forall|v: u64, b: bool| has_pair(ls, xs, v, b) <==> has_pair(ls2, xs2, v, b),
    ensures
        assignment_from(a, ls, xs, ls.len()) == assignment_from(a, ls2, xs2, ls2.len()),
{
    let f1 = assignment_from(a, ls, xs, ls.len());
    let f2 = assignment_from(a, ls2, xs2, ls2.len());
    assert forall|v: u64| #[trigger] assignment_from(a, ls, xs, ls.len())(v) == assignment_from(
        a,
        ls2,
        xs2,
        ls2.len(),
    )(v) by {
        if exists|i: int| 0 <= i < ls.len() && ls[i] == v {
            let i = choose|i: int| 0 <= i < ls.len() && ls[i] == v;
            lemma_assignment_from_first(a, ls, xs, ls.len(), i);
            assert(has_pair(ls, xs, v, xs[i]));
            let j = choose|j: int| 0 <= j < ls2.len() && ls2[j] == v && xs2[j] == xs[i];
            lemma_assignment_from_first(a, ls2, xs2, ls2.len(), j);
        } else {
            lemma_assignment_from_keeps(a, ls, xs, ls.len(), v);
            if exists|j: int| 0 <= j < ls2.len() && ls2[j] == v {
                let j = choose|j: int| 0 <= j < ls2.len() && ls2[j] == v;
                assert(has_pair(ls2, xs2, v, xs2[j]));
                let i = choose|i: int| 0 <= i < ls.len() && ls[i] == v && xs[i] == xs2[j];
            }
            lemma_assignment_from_keeps(a, ls2, xs2, ls2.len(), v);
        }
    }
    assert(f1 =~= f2);
}

/// `eval_assignment` does not depend on the order of the pairs: for
/// distinct variables, any two lists of the same variable-value pairs (in
/// particular a list and any permutation of it) make the function constant
/// on the same terms and leave it the same value.
pub proof fn lemma_eval_assignment_order(
    t: NodeTable,
    p: BddPtr,
    ls: Seq<u64>,
    xs: Seq<bool>,
    ls2: Seq<u64>,
    xs2: Seq<bool>,
)
    requires
        ls.len() == xs.len(),
        ls2.len() == xs2.len(),
        ls.no_duplicates(),
        ls2.no_duplicates(),
        forall|v: u64, b: bool| has_pair(ls, xs, v, b) <==> has_pair(ls2, xs2, v, b),
    ensures
        forall|a: Assignment|
            #[trigger] restricted_value(t, p, ls, xs, a) == restricted_value(t, p, ls2, xs2, a),
        restriction_constant(t, p, ls, xs) == restriction_constant(t, p, ls2, xs2),
{
    assert forall|a: Assignment|
        #[trigger] restricted_value(t, p, ls, xs, a) == restricted_value(t, p, ls2, xs2, a) by {
        lemma_assignment_from_pairs(a, ls, xs, ls2, xs2);
    }
    if restriction_constant(t, p, ls, xs) {
        assert forall|a: Assignment, b: Assignment|
            #[trigger] restricted_value(t, p, ls2, xs2, a) == #[trigger] restricted_value(t, p, ls2, xs2, b) by {
            assert(restricted_value(t, p, ls, xs, a) == restricted_value(t, p, ls, xs, b));
        }
    }
    if restriction_constant(t, p, ls2, xs2) {
        assert forall|a: Assignment, b: Assignment|
            #[trigger] restricted_value(t, p, ls, xs, a) == #[trigger] restricted_value(t, p, ls, xs, b) by {
            assert(restricted_value(t, p, ls2, xs2, a) == restricted_value(t, p, ls2, xs2, b));
        }
    }
}

/// The list of models is complete and exact: a vector of values for the
/// variables of `p` (in increasing order) is in it exactly when it is a
/// model of `p`.
pub proof fn lemma_models_exact(t: NodeTable, p: BddPtr, xs: Seq<bool>)
    requires
        xs.len() == ordered_support(t, p).len(),
    ensures
        models(t, p).contains(xs) <==> is_model(t, p, ordered_support(t, p), xs),
{
    let vs = ordered_support(t, p);
    let pred = |ys: Seq<bool>| is_model(t, p, vs, ys);
    let all = all_polarities(vs.len());
    lemma_all_polarities_complete(vs.len(), xs);
    broadcast use vstd::seq_lib::group_filter_ensures;

    if is_model(t, p, vs, xs) {
        let j = choose|j: int| 0 <= j < all.len() && all[j] == xs;
        all.lemma_filter_contains(pred, j);
    }
    if models(t, p).contains(xs) {
        let j = choose|j: int| 0 <= j < models(t, p).len() && models(t, p)[j] == xs;
        all.lemma_filter_pred(pred, j);
    }
}

/// The support of a pointer is a finite set.
pub proof fn lemma_support_finite(t: NodeTable, p: BddPtr)
    ensures
        support(t, p).finite(),
    decreases crate::builder::rank(p),
{
    if !p.special && valid_ptr(t, p) {
        let n = crate::builder::node_at(t, p);
        if crate::builder::below(n.low, p.var) {
            lemma_support_finite(t, n.low);
        }
        if crate::builder::below(n.high, p.var) {
            lemma_support_finite(t, n.high);
        }
    }
}

/// Every finite set of numbers has an enumeration in increasing order.
pub proof fn lemma_increasing_enum_exists(s: Set<u64>)
    requires
        s.finite(),
    ensures
        exists|q: Seq<u64>| strictly_increasing(q) && q.to_set() == s,
    decreases s.len(),
{
    if s.len() == 0 {
        assert(s =~= Set::empty());
        assert(Seq::<u64>::empty().to_set() =~= s);
        assert(strictly_increasing(Seq::<u64>::empty()));
    } else {
        let leq = |a: u64, b: u64| a <= b;
        assert(vstd::relations::total_ordering(leq));
        s.find_unique_maximal_ensures(leq);
        let m = s.find_unique_maximal(leq);
        let rest = s.remove(m);
        lemma_increasing_enum_exists(rest);
        let q = choose|q: Seq<u64>| strictly_increasing(q) && q.to_set() == rest;
        let q2 = q.push(m);
        assert forall|i: int| 0 <= i < q.len() implies #[trigger] q[i] < m by {
            assert(q.to_set().contains(q[i]));
            assert(s.contains(q[i]));
            assert(leq(m, q[i]) ==> leq(q[i], m));
        }
        assert(strictly_increasing(q2)) by {
            assert forall|i: int, j: int| 0 <= i < j < q2.len() implies q2[i] < q2[j] by {
                if j == q.len() {
                    assert(q2[i] == q[i]);
                } else {
                    assert(q2[i] == q[i] && q2[j] == q[j]);
                }
            }
        }
        assert forall|x: u64| q2.to_set().contains(x) <==> s.contains(x) by {
            if q2.to_set().contains(x) {
                let i = choose|i: int| 0 <= i < q2.len() && q2[i] == x;
                if i < q.len() {
                    assert(q[i] == x);
                    assert(q.to_set().contains(x));
                }
            }
            if s.contains(x) {
                if x == m {
                    assert(q2[q.len() as int] == x);
                } else {
                    assert(rest.contains(x));
                    let i = choose|i: int| 0 <= i < q.len() && q[i] == x;
                    assert(q2[i] == x);
                }
            }
        }
        assert(q2.to_set() =~= s);
    }
}

/// The ordered list of variables lists the support in increasing order.
pub proof fn lemma_ordered_support(t: NodeTable, p: BddPtr)
    ensures
        strictly_increasing(ordered_support(t, p)),
        ordered_support(t, p).to_set() == support(t, p),
{
    lemma_support_finite(t, p);
    lemma_increasing_enum_exists(support(t, p));
}

/// A diagram that is not constant has at least one model.
pub proof fn lemma_nonconstant_has_model(t: NodeTable, p: BddPtr)
    requires
        crate::builder::table_wf(t),
        valid_ptr(t, p),
        !p.special,
    ensures
        models(t, p).len() > 0,
{
    lemma_depends(t, p);
    let a0 = choose|a: Assignment| eval(t, p, assign(a, p.var, true)) != eval(t, p, assign(a, p.var, false));
    let a = if eval(t, p, assign(a0, p.var, true)) {
        assign(a0, p.var, true)
    } else {
        assign(a0, p.var, false)
    };
    assert(eval(t, p, a));
    lemma_support_finite(t, p);
    lemma_increasing_enum_exists(support(t, p));
    let vs = ordered_support(t, p);
    let xs = Seq::new(vs.len(), |i: int| a(vs[i]));
    let b = assignment_from(|x: u64| false, vs, xs, xs.len());
    assert forall|x: u64| #[trigger] support(t, p).contains(x) implies a(x) == b(x) by {
        assert(vs.to_set().contains(x));
        let i = choose|i: int| 0 <= i < vs.len() && vs[i] == x;
        lemma_assignment_from_at(|x: u64| false, vs, xs, xs.len(), i);
    }
    crate::builder::lemma_eval_support(t, p, a, b);
    lemma_models_exact(t, p, xs);
}

} // verus!
