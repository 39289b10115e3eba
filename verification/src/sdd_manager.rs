//! Variable trees (vtrees) for sentential decision diagrams: building a
//! balanced vtree from a variable order, the parent/height table of its
//! nodes in depth-first order, and least common ancestors in that table.

use vstd::prelude::*;
use crate::repr::VarLabel;

verus! {

/// A binary tree with data `N` at inner nodes and `L` at leaves.
pub enum BTree<N, L> {
    Node(N, Box<BTree<N, L>>, Box<BTree<N, L>>),
    Leaf(L),
}

/// A vtree: leaves hold the variables they order.
pub type VTree = BTree<(), Vec<VarLabel>>;

/// `t` is the vtree that splitting `order` in half `n` times gives: a leaf
/// with the whole order when `n` is zero, and otherwise a node over the
/// vtrees of the first `len / 2` variables and of the rest.
pub open spec fn is_even_split(t: VTree, order: Seq<VarLabel>, n: nat) -> bool
    decreases n,
{
    if n == 0 {
        t matches BTree::Leaf(v) && v@ == order
    } else {
        match t {
            BTree::Node(_, l, r) => is_even_split(*l, order.take((order.len() / 2) as int), (n - 1) as nat)
                && is_even_split(*r, order.skip((order.len() / 2) as int), (n - 1) as nat),
            BTree::Leaf(_) => false,
        }
    }
}

/// Every leaf of `t` lies at depth exactly `d`: `t` is a complete binary
/// tree of height `d`.
pub open spec fn leaves_at_depth(t: VTree, d: nat) -> bool
    decreases t,
{
    match t {
        BTree::Leaf(_) => d == 0,
        BTree::Node(_, l, r) => d > 0 && leaves_at_depth(*l, (d - 1) as nat) && leaves_at_depth(
            *r,
            (d - 1) as nat,
        ),
    }
}

/// The variables of the leaves of `t`, read left to right.
pub open spec fn leaf_vars(t: VTree) -> Seq<VarLabel>
    decreases t,
{
    match t {
        BTree::Leaf(v) => v@,
        BTree::Node(_, l, r) => leaf_vars(*l) + leaf_vars(*r),
    }
}

/// At every inner node of `t`, the left subtree holds the first half
/// (rounded down) of the node's variables.
pub open spec fn halved(t: VTree) -> bool
    decreases t,
{
    match t {
        BTree::Leaf(_) => true,
        BTree::Node(_, l, r) => leaf_vars(*l).len() == leaf_vars(t).len() / 2 && halved(*l) && halved(
            *r,
        ),
    }
}

/// An even split is a complete binary tree of height `n` whose leaves, read
/// left to right, give back the order, and where every inner node gives
/// the first half of its variables (rounded down) to its left subtree.
/// These three facts fix the tree: its shape, where each node cuts, and
/// what lies in each leaf.
pub proof fn lemma_even_split_shape(t: VTree, order: Seq<VarLabel>, n: nat)
    requires
        is_even_split(t, order, n),
    ensures
        leaves_at_depth(t, n),
        leaf_vars(t) == order,
        halved(t),
    decreases n,
{
    if n > 0 {
        if let BTree::Node(_, l, r) = t {
            let h = (order.len() / 2) as int;
            lemma_even_split_shape(*l, order.take(h), (n - 1) as nat);
            lemma_even_split_shape(*r, order.skip(h), (n - 1) as nat);
            assert(order.take(h) + order.skip(h) =~= order);
        }
    }
}

/// Generates an even vtree by splitting a variable order in half
/// `num_splits` times.
pub fn even_split(order: &[VarLabel], num_splits: usize) -> (r: VTree)
    ensures
        is_even_split(r, order@, num_splits as nat),
        leaves_at_depth(r, num_splits as nat),
        leaf_vars(r) == order@,
        halved(r),
    decreases num_splits,
{
    let r = if num_splits <= 0 {
        BTree::Leaf(vstd::slice::slice_to_vec(order))
    } else {
        let (l_s, r_s) = order.split_at(order.len() / 2);
        let l_tree = even_split(l_s, num_splits - 1);
        let r_tree = even_split(r_s, num_splits - 1);
        BTree::Node((), Box::new(l_tree), Box::new(r_tree))
    };
    proof {
        lemma_even_split_shape(r, order@, num_splits as nat);
    }
    r
}

/// The number of nodes of a tree, leaves included.
pub open spec fn tree_size<N, L>(t: BTree<N, L>) -> nat
    decreases t,
{
    match t {
        BTree::Leaf(_) => 1,
        BTree::Node(_, l, r) => 1 + tree_size(*l) + tree_size(*r),
    }
}

/// The entries, in depth-first left-first order, for the nodes of `t` when
/// its root is numbered `base`, lies at depth `level` and has parent
/// `parent`: each entry is a node's parent and depth.
pub open spec fn parent_entries<N, L>(t: BTree<N, L>, base: nat, level: nat, parent: Option<usize>) -> Seq<(Option<usize>, usize)>
    decreases t,
{
    match t {
        BTree::Leaf(_) => seq![(parent, level as usize)],
        BTree::Node(_, l, r) => seq![(parent, level as usize)] + parent_entries(
            *l,
            base + 1,
            level + 1,
            Some(base as usize),
        ) + parent_entries(*r, base + 1 + tree_size(*l), level + 1, Some(base as usize)),
    }
}

/// A parent table: entry 0 is the root (no parent, depth 0), and every other
/// entry names an earlier entry as parent, one level up.
pub open spec fn parent_table_wf(pv: Seq<(Option<usize>, usize)>) -> bool {
    &&& pv.len() > 0
    &&& pv[0] == (None::<usize>, 0usize)
    &&& forall|i: int|
        0 < i < pv.len() ==> (#[trigger] pv[i]).0 is Some && (pv[i].0->0 as int) < i
            && pv[pv[i].0->0 as int].1 + 1 == pv[i].1
}

pub proof fn lemma_parent_entries(t: BTree<(), Vec<VarLabel>>, base: nat, level: nat, parent: Option<usize>)
    requires
        base + tree_size(t) <= usize::MAX,
        level + tree_size(t) <= usize::MAX,
    ensures
        parent_entries(t, base, level, parent).len() == tree_size(t),
        parent_entries(t, base, level, parent)[0] == (parent, level as usize),
        forall|j: int|
            0 < j < tree_size(t) ==> {
                let e = #[trigger] parent_entries(t, base, level, parent)[j];
                &&& e.0 is Some
                &&& base <= e.0->0 < base + j
                &&& parent_entries(t, base, level, parent)[e.0->0 - base].1 + 1 == e.1
            },
    decreases t,
{
    match t {
        BTree::Leaf(_) => {},
        BTree::Node(_, l, r) => {
            let sl = tree_size(*l);
            lemma_parent_entries(*l, base + 1, level + 1, Some(base as usize));
            lemma_parent_entries(*r, base + 1 + sl, level + 1, Some(base as usize));
            let s = parent_entries(t, base, level, parent);
            let el = parent_entries(*l, base + 1, level + 1, Some(base as usize));
            let er = parent_entries(*r, base + 1 + sl, level + 1, Some(base as usize));
            assert(s =~= seq![(parent, level as usize)] + el + er);
            assert forall|j: int| 0 < j < tree_size(t) implies {
                let e = #[trigger] s[j];
                &&& e.0 is Some
                &&& base <= e.0->0 < base + j
                &&& s[e.0->0 - base].1 + 1 == e.1
            } by {
                if j <= sl {
                    assert(s[j] == el[j - 1]);
                    if j > 1 {
                        let e = el[j - 1];
                        assert(s[e.0->0 - base] == el[e.0->0 - (base + 1)]);
                    }
                } else {
                    assert(s[j] == er[j - 1 - sl]);
                    if j > 1 + sl {
                        let e = er[j - 1 - sl];
                        assert(s[e.0->0 - base] == er[e.0->0 - (base + 1 + sl)]);
                    }
                }
            }
        },
    }
}

/// Entry `e` of a table is entry `z` of a subtree's own table, placed in a
/// table where the subtree's root has parent `par` and depth `lv`, and the
/// subtree's nodes are numbered from `b`: depths grow by `lv`, the root's
/// parent is `par`, and every other parent index grows by `b`.
pub open spec fn placed(e: (Option<usize>, usize), z: (Option<usize>, usize), b: int, lv: int, par: Option<usize>) -> bool {
    &&& e.1 == z.1 + lv
    &&& z.0 is None ==> e.0 == par
    &&& z.0 is Some ==> e.0 is Some && e.0->0 == z.0->0 + b
}

/// The entries of a subtree at any position are its own table, placed.
pub proof fn lemma_entries_placed(t: BTree<(), Vec<VarLabel>>, b: nat, lv: nat, par: Option<usize>)
    requires
        b + tree_size(t) <= usize::MAX,
        lv + tree_size(t) <= usize::MAX,
    ensures
        parent_entries(t, b, lv, par).len() == parent_entries(t, 0, 0, None).len(),
        forall|i: int|
            0 <= i < tree_size(t) ==> placed(
                #[trigger] parent_entries(t, b, lv, par)[i],
                parent_entries(t, 0, 0, None)[i],
                b as int,
                lv as int,
                par,
            ),
        parent_entries(t, 0, 0, None)[0].0 is None,
        forall|i: int| 0 < i < tree_size(t) ==> (#[trigger] parent_entries(t, 0, 0, None)[i]).0 is Some,
    decreases t,
{
    lemma_parent_entries(t, b, lv, par);
    lemma_parent_entries(t, 0, 0, None);
    match t {
        BTree::Leaf(_) => {},
        BTree::Node(_, l, r) => {
            let sl = tree_size(*l);
            let s = parent_entries(t, b, lv, par);
            let z = parent_entries(t, 0, 0, None);
            let el = parent_entries(*l, b + 1, lv + 1, Some(b as usize));
            let er = parent_entries(*r, b + 1 + sl, lv + 1, Some(b as usize));
            let zl = parent_entries(*l, 1, 1, Some(0usize));
            let zr = parent_entries(*r, 1 + sl, 1, Some(0usize));
            let ol = parent_entries(*l, 0, 0, None);
            let or = parent_entries(*r, 0, 0, None);
            lemma_entries_placed(*l, b + 1, lv + 1, Some(b as usize));
            lemma_entries_placed(*r, b + 1 + sl, lv + 1, Some(b as usize));
            lemma_entries_placed(*l, 1, 1, Some(0usize));
            lemma_entries_placed(*r, 1 + sl, 1, Some(0usize));
            lemma_parent_entries(*l, b + 1, lv + 1, Some(b as usize));
            lemma_parent_entries(*r, b + 1 + sl, lv + 1, Some(b as usize));
            lemma_parent_entries(*l, 1, 1, Some(0usize));
            lemma_parent_entries(*r, 1 + sl, 1, Some(0usize));
            lemma_parent_entries(*l, 0, 0, None);
            lemma_parent_entries(*r, 0, 0, None);
            assert(s =~= seq![(par, lv as usize)] + el + er);
            assert(z =~= seq![(None::<usize>, 0usize)] + zl + zr);
            assert forall|i: int| 0 <= i < tree_size(t) implies placed(
                #[trigger] s[i],
                z[i],
                b as int,
                lv as int,
                par,
            ) by {
                if 1 <= i < 1 + sl {
                    assert(s[i] == el[i - 1]);
                    assert(z[i] == zl[i - 1]);
                    assert(placed(el[i - 1], ol[i - 1], (b + 1) as int, (lv + 1) as int, Some(b as usize)));
                    assert(placed(zl[i - 1], ol[i - 1], 1, 1, Some(0usize)));
                } else if i >= 1 + sl {
                    assert(s[i] == er[i - 1 - sl]);
                    assert(z[i] == zr[i - 1 - sl]);
                    assert(placed(er[i - 1 - sl], or[i - 1 - sl], (b + 1 + sl) as int, (lv + 1) as int, Some(b as usize)));
                    assert(placed(zr[i - 1 - sl], or[i - 1 - sl], (1 + sl) as int, 1, Some(0usize)));
                }
            }
            assert forall|i: int| 0 < i < tree_size(t) implies (#[trigger] z[i]).0 is Some by {
                if i < 1 + sl {
                    assert(z[i] == zl[i - 1]);
                } else {
                    assert(z[i] == zr[i - 1 - sl]);
                }
            }
        },
    }
}

/// The parent/depth table lists the vtree's nodes in depth-first,
/// left-first order. A leaf's table is its root alone. The table of
/// `Node(_, l, r)` is the root (no parent, depth 0); then, at indices
/// `1..1 + |l|`, the table of `l` with every depth one deeper, the root of
/// `l` getting parent 0 and every other parent index moved up by 1; then,
/// at the remaining indices, the table of `r` with every depth one deeper,
/// its root getting parent 0 and every other parent index moved up by
/// `1 + |l|`.
pub proof fn lemma_parent_table_preorder(t: VTree)
    requires
        tree_size(t) <= usize::MAX,
    ensures
        match t {
            BTree::Leaf(_) => parent_entries(t, 0, 0, None) == seq![(None::<usize>, 0usize)],
            BTree::Node(_, l, r) => {
                let tt = parent_entries(t, 0, 0, None);
                let tl = parent_entries(*l, 0, 0, None);
                let tr = parent_entries(*r, 0, 0, None);
                let sl = tree_size(*l);
                &&& tt.len() == 1 + tl.len() + tr.len()
                &&& tl.len() == sl
                &&& tt[0] == (None::<usize>, 0usize)
                &&& forall|i: int| 0 <= i < tl.len() ==> placed(#[trigger] tt[1 + i], tl[i], 1, 1, Some(0usize))
                &&& forall|i: int|
                    0 <= i < tr.len() ==> placed(#[trigger] tt[1 + sl + i], tr[i], (1 + sl) as int, 1, Some(0usize))
            },
        },
{
    lemma_parent_entries(t, 0, 0, None);
    match t {
        BTree::Leaf(_) => {
            assert(parent_entries(t, 0, 0, None) =~= seq![(None::<usize>, 0usize)]);
        },
        BTree::Node(_, l, r) => {
            let sl = tree_size(*l);
            let tt = parent_entries(t, 0, 0, None);
            let zl = parent_entries(*l, 1, 1, Some(0usize));
            let zr = parent_entries(*r, 1 + sl, 1, Some(0usize));
            lemma_entries_placed(*l, 1, 1, Some(0usize));
            lemma_entries_placed(*r, 1 + sl, 1, Some(0usize));
            lemma_parent_entries(*l, 0, 0, None);
            lemma_parent_entries(*r, 0, 0, None);
            assert(tt =~= seq![(None::<usize>, 0usize)] + zl + zr);
            assert forall|i: int| 0 <= i < sl implies #[trigger] tt[1 + i] == zl[i] by {}
            assert forall|i: int| 0 <= i < tree_size(*r) implies #[trigger] tt[1 + sl + i] == zr[i] by {}
        },
    }
}

fn parent_ptr_helper(cur: &VTree, level: usize, parent: Option<usize>, base: usize) -> (r: Vec<(Option<usize>, usize)>)
    requires
        base + tree_size(*cur) <= usize::MAX,
        level + tree_size(*cur) <= usize::MAX,
    ensures
        r@ == parent_entries(*cur, base as nat, level as nat, parent),
    decreases cur,
{
    match cur {
        BTree::Leaf(_) => vec![(parent, level)],
        BTree::Node(_, l, r) => {
            proof {
                lemma_parent_entries(**l, (base + 1) as nat, (level + 1) as nat, Some(base));
            }
            let mut lv = parent_ptr_helper(l, level + 1, Some(base), base + 1);
            let ls = lv.len();
            let mut rv = parent_ptr_helper(r, level + 1, Some(base), base + 1 + ls);
            let mut v = vec![(parent, level)];
            v.append(&mut lv);
            v.append(&mut rv);
            v
        },
    }
}

/// The parent/depth table of a vtree: for each node in depth-first
/// left-first order, the index of its parent and its depth. This is used
/// for an efficient least common ancestor.
pub fn into_parent_ptr_vec(vtree: &VTree) -> (r: Vec<(Option<usize>, usize)>)
    requires
        tree_size(*vtree) <= usize::MAX,
    ensures
        r@ == parent_entries(*vtree, 0, 0, None),
        parent_table_wf(r@),
{
    proof {
        lemma_parent_entries(*vtree, 0, 0, None);
    }
    parent_ptr_helper(vtree, 0, None, 0)
}

/// The ancestor of entry `i` at depth `d` (or the root when `d` is not
/// above `i`).
pub open spec fn ancestor_at(pv: Seq<(Option<usize>, usize)>, i: int, d: int) -> int
    decreases i,
{
    if i <= 0 || i >= pv.len() || pv[i].1 <= d || pv[i].0 is None || pv[i].0->0 >= i {
        i
    } else {
        ancestor_at(pv, pv[i].0->0 as int, d)
    }
}

/// In a parent table, an ancestor at a depth has exactly that depth, and
/// the root is the ancestor of everything at depth 0.
pub proof fn lemma_ancestor_at(pv: Seq<(Option<usize>, usize)>, i: int, d: int)
    requires
        parent_table_wf(pv),
        0 <= i < pv.len(),
        0 <= d <= pv[i].1,
    ensures
        0 <= ancestor_at(pv, i, d) < pv.len(),
        pv[ancestor_at(pv, i, d)].1 == d,
        ancestor_at(pv, i, d) <= i,
    decreases i,
{
    if i > 0 && pv[i].1 > d {
        lemma_ancestor_at(pv, pv[i].0->0 as int, d);
    } else if i == 0 {
        assert(pv[0].1 == 0);
    }
}

/// The index of the least common ancestor of entries `idx_a` and `idx_b`.
pub fn least_common_ancestor(parent_vec: &Vec<(Option<usize>, usize)>, idx_a: usize, idx_b: usize) -> (r: usize)
    requires
        parent_table_wf(parent_vec@),
        idx_a < parent_vec@.len(),
        idx_b < parent_vec@.len(),
    ensures
        r < parent_vec@.len(),
        parent_vec@[r as int].1 <= parent_vec@[idx_a as int].1,
        parent_vec@[r as int].1 <= parent_vec@[idx_b as int].1,
        ancestor_at(parent_vec@, idx_a as int, parent_vec@[r as int].1 as int) == r,
        ancestor_at(parent_vec@, idx_b as int, parent_vec@[r as int].1 as int) == r,
        forall|d: int|
            parent_vec@[r as int].1 < d <= parent_vec@[idx_a as int].1 && d <= parent_vec@[idx_b as int].1
                ==> ancestor_at(parent_vec@, idx_a as int, d) != ancestor_at(parent_vec@, idx_b as int, d),
    decreases idx_a + idx_b,
{
    let ghost pv = parent_vec@;
    // base cases
    if idx_a == idx_b {
        return idx_a;
    }
    let (a_par, a_h) = parent_vec[idx_a];
    let (b_par, b_h) = parent_vec[idx_b];
    if a_h == 0 {
        proof {
            assert(idx_a == 0) by {
                if idx_a > 0 {
                    assert(pv[idx_a as int].1 >= 1);
                }
            }
            lemma_ancestor_at(pv, idx_b as int, 0);
        }
        return idx_a;
    }
    if b_h == 0 {
        proof {
            assert(idx_b == 0) by {
                if idx_b > 0 {
                    assert(pv[idx_b as int].1 >= 1);
                }
            }
            lemma_ancestor_at(pv, idx_a as int, 0);
        }
        return idx_b;
    }
    assert(idx_a > 0 && idx_b > 0) by {
        assert(pv[0].1 == 0);
    }
    assert(pv[idx_a as int].0 is Some && pv[idx_b as int].0 is Some);
    if a_h == b_h {
        let pa = a_par.unwrap();
        let pb = b_par.unwrap();
        assert(pv[idx_a as int] == (a_par, a_h));
        assert(pv[pa as int].1 + 1 == a_h);
        assert(pv[pb as int].1 + 1 == b_h);
        let r = least_common_ancestor(parent_vec, pa, pb);
        proof {
            let d = pv[r as int].1 as int;
            assert forall|e: int| d < e <= pv[idx_a as int].1 && e <= pv[idx_b as int].1 implies
                ancestor_at(pv, idx_a as int, e) != ancestor_at(pv, idx_b as int, e) by {
                if e < a_h {
                    assert(ancestor_at(pv, idx_a as int, e) == ancestor_at(pv, pa as int, e));
                    assert(ancestor_at(pv, idx_b as int, e) == ancestor_at(pv, pb as int, e));
                }
            }
            assert(ancestor_at(pv, idx_a as int, d) == ancestor_at(pv, pa as int, d));
            assert(ancestor_at(pv, idx_b as int, d) == ancestor_at(pv, pb as int, d));
        }
        r
    } else {
        if a_h > b_h {
            least_common_ancestor(parent_vec, a_par.unwrap(), idx_b)
        } else {
            least_common_ancestor(parent_vec, idx_a, b_par.unwrap())
        }
    }
}

/// `idx_a` comes before `idx_b` in the depth-first order.
pub fn is_prime(vtree: &VTree, idx_a: usize, idx_b: usize) -> (r: bool)
    ensures
        r == (idx_a < idx_b),
{
    idx_a < idx_b
}

} // verus!
