//! A small teaching manager whose node tables feed a graph-drawing
//! traversal. Each variable has a list of nodes, and every pointer to a
//! variable resolves to the first node of that variable's list.

use vstd::prelude::*;
pub use crate::repr::{Bdd, BddNode};
use crate::repr::{BddPtr, PointerType, TableIndex, VarLabel};

verus! {

broadcast use vstd::string::to_string_from_display_ensures_for_str;

/// The node lists, one per variable.
pub type NodeLists = Seq<Seq<BddNode>>;

/// A node pointer can be resolved: its variable has a list and the list is
/// not empty.
pub open spec fn derefable(t: NodeLists, p: BddPtr) -> bool {
    p.special || (p.var < t.len() && t[p.var as int].len() > 0)
}

/// The node that every pointer to variable `v` resolves to.
pub open spec fn head(t: NodeLists, v: u64) -> BddNode {
    t[v as int][0]
}

/// What `deref` gives for `p`.
pub open spec fn deref_spec(t: NodeLists, p: BddPtr) -> Bdd {
    if p.special {
        if p.compl {
            Bdd::BddFalse
        } else {
            Bdd::BddTrue
        }
    } else {
        Bdd::Node(BddNode { low: head(t, p.var).low, high: head(t, p.var).high, var: VarLabel(p.var) })
    }
}

/// Following low and high edges from `p` reaches constants within `k`
/// steps on every path, resolving only resolvable pointers.
pub open spec fn descends(t: NodeLists, p: BddPtr, k: nat) -> bool
    decreases k,
{
    if p.special {
        true
    } else if k == 0 {
        false
    } else {
        derefable(t, p) && descends(t, head(t, p.var).low, (k - 1) as nat) && descends(
            t,
            head(t, p.var).high,
            (k - 1) as nat,
        )
    }
}

/// Every path from `p` ends in a constant.
pub open spec fn finite_from(t: NodeLists, p: BddPtr) -> bool {
    exists|k: nat| descends(t, p, k)
}

/// `t2` keeps every node of `t` where it was, has the same variables, and
/// may have more nodes.
pub open spec fn grows(t: NodeLists, t2: NodeLists) -> bool {
    &&& t2.len() == t.len()
    &&& forall|v: int| 0 <= v < t.len() ==> #[trigger] t[v].len() <= t2[v].len()
    &&& forall|v: int, i: int| 0 <= v < t.len() && 0 <= i < t[v].len() ==> #[trigger] t2[v][i] == t[v][i]
}

/// The result of `and(f, g)`: `g` when `f` is true, `f` when `f` is false,
/// and otherwise the first node of `f`'s variable.
pub open spec fn and_spec(f: BddPtr, g: BddPtr) -> BddPtr {
    if f.special {
        if !f.compl {
            g
        } else {
            f
        }
    } else {
        BddPtr { compl: false, special: false, var: f.var, idx: 0 }
    }
}

/// The lists with node `n` added at the end of its variable's list, unless
/// that list holds it already.
pub open spec fn insert_node(t: NodeLists, n: BddNode) -> NodeLists {
    let v = n.var.0 as int;
    t.update(
        v,
        if t[v].contains(n) {
            t[v]
        } else {
            t[v].push(n)
        },
    )
}

/// The lists after `and(f, g)` with `k` steps of fuel, starting from `t`:
/// first everything built for the high child, then everything built for
/// the low child, then the node for `f` itself.
pub open spec fn and_lists(t: NodeLists, f: BddPtr, g: BddPtr, k: nat) -> NodeLists
    decreases k,
{
    if f.special || k == 0 {
        t
    } else {
        let n = head(t, f.var);
        let t1 = and_lists(t, n.high, g, (k - 1) as nat);
        let t2 = and_lists(t1, n.low, g, (k - 1) as nat);
        insert_node(
            t2,
            BddNode { low: and_spec(n.low, g), high: and_spec(n.high, g), var: VarLabel(f.var) },
        )
    }
}

/// The lists after `and(f, g)` from `t`, for a pointer whose paths are
/// finite.
pub open spec fn full_and_lists(t: NodeLists, f: BddPtr, g: BddPtr) -> NodeLists {
    and_lists(t, f, g, choose|k: nat| descends(t, f, k))
}

/// `and` only adds nodes: the lists it leaves grow the lists it started
/// from.
pub proof fn lemma_and_lists_grows(t: NodeLists, f: BddPtr, g: BddPtr, k: nat)
    requires
        descends(t, f, k),
    ensures
        grows(t, and_lists(t, f, g, k)),
    decreases k,
{
    if !f.special {
        let n = head(t, f.var);
        let t1 = and_lists(t, n.high, g, (k - 1) as nat);
        lemma_and_lists_grows(t, n.high, g, (k - 1) as nat);
        lemma_descends_grows(t, t1, n.low, (k - 1) as nat);
        let t2 = and_lists(t1, n.low, g, (k - 1) as nat);
        lemma_and_lists_grows(t1, n.low, g, (k - 1) as nat);
        let nn = BddNode { low: and_spec(n.low, g), high: and_spec(n.high, g), var: VarLabel(f.var) };
        let t3 = insert_node(t2, nn);
        assert forall|v: int| 0 <= v < t.len() implies #[trigger] t[v].len() <= t3[v].len() by {
            assert(t[v].len() <= t1[v].len());
            assert(t1[v].len() <= t2[v].len());
        }
        assert forall|v: int, i: int| 0 <= v < t.len() && 0 <= i < t[v].len() implies #[trigger] t3[v][i]
            == t[v][i] by {
            assert(t[v].len() <= t1[v].len());
            assert(t1[v].len() <= t2[v].len());
            assert(t1[v][i] == t[v][i]);
            assert(t2[v][i] == t1[v][i]);
        }
    }
}

/// Any fuel that suffices for `f` gives the same lists: what `and` builds
/// does not depend on the fuel.
pub proof fn lemma_and_lists_fuel(t: NodeLists, f: BddPtr, g: BddPtr, k1: nat, k2: nat)
    requires
        descends(t, f, k1),
        descends(t, f, k2),
    ensures
        and_lists(t, f, g, k1) == and_lists(t, f, g, k2),
    decreases k1,
{
    if !f.special {
        let n = head(t, f.var);
        lemma_and_lists_fuel(t, n.high, g, (k1 - 1) as nat, (k2 - 1) as nat);
        let t1 = and_lists(t, n.high, g, (k1 - 1) as nat);
        lemma_and_lists_grows(t, n.high, g, (k1 - 1) as nat);
        lemma_descends_grows(t, t1, n.low, (k1 - 1) as nat);
        lemma_descends_grows(t, t1, n.low, (k2 - 1) as nat);
        lemma_and_lists_fuel(t1, n.low, g, (k1 - 1) as nat, (k2 - 1) as nat);
    }
}

/// The label that the traversal gives a pointer.
pub open spec fn label_spec(p: BddPtr) -> (Seq<char>, PointerType) {
    ("PtrTrue"@, p.ptr_type_spec())
}

/// An edge of the traversal: parent and child, each with its label.
pub type Edge = ((BddPtr, (String, PointerType)), (BddPtr, (String, PointerType)));

pub type EdgeView = ((BddPtr, (Seq<char>, PointerType)), (BddPtr, (Seq<char>, PointerType)));

pub open spec fn edge_view(e: Edge) -> EdgeView {
    ((e.0.0, (e.0.1.0@, e.0.1.1)), (e.1.0, (e.1.1.0@, e.1.1.1)))
}

/// The edges the traversal emits from `p` with `k` steps of fuel: the two
/// edges of `p`, then those below its low child, then those below its high
/// child.
pub open spec fn dfs_edges(t: NodeLists, p: BddPtr, k: nat) -> Seq<EdgeView>
    decreases k,
{
    if p.special || k == 0 {
        Seq::empty()
    } else {
        let n = head(t, p.var);
        seq![((p, label_spec(p)), (n.low, label_spec(n.low))), ((p, label_spec(p)), (n.high, label_spec(n.high)))]
            + dfs_edges(t, n.low, (k - 1) as nat) + dfs_edges(t, n.high, (k - 1) as nat)
    }
}

/// The number of pointers the traversal visits from `p`.
pub open spec fn visits(t: NodeLists, p: BddPtr, k: nat) -> nat
    decreases k,
{
    if p.special || k == 0 {
        1
    } else {
        let n = head(t, p.var);
        1 + visits(t, n.low, (k - 1) as nat) + visits(t, n.high, (k - 1) as nat)
    }
}

/// Any fuel that suffices gives the same edges and visit count.
pub proof fn lemma_fuel(t: NodeLists, p: BddPtr, k1: nat, k2: nat)
    requires
        descends(t, p, k1),
        descends(t, p, k2),
    ensures
        dfs_edges(t, p, k1) == dfs_edges(t, p, k2),
        visits(t, p, k1) == visits(t, p, k2),
    decreases k1,
{
    if !p.special {
        let n = head(t, p.var);
        lemma_fuel(t, n.low, (k1 - 1) as nat, (k2 - 1) as nat);
        lemma_fuel(t, n.high, (k1 - 1) as nat, (k2 - 1) as nat);
    }
}

/// Growing the lists keeps every path finite.
pub proof fn lemma_descends_grows(t: NodeLists, t2: NodeLists, p: BddPtr, k: nat)
    requires
        grows(t, t2),
        descends(t, p, k),
    ensures
        descends(t2, p, k),
        dfs_edges(t2, p, k) == dfs_edges(t, p, k),
    decreases k,
{
    if !p.special {
        assert(t[p.var as int].len() <= t2[p.var as int].len());
        assert(head(t2, p.var) == head(t, p.var));
        lemma_descends_grows(t, t2, head(t, p.var).low, (k - 1) as nat);
        lemma_descends_grows(t, t2, head(t, p.var).high, (k - 1) as nat);
    }
}

/// The edges emitted from a finite pointer.
pub open spec fn full_dfs(t: NodeLists, p: BddPtr) -> Seq<EdgeView> {
    dfs_edges(t, p, choose|k: nat| descends(t, p, k))
}

/// The visit count of a finite pointer.
pub open spec fn full_visits(t: NodeLists, p: BddPtr) -> nat {
    visits(t, p, choose|k: nat| descends(t, p, k))
}

/// The edges still to emit for the pointers waiting on the stack, the top
/// of the stack first.
pub open spec fn stack_dfs(t: NodeLists, q: Seq<BddPtr>) -> Seq<EdgeView>
    decreases q.len(),
{
    if q.len() == 0 {
        Seq::empty()
    } else {
        full_dfs(t, q.last()) + stack_dfs(t, q.drop_last())
    }
}

/// The visits still to make for the pointers waiting on the stack.
pub open spec fn stack_visits(t: NodeLists, q: Seq<BddPtr>) -> nat
    decreases q.len(),
{
    if q.len() == 0 {
        0
    } else {
        full_visits(t, q.last()) + stack_visits(t, q.drop_last())
    }
}

/// One step of the traversal at a node.
pub proof fn lemma_full_unfold(t: NodeLists, p: BddPtr)
    requires
        finite_from(t, p),
        !p.special,
    ensures
        derefable(t, p),
        finite_from(t, head(t, p.var).low),
        finite_from(t, head(t, p.var).high),
        full_dfs(t, p) == seq![
            ((p, label_spec(p)), (head(t, p.var).low, label_spec(head(t, p.var).low))),
            ((p, label_spec(p)), (head(t, p.var).high, label_spec(head(t, p.var).high))),
        ] + full_dfs(t, head(t, p.var).low) + full_dfs(t, head(t, p.var).high),
        full_visits(t, p) == 1 + full_visits(t, head(t, p.var).low) + full_visits(
            t,
            head(t, p.var).high,
        ),
{
    let k = choose|k: nat| descends(t, p, k);
    let n = head(t, p.var);
    assert(descends(t, n.low, (k - 1) as nat));
    assert(descends(t, n.high, (k - 1) as nat));
    let kl = choose|k: nat| descends(t, n.low, k);
    let kh = choose|k: nat| descends(t, n.high, k);
    lemma_fuel(t, n.low, kl, (k - 1) as nat);
    lemma_fuel(t, n.high, kh, (k - 1) as nat);
}

/// The manager: per variable, the list of nodes inserted for it; and the
/// variable order it was made with.
pub struct MyBddManager {
    compute_table: Vec<Vec<BddNode>>,
    order: Vec<VarLabel>,
}

impl MyBddManager {
    /// The node lists.
    pub closed spec fn lists(&self) -> NodeLists {
        self.compute_table@.map_values(|r: Vec<BddNode>| r@)
    }

    /// The variable order the manager was made with.
    pub closed spec fn order_spec(&self) -> Seq<VarLabel> {
        self.order@
    }

    /// A manager with an empty node list for each variable of `order`.
    pub fn new(order: Vec<VarLabel>) -> (r: MyBddManager)
        ensures
            r.lists().len() == order@.len(),
            forall|v: int| 0 <= v < order@.len() ==> #[trigger] r.lists()[v].len() == 0,
            r.order_spec() == order@,
    {
        let mut compute_table: Vec<Vec<BddNode>> = Vec::with_capacity(order.len());
        let mut i: usize = 0;
        while i < order.len()
            invariant
                i <= order@.len(),
                compute_table@.len() == i,
                forall|v: int| 0 <= v < i ==> #[trigger] compute_table@[v]@.len() == 0,
            decreases order@.len() - i,
        {
            compute_table.push(Vec::new());
            i = i + 1;
        }
        let r = MyBddManager { compute_table, order };
        assert(r.lists().len() == order@.len());
        r
    }

    /// The pointer for the variable `lbl` (low edge false, high edge true).
    pub fn var(&mut self, lbl: VarLabel) -> (r: BddPtr)
        requires
            lbl.0 < old(self).lists().len(),
        ensures
            r == (BddPtr { compl: false, special: false, var: lbl.0, idx: 0 }),
            final(self).order_spec() == old(self).order_spec(),
            grows(old(self).lists(), final(self).lists()),
            final(self).lists() == insert_node(
                old(self).lists(),
                BddNode { low: BddPtr::false_spec(), high: BddPtr::true_spec(), var: lbl },
            ),
            final(self).lists()[lbl.0 as int].contains(
                BddNode { low: BddPtr::false_spec(), high: BddPtr::true_spec(), var: lbl },
            ),
            forall|v: int| 0 <= v < old(self).lists().len() && v != lbl.0 ==> #[trigger] final(self).lists()[v] == old(self).lists()[v],
    {
        let bdd = BddNode::new(BddPtr::false_node(), BddPtr::true_node(), lbl);
        let r = self.get_or_insert(bdd);
        r
    }

    /// Resolves a pointer: the constants to themselves, a node pointer to
    /// the first node of its variable.
    pub fn deref(&self, ptr: BddPtr) -> (r: Bdd)
        requires
            derefable(self.lists(), ptr),
        ensures
            r == deref_spec(self.lists(), ptr),
    {
        match ptr.ptr_type() {
            PointerType::PtrFalse => Bdd::BddFalse,
            PointerType::PtrTrue => Bdd::BddTrue,
            PointerType::PtrNode => {
                assert(ptr.var < self.compute_table.len());
                let row = &self.compute_table[ptr.var as usize];
                assert(row@ == self.lists()[ptr.var as int]);
                let bddnode = &row[0];
                Bdd::new_node(bddnode.low, bddnode.high, VarLabel::new(ptr.var()))
            },
        }
    }

    /// Adds the node to its variable's list unless it is there already, and
    /// returns the pointer to the first node of that variable.
    pub fn get_or_insert(&mut self, bdd: BddNode) -> (r: BddPtr)
        requires
            bdd.var.0 < old(self).lists().len(),
        ensures
            r == (BddPtr { compl: false, special: false, var: bdd.var.0, idx: 0 }),
            final(self).order_spec() == old(self).order_spec(),
            final(self).lists() == insert_node(old(self).lists(), bdd),
            grows(old(self).lists(), final(self).lists()),
            final(self).lists()[bdd.var.0 as int].contains(bdd),
            forall|v: int| 0 <= v < old(self).lists().len() && v != bdd.var.0 ==> #[trigger] final(self).lists()[v] == old(self).lists()[v],
    {
        let bdd = Bdd::new_node(bdd.low, bdd.high, bdd.var);
        let n = bdd.into_node();
        let var = n.var.value();
        let elem = BddNode::new(n.low, n.high, VarLabel::new(var));
        assert(elem == n);
        assert(var < self.compute_table.len());
        let vu = var as usize;
        let ghost t0 = self.lists();
        let len = self.compute_table[vu].len();
        let mut i: usize = 0;
        let mut found = false;
        while i < len && !found
            invariant
                self.lists() == t0,
                vu == var,
                vu < self.compute_table@.len(),
                t0.len() == self.compute_table@.len(),
                len == t0[vu as int].len(),
                i <= len,
                found ==> i < len && t0[vu as int][i as int] == elem,
                forall|j: int| 0 <= j < i ==> t0[vu as int][j] != elem,
            decreases len - i + (if found {
                0int
            } else {
                1int
            }),
        {
            if self.compute_table[vu][i] == elem {
                found = true;
            } else {
                i = i + 1;
            }
        }
        if !found {
            self.compute_table[vu].push(elem);
        }
        proof {
            let t = self.lists();
            if found {
                assert(t0[vu as int].contains(elem));
                assert(t =~= t0.update(vu as int, t0[vu as int]));
            } else {
                assert(!t0[vu as int].contains(elem));
                assert(t =~= t0.update(vu as int, t0[vu as int].push(elem)));
                assert(t[vu as int][len as int] == elem);
            }
        }
        BddPtr::new(VarLabel::new(var), TableIndex::new(0 as u64))
    }

    /// The low edge of the node a pointer resolves to.
    pub fn low(&self, ptr: BddPtr) -> (r: BddPtr)
        requires
            !ptr.special,
            derefable(self.lists(), ptr),
        ensures
            r == head(self.lists(), ptr.var).low,
    {
        let b = self.deref(ptr).into_node();
        b.low
    }

    /// The high edge of the node a pointer resolves to.
    pub fn high(&self, ptr: BddPtr) -> (r: BddPtr)
        requires
            !ptr.special,
            derefable(self.lists(), ptr),
        ensures
            r == head(self.lists(), ptr.var).high,
    {
        let b = self.deref(ptr).into_node();
        b.high
    }

    /// Walks `f` down to its constants and records, for each node visited,
    /// a node whose children are the results for its children; `g` is only
    /// handed back when `f` is the true constant.
    pub fn and(&mut self, f: BddPtr, g: BddPtr) -> (r: BddPtr)
        requires
            finite_from(old(self).lists(), f),
        ensures
            r == and_spec(f, g),
            final(self).order_spec() == old(self).order_spec(),
            final(self).lists() == full_and_lists(old(self).lists(), f, g),
            grows(old(self).lists(), final(self).lists()),
            !f.special ==> final(self).lists()[f.var as int].contains(
                BddNode {
                    low: and_spec(head(old(self).lists(), f.var).low, g),
                    high: and_spec(head(old(self).lists(), f.var).high, g),
                    var: VarLabel(f.var),
                },
            ),
    {
        let ghost k = choose|k: nat| descends(self.lists(), f, k);
        self.and_rec(f, g, Ghost(k))
    }

    fn and_rec(&mut self, f: BddPtr, g: BddPtr, Ghost(k): Ghost<nat>) -> (r: BddPtr)
        requires
            descends(old(self).lists(), f, k),
        ensures
            r == and_spec(f, g),
            final(self).order_spec() == old(self).order_spec(),
            final(self).lists() == and_lists(old(self).lists(), f, g, k),
            grows(old(self).lists(), final(self).lists()),
            !f.special ==> final(self).lists()[f.var as int].contains(
                BddNode {
                    low: and_spec(head(old(self).lists(), f.var).low, g),
                    high: and_spec(head(old(self).lists(), f.var).high, g),
                    var: VarLabel(f.var),
                },
            ),
        decreases k,
    {
        let ghost t0 = self.lists();
        let reg_f = f.regular();
        if reg_f.is_true() {
            if f.is_true() {
                return g;
            } else {
                return f;
            }
        }
        let index = f.label();
        let fv = self.high(reg_f);
        let fnv = self.low(reg_f);
        let gv = g;
        let gnv = g;
        let new_h = self.and_rec(fv, gv, Ghost((k - 1) as nat));
        let ghost t1 = self.lists();
        proof {
            lemma_descends_grows(t0, t1, fnv, (k - 1) as nat);
        }
        let new_l = self.and_rec(fnv, gnv, Ghost((k - 1) as nat));
        let ghost t2 = self.lists();
        let n = BddNode { low: new_l, high: new_h, var: index };
        proof {
            assert(t0[f.var as int].len() <= t1[f.var as int].len());
        }
        let r = self.get_or_insert(n);
        proof {
            let t3 = self.lists();
            assert forall|v: int| 0 <= v < t0.len() implies #[trigger] t0[v].len() <= t3[v].len() by {
                assert(t0[v].len() <= t1[v].len());
                assert(t1[v].len() <= t2[v].len());
            }
            assert forall|v: int, i: int| 0 <= v < t0.len() && 0 <= i < t0[v].len() implies #[trigger] t3[v][i] == t0[v][i] by {
                assert(t0[v].len() <= t1[v].len());
                assert(t1[v].len() <= t2[v].len());
                assert(t1[v][i] == t0[v][i]);
                assert(t2[v][i] == t1[v][i]);
            }
        }
        r
    }
}

/// The label of a pointer in the drawing: the text `PtrTrue` for every
/// pointer, whatever its type, and the pointer's type.
fn my_get_label(mgr: &MyBddManager, ptr: BddPtr) -> (r: (String, PointerType))
    ensures
        r.0@ == label_spec(ptr).0,
        r.1 == label_spec(ptr).1,
{
    let x = ptr.ptr_type();
    ("PtrTrue".to_string(), x)
}

/// The edges of the graph below `ptr`, each with the labels of its two ends,
/// in depth-first order (a node's two edges, then everything below its low
/// child, then everything below its high child).
pub fn call_recursive_bfs(mgr: &MyBddManager, ptr: BddPtr) -> (r: Vec<Edge>)
    requires
        finite_from(mgr.lists(), ptr),
    ensures
        r@.map_values(|e: Edge| edge_view(e)) == full_dfs(mgr.lists(), ptr),
{
    let ghost t = mgr.lists();
    let mut queue: Vec<BddPtr> = Vec::new();
    let mut edges: Vec<Edge> = Vec::new();
    let mut cur: Option<BddPtr> = Some(ptr);
    let ghost total = full_dfs(t, ptr);
    proof {
        assert(edges@.map_values(|e: Edge| edge_view(e)) + full_dfs(t, ptr) + stack_dfs(t, queue@)
            =~= total);
    }
    while cur.is_some()
        invariant
            mgr.lists() == t,
            forall|i: int| 0 <= i < queue@.len() ==> finite_from(t, #[trigger] queue@[i]),
            cur matches Some(p) ==> finite_from(t, p),
            cur is None ==> queue@.len() == 0,
            edges@.map_values(|e: Edge| edge_view(e)) + (match cur {
                Some(p) => full_dfs(t, p),
                None => Seq::empty(),
            }) + stack_dfs(t, queue@) == total,
        decreases (match cur {
            Some(p) => full_visits(t, p),
            None => 0,
        }) + stack_visits(t, queue@),
    {
        let p = cur.unwrap();
        let ghost before = edges@.map_values(|e: Edge| edge_view(e));
        let ghost q0 = queue@;
        if p.is_const() {
            cur = queue.pop();
            proof {
                assert(full_dfs(t, p) =~= Seq::empty());
                assert(full_visits(t, p) == 1) by {
                    let k = choose|k: nat| descends(t, p, k);
                }
                if q0.len() > 0 {
                    assert(queue@ =~= q0.drop_last());
                    assert(finite_from(t, q0[q0.len() - 1]));
                }
            }
        } else {
            proof {
                lemma_full_unfold(t, p);
            }
            let lp = mgr.low(p);
            let hp = mgr.high(p);
            let parent = (p, my_get_label(mgr, p));
            let parent2 = (p, my_get_label(mgr, p));
            let c1 = (lp, my_get_label(mgr, lp));
            let c2 = (hp, my_get_label(mgr, hp));
            edges.push((parent, c1));
            edges.push((parent2, c2));
            queue.push(hp);
            cur = Some(lp);
            proof {
                assert(queue@ =~= q0.push(hp));
                assert(queue@.drop_last() =~= q0);
                assert(edges@.map_values(|e: Edge| edge_view(e)) =~= before + seq![
                    ((p, label_spec(p)), (lp, label_spec(lp))),
                    ((p, label_spec(p)), (hp, label_spec(hp))),
                ]);
                assert forall|i: int| 0 <= i < queue@.len() implies finite_from(t, #[trigger] queue@[i]) by {
                    if i < q0.len() {
                        assert(queue@[i] == q0[i]);
                    }
                }
            }
        }
    }
    proof {
        assert(edges@.map_values(|e: Edge| edge_view(e)) =~= total);
    }
    edges
}

} // verus!
