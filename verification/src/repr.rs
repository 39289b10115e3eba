//! Plain data types shared by the decision-diagram managers: variable
//! labels, table indices, edge pointers and decision nodes.

use vstd::prelude::*;

verus! {

/// A Boolean variable, identified by a number. Under the linear order used by
/// the managers of this crate, the number is also the variable's level.
#[derive(Clone, Copy, Debug, PartialEq, Eq, Structural, Hash)]
pub struct VarLabel(pub u64);

impl VarLabel {
    pub fn new(v: u64) -> (r: VarLabel)
        ensures
            r.0 == v,
    {
        VarLabel(v)
    }

    pub fn value(&self) -> (r: u64)
        ensures
            r == self.0,
    {
        self.0
    }
}

/// The position of a node inside the subtable of its variable.
#[derive(Clone, Copy, Debug, PartialEq, Eq, Structural, Hash)]
pub struct TableIndex(pub u64);

impl TableIndex {
    pub fn new(v: u64) -> (r: TableIndex)
        ensures
            r.0 == v,
    {
        TableIndex(v)
    }

    pub fn value(&self) -> (r: u64)
        ensures
            r == self.0,
    {
        self.0
    }
}

/// The three kinds of edge a pointer can be.
#[derive(Clone, Copy, Debug, PartialEq, Eq, Structural)]
pub enum PointerType {
    PtrTrue,
    PtrFalse,
    PtrNode,
}

/// An edge of a decision diagram: either one of the two constants or a
/// reference to the node at `(var, idx)` of a manager's table, possibly
/// complemented. `false` is the complement of `true`.
#[derive(Clone, Copy, Debug, PartialEq, Eq, Structural, Hash)]
pub struct BddPtr {
    pub compl: bool,
    pub special: bool,
    pub var: u64,
    pub idx: u64,
}

/// Number of bits of a packed pointer that hold the variable.
pub open spec fn var_bits() -> nat {
    16
}

/// Number of bits of a packed pointer that hold the table index.
pub open spec fn idx_bits() -> nat {
    46
}

/// A pointer whose fields fit the packed 64-bit encoding.
pub open spec fn packable(p: BddPtr) -> bool {
    p.var < 0x1_0000 && p.idx < 0x4000_0000_0000
}

/// The 64-bit word that encodes `p`: bit 0 the complement flag, bit 1 the
/// constant flag, bits 2..18 the variable and bits 18..64 the index.
pub open spec fn raw_spec(p: BddPtr) -> u64 {
    ((if p.compl { 1u64 } else { 0u64 }) | (if p.special { 2u64 } else { 0u64 })
        | (p.var << 2u64) | (p.idx << 18u64)) as u64
}

/// The pointer that a 64-bit word encodes.
pub open spec fn from_raw_spec(raw: u64) -> BddPtr {
    BddPtr {
        compl: raw & 1u64 == 1u64,
        special: (raw >> 1u64) & 1u64 == 1u64,
        var: (raw >> 2u64) & 0xffffu64,
        idx: raw >> 18u64,
    }
}

impl BddPtr {
    /// A regular pointer to the node at index `idx` of the subtable of `var`.
    pub fn new(var: VarLabel, idx: TableIndex) -> (r: BddPtr)
        ensures
            r == (BddPtr { compl: false, special: false, var: var.0, idx: idx.0 }),
    {
        BddPtr { compl: false, special: false, var: var.0, idx: idx.0 }
    }

    pub open spec fn true_spec() -> BddPtr {
        BddPtr { compl: false, special: true, var: 0, idx: 0 }
    }

    pub open spec fn false_spec() -> BddPtr {
        BddPtr { compl: true, special: true, var: 0, idx: 0 }
    }

    pub fn true_node() -> (r: BddPtr)
        ensures
            r == BddPtr::true_spec(),
    {
        BddPtr { compl: false, special: true, var: 0, idx: 0 }
    }

    pub fn false_node() -> (r: BddPtr)
        ensures
            r == BddPtr::false_spec(),
    {
        BddPtr { compl: true, special: true, var: 0, idx: 0 }
    }

    pub open spec fn ptr_type_spec(self) -> PointerType {
        if self.special {
            if self.compl {
                PointerType::PtrFalse
            } else {
                PointerType::PtrTrue
            }
        } else {
            PointerType::PtrNode
        }
    }

    pub fn ptr_type(&self) -> (r: PointerType)
        ensures
            r == self.ptr_type_spec(),
    {
        if self.special {
            if self.compl {
                PointerType::PtrFalse
            } else {
                PointerType::PtrTrue
            }
        } else {
            PointerType::PtrNode
        }
    }

    pub fn is_true(&self) -> (r: bool)
        ensures
            r == (self.special && !self.compl),
    {
        self.special && !self.compl
    }

    pub fn is_false(&self) -> (r: bool)
        ensures
            r == (self.special && self.compl),
    {
        self.special && self.compl
    }

    pub fn is_const(&self) -> (r: bool)
        ensures
            r == self.special,
    {
        self.special
    }

    pub open spec fn neg_spec(self) -> BddPtr {
        BddPtr { compl: !self.compl, ..self }
    }

    /// The same edge with its complement flag flipped.
    pub fn neg(&self) -> (r: BddPtr)
        ensures
            r == self.neg_spec(),
    {
        BddPtr { compl: !self.compl, special: self.special, var: self.var, idx: self.idx }
    }

    /// The same edge without its complement flag (so the true constant for
    /// either constant).
    pub fn regular(&self) -> (r: BddPtr)
        ensures
            r == (BddPtr { compl: false, ..*self }),
    {
        BddPtr { compl: false, special: self.special, var: self.var, idx: self.idx }
    }

    pub fn var(&self) -> (r: u64)
        ensures
            r == self.var,
    {
        self.var
    }

    pub fn label(&self) -> (r: VarLabel)
        ensures
            r.0 == self.var,
    {
        VarLabel(self.var)
    }

    pub fn idx(&self) -> (r: TableIndex)
        ensures
            r.0 == self.idx,
    {
        TableIndex(self.idx)
    }

    /// Packs the pointer into one 64-bit word (see `raw_spec`).
    pub fn raw(&self) -> (r: u64)
        requires
            packable(*self),
        ensures
            r == raw_spec(*self),
    {
        let c: u64 = if self.compl { 1 } else { 0 };
        let s: u64 = if self.special { 2 } else { 0 };
        let v: u64 = self.var;
        let i: u64 = self.idx;
        assert(v << 2u64 < 0x4_0000u64) by (bit_vector)
            requires
                v < 0x1_0000u64,
        ;
        c | s | (v << 2) | (i << 18)
    }

    /// Unpacks a 64-bit word into a pointer (see `from_raw_spec`).
    pub fn from_raw(raw: u64) -> (r: BddPtr)
        ensures
            r == from_raw_spec(raw),
    {
        BddPtr {
            compl: raw & 1 == 1,
            special: (raw >> 1) & 1 == 1,
            var: (raw >> 2) & 0xffff,
            idx: raw >> 18,
        }
    }
}

/// Packing a pointer and unpacking the word gives the pointer back.
pub proof fn lemma_raw_roundtrip(p: BddPtr)
    requires
        packable(p),
    ensures
        from_raw_spec(raw_spec(p)) == p,
{
    let c: u64 = if p.compl { 1 } else { 0 };
    let s: u64 = if p.special { 2 } else { 0 };
    let v = p.var;
    let i = p.idx;
    let w = raw_spec(p);
    assert(w == c | s | (v << 2u64) | (i << 18u64));
    assert((w & 1u64 == 1u64) == (c == 1u64) && ((w >> 1u64) & 1u64 == 1u64) == (s == 2u64)
        && (w >> 2u64) & 0xffffu64 == v && w >> 18u64 == i) by (bit_vector)
        requires
            w == c | s | (v << 2u64) | (i << 18u64),
            c == 0u64 || c == 1u64,
            s == 0u64 || s == 2u64,
            v < 0x1_0000u64,
            i < 0x4000_0000_0000u64,
    ;
}

/// A decision node: the variable it tests and the edges taken when the
/// variable is false (`low`) and true (`high`).
#[derive(Clone, Copy, Debug, PartialEq, Eq, Structural, Hash)]
pub struct BddNode {
    pub low: BddPtr,
    pub high: BddPtr,
    pub var: VarLabel,
}

impl BddNode {
    pub fn new(low: BddPtr, high: BddPtr, var: VarLabel) -> (r: BddNode)
        ensures
            r == (BddNode { low, high, var }),
    {
        BddNode { low: low, high: high, var: var }
    }
}

/// A dereferenced pointer: a node or one of the constants.
#[derive(Clone, Copy, Debug, PartialEq, Eq, Structural)]
pub enum Bdd {
    Node(BddNode),
    BddTrue,
    BddFalse,
}

impl Bdd {
    pub fn new_node(low: BddPtr, high: BddPtr, var: VarLabel) -> (r: Bdd)
        ensures
            r == Bdd::Node(BddNode { low, high, var }),
    {
        Bdd::Node(BddNode { low: low, high: high, var: var })
    }

    /// The node inside; only nodes can be turned into one.
    pub fn into_node(&self) -> (r: BddNode)
        requires
            self is Node,
        ensures
            r == self->Node_0,
    {
        match self {
            Bdd::Node(n) => *n,
            _ => {
                proof {
                    assert(false);
                }
                BddNode::new(BddPtr::true_node(), BddPtr::true_node(), VarLabel::new(0))
            },
        }
    }
}

} // verus!
