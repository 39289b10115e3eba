//! Model counting: the number of assignments to all variables of a builder
//! under which a diagram is true, computed in the field of integers modulo
//! the largest prime below 2^64.

use vstd::prelude::*;
use vstd::arithmetic::power2::{pow2, lemma_pow2_unfold};
use vstd::arithmetic::div_mod::{
    lemma_add_mod_noop, lemma_mul_mod_noop, lemma_sub_mod_noop, lemma_small_mod,
    lemma_mod_add_multiples_vanish,
};
use crate::builder::{
    assign, eval, support, valid_ptr, restricts, rank, node_at, lemma_restricts_at, lemma_eval_support,
    lemma_neg, lemma_node_children, lemma_support_after, Assignment, NodeTable, RobddBuilder,
};
use crate::repr::BddPtr;

verus! {

/// The largest prime below 2^64; counts are reduced modulo it.
pub const COUNT_PRIME: u64 = 18446744073709551557;

/// The assignment that makes every variable false.
pub open spec fn all_false() -> Assignment {
    |x: u64| false
}

/// The number of ways of setting the variables `l..n` (every other variable
/// as in `a`) that make `p` true.
pub open spec fn count_from(t: NodeTable, p: BddPtr, a: Assignment, l: nat, n: nat) -> nat
    decreases n - l,
{
    if l >= n {
        if eval(t, p, a) {
            1
        } else {
            0
        }
    } else {
        count_from(t, p, assign(a, l as u64, false), l + 1, n) + count_from(
            t,
            p,
            assign(a, l as u64, true),
            l + 1,
            n,
        )
    }
}

/// The number of models of `p` over all the variables of `t`.
pub open spec fn model_count_spec(t: NodeTable, p: BddPtr) -> nat {
    count_from(t, p, all_false(), 0, t.len())
}

/// Counting depends only on the variables of `p` outside `l..n`.
pub proof fn lemma_count_agree(t: NodeTable, p: BddPtr, a: Assignment, b: Assignment, l: nat, n: nat)
    requires
        n <= u64::MAX,
        forall|x: u64| #[trigger] support(t, p).contains(x) && (x < l || x >= n) ==> a(x) == b(x),
    ensures
        count_from(t, p, a, l, n) == count_from(t, p, b, l, n),
    decreases n - l,
{
    if l >= n {
        assert forall|x: u64| #[trigger] support(t, p).contains(x) implies a(x) == b(x) by {
            assert(x < l || x >= n);
        }
        lemma_eval_support(t, p, a, b);
    } else {
        let v = l as u64;
        assert forall|x: u64| #[trigger] support(t, p).contains(x) && (x < l + 1 || x >= n) implies assign(
            a,
            v,
            false,
        )(x) == assign(b, v, false)(x) by {
            if x != v {
                assert(x < l || x >= n);
            }
        }
        assert forall|x: u64| #[trigger] support(t, p).contains(x) && (x < l + 1 || x >= n) implies assign(
            a,
            v,
            true,
        )(x) == assign(b, v, true)(x) by {
            if x != v {
                assert(x < l || x >= n);
            }
        }
        lemma_count_agree(t, p, assign(a, v, false), assign(b, v, false), l + 1, n);
        lemma_count_agree(t, p, assign(a, v, true), assign(b, v, true), l + 1, n);
    }
}

/// Two pointers that agree wherever `v` has value `bv` have the same count
/// from an assignment with that value, once `v` is no longer counted over.
pub proof fn lemma_count_same(
    t: NodeTable,
    p: BddPtr,
    q: BddPtr,
    v: u64,
    bv: bool,
    a: Assignment,
    l: nat,
    n: nat,
)
    requires
        n <= u64::MAX,
        v < l,
        a(v) == bv,
        forall|c: Assignment| c(v) == bv ==> #[trigger] eval(t, p, c) == eval(t, q, c),
    ensures
        count_from(t, p, a, l, n) == count_from(t, q, a, l, n),
    decreases n - l,
{
    if l < n {
        let w = l as u64;
        lemma_count_same(t, p, q, v, bv, assign(a, w, false), l + 1, n);
        lemma_count_same(t, p, q, v, bv, assign(a, w, true), l + 1, n);
    } else {
        assert(eval(t, p, a) == eval(t, q, a));
    }
}

/// Counting over variables that `p` does not depend on doubles the count
/// for each of them.
pub proof fn lemma_count_skip(t: NodeTable, p: BddPtr, a: Assignment, l: nat, v: nat, n: nat)
    requires
        n <= u64::MAX,
        l <= v <= n,
        forall|x: u64| #[trigger] support(t, p).contains(x) ==> x >= v,
    ensures
        count_from(t, p, a, l, n) == pow2((v - l) as nat) * count_from(t, p, a, v, n),
    decreases v - l,
{
    if l < v {
        let w = l as u64;
        assert forall|x: u64| #[trigger] support(t, p).contains(x) && (x < l + 1 || x >= n) implies assign(
            a,
            w,
            false,
        )(x) == a(x) by {
            assert(x >= v);
        }
        assert forall|x: u64| #[trigger] support(t, p).contains(x) && (x < l + 1 || x >= n) implies assign(
            a,
            w,
            true,
        )(x) == a(x) by {
            assert(x >= v);
        }
        lemma_count_agree(t, p, assign(a, w, false), a, l + 1, n);
        lemma_count_agree(t, p, assign(a, w, true), a, l + 1, n);
        lemma_count_skip(t, p, a, l + 1, v, n);
        lemma_pow2_unfold((v - l) as nat);
        assert(((v - l) as nat - 1) as nat == (v - (l + 1)) as nat);
        let c = count_from(t, p, a, v, n);
        let k = pow2((v - (l + 1)) as nat);
        assert(count_from(t, p, a, l, n) == 2 * (k * c));
        let e = pow2((v - l) as nat);
        assert(e * c == 2 * (k * c)) by (nonlinear_arith)
            requires
                e == 2 * k,
        ;
    } else {
        assert(pow2(0) == 1) by {
            vstd::arithmetic::power2::lemma_pow2(0);
            vstd::arithmetic::power::lemma_pow0(2);
        }
        assert(pow2((v - l) as nat) == 1);
        let c = count_from(t, p, a, v, n);
        assert(1 * c == c);
    }
}

/// The count of a constant: every setting for true, none for false.
pub proof fn lemma_count_const(t: NodeTable, p: BddPtr, a: Assignment, l: nat, n: nat)
    requires
        n <= u64::MAX,
        l <= n,
        p.special,
    ensures
        count_from(t, p, a, l, n) == if !p.compl {
            pow2((n - l) as nat)
        } else {
            0
        },
    decreases n - l,
{
    if l < n {
        lemma_count_const(t, p, assign(a, l as u64, false), l + 1, n);
        lemma_count_const(t, p, assign(a, l as u64, true), l + 1, n);
        lemma_pow2_unfold((n - l) as nat);
        assert(((n - l) as nat - 1) as nat == (n - (l + 1)) as nat);

    } else {
        assert(pow2(0) == 1) by {
            vstd::arithmetic::power2::lemma_pow2(0);
            vstd::arithmetic::power::lemma_pow0(2);
        }
    }
}

/// A function and its complement share out all the settings.
pub proof fn lemma_count_neg(t: NodeTable, p: BddPtr, a: Assignment, l: nat, n: nat)
    requires
        n <= u64::MAX,
        l <= n,
        valid_ptr(t, p),
    ensures
        count_from(t, p.neg_spec(), a, l, n) + count_from(t, p, a, l, n) == pow2((n - l) as nat),
    decreases n - l,
{
    lemma_neg(t, p);
    if l < n {
        lemma_count_neg(t, p, assign(a, l as u64, false), l + 1, n);
        lemma_count_neg(t, p, assign(a, l as u64, true), l + 1, n);
        lemma_pow2_unfold((n - l) as nat);
        assert(((n - l) as nat - 1) as nat == (n - (l + 1)) as nat);
    } else {
        assert(eval(t, p.neg_spec(), a) == !eval(t, p, a));
        assert(pow2(0) == 1) by {
            vstd::arithmetic::power2::lemma_pow2(0);
            vstd::arithmetic::power::lemma_pow0(2);
        }
    }
}

/// Shannon expansion of the count at a node's own variable `v`: the count
/// of its low cofactor plus that of its high cofactor, both counted from
/// `v + 1`.
pub proof fn lemma_count_split(t: NodeTable, p: BddPtr, c0: BddPtr, c1: BddPtr, v: u64, n: nat)
    requires
        n <= u64::MAX,
        v < n,
        restricts(t, c0, t, p, v, false),
        restricts(t, c1, t, p, v, true),
        forall|x: u64| #[trigger] support(t, c0).contains(x) ==> x > v,
        forall|x: u64| #[trigger] support(t, c1).contains(x) ==> x > v,
    ensures
        count_from(t, p, all_false(), v as nat, n) == count_from(t, c0, all_false(), (v + 1) as nat, n)
            + count_from(t, c1, all_false(), (v + 1) as nat, n),
{
    let f = all_false();
    assert forall|c: Assignment| c(v) == false implies #[trigger] eval(t, p, c) == eval(t, c0, c) by {
        lemma_restricts_at(t, c0, t, p, v, false, c);
        assert(assign(c, v, false) =~= c);
    }
    assert forall|c: Assignment| c(v) == true implies #[trigger] eval(t, p, c) == eval(t, c1, c) by {
        lemma_restricts_at(t, c1, t, p, v, true, c);
        assert(assign(c, v, true) =~= c);
    }
    lemma_count_same(t, p, c0, v, false, assign(f, v, false), (v + 1) as nat, n);
    lemma_count_same(t, p, c1, v, true, assign(f, v, true), (v + 1) as nat, n);
    assert forall|x: u64| #[trigger] support(t, c0).contains(x) && (x < v + 1 || x >= n) implies assign(
        f,
        v,
        false,
    )(x) == f(x) by {}
    assert forall|x: u64| #[trigger] support(t, c1).contains(x) && (x < v + 1 || x >= n) implies assign(
        f,
        v,
        true,
    )(x) == f(x) by {
        assert(x > v);
    }
    lemma_count_agree(t, c0, assign(f, v, false), f, (v + 1) as nat, n);
    lemma_count_agree(t, c1, assign(f, v, true), f, (v + 1) as nat, n);
}

/// A diagram and its complement together have every assignment of the
/// table's variables as a model exactly once: their model counts add up to
/// `2^n` for `n` variables.
pub proof fn lemma_model_count_complement(t: NodeTable, p: BddPtr)
    requires
        t.len() <= u64::MAX,
        valid_ptr(t, p),
    ensures
        model_count_spec(t, p.neg_spec()) + model_count_spec(t, p) == pow2(t.len()),
{
    lemma_count_neg(t, p, all_false(), 0, t.len());
}

/// `(x + y) mod COUNT_PRIME`.
fn add_mod(x: u64, y: u64) -> (r: u64)
    requires
        x < COUNT_PRIME,
        y < COUNT_PRIME,
    ensures
        r < COUNT_PRIME,
        r as int == (x + y) % (COUNT_PRIME as int),
{
    let s: u128 = x as u128 + y as u128;
    let m: u128 = s % (COUNT_PRIME as u128);
    m as u64
}

/// `(x * y) mod COUNT_PRIME`.
fn mul_mod(x: u64, y: u64) -> (r: u64)
    requires
        x < COUNT_PRIME,
        y < COUNT_PRIME,
    ensures
        r < COUNT_PRIME,
        r as int == (x * y) % (COUNT_PRIME as int),
{
    assert((x as int) * (y as int) <= u128::MAX) by (nonlinear_arith)
        requires
            x < 0x1_0000_0000_0000_0000int,
            y < 0x1_0000_0000_0000_0000int,
    ;
    let s: u128 = x as u128 * y as u128;
    let m: u128 = s % (COUNT_PRIME as u128);
    m as u64
}

/// `(x - y) mod COUNT_PRIME`, as a value in `0..COUNT_PRIME`.
fn sub_mod(x: u64, y: u64) -> (r: u64)
    requires
        x < COUNT_PRIME,
        y < COUNT_PRIME,
    ensures
        r < COUNT_PRIME,
        r as int == (x - y) % (COUNT_PRIME as int),
{
    if x >= y {
        proof {
            lemma_small_mod((x - y) as nat, COUNT_PRIME as nat);
        }
        x - y
    } else {
        let r: u128 = (x as u128 + COUNT_PRIME as u128) - y as u128;
        proof {
            lemma_mod_add_multiples_vanish(x - y, COUNT_PRIME as int);
            lemma_small_mod(r as nat, COUNT_PRIME as nat);
        }
        r as u64
    }
}

/// `2^k mod COUNT_PRIME`.
fn pow2_mod(k: u64) -> (r: u64)
    ensures
        r < COUNT_PRIME,
        r as int == pow2(k as nat) % (COUNT_PRIME as nat),
{
    let mut r: u64 = 1;
    let mut i: u64 = 0;
    proof {
        vstd::arithmetic::power2::lemma_pow2(0);
        vstd::arithmetic::power::lemma_pow0(2);
        lemma_small_mod(1, COUNT_PRIME as nat);
    }
    while i < k
        invariant
            i <= k,
            r < COUNT_PRIME,
            r as int == pow2(i as nat) % (COUNT_PRIME as nat),
        decreases k - i,
    {
        proof {
            lemma_pow2_unfold((i + 1) as nat);
            lemma_add_mod_noop(pow2(i as nat) as int, pow2(i as nat) as int, COUNT_PRIME as int);
        }
        r = add_mod(r, r);
        i = i + 1;
    }
    r
}

/// The pointer to node `i` of variable `v`, not complemented.
pub open spec fn node_ptr(v: int, i: int) -> BddPtr {
    BddPtr { compl: false, special: false, var: v as u64, idx: i as u64 }
}

/// The contents of a cache of node counts.
pub open spec fn cache_view(c: Seq<Vec<Option<u64>>>) -> Seq<Seq<Option<u64>>> {
    c.map_values(|row: Vec<Option<u64>>| row@)
}

/// A cache with one entry per node of `t`, where every filled entry holds
/// the count of its node from the node's own variable on, reduced.
pub open spec fn cache_ok(c: Seq<Seq<Option<u64>>>, t: NodeTable, n: nat) -> bool {
    &&& c.len() == t.len()
    &&& forall|v: int| 0 <= v < c.len() ==> #[trigger] c[v].len() == t[v].len()
    &&& forall|v: int, i: int|
        0 <= v < c.len() && 0 <= i < c[v].len() ==> match #[trigger] c[v][i] {
            Some(x) => x as int == count_from(t, node_ptr(v, i), all_false(), v as nat, n) % (COUNT_PRIME as nat),
            None => true,
        }
}

/// The count of `p` from variable `l` on, reduced.
fn level_count(builder: &RobddBuilder, p: BddPtr, l: u64, n: u64, cache: &mut Vec<Vec<Option<u64>>>) -> (r: u64)
    requires
        builder.wf(),
        valid_ptr(builder@, p),
        n as nat == builder@.len(),
        l <= n,
        p.special || l <= p.var,
        cache_ok(cache_view(old(cache)@), builder@, n as nat),
    ensures
        cache_ok(cache_view(final(cache)@), builder@, n as nat),
        r < COUNT_PRIME,
        r as int == count_from(builder@, p, all_false(), l as nat, n as nat) % (COUNT_PRIME as nat),
    decreases rank(p), 1int,
{
    let ghost t = builder@;
    if p.is_const() {
        proof {
            lemma_count_const(t, p, all_false(), l as nat, n as nat);
        }
        if p.is_true() {
            pow2_mod(n - l)
        } else {
            proof {
                lemma_small_mod(0, COUNT_PRIME as nat);
            }
            0
        }
    } else {
        let v = p.var;
        let q = p.regular();
        let c = node_count(builder, q, n, cache);
        proof {
            lemma_support_after(t, p);
        }
        let c2 = if p.compl {
            let total = pow2_mod(n - v);
            proof {
                assert(q.neg_spec() == p);
                lemma_count_neg(t, q, all_false(), v as nat, n as nat);
                lemma_sub_mod_noop(
                    pow2((n - v) as nat) as int,
                    count_from(t, q, all_false(), v as nat, n as nat) as int,
                    COUNT_PRIME as int,
                );
            }
            sub_mod(total, c)
        } else {
            c
        };
        let k = pow2_mod(v - l);
        proof {
            lemma_count_skip(t, p, all_false(), l as nat, v as nat, n as nat);
            lemma_mul_mod_noop(
                pow2((v - l) as nat) as int,
                count_from(t, p, all_false(), v as nat, n as nat) as int,
                COUNT_PRIME as int,
            );
        }
        mul_mod(k, c2)
    }
}

/// The count of node `q` from its own variable on, reduced; looked up in
/// the cache, or computed from its two children and recorded there.
fn node_count(builder: &RobddBuilder, q: BddPtr, n: u64, cache: &mut Vec<Vec<Option<u64>>>) -> (r: u64)
    requires
        builder.wf(),
        valid_ptr(builder@, q),
        !q.special,
        !q.compl,
        n as nat == builder@.len(),
        cache_ok(cache_view(old(cache)@), builder@, n as nat),
    ensures
        cache_ok(cache_view(final(cache)@), builder@, n as nat),
        r < COUNT_PRIME,
        r as int == count_from(builder@, q, all_false(), q.var as nat, n as nat) % (COUNT_PRIME as nat),
    decreases rank(q), 0int,
{
    let ghost t = builder@;
    assert(cache_view(cache@).len() == cache@.len());
    assert(q.var < cache.len());
    let v = q.var as usize;
    assert(cache_view(cache@)[v as int] == cache@[v as int]@);
    let row_len = cache[v].len();
    assert(q.idx < row_len);
    let i = q.idx as usize;
    assert(q == node_ptr(v as int, i as int));
    match cache[v][i] {
        Some(x) => {
            assert(cache_view(cache@)[v as int][i as int] == Some(x));
            return x;
        },
        None => {},
    }
    proof {
        lemma_node_children(t, q);
        lemma_support_after(t, node_at(t, q).low);
        lemma_support_after(t, node_at(t, q).high);
    }
    let lo = builder.low(q);
    let hi = builder.high(q);
    let c0 = level_count(builder, lo, q.var + 1, n, cache);
    let c1 = level_count(builder, hi, q.var + 1, n, cache);
    let c = add_mod(c0, c1);
    proof {
        lemma_count_split(t, q, lo, hi, q.var, n as nat);
        lemma_add_mod_noop(
            count_from(t, lo, all_false(), (q.var + 1) as nat, n as nat) as int,
            count_from(t, hi, all_false(), (q.var + 1) as nat, n as nat) as int,
            COUNT_PRIME as int,
        );
    }
    let ghost c_before = cache_view(cache@);
    let mut row: Vec<Option<u64>> = Vec::new();
    cache.set_and_swap(v, &mut row);
    assert(row@ == c_before[v as int]);
    row.set(i, Some(c));
    cache.set_and_swap(v, &mut row);
    proof {
        let c_after = cache_view(cache@);
        assert(c_after =~= c_before.update(v as int, c_before[v as int].update(i as int, Some(c))));
    }
    c
}

/// The number of models of `bdd` over all the variables of the builder,
/// reduced modulo `COUNT_PRIME` (which changes nothing while there are
/// fewer than 64 variables). Each node is counted once.
pub fn model_count(builder: &RobddBuilder, bdd: BddPtr) -> (r: u64)
    requires
        builder.wf(),
        valid_ptr(builder@, bdd),
    ensures
        r as int == model_count_spec(builder@, bdd) % (COUNT_PRIME as nat),
{
    let ghost t = builder@;
    let n = builder.num_vars();
    let mut cache: Vec<Vec<Option<u64>>> = Vec::new();
    let mut v: usize = 0;
    while v < n
        invariant
            n == t.len(),
            builder@ == t,
            v <= n,
            cache@.len() == v,
            forall|w: int| 0 <= w < v ==> #[trigger] cache@[w]@.len() == t[w].len(),
            forall|w: int, i: int| 0 <= w < v && 0 <= i < cache@[w]@.len() ==> #[trigger] cache@[w]@[i] is None,
        decreases n - v,
    {
        let len = builder.subtable_len(v);
        let mut row: Vec<Option<u64>> = Vec::new();
        let mut i: usize = 0;
        while i < len
            invariant
                i <= len,
                row@.len() == i,
                forall|j: int| 0 <= j < i ==> #[trigger] row@[j] is None,
            decreases len - i,
        {
            row.push(None);
            i = i + 1;
        }
        cache.push(row);
        v = v + 1;
    }
    proof {
        let c = cache_view(cache@);
        assert forall|w: int| 0 <= w < c.len() implies #[trigger] c[w].len() == t[w].len() by {
            assert(c[w] == cache@[w]@);
        }
        assert forall|w: int, i: int| 0 <= w < c.len() && 0 <= i < c[w].len() implies match #[trigger] c[w][i] {
            Some(x) => x as int == count_from(t, node_ptr(w, i), all_false(), w as nat, n as nat) % (COUNT_PRIME as nat),
            None => true,
        } by {
            assert(c[w] == cache@[w]@);
        }
    }
    level_count(builder, bdd, 0, n as u64, &mut cache)
}

} // verus!
