use rsdd::builder::RobddBuilder;
use rsdd::count::{model_count, COUNT_PRIME};
use rsdd::repr::VarLabel;

#[test]
fn counts_of_constants() {
    let b = RobddBuilder::new(3);
    assert_eq!(model_count(&b, b.true_ptr()), 8);
    assert_eq!(model_count(&b, b.false_ptr()), 0);
    let empty = RobddBuilder::new(0);
    assert_eq!(model_count(&empty, empty.true_ptr()), 1);
    assert_eq!(model_count(&empty, empty.false_ptr()), 0);
}

#[test]
fn counts_of_literals_and_connectives() {
    let mut b = RobddBuilder::new(3);
    let x = b.var(VarLabel::new(0), true);
    let y = b.var(VarLabel::new(1), true);
    let nz = b.var(VarLabel::new(2), false);
    assert_eq!(model_count(&b, x), 4);
    assert_eq!(model_count(&b, nz), 4);
    let xy = b.and(x, y);
    assert_eq!(model_count(&b, xy), 2);
    let x_or_y = b.or(x, y);
    assert_eq!(model_count(&b, x_or_y), 6);
    let same = b.iff(x, y);
    assert_eq!(model_count(&b, same), 4);
    let all3 = b.and(xy, nz);
    assert_eq!(model_count(&b, all3), 1);
}

#[test]
fn complement_counts_the_rest() {
    let mut b = RobddBuilder::new(4);
    let x = b.var(VarLabel::new(1), true);
    let y = b.var(VarLabel::new(3), false);
    let f = b.or(x, y);
    let nf = b.negate(f);
    assert_eq!(model_count(&b, f) + model_count(&b, nf), 16);
    assert_eq!(model_count(&b, nf), 4);
}

#[test]
fn shared_nodes_parity() {
    // the parity of 20 variables: half of all 2^20 assignments
    let n = 20;
    let mut b = RobddBuilder::new(n);
    let mut f = b.false_ptr();
    for i in 0..n {
        let v = b.var(VarLabel::new(i as u64), true);
        let nv = b.negate(v);
        f = b.ite(f, nv, v);
    }
    assert_eq!(model_count(&b, f), 1 << 19);
}

#[test]
fn counts_are_reduced_modulo_the_prime() {
    // over 64 variables the true constant has 2^64 models, which is 59
    // more than the prime
    let b = RobddBuilder::new(64);
    assert_eq!(COUNT_PRIME, 18446744073709551557);
    assert_eq!(model_count(&b, b.true_ptr()), 59);
    let b63 = RobddBuilder::new(63);
    assert_eq!(model_count(&b63, b63.true_ptr()), 1u64 << 63);
}

fn pow2_mod_prime(k: u32) -> u64 {
    let mut r: u128 = 1;
    for _ in 0..k {
        r = (r * 2) % (COUNT_PRIME as u128);
    }
    r as u64
}

#[test]
fn long_parity_chain() {
    // every step recomputes the same cofactors many times over; only the
    // cache of if-then-else results keeps this linear
    let n = 300;
    let mut b = RobddBuilder::new(n);
    let mut f = b.false_ptr();
    for i in 0..n {
        let v = b.var(VarLabel::new(i as u64), true);
        let nv = b.negate(v);
        f = b.ite(f, nv, v);
    }
    assert_eq!(rsdd::extras::count_nodes(&b, &f), n);
    assert_eq!(model_count(&b, f), pow2_mod_prime(299));
    let ff = b.and(f, f);
    assert_eq!(ff, f);
}
