use rsdd::builder::RobddBuilder;
use rsdd::repr::{BddPtr, PointerType, VarLabel};

#[test]
fn simple_cond() {
    // x /\ !y /\ !z, conditioned on y = true, is false
    let mut builder = RobddBuilder::new(3);
    let x = builder.var(VarLabel::new(0), true);
    let y = builder.var(VarLabel::new(1), false);
    let z = builder.var(VarLabel::new(2), false);
    let r1 = builder.and(x, y);
    let r2 = builder.and(r1, z);
    let res = builder.condition(r2, VarLabel::new(1), true);
    let expected = builder.false_ptr();
    assert!(!builder.eq(r2, expected));
    assert!(builder.eq(res, expected));
}

#[test]
fn compare_constants() {
    let mut builder = RobddBuilder::new(3);
    let x = builder.var(VarLabel::new(0), true);
    let y = builder.var(VarLabel::new(1), false);
    let x_and_y = builder.and(x, y);
    assert!(!x_and_y.is_true());
    assert!(!x_and_y.is_false());
    assert!(!x_and_y.is_const());
}

#[test]
fn equal_functions_share_a_pointer() {
    let mut b = RobddBuilder::new(3);
    let x = b.var(VarLabel::new(0), true);
    let y = b.var(VarLabel::new(1), true);
    let z = b.var(VarLabel::new(2), true);
    let xy = b.and(x, y);
    let yx = b.and(y, x);
    assert_eq!(xy, yx);
    // distributivity: x /\ (y \/ z) == (x /\ y) \/ (x /\ z)
    let yz = b.or(y, z);
    let lhs = b.and(x, yz);
    let xz = b.and(x, z);
    let rhs = b.or(xy, xz);
    assert!(b.eq(lhs, rhs));
    // de Morgan: !(x /\ y) == !x \/ !y
    let nxy = b.negate(xy);
    let nx = b.negate(x);
    let ny = b.negate(y);
    let ors = b.or(nx, ny);
    assert!(b.eq(nxy, ors));
    assert_ne!(xy, xz);
}

#[test]
fn excluded_middle_and_contradiction() {
    let mut b = RobddBuilder::new(2);
    let x = b.var(VarLabel::new(0), true);
    let nx = b.negate(x);
    let t = b.or(x, nx);
    let f = b.and(x, nx);
    assert!(t.is_true());
    assert!(f.is_false());
    assert_eq!(b.negate(nx), x);
    let i = b.iff(x, x);
    assert!(i.is_true());
    let j = b.iff(x, nx);
    assert!(j.is_false());
}

#[test]
fn literals_and_their_edges() {
    let mut b = RobddBuilder::new(2);
    let x = b.var(VarLabel::new(1), true);
    assert_eq!(x.ptr_type(), PointerType::PtrNode);
    assert_eq!(x.var(), 1);
    assert_eq!(b.low(x), BddPtr::false_node());
    assert_eq!(b.high(x), BddPtr::true_node());
    let nx = b.var(VarLabel::new(1), false);
    assert_eq!(nx, x.neg());
    assert_eq!(b.low(nx), BddPtr::true_node());
    assert_eq!(b.high(nx), BddPtr::false_node());
    assert_eq!(BddPtr::true_node().ptr_type(), PointerType::PtrTrue);
    assert_eq!(BddPtr::false_node().ptr_type(), PointerType::PtrFalse);
    assert_eq!(BddPtr::false_node().regular(), BddPtr::true_node());
}

#[test]
fn quantification_and_composition() {
    let mut b = RobddBuilder::new(3);
    let x = b.var(VarLabel::new(0), true);
    let y = b.var(VarLabel::new(1), true);
    let z = b.var(VarLabel::new(2), true);
    let xy = b.and(x, y);
    // exists y. x /\ y == x
    let e = b.quantify_exists(xy, VarLabel::new(1));
    assert_eq!(e, x);
    // (x /\ y)[y := z] == x /\ z
    let c = b.compose(xy, VarLabel::new(1), z);
    let xz = b.and(x, z);
    assert_eq!(c, xz);
    // conditioning on a variable not in the support changes nothing
    let k = b.condition(xy, VarLabel::new(2), true);
    assert_eq!(k, xy);
    // conditioning on x = false kills x /\ y
    let k2 = b.condition(xy, VarLabel::new(0), false);
    assert!(k2.is_false());
    let k3 = b.condition(xy, VarLabel::new(0), true);
    assert_eq!(k3, y);
}

#[test]
fn ite_selects() {
    let mut b = RobddBuilder::new(3);
    let x = b.var(VarLabel::new(0), true);
    let y = b.var(VarLabel::new(1), true);
    let z = b.var(VarLabel::new(2), true);
    let r = b.ite(x, y, z);
    let r1 = b.condition(r, VarLabel::new(0), true);
    let r0 = b.condition(r, VarLabel::new(0), false);
    assert_eq!(r1, y);
    assert_eq!(r0, z);
    let t = b.true_ptr();
    let f = b.false_ptr();
    assert_eq!(b.ite(t, y, z), y);
    assert_eq!(b.ite(f, y, z), z);
    assert_eq!(b.ite(x, t, f), x);
}

#[test]
fn new_variables_extend_the_order() {
    let mut b = RobddBuilder::new_default_order(1);
    assert_eq!(b.num_vars(), 1);
    let l = b.new_label();
    assert_eq!(l.value(), 1);
    let (l2, p) = b.new_var(false);
    assert_eq!(l2.value(), 2);
    assert_eq!(b.num_vars(), 3);
    assert_eq!(p.var(), 2);
    assert!(p.compl);
    let q = b.var(VarLabel::new(2), true);
    assert_eq!(q, p.neg());
}

#[test]
fn raw_encoding_round_trips() {
    let p = BddPtr { compl: true, special: false, var: 513, idx: 70000 };
    assert_eq!(BddPtr::from_raw(p.raw()), p);
    assert_eq!(p.raw(), 1 | (513 << 2) | (70000u64 << 18));
    assert_eq!(BddPtr::from_raw(BddPtr::true_node().raw()), BddPtr::true_node());
    assert_eq!(BddPtr::false_node().raw(), 3);
    assert_eq!(BddPtr::true_node().raw(), 2);
}
