use rsdd::builder::RobddBuilder;
use rsdd::extras::{all_assignments, all_models, all_models_flat, bdd_all_models, count_nodes, eval_assignment, variables, variables_sorted};
use rsdd::repr::VarLabel;

fn labels(v: &[u64]) -> Vec<VarLabel> {
    v.iter().map(|x| VarLabel::new(*x)).collect()
}

#[test]
fn variables_of_a_conjunction() {
    let mut b = RobddBuilder::new(4);
    let x = b.var(VarLabel::new(3), true);
    let y = b.var(VarLabel::new(1), false);
    let r = b.and(x, y);
    let vs: Vec<u64> = variables(&b, &r).iter().map(|l| l.value()).collect();
    assert_eq!(vs, vec![1, 3]);
    let vs2: Vec<u64> = variables_sorted(&b, &r).iter().map(|l| l.value()).collect();
    assert_eq!(vs2, vec![1, 3]);
    assert!(variables(&b, &b.true_ptr()).is_empty());
}

#[test]
fn variables_skip_shared_nodes_once() {
    let mut b = RobddBuilder::new(3);
    let x = b.var(VarLabel::new(0), true);
    let y = b.var(VarLabel::new(1), true);
    let z = b.var(VarLabel::new(2), true);
    let xy = b.iff(x, y);
    let r = b.iff(xy, z);
    let vs: Vec<u64> = variables(&b, &r).iter().map(|l| l.value()).collect();
    assert_eq!(vs, vec![0, 1, 2]);
}

#[test]
fn eval_assignment_total_and_partial() {
    let mut b = RobddBuilder::new(3);
    let x = b.var(VarLabel::new(0), true);
    let y = b.var(VarLabel::new(1), false);
    let r = b.and(x, y);
    let ls = labels(&[0, 1]);
    assert_eq!(eval_assignment(&mut b, r, &ls, &[true, false]), Some(true));
    assert_eq!(eval_assignment(&mut b, r, &ls, &[true, true]), Some(false));
    assert_eq!(eval_assignment(&mut b, r, &ls, &[false]), Some(false));
    assert_eq!(eval_assignment(&mut b, r, &ls, &[true]), None);
    assert_eq!(eval_assignment(&mut b, r, &ls, &[]), None);
    // the first value given for a variable wins
    let ls2 = labels(&[0, 0, 1]);
    assert_eq!(eval_assignment(&mut b, r, &ls2, &[true, false, false]), Some(true));
}

#[test]
fn all_models_of_a_conjunction() {
    let mut b = RobddBuilder::new(3);
    let x = b.var(VarLabel::new(0), true);
    let z = b.var(VarLabel::new(2), false);
    let r = b.and(x, z);
    assert_eq!(all_models(&mut b, r), vec![vec![true, false]]);
    let o = b.or(x, z);
    assert_eq!(all_models(&mut b, o), vec![vec![false, false], vec![true, false], vec![true, true]]);
    assert_eq!(all_models_flat(&mut b, o), vec![false, false, true, false, true, true]);
}

#[test]
fn all_models_of_constants() {
    let mut b = RobddBuilder::new(2);
    let t = b.true_ptr();
    let f = b.false_ptr();
    assert_eq!(all_models(&mut b, t), vec![Vec::<bool>::new()]);
    assert!(all_models(&mut b, f).is_empty());
}

#[test]
fn every_listed_model_evaluates_true() {
    let mut b = RobddBuilder::new(4);
    let v: Vec<_> = (0..4).map(|i| b.var(VarLabel::new(i), true)).collect();
    let a = b.iff(v[0], v[2]);
    let c = b.or(v[1], v[3]);
    let f = b.and(a, c);
    let vars = variables_sorted(&b, &f);
    let ms = all_models(&mut b, f);
    assert_eq!(ms.len(), 6);
    for m in ms.iter() {
        assert_eq!(eval_assignment(&mut b, f, &vars, m), Some(true));
    }
}

#[test]
fn all_assignments_pairs_every_vector_with_its_value() {
    let mut b = RobddBuilder::new(2);
    let x = b.var(VarLabel::new(0), true);
    let y = b.var(VarLabel::new(1), true);
    let r = b.or(x, y);
    let vars = labels(&[0, 1]);
    let got = all_assignments(&mut b, &vars, r);
    assert_eq!(
        got,
        vec![
            (vec![false, false], false),
            (vec![false, true], true),
            (vec![true, false], true),
            (vec![true, true], true),
        ]
    );
}

#[test]
fn models_record() {
    let mut b = RobddBuilder::new(3);
    let x = b.var(VarLabel::new(0), true);
    let z = b.var(VarLabel::new(2), true);
    let r = b.iff(x, z);
    let m = bdd_all_models(&mut b, r);
    assert_eq!(m.nvars, 2);
    assert_eq!(m.count, 2);
    assert_eq!(m.vars, vec![0, 2]);
    assert_eq!(m.assignments, vec![false, false, false, true, true, false, true, true]);
    assert_eq!(m.models, vec![false, false, true, true]);
}

#[test]
fn count_nodes_counts_shared_nodes_once() {
    let mut b = RobddBuilder::new(3);
    let x = b.var(VarLabel::new(0), true);
    let y = b.var(VarLabel::new(1), true);
    let z = b.var(VarLabel::new(2), true);
    assert_eq!(count_nodes(&b, &b.true_ptr()), 0);
    assert_eq!(count_nodes(&b, &x), 1);
    let xy = b.and(x, y);
    assert_eq!(count_nodes(&b, &xy), 2);
    // parity of three variables: one node per variable with complement edges
    let p1 = b.iff(x, y);
    let p2 = b.iff(p1, z);
    assert_eq!(count_nodes(&b, &p2), 3);
    let np2 = b.negate(p2);
    assert_eq!(count_nodes(&b, &np2), 3);
}

#[test]
fn reported_variables_are_exactly_the_essential_ones() {
    let mut b = RobddBuilder::new(4);
    let x0 = b.var(VarLabel::new(0), true);
    let x1 = b.var(VarLabel::new(1), true);
    let nx1 = b.var(VarLabel::new(1), false);
    let x3 = b.var(VarLabel::new(3), true);
    let a = b.and(x0, x1);
    let c = b.and(x0, nx1);
    let only_x0 = b.or(a, c);
    let f = b.iff(only_x0, x3);
    let vs: Vec<u64> = variables(&b, &f).iter().map(|l| l.value()).collect();
    assert_eq!(vs, vec![0, 3]);
    for v in 0..4u64 {
        let hi = b.condition(f, VarLabel::new(v), true);
        let lo = b.condition(f, VarLabel::new(v), false);
        assert_eq!(hi != lo, vs.contains(&v));
    }
}

#[test]
fn eval_assignment_ignores_the_order_of_pairs() {
    let mut b = RobddBuilder::new(3);
    let x = b.var(VarLabel::new(0), true);
    let y = b.var(VarLabel::new(1), false);
    let z = b.var(VarLabel::new(2), true);
    let xy = b.and(x, y);
    let f = b.or(xy, z);
    let ls = labels(&[0, 1, 2]);
    let xs = [true, false, false];
    let ls2 = labels(&[2, 0, 1]);
    let xs2 = [false, true, false];
    assert_eq!(eval_assignment(&mut b, f, &ls, &xs), Some(true));
    assert_eq!(eval_assignment(&mut b, f, &ls2, &xs2), Some(true));
    let part = labels(&[1, 0]);
    let part2 = labels(&[0, 1]);
    assert_eq!(eval_assignment(&mut b, f, &part, &[true, true]), eval_assignment(&mut b, f, &part2, &[true, true]));
    assert_eq!(eval_assignment(&mut b, f, &part, &[true, true]), None);
    assert_eq!(eval_assignment(&mut b, f, &part, &[false, true]), Some(true));
    assert_eq!(eval_assignment(&mut b, f, &part2, &[true, false]), Some(true));
}

#[test]
fn flat_models_concatenate_the_model_list() {
    let mut b = RobddBuilder::new(3);
    let x = b.var(VarLabel::new(0), true);
    let z = b.var(VarLabel::new(2), true);
    let f = b.or(x, z);
    let ms = all_models(&mut b, f);
    let flat = all_models_flat(&mut b, f);
    let joined: Vec<bool> = ms.iter().flatten().cloned().collect();
    assert_eq!(flat, joined);
    assert_eq!(flat.len(), variables_sorted(&b, &f).len() * ms.len());
    let rec = bdd_all_models(&mut b, f);
    assert_eq!(rec.count, ms.len());
    assert_eq!(rec.models, flat);
    assert_eq!(rec.models.len(), rec.nvars * rec.count);
}
