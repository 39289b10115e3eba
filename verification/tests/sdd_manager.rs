use rsdd::repr::VarLabel;
use rsdd::sdd_manager::{even_split, into_parent_ptr_vec, is_prime, least_common_ancestor, BTree, VTree};

fn simple_vtree() -> VTree {
    BTree::Node(
        (),
        Box::new(BTree::Leaf(vec![VarLabel::new(0), VarLabel::new(1)])),
        Box::new(BTree::Leaf(vec![VarLabel::new(2), VarLabel::new(3)])),
    )
}

#[test]
fn test_lca() {
    //    0
    // 1      4
    //2 3   5  6
    let simple_vtree2 = BTree::Node((), Box::new(simple_vtree()), Box::new(simple_vtree()));
    let par_vec = into_parent_ptr_vec(&simple_vtree2);
    assert_eq!(least_common_ancestor(&par_vec, 2, 3), 1);
    assert_eq!(least_common_ancestor(&par_vec, 2, 5), 0);
    assert_eq!(least_common_ancestor(&par_vec, 2, 1), 1);
    assert_eq!(least_common_ancestor(&par_vec, 4, 2), 0);
}

#[test]
fn parent_table_of_two_level_vtree() {
    let t = BTree::Node((), Box::new(simple_vtree()), Box::new(simple_vtree()));
    let pv = into_parent_ptr_vec(&t);
    assert_eq!(
        pv,
        vec![
            (None, 0),
            (Some(0), 1),
            (Some(1), 2),
            (Some(1), 2),
            (Some(0), 1),
            (Some(4), 2),
            (Some(4), 2),
        ]
    );
}

#[test]
fn lca_of_node_with_itself_and_root() {
    let t = BTree::Node((), Box::new(simple_vtree()), Box::new(simple_vtree()));
    let pv = into_parent_ptr_vec(&t);
    assert_eq!(least_common_ancestor(&pv, 5, 5), 5);
    assert_eq!(least_common_ancestor(&pv, 0, 6), 0);
    assert_eq!(least_common_ancestor(&pv, 6, 0), 0);
    assert_eq!(least_common_ancestor(&pv, 5, 6), 4);
}

fn leaves(t: &VTree, out: &mut Vec<Vec<u64>>) {
    match t {
        BTree::Leaf(v) => out.push(v.iter().map(|l| l.value()).collect()),
        BTree::Node(_, l, r) => {
            leaves(l, out);
            leaves(r, out);
        }
    }
}

#[test]
fn even_split_halves_the_order() {
    let order: Vec<VarLabel> = (0..5).map(VarLabel::new).collect();
    let t = even_split(&order, 2);
    let mut out = vec![];
    leaves(&t, &mut out);
    assert_eq!(out, vec![vec![0], vec![1], vec![2], vec![3, 4]]);
    let t0 = even_split(&order, 0);
    let mut out0 = vec![];
    leaves(&t0, &mut out0);
    assert_eq!(out0, vec![vec![0, 1, 2, 3, 4]]);
}

#[test]
fn prime_is_earlier_in_order() {
    let t = simple_vtree();
    assert!(is_prime(&t, 1, 2));
    assert!(!is_prime(&t, 2, 1));
    assert!(!is_prime(&t, 2, 2));
}
