use rsdd::repr::{BddNode, BddPtr, PointerType, VarLabel, Bdd};
use rsdd::util::graphviz::{call_recursive_bfs, MyBddManager};

#[test]
fn test_dot_rust_bug() {
    let va = VarLabel::new(0);
    let vb = VarLabel::new(1);
    let mut mgr = MyBddManager::new(vec![va, vb]);
    let a = mgr.var(va);
    let b = mgr.var(vb);
    let ab = mgr.and(a, b);

    println!("{:#?}", call_recursive_bfs(&mgr, a));
    let _ = ab;
}

#[test]
fn var_points_at_first_node() {
    let mut mgr = MyBddManager::new(vec![VarLabel::new(0), VarLabel::new(1)]);
    let a = mgr.var(VarLabel::new(1));
    assert_eq!(a, BddPtr::new(VarLabel::new(1), rsdd::repr::TableIndex::new(0)));
    assert_eq!(
        mgr.deref(a),
        Bdd::Node(BddNode::new(BddPtr::false_node(), BddPtr::true_node(), VarLabel::new(1)))
    );
    assert_eq!(mgr.low(a), BddPtr::false_node());
    assert_eq!(mgr.high(a), BddPtr::true_node());
    assert_eq!(mgr.deref(BddPtr::true_node()), Bdd::BddTrue);
    assert_eq!(mgr.deref(BddPtr::false_node()), Bdd::BddFalse);
}

#[test]
fn and_walks_the_first_argument() {
    let mut mgr = MyBddManager::new(vec![VarLabel::new(0), VarLabel::new(1)]);
    let a = mgr.var(VarLabel::new(0));
    let b = mgr.var(VarLabel::new(1));
    assert_eq!(mgr.and(BddPtr::true_node(), b), b);
    assert_eq!(mgr.and(BddPtr::false_node(), b), BddPtr::false_node());
    let ab = mgr.and(a, b);
    assert_eq!(ab, a);
    // the node (false, b) for variable 0 was recorded after the variable's own node
    let n = mgr.get_or_insert(BddNode::new(BddPtr::false_node(), b, VarLabel::new(0)));
    assert_eq!(n, a);
}

#[test]
fn traversal_lists_edges_depth_first() {
    let mut mgr = MyBddManager::new(vec![VarLabel::new(0), VarLabel::new(1)]);
    let b = mgr.var(VarLabel::new(1));
    let top = BddNode::new(b, BddPtr::true_node(), VarLabel::new(0));
    let a = mgr.get_or_insert(top);
    let edges = call_recursive_bfs(&mgr, a);
    let summary: Vec<(BddPtr, BddPtr)> = edges.iter().map(|e| (e.0 .0, e.1 .0)).collect();
    assert_eq!(
        summary,
        vec![
            (a, b),
            (a, BddPtr::true_node()),
            (b, BddPtr::false_node()),
            (b, BddPtr::true_node()),
        ]
    );
    for e in edges.iter() {
        assert_eq!(e.0 .1 .0, "PtrTrue");
        assert_eq!(e.1 .1 .0, "PtrTrue");
        assert_eq!(e.0 .1 .1, PointerType::PtrNode);
    }
    assert_eq!(edges[1].1 .1 .1, PointerType::PtrTrue);
    assert_eq!(edges[2].1 .1 .1, PointerType::PtrFalse);
    assert!(call_recursive_bfs(&mgr, BddPtr::true_node()).is_empty());
}
