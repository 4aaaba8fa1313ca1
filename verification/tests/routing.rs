use rdaw::routing::{NodeId, Routing};

fn position(order: &[usize], node: usize) -> usize {
    order.iter().position(|&n| n == node).unwrap()
}

#[test]
fn nodes_are_numbered_in_the_order_added() {
    let mut r = Routing::new();
    assert_eq!(r.add_node(), NodeId(0));
    assert_eq!(r.add_node(), NodeId(1));
    assert_eq!(r.node_count(), 2);
    assert_eq!(r.master(), None);
    assert!(r.set_master(NodeId(1)));
    assert_eq!(r.master(), Some(NodeId(1)));
    assert!(!r.set_master(NodeId(2)));
    assert_eq!(r.master(), Some(NodeId(1)));
}

#[test]
fn upstream_lists_the_feeding_nodes() {
    let mut r = Routing::new();
    let master = r.add_node();
    let a = r.add_node();
    let b = r.add_node();
    assert!(r.connect(a, master));
    assert!(r.connect(b, master));
    assert!(r.connect(a, master));
    assert_eq!(r.upstream(master), vec![1, 2]);
    assert_eq!(r.upstream(a), Vec::<usize>::new());
    assert!(!r.connect(a, NodeId(7)));
}

#[test]
fn processing_order_puts_inputs_first() {
    // master added first, then two timeline -> strip chains feeding it
    let mut r = Routing::new();
    let master = r.add_node();
    let mut edges = Vec::new();
    for _ in 0..2 {
        let tl = r.add_node();
        let strip = r.add_node();
        r.connect(tl, strip);
        r.connect(strip, master);
        edges.push((tl.0, strip.0));
        edges.push((strip.0, master.0));
    }
    let order = r.processing_order().unwrap();
    let mut sorted = order.clone();
    sorted.sort();
    assert_eq!(sorted, vec![0, 1, 2, 3, 4]);
    for (from, to) in edges {
        assert!(position(&order, from) < position(&order, to));
    }
}

#[test]
fn a_cycle_has_no_processing_order() {
    let mut r = Routing::new();
    let a = r.add_node();
    let b = r.add_node();
    r.connect(a, b);
    r.connect(b, a);
    assert_eq!(r.processing_order(), None);

    let mut s = Routing::new();
    let c = s.add_node();
    s.connect(c, c);
    assert_eq!(s.processing_order(), None);
}
