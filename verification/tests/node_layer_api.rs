use density_pyramid::{Layer, Node, Pyramid};

#[test]
fn node_accessors_and_clear() {
    let mut node = Node::new(vec![3, -5], 7);
    assert_eq!(node.id(), 7);
    assert_eq!(node.val(), 0);
    assert_eq!(node.pos, vec![3, -5]);
    assert!(node.children.is_empty());
    node.push_child(2);
    node.push_child(2); // no deduplication here, by design
    assert_eq!(node.children, vec![2, 2]);
    node.val = 41;
    node.clear();
    assert_eq!(node.val(), 0);
    assert_eq!(node.children, vec![2, 2]);
}

#[test]
fn layer_new_records_level_and_denominator() {
    let root = Layer::new(0, vec![32, 32]);
    assert_eq!(root.level, 0);
    assert_eq!(root.den, 2);
    assert_eq!(root.extent, vec![32, 32]);
    let fine = Layer::new(3, vec![16, 16]);
    assert_eq!(fine.den, 9); // 2^3 + 1
}

#[test]
fn layer_push_and_link() {
    let mut lay = Layer::new(1, vec![16]);
    lay.push_node(Node::new(vec![-8], 0));
    lay.push_node(Node::new(vec![8], 1));
    lay.link_child(0, 5);
    assert_eq!(lay.nodes[0].children, vec![5]);
    assert!(lay.nodes[1].children.is_empty());
    lay.nodes[0].val = 9;
    lay.clear_at(0);
    assert_eq!(lay.values(), vec![0, 0]);
}

#[test]
fn pyramid_push_layer_and_push_node() {
    let mut p = Pyramid::new(&vec![(-8, 8)], &vec![2]);
    assert_eq!(p.num_layers(), 2);
    // the root adopted both level-1 bins during construction
    assert_eq!(p.layer(0).nodes[0].children, vec![0, 1]);
    // linking the same node again appends a second reference: the operation
    // itself never deduplicates, exactly like a single construction pass
    p.push_node(0, 0);
    assert_eq!(p.layer(0).nodes[0].children, vec![0, 1, 0]);
    // layers can be appended by hand
    let extra = Layer::new(2, vec![16]);
    p.push_layer(extra);
    assert_eq!(p.num_layers(), 3);
    assert_eq!(p.layer(2).nodes.len(), 0);
}
