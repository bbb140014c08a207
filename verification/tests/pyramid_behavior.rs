use density_pyramid::{diff_layer, norm, same_shape, supported_params, Layer, Node, Pyramid};

const W: i64 = 1_048_576; // fixed-point weight scale: contribution of a point at the bin position
const VAL_CAP: i64 = 1_099_511_627_776;

fn square_limits() -> Vec<(i64, i64)> {
    vec![(-8, 8), (-8, 8)]
}

#[test]
fn layer_counts_match_bin_counts() {
    let p = Pyramid::new(&square_limits(), &vec![4, 4]);
    assert_eq!(p.num_layers(), 3); // 1 + log2(4)
    assert_eq!(p.layer(0).nodes.len(), 1);
    assert_eq!(p.layer(1).nodes.len(), 4);
    assert_eq!(p.layer(2).nodes.len(), 16);
}

#[test]
fn layer_counts_uneven_axes() {
    let p = Pyramid::new(&square_limits(), &vec![2, 8]);
    // the deepest axis decides the layer count; every layer is a full grid
    assert_eq!(p.num_layers(), 4); // 1 + log2(8)
    assert_eq!(p.layer(3).nodes.len(), 64);
}

#[test]
fn fresh_pyramid_has_zero_values() {
    let p = Pyramid::new(&square_limits(), &vec![4, 4]);
    for l in 0..p.num_layers() {
        for v in p.layer(l).values() {
            assert_eq!(v, 0);
        }
    }
}

#[test]
fn one_dim_insertion_exact_weights() {
    // limits (-8, 8), two bins: level 1 has den 3, positions -8/3 and 8/3,
    // extent 16/3. Point 2 is inside both supports; the kernel weights are
    // (16-14)/16 and (16-2)/16 of the full weight.
    let mut p = Pyramid::new(&vec![(-8, 8)], &vec![2]);
    p.add_point(&vec![2]);
    let vals = p.layer(1).values();
    assert_eq!(vals, vec![W / 8, 7 * W / 8]);
    // the root accumulates nothing
    assert_eq!(p.layer(0).values(), vec![0]);
}

#[test]
fn point_outside_all_supports_adds_nothing() {
    let mut p = Pyramid::new(&vec![(-8, 8)], &vec![2]);
    p.add_point(&vec![100]);
    assert_eq!(p.layer(1).values(), vec![0, 0]);
}

#[test]
fn clear_zeroes_values_and_keeps_lattice() {
    let mut p = Pyramid::new(&square_limits(), &vec![8, 8]);
    p.add_point(&vec![0, 0]);
    p.add_point(&vec![3, 5]);
    let before: Vec<Vec<i64>> = (0..p.num_layers()).map(|l| p.layer(l).values()).collect();
    let children_before: Vec<Vec<Vec<usize>>> = (0..p.num_layers())
        .map(|l| p.layer(l).nodes.iter().map(|n| n.children.clone()).collect())
        .collect();
    p.clear();
    for l in 0..p.num_layers() {
        for v in p.layer(l).values() {
            assert_eq!(v, 0);
        }
    }
    let children_after: Vec<Vec<Vec<usize>>> = (0..p.num_layers())
        .map(|l| p.layer(l).nodes.iter().map(|n| n.children.clone()).collect())
        .collect();
    assert_eq!(children_before, children_after);
    // insertion behaves identically after the reset
    p.add_point(&vec![0, 0]);
    p.add_point(&vec![3, 5]);
    let after: Vec<Vec<i64>> = (0..p.num_layers()).map(|l| p.layer(l).values()).collect();
    assert_eq!(before, after);
}

#[test]
fn clear_twice_equals_clear_once() {
    let mut p = Pyramid::new(&square_limits(), &vec![4, 4]);
    p.add_point(&vec![1, -2]);
    p.clear();
    let once: Vec<Vec<i64>> = (0..p.num_layers()).map(|l| p.layer(l).values()).collect();
    let children_once: Vec<Vec<Vec<usize>>> = (0..p.num_layers())
        .map(|l| p.layer(l).nodes.iter().map(|n| n.children.clone()).collect())
        .collect();
    p.clear();
    let twice: Vec<Vec<i64>> = (0..p.num_layers()).map(|l| p.layer(l).values()).collect();
    let children_twice: Vec<Vec<Vec<usize>>> = (0..p.num_layers())
        .map(|l| p.layer(l).nodes.iter().map(|n| n.children.clone()).collect())
        .collect();
    assert_eq!(once, twice);
    assert_eq!(children_once, children_twice);
}

#[test]
fn multi_parent_lattice() {
    // at least one level-2 bin hangs under more than one level-1 bin:
    // the node graph is a lattice, not a tree
    let p = Pyramid::new(&square_limits(), &vec![4, 4]);
    let level1 = &p.layer(1).nodes;
    let level2_count = p.layer(2).nodes.len();
    let mut found_multi_parent = false;
    for j in 0..level2_count {
        let parents = level1
            .iter()
            .filter(|n| n.children.contains(&j))
            .count();
        if parents > 1 {
            found_multi_parent = true;
        }
    }
    assert!(found_multi_parent);
}

#[test]
fn every_level2_bin_has_a_parent() {
    let p = Pyramid::new(&square_limits(), &vec![4, 4]);
    let level1 = &p.layer(1).nodes;
    for j in 0..p.layer(2).nodes.len() {
        assert!(level1.iter().any(|n| n.children.contains(&j)));
    }
}

#[test]
fn end_to_end_center_point() {
    let mut p = Pyramid::new(&square_limits(), &vec![8, 8]);
    p.add_point(&vec![0, 0]);
    let vals = p.layer(3).values();
    let sum: i64 = vals.iter().sum();
    assert!(sum > 0);
    assert_eq!(sum, 4 * (W / 2)); // the four central bins, each at half weight
    let max = *vals.iter().max().unwrap();
    assert_eq!(max, W / 2);
    // the bins nearest (0, 0) — positions (±8/9, ±8/9) — hold the maximum
    for idx in [3 * 8 + 3, 3 * 8 + 4, 4 * 8 + 3, 4 * 8 + 4] {
        assert_eq!(vals[idx], max);
    }
    // every other bin saw nothing
    let zeroes = vals.iter().filter(|v| **v == 0).count();
    assert_eq!(zeroes, 60);
}

#[test]
fn three_axes_center_insertion() {
    let mut p = Pyramid::new(&vec![(-4, 4), (-4, 4), (-4, 4)], &vec![2, 2, 2]);
    assert_eq!(p.num_layers(), 2);
    assert_eq!(p.layer(1).nodes.len(), 8);
    p.add_point(&vec![0, 0, 0]);
    // level 1: den 3, positions +-4/3, extent 8/3; distance 4/3 on every
    // axis, so each of the eight bins gets (8-4)/8 of the full weight
    let vals = p.layer(1).values();
    for v in &vals {
        assert_eq!(*v, W / 2);
    }
}

#[test]
fn four_axes_construction() {
    let p = Pyramid::new(&vec![(-2, 2); 4], &vec![4, 2, 2, 2]);
    assert_eq!(p.num_layers(), 3);
    assert_eq!(p.layer(1).nodes.len(), 16);
    assert_eq!(p.layer(2).nodes.len(), 256);
}

#[test]
fn containment_boundary_is_inclusive() {
    // a node at 4/2 with extent 6/2: support is [-1, 5]
    let node = Node::new(vec![4], 0);
    assert!(node.inside(2, &vec![5], 1, &vec![6])); // exactly position + extent
    assert!(node.inside(2, &vec![-1], 1, &vec![6])); // exactly position - extent
    assert!(!node.inside(2, &vec![6], 1, &vec![6])); // one unit beyond the upper bound
    assert!(!node.inside(2, &vec![-2], 1, &vec![6])); // one unit beyond the lower bound
}

#[test]
fn containment_needs_every_axis() {
    let node = Node::new(vec![0, 0], 0);
    assert!(node.inside(1, &vec![3, 3], 1, &vec![4, 4]));
    assert!(!node.inside(1, &vec![3, 5], 1, &vec![4, 4]));
}

#[test]
fn norm_is_symmetric_and_zero_on_self() {
    let mut p1 = Pyramid::new(&vec![(-8, 8)], &vec![2]);
    let mut p2 = Pyramid::new(&vec![(-8, 8)], &vec![2]);
    p1.add_point(&vec![2]);
    p2.add_point(&vec![-2]);
    assert_eq!(norm(&p1, &p2), norm(&p2, &p1));
    assert_eq!(norm(&p1, &p1), 0);
    assert_eq!(norm(&p2, &p2), 0);
    p1.clear();
    assert_eq!(norm(&p1, &p1), 0);
}

#[test]
fn norm_exact_value() {
    let mut p1 = Pyramid::new(&vec![(-8, 8)], &vec![2]);
    let mut p2 = Pyramid::new(&vec![(-8, 8)], &vec![2]);
    p1.add_point(&vec![2]); // values [W/8, 7W/8]
    p2.add_point(&vec![-2]); // values [7W/8, W/8]
    let d: i128 = (7 * W / 8 - W / 8) as i128;
    assert_eq!(norm(&p1, &p2), 2 * d * d);
}

#[test]
fn norm_ignores_root_layer() {
    // two freshly built pyramids differ nowhere below the root
    let p1 = Pyramid::new(&vec![(-8, 8)], &vec![2]);
    let p2 = Pyramid::new(&vec![(-8, 8)], &vec![2]);
    assert_eq!(norm(&p1, &p2), 0);
}

#[test]
fn same_shape_compares_structure_only() {
    let mut p1 = Pyramid::new(&square_limits(), &vec![4, 4]);
    let p2 = Pyramid::new(&square_limits(), &vec![4, 4]);
    let p3 = Pyramid::new(&square_limits(), &vec![4, 8]);
    let p4 = Pyramid::new(&vec![(-8, 8), (-4, 8)], &vec![4, 4]);
    p1.add_point(&vec![1, 1]); // values play no part
    assert!(same_shape(&p1, &p2));
    assert!(!same_shape(&p1, &p3));
    assert!(!same_shape(&p1, &p4));
}

#[test]
fn supported_params_screens_inputs() {
    assert!(supported_params(&vec![(-8, 8), (-8, 8)], &vec![4, 4]));
    assert!(supported_params(&vec![(-1, 1)], &vec![128]));
    // not a power of two
    assert!(!supported_params(&vec![(-8, 8)], &vec![3]));
    // no axes at all, too many axes
    assert!(!supported_params(&vec![], &vec![]));
    assert!(!supported_params(&vec![(-1, 1); 5], &vec![2; 5]));
    // axis counts must match
    assert!(!supported_params(&vec![(-8, 8)], &vec![4, 4]));
    // empty or reversed domain
    assert!(!supported_params(&vec![(3, 3)], &vec![4]));
    assert!(!supported_params(&vec![(5, -5)], &vec![4]));
    // bin count over the supported maximum
    assert!(!supported_params(&vec![(-8, 8)], &vec![256]));
}

#[test]
fn diff_layer_elementwise() {
    let mut p1 = Pyramid::new(&vec![(-8, 8)], &vec![2]);
    let mut p2 = Pyramid::new(&vec![(-8, 8)], &vec![2]);
    p1.add_point(&vec![2]);
    p2.add_point(&vec![-2]);
    let d = diff_layer(p1.layer(1), p2.layer(1));
    assert_eq!(d, vec![W / 8 - 7 * W / 8, 7 * W / 8 - W / 8]);
}

#[test]
fn accumulation_saturates_at_cap() {
    // level 1 of (-8, 8) with two bins: den 3, extent 16/3; point 2 adds
    // W/8 to the first bin, which sits one unit below the cap
    let mut lay = Layer::new(1, vec![16]);
    let mut node = Node::new(vec![-8], 0);
    node.val = VAL_CAP - 1;
    lay.push_node(node);
    lay.add_at(0, &vec![2]);
    assert_eq!(lay.nodes[0].val, VAL_CAP);
}

#[test]
fn gray_values_scale_to_byte_range() {
    let mut lay = Layer::new(0, vec![16]);
    for (i, v) in [0i64, 100, 50, -3].iter().enumerate() {
        let mut node = Node::new(vec![0], i);
        node.val = *v;
        lay.push_node(node);
    }
    assert_eq!(lay.gray_values(), vec![0u8, 255, 127, 0]);
}

#[test]
fn values_follow_layer_order() {
    let mut lay = Layer::new(0, vec![16]);
    for (i, v) in [5i64, 7, 9].iter().enumerate() {
        let mut node = Node::new(vec![0], i);
        node.val = *v;
        lay.push_node(node);
    }
    assert_eq!(lay.values(), vec![5, 7, 9]);
}
