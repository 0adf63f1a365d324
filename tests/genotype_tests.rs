use blob_morph::genotype::{BlobGeno, GenericGenoNode, GenoNode, GENO_MAX_DEPTH};
use blob_morph::quad_tree::QuadTree;

fn limb(size: [i32; 2], center: [i32; 2]) -> Option<GenericGenoNode> {
    Some(GenericGenoNode::Child(GenoNode {
        joint_limits: [-1000, 1000],
        size,
        center,
        nn_id: None,
    }))
}

fn empty_geno() -> BlobGeno {
    BlobGeno { vec_tree: QuadTree::new(GENO_MAX_DEPTH) }
}

#[test]
fn test_geno_builder_validation() {
    for _ in 0..100 {
        let geno = BlobGeno::new_rand();
        assert!(geno.is_valid());
    }
}

#[test]
fn generated_genotypes_have_one_marker_per_parent() {
    for _ in 0..100 {
        let geno = BlobGeno::new_rand();
        let nodes = &geno.vec_tree.nodes;
        for i in 0..nodes.len() {
            if nodes[i].is_none() {
                continue;
            }
            let ch = geno.vec_tree.children(i);
            let in_range: Vec<&Option<GenericGenoNode>> =
                ch.iter().filter(|&&c| c < nodes.len()).map(|&c| &nodes[c]).collect();
            let occupied = in_range.iter().filter(|n| n.is_some()).count();
            let markers = in_range
                .iter()
                .filter(|n| matches!(n, Some(GenericGenoNode::Parent)))
                .count();
            if occupied > 0 {
                assert_eq!(markers, 1);
            }
        }
    }
}

#[test]
fn generated_limbs_respect_the_drawing_ranges() {
    for _ in 0..100 {
        let geno = BlobGeno::new_rand();
        assert_eq!(geno.vec_tree.nodes.len(), 21);
        let root = geno.get_first().unwrap();
        assert_eq!(root.size, [50, 50]);
        assert_eq!(root.center, [0, 0]);
        for k in 1..geno.vec_tree.nodes.len() {
            if let Some(GenericGenoNode::Child(n)) = &geno.vec_tree.nodes[k] {
                assert!(n.size[0] >= 25 && n.size[1] >= 25);
                assert!(n.size[0] < 100 && n.size[1] < 100);
                assert!(n.joint_limits[0] >= -2827 && n.joint_limits[0] < 0);
                assert!(n.joint_limits[1] > 0 && n.joint_limits[1] <= 2827);
                assert!(n.nn_id.is_none());
                let p = match &geno.vec_tree.nodes[(k - 1) / 4] {
                    Some(GenericGenoNode::Child(p)) => *p,
                    _ => panic!("limb under a slot without a limb"),
                };
                let d = (k - 1) % 4;
                let expected = match d {
                    0 => [p.center[0], p.center[1] + p.size[1] + n.size[1]],
                    1 => [p.center[0], p.center[1] - p.size[1] - n.size[1]],
                    2 => [p.center[0] - p.size[0] - n.size[0], p.center[1]],
                    _ => [p.center[0] + p.size[0] + n.size[0], p.center[1]],
                };
                assert_eq!(n.center, expected);
            }
        }
    }
}

#[test]
fn overlapping_limbs_are_invalid() {
    let mut g = empty_geno();
    g.vec_tree.nodes[0] = limb([50, 50], [0, 0]);
    g.vec_tree.nodes[1] = limb([25, 25], [0, 60]);
    assert!(!g.is_valid());
}

#[test]
fn touching_limbs_are_valid() {
    let mut g = empty_geno();
    g.vec_tree.nodes[0] = limb([50, 50], [0, 0]);
    g.vec_tree.nodes[1] = limb([25, 25], [0, 75]);
    g.vec_tree.nodes[3] = limb([25, 25], [-75, 0]);
    assert!(g.is_valid());
}

#[test]
fn unreached_limbs_do_not_count() {
    let mut g = empty_geno();
    g.vec_tree.nodes[0] = limb([50, 50], [0, 0]);
    g.vec_tree.nodes[1] = Some(GenericGenoNode::Parent);
    // below a marker: never reached, though it overlaps the root
    g.vec_tree.nodes[5] = limb([50, 50], [0, 0]);
    assert!(g.is_valid());
}

#[test]
fn leaf_nodes_skip_root_and_markers() {
    let mut g = empty_geno();
    g.vec_tree.nodes[0] = limb([50, 50], [0, 0]);
    g.vec_tree.nodes[1] = limb([25, 25], [0, 75]);
    g.vec_tree.nodes[2] = Some(GenericGenoNode::Parent);
    g.vec_tree.nodes[3] = limb([25, 25], [-75, 0]);
    g.vec_tree.nodes[13] = limb([10, 10], [-110, 0]);
    g.vec_tree.nodes[14] = Some(GenericGenoNode::Parent);
    assert_eq!(g.leaf_nodes(), vec![1, 13]);
}

#[test]
fn root_binding_is_kept_once_set() {
    let mut g = empty_geno();
    g.vec_tree.nodes[0] = limb([50, 50], [0, 0]);
    g.assign_nn_id_to_root(7);
    assert_eq!(g.get_first().unwrap().nn_id, Some(7));
    g.assign_nn_id_to_root(9);
    assert_eq!(g.get_first().unwrap().nn_id, Some(7));
}

#[test]
fn get_first_of_a_marker_root_is_none() {
    let mut g = empty_geno();
    assert!(g.get_first().is_none());
    g.vec_tree.nodes[0] = Some(GenericGenoNode::Parent);
    assert!(g.get_first().is_none());
}

#[test]
fn default_nodes() {
    let n = GenoNode::default();
    assert_eq!(n.joint_limits, [-3142, 3142]);
    assert_eq!(n.size, [50, 50]);
    assert_eq!(n.center, [0, 0]);
    assert_eq!(n.nn_id, None);
    let m = GenoNode::from_nn_id(4);
    assert_eq!(m.nn_id, Some(4));
    assert_eq!(m.size, [50, 50]);
    let g = BlobGeno::default();
    assert_eq!(g.vec_tree.max_depth, 2);
    assert_eq!(g.vec_tree.nodes.len(), 21);
    assert!(g.vec_tree.nodes.iter().all(|n| n.is_none()));
}

#[test]
fn parts_round_trip_keeps_validity_and_bindings() {
    for _ in 0..20 {
        let mut g = BlobGeno::new_rand();
        g.assign_nn_id_to_root(3);
        let h = BlobGeno::from_parts(g.vec_tree.max_depth, g.vec_tree.nodes.clone()).unwrap();
        assert_eq!(h.is_valid(), g.is_valid());
        for k in 0..g.vec_tree.nodes.len() {
            let a = match &g.vec_tree.nodes[k] {
                Some(GenericGenoNode::Child(n)) => Some(n.nn_id),
                _ => None,
            };
            let b = match &h.vec_tree.nodes[k] {
                Some(GenericGenoNode::Child(n)) => Some(n.nn_id),
                _ => None,
            };
            assert_eq!(a, b);
        }
    }
    let mut bad = empty_geno();
    bad.vec_tree.nodes[0] = limb([50, 50], [0, 0]);
    bad.vec_tree.nodes[1] = limb([50, 50], [0, 20]);
    let h = BlobGeno::from_parts(2, bad.vec_tree.nodes.clone()).unwrap();
    assert!(!h.is_valid());
}

#[test]
fn from_parts_rejects_wrong_length_or_depth() {
    let nodes: Vec<Option<GenericGenoNode>> = vec![None; 17];
    assert!(BlobGeno::from_parts(2, nodes).is_none());
    let nodes: Vec<Option<GenericGenoNode>> = vec![None; 5];
    assert!(BlobGeno::from_parts(1, nodes).is_some());
    let nodes: Vec<Option<GenericGenoNode>> = vec![None; 1];
    assert!(BlobGeno::from_parts(13, nodes).is_none());
    let nodes: Vec<Option<GenericGenoNode>> = vec![None; 1];
    assert!(BlobGeno::from_parts(40, nodes).is_none());
}

#[test]
fn generation_draws_vary() {
    let mut sizes = std::collections::BTreeSet::new();
    let mut marker_slots = std::collections::BTreeSet::new();
    let mut swings = std::collections::BTreeSet::new();
    let mut empty_slots = 0;
    for _ in 0..100 {
        let g = BlobGeno::new_rand();
        for k in 1..5 {
            match &g.vec_tree.nodes[k] {
                Some(GenericGenoNode::Parent) => {
                    marker_slots.insert(k);
                }
                Some(GenericGenoNode::Child(n)) => {
                    sizes.insert(n.size);
                    swings.insert(n.joint_limits);
                }
                None => empty_slots += 1,
            }
        }
    }
    assert!(sizes.len() > 1);
    assert!(swings.len() > 1);
    assert!(marker_slots.len() > 1);
    // one slot in ten stays untried
    assert!(empty_slots > 0);
}
