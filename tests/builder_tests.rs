use blob_morph::assembler::{BlobBuilder, Direction, DEFAULT_COLOR};
use blob_morph::geno_builder::GenoBlobBuilder;
use blob_morph::genotype::{BlobGeno, GenericGenoNode, GenoNode, GENO_MAX_DEPTH};
use blob_morph::quad_tree::QuadTree;

fn limb(size: [i32; 2], nn_id: Option<usize>) -> Option<GenericGenoNode> {
    Some(GenericGenoNode::Child(GenoNode {
        joint_limits: [-500, 700],
        size,
        center: [0, 0],
        nn_id,
    }))
}

/// Root limb of half-extent 50 with limbs of half-extent `s` at top, left and
/// right, and the parent marker at the bottom.
fn depth_one(s: i32) -> BlobGeno {
    let mut g = BlobGeno { vec_tree: QuadTree::new(GENO_MAX_DEPTH) };
    g.vec_tree.nodes[0] = limb([50, 50], None);
    g.vec_tree.nodes[1] = limb([s, s], None);
    g.vec_tree.nodes[2] = Some(GenericGenoNode::Parent);
    g.vec_tree.nodes[3] = limb([s, s], None);
    g.vec_tree.nodes[4] = limb([s, s], None);
    g
}

fn nn(g: &BlobGeno, k: usize) -> Option<usize> {
    match &g.vec_tree.nodes[k] {
        Some(GenericGenoNode::Child(n)) => n.nn_id,
        _ => None,
    }
}

#[test]
fn depth_one_body_is_placed_flush() {
    let mut g = depth_one(25);
    let mut m = GenoBlobBuilder::new();
    assert!(m.build(&mut g, [0, 0]));
    let b = &m.builder;
    assert_eq!(b.blocks.len(), 4);
    assert_eq!(b.joints.len(), 3);
    assert_eq!(b.blocks[0].translation, [0, 0]);
    assert_eq!(b.blocks[1].translation, [0, 75]);
    assert_eq!(b.blocks[2].translation, [-75, 0]);
    assert_eq!(b.blocks[3].translation, [75, 0]);
    assert_eq!(b.blocks[0].top, Some(1));
    assert_eq!(b.blocks[0].bottom, None);
    assert_eq!(b.blocks[0].left, Some(2));
    assert_eq!(b.blocks[0].right, Some(3));
    assert_eq!(b.blocks[1].bottom, Some(0));
    assert_eq!(b.blocks[2].right, Some(0));
    assert_eq!(b.blocks[3].left, Some(0));
    assert_eq!(b.current_pos, Some(0));
}

#[test]
fn depth_one_body_with_half_size_fifty() {
    let mut g = depth_one(50);
    let mut m = GenoBlobBuilder::new();
    m.build(&mut g, [0, 0]);
    let b = &m.builder;
    assert_eq!(b.blocks.len(), 4);
    assert_eq!(b.joints.len(), 3);
    assert_eq!(b.blocks[1].translation, [0, 100]);
    assert_eq!(b.blocks[2].translation, [-100, 0]);
    assert_eq!(b.blocks[3].translation, [100, 0]);
}

#[test]
fn build_binds_every_limb_and_hinges_with_its_range() {
    let mut g = depth_one(25);
    let mut m = GenoBlobBuilder::new();
    m.build(&mut g, [10, -20]);
    let b = &m.builder;
    assert_eq!(nn(&g, 0), Some(b.blocks[0].id));
    assert_eq!(nn(&g, 1), Some(b.blocks[1].id));
    assert_eq!(nn(&g, 3), Some(b.blocks[2].id));
    assert_eq!(nn(&g, 4), Some(b.blocks[3].id));
    assert_eq!(b.blocks[0].translation, [10, -20]);
    assert_eq!(b.blocks[1].translation, [10, 55]);
    let j = b.joints[0];
    assert_eq!(j.parent, b.blocks[0].id);
    assert_eq!(j.child, b.blocks[1].id);
    assert_eq!(j.limits, [-500, 700]);
    assert_eq!(j.stiffness, 0);
    assert_eq!(j.motor_target, 0);
    assert_eq!(j.parent_anchor, [0, 50]);
    assert_eq!(j.child_anchor, [0, -25]);
}

#[test]
fn rebuilding_keeps_bindings() {
    let mut g = depth_one(25);
    let mut m = GenoBlobBuilder::new();
    m.build(&mut g, [0, 0]);
    let first: Vec<Option<usize>> = (0..5).map(|k| nn(&g, k)).collect();
    assert!(first[0].is_some());
    m.build(&mut g, [300, 300]);
    let second: Vec<Option<usize>> = (0..5).map(|k| nn(&g, k)).collect();
    assert_eq!(first, second);
    // the second body has identities of its own
    assert!(m.builder.blocks[0].id > first[4].unwrap());
}

#[test]
fn prebound_limbs_keep_their_controller() {
    let mut g = depth_one(25);
    g.vec_tree.nodes[0] = limb([50, 50], Some(42));
    g.vec_tree.nodes[3] = limb([25, 25], Some(17));
    let mut m = GenoBlobBuilder::new();
    m.build(&mut g, [0, 0]);
    assert_eq!(nn(&g, 0), Some(42));
    assert_eq!(nn(&g, 3), Some(17));
    assert_eq!(nn(&g, 1), Some(m.builder.blocks[1].id));
}

#[test]
fn navigation_on_an_empty_builder_does_nothing() {
    let mut b = BlobBuilder::new();
    assert!(!b.top());
    assert!(!b.bottom());
    assert!(!b.left());
    assert!(!b.right());
    assert!(!b.reset());
    assert_eq!(b.current_pos, None);
    assert!(b.blocks.is_empty());
}

#[test]
fn navigation_follows_links() {
    let mut b = BlobBuilder::new();
    b.create_first([0, 0], [10, 10]);
    assert!(!b.left());
    assert_eq!(b.current_pos, Some(0));
    b.add_to_left(5, 5, Some(300), None).unwrap();
    assert_eq!(b.current_pos, Some(1));
    assert!(b.right());
    assert_eq!(b.current_pos, Some(0));
    assert!(b.left());
    assert!(b.reset());
    assert_eq!(b.current_pos, Some(0));
}

#[test]
fn a_second_build_shares_no_segment_with_the_first() {
    let mut g = depth_one(25);
    let mut m = GenoBlobBuilder::new();
    m.build(&mut g, [0, 0]);
    let old_ids: Vec<usize> = m.builder.blocks.iter().map(|b| b.id).collect();
    let mut h = depth_one(30);
    m.build(&mut h, [0, 0]);
    assert_eq!(m.builder.blocks.len(), 4);
    for j in &m.builder.joints {
        assert!(!old_ids.contains(&j.parent));
        assert!(!old_ids.contains(&j.child));
    }
    m.builder.clean();
    assert!(m.builder.blocks.is_empty());
    assert!(m.builder.joints.is_empty());
    assert_eq!(m.builder.current_pos, None);
}

#[test]
fn attaching_to_a_taken_side_returns_the_neighbour() {
    let mut b = BlobBuilder::new();
    let root = b.create_first([0, 0], [50, 50]);
    let top = b.add_to_top(25, 25, None, None).unwrap();
    assert!(b.bottom());
    let again = b.attach_in_direction(Direction::Top, 10, 10, None, None);
    assert_eq!(again, Some(top));
    assert_eq!(b.blocks.len(), 2);
    assert_eq!(b.joints.len(), 1);
    assert_eq!(b.current_pos, Some(0));
    assert_ne!(root, top);
}

#[test]
fn attaching_without_a_cursor_fails() {
    let mut b = BlobBuilder::new();
    assert_eq!(b.add_to_right(5, 5, None, None), None);
    assert!(b.blocks.is_empty());
}

#[test]
fn attaching_beyond_the_coordinate_range_fails() {
    let mut b = BlobBuilder::new();
    b.create_first([i64::MAX - 10, 0], [5, 5]);
    assert_eq!(b.add_to_right(10, 10, None, None), None);
    assert_eq!(b.blocks.len(), 1);
    assert!(b.add_to_left(10, 10, None, None).is_some());
    assert_eq!(b.blocks[1].translation, [i64::MAX - 25, 0]);
}

#[test]
fn motor_settings_of_new_hinges() {
    let mut b = BlobBuilder::new();
    b.create_first([0, 0], [20, 30]);
    b.add_to_bottom(4, 6, Some(250), Some([-100, 100])).unwrap();
    let j = b.joints[0];
    assert_eq!(j.motor_target, 250);
    assert_eq!(j.stiffness, 10);
    assert_eq!(j.damping, 0);
    assert_eq!(j.limits, [-100, 100]);
    assert_eq!(j.parent_anchor, [0, -30]);
    assert_eq!(j.child_anchor, [0, 6]);
    assert_eq!(b.blocks[1].translation, [0, -36]);
    b.reset();
    b.add_to_right(7, 3, None, None).unwrap();
    let k = b.joints[1];
    assert_eq!(k.limits, [-3142, 3142]);
    assert_eq!(k.stiffness, 0);
    assert_eq!(k.parent_anchor, [20, 0]);
    assert_eq!(k.child_anchor, [-7, 0]);
    assert_eq!(b.blocks[2].translation, [27, 0]);
}

#[test]
fn create_first_starts_a_new_body() {
    let mut b = BlobBuilder::new();
    assert_eq!(b.color, DEFAULT_COLOR);
    b.set_color(0x0000_FFFF);
    let a = b.create_first([0, 0], [10, 10]);
    b.add_to_top(5, 5, None, None).unwrap();
    let c = b.create_first([1, 1], [3, 3]);
    assert_eq!(b.blocks.len(), 1);
    assert!(b.joints.is_empty());
    assert!(c > a);
    assert_eq!(b.blocks[0].color, 0x0000_FFFF);
    assert_eq!(Direction::Top.opposite(), Direction::Bottom);
    assert_eq!(Direction::Left.opposite(), Direction::Right);
}

#[test]
fn generated_genotypes_build_into_connected_bodies() {
    for _ in 0..50 {
        let mut g = BlobGeno::new_rand();
        let mut m = GenoBlobBuilder::new();
        assert!(m.build(&mut g, [0, 0]));
        let limbs = g
            .vec_tree
            .nodes
            .iter()
            .filter(|n| matches!(n, Some(GenericGenoNode::Child(_))))
            .count();
        assert_eq!(m.builder.blocks.len(), limbs);
        assert_eq!(m.builder.joints.len(), limbs - 1);
        for k in 0..g.vec_tree.nodes.len() {
            if let Some(GenericGenoNode::Child(n)) = &g.vec_tree.nodes[k] {
                assert!(n.nn_id.is_some());
            }
        }
    }
}

#[test]
fn slots_record_the_limb_of_each_segment() {
    let mut g = depth_one(25);
    let mut m = GenoBlobBuilder::new();
    m.build(&mut g, [0, 0]);
    assert_eq!(m.slots, vec![0, 1, 3, 4]);
    assert_eq!(m.builder.current_pos, Some(0));
}

#[test]
fn a_limb_on_the_side_of_its_parent_gets_no_segment() {
    // the bottom child slot of the top limb faces the root, whose segment
    // already holds that side
    let mut g = depth_one(25);
    g.vec_tree.nodes[6] = limb([10, 10], None);
    g.vec_tree.nodes[5] = limb([10, 10], None);
    let mut m = GenoBlobBuilder::new();
    assert!(m.build(&mut g, [0, 0]));
    assert_eq!(m.slots, vec![0, 1, 5, 3, 4]);
    assert_eq!(m.builder.blocks.len(), 5);
    assert_eq!(m.builder.joints.len(), 4);
    assert_eq!(nn(&g, 6), None);
    assert_eq!(m.builder.blocks[2].translation, [0, 110]);
}
