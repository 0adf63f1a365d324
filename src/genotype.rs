use crate::quad_tree::{
    capacity, capacity_of, child_index, parent_index, QuadTree,
};
use crate::random::{pick_one, random_in, random_ratio};
use vstd::prelude::*;

verus! {

/// Depth of the genotype trees that `BlobGeno::default` and `BlobGeno::new_rand` make.
pub const GENO_MAX_DEPTH: u32 = 2;

/// Half-extent of a default block, on both axes.
pub const DEFAULT_BLOCK_SIZE: i32 = 50;

/// Smallest half-extent that generation draws (half the default block).
pub const MIN_HALF_EXTENT: i32 = 25;

/// Bound, exclusive, of a generated half-extent along the axis of growth
/// (twice the default block).
pub const MAX_GROWTH_HALF_EXTENT: i32 = 100;

/// A child slot is tried with chance `SPAWN_NUMERATOR / SPAWN_DENOMINATOR`.
pub const SPAWN_NUMERATOR: u32 = 9;

pub const SPAWN_DENOMINATOR: u32 = 10;

/// Widest generated hinge swing to either side: nine tenths of a half turn, in milliradians.
pub const JOINT_SWING_MRAD: i32 = 2827;

/// A half turn in milliradians: the default hinge range is `[-HALF_TURN_MRAD, HALF_TURN_MRAD]`.
pub const HALF_TURN_MRAD: i32 = 3142;

/// Geometry and control binding of one limb. `size` is the half-extent,
/// `center` the absolute position fixed at generation, `joint_limits` the
/// hinge range in milliradians and `nn_id` the controller bound to the limb.
#[derive(Clone, Copy, Debug)]
pub struct GenoNode {
    pub joint_limits: [i32; 2],
    pub size: [i32; 2],
    pub center: [i32; 2],
    pub nn_id: Option<usize>,
}

/// An occupied slot of the genotype tree: a limb, or the marker of the one
/// direction in which a node may not grow.
#[derive(Clone, Copy, Debug)]
pub enum GenericGenoNode {
    Parent,
    Child(GenoNode),
}

/// The morphology of a creature: a quad-tree of limbs whose child slots are
/// the directions top, bottom, left and right. An empty slot is `None`.
pub struct BlobGeno {
    pub vec_tree: QuadTree<GenericGenoNode>,
}

/// An axis-aligned box as (x_min, x_max, y_min, y_max).
pub type Region = (int, int, int, int);

pub open spec fn region_of(n: GenoNode) -> Region {
    (
        n.center[0] - n.size[0],
        n.center[0] + n.size[0],
        n.center[1] - n.size[1],
        n.center[1] + n.size[1],
    )
}

/// The boxes share interior: touching edges do not count.
pub open spec fn overlaps_strictly(a: Region, b: Region) -> bool {
    &&& a.0 < b.1
    &&& a.1 > b.0
    &&& a.2 < b.3
    &&& a.3 > b.2
}

/// The boxes meet, where touching edges count.
pub open spec fn overlaps_or_touches(a: Region, b: Region) -> bool {
    &&& a.0 <= b.1
    &&& a.1 >= b.0
    &&& a.2 <= b.3
    &&& a.3 >= b.2
}

/// The node that every genotype starts from.
pub open spec fn default_node() -> GenoNode {
    GenoNode {
        joint_limits: [-3142i32, HALF_TURN_MRAD],
        size: [DEFAULT_BLOCK_SIZE, DEFAULT_BLOCK_SIZE],
        center: [0, 0],
        nn_id: None,
    }
}

impl GenoNode {
    /// A default limb already bound to controller `nn_id`.
    pub fn from_nn_id(nn_id: usize) -> (r: GenoNode)
        ensures
            r == (GenoNode { nn_id: Some(nn_id), ..default_node() }),
    {
        GenoNode {
            joint_limits: [-HALF_TURN_MRAD, HALF_TURN_MRAD],
            size: [DEFAULT_BLOCK_SIZE, DEFAULT_BLOCK_SIZE],
            center: [0, 0],
            nn_id: Some(nn_id),
        }
    }
}

impl Default for GenoNode {
    fn default() -> (r: GenoNode)
        ensures
            r == default_node(),
    {
        GenoNode {
            joint_limits: [-HALF_TURN_MRAD, HALF_TURN_MRAD],
            size: [DEFAULT_BLOCK_SIZE, DEFAULT_BLOCK_SIZE],
            center: [0, 0],
            nn_id: None,
        }
    }
}

impl Default for BlobGeno {
    /// An empty genotype of depth `GENO_MAX_DEPTH`.
    fn default() -> (r: BlobGeno)
        ensures
            r.vec_tree.wf(),
            r.vec_tree.max_depth == GENO_MAX_DEPTH,
            forall|k: int| 0 <= k < r.vec_tree.nodes@.len() ==> r.vec_tree.nodes@[k] is None,
    {
        proof {
            reveal_with_fuel(capacity, 3);
        }
        BlobGeno { vec_tree: QuadTree::new(GENO_MAX_DEPTH) }
    }
}

/// The box of a limb, computed without overflow.
fn region(n: &GenoNode) -> (r: [i64; 4])
    ensures
        (r[0] as int, r[1] as int, r[2] as int, r[3] as int) == region_of(*n),
{
    [
        n.center[0] as i64 - n.size[0] as i64,
        n.center[0] as i64 + n.size[0] as i64,
        n.center[1] as i64 - n.size[1] as i64,
        n.center[1] as i64 + n.size[1] as i64,
    ]
}

pub open spec fn as_region(r: [i64; 4]) -> Region {
    (r[0] as int, r[1] as int, r[2] as int, r[3] as int)
}


/// `c` is placed flush against `p` in direction `d` (0 top, 1 bottom, 2 left,
/// 3 right), centred on `p` along the other axis.
pub open spec fn flush_against(p: GenoNode, c: GenoNode, d: int) -> bool {
    if d == 0 {
        c.center[0] == p.center[0] && c.center[1] == p.center[1] + p.size[1] + c.size[1]
    } else if d == 1 {
        c.center[0] == p.center[0] && c.center[1] == p.center[1] - p.size[1] - c.size[1]
    } else if d == 2 {
        c.center[0] == p.center[0] - p.size[0] - c.size[0] && c.center[1] == p.center[1]
    } else {
        c.center[0] == p.center[0] + p.size[0] + c.size[0] && c.center[1] == p.center[1]
    }
}

/// Two genotypes with the same slots reach the same limbs.
proof fn lemma_same_slots_reach(g: BlobGeno, h: BlobGeno, k: int)
    requires
        g.vec_tree.nodes@ == h.vec_tree.nodes@,
    ensures
        g.reached(k) == h.reached(k),
    decreases k,
{
    if k > 0 {
        lemma_same_slots_reach(g, h, parent_index(k));
    }
}

/// A genotype rebuilt from its persisted form is as valid as the original
/// and binds every limb to the same controller.
pub proof fn lemma_parts_round_trip(g: BlobGeno, h: BlobGeno)
    requires
        h.vec_tree.nodes@ == g.vec_tree.nodes@,
        h.vec_tree.max_depth == g.vec_tree.max_depth,
    ensures
        h.is_valid_spec() == g.is_valid_spec(),
        forall|k: int| #[trigger] h.limb_at(k) == g.limb_at(k),
{
    assert forall|k: int| #[trigger] h.reached(k) == g.reached(k) by {
        lemma_same_slots_reach(g, h, k);
    }
    assert forall|k: int| #[trigger] h.limb_at(k) == g.limb_at(k) by {}
    assert forall|k: int| #[trigger] h.visited(k) == g.visited(k) by {
        lemma_same_slots_reach(g, h, k);
    }
    if g.is_valid_spec() {
        assert forall|a: int, b: int|
            0 <= a < b < h.vec_tree.nodes@.len() && h.visited(a) && h.visited(b) implies !overlaps_strictly(
            region_of(h.limb_at(a).unwrap()),
            region_of(h.limb_at(b).unwrap()),
        ) by {
            assert(g.visited(a) && g.visited(b));
        }
    }
    if h.is_valid_spec() {
        assert forall|a: int, b: int|
            0 <= a < b < g.vec_tree.nodes@.len() && g.visited(a) && g.visited(b) implies !overlaps_strictly(
            region_of(g.limb_at(a).unwrap()),
            region_of(g.limb_at(b).unwrap()),
        ) by {
            assert(h.visited(a) && h.visited(b));
        }
    }
}

/// `c` is a limb that generation may place in direction `d` of `p`: flush
/// against it, with half-extents from `MIN_HALF_EXTENT` up to, exclusive, the
/// parent's half-extent across the axis of growth and `MAX_GROWTH_HALF_EXTENT`
/// along it, a hinge range below and above zero within `JOINT_SWING_MRAD`, and
/// no controller.
pub open spec fn grown_from(p: GenoNode, c: GenoNode, d: int) -> bool {
    &&& flush_against(p, c, d)
    &&& MIN_HALF_EXTENT <= c.size[0] < if d < 2 { p.size[0] } else { MAX_GROWTH_HALF_EXTENT }
    &&& MIN_HALF_EXTENT <= c.size[1] < if d < 2 { MAX_GROWTH_HALF_EXTENT } else { p.size[1] }
    &&& -JOINT_SWING_MRAD <= c.joint_limits[0] < 0
    &&& 0 < c.joint_limits[1] <= JOINT_SWING_MRAD
    &&& c.nn_id is None
}

/// A limb placed flush against its parent always meets the parent's box.
proof fn lemma_flush_touches(p: GenoNode, c: GenoNode, d: int)
    requires
        0 <= d < 4,
        flush_against(p, c, d),
        p.size[0] >= 0,
        p.size[1] >= 0,
        c.size[0] >= 0,
        c.size[1] >= 0,
    ensures
        overlaps_or_touches(region_of(c), region_of(p)),
{
}

/// A limb placed flush against the default root shares no interior with it.
proof fn lemma_flush_root_apart(c: GenoNode, d: int)
    requires
        0 <= d < 4,
        flush_against(default_node(), c, d),
        c.size[0] >= 0,
        c.size[1] >= 0,
    ensures
        !overlaps_strictly(region_of(c), region_of(default_node())),
{
}

/// Draws the candidate for the child slot of `parent` in `direction` and
/// keeps it when its box meets none of the boxes of `occupied`, which then
/// records it. A slot that is not tried, or whose candidate would meet a
/// recorded box or not fit the coordinate range, stays empty; so does one
/// where the parent's half-extent across the axis of growth is at most
/// `MIN_HALF_EXTENT`, which leaves no size to draw from.
fn rand_node(parent: &GenoNode, direction: usize, occupied: &mut Vec<[i64; 4]>) -> (r: Option<
    GenericGenoNode,
>)
    requires
        direction < 4,
    ensures
        match r {
            None => final(occupied)@ == old(occupied)@,
            Some(GenericGenoNode::Parent) => false,
            Some(GenericGenoNode::Child(c)) => {
                &&& final(occupied)@ == old(occupied)@.push(final(occupied)@.last())
                &&& as_region(final(occupied)@.last()) == region_of(c)
                &&& grown_from(*parent, c, direction as int)
                &&& forall|a: int|
                    0 <= a < old(occupied)@.len() ==> !overlaps_or_touches(
                        region_of(c),
                        as_region(#[trigger] old(occupied)@[a]),
                    )
            },
        },
{
    if !random_ratio(SPAWN_NUMERATOR, SPAWN_DENOMINATOR) {
        return None;
    }
    let joint_limits = [random_in(-JOINT_SWING_MRAD, 0), random_in(1, JOINT_SWING_MRAD + 1)];
    let (w_bound, h_bound) = if direction < 2 {
        (parent.size[0], MAX_GROWTH_HALF_EXTENT)
    } else {
        (MAX_GROWTH_HALF_EXTENT, parent.size[1])
    };
    if w_bound <= MIN_HALF_EXTENT || h_bound <= MIN_HALF_EXTENT {
        return None;
    }
    let size = [random_in(MIN_HALF_EXTENT, w_bound), random_in(MIN_HALF_EXTENT, h_bound)];
    let px = parent.center[0] as i64;
    let py = parent.center[1] as i64;
    let (cx, cy): (i64, i64) = if direction == 0 {
        (px, py + parent.size[1] as i64 + size[1] as i64)
    } else if direction == 1 {
        (px, py - parent.size[1] as i64 - size[1] as i64)
    } else if direction == 2 {
        (px - parent.size[0] as i64 - size[0] as i64, py)
    } else {
        (px + parent.size[0] as i64 + size[0] as i64, py)
    };
    if cx < i32::MIN as i64 || cx > i32::MAX as i64 || cy < i32::MIN as i64 || cy > i32::MAX as i64 {
        return None;
    }
    let c = GenoNode { joint_limits, size, center: [cx as i32, cy as i32], nn_id: None };
    let b = region(&c);
    let mut a: usize = 0;
    while a < occupied.len()
        invariant
            a <= occupied@.len(),
            as_region(b) == region_of(c),
            forall|k: int|
                0 <= k < a ==> !overlaps_or_touches(region_of(c), as_region(#[trigger] occupied@[k])),
        decreases occupied@.len() - a,
    {
        let o = occupied[a];
        if b[0] <= o[1] && b[1] >= o[0] && b[2] <= o[3] && b[3] >= o[2] {
            return None;
        }
        a = a + 1;
    }
    occupied.push(b);
    Some(GenericGenoNode::Child(c))
}

impl BlobGeno {
    /// The limb at slot `k`, if that slot holds one.
    pub open spec fn limb_at(&self, k: int) -> Option<GenoNode> {
        match self.vec_tree.slot(k) {
            Some(GenericGenoNode::Child(n)) => Some(n),
            _ => None,
        }
    }

    /// Slot `k` is reached by a walk from the root that goes through limbs only.
    pub open spec fn reached(&self, k: int) -> bool
        decreases k,
    {
        if k <= 0 {
            k == 0
        } else {
            self.reached(parent_index(k)) && self.limb_at(parent_index(k)) is Some
        }
    }

    /// A limb that the walk from the root reaches.
    pub open spec fn visited(&self, k: int) -> bool {
        self.reached(k) && self.limb_at(k) is Some
    }

    /// No two limbs reached from the root share interior.
    pub open spec fn is_valid_spec(&self) -> bool {
        forall|a: int, b: int|
            0 <= a < b < self.vec_tree.nodes@.len() && self.visited(a) && self.visited(b)
                ==> !overlaps_strictly(
                region_of(self.limb_at(a).unwrap()),
                region_of(self.limb_at(b).unwrap()),
            )
    }

    pub open spec fn is_sentinel(&self, k: int) -> int {
        if self.vec_tree.slot(k) == Some(GenericGenoNode::Parent) {
            1
        } else {
            0
        }
    }

    /// How many child slots of `i` hold the parent marker.
    pub open spec fn sentinel_count(&self, i: int) -> int {
        self.is_sentinel(child_index(i, 0)) + self.is_sentinel(child_index(i, 1))
            + self.is_sentinel(child_index(i, 2)) + self.is_sentinel(child_index(i, 3))
    }

    pub open spec fn has_child(&self, i: int) -> bool {
        exists|d: int| 0 <= d < 4 && #[trigger] self.vec_tree.slot(child_index(i, d)) is Some
    }

    /// Every occupied slot with an occupied child slot has exactly one child
    /// slot that holds the parent marker.
    pub open spec fn one_marker_per_parent(&self) -> bool {
        forall|i: int|
            0 <= i < self.vec_tree.nodes@.len() && #[trigger] self.vec_tree.slot(i) is Some
                && self.has_child(i) ==> self.sentinel_count(i) == 1
    }

    /// The parent-marker rule at slot `i`.
    pub open spec fn marker_rule_at(&self, i: int) -> bool {
        self.vec_tree.slot(i) is Some && self.has_child(i) ==> self.sentinel_count(i) == 1
    }

    /// A limb other than the root whose child slots hold no limb: a candidate
    /// for losing a limb.
    pub open spec fn is_leaf_limb(&self, k: int) -> bool {
        &&& 1 <= k < self.vec_tree.nodes@.len()
        &&& self.vec_tree.slot(k) is Some
        &&& self.vec_tree.slot(k) != Some(GenericGenoNode::Parent)
        &&& forall|d: int| 0 <= d < 4 ==> #[trigger] self.limb_at(child_index(k, d)) is None
    }

    /// A random genotype of depth `GENO_MAX_DEPTH`. Starting from a default
    /// root, each limb tries its four child slots in the order top, bottom,
    /// left, right, keeps the candidates whose box meets no box kept before,
    /// and then gives one child slot, drawn uniformly, to the parent marker.
    /// Slots are resolved parents first.
    #[verifier::rlimit(100)]
    pub fn new_rand() -> (r: BlobGeno)
        ensures
            r.vec_tree.wf(),
            r.vec_tree.max_depth == GENO_MAX_DEPTH,
            r.limb_at(0) == Some(default_node()),
            r.one_marker_per_parent(),
            r.is_valid_spec(),
            forall|k: int| #[trigger] r.limb_at(k) is Some ==> r.limb_at(k).unwrap().nn_id is None,
            forall|i: int|
                0 <= i && 4 * i + 4 < r.vec_tree.nodes@.len() && #[trigger] r.limb_at(i) is Some
                    ==> r.sentinel_count(i) == 1,
            forall|k: int|
                0 < k < r.vec_tree.nodes@.len() && (#[trigger] r.vec_tree.slot(k)) is Some ==> r.limb_at(
                    parent_index(k),
                ) is Some,
            forall|k: int|
                0 < k < r.vec_tree.nodes@.len() && #[trigger] r.limb_at(k) is Some ==> grown_from(
                    r.limb_at(parent_index(k)).unwrap(),
                    r.limb_at(k).unwrap(),
                    (k - 1) % 4,
                ),
            forall|a: int, b: int|
                0 < a < b < r.vec_tree.nodes@.len() && #[trigger] r.limb_at(a) is Some
                    && #[trigger] r.limb_at(b) is Some ==> !overlaps_or_touches(
                    region_of(r.limb_at(a).unwrap()),
                    region_of(r.limb_at(b).unwrap()),
                ),
    {
        let mut bg = BlobGeno::default();
        let len = bg.vec_tree.nodes.len();
        proof {
            reveal_with_fuel(capacity, 3);
        }
        bg.vec_tree.nodes.set(0, Some(GenericGenoNode::Child(GenoNode::default())));
        let mut occupied: Vec<[i64; 4]> = Vec::new();
        let ghost mut owner: Seq<int> = Seq::empty();
        let mut i: usize = 0;
        while i < len
            invariant
                len == bg.vec_tree.nodes@.len(),
                1 <= len <= 22369621,
                i <= len,
                bg.vec_tree.wf(),
                bg.vec_tree.max_depth == GENO_MAX_DEPTH,
                bg.limb_at(0) == Some(default_node()),
                forall|m: int| 4 * i < m < len ==> #[trigger] bg.vec_tree.nodes@[m] is None,
                forall|j: int| 0 <= j < i ==> #[trigger] bg.marker_rule_at(j),
                forall|j: int|
                    0 <= j < i && 4 * j + 4 < len && #[trigger] bg.limb_at(j) is Some ==> bg.sentinel_count(j)
                        == 1,
                forall|k: int|
                    0 < k < len && (#[trigger] bg.vec_tree.slot(k)) is Some ==> parent_index(k) < i
                        && bg.limb_at(parent_index(k)) is Some && (bg.limb_at(k) is Some ==> grown_from(
                        bg.limb_at(parent_index(k)).unwrap(),
                        bg.limb_at(k).unwrap(),
                        (k - 1) % 4,
                    )),
                owner.len() == occupied@.len(),
                forall|k: int|
                    0 < k < len && #[trigger] bg.limb_at(k) is Some ==> exists|a: int|
                        0 <= a < owner.len() && #[trigger] owner[a] == k && as_region(occupied@[a])
                            == region_of(bg.limb_at(k).unwrap()),
                forall|k: int|
                    0 < k < len && #[trigger] bg.limb_at(k) is Some ==> {
                        let n = bg.limb_at(k).unwrap();
                        n.size[0] >= MIN_HALF_EXTENT && n.size[1] >= MIN_HALF_EXTENT && n.nn_id is None
                    },
                forall|a: int, b: int|
                    0 <= a < b < occupied@.len() ==> !overlaps_or_touches(
                        as_region(#[trigger] occupied@[b]),
                        as_region(#[trigger] occupied@[a]),
                    ),
                forall|a: int|
                    0 <= a < occupied@.len() ==> !overlaps_strictly(
                        as_region(#[trigger] occupied@[a]),
                        region_of(default_node()),
                    ),
            decreases len - i,
        {
            let ghost before = bg;
            if len >= 5 && i <= (len - 5) / 4 {
                if let Some(GenericGenoNode::Child(n)) = bg.vec_tree.nodes[i] {
                    assert(bg.limb_at(i as int) == Some(n));
                    let mut d: usize = 0;
                    while d < 4
                        invariant
                            len == bg.vec_tree.nodes@.len(),
                            1 <= len <= 22369621,
                            4 * i + 4 < len,
                            d <= 4,
                            bg.vec_tree.wf(),
                            bg.vec_tree.max_depth == GENO_MAX_DEPTH,
                            before.limb_at(i as int) == Some(n),
                            before.vec_tree.nodes@.len() == len,
                            forall|m: int| 4 * i < m < len ==> #[trigger] before.vec_tree.nodes@[m] is None,
                            i > 0 ==> n.size[0] >= MIN_HALF_EXTENT && n.size[1] >= MIN_HALF_EXTENT,
                            i == 0 ==> n == default_node(),
                            i > 0 ==> exists|a: int|
                                0 <= a < owner.len() && #[trigger] owner[a] == i && as_region(occupied@[a])
                                    == region_of(n),
                            forall|m: int|
                                0 <= m < len && !(4 * i + 1 <= m < 4 * i + 1 + d) ==> #[trigger] bg.vec_tree.nodes@[m]
                                    == before.vec_tree.nodes@[m],
                            forall|e: int|
                                0 <= e < d ==> #[trigger] bg.vec_tree.nodes@[4 * i + 1 + e] != Some(
                                    GenericGenoNode::Parent,
                                ),
                            bg.limb_at(i as int) == Some(n),
                            forall|k: int|
                                0 < k < len && (#[trigger] bg.vec_tree.slot(k)) is Some ==> parent_index(k) <= i
                                    && bg.limb_at(parent_index(k)) is Some && (bg.limb_at(k) is Some
                                    ==> grown_from(
                                    bg.limb_at(parent_index(k)).unwrap(),
                                    bg.limb_at(k).unwrap(),
                                    (k - 1) % 4,
                                )),
                            owner.len() == occupied@.len(),
                            forall|k: int|
                                0 < k < len && #[trigger] bg.limb_at(k) is Some ==> exists|a: int|
                                    0 <= a < owner.len() && #[trigger] owner[a] == k && as_region(
                                        occupied@[a],
                                    ) == region_of(bg.limb_at(k).unwrap()),
                            forall|k: int|
                                0 < k < len && #[trigger] bg.limb_at(k) is Some ==> {
                                    let m = bg.limb_at(k).unwrap();
                                    m.size[0] >= MIN_HALF_EXTENT && m.size[1] >= MIN_HALF_EXTENT
                                        && m.nn_id is None
                                },
                            forall|a: int, b: int|
                                0 <= a < b < occupied@.len() ==> !overlaps_or_touches(
                                    as_region(#[trigger] occupied@[b]),
                                    as_region(#[trigger] occupied@[a]),
                                ),
                            forall|a: int|
                                0 <= a < occupied@.len() ==> !overlaps_strictly(
                                    as_region(#[trigger] occupied@[a]),
                                    region_of(default_node()),
                                ),
                        decreases 4 - d,
                    {
                        let c = 4 * i + 1 + d;
                        let ghost occ_before = occupied@;
                        let ghost owner_before = owner;
                        let ghost bg_before = bg;
                        let slot = rand_node(&n, d, &mut occupied);
                        assert(bg.vec_tree.nodes@[c as int] is None);
                        bg.vec_tree.nodes.set(c, slot);
                        proof {
                            assert(parent_index(c as int) == i && (c as int - 1) % 4 == d);
                            assert forall|k: int|
                                0 < k < len && (#[trigger] bg.vec_tree.slot(k)) is Some implies parent_index(k) <= i
                                    && bg.limb_at(parent_index(k)) is Some && (bg.limb_at(k) is Some
                                    ==> grown_from(
                                    bg.limb_at(parent_index(k)).unwrap(),
                                    bg.limb_at(k).unwrap(),
                                    (k - 1) % 4,
                                )) by {
                                if k != c {
                                    assert(bg.vec_tree.slot(k) == bg_before.vec_tree.slot(k));
                                    assert(bg_before.vec_tree.slot(k) is Some);
                                    assert(bg.vec_tree.slot(parent_index(k)) == bg_before.vec_tree.slot(
                                        parent_index(k),
                                    ));
                                }
                            }
                            if let Some(GenericGenoNode::Child(cn)) = slot {
                                owner = owner.push(c as int);
                                let last = occupied@.len() - 1;
                                assert(occupied@[last] == occupied@.last());
                                assert forall|a: int| 0 <= a < last implies occupied@[a] == occ_before[a] by {}
                                if i > 0 {
                                    let a = choose|a: int|
                                        0 <= a < owner_before.len() && #[trigger] owner_before[a] == i
                                            && as_region(occ_before[a]) == region_of(n);
                                    lemma_flush_touches(n, cn, d as int);
                                    assert(!overlaps_or_touches(region_of(cn), as_region(occ_before[a])));
                                    assert(false);
                                }
                                lemma_flush_root_apart(cn, d as int);
                                assert forall|k: int|
                                    0 < k < len && #[trigger] bg.limb_at(k) is Some implies exists|a: int|
                                        0 <= a < owner.len() && #[trigger] owner[a] == k && as_region(
                                            occupied@[a],
                                        ) == region_of(bg.limb_at(k).unwrap()) by {
                                    if k == c {
                                        assert(owner[last] == k);
                                    } else {
                                        assert(bg_before.limb_at(k) == bg.limb_at(k));
                                        let a = choose|a: int|
                                            0 <= a < owner_before.len() && #[trigger] owner_before[a] == k
                                                && as_region(occ_before[a]) == region_of(
                                                bg_before.limb_at(k).unwrap(),
                                            );
                                        assert(owner[a] == k);
                                    }
                                }
                                assert forall|a: int, b: int|
                                    0 <= a < b < occupied@.len() implies !overlaps_or_touches(
                                        as_region(#[trigger] occupied@[b]),
                                        as_region(#[trigger] occupied@[a]),
                                    ) by {
                                    if b == last {
                                        assert(occupied@[a] == occ_before[a]);
                                    }
                                }
                            } else {
                                assert forall|k: int|
                                    0 < k < len && #[trigger] bg.limb_at(k) is Some implies exists|a: int|
                                        0 <= a < owner.len() && #[trigger] owner[a] == k && as_region(
                                            occupied@[a],
                                        ) == region_of(bg.limb_at(k).unwrap()) by {
                                    assert(bg_before.limb_at(k) == bg.limb_at(k));
                                }
                            }
                            assert forall|k: int|
                                0 < k < len && #[trigger] bg.limb_at(k) is Some implies {
                                    let m = bg.limb_at(k).unwrap();
                                    m.size[0] >= MIN_HALF_EXTENT && m.size[1] >= MIN_HALF_EXTENT
                                        && m.nn_id is None
                                } by {
                                if k != c {
                                    assert(bg_before.limb_at(k) == bg.limb_at(k));
                                }
                            }
                        }
                        d = d + 1;
                    }
                    let ghost bg_filled = bg;
                    let ch = [4 * i + 1, 4 * i + 2, 4 * i + 3, 4 * i + 4];
                    let p = pick_one(&ch);
                    bg.vec_tree.nodes.set(p, Some(GenericGenoNode::Parent));
                    proof {
                        assert(parent_index(p as int) == i);
                        assert forall|k: int|
                            0 < k < len && (#[trigger] bg.vec_tree.slot(k)) is Some implies parent_index(k) <= i
                                && bg.limb_at(parent_index(k)) is Some && (bg.limb_at(k) is Some ==> grown_from(
                                bg.limb_at(parent_index(k)).unwrap(),
                                bg.limb_at(k).unwrap(),
                                (k - 1) % 4,
                            )) by {
                            if k != p {
                                assert(bg.vec_tree.slot(k) == bg_filled.vec_tree.slot(k));
                                assert(bg_filled.vec_tree.slot(k) is Some);
                                assert(bg.vec_tree.slot(parent_index(k)) == bg_filled.vec_tree.slot(
                                    parent_index(k),
                                ));
                            }
                        }
                        assert forall|k: int|
                            0 < k < len && #[trigger] bg.limb_at(k) is Some implies exists|a: int|
                                0 <= a < owner.len() && #[trigger] owner[a] == k && as_region(
                                    occupied@[a],
                                ) == region_of(bg.limb_at(k).unwrap()) by {
                            assert(bg_filled.limb_at(k) == bg.limb_at(k));
                        }
                        assert forall|k: int|
                            0 < k < len && #[trigger] bg.limb_at(k) is Some implies {
                                let m = bg.limb_at(k).unwrap();
                                m.size[0] >= MIN_HALF_EXTENT && m.size[1] >= MIN_HALF_EXTENT
                                    && m.nn_id is None
                            } by {
                            assert(bg_filled.limb_at(k) == bg.limb_at(k));
                        }
                        assert(bg.sentinel_count(i as int) == 1);
                    }
                }
            }
            proof {
                assert forall|j: int| 0 <= j <= i implies #[trigger] bg.marker_rule_at(j) by {
                    if j < i {
                        assert(before.marker_rule_at(j));
                        assert(bg.vec_tree.slot(j) == before.vec_tree.slot(j));
                        assert forall|e: int| 0 <= e < 4 implies #[trigger] bg.vec_tree.slot(child_index(j, e))
                            == before.vec_tree.slot(child_index(j, e)) by {}
                        assert(bg.sentinel_count(j) == before.sentinel_count(j));
                        if bg.has_child(j) {
                            let e = choose|e: int| 0 <= e < 4 && #[trigger] bg.vec_tree.slot(child_index(j, e)) is Some;
                            assert(before.vec_tree.slot(child_index(j, e)) is Some);
                        }
                    } else if !(len >= 5 && i <= (len - 5) / 4 && bg.limb_at(i as int) is Some) {
                        if bg.has_child(j) {
                            let e = choose|e: int| 0 <= e < 4 && #[trigger] bg.vec_tree.slot(child_index(j, e)) is Some;
                            assert(false);
                        }
                    }
                }
                assert forall|j: int|
                    0 <= j <= i && 4 * j + 4 < len && #[trigger] bg.limb_at(j) is Some implies bg.sentinel_count(j)
                        == 1 by {
                    if j < i {
                        assert(bg.vec_tree.slot(j) == before.vec_tree.slot(j));
                        assert forall|e: int| 0 <= e < 4 implies #[trigger] bg.vec_tree.slot(child_index(j, e))
                            == before.vec_tree.slot(child_index(j, e)) by {}
                        assert(bg.sentinel_count(j) == before.sentinel_count(j));
                    } else {
                        assert(bg.vec_tree.slot(j) == before.vec_tree.slot(j));
                    }
                }
            }
            i = i + 1;
        }
        proof {
            assert forall|a: int, b: int|
                0 <= a < b < bg.vec_tree.nodes@.len() && bg.visited(a) && bg.visited(b) implies !overlaps_strictly(
                region_of(bg.limb_at(a).unwrap()),
                region_of(bg.limb_at(b).unwrap()),
            ) by {
                assert(bg.limb_at(b) is Some);
                let ab = choose|x: int|
                    0 <= x < owner.len() && #[trigger] owner[x] == b && as_region(occupied@[x])
                        == region_of(bg.limb_at(b).unwrap());
                if a == 0 {
                    assert(!overlaps_strictly(as_region(occupied@[ab]), region_of(default_node())));
                } else {
                    assert(bg.limb_at(a) is Some);
                    let aa = choose|x: int|
                        0 <= x < owner.len() && #[trigger] owner[x] == a && as_region(occupied@[x])
                            == region_of(bg.limb_at(a).unwrap());
                    if aa < ab {
                        assert(!overlaps_or_touches(as_region(occupied@[ab]), as_region(occupied@[aa])));
                    } else {
                        assert(!overlaps_or_touches(as_region(occupied@[aa]), as_region(occupied@[ab])));
                    }
                }
            }
            assert forall|a: int, b: int|
                0 < a < b < len && #[trigger] bg.limb_at(a) is Some && #[trigger] bg.limb_at(b)
                    is Some implies !overlaps_or_touches(
                region_of(bg.limb_at(a).unwrap()),
                region_of(bg.limb_at(b).unwrap()),
            ) by {
                let ab = choose|x: int|
                    0 <= x < owner.len() && #[trigger] owner[x] == b && as_region(occupied@[x])
                        == region_of(bg.limb_at(b).unwrap());
                let aa = choose|x: int|
                    0 <= x < owner.len() && #[trigger] owner[x] == a && as_region(occupied@[x])
                        == region_of(bg.limb_at(a).unwrap());
                if aa < ab {
                    assert(!overlaps_or_touches(as_region(occupied@[ab]), as_region(occupied@[aa])));
                } else {
                    assert(!overlaps_or_touches(as_region(occupied@[aa]), as_region(occupied@[ab])));
                }
            }
            assert forall|j: int|
                0 <= j < bg.vec_tree.nodes@.len() && #[trigger] bg.vec_tree.slot(j) is Some
                    && bg.has_child(j) implies bg.sentinel_count(j) == 1 by {
                assert(bg.marker_rule_at(j));
            }
            assert forall|k: int| #[trigger] bg.limb_at(k) is Some implies bg.limb_at(k).unwrap().nn_id is None by {
                if k > 0 {
                    assert(0 < k < len);
                }
            }
        }
        bg
    }

    /// A genotype from its persisted form: the depth and the slots in index
    /// order, which are taken as they are. `None` unless the slots are
    /// exactly those of a tree of that depth.
    pub fn from_parts(max_depth: u32, nodes: Vec<Option<GenericGenoNode>>) -> (r: Option<BlobGeno>)
        ensures
            r is Some <==> nodes@.len() == capacity(max_depth as nat),
            r matches Some(g) ==> g.vec_tree.nodes@ == nodes@ && g.vec_tree.max_depth == max_depth,
    {
        let n = nodes.len();
        match capacity_of(max_depth) {
            Some(c) => {
                if n != c {
                    return None;
                }
            },
            None => {
                return None;
            },
        }
        Some(BlobGeno { vec_tree: QuadTree { nodes, max_depth } })
    }

    /// The root limb, if the root slot holds one.
    pub fn get_first(&self) -> (r: Option<&GenoNode>)
        requires
            self.vec_tree.nodes@.len() > 0,
        ensures
            r == match self.vec_tree.nodes@[0] {
                Some(GenericGenoNode::Child(n)) => Some(&n),
                _ => None,
            },
    {
        match &self.vec_tree.nodes[0] {
            Some(GenericGenoNode::Child(n)) => Some(n),
            _ => None,
        }
    }

    /// Binds the root to controller `id` unless it is bound already.
    pub fn assign_nn_id_to_root(&mut self, id: usize)
        requires
            old(self).limb_at(0) is Some,
        ensures
            final(self).vec_tree.max_depth == old(self).vec_tree.max_depth,
            final(self).vec_tree.nodes@.len() == old(self).vec_tree.nodes@.len(),
            forall|k: int|
                1 <= k < old(self).vec_tree.nodes@.len() ==> #[trigger] final(self).vec_tree.nodes@[k]
                    == old(self).vec_tree.nodes@[k],
            final(self).limb_at(0) == Some(
                GenoNode {
                    nn_id: if old(self).limb_at(0).unwrap().nn_id is Some {
                        old(self).limb_at(0).unwrap().nn_id
                    } else {
                        Some(id)
                    },
                    ..old(self).limb_at(0).unwrap()
                },
            ),
    {
        let root = self.vec_tree.nodes[0];
        if let Some(GenericGenoNode::Child(n)) = root {
            if n.nn_id.is_none() {
                let bound = GenoNode {
                    joint_limits: n.joint_limits,
                    size: n.size,
                    center: n.center,
                    nn_id: Some(id),
                };
                self.vec_tree.nodes.set(0, Some(GenericGenoNode::Child(bound)));
            }
        }
    }

    /// Whether no two limbs reached from the root share interior. Boxes that
    /// only touch along an edge do not conflict.
    pub fn is_valid(&self) -> (r: bool)
        ensures
            r == self.is_valid_spec(),
    {
        let len = self.vec_tree.nodes.len();
        let mut seen: Vec<bool> = Vec::new();
        let mut i: usize = 0;
        while i < len
            invariant
                len == self.vec_tree.nodes@.len(),
                i <= len,
                seen@.len() == i,
                forall|k: int| 0 <= k < i ==> #[trigger] seen@[k] == self.visited(k),
                forall|a: int, b: int|
                    0 <= a < b < i && self.visited(a) && self.visited(b) ==> !overlaps_strictly(
                        region_of(self.limb_at(a).unwrap()),
                        region_of(self.limb_at(b).unwrap()),
                    ),
            decreases len - i,
        {
            let reached = i == 0 || seen[(i - 1) / 4];
            let mut visit = false;
            if reached {
                if let Some(GenericGenoNode::Child(n)) = &self.vec_tree.nodes[i] {
                    visit = true;
                    assert(self.reached(i as int)) by {
                        if i > 0 {
                            assert(seen@[parent_index(i as int)] == self.visited(parent_index(i as int)));
                        }
                    }
                    let b = region(n);
                    let mut j: usize = 0;
                    while j < i
                        invariant
                            i < len == self.vec_tree.nodes@.len(),
                            j <= i,
                            seen@.len() == i,
                            self.limb_at(i as int) == Some(*n),
                            self.visited(i as int),
                            as_region(b) == region_of(*n),
                            forall|k: int| 0 <= k < i ==> #[trigger] seen@[k] == self.visited(k),
                            forall|a: int|
                                0 <= a < j && self.visited(a) ==> !overlaps_strictly(
                                    region_of(self.limb_at(a).unwrap()),
                                    region_of(*n),
                                ),
                        decreases i - j,
                    {
                        if seen[j] {
                            if let Some(GenericGenoNode::Child(m)) = &self.vec_tree.nodes[j] {
                                let o = region(m);
                                if o[0] < b[1] && o[1] > b[0] && o[2] < b[3] && o[3] > b[2] {
                                    assert(self.visited(j as int));
                                    assert(overlaps_strictly(
                                        region_of(self.limb_at(j as int).unwrap()),
                                        region_of(self.limb_at(i as int).unwrap()),
                                    ));
                                    return false;
                                }
                            }
                        }
                        j = j + 1;
                    }
                }
            }
            assert(visit == self.visited(i as int)) by {
                if i > 0 {
                    assert(seen@[parent_index(i as int)] == self.visited(parent_index(i as int)));
                }
            }
            seen.push(visit);
            i = i + 1;
        }
        true
    }

    /// The limbs other than the root, in increasing slot order, that have no
    /// limb below them.
    pub fn leaf_nodes(&self) -> (r: Vec<usize>)
        ensures
            forall|a: int, b: int| 0 <= a < b < r@.len() ==> r@[a] < r@[b],
            forall|a: int| 0 <= a < r@.len() ==> self.is_leaf_limb(#[trigger] r@[a] as int),
            forall|k: int| #[trigger] self.is_leaf_limb(k) ==> r@.contains(k as usize),
    {
        let mut r: Vec<usize> = Vec::new();
        let len = self.vec_tree.nodes.len();
        let mut i: usize = 1;
        while i < len
            invariant
                len == self.vec_tree.nodes@.len(),
                1 <= i <= len || len == 0,
                forall|a: int, b: int| 0 <= a < b < r@.len() ==> r@[a] < r@[b],
                forall|a: int| 0 <= a < r@.len() ==> r@[a] < i,
                forall|a: int| 0 <= a < r@.len() ==> self.is_leaf_limb(#[trigger] r@[a] as int),
                forall|k: int| k < i && #[trigger] self.is_leaf_limb(k) ==> r@.contains(k as usize),
            decreases len - i,
        {
            let ghost before = r@;
            let keep = match &self.vec_tree.nodes[i] {
                Some(GenericGenoNode::Child(_)) => self.no_limb_below(i),
                _ => false,
            };
            if keep {
                r.push(i);
                proof {
                    assert(r@[r@.len() - 1] == i);
                    assert forall|k: int| k < i && #[trigger] self.is_leaf_limb(k) implies r@.contains(
                        k as usize,
                    ) by {
                        let a = choose|a: int| 0 <= a < before.len() && before[a] == k as usize;
                        assert(r@[a] == k as usize);
                    }
                }
            }
            i = i + 1;
        }
        r
    }

    /// No child slot of `index` holds a limb.
    fn no_limb_below(&self, index: usize) -> (r: bool)
        ensures
            r == (forall|d: int| 0 <= d < 4 ==> #[trigger] self.limb_at(child_index(index as int, d)) is None),
    {
        let ch = self.vec_tree.children(index);
        let mut d: usize = 0;
        while d < 4
            invariant
                d <= 4,
                forall|e: int| 0 <= e < d ==> #[trigger] self.limb_at(child_index(index as int, e)) is None,
                forall|e: int| 0 <= e < 4 ==> #[trigger] ch@[e] == crate::quad_tree::child_or_max(index as int, e),
            decreases 4 - d,
        {
            let c = ch[d];
            if c < self.vec_tree.nodes.len() {
                if let Some(GenericGenoNode::Child(_)) = &self.vec_tree.nodes[c] {
                    assert(self.limb_at(child_index(index as int, d as int)) is Some);
                    return false;
                }
            }
            d = d + 1;
        }
        true
    }
}

} // verus!
