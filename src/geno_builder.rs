use crate::assembler::{attach_spec, BlobBlock, BlobBuilder, Direction};
use crate::genotype::{BlobGeno, GenericGenoNode, GenoNode};
use crate::quad_tree::{child_index, child_or_max, parent_index};
use vstd::prelude::*;

verus! {

/// Slot `b` holds what slot `a` held: the same kind of node, the same limb
/// geometry, and a limb bound to a controller stays bound to it.
pub open spec fn keeps_node(a: Option<GenericGenoNode>, b: Option<GenericGenoNode>) -> bool {
    match (a, b) {
        (None, None) => true,
        (Some(GenericGenoNode::Parent), Some(GenericGenoNode::Parent)) => true,
        (Some(GenericGenoNode::Child(x)), Some(GenericGenoNode::Child(y))) => {
            &&& x.joint_limits == y.joint_limits
            &&& x.size == y.size
            &&& x.center == y.center
            &&& (x.nn_id is Some ==> y.nn_id == x.nn_id)
        },
        _ => false,
    }
}

/// Genotype `b` differs from `a` at most by controllers bound to limbs that had none.
pub open spec fn keeps(a: BlobGeno, b: BlobGeno) -> bool {
    &&& a.vec_tree.max_depth == b.vec_tree.max_depth
    &&& a.vec_tree.nodes@.len() == b.vec_tree.nodes@.len()
    &&& forall|k: int|
        0 <= k < a.vec_tree.nodes@.len() ==> keeps_node(
            #[trigger] a.vec_tree.nodes@[k],
            b.vec_tree.nodes@[k],
        )
}

/// The two blocks describe the same segment, whatever their links.
pub open spec fn same_segment(x: BlobBlock, y: BlobBlock) -> bool {
    &&& x.id == y.id
    &&& x.size == y.size
    &&& x.translation == y.translation
}

/// Builder `b` extends the body of `a`: its segments keep their identities
/// and every link that they had.
pub open spec fn grows(a: BlobBuilder, b: BlobBuilder) -> bool {
    &&& b.blocks@.len() >= a.blocks@.len()
    &&& b.first_id == a.first_id
    &&& b.next_id >= a.next_id
    &&& forall|k: int|
        0 <= k < a.blocks@.len() ==> same_segment(#[trigger] a.blocks@[k], b.blocks@[k])
    &&& forall|k: int, d: Direction|
        0 <= k < a.blocks@.len() && (#[trigger] a.blocks@[k].link(d)) is Some ==> b.blocks@[k].link(d)
            == a.blocks@[k].link(d)
    &&& b.joints@.len() >= a.joints@.len()
    &&& forall|j: int| 0 <= j < a.joints@.len() ==> #[trigger] b.joints@[j] == a.joints@[j]
}

/// The direction of child slot `d` (0 top, 1 bottom, 2 left, 3 right).
pub open spec fn direction_at(d: int) -> Direction {
    if d == 0 {
        Direction::Top
    } else if d == 1 {
        Direction::Bottom
    } else if d == 2 {
        Direction::Left
    } else {
        Direction::Right
    }
}

/// Segment `m` of `b` was built for the limb in slot `s[m]` of `g`: the limb
/// is reached from the root and bound to a controller, the segment has its
/// half-extent, and a segment other than the first hangs from the segment of
/// the parent slot, on the side of the limb's slot, by a hinge with the
/// limb's range and an inert motor.
pub open spec fn segment_matches(b: BlobBuilder, s: Seq<usize>, g: BlobGeno, m: int) -> bool {
    let k = s[m] as int;
    &&& 0 <= k < g.vec_tree.nodes@.len()
    &&& g.visited(k)
    &&& b.blocks@[m].size == g.limb_at(k).unwrap().size
    &&& g.limb_at(k).unwrap().nn_id is Some
    &&& m > 0 ==> {
        let j = b.joints@[m - 1];
        let pm = j.parent - b.first_id;
        &&& 0 <= pm < m
        &&& s[pm] as int == parent_index(k)
        &&& b.blocks@[pm].link(direction_at((k - 1) % 4)) == Some(m as usize)
        &&& j.limits == g.limb_at(k).unwrap().joint_limits
        &&& j.motor_target == 0
        &&& j.stiffness == 0
    }
}

/// The segments of `b` stand, in order of construction, for the limbs of
/// the slots `s`, the first for the root.
pub open spec fn mirrors(b: BlobBuilder, s: Seq<usize>, g: BlobGeno) -> bool {
    &&& s.len() == b.blocks@.len()
    &&& s.len() > 0 ==> s[0] == 0
    &&& forall|m: int| 0 <= m < s.len() ==> #[trigger] segment_matches(b, s, g, m)
}

/// Every limb of `g0` holds in `g` the controller it had, or the identity of
/// a segment that `b` built for its slot.
pub open spec fn bound_as(b: BlobBuilder, s: Seq<usize>, g: BlobGeno, g0: BlobGeno) -> bool {
    forall|k: int|
        0 <= k < g0.vec_tree.nodes@.len() && #[trigger] g0.limb_at(k) is Some ==> {
            let x = g.limb_at(k).unwrap().nn_id;
            ||| x == g0.limb_at(k).unwrap().nn_id
            ||| (x matches Some(id) && b.first_id <= id < b.first_id + s.len() && s[id - b.first_id]
                == k)
        }
}

/// Slot `k` lies on the side of its parent slot where that parent hangs from
/// its own parent, so the parent's segment has that side taken already.
pub open spec fn faces_parent(k: int) -> bool {
    let p = parent_index(k);
    &&& p > 0
    &&& direction_at((k - 1) % 4) == direction_at((p - 1) % 4).opposite_spec()
}

/// Slot `k` holds a limb reached from the root through limbs none of which
/// faces its parent: a limb that a build gives a segment.
pub open spec fn buildable(g: BlobGeno, k: int) -> bool
    decreases k,
{
    if k <= 0 {
        k == 0 && g.limb_at(0) is Some
    } else {
        g.limb_at(k) is Some && !faces_parent(k) && buildable(g, parent_index(k))
    }
}

/// Every limb in a child slot of `k` that does not face `k`'s parent has a segment.
pub open spec fn children_built(g: BlobGeno, s: Seq<usize>, k: int) -> bool {
    forall|d: int|
        0 <= d < 4 && #[trigger] g.limb_at(child_index(k, d)) is Some && !faces_parent(child_index(k, d))
            ==> s.contains(child_index(k, d) as usize)
}

proof fn lemma_children_built_grow(g: BlobGeno, s: Seq<usize>, s2: Seq<usize>, k: int)
    requires
        children_built(g, s, k),
        s2.len() >= s.len(),
        forall|m: int| 0 <= m < s.len() ==> #[trigger] s2[m] == s[m],
    ensures
        children_built(g, s2, k),
{
    assert forall|d: int|
        0 <= d < 4 && #[trigger] g.limb_at(child_index(k, d)) is Some && !faces_parent(child_index(k, d))
            implies s2.contains(child_index(k, d) as usize) by {
        let i = choose|i: int| 0 <= i < s.len() && s[i] == child_index(k, d) as usize;
        assert(s2[i] == s[i]);
    }
}

/// Where every built slot has its children built, every buildable limb has a segment.
proof fn lemma_buildable_built(g: BlobGeno, s: Seq<usize>, k: int)
    requires
        buildable(g, k),
        g.vec_tree.nodes@.len() <= usize::MAX,
        s.len() > 0,
        s[0] == 0,
        forall|m: int| 0 <= m < s.len() ==> children_built(g, s, #[trigger] s[m] as int),
    ensures
        s.contains(k as usize),
    decreases k,
{
    if k == 0 {
        assert(s[0] == 0);
    } else {
        assert(g.limb_at(k) is Some);
        let p = parent_index(k);
        lemma_buildable_built(g, s, p);
        let m = choose|m: int| 0 <= m < s.len() && s[m] == p as usize;
        assert(children_built(g, s, s[m] as int));
        let d = (k - 1) % 4;
        assert(child_index(p, d) == k);
        assert(g.limb_at(child_index(p, d)) is Some);
    }
}

proof fn lemma_keeps_trans(a: BlobGeno, b: BlobGeno, c: BlobGeno)
    requires
        keeps(a, b),
        keeps(b, c),
    ensures
        keeps(a, c),
{
    assert forall|k: int| 0 <= k < a.vec_tree.nodes@.len() implies keeps_node(
        #[trigger] a.vec_tree.nodes@[k],
        c.vec_tree.nodes@[k],
    ) by {
        assert(keeps_node(a.vec_tree.nodes@[k], b.vec_tree.nodes@[k]));
        assert(keeps_node(b.vec_tree.nodes@[k], c.vec_tree.nodes@[k]));
    }
}

proof fn lemma_grows_trans(a: BlobBuilder, b: BlobBuilder, c: BlobBuilder)
    requires
        grows(a, b),
        grows(b, c),
    ensures
        grows(a, c),
{
    assert forall|k: int, e: Direction|
        0 <= k < a.blocks@.len() && (#[trigger] a.blocks@[k].link(e)) is Some implies c.blocks@[k].link(e)
            == a.blocks@[k].link(e) by {
        assert(b.blocks@[k].link(e) == a.blocks@[k].link(e));
    }
    assert forall|k: int| 0 <= k < a.blocks@.len() implies same_segment(
        #[trigger] a.blocks@[k],
        c.blocks@[k],
    ) by {
        assert(same_segment(a.blocks@[k], b.blocks@[k]));
        assert(same_segment(b.blocks@[k], c.blocks@[k]));
    }
    assert forall|j: int| 0 <= j < a.joints@.len() implies #[trigger] c.joints@[j] == a.joints@[j] by {
        assert(b.joints@[j] == a.joints@[j]);
    }
}

proof fn lemma_keeps_reached(a: BlobGeno, b: BlobGeno, k: int)
    requires
        keeps(a, b),
    ensures
        a.reached(k) == b.reached(k),
        (a.limb_at(k) is Some) == (b.limb_at(k) is Some),
    decreases k,
{
    if 0 <= k < a.vec_tree.nodes@.len() {
        assert(keeps_node(a.vec_tree.nodes@[k], b.vec_tree.nodes@[k]));
    }
    if k > 0 {
        lemma_keeps_reached(a, b, parent_index(k));
    }
}

proof fn lemma_matches_kept(
    b: BlobBuilder,
    s: Seq<usize>,
    g: BlobGeno,
    b2: BlobBuilder,
    s2: Seq<usize>,
    g2: BlobGeno,
)
    requires
        mirrors(b, s, g),
        b.wf(),
        grows(b, b2),
        s2.len() >= s.len(),
        forall|m: int| 0 <= m < s.len() ==> #[trigger] s2[m] == s[m],
        keeps(g, g2),
    ensures
        forall|m: int| 0 <= m < s.len() ==> #[trigger] segment_matches(b2, s2, g2, m),
{
    assert forall|m: int| 0 <= m < s.len() implies #[trigger] segment_matches(b2, s2, g2, m) by {
        assert(segment_matches(b, s, g, m));
        let k = s[m] as int;
        lemma_keeps_reached(g, g2, k);
        assert(keeps_node(g.vec_tree.nodes@[k], g2.vec_tree.nodes@[k]));
        assert(same_segment(b.blocks@[m], b2.blocks@[m]));
        if m > 0 {
            let j = b.joints@[m - 1];
            assert(b2.joints@[m - 1] == j);
            let pm = j.parent - b.first_id;
            assert(s2[pm] == s[pm]);
            assert(b.blocks@[pm].link(direction_at((k - 1) % 4)) is Some);
        }
    }
}


/// Genotype `b` is what a build that started at identity `first` made of `a`:
/// nothing but controllers changed, and the root is bound, to `first` where
/// it had no controller before.
pub open spec fn rebound(a: BlobGeno, b: BlobGeno, first: usize) -> bool {
    &&& keeps(a, b)
    &&& a.limb_at(0) is Some
    &&& b.limb_at(0) is Some
    &&& b.limb_at(0).unwrap().nn_id == if a.limb_at(0).unwrap().nn_id is Some {
        a.limb_at(0).unwrap().nn_id
    } else {
        Some(first)
    }
}

/// Building a genotype a second time rebinds nothing: the root keeps the
/// controller that the first build gave it, and every limb bound after the
/// first build is bound to the same controller after the second.
pub proof fn lemma_rebuild_keeps_controllers(
    g0: BlobGeno,
    g1: BlobGeno,
    g2: BlobGeno,
    first1: usize,
    first2: usize,
)
    requires
        rebound(g0, g1, first1),
        rebound(g1, g2, first2),
    ensures
        g2.limb_at(0).unwrap().nn_id == g1.limb_at(0).unwrap().nn_id,
        g1.limb_at(0).unwrap().nn_id is Some,
        forall|k: int|
            #[trigger] g1.limb_at(k) is Some && g1.limb_at(k).unwrap().nn_id is Some ==> g2.limb_at(k)
                is Some && g2.limb_at(k).unwrap().nn_id == g1.limb_at(k).unwrap().nn_id,
{
    assert forall|k: int|
        #[trigger] g1.limb_at(k) is Some && g1.limb_at(k).unwrap().nn_id is Some implies g2.limb_at(k)
            is Some && g2.limb_at(k).unwrap().nn_id == g1.limb_at(k).unwrap().nn_id by {
        assert(keeps_node(g1.vec_tree.nodes@[k], g2.vec_tree.nodes@[k]));
    }
}

/// Bodies built one after the other are apart: when a builder starts a body
/// at an identity no lower than the one the earlier builder state would have
/// given next, no joint of the new body refers to a segment of the earlier one.
pub proof fn lemma_bodies_apart(earlier: BlobBuilder, later: BlobBuilder)
    requires
        earlier.wf(),
        later.wf(),
        later.first_id >= earlier.next_id,
    ensures
        forall|j: int, k: int|
            0 <= j < later.joints@.len() && 0 <= k < earlier.blocks@.len() ==> (#[trigger] later.joints@[j]).parent
                != (#[trigger] earlier.blocks@[k]).id && later.joints@[j].child != earlier.blocks@[k].id,
{
}

/// Builds bodies from genotypes, binding each limb that has no controller yet
/// to the identity of the segment made for it. `slots` gives, for each
/// segment of the body in the builder, the genotype slot it was built for.
pub struct GenoBlobBuilder {
    pub builder: BlobBuilder,
    pub slots: Vec<usize>,
}

/// Materialises, below the segment under the cursor, the limbs of the child
/// slots of `index` in the order top, bottom, left, right, each followed by
/// its own limbs, and brings the cursor back after each one.
proof fn lemma_attached(
    b1: BlobBuilder,
    b2: BlobBuilder,
    s1: Seq<usize>,
    s2: Seq<usize>,
    g1: BlobGeno,
    g2: BlobGeno,
    g_start: BlobGeno,
    cur: usize,
    c: usize,
    index: usize,
    d: usize,
    n: GenoNode,
    r: Option<usize>,
)
    requires
        b1.wf(),
        b2.wf(),
        b1.current_pos == Some(cur),
        cur < s1.len(),
        s1[cur as int] == index,
        d < 4,
        c as int == child_index(index as int, d as int),
        c < g1.vec_tree.nodes@.len(),
        g1.limb_at(c as int) == Some(n),
        attach_spec(b1, b2, r, direction_at(d as int), n.size[0], n.size[1], None, Some(n.joint_limits)),
        b2.blocks@.len() > b1.blocks@.len(),
        s2 == s1.push(c),
        g2.vec_tree.max_depth == g1.vec_tree.max_depth,
        g2.vec_tree.nodes@ == if n.nn_id is None {
            g1.vec_tree.nodes@.update(
                c as int,
                Some(GenericGenoNode::Child(GenoNode { nn_id: r, ..n })),
            )
        } else {
            g1.vec_tree.nodes@
        },
        mirrors(b1, s1, g1),
        bound_as(b1, s1, g1, g_start),
        keeps(g_start, g1),
    ensures
        keeps(g1, g2),
        grows(b1, b2),
        mirrors(b2, s2, g2),
        bound_as(b2, s2, g2, g_start),
        b2.current_pos == Some(b1.blocks@.len() as usize),
        b2.blocks@[b1.blocks@.len() as int].link(direction_at(d as int).opposite_spec()) == Some(cur),
        forall|e: Direction|
            e != direction_at(d as int).opposite_spec() ==> (#[trigger] b2.blocks@[b1.blocks@.len() as int].link(
                e,
            )) is None,
        forall|k: int, e: Direction|
            0 <= k < b1.blocks@.len() && k != cur ==> #[trigger] b2.blocks@[k].link(e) == b1.blocks@[k].link(e),
        forall|e: Direction|
            e != direction_at(d as int) ==> #[trigger] b2.blocks@[cur as int].link(e) == b1.blocks@[cur as int].link(e),
{
    let dir = direction_at(d as int);

    assert(c as int == child_index(index as int, d as int));
    assert(parent_index(c as int) == index && (c as int - 1) % 4 == d);
    assert(keeps(g1, g2)) by {
        assert forall|k: int| 0 <= k < g1.vec_tree.nodes@.len() implies keeps_node(
            #[trigger] g1.vec_tree.nodes@[k],
            g2.vec_tree.nodes@[k],
        ) by {}
    }
    assert(grows(b1, b2)) by {
        assert forall|k: int, e: Direction|
            0 <= k < b1.blocks@.len() && (#[trigger] b1.blocks@[k].link(e)) is Some implies b2.blocks@[k].link(e)
                == b1.blocks@[k].link(e) by {
            if k == cur as int {
                assert(b1.blocks@[k].link(direction_at(d as int)) is None);
            }
        }
        assert forall|k: int| 0 <= k < b1.blocks@.len() implies same_segment(
            #[trigger] b1.blocks@[k],
            b2.blocks@[k],
        ) by {}
        assert forall|j: int| 0 <= j < b1.joints@.len() implies #[trigger] b2.joints@[j]
            == b1.joints@[j] by {}
    }
    lemma_matches_kept(b1, s1, g1, b2, s2, g2);
    assert(segment_matches(b1, s1, g1, cur as int));
    lemma_keeps_reached(g1, g2, c as int);
    lemma_keeps_reached(g1, g2, index as int);
    assert(g2.reached(c as int));
    assert(g2.visited(c as int));
    assert(s2[b1.blocks@.len() as int] == c);
    assert(g2.limb_at(c as int).unwrap().size == n.size);
    assert(b2.blocks@[b1.blocks@.len() as int].size == [n.size[0], n.size[1]]);
    assert(b2.blocks@[b1.blocks@.len() as int].size@ =~= n.size@);
    assert(b2.blocks@[b1.blocks@.len() as int].size == n.size);
    assert(g2.limb_at(c as int).unwrap().nn_id is Some);
    assert(b2.joints@[b1.blocks@.len() - 1].parent == b1.blocks@[cur as int].id);
    assert(b2.joints@[b1.blocks@.len() - 1].parent - b2.first_id == cur);
    assert(s2[cur as int] == index);
    assert(b2.blocks@[cur as int].link(direction_at(d as int)) == Some(b1.blocks@.len() as usize));
    assert(b2.joints@[b1.blocks@.len() - 1].limits == n.joint_limits);
    assert(segment_matches(b2, s2, g2, b1.blocks@.len() as int));
    assert forall|k: int|
        0 <= k < g_start.vec_tree.nodes@.len() && #[trigger] g_start.limb_at(k)
            is Some implies {
            let x = g2.limb_at(k).unwrap().nn_id;
            ||| x == g_start.limb_at(k).unwrap().nn_id
            ||| (x matches Some(id) && b2.first_id <= id < b2.first_id + s2.len()
                && s2[id - b2.first_id] == k)
        } by {
        assert(keeps_node(g_start.vec_tree.nodes@[k], g1.vec_tree.nodes@[k]));
        if k != c {
            assert(g2.vec_tree.nodes@[k] == g1.vec_tree.nodes@[k]);
            let x = g1.limb_at(k).unwrap().nn_id;
            if x != g_start.limb_at(k).unwrap().nn_id {
                let id = x.unwrap();
                assert(s2[id - b2.first_id] == s1[id - b1.first_id]);
            }
        }
    }
    assert forall|m: int| 0 <= m < s2.len() implies #[trigger] segment_matches(b2, s2, g2, m) by {}
}

/// Materialises the limb in child slot `d` of `index`, if there is one,
/// followed by its own limbs, and brings the cursor back. Returns `false`
/// where an attachment was refused for want of identities or coordinates.
#[verifier::rlimit(100)]
fn build_child(
    builder: &mut BlobBuilder,
    slots: &mut Vec<usize>,
    geno: &mut BlobGeno,
    index: usize,
    d: usize,
    c: usize,
    len: usize,
    Ghost(g_start): Ghost<BlobGeno>,
) -> (whole: bool)
    requires
        d < 4,
        c == child_or_max(index as int, d as int),
        old(builder).wf(),
        old(builder).current_pos matches Some(cur) && cur < old(slots)@.len() && old(slots)@[cur as int]
            == index,
        index < len == old(geno).vec_tree.nodes@.len(),
        g_start.vec_tree.nodes@.len() == len,
        mirrors(*old(builder), old(slots)@, *old(geno)),
        bound_as(*old(builder), old(slots)@, *old(geno), g_start),
        keeps(g_start, *old(geno)),
        forall|e: int|
            d <= e < 4 && (#[trigger] old(builder).blocks@[old(builder).current_pos.unwrap() as int].link(
                direction_at(e),
            )) is Some ==> index > 0 && direction_at(e) == direction_at((index - 1) % 4).opposite_spec(),
    ensures
        final(builder).wf(),
        final(builder).current_pos == old(builder).current_pos,
        grows(*old(builder), *final(builder)),
        keeps(*old(geno), *final(geno)),
        keeps(g_start, *final(geno)),
        mirrors(*final(builder), final(slots)@, *final(geno)),
        bound_as(*final(builder), final(slots)@, *final(geno), g_start),
        final(slots)@.len() >= old(slots)@.len(),
        forall|m: int| 0 <= m < old(slots)@.len() ==> #[trigger] final(slots)@[m] == old(slots)@[m],
        forall|e: int|
            d + 1 <= e < 4 && (#[trigger] final(builder).blocks@[old(builder).current_pos.unwrap() as int].link(
                direction_at(e),
            )) is Some ==> index > 0 && direction_at(e) == direction_at((index - 1) % 4).opposite_spec(),
        forall|k: int, e: Direction|
            0 <= k < old(builder).blocks@.len() && k != old(builder).current_pos.unwrap()
                ==> #[trigger] final(builder).blocks@[k].link(e) == old(builder).blocks@[k].link(e),
        whole ==> (g_start.limb_at(child_index(index as int, d as int)) is Some && !faces_parent(
            child_index(index as int, d as int),
        ) ==> final(slots)@.contains(child_index(index as int, d as int) as usize)),
        whole ==> forall|m: int|
            old(slots)@.len() <= m < final(slots)@.len() ==> children_built(
                g_start,
                final(slots)@,
                #[trigger] final(slots)@[m] as int,
            ),
    decreases len - index, 0int,
{
    let ghost b0 = *builder;
    let ghost g0 = *geno;
    let ghost s0 = slots@;
    let ghost cur = b0.current_pos.unwrap();
    let mut whole = true;
    if c < len {
        if let Some(GenericGenoNode::Child(n)) = geno.vec_tree.nodes[c] {
            let dir = Direction::from_index(d);
            let before = builder.blocks.len();
            let ghost b1 = *builder;
            let ghost g1 = *geno;
            let ghost s1 = slots@;
            let r = builder.attach_in_direction(
                dir,
                n.size[0],
                n.size[1],
                None,
                Some(n.joint_limits),
            );
            if builder.blocks.len() > before {
                let ghost b2 = *builder;
                slots.push(c);
                if n.nn_id.is_none() {
                    let bound = GenoNode {
                        joint_limits: n.joint_limits,
                        size: n.size,
                        center: n.center,
                        nn_id: r,
                    };
                    geno.vec_tree.nodes.set(c, Some(GenericGenoNode::Child(bound)));
                }
                proof {
                    lemma_attached(b1, b2, s1, slots@, g1, *geno, g_start, cur, c, index, d, n, r);
                    lemma_keeps_trans(g0, g1, *geno);
                    lemma_keeps_trans(g_start, g1, *geno);
                    lemma_grows_trans(b0, b1, b2);
                    assert(direction_at(d as int) == dir);
                }
                let ghost g2 = *geno;
                let ghost s2 = slots@;
                assert(c as int == child_index(index as int, d as int));
                assert(parent_index(c as int) == index && (c as int - 1) % 4 == d);
                assert(direction_at((c as int - 1) % 4) == dir);
                assert forall|e: int|
                    0 <= e < 4 && (#[trigger] b2.blocks@[before as int].link(direction_at(e))) is Some implies c
                        > 0 && direction_at(e) == direction_at((c - 1) % 4).opposite_spec() by {
                    if direction_at(e) != dir.opposite_spec() {
                        assert(b2.blocks@[before as int].link(direction_at(e)) is None);
                    }
                }
                let sub = build_node(builder, slots, geno, c, len, Ghost(g_start));
                if !sub {
                    whole = false;
                }
                let ghost b3 = *builder;
                assert(b2.blocks@[before as int].link(dir.opposite_spec()) == Some(cur));
                assert(b3.blocks@[before as int].link(dir.opposite_spec()) == Some(cur));
                builder.step(dir.opposite());
                proof {
                    assert(grows(b3, *builder)) by {
                        assert forall|j: int| 0 <= j < b3.joints@.len() implies #[trigger] builder.joints@[j]
                            == b3.joints@[j] by {}
                        assert forall|k: int| 0 <= k < b3.blocks@.len() implies same_segment(
                            #[trigger] b3.blocks@[k],
                            builder.blocks@[k],
                        ) by {}
                    }
                    lemma_grows_trans(b0, b2, b3);
                    lemma_grows_trans(b0, b3, *builder);
                    lemma_keeps_trans(g0, g2, *geno);
                    lemma_keeps_trans(g_start, g2, *geno);
                    assert forall|m: int| 0 <= m < s0.len() implies #[trigger] slots@[m] == s0[m] by {
                        assert(s2[m] == s1[m]);
                    }
                    assert forall|m: int| 0 <= m < slots@.len() implies #[trigger] segment_matches(
                        *builder,
                        slots@,
                        *geno,
                        m,
                    ) by {
                        assert(segment_matches(b3, slots@, *geno, m));
                    }
                    assert forall|e: int|
                        d + 1 <= e < 4 && (#[trigger] builder.blocks@[cur as int].link(
                            direction_at(e),
                        )) is Some implies index > 0 && direction_at(e) == direction_at(
                        (index - 1) % 4,
                    ).opposite_spec() by {
                        assert(b3.blocks@[cur as int].link(direction_at(e)) == b2.blocks@[cur as int].link(
                            direction_at(e),
                        ));
                        assert(direction_at(e) != dir);
                        assert(b2.blocks@[cur as int].link(direction_at(e)) == b1.blocks@[cur as int].link(
                            direction_at(e),
                        ));
                    }
                    assert forall|k: int, e: Direction|
                        0 <= k < b0.blocks@.len() && k != cur implies #[trigger] builder.blocks@[k].link(e)
                            == b0.blocks@[k].link(e) by {
                        assert(b3.blocks@[k].link(e) == b2.blocks@[k].link(e));
                        assert(b2.blocks@[k] == b1.blocks@[k]);
                    }
                    assert(slots@[s1.len() as int] == c);
                    assert(slots@.contains(c));
                    assert(c as int == child_index(index as int, d as int));
                    if whole {
                        assert forall|m: int| s0.len() <= m < slots@.len() implies children_built(
                            g_start,
                            slots@,
                            #[trigger] slots@[m] as int,
                        ) by {
                            if m < s1.len() {
                                assert(slots@[m] == s1[m]);
                                assert(children_built(g_start, s1, s1[m] as int));
                                lemma_children_built_grow(g_start, s1, slots@, s1[m] as int);
                            } else if m == s1.len() {
                                assert(slots@[m] == c);
                            }
                        }
                    }
                }
            } else {
                if r.is_none() {
                    whole = false;
                }
                proof {
                    assert(*builder == b1);
                    if whole {
                        assert(b1.blocks@[cur as int].link(dir) is Some);
                        assert(direction_at(d as int) == dir);
                        assert(c as int == child_index(index as int, d as int));
                        assert(parent_index(c as int) == index && (c as int - 1) % 4 == d);
                        assert(faces_parent(c as int));
                    }
                }
            }
        } else {
            proof {
                lemma_keeps_reached(g_start, *geno, c as int);
            }
        }
    } else {
        assert(g_start.limb_at(child_index(index as int, d as int)) is None);
    }
    whole
}

#[verifier::rlimit(100)]
fn build_node(
    builder: &mut BlobBuilder,
    slots: &mut Vec<usize>,
    geno: &mut BlobGeno,
    index: usize,
    len: usize,
    Ghost(g_start): Ghost<BlobGeno>,
) -> (whole: bool)
    requires
        old(builder).wf(),
        old(builder).current_pos matches Some(c) && c < old(slots)@.len() && old(slots)@[c as int]
            == index,
        index < len == old(geno).vec_tree.nodes@.len(),
        mirrors(*old(builder), old(slots)@, *old(geno)),
        bound_as(*old(builder), old(slots)@, *old(geno), g_start),
        keeps(g_start, *old(geno)),
        forall|e: int|
            0 <= e < 4 && (#[trigger] old(builder).blocks@[old(builder).current_pos.unwrap() as int].link(
                direction_at(e),
            )) is Some ==> index > 0 && direction_at(e) == direction_at((index - 1) % 4).opposite_spec(),
    ensures
        final(builder).wf(),
        final(builder).current_pos == old(builder).current_pos,
        grows(*old(builder), *final(builder)),
        keeps(*old(geno), *final(geno)),
        mirrors(*final(builder), final(slots)@, *final(geno)),
        bound_as(*final(builder), final(slots)@, *final(geno), g_start),
        final(slots)@.len() >= old(slots)@.len(),
        forall|m: int| 0 <= m < old(slots)@.len() ==> #[trigger] final(slots)@[m] == old(slots)@[m],
        forall|k: int, e: Direction|
            0 <= k < old(builder).blocks@.len() && k != old(builder).current_pos.unwrap()
                ==> #[trigger] final(builder).blocks@[k].link(e) == old(builder).blocks@[k].link(e),
        whole ==> children_built(g_start, final(slots)@, index as int),
        whole ==> forall|m: int|
            old(slots)@.len() <= m < final(slots)@.len() ==> children_built(
                g_start,
                final(slots)@,
                #[trigger] final(slots)@[m] as int,
            ),
    decreases len - index, 1int,
{
    let ghost b0 = *builder;
    let ghost g0 = *geno;
    let ghost s0 = slots@;
    let ghost cur = b0.current_pos.unwrap();
    let ch = geno.vec_tree.children(index);
    let mut whole = true;
    let mut d: usize = 0;
    while d < 4
        invariant
            d <= 4,
            cur < b0.blocks@.len(),
            forall|e: int|
                d <= e < 4 && (#[trigger] builder.blocks@[cur as int].link(direction_at(e))) is Some ==> index
                    > 0 && direction_at(e) == direction_at((index - 1) % 4).opposite_spec(),
            forall|k: int, e: Direction|
                0 <= k < b0.blocks@.len() && k != cur ==> #[trigger] builder.blocks@[k].link(e)
                    == b0.blocks@[k].link(e),
            whole ==> forall|e: int|
                0 <= e < d && #[trigger] g_start.limb_at(child_index(index as int, e)) is Some
                    && !faces_parent(child_index(index as int, e)) ==> slots@.contains(
                    child_index(index as int, e) as usize,
                ),
            whole ==> forall|m: int|
                s0.len() <= m < slots@.len() ==> children_built(g_start, slots@, #[trigger] slots@[m] as int),
            g_start.vec_tree.nodes@.len() == len,
            builder.wf(),
            builder.current_pos == b0.current_pos,
            b0.current_pos == Some(cur),
            cur < s0.len(),
            s0[cur as int] == index,
            grows(b0, *builder),
            keeps(g0, *geno),
            keeps(g_start, *geno),
            index < len == g0.vec_tree.nodes@.len(),
            mirrors(*builder, slots@, *geno),
            bound_as(*builder, slots@, *geno, g_start),
            slots@.len() >= s0.len(),
            forall|m: int| 0 <= m < s0.len() ==> #[trigger] slots@[m] == s0[m],
            forall|e: int| 0 <= e < 4 ==> #[trigger] ch@[e] == child_or_max(index as int, e),
        decreases 4 - d,
    {
        let ghost bA = *builder;
        let ghost gA = *geno;
        let ghost sA = slots@;
        let ok = build_child(builder, slots, geno, index, d, ch[d], len, Ghost(g_start));
        proof {
            lemma_grows_trans(b0, bA, *builder);
            lemma_keeps_trans(g0, gA, *geno);
            assert forall|m: int| 0 <= m < s0.len() implies #[trigger] slots@[m] == s0[m] by {
                assert(slots@[m] == sA[m]);
            }
            assert forall|k: int, e: Direction|
                0 <= k < b0.blocks@.len() && k != cur implies #[trigger] builder.blocks@[k].link(e)
                    == b0.blocks@[k].link(e) by {
                assert(builder.blocks@[k].link(e) == bA.blocks@[k].link(e));
            }
            if whole && ok {
                assert forall|e: int|
                    0 <= e < d + 1 && #[trigger] g_start.limb_at(child_index(index as int, e)) is Some
                        && !faces_parent(child_index(index as int, e)) implies slots@.contains(
                        child_index(index as int, e) as usize,
                    ) by {
                    if e < d {
                        let i = choose|i: int| 0 <= i < sA.len() && sA[i] == child_index(index as int, e) as usize;
                        assert(slots@[i] == sA[i]);
                    }
                }
                assert forall|m: int| s0.len() <= m < slots@.len() implies children_built(
                    g_start,
                    slots@,
                    #[trigger] slots@[m] as int,
                ) by {
                    if m < sA.len() {
                        assert(slots@[m] == sA[m]);
                        assert(children_built(g_start, sA, sA[m] as int));
                        lemma_children_built_grow(g_start, sA, slots@, sA[m] as int);
                    }
                }
            }
        }
        whole = whole && ok;
        d = d + 1;
    }
    whole
}

impl GenoBlobBuilder {
    /// A mapper around a fresh builder.
    pub fn new() -> (r: GenoBlobBuilder)
        ensures
            r.builder.wf(),
            r.builder.blocks@.len() == 0,
            r.builder.next_id == 0,
            r.slots@.len() == 0,
    {
        GenoBlobBuilder { builder: BlobBuilder::new(), slots: Vec::new() }
    }

    /// Builds the body of `geno` with its root centred at `center`, after
    /// dropping the body built before. The limbs are attached depth first in
    /// the order top, bottom, left, right. The root, and each limb that gets
    /// a segment, is bound to that segment's identity unless it is bound
    /// already; no other controller changes. The body is left in the
    /// builder, with the cursor on the root segment, and `slots` names the
    /// genotype slot of each segment. A limb on the side where its parent
    /// hangs from the grandparent finds that side taken and is skipped with
    /// its own limbs. Returns `false` when an attachment was refused because
    /// identities or coordinates ran out; otherwise every other limb reached
    /// from the root has a segment.
    pub fn build(&mut self, geno: &mut BlobGeno, center: [i32; 2]) -> (whole: bool)
        requires
            old(self).builder.wf(),
            old(self).builder.next_id < usize::MAX,
            old(geno).limb_at(0) is Some,
        ensures
            final(self).builder.wf(),
            rebound(*old(geno), *final(geno), old(self).builder.next_id),
            mirrors(final(self).builder, final(self).slots@, *final(geno)),
            bound_as(final(self).builder, final(self).slots@, *final(geno), *old(geno)),
            final(self).builder.current_pos == Some(0usize),
            whole ==> forall|k: int| #[trigger] buildable(*old(geno), k) ==> final(self).slots@.contains(
                k as usize,
            ),
            final(self).builder.first_id == old(self).builder.next_id,
            final(self).builder.blocks@.len() >= 1,
            final(self).builder.blocks@[0].id == old(self).builder.next_id,
            final(self).builder.blocks@[0].translation == [center[0] as i64, center[1] as i64],
            final(self).builder.blocks@[0].size == old(geno).limb_at(0).unwrap().size,
            forall|j: int|
                0 <= j < final(self).builder.joints@.len() ==> old(self).builder.next_id
                    <= (#[trigger] final(self).builder.joints@[j]).parent && old(self).builder.next_id
                    <= final(self).builder.joints@[j].child,
    {
        let ghost g_start = *geno;
        self.builder.clean();
        let root = match geno.get_first() {
            Some(n) => *n,
            None => {
                return false;
            },
        };
        let id = self.builder.create_first([center[0] as i64, center[1] as i64], root.size);
        geno.assign_nn_id_to_root(id);
        self.slots = Vec::new();
        self.slots.push(0);
        proof {
            assert(keeps(g_start, *geno)) by {
                assert forall|k: int| 0 <= k < g_start.vec_tree.nodes@.len() implies keeps_node(
                    #[trigger] g_start.vec_tree.nodes@[k],
                    geno.vec_tree.nodes@[k],
                ) by {
                    if k > 0 {
                        assert(geno.vec_tree.nodes@[k] == g_start.vec_tree.nodes@[k]);
                    }
                }
            }
            assert(geno.visited(0));
            assert(segment_matches(self.builder, self.slots@, *geno, 0));
            assert forall|k: int|
                0 <= k < g_start.vec_tree.nodes@.len() && #[trigger] g_start.limb_at(k) is Some implies {
                    let x = geno.limb_at(k).unwrap().nn_id;
                    ||| x == g_start.limb_at(k).unwrap().nn_id
                    ||| (x matches Some(i) && self.builder.first_id <= i < self.builder.first_id
                        + self.slots@.len() && self.slots@[i - self.builder.first_id] == k)
                } by {
                if k > 0 {
                    assert(geno.vec_tree.nodes@[k] == g_start.vec_tree.nodes@[k]);
                }
            }
        }
        let ghost g1 = *geno;
        let ghost b1 = self.builder;
        let len = geno.vec_tree.nodes.len();
        let whole = build_node(&mut self.builder, &mut self.slots, geno, 0, len, Ghost(g_start));
        proof {
            if whole {
                assert forall|k: int| #[trigger] buildable(g_start, k) implies self.slots@.contains(
                    k as usize,
                ) by {
                    assert(children_built(g_start, self.slots@, self.slots@[0] as int));
                    lemma_buildable_built(g_start, self.slots@, k);
                }
            }
            lemma_keeps_trans(g_start, g1, *geno);
            assert(keeps_node(g1.vec_tree.nodes@[0], geno.vec_tree.nodes@[0]));
            assert(same_segment(b1.blocks@[0], self.builder.blocks@[0]));
        }
        whole
    }
}

} // verus!
