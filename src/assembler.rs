use crate::genotype::HALF_TURN_MRAD;
use vstd::prelude::*;

verus! {

/// Stiffness of a hinge motor that has a target angle.
pub const MOTOR_STIFFNESS: i32 = 10;

/// Damping of every hinge motor.
pub const MOTOR_DAMPING: i32 = 0;

/// Colour of new segments until `set_color` changes it, as 0xRRGGBBAA (azure).
pub const DEFAULT_COLOR: u32 = 0xF0FF_FFFF;

/// A side of a segment.
#[derive(Clone, Copy, Debug, PartialEq, Eq, Structural)]
pub enum Direction {
    Top,
    Bottom,
    Left,
    Right,
}

impl Direction {
    /// The position of the direction in the fixed order top, bottom, left, right.
    pub open spec fn index(self) -> int {
        match self {
            Direction::Top => 0,
            Direction::Bottom => 1,
            Direction::Left => 2,
            Direction::Right => 3,
        }
    }

    pub open spec fn opposite_spec(self) -> Direction {
        match self {
            Direction::Top => Direction::Bottom,
            Direction::Bottom => Direction::Top,
            Direction::Left => Direction::Right,
            Direction::Right => Direction::Left,
        }
    }

    /// Top and bottom, left and right face each other.
    pub fn opposite(self) -> (r: Direction)
        ensures
            r == self.opposite_spec(),
    {
        match self {
            Direction::Top => Direction::Bottom,
            Direction::Bottom => Direction::Top,
            Direction::Left => Direction::Right,
            Direction::Right => Direction::Left,
        }
    }

    /// The direction at position `i` of the order top, bottom, left, right.
    pub fn from_index(i: usize) -> (r: Direction)
        requires
            i < 4,
        ensures
            r.index() == i,
    {
        if i == 0 {
            Direction::Top
        } else if i == 1 {
            Direction::Bottom
        } else if i == 2 {
            Direction::Left
        } else {
            Direction::Right
        }
    }
}

/// One built segment: its identity, the indices of its neighbours, its
/// half-extent, the position of its centre and its colour.
#[derive(Clone, Copy, Debug)]
pub struct BlobBlock {
    pub id: usize,
    pub top: Option<usize>,
    pub bottom: Option<usize>,
    pub left: Option<usize>,
    pub right: Option<usize>,
    pub vec_index: usize,
    pub size: [i32; 2],
    pub translation: [i64; 2],
    pub color: u32,
}

impl BlobBlock {
    /// The neighbour in direction `d`.
    pub open spec fn link(self, d: Direction) -> Option<usize> {
        match d {
            Direction::Top => self.top,
            Direction::Bottom => self.bottom,
            Direction::Left => self.left,
            Direction::Right => self.right,
        }
    }

    /// The same block with the neighbour in direction `d` replaced.
    pub open spec fn with_link(self, d: Direction, v: Option<usize>) -> BlobBlock {
        match d {
            Direction::Top => BlobBlock { top: v, ..self },
            Direction::Bottom => BlobBlock { bottom: v, ..self },
            Direction::Left => BlobBlock { left: v, ..self },
            Direction::Right => BlobBlock { right: v, ..self },
        }
    }
}

/// A motorised hinge between two segments, named by their identities. The
/// anchors are the midpoints of the facing edges, relative to each centre;
/// angles are in milliradians.
#[derive(Clone, Copy, Debug)]
pub struct Joint {
    pub parent: usize,
    pub child: usize,
    pub parent_anchor: [i64; 2],
    pub child_anchor: [i64; 2],
    pub motor_target: i32,
    pub stiffness: i32,
    pub damping: i32,
    pub limits: [i32; 2],
}

/// Midpoint of the edge of a box of half-extent `s` in direction `d`, relative to its centre.
pub open spec fn anchor(d: Direction, s: [i32; 2]) -> (int, int) {
    match d {
        Direction::Top => (0, s[1] as int),
        Direction::Bottom => (0, -s[1]),
        Direction::Left => (-s[0], 0),
        Direction::Right => (s[0] as int, 0),
    }
}

/// Centre of a segment of half-extent `(dx, dy)` placed flush against the
/// edge in direction `d` of a segment at `t` with half-extent `s`.
pub open spec fn spawn_point(t: [i64; 2], s: [i32; 2], d: Direction, dx: i32, dy: i32) -> (int, int) {
    match d {
        Direction::Top => (t[0] as int, t[1] + s[1] + dy),
        Direction::Bottom => (t[0] as int, t[1] - s[1] - dy),
        Direction::Left => (t[0] - s[0] - dx, t[1] as int),
        Direction::Right => (t[0] + s[0] + dx, t[1] as int),
    }
}

pub open spec fn fits_i64(p: (int, int)) -> bool {
    i64::MIN <= p.0 <= i64::MAX && i64::MIN <= p.1 <= i64::MAX
}

/// Builds a body one segment at a time around a cursor. Segments are linked
/// in both directions to the segment they were attached to; identities come
/// from a counter that `clean` does not reset, so two bodies never share one.
pub struct BlobBuilder {
    pub blocks: Vec<BlobBlock>,
    pub joints: Vec<Joint>,
    pub color: u32,
    pub current_pos: Option<usize>,
    /// Identity that the next segment gets.
    pub next_id: usize,
    /// Identity of the first segment of the body being built.
    pub first_id: usize,
}

/// What `attach_in_direction` does, from state `a` to state `b` with result `r`.
pub open spec fn attach_spec(
    a: BlobBuilder,
    b: BlobBuilder,
    r: Option<usize>,
    d: Direction,
    dx: i32,
    dy: i32,
    motor_pos: Option<i32>,
    motor_limits: Option<[i32; 2]>,
) -> bool {
    match a.current_pos {
        None => r is None && b == a,
        Some(c) => {
            let p = a.blocks@[c as int];
            let at = spawn_point(p.translation, p.size, d, dx, dy);
            if p.link(d) is Some {
                r == Some(a.blocks@[p.link(d).unwrap() as int].id) && b == a
            } else if a.next_id == usize::MAX || !fits_i64(at) {
                r is None && b == a
            } else {
                let n = a.blocks@.len();
                let nb = BlobBlock {
                    id: a.next_id,
                    top: None,
                    bottom: None,
                    left: None,
                    right: None,
                    vec_index: n as usize,
                    size: [dx, dy],
                    translation: [at.0 as i64, at.1 as i64],
                    color: a.color,
                }.with_link(d.opposite_spec(), Some(c));
                let pa = anchor(d, p.size);
                let ca = anchor(d.opposite_spec(), [dx, dy]);
                let j = Joint {
                    parent: p.id,
                    child: a.next_id,
                    parent_anchor: [pa.0 as i64, pa.1 as i64],
                    child_anchor: [ca.0 as i64, ca.1 as i64],
                    motor_target: if motor_pos is Some { motor_pos.unwrap() } else { 0 },
                    stiffness: if motor_pos is Some { MOTOR_STIFFNESS } else { 0 },
                    damping: MOTOR_DAMPING,
                    limits: if motor_limits is Some {
                        motor_limits.unwrap()
                    } else {
                        [-3142i32, HALF_TURN_MRAD]
                    },
                };
                &&& r == Some(a.next_id)
                &&& b.blocks@ == a.blocks@.update(c as int, p.with_link(d, Some(n as usize))).push(nb)
                &&& b.joints@ == a.joints@.push(j)
                &&& b.current_pos == Some(n as usize)
                &&& b.next_id == a.next_id + 1
                &&& b.first_id == a.first_id
                &&& b.color == a.color
            }
        },
    }
}

/// What a move of the cursor in direction `d` does.
pub open spec fn step_spec(a: BlobBuilder, b: BlobBuilder, r: bool, d: Direction) -> bool {
    match a.current_pos {
        Some(c) if a.blocks@[c as int].link(d) is Some => r && b == BlobBuilder {
            current_pos: a.blocks@[c as int].link(d),
            ..a
        },
        _ => !r && b == a,
    }
}

/// Every link points at a segment whose opposite link points back.
pub open spec fn links_ok(s: Seq<BlobBlock>) -> bool {
    forall|k: int, d: Direction|
        0 <= k < s.len() && (#[trigger] s[k].link(d)) is Some ==> {
            let m = s[k].link(d).unwrap() as int;
            0 <= m < s.len() && s[m].link(d.opposite_spec()) == Some(k as usize)
        }
}

proof fn lemma_links_after_attach(s: Seq<BlobBlock>, c: int, d: Direction, nb: BlobBlock)
    requires
        links_ok(s),
        0 <= c < s.len(),
        s[c].link(d) is None,
        nb.link(d.opposite_spec()) == Some(c as usize),
        forall|e: Direction| e != d.opposite_spec() ==> (#[trigger] nb.link(e)) is None,
        s.len() < usize::MAX,
    ensures
        links_ok(s.update(c, s[c].with_link(d, Some(s.len() as usize))).push(nb)),
{
    let n = s.len() as int;
    let t = s.update(c, s[c].with_link(d, Some(n as usize))).push(nb);
    assert forall|k: int, e: Direction| 0 <= k < t.len() && (#[trigger] t[k].link(e)) is Some implies {
        let m = t[k].link(e).unwrap() as int;
        0 <= m < t.len() && t[m].link(e.opposite_spec()) == Some(k as usize)
    } by {
        if k < n && k != c {
            let m = s[k].link(e).unwrap() as int;
            assert(s[m].link(e.opposite_spec()) == Some(k as usize));
            if m == c {
                assert(e.opposite_spec() != d);
            }
        } else if k == c {
            if e != d {
                let m = s[k].link(e).unwrap() as int;
                assert(s[m].link(e.opposite_spec()) == Some(k as usize));
            }
        }
    }
}

impl BlobBuilder {
    /// The cursor stands on a segment exactly when there is one; indices,
    /// identities and joints agree with the order of construction; every link
    /// is answered by the opposite link of its target.
    pub open spec fn wf(&self) -> bool {
        let n = self.blocks@.len();
        &&& (self.current_pos is None <==> n == 0)
        &&& (self.current_pos matches Some(c) ==> c < n)
        &&& self.next_id == self.first_id + n
        &&& forall|k: int|
            0 <= k < n ==> (#[trigger] self.blocks@[k]).vec_index == k && self.blocks@[k].id
                == self.first_id + k
        &&& links_ok(self.blocks@)
        &&& self.joints@.len() == if n == 0 { 0 } else { n - 1 }
        &&& forall|j: int|
            0 <= j < self.joints@.len() ==> (#[trigger] self.joints@[j]).child == self.first_id + j + 1
                && self.first_id <= self.joints@[j].parent <= self.first_id + j
    }

    /// A builder with no segment, whose first segment will have identity 0.
    pub fn new() -> (r: BlobBuilder)
        ensures
            r.wf(),
            r.blocks@.len() == 0,
            r.current_pos is None,
            r.next_id == 0,
            r.color == DEFAULT_COLOR,
    {
        BlobBuilder {
            blocks: Vec::new(),
            joints: Vec::new(),
            color: DEFAULT_COLOR,
            current_pos: None,
            next_id: 0,
            first_id: 0,
        }
    }

    /// Sets the colour of the segments created from now on.
    pub fn set_color(&mut self, color: u32)
        ensures
            *final(self) == (BlobBuilder { color, ..*old(self) }),
    {
        self.color = color;
    }

    /// Drops every segment and joint and starts a new body; identities go on
    /// from where they were.
    pub fn clean(&mut self)
        requires
            old(self).wf(),
        ensures
            final(self).wf(),
            final(self).blocks@.len() == 0,
            final(self).joints@.len() == 0,
            final(self).current_pos is None,
            final(self).next_id == old(self).next_id,
            final(self).first_id == old(self).next_id,
            final(self).color == old(self).color,
    {
        self.blocks = Vec::new();
        self.joints = Vec::new();
        self.current_pos = None;
        self.first_id = self.next_id;
    }

    /// Moves the cursor to its neighbour in direction `d`; where there is none,
    /// or no cursor, nothing changes. Returns whether the cursor moved.
    pub fn step(&mut self, d: Direction) -> (r: bool)
        requires
            old(self).wf(),
        ensures
            step_spec(*old(self), *final(self), r, d),
            final(self).wf(),
    {
        match self.current_pos {
            Some(c) => {
                let b = self.blocks[c];
                let target = match d {
                    Direction::Top => b.top,
                    Direction::Bottom => b.bottom,
                    Direction::Left => b.left,
                    Direction::Right => b.right,
                };
                match target {
                    Some(m) => {
                        self.current_pos = Some(m);
                        true
                    },
                    None => false,
                }
            },
            None => false,
        }
    }

    /// Moves the cursor one step to the left, if there is a segment there.
    pub fn left(&mut self) -> (r: bool)
        requires
            old(self).wf(),
        ensures
            step_spec(*old(self), *final(self), r, Direction::Left),
            final(self).wf(),
    {
        self.step(Direction::Left)
    }

    /// Moves the cursor one step to the right, if there is a segment there.
    pub fn right(&mut self) -> (r: bool)
        requires
            old(self).wf(),
        ensures
            step_spec(*old(self), *final(self), r, Direction::Right),
            final(self).wf(),
    {
        self.step(Direction::Right)
    }

    /// Moves the cursor one step up, if there is a segment there.
    pub fn top(&mut self) -> (r: bool)
        requires
            old(self).wf(),
        ensures
            step_spec(*old(self), *final(self), r, Direction::Top),
            final(self).wf(),
    {
        self.step(Direction::Top)
    }

    /// Moves the cursor one step down, if there is a segment there.
    pub fn bottom(&mut self) -> (r: bool)
        requires
            old(self).wf(),
        ensures
            step_spec(*old(self), *final(self), r, Direction::Bottom),
            final(self).wf(),
    {
        self.step(Direction::Bottom)
    }

    /// Puts the cursor back on the first segment; without segments nothing
    /// changes. Returns whether there was a segment.
    pub fn reset(&mut self) -> (r: bool)
        requires
            old(self).wf(),
        ensures
            final(self).wf(),
            r == (old(self).blocks@.len() > 0),
            *final(self) == if r {
                BlobBuilder { current_pos: Some(0), ..*old(self) }
            } else {
                *old(self)
            },
    {
        if self.current_pos.is_some() {
            self.current_pos = Some(0);
            true
        } else {
            false
        }
    }

    /// Starts a body with one segment of half-extent `size` centred at
    /// `translation`, after dropping whatever body was being built. Returns
    /// the identity of the segment.
    pub fn create_first(&mut self, translation: [i64; 2], size: [i32; 2]) -> (r: usize)
        requires
            old(self).wf(),
            old(self).next_id < usize::MAX,
        ensures
            final(self).wf(),
            r == old(self).next_id,
            final(self).blocks@ == seq![
                BlobBlock {
                    id: r,
                    top: None,
                    bottom: None,
                    left: None,
                    right: None,
                    vec_index: 0,
                    size,
                    translation,
                    color: old(self).color,
                },
            ],
            final(self).joints@.len() == 0,
            final(self).current_pos == Some(0usize),
            final(self).first_id == old(self).next_id,
            final(self).next_id == old(self).next_id + 1,
            final(self).color == old(self).color,
    {
        if self.blocks.len() > 0 {
            self.clean();
        }
        let id = self.next_id;
        let block = BlobBlock {
            id,
            top: None,
            bottom: None,
            left: None,
            right: None,
            vec_index: 0,
            size,
            translation,
            color: self.color,
        };
        self.blocks.push(block);
        self.current_pos = Some(0);
        self.next_id = id + 1;
        assert(self.blocks@ =~= seq![block]);
        id
    }
    /// Attaches a new segment of half-extent `(dx, dy)` flush against the
    /// cursor's edge in direction `d`, hinged to it at the midpoints of the
    /// facing edges, and moves the cursor onto it. The hinge motor pulls to
    /// `motor_pos` when one is given and is inert otherwise; its range is
    /// `motor_limits`, or a full turn. Returns the identity of the new
    /// segment. Where that side is taken already, nothing changes and the
    /// identity of the neighbour there is returned; without a cursor, once
    /// identities run out, or where the centre would leave the coordinate
    /// range, nothing changes and `None` is returned.
    #[verifier::rlimit(50)]
    pub fn attach_in_direction(
        &mut self,
        d: Direction,
        dx: i32,
        dy: i32,
        motor_pos: Option<i32>,
        motor_limits: Option<[i32; 2]>,
    ) -> (r: Option<usize>)
        requires
            old(self).wf(),
        ensures
            attach_spec(*old(self), *final(self), r, d, dx, dy, motor_pos, motor_limits),
            final(self).wf(),
    {
        let c = match self.current_pos {
            Some(c) => c,
            None => {
                return None;
            },
        };
        let p = self.blocks[c];
        let existing = match d {
            Direction::Top => p.top,
            Direction::Bottom => p.bottom,
            Direction::Left => p.left,
            Direction::Right => p.right,
        };
        if let Some(m) = existing {
            assert(self.blocks@[c as int].link(d) == Some(m));
            return Some(self.blocks[m].id);
        }
        if self.next_id == usize::MAX {
            return None;
        }
        let tx = p.translation[0] as i128;
        let ty = p.translation[1] as i128;
        let (x, y): (i128, i128) = match d {
            Direction::Top => (tx, ty + p.size[1] as i128 + dy as i128),
            Direction::Bottom => (tx, ty - p.size[1] as i128 - dy as i128),
            Direction::Left => (tx - p.size[0] as i128 - dx as i128, ty),
            Direction::Right => (tx + p.size[0] as i128 + dx as i128, ty),
        };
        if x < i64::MIN as i128 || x > i64::MAX as i128 || y < i64::MIN as i128 || y > i64::MAX as i128 {
            return None;
        }
        let n = self.blocks.len();
        let id = self.next_id;
        let back = Some(c);
        let nb = BlobBlock {
            id,
            top: if d == Direction::Bottom { back } else { None },
            bottom: if d == Direction::Top { back } else { None },
            left: if d == Direction::Right { back } else { None },
            right: if d == Direction::Left { back } else { None },
            vec_index: n,
            size: [dx, dy],
            translation: [x as i64, y as i64],
            color: self.color,
        };
        let fwd = Some(n);
        let linked = BlobBlock {
            top: if d == Direction::Top { fwd } else { p.top },
            bottom: if d == Direction::Bottom { fwd } else { p.bottom },
            left: if d == Direction::Left { fwd } else { p.left },
            right: if d == Direction::Right { fwd } else { p.right },
            ..p
        };
        let (pa, ca): ([i64; 2], [i64; 2]) = match d {
            Direction::Top => ([0, p.size[1] as i64], [0, -(dy as i64)]),
            Direction::Bottom => ([0, -(p.size[1] as i64)], [0, dy as i64]),
            Direction::Left => ([-(p.size[0] as i64), 0], [dx as i64, 0]),
            Direction::Right => ([p.size[0] as i64, 0], [-(dx as i64), 0]),
        };
        let (motor_target, stiffness) = match motor_pos {
            Some(t) => (t, MOTOR_STIFFNESS),
            None => (0, 0),
        };
        let limits = match motor_limits {
            Some(l) => l,
            None => [-HALF_TURN_MRAD, HALF_TURN_MRAD],
        };
        let j = Joint {
            parent: p.id,
            child: id,
            parent_anchor: pa,
            child_anchor: ca,
            motor_target,
            stiffness,
            damping: MOTOR_DAMPING,
            limits,
        };
        let ghost a = *self;
        self.blocks.set(c, linked);
        self.blocks.push(nb);
        self.joints.push(j);
        self.current_pos = Some(n);
        self.next_id = id + 1;
        proof {
            assert(linked == p.with_link(d, Some(n)));
            assert(self.blocks@ == a.blocks@.update(c as int, p.with_link(d, Some(n))).push(nb));
            lemma_links_after_attach(a.blocks@, c as int, d, nb);
            assert forall|k: int|
                0 <= k < self.blocks@.len() implies (#[trigger] self.blocks@[k]).vec_index == k
                && self.blocks@[k].id == self.first_id + k by {
                if k < n {
                    assert(self.blocks@[k].vec_index == a.blocks@[k].vec_index);
                }
            }
            assert forall|i: int| 0 <= i < self.joints@.len() implies (#[trigger] self.joints@[i]).child
                == self.first_id + i + 1 && self.first_id <= self.joints@[i].parent <= self.first_id + i by {
                if i < a.joints@.len() {
                    assert(self.joints@[i] == a.joints@[i]);
                }
            }
        }
        Some(id)
    }

    /// `attach_in_direction` to the top.
    pub fn add_to_top(&mut self, dx: i32, dy: i32, motor_pos: Option<i32>, motor_limits: Option<[i32; 2]>) -> (r: Option<usize>)
        requires
            old(self).wf(),
        ensures
            attach_spec(*old(self), *final(self), r, Direction::Top, dx, dy, motor_pos, motor_limits),
            final(self).wf(),
    {
        self.attach_in_direction(Direction::Top, dx, dy, motor_pos, motor_limits)
    }

    /// `attach_in_direction` to the bottom.
    pub fn add_to_bottom(&mut self, dx: i32, dy: i32, motor_pos: Option<i32>, motor_limits: Option<[i32; 2]>) -> (r: Option<usize>)
        requires
            old(self).wf(),
        ensures
            attach_spec(*old(self), *final(self), r, Direction::Bottom, dx, dy, motor_pos, motor_limits),
            final(self).wf(),
    {
        self.attach_in_direction(Direction::Bottom, dx, dy, motor_pos, motor_limits)
    }

    /// `attach_in_direction` to the left.
    pub fn add_to_left(&mut self, dx: i32, dy: i32, motor_pos: Option<i32>, motor_limits: Option<[i32; 2]>) -> (r: Option<usize>)
        requires
            old(self).wf(),
        ensures
            attach_spec(*old(self), *final(self), r, Direction::Left, dx, dy, motor_pos, motor_limits),
            final(self).wf(),
    {
        self.attach_in_direction(Direction::Left, dx, dy, motor_pos, motor_limits)
    }

    /// `attach_in_direction` to the right.
    pub fn add_to_right(&mut self, dx: i32, dy: i32, motor_pos: Option<i32>, motor_limits: Option<[i32; 2]>) -> (r: Option<usize>)
        requires
            old(self).wf(),
        ensures
            attach_spec(*old(self), *final(self), r, Direction::Right, dx, dy, motor_pos, motor_limits),
            final(self).wf(),
    {
        self.attach_in_direction(Direction::Right, dx, dy, motor_pos, motor_limits)
    }
}

} // verus!
