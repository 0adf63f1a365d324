use vstd::prelude::*;

verus! {

/// Number of slots of a complete quad-tree of the given depth: 1 + 4 + ... + 4^depth.
pub open spec fn capacity(depth: nat) -> nat
    decreases depth,
{
    if depth == 0 {
        1
    } else {
        4 * capacity((depth - 1) as nat) + 1
    }
}

/// Index of the child of `index` in direction `d` (0 top, 1 bottom, 2 left, 3 right).
pub open spec fn child_index(index: int, d: int) -> int {
    4 * index + 1 + d
}

/// Index of the parent of a non-root index.
pub open spec fn parent_index(index: int) -> int {
    (index - 1) / 4
}

/// Floor of the base-4 logarithm, with 0 for 0.
pub open spec fn log4_floor(n: nat) -> nat
    decreases n,
{
    if n < 4 {
        0
    } else {
        1 + log4_floor(n / 4)
    }
}

/// A fixed-capacity tree with branching factor four, stored as a flat arena:
/// the children of slot `i` are the slots `4i+1 ..= 4i+4`.
pub struct QuadTree<T> {
    pub nodes: Vec<Option<T>>,
    pub max_depth: u32,
}

impl<T> QuadTree<T> {
    /// The slots hold exactly the nodes of a complete tree of `max_depth`.
    pub open spec fn wf(&self) -> bool {
        &&& self.nodes@.len() == capacity(self.max_depth as nat)
    }

    /// The slot at `index`, where an index beyond the arena reads as empty.
    pub open spec fn slot(&self, index: int) -> Option<T> {
        if 0 <= index < self.nodes@.len() {
            self.nodes@[index]
        } else {
            None
        }
    }

    /// Slot `k` is removed when the sweep from `index` runs over it: `index`
    /// itself, and every occupied slot whose parent is removed.
    pub open spec fn swept(&self, index: int, k: int) -> bool
        decreases k,
    {
        if k <= index || k <= 0 {
            k == index
        } else {
            self.slot(k) is Some && self.swept(index, parent_index(k))
        }
    }

    /// Slot `index` holds a node and has a child slot that is out of range or empty.
    pub open spec fn is_branch(&self, index: int) -> bool {
        &&& self.slot(index) is Some
        &&& log4_floor(index as nat) + 1 < self.max_depth
        &&& exists|d: int| 0 <= d < 4 && #[trigger] self.slot(child_index(index, d)) is None
    }

    /// An empty tree able to hold every node down to `max_depth`.
    pub fn new(max_depth: u32) -> (r: Self)
        requires
            capacity(max_depth as nat) <= usize::MAX,
        ensures
            r.wf(),
            r.max_depth == max_depth,
            forall|k: int| 0 <= k < r.nodes@.len() ==> r.nodes@[k] is None,
    {
        let cap = match capacity_of(max_depth) {
            Some(c) => c,
            None => 0,
        };
        let mut nodes: Vec<Option<T>> = Vec::new();
        while nodes.len() < cap
            invariant
                nodes@.len() <= cap,
                forall|k: int| 0 <= k < nodes@.len() ==> nodes@[k] is None,
            decreases cap - nodes@.len(),
        {
            nodes.push(None);
        }
        QuadTree { nodes, max_depth }
    }

    /// The parent slot of `index`, or `None` for the root.
    pub fn parent(&self, index: usize) -> (r: Option<usize>)
        ensures
            index == 0 ==> r is None,
            index > 0 ==> r == Some(parent_index(index as int) as usize),
    {
        if index == 0 {
            None
        } else {
            Some((index - 1) / 4)
        }
    }

    /// The four child slots of `index` in the order top, bottom, left, right.
    /// An index that would not fit a `usize` is given as `usize::MAX`, which
    /// lies beyond any arena.
    pub fn children(&self, index: usize) -> (r: [usize; 4])
        ensures
            forall|d: int| 0 <= d < 4 ==> #[trigger] r@[d] == child_or_max(index as int, d),
    {
        let r = [child_at(index, 0), child_at(index, 1), child_at(index, 2), child_at(index, 3)];
        assert(forall|d: int| 0 <= d < 4 ==> #[trigger] r@[d] == child_or_max(index as int, d));
        r
    }

    /// Floor of the base-4 logarithm of `index`.
    pub fn depth(&self, index: usize) -> (r: u32)
        ensures
            r == log4_floor(index as nat),
    {
        proof {
            reveal_with_fuel(pow4, 34);
            assert(pow4(33) > usize::MAX);
            lemma_log4_below(index as nat, 32);
        }
        let mut n: usize = index;
        let mut d: u32 = 0;
        while n >= 4
            invariant
                d + log4_floor(n as nat) == log4_floor(index as nat),
                log4_floor(index as nat) <= 32,
            decreases n,
        {
            proof {
                lemma_log4_step(n as nat);
            }
            n = n / 4;
            d = d + 1;
        }
        d
    }

    /// No child slot of `index` holds a node.
    pub fn is_leaf(&self, index: usize) -> (r: bool)
        ensures
            r == (forall|d: int| 0 <= d < 4 ==> #[trigger] self.slot(child_index(index as int, d)) is None),
    {
        let ch = self.children(index);
        let mut d: usize = 0;
        while d < 4
            invariant
                d <= 4,
                forall|e: int| 0 <= e < d ==> #[trigger] self.slot(child_index(index as int, e)) is None,
                ch@.len() == 4,
                forall|e: int|
                    0 <= e < 4 ==> #[trigger] ch@[e] == child_or_max(index as int, e),
            decreases 4 - d,
        {
            let c = ch[d];
            if c < self.nodes.len() && self.nodes[c].is_some() {
                assert(self.slot(child_index(index as int, d as int)) is Some);
                return false;
            }
            d = d + 1;
        }
        true
    }

    /// Empties the slots that the sweep from `index` reaches; with `keep_self`,
    /// `index` itself is left as it is.
    fn sweep(&mut self, index: usize, keep_self: bool)
        ensures
            final(self).max_depth == old(self).max_depth,
            final(self).nodes@.len() == old(self).nodes@.len(),
            forall|k: int|
                0 <= k < old(self).nodes@.len() ==> #[trigger] final(self).nodes@[k] == if old(
                    self,
                ).swept(index as int, k) && !(keep_self && k == index) {
                    None
                } else {
                    old(self).nodes@[k]
                },
    {
        let ghost orig = *self;
        let len = self.nodes.len();
        let mut marks: Vec<bool> = Vec::new();
        let mut k: usize = 0;
        while k < len
            invariant
                len == orig.nodes@.len(),
                self.max_depth == orig.max_depth,
                self.nodes@.len() == len,
                marks@.len() == k,
                k <= len,
                forall|j: int| 0 <= j < k ==> #[trigger] marks@[j] == orig.swept(index as int, j),
                forall|j: int|
                    0 <= j < k ==> #[trigger] self.nodes@[j] == if orig.swept(index as int, j) && !(
                    keep_self && j == index) {
                        None
                    } else {
                        orig.nodes@[j]
                    },
                forall|j: int| k <= j < len ==> #[trigger] self.nodes@[j] == orig.nodes@[j],
            decreases len - k,
        {
            let m: bool = if k < index || k == 0 {
                k == index
            } else if k == index {
                true
            } else {
                self.nodes[k].is_some() && marks[(k - 1) / 4]
            };
            marks.push(m);
            if m && !(keep_self && k == index) {
                self.nodes.set(k, None);
            }
            k = k + 1;
        }
    }

    /// Empties `index` and every occupied slot reachable from it through
    /// occupied slots. An index beyond the arena changes nothing.
    pub fn clean_subtree(&mut self, index: usize)
        ensures
            final(self).max_depth == old(self).max_depth,
            final(self).nodes@.len() == old(self).nodes@.len(),
            forall|k: int|
                0 <= k < old(self).nodes@.len() ==> #[trigger] final(self).nodes@[k] == if old(
                    self,
                ).swept(index as int, k) {
                    None
                } else {
                    old(self).nodes@[k]
                },
    {
        self.sweep(index, false);
    }

    /// As `clean_subtree`, but `index` itself keeps its node.
    pub fn clean_subtree_without_self(&mut self, index: usize)
        ensures
            final(self).max_depth == old(self).max_depth,
            final(self).nodes@.len() == old(self).nodes@.len(),
            forall|k: int|
                0 <= k < old(self).nodes@.len() ==> #[trigger] final(self).nodes@[k] == if old(
                    self,
                ).swept(index as int, k) && k != index {
                    None
                } else {
                    old(self).nodes@[k]
                },
    {
        self.sweep(index, true);
    }

    /// The occupied slots, in increasing order, that lie above the last layer
    /// and have at least one child slot free: where a limb may still grow.
    pub fn branch_nodes(&self) -> (r: Vec<usize>)
        ensures
            forall|a: int, b: int| 0 <= a < b < r@.len() ==> r@[a] < r@[b],
            forall|a: int| 0 <= a < r@.len() ==> self.is_branch(#[trigger] r@[a] as int),
            forall|k: int|
                0 <= k < self.nodes@.len() && #[trigger] self.is_branch(k) ==> r@.contains(k as usize),
    {
        let mut r: Vec<usize> = Vec::new();
        let len = self.nodes.len();
        let mut i: usize = 0;
        while i < len
            invariant
                len == self.nodes@.len(),
                i <= len,
                forall|a: int, b: int| 0 <= a < b < r@.len() ==> r@[a] < r@[b],
                forall|a: int| 0 <= a < r@.len() ==> r@[a] < i,
                forall|a: int| 0 <= a < r@.len() ==> self.is_branch(#[trigger] r@[a] as int),
                forall|k: int| 0 <= k < i && #[trigger] self.is_branch(k) ==> r@.contains(k as usize),
            decreases len - i,
        {
            let ghost before = r@;
            if self.nodes[i].is_some() && self.depth(i) as u64 + 1 < self.max_depth as u64
                && !self.is_leaf_free(i) {
                r.push(i);
                proof {
                    assert(r@[r@.len() - 1] == i);
                    assert forall|k: int| 0 <= k < i && #[trigger] self.is_branch(k) implies r@.contains(
                        k as usize,
                    ) by {
                        let a = choose|a: int| 0 <= a < before.len() && before[a] == k as usize;
                        assert(r@[a] == k as usize);
                    }
                }
            }
            i = i + 1;
        }
        r
    }

    /// Every child slot of `index` is occupied (none lies beyond the arena).
    fn is_leaf_free(&self, index: usize) -> (r: bool)
        ensures
            r == !(exists|d: int| 0 <= d < 4 && #[trigger] self.slot(child_index(index as int, d)) is None),
    {
        let ch = self.children(index);
        let mut d: usize = 0;
        while d < 4
            invariant
                d <= 4,
                forall|e: int| 0 <= e < d ==> #[trigger] self.slot(child_index(index as int, e)) is Some,
                forall|e: int|
                    0 <= e < 4 ==> #[trigger] ch@[e] == child_or_max(index as int, e),
            decreases 4 - d,
        {
            let c = ch[d];
            if c >= self.nodes.len() || self.nodes[c].is_none() {
                assert(self.slot(child_index(index as int, d as int)) is None);
                return false;
            }
            d = d + 1;
        }
        true
    }
}

/// Four to the power `k`.
pub open spec fn pow4(k: nat) -> nat
    decreases k,
{
    if k == 0 {
        1
    } else {
        4 * pow4((k - 1) as nat)
    }
}

/// The child index, or `usize::MAX` where it would not fit.
pub open spec fn child_or_max(index: int, d: int) -> int {
    if child_index(index, d) <= usize::MAX {
        child_index(index, d)
    } else {
        usize::MAX as int
    }
}

fn child_at(index: usize, d: usize) -> (r: usize)
    requires
        d < 4,
    ensures
        r == child_or_max(index as int, d as int),
{
    if index <= (usize::MAX - 1 - d) / 4 {
        assert(4 * index + 1 + d <= usize::MAX) by (nonlinear_arith)
            requires
                index <= (usize::MAX - 1 - d) / 4,
                d < 4,
        ;
        4 * index + 1 + d
    } else {
        assert(4 * index + 1 + d > usize::MAX) by (nonlinear_arith)
            requires
                index > (usize::MAX - 1 - d) / 4,
                d < 4,
        ;
        usize::MAX
    }
}

proof fn lemma_log4_below(n: nat, k: nat)
    requires
        n < pow4(k + 1),
    ensures
        log4_floor(n) <= k,
    decreases k,
{
    if n >= 4 {
        if k == 0 {
            assert(pow4(1) == 4 * pow4(0));
        } else {
            assert(pow4(k + 1) == 4 * pow4(k));
            assert(n / 4 < pow4(k));
            lemma_log4_below(n / 4, (k - 1) as nat);
        }
    }
}

proof fn lemma_log4_step(n: nat)
    requires
        n >= 4,
    ensures
        log4_floor(n) == 1 + log4_floor(n / 4),
{
}

proof fn lemma_capacity_mono(a: nat, b: nat)
    requires
        a <= b,
    ensures
        capacity(a) <= capacity(b),
    decreases b,
{
    if a < b {
        lemma_capacity_mono(a, (b - 1) as nat);
    }
}

/// The number of slots of a tree of depth `depth`, or `None` where that
/// number does not fit a `usize`.
pub fn capacity_of(depth: u32) -> (r: Option<usize>)
    ensures
        r is Some <==> capacity(depth as nat) <= usize::MAX,
        r matches Some(c) ==> c == capacity(depth as nat),
{
    let mut cap: usize = 1;
    let mut d: u32 = 0;
    while d < depth
        invariant
            d <= depth,
            cap == capacity(d as nat),
        decreases depth - d,
    {
        if cap > (usize::MAX - 1) / 4 {
            proof {
                lemma_capacity_mono((d + 1) as nat, depth as nat);
            }
            return None;
        }
        cap = 4 * cap + 1;
        d = d + 1;
    }
    Some(cap)
}

} // verus!
