//! A sparse, origin-centred octree of voxels addressed by integer bounds.
//!
//! The tree spans `[-2^lg_size, 2^lg_size)` on each axis. Its top level is
//! always eight branches of side `2^lg_size`, whose bounds are
//! `(-1 or 0, -1 or 0, -1 or 0, lg_size)`. The children of a branch at
//! `(x, y, z, l)` are at `(2x + i, 2y + j, 2z + k, l - 1)`. A voxel at bounds
//! `t` is found by walking, from the top, the chain of cubes that enclose `t`.

use crate::bounds::{
    anc, digit, lemma_anc_anc, lemma_anc_near_origin, lemma_anc_step, lemma_anc_zero,
    lemma_i32_near_origin, lemma_offset_digit, lemma_offset_top, lemma_pow2_le_61, pow2_u64,
    child_bounds, lemma_anc_i32, lemma_child_of_node, node_bounds, Bounds, MIN_LG_SIZE,
};
use crate::brush::{brushed, overlaps, solid, Brush, BrushBounds, Voxel};
use vstd::arithmetic::power2::{lemma_pow2_strictly_increases, lemma_pow2_unfold, pow2};
use vstd::prelude::*;

verus! {

/// The largest extent exponent a tree grows to. Any valid voxel fits in a
/// tree of this size, since its coordinates are 32-bit.
pub const MAX_TREE_LG_SIZE: u8 = 46;

/// The recursive part of a `VoxelTree`.
#[derive(Debug, PartialEq, Eq)]
pub enum TreeBody<V> {
    Empty,
    Leaf(V),
    Branch(Box<Branches<V>>),
}

/// Eight children, in xyz order: `l` is the low half of an axis, `h` the
/// high half.
#[derive(Debug, PartialEq, Eq)]
pub struct Branches<V> {
    pub lll: TreeBody<V>,
    pub llh: TreeBody<V>,
    pub lhl: TreeBody<V>,
    pub lhh: TreeBody<V>,
    pub hll: TreeBody<V>,
    pub hlh: TreeBody<V>,
    pub hhl: TreeBody<V>,
    pub hhh: TreeBody<V>,
}

#[derive(Debug)]
pub struct VoxelTree<V> {
    /// The tree extends `2^lg_size` in each direction from the origin.
    lg_size: u8,
    /// The top level is always branches.
    contents: Branches<V>,
}

impl<V> Branches<V> {
    /// Eight empty children.
    pub open spec fn vacant() -> Branches<V> {
        Branches {
            lll: TreeBody::Empty,
            llh: TreeBody::Empty,
            lhl: TreeBody::Empty,
            lhh: TreeBody::Empty,
            hll: TreeBody::Empty,
            hlh: TreeBody::Empty,
            hhl: TreeBody::Empty,
            hhh: TreeBody::Empty,
        }
    }

    /// The child in half `i` of x, `j` of y and `k` of z.
    pub open spec fn child(self, i: int, j: int, k: int) -> TreeBody<V> {
        if i == 0 {
            if j == 0 {
                if k == 0 { self.lll } else { self.llh }
            } else {
                if k == 0 { self.lhl } else { self.lhh }
            }
        } else {
            if j == 0 {
                if k == 0 { self.hll } else { self.hlh }
            } else {
                if k == 0 { self.hhl } else { self.hhh }
            }
        }
    }

    /// These branches with child `(i, j, k)` replaced by `c`.
    pub open spec fn with_child(self, i: int, j: int, k: int, c: TreeBody<V>) -> Branches<V> {
        if i == 0 {
            if j == 0 {
                if k == 0 { Branches { lll: c, ..self } } else { Branches { llh: c, ..self } }
            } else {
                if k == 0 { Branches { lhl: c, ..self } } else { Branches { lhh: c, ..self } }
            }
        } else {
            if j == 0 {
                if k == 0 { Branches { hll: c, ..self } } else { Branches { hlh: c, ..self } }
            } else {
                if k == 0 { Branches { hhl: c, ..self } } else { Branches { hhh: c, ..self } }
            }
        }
    }

    pub fn empty() -> (r: Branches<V>)
        ensures
            r == Branches::<V>::vacant(),
    {
        Branches {
            lll: TreeBody::Empty,
            llh: TreeBody::Empty,
            lhl: TreeBody::Empty,
            lhh: TreeBody::Empty,
            hll: TreeBody::Empty,
            hlh: TreeBody::Empty,
            hhl: TreeBody::Empty,
            hhh: TreeBody::Empty,
        }
    }

    fn child_ref(&self, i: u64, j: u64, k: u64) -> (r: &TreeBody<V>)
        ensures
            *r == self.child(i as int, j as int, k as int),
    {
        if i == 0 {
            if j == 0 {
                if k == 0 { &self.lll } else { &self.llh }
            } else {
                if k == 0 { &self.lhl } else { &self.lhh }
            }
        } else {
            if j == 0 {
                if k == 0 { &self.hll } else { &self.hlh }
            } else {
                if k == 0 { &self.hhl } else { &self.hhh }
            }
        }
    }

    fn child_mut(&mut self, i: u64, j: u64, k: u64) -> (r: &mut TreeBody<V>)
        ensures
            *r == old(self).child(i as int, j as int, k as int),
            *final(self) == old(self).with_child(i as int, j as int, k as int, *final(r)),
    {
        if i == 0 {
            if j == 0 {
                if k == 0 { &mut self.lll } else { &mut self.llh }
            } else {
                if k == 0 { &mut self.lhl } else { &mut self.lhh }
            }
        } else {
            if j == 0 {
                if k == 0 { &mut self.hll } else { &mut self.hlh }
            } else {
                if k == 0 { &mut self.hhl } else { &mut self.hhh }
            }
        }
    }
}

/// The branches below a node; a node that is not a branch counts as eight
/// empty children.
pub open spec fn branches_of<V>(body: TreeBody<V>) -> Branches<V> {
    match body {
        TreeBody::Branch(b) => *b,
        _ => Branches::vacant(),
    }
}

/// The voxel stored exactly at `t`, looked up from `body`, the node `d`
/// levels above `t` on its chain of enclosing cubes.
pub open spec fn leaf_at<V>(body: TreeBody<V>, d: nat, t: Bounds) -> Option<V>
    decreases d,
{
    if d == 0 {
        match body {
            TreeBody::Leaf(v) => Some(v),
            _ => None,
        }
    } else {
        match body {
            TreeBody::Branch(b) => leaf_at(
                b.child(
                    digit(t.x as int, (d - 1) as nat),
                    digit(t.y as int, (d - 1) as nat),
                    digit(t.z as int, (d - 1) as nat),
                ),
                (d - 1) as nat,
                t,
            ),
            _ => None,
        }
    }
}

/// The node found at `t` by walking down from `body` (`d` levels above `t`)
/// and making a branch of every node on the way that is not one.
pub open spec fn slot<V>(body: TreeBody<V>, d: nat, t: Bounds) -> TreeBody<V>
    decreases d,
{
    if d == 0 {
        body
    } else {
        slot(
            branches_of(body).child(
                digit(t.x as int, (d - 1) as nat),
                digit(t.y as int, (d - 1) as nat),
                digit(t.z as int, (d - 1) as nat),
            ),
            (d - 1) as nat,
            t,
        )
    }
}

/// `body` after the walk of `slot` has put `s` at `t`.
pub open spec fn rewrite<V>(body: TreeBody<V>, d: nat, t: Bounds, s: TreeBody<V>) -> TreeBody<V>
    decreases d,
{
    if d == 0 {
        s
    } else {
        let i = digit(t.x as int, (d - 1) as nat);
        let j = digit(t.y as int, (d - 1) as nat);
        let k = digit(t.z as int, (d - 1) as nat);
        let b = branches_of(body);
        TreeBody::Branch(Box::new(b.with_child(i, j, k, rewrite(b.child(i, j, k), (d - 1) as nat, t, s))))
    }
}

/// Every branch at or below `body`, whose cube is `b`, has children whose
/// bounds are representable: above the finest size, and with 32-bit
/// coordinates.
pub open spec fn shaped<V>(body: TreeBody<V>, b: Bounds) -> bool
    decreases body,
{
    match body {
        TreeBody::Branch(bs) => {
            &&& b.lg_size > MIN_LG_SIZE
            &&& -0x4000_0000 <= b.x < 0x4000_0000
            &&& -0x4000_0000 <= b.y < 0x4000_0000
            &&& -0x4000_0000 <= b.z < 0x4000_0000
            &&& shaped(bs.lll, child_bounds(b, 0, 0, 0))
            &&& shaped(bs.llh, child_bounds(b, 0, 0, 1))
            &&& shaped(bs.lhl, child_bounds(b, 0, 1, 0))
            &&& shaped(bs.lhh, child_bounds(b, 0, 1, 1))
            &&& shaped(bs.hll, child_bounds(b, 1, 0, 0))
            &&& shaped(bs.hlh, child_bounds(b, 1, 0, 1))
            &&& shaped(bs.hhl, child_bounds(b, 1, 1, 0))
            &&& shaped(bs.hhh, child_bounds(b, 1, 1, 1))
        },
        _ => true,
    }
}

/// The cube of top-level branch `(i, j, k)` in a tree of extent exponent
/// `lg`.
pub open spec fn top_bounds(lg: int, i: int, j: int, k: int) -> Bounds {
    Bounds { x: (i - 1) as i32, y: (j - 1) as i32, z: (k - 1) as i32, lg_size: lg as i16 }
}

/// A tree with extent exponent `lg` spans the cube `t`.
pub open spec fn holds_at(lg: int, t: Bounds) -> bool {
    &&& t.lg_size <= lg
    &&& -1 <= anc(t.x as int, (lg - t.lg_size) as nat) <= 0
    &&& -1 <= anc(t.y as int, (lg - t.lg_size) as nat) <= 0
    &&& -1 <= anc(t.z as int, (lg - t.lg_size) as nat) <= 0
}

/// A fresh branch whose only non-empty child is `c`, at `(i, j, k)`.
pub open spec fn nest<V>(c: TreeBody<V>, i: int, j: int, k: int) -> TreeBody<V> {
    TreeBody::Branch(Box::new(Branches::vacant().with_child(i, j, k, c)))
}

impl<V> VoxelTree<V> {
    /// The tree's extent exponent.
    pub closed spec fn extent(self) -> int {
        self.lg_size as int
    }

    pub closed spec fn wf(self) -> bool {
        &&& self.lg_size <= MAX_TREE_LG_SIZE
        &&& forall|i: int, j: int, k: int|
            0 <= i < 2 && 0 <= j < 2 && 0 <= k < 2 ==> shaped(
                #[trigger] self.contents.child(i, j, k),
                top_bounds(self.lg_size as int, i, j, k),
            )
    }

    /// The tree spans the cube `t`.
    pub closed spec fn holds(self, t: Bounds) -> bool {
        holds_at(self.lg_size as int, t)
    }

    /// How many levels the top-level branch holding `t` is above `t`.
    closed spec fn depth(self, t: Bounds) -> nat {
        (self.lg_size - t.lg_size) as nat
    }

    /// The top-level branch whose cube encloses `t`.
    closed spec fn top(self, t: Bounds) -> TreeBody<V> {
        self.contents.child(
            anc(t.x as int, self.depth(t)) + 1,
            anc(t.y as int, self.depth(t)) + 1,
            anc(t.z as int, self.depth(t)) + 1,
        )
    }

    /// The voxel stored at exactly the bounds `t`, if any.
    pub closed spec fn lookup(self, t: Bounds) -> Option<V> {
        if self.holds(t) {
            leaf_at(self.top(t), self.depth(t), t)
        } else {
            None
        }
    }

    /// The node that `get_mut_or_create` hands out for `t`, in a tree that
    /// already spans `t`.
    pub closed spec fn slot_of(self, t: Bounds) -> TreeBody<V> {
        slot(self.top(t), self.depth(t), t)
    }

    /// The tree with `s` put at `t`, in a tree that already spans `t`.
    pub closed spec fn with_slot(self, t: Bounds, s: TreeBody<V>) -> VoxelTree<V> {
        let i = anc(t.x as int, self.depth(t)) + 1;
        let j = anc(t.y as int, self.depth(t)) + 1;
        let k = anc(t.z as int, self.depth(t)) + 1;
        VoxelTree {
            lg_size: self.lg_size,
            contents: self.contents.with_child(i, j, k, rewrite(self.top(t), self.depth(t), t, s)),
        }
    }

    /// The tree doubled once: each top-level branch moves to the opposite
    /// corner of a fresh branch of twice its size.
    pub closed spec fn grown(self) -> VoxelTree<V> {
        let c = self.contents;
        VoxelTree {
            lg_size: (self.lg_size + 1) as u8,
            contents: Branches {
                lll: nest(c.lll, 1, 1, 1),
                llh: nest(c.llh, 1, 1, 0),
                lhl: nest(c.lhl, 1, 0, 1),
                lhh: nest(c.lhh, 1, 0, 0),
                hll: nest(c.hll, 0, 1, 1),
                hlh: nest(c.hlh, 0, 1, 0),
                hhl: nest(c.hhl, 0, 0, 1),
                hhh: nest(c.hhh, 0, 0, 0),
            },
        }
    }

    /// The tree doubled until it spans `t`.
    pub closed spec fn grown_to(self, t: Bounds) -> VoxelTree<V>
        decreases MAX_TREE_LG_SIZE - self.extent(),
    {
        if self.lg_size >= MAX_TREE_LG_SIZE || self.holds(t) {
            self
        } else {
            self.grown().grown_to(t)
        }
    }
}

/// `c` shifted by `p` so that it is non-negative.
fn offset(c: i32, p: u64) -> (u: u64)
    requires
        p <= 0x2000_0000_0000_0000,
        -p <= c < p,
    ensures
        u == c + p,
{
    (c as i64 + p as i64) as u64
}

impl<V> VoxelTree<V> {
    pub fn new() -> (r: VoxelTree<V>)
        ensures
            r.wf(),
            r.extent() == 0,
            forall|t: Bounds| r.lookup(t).is_none(),
    {
        let r = VoxelTree { lg_size: 0, contents: Branches::empty() };
        assert forall|t: Bounds| r.lookup(t).is_none() by {
            if r.holds(t) {
                lemma_leaf_at_empty::<V>(r.depth(t), t);
            }
        }
        r
    }

    /// Is this voxel (non-strictly) within the origin-centred cube of
    /// width `2^(lg_size + 1)`? Sub-unit voxels are measured against the
    /// same extent as the others.
    pub fn contains_bounds(&self, voxel: &Bounds) -> (r: bool)
        requires
            self.wf(),
            voxel.valid(),
        ensures
            r == self.holds(*voxel),
            r == holds_at(self.extent(), *voxel),
    {
        let lg = self.lg_size as i16;
        if voxel.lg_size > lg {
            return false;
        }
        let d = (lg - voxel.lg_size) as u32;
        if d >= 31 {
            proof {
                lemma_i32_near_origin(voxel.x, d as nat);
                lemma_i32_near_origin(voxel.y, d as nat);
                lemma_i32_near_origin(voxel.z, d as nat);
            }
            return true;
        }
        let high = pow2_u64(d) as i64;
        proof {
            lemma_pow2_below_31(d as nat);
            lemma_anc_near_origin(voxel.x as int, d as nat);
            lemma_anc_near_origin(voxel.y as int, d as nat);
            lemma_anc_near_origin(voxel.z as int, d as nat);
        }
        let low = -high;
        if (voxel.x as i64) < low || (voxel.y as i64) < low || (voxel.z as i64) < low {
            return false;
        }
        (voxel.x as i64) < high && (voxel.y as i64) < high && (voxel.z as i64) < high
    }

    /// The width, `2^depth`, of the top-level branch that holds `voxel`,
    /// in units of the voxel's own size.
    fn find_mask(&self, voxel: &Bounds) -> (r: u64)
        requires
            self.wf(),
            voxel.valid(),
            self.holds(*voxel),
        ensures
            r == pow2(self.depth(*voxel)),
            r <= 0x2000_0000_0000_0000,
    {
        let d = (self.lg_size as i16 - voxel.lg_size) as u32;
        proof {
            lemma_pow2_le_61(d as nat);
        }
        pow2_u64(d)
    }

    /// The node at exactly `voxel`, if the chain of branches down to it
    /// exists.
    fn find(&self, voxel: &Bounds) -> (r: Option<&TreeBody<V>>)
        requires
            self.wf(),
            voxel.valid(),
            self.holds(*voxel),
        ensures
            match r {
                Some(n) => self.lookup(*voxel) == leaf_at(*n, 0, *voxel),
                None => self.lookup(*voxel).is_none(),
            },
    {
        let ghost t = *voxel;
        let ghost d = self.depth(t);
        let mask = self.find_mask(voxel);
        proof {
            lemma_anc_near_origin(t.x as int, d);
            lemma_anc_near_origin(t.y as int, d);
            lemma_anc_near_origin(t.z as int, d);
        }
        let ux = offset(voxel.x, mask);
        let uy = offset(voxel.y, mask);
        let uz = offset(voxel.z, mask);
        proof {
            lemma_offset_top(t.x as int, d);
            lemma_offset_top(t.y as int, d);
            lemma_offset_top(t.z as int, d);
        }
        let mut node = self.contents.child_ref(ux / mask, uy / mask, uz / mask);
        let mut m = mask;
        let ghost mut j: nat = d;
        while m > 1
            invariant
                m == pow2(j),
                j <= d,
                d == self.depth(t),
                t == *voxel,
                d <= 61,
                ux == t.x + pow2(d),
                uy == t.y + pow2(d),
                uz == t.z + pow2(d),
                leaf_at(self.top(t), d, t) == leaf_at(*node, j, t),
                self.lookup(t) == leaf_at(self.top(t), d, t),
            decreases j,
        {
            proof {
                vstd::arithmetic::power2::lemma2_to64();
                if j > 0 {
                    lemma_pow2_unfold(j);
                }
            }
            match node {
                TreeBody::Branch(b) => {
                    m = m / 2;
                    proof {
                        j = (j - 1) as nat;
                        lemma_offset_digit(t.x as int, d, j);
                        lemma_offset_digit(t.y as int, d, j);
                        lemma_offset_digit(t.z as int, d, j);
                    }
                    node = b.child_ref((ux / m) % 2, (uy / m) % 2, (uz / m) % 2);
                },
                _ => {
                    return None;
                },
            }
        }
        proof {
            if j > 0 {
                lemma_pow2_strictly_increases(0, j);
                vstd::arithmetic::power2::lemma2_to64();
            }
        }
        Some(node)
    }

    /// The voxel stored at exactly `voxel`. A voxel of another size at the
    /// same place is not found.
    pub fn get(&self, voxel: &Bounds) -> (r: Option<&V>)
        requires
            self.wf(),
            voxel.valid(),
        ensures
            match r {
                Some(v) => self.lookup(*voxel) == Some(*v),
                None => self.lookup(*voxel).is_none(),
            },
    {
        if !self.contains_bounds(voxel) {
            return None;
        }
        match self.find(voxel) {
            Some(TreeBody::Leaf(v)) => Some(v),
            _ => None,
        }
    }

    /// A fresh branch holding `c` at `(i, j, k)` and nothing else.
    fn nested(c: TreeBody<V>, i: u64, j: u64, k: u64) -> (r: TreeBody<V>)
        ensures
            r == nest(c, i as int, j as int, k as int),
    {
        let mut b = Branches::empty();
        *b.child_mut(i, j, k) = c;
        TreeBody::Branch(Box::new(b))
    }

    /// Ensure that this tree can hold the provided voxel: double the tree
    /// until it does, re-nesting each top-level branch in the opposite corner
    /// of a fresh branch so that the origin stays at the centre.
    pub fn grow_to_hold(&mut self, voxel: &Bounds)
        requires
            old(self).wf(),
            voxel.valid(),
        ensures
            *final(self) == old(self).grown_to(*voxel),
            final(self).wf(),
            final(self).holds(*voxel),
            holds_at(final(self).extent(), *voxel),
            forall|t: Bounds| t.valid() ==> #[trigger] final(self).lookup(t) == old(self).lookup(t),
    {
        proof {
            assert forall|t: Bounds| t.valid() implies #[trigger] old(self).grown_to(*voxel).lookup(t) == old(
                self,
            ).lookup(t) by {
                lemma_grown_to_transparent(*old(self), *voxel, t);
            }
        }
        while !self.contains_bounds(voxel)
            invariant
                self.wf(),
                voxel.valid(),
                self.grown_to(*voxel) == old(self).grown_to(*voxel),
            decreases MAX_TREE_LG_SIZE - self.lg_size,
        {
            proof {
                if self.lg_size as int - voxel.lg_size >= 31 {
                    lemma_i32_near_origin(voxel.x, (self.lg_size - voxel.lg_size) as nat);
                    lemma_i32_near_origin(voxel.y, (self.lg_size - voxel.lg_size) as nat);
                    lemma_i32_near_origin(voxel.z, (self.lg_size - voxel.lg_size) as nat);
                }
            }
            let ghost before = *self;
            proof {
                lemma_grown_wf(before);
            }
            let mut c = Branches::empty();
            std::mem::swap(&mut self.contents, &mut c);
            let Branches { lll, llh, lhl, lhh, hll, hlh, hhl, hhh } = c;
            self.lg_size = self.lg_size + 1;
            self.contents = Branches {
                lll: Self::nested(lll, 1, 1, 1),
                llh: Self::nested(llh, 1, 1, 0),
                lhl: Self::nested(lhl, 1, 0, 1),
                lhh: Self::nested(lhh, 1, 0, 0),
                hll: Self::nested(hll, 0, 1, 1),
                hlh: Self::nested(hlh, 0, 1, 0),
                hhl: Self::nested(hhl, 0, 0, 1),
                hhh: Self::nested(hhh, 0, 0, 0),
            };
            assert(*self == before.grown());
        }
    }

    /// Step down the tree: the branches below `branch`, made of it if it is
    /// not a branch already. A leaf met on the way is erased.
    fn get_mut_or_create_step(branch: &mut TreeBody<V>) -> (r: &mut Branches<V>)
        ensures
            *r == branches_of(*old(branch)),
            *final(branch) == TreeBody::Branch(Box::new(*final(r))),
    {
        match branch {
            TreeBody::Branch(b) => {
                return &mut **b;
            },
            _ => {},
        }
        *branch = TreeBody::Branch(Box::new(Branches::empty()));
        match branch {
            TreeBody::Branch(b) => &mut **b,
            _ => vstd::pervasive::unreached(),
        }
    }

    /// Walk `j` levels down from `node` towards `t`, creating branches on
    /// the way, and hand out the node reached. `ux`, `uy`, `uz` are `t`'s
    /// coordinates shifted by `2^d`, and `m` is `2^j`.
    fn find_mut<'a>(
        node: &'a mut TreeBody<V>,
        m: u64,
        ux: u64,
        uy: u64,
        uz: u64,
        Ghost(j): Ghost<nat>,
        Ghost(d): Ghost<nat>,
        Ghost(t): Ghost<Bounds>,
    ) -> (r: &'a mut TreeBody<V>)
        requires
            m == pow2(j),
            j <= d,
            ux == t.x + pow2(d),
            uy == t.y + pow2(d),
            uz == t.z + pow2(d),
        ensures
            *r == slot(*old(node), j, t),
            *final(node) == rewrite(*old(node), j, t, *final(r)),
        decreases j,
    {
        proof {
            vstd::arithmetic::power2::lemma2_to64();
            if j > 0 {
                lemma_pow2_unfold(j);
            }
        }
        if m <= 1 {
            proof {
                if j > 0 {
                    lemma_pow2_strictly_increases(0, j);
                }
            }
            return node;
        }
        let m2 = m / 2;
        let ghost j2 = (j - 1) as nat;
        proof {
            lemma_offset_digit(t.x as int, d, j2);
            lemma_offset_digit(t.y as int, d, j2);
            lemma_offset_digit(t.z as int, d, j2);
        }
        let b = Self::get_mut_or_create_step(node);
        let c = b.child_mut((ux / m2) % 2, (uy / m2) % 2, (uz / m2) % 2);
        Self::find_mut(c, m2, ux, uy, uz, Ghost(j2), Ghost(d), Ghost(t))
    }

    /// Find a voxel inside this tree, growing the tree and creating the
    /// branches down to it where they are missing. A leaf met on the way
    /// down is erased.
    pub fn get_mut_or_create(&mut self, voxel: &Bounds) -> (r: &mut TreeBody<V>)
        requires
            old(self).wf(),
            voxel.valid(),
        ensures
            old(self).grown_to(*voxel).holds(*voxel),
            *r == old(self).grown_to(*voxel).slot_of(*voxel),
            *final(self) == old(self).grown_to(*voxel).with_slot(*voxel, *final(r)),
            shaped(*final(r), *voxel) ==> final(self).wf(),
    {
        self.grow_to_hold(voxel);
        let ghost t = *voxel;
        let ghost d = self.depth(t);
        proof {
            let g = *self;
            assert forall|s: TreeBody<V>| shaped(s, t) implies #[trigger] g.with_slot(t, s).wf() by {
                lemma_with_slot_wf(g, t, s);
            }
        }
        let mask = self.find_mask(voxel);
        proof {
            lemma_anc_near_origin(t.x as int, d);
            lemma_anc_near_origin(t.y as int, d);
            lemma_anc_near_origin(t.z as int, d);
            lemma_offset_top(t.x as int, d);
            lemma_offset_top(t.y as int, d);
            lemma_offset_top(t.z as int, d);
        }
        let ux = offset(voxel.x, mask);
        let uy = offset(voxel.y, mask);
        let uz = offset(voxel.z, mask);
        let top = self.contents.child_mut(ux / mask, uy / mask, uz / mask);
        Self::find_mut(top, mask, ux, uy, uz, Ghost(d), Ghost(d), Ghost(t))
    }

    /// Walk `j` levels down from `node` towards `t` through existing
    /// branches only, and hand out the voxel found there.
    fn find_leaf_mut<'a>(
        node: &'a mut TreeBody<V>,
        m: u64,
        ux: u64,
        uy: u64,
        uz: u64,
        Ghost(j): Ghost<nat>,
        Ghost(d): Ghost<nat>,
        Ghost(t): Ghost<Bounds>,
    ) -> (r: Option<&'a mut V>)
        requires
            m == pow2(j),
            j <= d,
            ux == t.x + pow2(d),
            uy == t.y + pow2(d),
            uz == t.z + pow2(d),
        ensures
            match r {
                Some(v) => {
                    &&& leaf_at(*old(node), j, t) == Some(*v)
                    &&& *final(node) == rewrite(*old(node), j, t, TreeBody::Leaf(*final(v)))
                },
                None => {
                    &&& leaf_at(*old(node), j, t).is_none()
                    &&& *final(node) == *old(node)
                },
            },
        decreases j,
    {
        proof {
            vstd::arithmetic::power2::lemma2_to64();
            if j > 0 {
                lemma_pow2_unfold(j);
            }
        }
        if m <= 1 {
            proof {
                if j > 0 {
                    lemma_pow2_strictly_increases(0, j);
                }
            }
            return match node {
                TreeBody::Leaf(v) => Some(v),
                _ => None,
            };
        }
        let m2 = m / 2;
        let ghost j2 = (j - 1) as nat;
        proof {
            lemma_offset_digit(t.x as int, d, j2);
            lemma_offset_digit(t.y as int, d, j2);
            lemma_offset_digit(t.z as int, d, j2);
        }
        match node {
            TreeBody::Branch(b) => {
                let bs: &mut Branches<V> = &mut **b;
                let c = bs.child_mut((ux / m2) % 2, (uy / m2) % 2, (uz / m2) % 2);
                Self::find_leaf_mut(c, m2, ux, uy, uz, Ghost(j2), Ghost(d), Ghost(t))
            },
            _ => None,
        }
    }

    /// The voxel stored at exactly `voxel`, to change in place.
    pub fn get_mut(&mut self, voxel: &Bounds) -> (r: Option<&mut V>)
        requires
            old(self).wf(),
            voxel.valid(),
        ensures
            match r {
                Some(v) => {
                    &&& old(self).lookup(*voxel) == Some(*v)
                    &&& *final(self) == old(self).with_slot(*voxel, TreeBody::Leaf(*final(v)))
                },
                None => {
                    &&& old(self).lookup(*voxel).is_none()
                    &&& *final(self) == *old(self)
                },
            },
            final(self).wf(),
    {
        if !self.contains_bounds(voxel) {
            return None;
        }
        let ghost t = *voxel;
        let ghost d = self.depth(t);
        proof {
            let g = *self;
            assert forall|v: V| #[trigger] g.with_slot(t, TreeBody::Leaf(v)).wf() by {
                lemma_with_slot_wf(g, t, TreeBody::Leaf(v));
            }
        }
        let mask = self.find_mask(voxel);
        proof {
            lemma_anc_near_origin(t.x as int, d);
            lemma_anc_near_origin(t.y as int, d);
            lemma_anc_near_origin(t.z as int, d);
            lemma_offset_top(t.x as int, d);
            lemma_offset_top(t.y as int, d);
            lemma_offset_top(t.z as int, d);
        }
        let ux = offset(voxel.x, mask);
        let uy = offset(voxel.y, mask);
        let uz = offset(voxel.z, mask);
        let top = self.contents.child_mut(ux / mask, uy / mask, uz / mask);
        Self::find_leaf_mut(top, mask, ux, uy, uz, Ghost(d), Ghost(d), Ghost(t))
    }
}

impl<G> VoxelTree<Voxel<G>> {
    /// `self` is `before` once a brush with box `bb` has passed over it.
    pub closed spec fn brushed_from<B: Brush<G>>(self, before: VoxelTree<Voxel<G>>, bb: BrushBounds, brush: B) -> bool {
        &&& self.lg_size == before.lg_size
        &&& forall|i: int, j: int, k: int|
            0 <= i < 2 && 0 <= j < 2 && 0 <= k < 2 ==> brushed(
                #[trigger] before.contents.child(i, j, k),
                self.contents.child(i, j, k),
                top_bounds(self.lg_size as int, i, j, k),
                bb,
                brush,
            )
    }

    /// Pass the brush over the whole tree.
    pub fn remove<B: Brush<G>>(&mut self, brush: &B, brush_bounds: &BrushBounds)
        requires
            old(self).wf(),
        ensures
            final(self).wf(),
            final(self).brushed_from(*old(self), *brush_bounds, *brush),
    {
        let lg = self.lg_size as i16;
        let ghost before = *self;
        proof {
            assert(shaped(before.contents.child(0, 0, 0), top_bounds(lg as int, 0, 0, 0)));
            assert(shaped(before.contents.child(0, 0, 1), top_bounds(lg as int, 0, 0, 1)));
            assert(shaped(before.contents.child(0, 1, 0), top_bounds(lg as int, 0, 1, 0)));
            assert(shaped(before.contents.child(0, 1, 1), top_bounds(lg as int, 0, 1, 1)));
            assert(shaped(before.contents.child(1, 0, 0), top_bounds(lg as int, 1, 0, 0)));
            assert(shaped(before.contents.child(1, 0, 1), top_bounds(lg as int, 1, 0, 1)));
            assert(shaped(before.contents.child(1, 1, 0), top_bounds(lg as int, 1, 1, 0)));
            assert(shaped(before.contents.child(1, 1, 1), top_bounds(lg as int, 1, 1, 1)));
        }
        self.contents.lll.remove(&Bounds::new(-1, -1, -1, lg), brush, brush_bounds);
        self.contents.llh.remove(&Bounds::new(-1, -1, 0, lg), brush, brush_bounds);
        self.contents.lhl.remove(&Bounds::new(-1, 0, -1, lg), brush, brush_bounds);
        self.contents.lhh.remove(&Bounds::new(-1, 0, 0, lg), brush, brush_bounds);
        self.contents.hll.remove(&Bounds::new(0, -1, -1, lg), brush, brush_bounds);
        self.contents.hlh.remove(&Bounds::new(0, -1, 0, lg), brush, brush_bounds);
        self.contents.hhl.remove(&Bounds::new(0, 0, -1, lg), brush, brush_bounds);
        self.contents.hhh.remove(&Bounds::new(0, 0, 0, lg), brush, brush_bounds);
        proof {
            let after = *self;
            assert forall|i: int, j: int, k: int|
                0 <= i < 2 && 0 <= j < 2 && 0 <= k < 2 implies shaped(
                    #[trigger] after.contents.child(i, j, k),
                    top_bounds(lg as int, i, j, k),
                ) && brushed(before.contents.child(i, j, k), after.contents.child(i, j, k), top_bounds(lg as int, i, j, k), *brush_bounds, *brush) by {
            }
        }
    }
}

/// A brush stroke never makes a voxel's low corner solid, never adds or
/// drops a voxel, and leaves alone every voxel whose cube its box misses.
pub proof fn lemma_brush_monotone<G, B: Brush<G>>(
    before: VoxelTree<Voxel<G>>,
    after: VoxelTree<Voxel<G>>,
    bb: BrushBounds,
    brush: B,
    t: Bounds,
)
    requires
        before.wf(),
        after.brushed_from(before, bb, brush),
        t.valid(),
    ensures
        !overlaps(t, bb) ==> after.lookup(t) == before.lookup(t),
        after.lookup(t).is_some() == before.lookup(t).is_some(),
        (after.lookup(t).is_some() && solid(after.lookup(t).unwrap())) ==> solid(before.lookup(t).unwrap()),
{
    if before.holds(t) {
        let d = before.depth(t);
        let a = anc(t.x as int, d) + 1;
        let b = anc(t.y as int, d) + 1;
        let c = anc(t.z as int, d) + 1;
        lemma_anc_i32(t.x, d);
        lemma_anc_i32(t.y, d);
        lemma_anc_i32(t.z, d);
        assert(top_bounds(before.lg_size as int, a, b, c) == node_bounds(t, d));
        assert(brushed(before.contents.child(a, b, c), after.contents.child(a, b, c), node_bounds(t, d), bb, brush));
        crate::brush::lemma_brushed_leaf(before.top(t), after.top(t), d, t, bb, brush);
    }
}

/// An empty node holds no voxel at any depth below it.
pub proof fn lemma_leaf_at_empty<V>(d: nat, t: Bounds)
    ensures
        leaf_at(TreeBody::<V>::Empty, d, t).is_none(),
{
}

/// Writing a leaf and walking back down the same path finds that leaf.
proof fn lemma_rewrite_hit<V>(body: TreeBody<V>, d: nat, t: Bounds, v: V)
    ensures
        leaf_at(rewrite(body, d, t, TreeBody::Leaf(v)), d, t) == Some(v),
    decreases d,
{
    if d > 0 {
        let b = branches_of(body);
        let i = digit(t.x as int, (d - 1) as nat);
        let j = digit(t.y as int, (d - 1) as nat);
        let k = digit(t.z as int, (d - 1) as nat);
        lemma_anc_step(t.x as int, (d - 1) as nat);
        lemma_anc_step(t.y as int, (d - 1) as nat);
        lemma_anc_step(t.z as int, (d - 1) as nat);
        lemma_rewrite_hit(b.child(i, j, k), (d - 1) as nat, t, v);
    }
}

/// A write at `t` leaves alone the voxel at any `t2` apart from it. `body`
/// is the node `d` levels above `t` and `d2` levels above `t2`.
proof fn lemma_rewrite_apart<V>(body: TreeBody<V>, d: nat, d2: nat, t: Bounds, t2: Bounds, s: TreeBody<V>)
    requires
        t.lg_size + d == t2.lg_size + d2,
        anc(t.x as int, d) == anc(t2.x as int, d2),
        anc(t.y as int, d) == anc(t2.y as int, d2),
        anc(t.z as int, d) == anc(t2.z as int, d2),
        t.apart(t2),
    ensures
        leaf_at(rewrite(body, d, t, s), d2, t2) == leaf_at(body, d2, t2),
    decreases d2,
{
    lemma_anc_zero(t.x as int);
    lemma_anc_zero(t.y as int);
    lemma_anc_zero(t.z as int);
    lemma_anc_zero(t2.x as int);
    lemma_anc_zero(t2.y as int);
    lemma_anc_zero(t2.z as int);
    if d2 == 0 {
        assert(t2.encloses(t));
    } else if d == 0 {
        assert(t.encloses(t2));
    } else {
        let e = (d - 1) as nat;
        let e2 = (d2 - 1) as nat;
        lemma_anc_step(t.x as int, e);
        lemma_anc_step(t.y as int, e);
        lemma_anc_step(t.z as int, e);
        lemma_anc_step(t2.x as int, e2);
        lemma_anc_step(t2.y as int, e2);
        lemma_anc_step(t2.z as int, e2);
        let b = branches_of(body);
        let i = digit(t.x as int, e);
        let j = digit(t.y as int, e);
        let k = digit(t.z as int, e);
        let i2 = digit(t2.x as int, e2);
        let j2 = digit(t2.y as int, e2);
        let k2 = digit(t2.z as int, e2);
        if i == i2 && j == j2 && k == k2 {
            lemma_rewrite_apart(b.child(i, j, k), e, e2, t, t2, s);
        } else {
            lemma_leaf_at_empty::<V>(e2, t2);
        }
    }
}

/// A write at `t` leaves no voxel at a cube `t2` strictly enclosing it.
proof fn lemma_rewrite_above<V>(body: TreeBody<V>, d: nat, d2: nat, t: Bounds, t2: Bounds, s: TreeBody<V>)
    requires
        t.lg_size + d == t2.lg_size + d2,
        t2.encloses(t),
        t2.lg_size > t.lg_size,
    ensures
        leaf_at(rewrite(body, d, t, s), d2, t2).is_none(),
    decreases d2,
{
    if d2 > 0 {
        let e = (t2.lg_size - t.lg_size) as nat;
        let e2 = (d2 - 1) as nat;
        lemma_anc_anc(t.x as int, e2, e);
        lemma_anc_anc(t.y as int, e2, e);
        lemma_anc_anc(t.z as int, e2, e);
        assert(e2 + e == d - 1);
        let b = branches_of(body);
        let i = digit(t.x as int, (d - 1) as nat);
        let j = digit(t.y as int, (d - 1) as nat);
        let k = digit(t.z as int, (d - 1) as nat);
        lemma_rewrite_above(b.child(i, j, k), (d - 1) as nat, e2, t, t2, s);
    }
}

/// A leaf written at `t` leaves no voxel at a cube `t2` strictly inside it.
proof fn lemma_rewrite_below<V>(body: TreeBody<V>, d: nat, d2: nat, t: Bounds, t2: Bounds, v: V)
    requires
        t.lg_size + d == t2.lg_size + d2,
        t.encloses(t2),
        t.lg_size > t2.lg_size,
    ensures
        leaf_at(rewrite(body, d, t, TreeBody::Leaf(v)), d2, t2).is_none(),
    decreases d,
{
    if d > 0 {
        let e = (t.lg_size - t2.lg_size) as nat;
        let e1 = (d - 1) as nat;
        lemma_anc_anc(t2.x as int, e1, e);
        lemma_anc_anc(t2.y as int, e1, e);
        lemma_anc_anc(t2.z as int, e1, e);
        assert(e1 + e == d2 - 1);
        let b = branches_of(body);
        let i = digit(t.x as int, e1);
        let j = digit(t.y as int, e1);
        let k = digit(t.z as int, e1);
        lemma_rewrite_below(b.child(i, j, k), e1, (d2 - 1) as nat, t, t2, v);
    }
}

/// Writing a leaf `v` at `t` into a tree that spans `t`: `t` then reads
/// `v`; every cube apart from `t` reads as before; every other cube that
/// holds `t` or lies inside it reads nothing.
pub proof fn lemma_with_leaf<V>(tree: VoxelTree<V>, t: Bounds, v: V, t2: Bounds)
    requires
        tree.wf(),
        tree.holds(t),
        t.valid(),
        t2.valid(),
    ensures
        tree.with_slot(t, TreeBody::Leaf(v)).lookup(t) == Some(v),
        t2.apart(t) ==> tree.with_slot(t, TreeBody::Leaf(v)).lookup(t2) == tree.lookup(t2),
        (t2 != t && (t2.encloses(t) || t.encloses(t2))) ==> tree.with_slot(t, TreeBody::Leaf(v)).lookup(t2).is_none(),
{
    let after = tree.with_slot(t, TreeBody::Leaf(v));
    let d = tree.depth(t);
    lemma_rewrite_hit(tree.top(t), d, t, v);
    if tree.holds(t2) {
        let d2 = tree.depth(t2);
        let same_top = anc(t.x as int, d) == anc(t2.x as int, d2) && anc(t.y as int, d) == anc(
            t2.y as int,
            d2,
        ) && anc(t.z as int, d) == anc(t2.z as int, d2);
        if t2.encloses(t) {
            let e = (t2.lg_size - t.lg_size) as nat;
            lemma_anc_anc(t.x as int, d2, e);
            lemma_anc_anc(t.y as int, d2, e);
            lemma_anc_anc(t.z as int, d2, e);
            assert(same_top);
        }
        if t.encloses(t2) {
            let e = (t.lg_size - t2.lg_size) as nat;
            lemma_anc_anc(t2.x as int, d, e);
            lemma_anc_anc(t2.y as int, d, e);
            lemma_anc_anc(t2.z as int, d, e);
            assert(same_top);
        }
        if same_top {
            assert(after.top(t2) == rewrite(tree.top(t), d, t, TreeBody::Leaf(v)));
            if t2.apart(t) {
                lemma_rewrite_apart(tree.top(t), d, d2, t, t2, TreeBody::Leaf(v));
            } else if t2 != t {
                lemma_anc_zero(t.x as int);
                lemma_anc_zero(t.y as int);
                lemma_anc_zero(t.z as int);
                lemma_anc_zero(t2.x as int);
                lemma_anc_zero(t2.y as int);
                lemma_anc_zero(t2.z as int);
                if t2.encloses(t) {
                    lemma_rewrite_above(tree.top(t), d, d2, t, t2, TreeBody::Leaf(v));
                } else {
                    lemma_rewrite_below(tree.top(t), d, d2, t, t2, v);
                }
            }
        } else {
            assert(after.top(t2) == tree.top(t2));
        }
    }
}

/// Doubling the tree once changes no lookup.
pub proof fn lemma_grown_transparent<V>(tree: VoxelTree<V>, t: Bounds)
    requires
        tree.wf(),
        tree.extent() < MAX_TREE_LG_SIZE,
        t.valid(),
    ensures
        tree.grown().wf(),
        tree.grown().lookup(t) == tree.lookup(t),
{
    let g = tree.grown();
    let lg = tree.lg_size as int;
    lemma_grown_wf(tree);
    if t.lg_size <= lg {
        let d = (lg - t.lg_size) as nat;
        assert(g.depth(t) == d + 1);
        lemma_anc_step(t.x as int, d);
        lemma_anc_step(t.y as int, d);
        lemma_anc_step(t.z as int, d);
        if g.holds(t) {
            let a = anc(t.x as int, d + 1);
            let b = anc(t.y as int, d + 1);
            let c = anc(t.z as int, d + 1);
            let old_child = tree.contents.child(a + 1, b + 1, c + 1);
            assert(g.top(t) == nest(old_child, -a, -b, -c));
            let di = digit(t.x as int, d);
            let dj = digit(t.y as int, d);
            let dk = digit(t.z as int, d);
            if di == -a && dj == -b && dk == -c {
                assert(tree.holds(t));
                assert(tree.top(t) == old_child);
            } else {
                lemma_leaf_at_empty::<V>(d, t);
                assert(!tree.holds(t));
            }
        } else {
            assert(!tree.holds(t));
        }
    } else if g.holds(t) {
        assert(g.depth(t) == 0);
    }
}

/// Growing the tree to span any cube changes no lookup.
pub proof fn lemma_grown_to_transparent<V>(tree: VoxelTree<V>, t: Bounds, t2: Bounds)
    requires
        tree.wf(),
        t.valid(),
        t2.valid(),
    ensures
        tree.grown_to(t).wf(),
        tree.grown_to(t).lookup(t2) == tree.lookup(t2),
    decreases MAX_TREE_LG_SIZE - tree.extent(),
{
    if !(tree.lg_size >= MAX_TREE_LG_SIZE || tree.holds(t)) {
        lemma_grown_transparent(tree, t2);
        lemma_grown_to_transparent(tree.grown(), t, t2);
    }
}

/// A tree grown to span `t` does span it.
pub proof fn lemma_grown_to_holds<V>(tree: VoxelTree<V>, t: Bounds)
    requires
        tree.wf(),
        t.valid(),
    ensures
        tree.grown_to(t).holds(t),
    decreases MAX_TREE_LG_SIZE - tree.extent(),
{
    if tree.lg_size >= MAX_TREE_LG_SIZE {
        let d = (tree.lg_size - t.lg_size) as nat;
        lemma_i32_near_origin(t.x, d);
        lemma_i32_near_origin(t.y, d);
        lemma_i32_near_origin(t.z, d);
    } else if !tree.holds(t) {
        lemma_grown_wf(tree);
        lemma_grown_to_holds(tree.grown(), t);
    }
}

impl<V> VoxelTree<V> {
    /// The tree after `*tree.get_mut_or_create(&t) = TreeBody::Leaf(v)`.
    pub open spec fn with_leaf(self, t: Bounds, v: V) -> VoxelTree<V> {
        self.grown_to(t).with_slot(t, TreeBody::Leaf(v))
    }

    /// The tree after each write of `writes`, in order.
    pub open spec fn with_leaves(self, writes: Seq<(Bounds, V)>) -> VoxelTree<V>
        decreases writes.len(),
    {
        if writes.len() == 0 {
            self
        } else {
            let last = writes.last();
            self.with_leaves(writes.drop_last()).with_leaf(last.0, last.1)
        }
    }
}

/// What a lookup at `t` reads after `writes` into a tree that held nothing:
/// the last write at exactly `t`, unless a later write went to a cube that
/// holds `t` or lies inside it.
pub open spec fn last_write<V>(writes: Seq<(Bounds, V)>, t: Bounds) -> Option<V>
    decreases writes.len(),
{
    if writes.len() == 0 {
        None
    } else {
        let last = writes.last();
        if last.0 == t {
            Some(last.1)
        } else if last.0.apart(t) {
            last_write(writes.drop_last(), t)
        } else {
            None
        }
    }
}

/// Writing leaf `v` at `t` with `get_mut_or_create`: `t` then reads `v`,
/// cubes apart from `t` read as before, and the other cubes that hold `t`
/// or lie inside it read nothing.
pub proof fn lemma_write_then_read<V>(tree: VoxelTree<V>, t: Bounds, v: V, t2: Bounds)
    requires
        tree.wf(),
        t.valid(),
        t2.valid(),
    ensures
        tree.with_leaf(t, v).wf(),
        tree.with_leaf(t, v).lookup(t) == Some(v),
        t2.apart(t) ==> tree.with_leaf(t, v).lookup(t2) == tree.lookup(t2),
        (t2 != t && (t2.encloses(t) || t.encloses(t2))) ==> tree.with_leaf(t, v).lookup(t2).is_none(),
{
    lemma_grown_to_transparent(tree, t, t2);
    lemma_grown_to_holds(tree, t);
    lemma_with_leaf(tree.grown_to(t), t, v, t2);
    lemma_with_slot_wf(tree.grown_to(t), t, TreeBody::Leaf(v));
}

/// Round trip: after any sequence of leaf writes into a tree that held
/// nothing, every lookup reads the last write at exactly its bounds, or
/// nothing if a later write went to a cube that holds it or lies inside it.
pub proof fn lemma_round_trip<V>(tree: VoxelTree<V>, writes: Seq<(Bounds, V)>, t: Bounds)
    requires
        tree.wf(),
        forall|b: Bounds| tree.lookup(b).is_none(),
        forall|i: int| 0 <= i < writes.len() ==> (#[trigger] writes[i]).0.valid(),
        t.valid(),
    ensures
        tree.with_leaves(writes).wf(),
        tree.with_leaves(writes).lookup(t) == last_write(writes, t),
    decreases writes.len(),
{
    if writes.len() > 0 {
        let rest = writes.drop_last();
        let last = writes.last();
        assert(writes[writes.len() - 1] == last);
        assert forall|i: int| 0 <= i < rest.len() implies (#[trigger] rest[i]).0.valid() by {
            assert(rest[i] == writes[i]);
        }
        lemma_round_trip(tree, rest, t);
        lemma_write_then_read(tree.with_leaves(rest), last.0, last.1, t);
        if last.0 != t && !last.0.apart(t) {
            assert(t.encloses(last.0) || last.0.encloses(t));
        }
    }
}

/// The children of a shaped branch are shaped.
proof fn lemma_shaped_child<V>(bs: Branches<V>, b: Bounds, i: int, j: int, k: int)
    requires
        shaped(TreeBody::Branch(Box::new(bs)), b),
        0 <= i < 2,
        0 <= j < 2,
        0 <= k < 2,
    ensures
        shaped(bs.child(i, j, k), child_bounds(b, i, j, k)),
{
}

/// A branch is shaped when its cube allows children and each child is
/// shaped.
proof fn lemma_shaped_branch<V>(bs: Branches<V>, b: Bounds)
    requires
        b.lg_size > MIN_LG_SIZE,
        -0x4000_0000 <= b.x < 0x4000_0000,
        -0x4000_0000 <= b.y < 0x4000_0000,
        -0x4000_0000 <= b.z < 0x4000_0000,
        forall|i: int, j: int, k: int|
            0 <= i < 2 && 0 <= j < 2 && 0 <= k < 2 ==> shaped(
                #[trigger] bs.child(i, j, k),
                child_bounds(b, i, j, k),
            ),
    ensures
        shaped(TreeBody::Branch(Box::new(bs)), b),
{
    assert(shaped(bs.child(0, 0, 0), child_bounds(b, 0, 0, 0)));
    assert(shaped(bs.child(0, 0, 1), child_bounds(b, 0, 0, 1)));
    assert(shaped(bs.child(0, 1, 0), child_bounds(b, 0, 1, 0)));
    assert(shaped(bs.child(0, 1, 1), child_bounds(b, 0, 1, 1)));
    assert(shaped(bs.child(1, 0, 0), child_bounds(b, 1, 0, 0)));
    assert(shaped(bs.child(1, 0, 1), child_bounds(b, 1, 0, 1)));
    assert(shaped(bs.child(1, 1, 0), child_bounds(b, 1, 1, 0)));
    assert(shaped(bs.child(1, 1, 1), child_bounds(b, 1, 1, 1)));
}

/// Putting a shaped node on the chain of cubes that enclose `t` keeps the
/// node `d` levels above `t` shaped.
proof fn lemma_rewrite_shaped<V>(body: TreeBody<V>, d: nat, t: Bounds, s: TreeBody<V>)
    requires
        t.valid(),
        d <= 61,
        shaped(body, node_bounds(t, d)),
        shaped(s, t),
    ensures
        shaped(rewrite(body, d, t, s), node_bounds(t, d)),
    decreases d,
{
    lemma_anc_zero(t.x as int);
    lemma_anc_zero(t.y as int);
    lemma_anc_zero(t.z as int);
    if d > 0 {
        let e = (d - 1) as nat;
        let i = digit(t.x as int, e);
        let j = digit(t.y as int, e);
        let k = digit(t.z as int, e);
        let b = branches_of(body);
        lemma_child_of_node(t, d);
        lemma_anc_i32(t.x, d);
        lemma_anc_i32(t.y, d);
        lemma_anc_i32(t.z, d);
        lemma_anc_step(t.x as int, e);
        lemma_anc_step(t.y as int, e);
        lemma_anc_step(t.z as int, e);
        let nb = node_bounds(t, d);
        if body is Branch {
            lemma_shaped_child(b, nb, i, j, k);
        }
        lemma_rewrite_shaped(b.child(i, j, k), e, t, s);
        let nbs = b.with_child(i, j, k, rewrite(b.child(i, j, k), e, t, s));
        assert forall|i2: int, j2: int, k2: int|
            0 <= i2 < 2 && 0 <= j2 < 2 && 0 <= k2 < 2 implies shaped(
                #[trigger] nbs.child(i2, j2, k2),
                child_bounds(nb, i2, j2, k2),
            ) by {
            if i2 != i || j2 != j || k2 != k {
                assert(nbs.child(i2, j2, k2) == b.child(i2, j2, k2));
                if body is Branch {
                    lemma_shaped_child(b, nb, i2, j2, k2);
                }
            }
        }
        lemma_shaped_branch(nbs, nb);
    } else {
        assert(node_bounds(t, 0) == t);
    }
}

/// Putting a shaped node at `t` keeps the tree well formed.
proof fn lemma_with_slot_wf<V>(tree: VoxelTree<V>, t: Bounds, s: TreeBody<V>)
    requires
        tree.wf(),
        tree.holds(t),
        t.valid(),
        shaped(s, t),
    ensures
        tree.with_slot(t, s).wf(),
{
    let d = tree.depth(t);
    let a = anc(t.x as int, d) + 1;
    let b = anc(t.y as int, d) + 1;
    let c = anc(t.z as int, d) + 1;
    assert(top_bounds(tree.lg_size as int, a, b, c) == node_bounds(t, d));
    lemma_anc_i32(t.x, d);
    lemma_anc_i32(t.y, d);
    lemma_anc_i32(t.z, d);
    assert(shaped(tree.top(t), node_bounds(t, d)));
    lemma_rewrite_shaped(tree.top(t), d, t, s);
    let after = tree.with_slot(t, s);
    assert forall|i: int, j: int, k: int|
        0 <= i < 2 && 0 <= j < 2 && 0 <= k < 2 implies shaped(
            #[trigger] after.contents.child(i, j, k),
            top_bounds(after.lg_size as int, i, j, k),
        ) by {
        if i != a || j != b || k != c {
            assert(after.contents.child(i, j, k) == tree.contents.child(i, j, k));
        }
    }
}

/// Doubling a well-formed tree that has room to grow keeps it well formed.
proof fn lemma_grown_wf<V>(tree: VoxelTree<V>)
    requires
        tree.wf(),
        tree.extent() < MAX_TREE_LG_SIZE,
    ensures
        tree.grown().wf(),
{
    let g = tree.grown();
    let lg = tree.lg_size as int;
    assert forall|i: int, j: int, k: int|
        0 <= i < 2 && 0 <= j < 2 && 0 <= k < 2 implies shaped(
            #[trigger] g.contents.child(i, j, k),
            top_bounds(lg + 1, i, j, k),
        ) by {
        assert(child_bounds(top_bounds(lg + 1, i, j, k), 1 - i, 1 - j, 1 - k) == top_bounds(lg, i, j, k));
        assert(shaped(tree.contents.child(i, j, k), top_bounds(lg, i, j, k)));
        assert(g.contents.child(i, j, k) == nest(tree.contents.child(i, j, k), 1 - i, 1 - j, 1 - k));
        let nb = Branches::<V>::vacant().with_child(1 - i, 1 - j, 1 - k, tree.contents.child(i, j, k));
        let tb = top_bounds(lg + 1, i, j, k);
        assert forall|i2: int, j2: int, k2: int|
            0 <= i2 < 2 && 0 <= j2 < 2 && 0 <= k2 < 2 implies shaped(
                #[trigger] nb.child(i2, j2, k2),
                child_bounds(tb, i2, j2, k2),
            ) by {
            if i2 != 1 - i || j2 != 1 - j || k2 != 1 - k {
                assert(nb.child(i2, j2, k2) == TreeBody::<V>::Empty);
            }
        }
        lemma_shaped_branch(nb, tb);
    }
}

proof fn lemma_pow2_below_31(d: nat)
    requires
        d < 31,
    ensures
        pow2(d) < 0x8000_0000,
{
    vstd::arithmetic::power2::lemma2_to64();
    lemma_pow2_strictly_increases(d, 31);
}

} // verus!
