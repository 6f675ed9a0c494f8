//! Brush edits of the voxel tree: the overlap test between a voxel and a
//! brush's integer bounds, and the rewrite of every voxel that a brush
//! reaches.

use crate::bounds::{
    child_bounds, digit, lemma_anc_zero, lemma_child_of_node, lemma_pow2_le_61, node_bounds, pow2_u64,
    Bounds, MIN_LG_SIZE,
};
use crate::voxel_tree::{leaf_at, shaped, Branches, TreeBody};
use vstd::arithmetic::power2::pow2;
use vstd::prelude::*;

verus! {

/// A point with integer world coordinates.
#[derive(Debug, Clone, Copy, PartialEq, Eq, Structural)]
pub struct Point {
    pub x: i32,
    pub y: i32,
    pub z: i32,
}

/// The half-open box `[low, high)` that encloses everything a brush can
/// change.
#[derive(Debug, Clone, Copy, PartialEq, Eq, Structural)]
pub struct BrushBounds {
    pub low: Point,
    pub high: Point,
}

/// The surface part of a voxel that straddles the implicit surface.
#[derive(Debug, PartialEq)]
pub struct SurfaceVoxel<G> {
    /// The in-voxel vertex and its normal.
    pub surface: G,
    /// Whether the voxel's low corner is inside the solid region.
    pub corner_inside_surface: bool,
}

/// A voxel: wholly inside (`Volume(true)`) or outside (`Volume(false)`)
/// the solid, or crossed by its surface.
#[derive(Debug, PartialEq)]
pub enum Voxel<G> {
    Volume(bool),
    Surface(SurfaceVoxel<G>),
}

/// A brush stroke that carves the solid away. Implementations supply the
/// brush's geometry; `surface_in` and `holds_corner` name what they compute.
pub trait Brush<G> {
    /// The brush's surface (in-voxel vertex and normal) within `bounds`.
    spec fn surface_in(&self, bounds: Bounds) -> G;

    /// Whether the brush's region holds the low corner of `bounds`.
    spec fn holds_corner(&self, bounds: Bounds) -> bool;

    /// The brush's surface within the voxel `bounds`.
    fn vertex_in(&self, bounds: &Bounds) -> (r: G)
        ensures
            r == self.surface_in(*bounds),
    ;

    /// Whether the brush's region holds the low corner of `bounds`.
    fn contains_corner(&self, bounds: &Bounds) -> (r: bool)
        ensures
            r == self.holds_corner(*bounds),
    ;
}

/// Whether the voxel's low corner is solid.
pub open spec fn solid<G>(v: Voxel<G>) -> bool {
    match v {
        Voxel::Volume(b) => b,
        Voxel::Surface(s) => s.corner_inside_surface,
    }
}

/// On one axis, the voxel interval `[c, c + 1) * 2^lg` meets `[lo, hi)`.
/// For sub-unit voxels both sides are scaled by `2^-lg` instead.
pub open spec fn axis_overlaps(c: int, lg: int, lo: int, hi: int) -> bool {
    if lg >= 0 {
        let s = pow2(lg as nat) as int;
        c * s < hi && lo < (c + 1) * s
    } else {
        let s = pow2((-lg) as nat) as int;
        c < hi * s && lo * s <= c
    }
}

/// The voxel's cube meets the brush's box.
pub open spec fn overlaps(v: Bounds, b: BrushBounds) -> bool {
    &&& axis_overlaps(v.x as int, v.lg_size as int, b.low.x as int, b.high.x as int)
    &&& axis_overlaps(v.y as int, v.lg_size as int, b.low.y as int, b.high.y as int)
    &&& axis_overlaps(v.z as int, v.lg_size as int, b.low.z as int, b.high.z as int)
}

/// `c * s`, exactly.
fn scale(c: i32, s: u64) -> (r: i128)
    requires
        s <= 0x2000_0000_0000_0000,
    ensures
        r == c * s,
{
    proof {
        assert(-0x1_0000_0000_0000_0000_0000_0000 <= (c as int) * (s as int) <= 0x1_0000_0000_0000_0000_0000_0000)
            by (nonlinear_arith)
            requires
                i32::MIN <= c <= i32::MAX,
                0 <= s <= 0x2000_0000_0000_0000,
        ;
    }
    (c as i128) * (s as i128)
}

/// Does the voxel's cube meet the brush's box?
pub fn brush_overlaps(voxel: &Bounds, brush: &BrushBounds) -> (r: bool)
    requires
        MIN_LG_SIZE <= voxel.lg_size <= 61,
    ensures
        r == overlaps(*voxel, *brush),
{
    if voxel.lg_size >= 0 {
        proof {
            lemma_pow2_le_61(voxel.lg_size as nat);
        }
        let s = pow2_u64(voxel.lg_size as u32);
        let low_x = scale(voxel.x, s);
        let low_y = scale(voxel.y, s);
        let low_z = scale(voxel.z, s);
        proof {
            assert((voxel.x as int + 1) * s == voxel.x * s + s) by (nonlinear_arith);
            assert((voxel.y as int + 1) * s == voxel.y * s + s) by (nonlinear_arith);
            assert((voxel.z as int + 1) * s == voxel.z * s + s) by (nonlinear_arith);
        }
        low_x < brush.high.x as i128 && low_y < brush.high.y as i128 && low_z < brush.high.z as i128
            && (brush.low.x as i128) < low_x + s as i128 && (brush.low.y as i128) < low_y
            + s as i128 && (brush.low.z as i128) < low_z + s as i128
    } else {
        proof {
            lemma_pow2_le_61((-voxel.lg_size) as nat);
        }
        let s = pow2_u64((-voxel.lg_size) as u32);
        let high_x = scale(brush.high.x, s);
        let high_y = scale(brush.high.y, s);
        let high_z = scale(brush.high.z, s);
        let low_x = scale(brush.low.x, s);
        let low_y = scale(brush.low.y, s);
        let low_z = scale(brush.low.z, s);
        (voxel.x as i128) < high_x && (voxel.y as i128) < high_y && (voxel.z as i128) < high_z
            && low_x <= voxel.x as i128 && low_y <= voxel.y as i128 && low_z <= voxel.z as i128
    }
}

/// `after` is `before` once a brush with box `bb` has passed over it; `b`
/// is the node's cube. Nodes outside the box, empty nodes and empty
/// volumes stay as they were; branches keep their shape; every other leaf
/// becomes a surface voxel on the brush's surface, whose low corner is
/// solid only if it was solid before and the brush does not hold it.
pub open spec fn brushed<G, B: Brush<G>>(
    before: TreeBody<Voxel<G>>,
    after: TreeBody<Voxel<G>>,
    b: Bounds,
    bb: BrushBounds,
    brush: B,
) -> bool
    decreases before,
{
    if !overlaps(b, bb) {
        after == before
    } else {
        match before {
            TreeBody::Branch(bs) => match after {
                TreeBody::Branch(nbs) => {
                    &&& brushed(bs.lll, nbs.lll, child_bounds(b, 0, 0, 0), bb, brush)
                    &&& brushed(bs.llh, nbs.llh, child_bounds(b, 0, 0, 1), bb, brush)
                    &&& brushed(bs.lhl, nbs.lhl, child_bounds(b, 0, 1, 0), bb, brush)
                    &&& brushed(bs.lhh, nbs.lhh, child_bounds(b, 0, 1, 1), bb, brush)
                    &&& brushed(bs.hll, nbs.hll, child_bounds(b, 1, 0, 0), bb, brush)
                    &&& brushed(bs.hlh, nbs.hlh, child_bounds(b, 1, 0, 1), bb, brush)
                    &&& brushed(bs.hhl, nbs.hhl, child_bounds(b, 1, 1, 0), bb, brush)
                    &&& brushed(bs.hhh, nbs.hhh, child_bounds(b, 1, 1, 1), bb, brush)
                },
                _ => false,
            },
            TreeBody::Leaf(v) => match v {
                Voxel::Volume(false) => after == before,
                _ => after == TreeBody::Leaf(
                    Voxel::Surface(
                        SurfaceVoxel {
                            surface: brush.surface_in(b),
                            corner_inside_surface: solid(v) && !brush.holds_corner(b),
                        },
                    ),
                ),
            },
            TreeBody::Empty => after == before,
        }
    }
}

/// The children of a brushed branch are brushed.
pub proof fn lemma_brushed_child<G, B: Brush<G>>(
    bs: Branches<Voxel<G>>,
    nbs: Branches<Voxel<G>>,
    b: Bounds,
    bb: BrushBounds,
    brush: B,
    i: int,
    j: int,
    k: int,
)
    requires
        overlaps(b, bb),
        brushed(TreeBody::Branch(Box::new(bs)), TreeBody::Branch(Box::new(nbs)), b, bb, brush),
        0 <= i < 2,
        0 <= j < 2,
        0 <= k < 2,
    ensures
        brushed(bs.child(i, j, k), nbs.child(i, j, k), child_bounds(b, i, j, k), bb, brush),
{
}

/// Along the chain of cubes that enclose `t`, from the node `d` levels
/// above it: a brush leaves `t` alone if its box misses `t`, never adds
/// or drops a voxel at `t`, and never makes `t`'s low corner solid.
pub proof fn lemma_brushed_leaf<G, B: Brush<G>>(
    before: TreeBody<Voxel<G>>,
    after: TreeBody<Voxel<G>>,
    d: nat,
    t: Bounds,
    bb: BrushBounds,
    brush: B,
)
    requires
        t.valid(),
        d <= 61,
        brushed(before, after, node_bounds(t, d), bb, brush),
    ensures
        !overlaps(t, bb) ==> leaf_at(after, d, t) == leaf_at(before, d, t),
        leaf_at(after, d, t).is_some() == leaf_at(before, d, t).is_some(),
        (leaf_at(after, d, t).is_some() && solid(leaf_at(after, d, t).unwrap())) ==> solid(
            leaf_at(before, d, t).unwrap(),
        ),
    decreases d,
{
    lemma_anc_zero(t.x as int);
    lemma_anc_zero(t.y as int);
    lemma_anc_zero(t.z as int);
    assert(node_bounds(t, 0) == t);
    if d > 0 && overlaps(node_bounds(t, d), bb) {
        if let TreeBody::Branch(bs) = before {
            let nbs = match after {
                TreeBody::Branch(n) => *n,
                _ => Branches::vacant(),
            };
            let e = (d - 1) as nat;
            let i = digit(t.x as int, e);
            let j = digit(t.y as int, e);
            let k = digit(t.z as int, e);
            lemma_child_of_node(t, d);
            crate::bounds::lemma_anc_step(t.x as int, e);
            crate::bounds::lemma_anc_step(t.y as int, e);
            crate::bounds::lemma_anc_step(t.z as int, e);
            lemma_brushed_child(*bs, nbs, node_bounds(t, d), bb, brush, i, j, k);
            lemma_brushed_leaf(bs.child(i, j, k), nbs.child(i, j, k), e, t, bb, brush);
        }
    }
}

impl<G> TreeBody<Voxel<G>> {
    /// Pass the brush over this node, whose cube is `bounds`: every solid or
    /// surface leaf within the brush's box becomes a surface voxel on the
    /// brush's surface, whose low corner stays solid only where the brush
    /// does not hold it.
    pub fn remove<B: Brush<G>>(&mut self, bounds: &Bounds, brush: &B, brush_bounds: &BrushBounds)
        requires
            shaped(*old(self), *bounds),
            MIN_LG_SIZE <= bounds.lg_size <= 61,
        ensures
            brushed(*old(self), *final(self), *bounds, *brush_bounds, *brush),
            shaped(*final(self), *bounds),
        decreases *old(self),
    {
        if !brush_overlaps(bounds, brush_bounds) {
            return;
        }
        let corner: Option<bool> = match self {
            TreeBody::Branch(b) => {
                let bs: &mut Branches<Voxel<G>> = &mut **b;
                let lg = bounds.lg_size - 1;
                let x = 2 * bounds.x;
                let y = 2 * bounds.y;
                let z = 2 * bounds.z;
                bs.lll.remove(&Bounds::new(x, y, z, lg), brush, brush_bounds);
                bs.llh.remove(&Bounds::new(x, y, z + 1, lg), brush, brush_bounds);
                bs.lhl.remove(&Bounds::new(x, y + 1, z, lg), brush, brush_bounds);
                bs.lhh.remove(&Bounds::new(x, y + 1, z + 1, lg), brush, brush_bounds);
                bs.hll.remove(&Bounds::new(x + 1, y, z, lg), brush, brush_bounds);
                bs.hlh.remove(&Bounds::new(x + 1, y, z + 1, lg), brush, brush_bounds);
                bs.hhl.remove(&Bounds::new(x + 1, y + 1, z, lg), brush, brush_bounds);
                bs.hhh.remove(&Bounds::new(x + 1, y + 1, z + 1, lg), brush, brush_bounds);
                None
            },
            TreeBody::Empty => None,
            TreeBody::Leaf(Voxel::Volume(inside)) => if *inside {
                Some(true)
            } else {
                None
            },
            TreeBody::Leaf(Voxel::Surface(v)) => Some(v.corner_inside_surface),
        };
        if let Some(corner) = corner {
            let surface = brush.vertex_in(bounds);
            let inside = brush.contains_corner(bounds);
            *self = TreeBody::Leaf(
                Voxel::Surface(SurfaceVoxel { surface, corner_inside_surface: corner && !inside }),
            );
        }
    }
}

} // verus!
