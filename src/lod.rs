//! Levels of detail, block positions and the distance-to-LOD table.

use vstd::prelude::*;

verus! {

/// A cube of side `BLOCK_WIDTH` in world units, in block units.
#[derive(Debug, Clone, Copy, PartialEq, Eq, Hash, Structural)]
pub struct BlockPosition {
    pub x: i32,
    pub y: i32,
    pub z: i32,
}

/// A mesh resolution; a larger index is a coarser mesh.
#[derive(Debug, Clone, Copy, PartialEq, Eq, Hash, Structural)]
pub struct LODIndex(pub u32);

/// A logical reason for a block to be loaded.
#[derive(Debug, Clone, Copy, PartialEq, Eq, Hash, Structural)]
pub struct OwnerId(pub u32);

/// A requested level of detail: a mesh, or the solid placeholder that is
/// installed while a mesh is generated.
#[derive(Debug, Clone, Copy, PartialEq, Eq, Structural)]
pub enum LOD {
    LodIndex(LODIndex),
    Placeholder,
}

/// Block radius up to which each LOD index applies, finest first.
pub const LOD_THRESHOLDS: [i32; 3] = [2, 16, 32];

/// The Chebyshev distance between two block positions.
pub open spec fn radius_spec(a: BlockPosition, b: BlockPosition) -> int {
    let dx = if a.x >= b.x { a.x - b.x } else { b.x - a.x };
    let dy = if a.y >= b.y { a.y - b.y } else { b.y - a.y };
    let dz = if a.z >= b.z { a.z - b.z } else { b.z - a.z };
    if dx >= dy && dx >= dz {
        dx
    } else if dy >= dz {
        dy
    } else {
        dz
    }
}

/// `i` is the LOD index for a block `distance` away: the first index whose
/// threshold is at least `distance`, or the table's length if there is
/// none.
pub open spec fn is_lod_index(distance: int, i: int) -> bool {
    &&& 0 <= i <= LOD_THRESHOLDS@.len()
    &&& forall|j: int| 0 <= j < i ==> LOD_THRESHOLDS@[j] < distance
    &&& i < LOD_THRESHOLDS@.len() ==> LOD_THRESHOLDS@[i] >= distance
}

/// The Chebyshev distance between two block positions.
pub fn radius_between(a: &BlockPosition, b: &BlockPosition) -> (r: i64)
    ensures
        r == radius_spec(*a, *b),
{
    let dx: i64 = if a.x >= b.x { a.x as i64 - b.x as i64 } else { b.x as i64 - a.x as i64 };
    let dy: i64 = if a.y >= b.y { a.y as i64 - b.y as i64 } else { b.y as i64 - a.y as i64 };
    let dz: i64 = if a.z >= b.z { a.z as i64 - b.z as i64 } else { b.z as i64 - a.z as i64 };
    if dx >= dy && dx >= dz {
        dx
    } else if dy >= dz {
        dy
    } else {
        dz
    }
}

/// The LOD index for a block `distance` away: the first whose threshold is
/// at least `distance`.
pub fn lod_index(distance: i32) -> (r: LODIndex)
    requires
        distance >= 0,
    ensures
        is_lod_index(distance as int, r.0 as int),
{
    let mut lod: usize = 0;
    while lod < 3 && LOD_THRESHOLDS[lod] < distance
        invariant
            lod <= 3,
            LOD_THRESHOLDS@.len() == 3,
            forall|j: int| 0 <= j < lod ==> LOD_THRESHOLDS@[j] < distance,
        decreases 3 - lod,
    {
        lod = lod + 1;
    }
    LODIndex(lod as u32)
}

} // verus!
