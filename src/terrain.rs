//! The terrain: the voxel tree and the cache of generated block meshes,
//! one per block and LOD.

use crate::bounds::Bounds;
use crate::brush::{brush_overlaps, overlaps, Brush, BrushBounds, Voxel};
use crate::lod::{BlockPosition, LODIndex};
use crate::voxel_tree::VoxelTree;
use vstd::prelude::*;

verus! {

/// Blocks are `2^LG_WIDTH` world units wide.
pub const LG_WIDTH: i16 = 3;

/// The voxel bounds of a block's cube.
pub open spec fn block_bounds(p: BlockPosition) -> Bounds {
    Bounds { x: p.x, y: p.y, z: p.z, lg_size: LG_WIDTH }
}

/// A block's meshes, indexed by LOD; `None` where none has been made.
pub struct MipMesh<T> {
    pub lods: Vec<Option<T>>,
}

/// `s` padded with `None` to hold index `i`.
pub open spec fn padded<T>(s: Seq<Option<T>>, i: int) -> Seq<Option<T>> {
    if i < s.len() {
        s
    } else {
        s + Seq::new((i + 1 - s.len()) as nat, |k: int| None::<T>)
    }
}

impl<T> MipMesh<T> {
    /// The mesh slot for LOD `i`, made (empty) if the list is too short.
    pub fn get_mut(&mut self, i: usize) -> (r: &mut Option<T>)
        requires
            i < usize::MAX,
        ensures
            *r == padded(old(self).lods@, i as int)[i as int],
            final(self).lods@ == padded(old(self).lods@, i as int).update(i as int, *final(r)),
    {
        let ghost s = self.lods@;
        while self.lods.len() <= i
            invariant
                i < usize::MAX,
                s.len() <= i ==> self.lods@ == s + Seq::new((self.lods@.len() - s.len()) as nat, |k: int| None::<T>),
                s.len() <= i ==> self.lods@.len() <= i + 1,
                s.len() > i ==> self.lods@ == s,
            decreases i + 1 - self.lods@.len(),
        {
            self.lods.push(None);
            assert(self.lods@ =~= s + Seq::new((self.lods@.len() - s.len()) as nat, |k: int| None::<T>));
        }
        assert(self.lods@ =~= padded(s, i as int));
        &mut self.lods[i]
    }
}

/// No block appears twice.
pub open spec fn blocks_unique<T>(s: Seq<(BlockPosition, MipMesh<T>)>) -> bool {
    forall|i: int, j: int| 0 <= i < j < s.len() ==> (#[trigger] s[i]).0 != (#[trigger] s[j]).0
}

/// The meshes recorded for block `p` in `s`.
pub open spec fn meshes_in<T>(s: Seq<(BlockPosition, MipMesh<T>)>, p: BlockPosition) -> Option<Seq<Option<T>>> {
    if exists|i: int| 0 <= i < s.len() && (#[trigger] s[i]).0 == p {
        let i = choose|i: int| 0 <= i < s.len() && (#[trigger] s[i]).0 == p;
        Some(s[i].1.lods@)
    } else {
        None
    }
}

/// The entry at `i` is the one recorded for its block.
proof fn lemma_meshes_at<T>(s: Seq<(BlockPosition, MipMesh<T>)>, i: int)
    requires
        blocks_unique(s),
        0 <= i < s.len(),
    ensures
        meshes_in(s, s[i].0) == Some(s[i].1.lods@),
{
    let p = s[i].0;
    let c = choose|j: int| 0 <= j < s.len() && (#[trigger] s[j]).0 == p;
    assert(0 <= c < s.len() && s[c].0 == p);
    if c < i {
        assert(s[c].0 != s[i].0);
    } else if c > i {
        assert(s[i].0 != s[c].0);
    }
}

/// Changing entry `i` in place, for the same block, changes only that
/// block's record.
proof fn lemma_meshes_update<T>(s: Seq<(BlockPosition, MipMesh<T>)>, i: int, x: (BlockPosition, MipMesh<T>), q: BlockPosition)
    requires
        blocks_unique(s),
        0 <= i < s.len(),
        x.0 == s[i].0,
    ensures
        blocks_unique(s.update(i, x)),
        q != x.0 ==> meshes_in(s.update(i, x), q) == meshes_in(s, q),
{
    let u = s.update(i, x);
    assert forall|a: int, b: int| 0 <= a < b < u.len() implies (#[trigger] u[a]).0 != (#[trigger] u[b]).0 by {
        assert(s[a].0 != s[b].0);
    }
    if q != x.0 {
        if exists|j: int| 0 <= j < s.len() && (#[trigger] s[j]).0 == q {
            let c1 = choose|j: int| 0 <= j < s.len() && (#[trigger] s[j]).0 == q;
            assert(u[c1] == s[c1]);
            let c2 = choose|j: int| 0 <= j < u.len() && (#[trigger] u[j]).0 == q;
            assert(u[c2] == s[c2]);
            if c1 < c2 {
                assert(s[c1].0 != s[c2].0);
            } else if c1 > c2 {
                assert(s[c2].0 != s[c1].0);
            }
        } else {
            assert forall|j: int| 0 <= j < u.len() implies (#[trigger] u[j]).0 != q by {
                if j != i {
                    assert(u[j] == s[j]);
                }
            }
        }
    }
}

/// Appending an entry for a block that has none.
proof fn lemma_meshes_push<T>(s: Seq<(BlockPosition, MipMesh<T>)>, x: (BlockPosition, MipMesh<T>), q: BlockPosition)
    requires
        blocks_unique(s),
        forall|j: int| 0 <= j < s.len() ==> (#[trigger] s[j]).0 != x.0,
    ensures
        blocks_unique(s.push(x)),
        q != x.0 ==> meshes_in(s.push(x), q) == meshes_in(s, q),
{
    let u = s.push(x);
    assert forall|a: int, b: int| 0 <= a < b < u.len() implies (#[trigger] u[a]).0 != (#[trigger] u[b]).0 by {
        if b < s.len() {
            assert(s[a].0 != s[b].0);
        } else {
            assert(u[a] == s[a]);
        }
    }
    if q != x.0 {
        if exists|j: int| 0 <= j < s.len() && (#[trigger] s[j]).0 == q {
            let c1 = choose|j: int| 0 <= j < s.len() && (#[trigger] s[j]).0 == q;
            assert(u[c1] == s[c1]);
            let c2 = choose|j: int| 0 <= j < u.len() && (#[trigger] u[j]).0 == q;
            assert(u[c2] == s[c2]);
            if c1 < c2 {
                assert(s[c1].0 != s[c2].0);
            } else if c1 > c2 {
                assert(s[c2].0 != s[c1].0);
            }
        } else {
            assert forall|j: int| 0 <= j < u.len() implies (#[trigger] u[j]).0 != q by {
                if j < s.len() {
                    assert(u[j] == s[j]);
                }
            }
        }
    }
}

/// The meshes of every block that has any, one entry per block.
pub struct MipMeshMap<T> {
    blocks: Vec<(BlockPosition, MipMesh<T>)>,
}

impl<T> MipMeshMap<T> {
    /// The meshes recorded for block `p`.
    pub closed spec fn meshes(self, p: BlockPosition) -> Option<Seq<Option<T>>> {
        meshes_in(self.blocks@, p)
    }

    pub closed spec fn wf(self) -> bool {
        blocks_unique(self.blocks@)
    }

    pub fn new() -> (r: MipMeshMap<T>)
        ensures
            r.wf(),
            forall|p: BlockPosition| r.meshes(p).is_none(),
    {
        MipMeshMap { blocks: Vec::new() }
    }

    /// Where block `p` is recorded.
    fn index_of(&self, p: &BlockPosition) -> (r: Option<usize>)
        requires
            self.wf(),
        ensures
            match r {
                Some(i) => i < self.blocks@.len() && self.blocks@[i as int].0 == *p,
                None => forall|j: int| 0 <= j < self.blocks@.len() ==> (#[trigger] self.blocks@[j]).0 != *p,
            },
    {
        let mut k: usize = 0;
        while k < self.blocks.len()
            invariant
                k <= self.blocks@.len(),
                forall|j: int| 0 <= j < k ==> (#[trigger] self.blocks@[j]).0 != *p,
            decreases self.blocks@.len() - k,
        {
            if self.blocks[k].0 == *p {
                return Some(k);
            }
            k = k + 1;
        }
        None
    }

    /// The meshes of block `position`, if it has any.
    pub fn get(&self, position: &BlockPosition) -> (r: Option<&MipMesh<T>>)
        requires
            self.wf(),
        ensures
            match r {
                Some(m) => self.meshes(*position) == Some(m.lods@),
                None => self.meshes(*position).is_none(),
            },
    {
        match self.index_of(position) {
            Some(i) => {
                proof {
                    lemma_meshes_at(self.blocks@, i as int);
                }
                Some(&self.blocks[i].1)
            },
            None => None,
        }
    }

    /// The meshes of block `position`, made (with none) if it has none.
    pub fn get_mut(&mut self, position: &BlockPosition) -> (r: &mut MipMesh<T>)
        requires
            old(self).wf(),
        ensures
            r.lods@ == match old(self).meshes(*position) {
                Some(m) => m,
                None => Seq::empty(),
            },
            final(self).wf(),
            final(self).meshes(*position) == Some(final(r).lods@),
            forall|q: BlockPosition| q != *position ==> #[trigger] final(self).meshes(q) == old(self).meshes(q),
    {
        let ghost s = self.blocks@;
        let i = match self.index_of(position) {
            Some(i) => {
                proof {
                    lemma_meshes_at(s, i as int);
                }
                i
            },
            None => {
                let x = (*position, MipMesh { lods: Vec::new() });
                proof {
                    assert forall|q: BlockPosition| q != *position implies #[trigger] meshes_in(s.push(x), q)
                        == meshes_in(s, q) by {
                        lemma_meshes_push(s, x, q);
                    }
                    lemma_meshes_push(s, x, *position);
                    assert(x.1.lods@ =~= Seq::<Option<T>>::empty());
                }
                let n = self.blocks.len();
                self.blocks.push(x);
                proof {
                    assert(self.blocks@[n as int] == x);
                }
                n
            },
        };
        let ghost s2 = self.blocks@;
        proof {
            assert forall|x: (BlockPosition, MipMesh<T>)| x.0 == *position implies {
                &&& blocks_unique(#[trigger] s2.update(i as int, x))
                &&& meshes_in(s2.update(i as int, x), *position) == Some(x.1.lods@)
                &&& forall|q: BlockPosition| q != *position ==> #[trigger] meshes_in(s2.update(i as int, x), q) == meshes_in(s2, q)
            } by {
                assert forall|q: BlockPosition| q != *position implies #[trigger] meshes_in(s2.update(i as int, x), q)
                    == meshes_in(s2, q) by {
                    lemma_meshes_update(s2, i as int, x, q);
                }
                lemma_meshes_update(s2, i as int, x, *position);
                lemma_meshes_at(s2.update(i as int, x), i as int);
            }
        }
        let entry = &mut self.blocks[i];
        &mut entry.1
    }
}

/// Appending `x` to `s`: `s` grows by exactly `x`.
proof fn lemma_contains_push<X>(s: Seq<X>, x: X)
    ensures
        forall|y: X| (#[trigger] s.push(x).contains(y)) <==> (s.contains(y) || y == x),
{
    assert forall|y: X| (#[trigger] s.push(x).contains(y)) <==> (s.contains(y) || y == x) by {
        if s.contains(y) {
            let i = choose|i: int| 0 <= i < s.len() && s[i] == y;
            assert(s.push(x)[i] == y);
        }
        if y == x {
            assert(s.push(x)[s.len() as int] == y);
        }
        if s.push(x).contains(y) {
            let i = choose|i: int| 0 <= i < s.push(x).len() && s.push(x)[i] == y;
            if i < s.len() {
                assert(s[i] == y);
            }
        }
    }
}

/// Append `(p, l)` to `out` for each LOD `l` that has a mesh in `lods`.
fn list_lods<M>(p: BlockPosition, lods: &Vec<Option<M>>, out: &mut Vec<(BlockPosition, LODIndex)>)
    requires
        old(out)@.no_duplicates(),
        forall|m: int| 0 <= m < old(out)@.len() ==> (#[trigger] old(out)@[m]).0 != p,
    ensures
        final(out)@.no_duplicates(),
        forall|m: int| 0 <= m < final(out)@.len() ==> (#[trigger] final(out)@[m]).0 == p || old(out)@.contains(final(out)@[m]),
        forall|q: BlockPosition, l: u32|
            #[trigger] final(out)@.contains((q, LODIndex(l))) <==> (old(out)@.contains((q, LODIndex(l))) || (q == p
                && (l as int) < lods@.len() && lods@[l as int].is_some())),
{
    let ghost start = out@;
    let mut j: usize = 0;
    while j < lods.len() && j <= 0xffff_ffff
        invariant
            j <= lods@.len(),
            start.no_duplicates(),
            forall|m: int| 0 <= m < start.len() ==> (#[trigger] start[m]).0 != p,
            out@.no_duplicates(),
            forall|m: int| 0 <= m < out@.len() ==> (#[trigger] out@[m]).0 == p || start.contains(out@[m]),
            forall|m: int| 0 <= m < out@.len() && (#[trigger] out@[m]).0 == p ==> (out@[m].1.0 as int) < j,
            forall|q: BlockPosition, l: u32|
                #[trigger] out@.contains((q, LODIndex(l))) <==> (start.contains((q, LODIndex(l))) || (q == p && (l as int)
                    < j && lods@[l as int].is_some())),
        decreases lods@.len() - j,
    {
        if lods[j].is_some() {
            let item = (p, LODIndex(j as u32));
            let ghost prev = out@;
            proof {
                assert forall|m: int| 0 <= m < prev.len() && (#[trigger] prev[m]).0 == p implies (prev[m].1.0 as int) < j by {
                    assert(out@[m] == prev[m]);
                }
                lemma_contains_push(prev, item);
                if prev.contains(item) {
                    let m = choose|m: int| 0 <= m < prev.len() && prev[m] == item;
                    assert(prev[m].0 == p);
                }
            }
            out.push(item);
            proof {
                assert(out@ == prev.push(item));
                assert forall|a: int, b: int| 0 <= a < out@.len() && 0 <= b < out@.len() && a != b implies out@[a] != out@[b] by {
                    if a < prev.len() && b < prev.len() {
                    } else if a == prev.len() {
                        assert(prev[b] == out@[b]);
                    } else {
                        assert(prev[a] == out@[a]);
                    }
                }
                assert forall|m: int| 0 <= m < out@.len() implies (#[trigger] out@[m]).0 == p || start.contains(out@[m]) by {
                    if m < prev.len() {
                        assert(prev[m] == out@[m]);
                    }
                }
                assert forall|m: int| 0 <= m < out@.len() && (#[trigger] out@[m]).0 == p implies (out@[m].1.0 as int) < j + 1 by {
                    if m < prev.len() {
                        assert(prev[m] == out@[m]);
                    }
                }
            }
        }
        j = j + 1;
    }
}

/// The terrain: the voxel tree, and the meshes made of it so far.
pub struct Terrain<G, M> {
    pub voxels: VoxelTree<Voxel<G>>,
    /// Every block mesh that has been made, by block and LOD.
    pub all_blocks: MipMeshMap<M>,
}

impl<G, M> Terrain<G, M> {
    pub open spec fn wf(self) -> bool {
        self.voxels.wf() && self.all_blocks.wf()
    }

    /// The mesh cached for block `p` at LOD `l`.
    pub open spec fn cached(self, p: BlockPosition, l: int) -> Option<M> {
        match self.all_blocks.meshes(p) {
            Some(m) => if 0 <= l < m.len() {
                m[l]
            } else {
                None
            },
            None => None,
        }
    }

    pub fn new() -> (r: Terrain<G, M>)
        ensures
            r.wf(),
            forall|p: BlockPosition, l: int| r.cached(p, l).is_none(),
    {
        Terrain { voxels: VoxelTree::new(), all_blocks: MipMeshMap::new() }
    }

    /// Whether the mesh of block `position` at `lod_index` is cached.
    pub fn has_mesh(&self, position: &BlockPosition, lod_index: LODIndex) -> (r: bool)
        requires
            self.wf(),
        ensures
            r == self.cached(*position, lod_index.0 as int).is_some(),
    {
        match self.all_blocks.get(position) {
            None => false,
            Some(m) => (lod_index.0 as usize) < m.lods.len() && m.lods[lod_index.0 as usize].is_some(),
        }
    }

    /// The cache slot of block `position` at `lod_index`. Where it is empty
    /// the caller generates the mesh into it.
    pub fn load(&mut self, position: &BlockPosition, lod_index: LODIndex) -> (r: &mut Option<M>)
        requires
            old(self).wf(),
            (lod_index.0 as int) < usize::MAX,
        ensures
            *r == old(self).cached(*position, lod_index.0 as int),
            final(self).voxels == old(self).voxels,
            final(self).all_blocks.wf(),
            final(self).cached(*position, lod_index.0 as int) == *final(r),
            forall|p: BlockPosition, l: int|
                (p != *position || l != lod_index.0) ==> #[trigger] final(self).cached(p, l) == old(self).cached(p, l),
    {
        let mip_mesh = self.all_blocks.get_mut(position);
        mip_mesh.get_mut(lod_index.0 as usize)
    }

    /// Pass a brush over the voxel tree, and list the cached meshes that it
    /// may have changed: every block and LOD with a cached mesh whose cube
    /// meets the brush's box, once each. The caller makes those meshes
    /// anew.
    pub fn remove<B: Brush<G>>(&mut self, brush: &B, brush_bounds: &BrushBounds) -> (r: Vec<(BlockPosition, LODIndex)>)
        requires
            old(self).wf(),
        ensures
            final(self).wf(),
            final(self).voxels.brushed_from(old(self).voxels, *brush_bounds, *brush),
            final(self).all_blocks == old(self).all_blocks,
            r@.no_duplicates(),
            forall|p: BlockPosition, l: u32|
                #[trigger] r@.contains((p, LODIndex(l))) <==> (old(self).cached(p, l as int).is_some() && overlaps(
                    block_bounds(p),
                    *brush_bounds,
                )),
    {
        self.voxels.remove(brush, brush_bounds);
        let mut out: Vec<(BlockPosition, LODIndex)> = Vec::new();
        let ghost s = self.all_blocks.blocks@;
        let mut k: usize = 0;
        while k < self.all_blocks.blocks.len()
            invariant
                s == self.all_blocks.blocks@,
                blocks_unique(s),
                k <= s.len(),
                out@.no_duplicates(),
                forall|m: int| 0 <= m < out@.len() ==> exists|e: int| 0 <= e < k && (#[trigger] s[e]).0 == (#[trigger] out@[m]).0,
                forall|q: BlockPosition, l: u32|
                    #[trigger] out@.contains((q, LODIndex(l))) <==> exists|e: int|
                        0 <= e < k && (#[trigger] s[e]).0 == q && overlaps(block_bounds(q), *brush_bounds) && (l as int)
                            < s[e].1.lods@.len() && s[e].1.lods@[l as int].is_some(),
            decreases s.len() - k,
        {
            let p = self.all_blocks.blocks[k].0;
            let b = Bounds::new(p.x, p.y, p.z, LG_WIDTH);
            let ghost prev = out@;
            if brush_overlaps(&b, brush_bounds) {
                proof {
                    assert forall|m: int| 0 <= m < prev.len() implies (#[trigger] prev[m]).0 != p by {
                        let e = choose|e: int| 0 <= e < k && (#[trigger] s[e]).0 == prev[m].0;
                        assert(s[e].0 != s[k as int].0);
                    }
                }
                list_lods(p, &self.all_blocks.blocks[k].1.lods, &mut out);
            }
            proof {
                assert forall|m: int| 0 <= m < out@.len() implies exists|e: int| 0 <= e < k + 1 && (#[trigger] s[e]).0 == (#[trigger] out@[m]).0 by {
                    if out@[m].0 == p {
                        assert(s[k as int].0 == out@[m].0);
                    } else {
                        assert(prev.contains(out@[m]));
                        let i = choose|i: int| 0 <= i < prev.len() && prev[i] == out@[m];
                        let e = choose|e: int| 0 <= e < k && (#[trigger] s[e]).0 == (#[trigger] prev[i]).0;
                        assert(s[e].0 == out@[m].0);
                    }
                }
                assert forall|q: BlockPosition, l: u32| #[trigger] out@.contains((q, LODIndex(l))) <==> exists|e: int|
                    0 <= e < k + 1 && (#[trigger] s[e]).0 == q && overlaps(block_bounds(q), *brush_bounds) && (l as int)
                        < s[e].1.lods@.len() && s[e].1.lods@[l as int].is_some() by {
                    if q == p && overlaps(block_bounds(q), *brush_bounds) && (l as int) < s[k as int].1.lods@.len()
                        && s[k as int].1.lods@[l as int].is_some() {
                        assert(s[k as int].0 == q);
                    }
                    if exists|e: int|
                        0 <= e < k + 1 && (#[trigger] s[e]).0 == q && overlaps(block_bounds(q), *brush_bounds) && (l as int)
                            < s[e].1.lods@.len() && s[e].1.lods@[l as int].is_some() {
                        let e = choose|e: int|
                            0 <= e < k + 1 && (#[trigger] s[e]).0 == q && overlaps(block_bounds(q), *brush_bounds) && (l as int)
                                < s[e].1.lods@.len() && s[e].1.lods@[l as int].is_some();
                        if e < k {
                            assert(prev.contains((q, LODIndex(l))));
                        }
                    }
                }
            }
            k = k + 1;
        }
        proof {
            assert forall|q: BlockPosition, l: u32| #[trigger] out@.contains((q, LODIndex(l))) <==> (
            self.cached(q, l as int).is_some() && overlaps(block_bounds(q), *brush_bounds)) by {
                if exists|e: int| 0 <= e < s.len() && (#[trigger] s[e]).0 == q {
                    let e = choose|e: int| 0 <= e < s.len() && (#[trigger] s[e]).0 == q;
                    lemma_meshes_at(s, e);
                    if out@.contains((q, LODIndex(l))) {
                        let e2 = choose|e2: int|
                            0 <= e2 < s.len() && (#[trigger] s[e2]).0 == q && overlaps(block_bounds(q), *brush_bounds)
                                && (l as int) < s[e2].1.lods@.len() && s[e2].1.lods@[l as int].is_some();
                        if e2 < e {
                            assert(s[e2].0 != s[e].0);
                        } else if e2 > e {
                            assert(s[e].0 != s[e2].0);
                        }
                    }
                }
            }
        }
        out
    }
}

} // verus!
