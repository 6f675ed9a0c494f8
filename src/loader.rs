//! The level-of-detail multiplexer: for each block, the LOD that each owner
//! asks for and the LOD whose physics is installed, which is the finest one
//! asked for once its mesh has arrived. Loading, installing a generated
//! block and unloading return the physics work they call for; the caller
//! does it.

use crate::lod::{BlockPosition, LODIndex, OwnerId, LOD};
use crate::terrain::Terrain;
use vstd::prelude::*;

verus! {

/// How fine a LOD is: the placeholder is the coarsest, and a smaller index
/// is finer.
pub open spec fn lod_rank(l: LOD) -> int {
    match l {
        LOD::Placeholder => 0,
        LOD::LodIndex(k) => 0x1_0000_0000 - k.0,
    }
}

/// The finest LOD requested in `s`.
pub open spec fn finest(s: Seq<(OwnerId, LOD)>) -> LOD
    decreases s.len(),
{
    if s.len() <= 1 {
        s[0].1
    } else {
        let f = finest(s.drop_last());
        if lod_rank(s.last().1) >= lod_rank(f) {
            s.last().1
        } else {
            f
        }
    }
}

/// The LOD that owner `o` requests in `s`, if any.
pub open spec fn requested(s: Seq<(OwnerId, LOD)>, o: OwnerId) -> Option<LOD> {
    if exists|i: int| 0 <= i < s.len() && (#[trigger] s[i]).0 == o {
        let i = choose|i: int| 0 <= i < s.len() && (#[trigger] s[i]).0 == o;
        Some(s[i].1)
    } else {
        None
    }
}

/// No owner appears twice.
pub open spec fn owners_unique(s: Seq<(OwnerId, LOD)>) -> bool {
    forall|i: int, j: int| 0 <= i < j < s.len() ==> (#[trigger] s[i]).0 != (#[trigger] s[j]).0
}

/// `s` with owner `o` requesting `l`: its entry changed in place, or a new
/// one appended.
pub open spec fn with_request(s: Seq<(OwnerId, LOD)>, o: OwnerId, l: LOD) -> Seq<(OwnerId, LOD)> {
    if exists|i: int| 0 <= i < s.len() && (#[trigger] s[i]).0 == o {
        let i = choose|i: int| 0 <= i < s.len() && (#[trigger] s[i]).0 == o;
        s.update(i, (o, l))
    } else {
        s.push((o, l))
    }
}

/// `s` without owner `o`.
pub open spec fn without_owner(s: Seq<(OwnerId, LOD)>, o: OwnerId) -> Seq<(OwnerId, LOD)> {
    if exists|i: int| 0 <= i < s.len() && (#[trigger] s[i]).0 == o {
        let i = choose|i: int| 0 <= i < s.len() && (#[trigger] s[i]).0 == o;
        s.remove(i)
    } else {
        s
    }
}
/// No block appears twice.
pub open spec fn positions_unique(s: Seq<(BlockPosition, BlockLoadState)>) -> bool {
    forall|i: int, j: int| 0 <= i < j < s.len() ==> (#[trigger] s[i]).0 != (#[trigger] s[j]).0
}

/// The requests and loaded LOD recorded for block `p` in `s`.
pub open spec fn entry_in(s: Seq<(BlockPosition, BlockLoadState)>, p: BlockPosition) -> Option<(Seq<(OwnerId, LOD)>, Option<LOD>)> {
    if exists|i: int| 0 <= i < s.len() && (#[trigger] s[i]).0 == p {
        let i = choose|i: int| 0 <= i < s.len() && (#[trigger] s[i]).0 == p;
        Some((s[i].1.owner_lods@, s[i].1.loaded_lod))
    } else {
        None
    }
}

/// A block's record is sound: wanted by some owner, each owner once.
pub open spec fn sound(e: BlockLoadState) -> bool {
    &&& e.owner_lods@.len() > 0
    &&& owners_unique(e.owner_lods@)
}

/// The requests for one block, and the LOD whose physics is installed for
/// it, if any. While a mesh is being generated the installed LOD lags
/// behind the finest request.
pub struct BlockLoadState {
    pub owner_lods: Vec<(OwnerId, LOD)>,
    pub loaded_lod: Option<LOD>,
}

/// The requested and installed LODs of every block that some owner wants.
pub struct LODMap {
    blocks: Vec<(BlockPosition, BlockLoadState)>,
}

/// What the caller does after a request or an unload.
#[derive(Debug, Clone, Copy, PartialEq, Eq, Structural)]
pub enum LoadAction {
    /// Nothing: what is installed stays.
    Nothing,
    /// Take out what was installed, if anything, and make the whole block
    /// solid until a mesh arrives.
    InsertPlaceholder { replaced: Option<LOD> },
    /// Have the block's mesh at `lod` generated for `owner`, and hand it to
    /// `insert_block` when it arrives.
    Fetch { lod: LODIndex, owner: OwnerId },
    /// The mesh at `lod` is cached: take out what was installed and install
    /// it now.
    Install { lod: LODIndex, replaced: Option<LOD> },
    /// Nobody wants the block any more: take out what was installed.
    Clear { loaded: Option<LOD> },
}

/// What the caller does with a generated block.
#[derive(Debug, Clone, Copy, PartialEq, Eq, Structural)]
pub enum InstallAction {
    /// The block is stale: it is not the finest LOD its owner asks for, or
    /// it is installed already.
    Drop,
    /// Take out what was installed, if anything, and install the block.
    Install { replaced: Option<LOD> },
}

/// Whether the mesh for LOD `l` of block `p` is cached.
pub open spec fn mesh_cached<G, M>(terrain: Terrain<G, M>, p: BlockPosition, l: LOD) -> bool {
    match l {
        LOD::LodIndex(k) => terrain.cached(p, k.0 as int).is_some(),
        LOD::Placeholder => false,
    }
}

/// `r` brings a block with requests `owners` (and installed LOD `loaded`)
/// to its finest request, leaving `after` installed: nothing if that is
/// installed already; the placeholder, or a cached mesh, at once; otherwise
/// a fetch for an owner that asks for it, with the installed LOD kept until
/// the mesh arrives.
pub open spec fn settles(owners: Seq<(OwnerId, LOD)>, loaded: Option<LOD>, cached: bool, r: LoadAction, after: Option<LOD>) -> bool {
    let f = finest(owners);
    if loaded == Some(f) {
        r == LoadAction::Nothing && after == loaded
    } else {
        match f {
            LOD::Placeholder => r == (LoadAction::InsertPlaceholder { replaced: loaded }) && after == Some(f),
            LOD::LodIndex(k) => if cached {
                r == (LoadAction::Install { lod: k, replaced: loaded }) && after == Some(f)
            } else {
                &&& after == loaded
                &&& r matches LoadAction::Fetch { lod, owner }
                &&& lod == k
                &&& owners.contains((owner, f))
            },
        }
    }
}

impl LODMap {
    /// The requests for block `p` and the LOD installed for it, if any owner
    /// wants it.
    pub closed spec fn lods(self, p: BlockPosition) -> Option<(Seq<(OwnerId, LOD)>, Option<LOD>)> {
        entry_in(self.blocks@, p)
    }

    /// Every block appears once, is wanted by some owner, and lists each
    /// owner once.
    pub closed spec fn wf(self) -> bool {
        &&& positions_unique(self.blocks@)
        &&& forall|i: int| 0 <= i < self.blocks@.len() ==> sound(#[trigger] self.blocks@[i].1)
    }

    pub fn new() -> (r: LODMap)
        ensures
            r.wf(),
            forall|p: BlockPosition| r.lods(p).is_none(),
    {
        LODMap { blocks: Vec::new() }
    }

    /// Where block `p` is recorded.
    fn block_index(&self, p: &BlockPosition) -> (r: Option<usize>)
        requires
            self.wf(),
        ensures
            match r {
                Some(i) => {
                    &&& i < self.blocks@.len()
                    &&& self.blocks@[i as int].0 == *p
                    &&& self.lods(*p) == Some(
                        (self.blocks@[i as int].1.owner_lods@, self.blocks@[i as int].1.loaded_lod),
                    )
                },
                None => self.lods(*p).is_none(),
            },
    {
        let mut k: usize = 0;
        while k < self.blocks.len()
            invariant
                self.wf(),
                k <= self.blocks@.len(),
                forall|i: int| 0 <= i < k ==> (#[trigger] self.blocks@[i]).0 != *p,
            decreases self.blocks@.len() - k,
        {
            if self.blocks[k].0 == *p {
                proof {
                    let s = self.blocks@;
                    assert(0 <= k < s.len() && (s[k as int]).0 == *p);
                    let c = choose|j: int| 0 <= j < s.len() && (#[trigger] s[j]).0 == *p;
                    assert(0 <= c < s.len() && s[c].0 == *p);
                    if c < k {
                        assert(s[c].0 != s[k as int].0);
                    } else if c > k {
                        assert(s[k as int].0 != s[c].0);
                    }
                }
                return Some(k);
            }
            k = k + 1;
        }
        None
    }

    /// Replace the record at `i` by `x`, a sound record for the same block.
    fn replace_at(&mut self, i: usize, x: (BlockPosition, BlockLoadState))
        requires
            old(self).wf(),
            i < old(self).blocks@.len(),
            x.0 == old(self).blocks@[i as int].0,
            sound(x.1),
        ensures
            final(self).wf(),
            final(self).lods(x.0) == Some((x.1.owner_lods@, x.1.loaded_lod)),
            forall|q: BlockPosition| q != x.0 ==> #[trigger] final(self).lods(q) == old(self).lods(q),
    {
        let ghost s = self.blocks@;
        let _ = self.blocks.remove(i);
        self.blocks.insert(i, x);
        proof {
            assert(self.blocks@ =~= s.update(i as int, x));
            lemma_entry_update(s, i as int, x, x.0);
            assert forall|q: BlockPosition| q != x.0 implies #[trigger] entry_in(s.update(i as int, x), q)
                == entry_in(s, q) by {
                lemma_entry_update(s, i as int, x, q);
            }
            assert forall|k: int| 0 <= k < self.blocks@.len() implies sound(#[trigger] self.blocks@[k].1) by {
                if k != i {
                    assert(self.blocks@[k] == s[k]);
                }
            }
        }
    }

    /// Record that owner `owner` asks for `lod` of block `pos`; a new block
    /// has nothing installed. Returns the owner's previous request.
    pub fn insert(&mut self, pos: BlockPosition, lod: LOD, owner: OwnerId) -> (r: Option<LOD>)
        requires
            old(self).wf(),
        ensures
            final(self).wf(),
            forall|q: BlockPosition| q != pos ==> #[trigger] final(self).lods(q) == old(self).lods(q),
            match old(self).lods(pos) {
                None => r.is_none() && final(self).lods(pos) == Some((seq![(owner, lod)], None::<LOD>)),
                Some((owners, loaded)) => {
                    &&& r == requested(owners, owner)
                    &&& final(self).lods(pos) == Some((with_request(owners, owner, lod), loaded))
                },
            },
    {
        let ghost s = self.blocks@;
        match self.block_index(&pos) {
            None => {
                let mut owners: Vec<(OwnerId, LOD)> = Vec::new();
                owners.push((owner, lod));
                let x = (pos, BlockLoadState { owner_lods: owners, loaded_lod: None });
                proof {
                    assert(owners@ =~= seq![(owner, lod)]);
                    assert forall|q: BlockPosition| q != pos implies #[trigger] entry_in(s.push(x), q) == entry_in(s, q) by {
                        lemma_entry_push(s, x, q);
                    }
                    lemma_entry_push(s, x, pos);
                }
                self.blocks.push(x);
                proof {
                    assert(self.blocks@ == s.push(x));
                    assert forall|i: int| 0 <= i < self.blocks@.len() implies sound(#[trigger] self.blocks@[i].1) by {
                        if i < s.len() {
                            assert(self.blocks@[i] == s[i]);
                        }
                    }
                }
                None
            },
            Some(i) => {
                proof {
                    assert(sound(s[i as int].1));
                }
                let (p0, mut st) = self.blocks.remove(i);
                let ghost owners = st.owner_lods@;
                let prev = match owner_position(&st.owner_lods, owner) {
                    Some(j) => {
                        proof {
                            lemma_owner_at(owners, owner, j as int, lod);
                        }
                        let prev = st.owner_lods[j].1;
                        st.owner_lods.set(j, (owner, lod));
                        Some(prev)
                    },
                    None => {
                        proof {
                            lemma_owner_absent(owners, owner, lod);
                        }
                        st.owner_lods.push((owner, lod));
                        None
                    },
                };
                self.blocks.insert(i, (p0, st));
                proof {
                    let x = (p0, st);
                    assert(self.blocks@ =~= s.update(i as int, x));
                    lemma_entry_update(s, i as int, x, pos);
                    assert forall|q: BlockPosition| q != pos implies #[trigger] entry_in(s.update(i as int, x), q)
                        == entry_in(s, q) by {
                        lemma_entry_update(s, i as int, x, q);
                    }
                    assert forall|k: int| 0 <= k < self.blocks@.len() implies sound(#[trigger] self.blocks@[k].1) by {
                        if k != i {
                            assert(self.blocks@[k] == s[k]);
                        }
                    }
                }
                prev
            },
        }
    }

    /// Record that owner `owner` no longer wants block `pos`; a block that
    /// nobody wants is forgotten. Returns the owner's previous request.
    pub fn remove(&mut self, pos: BlockPosition, owner: OwnerId) -> (r: Option<LOD>)
        requires
            old(self).wf(),
        ensures
            final(self).wf(),
            forall|q: BlockPosition| q != pos ==> #[trigger] final(self).lods(q) == old(self).lods(q),
            match old(self).lods(pos) {
                None => r.is_none() && final(self).lods(pos).is_none(),
                Some((owners, loaded)) => {
                    &&& r == requested(owners, owner)
                    &&& without_owner(owners, owner).len() == 0 ==> final(self).lods(pos).is_none()
                    &&& without_owner(owners, owner).len() > 0 ==> final(self).lods(pos) == Some(
                        (without_owner(owners, owner), loaded),
                    )
                },
            },
    {
        let ghost s = self.blocks@;
        let i = match self.block_index(&pos) {
            None => {
                return None;
            },
            Some(i) => i,
        };
        let ghost owners = s[i as int].1.owner_lods@;
        proof {
            assert(sound(s[i as int].1));
        }
        let j = match owner_position(&self.blocks[i].1.owner_lods, owner) {
            None => {
                proof {
                    lemma_owner_absent(owners, owner, LOD::Placeholder);
                }
                return None;
            },
            Some(j) => j,
        };
        proof {
            lemma_owner_at(owners, owner, j as int, LOD::Placeholder);
        }
        let (p0, mut st) = self.blocks.remove(i);
        let (_, prev) = st.owner_lods.remove(j);
        if st.owner_lods.len() == 0 {
            proof {
                lemma_entry_remove(s, i as int, pos);
                assert forall|q: BlockPosition| q != pos implies #[trigger] entry_in(s.remove(i as int), q)
                    == entry_in(s, q) by {
                    lemma_entry_remove(s, i as int, q);
                }
                assert forall|k: int| 0 <= k < self.blocks@.len() implies sound(#[trigger] self.blocks@[k].1) by {
                    let k2 = if k < i { k } else { k + 1 };
                    assert(self.blocks@[k] == s[k2]);
                }
            }
            return Some(prev);
        }
        self.blocks.insert(i, (p0, st));
        proof {
            let x = (p0, st);
            assert(self.blocks@ =~= s.update(i as int, x));
            lemma_entry_update(s, i as int, x, pos);
            assert forall|q: BlockPosition| q != pos implies #[trigger] entry_in(s.update(i as int, x), q) == entry_in(
                s,
                q,
            ) by {
                lemma_entry_update(s, i as int, x, q);
            }
            assert forall|k: int| 0 <= k < self.blocks@.len() implies sound(#[trigger] self.blocks@[k].1) by {
                if k != i {
                    assert(self.blocks@[k] == s[k]);
                }
            }
        }
        Some(prev)
    }

    /// Bring block `pos` to its finest request: see `settles`.
    fn settle<G, M>(&mut self, terrain: &Terrain<G, M>, pos: &BlockPosition) -> (r: LoadAction)
        requires
            old(self).wf(),
            terrain.wf(),
            old(self).lods(*pos).is_some(),
        ensures
            final(self).wf(),
            forall|q: BlockPosition| q != *pos ==> #[trigger] final(self).lods(q) == old(self).lods(q),
            ({
                let (owners, loaded) = old(self).lods(*pos).unwrap();
                &&& final(self).lods(*pos).is_some()
                &&& final(self).lods(*pos).unwrap().0 == owners
                &&& settles(
                    owners,
                    loaded,
                    mesh_cached(*terrain, *pos, finest(owners)),
                    r,
                    final(self).lods(*pos).unwrap().1,
                )
            }),
    {
        let i = self.block_index(pos).unwrap();
        let ghost s = self.blocks@;
        proof {
            assert(sound(s[i as int].1));
        }
        let f = finest_of(&self.blocks[i].1.owner_lods);
        let loaded = self.blocks[i].1.loaded_lod;
        let same = match loaded {
            Some(l) => l == f,
            None => false,
        };
        if same {
            return LoadAction::Nothing;
        }
        match f {
            LOD::Placeholder => {
                let owners = copy_owners(&self.blocks[i].1.owner_lods);
                self.replace_at(i, (*pos, BlockLoadState { owner_lods: owners, loaded_lod: Some(f) }));
                LoadAction::InsertPlaceholder { replaced: loaded }
            },
            LOD::LodIndex(k) => {
                if terrain.has_mesh(pos, k) {
                    let owners = copy_owners(&self.blocks[i].1.owner_lods);
                    self.replace_at(i, (*pos, BlockLoadState { owner_lods: owners, loaded_lod: Some(f) }));
                    LoadAction::Install { lod: k, replaced: loaded }
                } else {
                    proof {
                        lemma_finest_is_max(s[i as int].1.owner_lods@);
                    }
                    let owner = owner_requesting(&self.blocks[i].1.owner_lods, f);
                    LoadAction::Fetch { lod: k, owner }
                }
            },
        }
    }
}

/// Loads and unloads terrain blocks on behalf of owners, each of which can
/// request a LOD independently; the finest LOD requested is the one
/// installed, once its mesh is there.
pub struct TerrainLoader {
    pub lod_map: LODMap,
}

/// The requests for a block once `owner` asks for `lod`.
pub open spec fn after_request(entry: Option<(Seq<(OwnerId, LOD)>, Option<LOD>)>, owner: OwnerId, lod: LOD) -> Seq<(OwnerId, LOD)> {
    match entry {
        None => seq![(owner, lod)],
        Some((owners, _)) => with_request(owners, owner, lod),
    }
}

/// The LOD installed for a block, from its record.
pub open spec fn installed(entry: Option<(Seq<(OwnerId, LOD)>, Option<LOD>)>) -> Option<LOD> {
    match entry {
        None => None,
        Some((_, loaded)) => loaded,
    }
}

impl TerrainLoader {
    pub fn new() -> (r: TerrainLoader)
        ensures
            r.lod_map.wf(),
            forall|p: BlockPosition| r.lod_map.lods(p).is_none(),
    {
        TerrainLoader { lod_map: LODMap::new() }
    }

    /// Owner `owner` asks for `new_lod` of a block. The request is recorded
    /// at once. If it changes the block's finest request, the block is
    /// brought to it (see `settles`): the placeholder or a cached mesh is
    /// installed at once, any other mesh is fetched.
    pub fn load<G, M>(&mut self, terrain: &Terrain<G, M>, block_position: &BlockPosition, new_lod: LOD, owner: OwnerId) -> (r: LoadAction)
        requires
            old(self).lod_map.wf(),
            terrain.wf(),
        ensures
            final(self).lod_map.wf(),
            forall|q: BlockPosition|
                q != *block_position ==> #[trigger] final(self).lod_map.lods(q) == old(self).lod_map.lods(q),
            ({
                let entry = old(self).lod_map.lods(*block_position);
                let owners = after_request(entry, owner, new_lod);
                let changed = match entry {
                    None => true,
                    Some((o, _)) => finest(owners) != finest(o),
                };
                let after = final(self).lod_map.lods(*block_position);
                &&& after.is_some()
                &&& after.unwrap().0 == owners
                &&& !changed ==> r == LoadAction::Nothing && after.unwrap().1 == installed(entry)
                &&& changed ==> settles(
                    owners,
                    installed(entry),
                    mesh_cached(*terrain, *block_position, finest(owners)),
                    r,
                    after.unwrap().1,
                )
            }),
    {
        let changed = match self.lod_map.block_index(block_position) {
            None => true,
            Some(i) => {
                proof {
                    assert(sound(self.lod_map.blocks@[i as int].1));
                }
                let before = finest_of(&self.lod_map.blocks[i].1.owner_lods);
                let ghost owners = self.lod_map.blocks@[i as int].1.owner_lods@;
                let mut owners2 = copy_owners(&self.lod_map.blocks[i].1.owner_lods);
                match owner_position(&owners2, owner) {
                    Some(j) => {
                        proof {
                            lemma_owner_at(owners, owner, j as int, new_lod);
                        }
                        owners2.set(j, (owner, new_lod));
                    },
                    None => {
                        proof {
                            lemma_owner_absent(owners, owner, new_lod);
                        }
                        owners2.push((owner, new_lod));
                    },
                }
                finest_of(&owners2) != before
            },
        };
        let _ = self.lod_map.insert(*block_position, new_lod, owner);
        proof {
            assert(seq![(owner, new_lod)].len() == 1);
        }
        if !changed {
            return LoadAction::Nothing;
        }
        self.lod_map.settle(terrain, block_position)
    }

    /// A block generated at `lod` for `owner` has arrived. It is installed
    /// if the owner still asks for `lod`, `lod` is the block's finest
    /// request, and it is not installed yet; otherwise it is dropped as
    /// stale and nothing changes.
    pub fn insert_block(&mut self, position: &BlockPosition, lod: LODIndex, owner: OwnerId) -> (r: InstallAction)
        requires
            old(self).lod_map.wf(),
        ensures
            final(self).lod_map.wf(),
            forall|q: BlockPosition| q != *position ==> #[trigger] final(self).lod_map.lods(q) == old(self).lod_map.lods(q),
            match old(self).lod_map.lods(*position) {
                None => r == InstallAction::Drop && final(self).lod_map.lods(*position).is_none(),
                Some((owners, loaded)) => if requested(owners, owner) == Some(LOD::LodIndex(lod)) && finest(owners)
                    == LOD::LodIndex(lod) && loaded != Some(LOD::LodIndex(lod)) {
                    &&& r == (InstallAction::Install { replaced: loaded })
                    &&& final(self).lod_map.lods(*position) == Some((owners, Some(LOD::LodIndex(lod))))
                } else {
                    &&& r == InstallAction::Drop
                    &&& final(self).lod_map.lods(*position) == old(self).lod_map.lods(*position)
                },
            },
    {
        let i = match self.lod_map.block_index(position) {
            None => {
                return InstallAction::Drop;
            },
            Some(i) => i,
        };
        let ghost s = self.lod_map.blocks@;
        let ghost owners = s[i as int].1.owner_lods@;
        proof {
            assert(sound(s[i as int].1));
        }
        let wanted = match owner_position(&self.lod_map.blocks[i].1.owner_lods, owner) {
            Some(j) => {
                proof {
                    lemma_owner_at(owners, owner, j as int, LOD::Placeholder);
                }
                self.lod_map.blocks[i].1.owner_lods[j].1 == LOD::LodIndex(lod)
            },
            None => {
                proof {
                    lemma_owner_absent(owners, owner, LOD::Placeholder);
                }
                false
            },
        };
        let f = finest_of(&self.lod_map.blocks[i].1.owner_lods);
        let loaded = self.lod_map.blocks[i].1.loaded_lod;
        let installed_already = match loaded {
            Some(l) => l == LOD::LodIndex(lod),
            None => false,
        };
        if !wanted || f != LOD::LodIndex(lod) || installed_already {
            return InstallAction::Drop;
        }
        let owners2 = copy_owners(&self.lod_map.blocks[i].1.owner_lods);
        self.lod_map.replace_at(i, (*position, BlockLoadState { owner_lods: owners2, loaded_lod: Some(LOD::LodIndex(lod)) }));
        InstallAction::Install { replaced: loaded }
    }

    /// Owner `owner` no longer wants a block. A block that nobody wants any
    /// more is cleared; otherwise, if its finest request changes, it is
    /// brought to the new one (see `settles`), which may be coarser.
    pub fn unload<G, M>(&mut self, terrain: &Terrain<G, M>, block_position: &BlockPosition, owner: OwnerId) -> (r: LoadAction)
        requires
            old(self).lod_map.wf(),
            terrain.wf(),
        ensures
            final(self).lod_map.wf(),
            forall|q: BlockPosition|
                q != *block_position ==> #[trigger] final(self).lod_map.lods(q) == old(self).lod_map.lods(q),
            match old(self).lod_map.lods(*block_position) {
                None => r == LoadAction::Nothing && final(self).lod_map.lods(*block_position).is_none(),
                Some((owners, loaded)) => if requested(owners, owner).is_none() {
                    r == LoadAction::Nothing && final(self).lod_map.lods(*block_position) == old(self).lod_map.lods(
                        *block_position,
                    )
                } else if without_owner(owners, owner).len() == 0 {
                    r == (LoadAction::Clear { loaded }) && final(self).lod_map.lods(*block_position).is_none()
                } else {
                    let owners2 = without_owner(owners, owner);
                    let after = final(self).lod_map.lods(*block_position);
                    &&& after.is_some()
                    &&& after.unwrap().0 == owners2
                    &&& finest(owners2) == finest(owners) ==> r == LoadAction::Nothing && after.unwrap().1 == loaded
                    &&& finest(owners2) != finest(owners) ==> settles(
                        owners2,
                        loaded,
                        mesh_cached(*terrain, *block_position, finest(owners2)),
                        r,
                        after.unwrap().1,
                    )
                },
            },
    {
        let (before, loaded) = match self.lod_map.block_index(block_position) {
            None => {
                return LoadAction::Nothing;
            },
            Some(i) => {
                proof {
                    assert(sound(self.lod_map.blocks@[i as int].1));
                }
                (finest_of(&self.lod_map.blocks[i].1.owner_lods), self.lod_map.blocks[i].1.loaded_lod)
            },
        };
        let prev = self.lod_map.remove(*block_position, owner);
        if prev.is_none() {
            return LoadAction::Nothing;
        }
        let i = match self.lod_map.block_index(block_position) {
            None => {
                return LoadAction::Clear { loaded };
            },
            Some(i) => i,
        };
        proof {
            assert(sound(self.lod_map.blocks@[i as int].1));
        }
        let after = finest_of(&self.lod_map.blocks[i].1.owner_lods);
        if after == before {
            return LoadAction::Nothing;
        }
        self.lod_map.settle(terrain, block_position)
    }
}

/// Once a request or an unload has been acted on, the block's installed
/// LOD is its finest request, or a mesh for that request has been asked
/// for: the finest request is one of the requests, and none is finer.
pub proof fn lemma_settled_is_finest(owners: Seq<(OwnerId, LOD)>, loaded: Option<LOD>, cached: bool, r: LoadAction, after: Option<LOD>)
    requires
        owners.len() > 0,
        settles(owners, loaded, cached, r, after),
    ensures
        after == Some(finest(owners)) || (r matches LoadAction::Fetch { lod, owner } && LOD::LodIndex(lod) == finest(owners)),
        forall|k: int| 0 <= k < owners.len() ==> lod_rank((#[trigger] owners[k]).1) <= lod_rank(finest(owners)),
        exists|k: int| 0 <= k < owners.len() && (#[trigger] owners[k]).1 == finest(owners),
{
    lemma_finest_is_max(owners);
}

/// How fine a LOD is.
fn rank_of(l: LOD) -> (r: u64)
    ensures
        r == lod_rank(l),
{
    match l {
        LOD::Placeholder => 0,
        LOD::LodIndex(k) => 0x1_0000_0000 - k.0 as u64,
    }
}

/// The finest LOD requested in a non-empty list.
fn finest_of(s: &Vec<(OwnerId, LOD)>) -> (r: LOD)
    requires
        s@.len() > 0,
    ensures
        r == finest(s@),
{
    let mut best = s[0].1;
    let mut k: usize = 1;
    assert(s@.subrange(0, 1).len() == 1);
    while k < s.len()
        invariant
            1 <= k <= s@.len(),
            best == finest(s@.subrange(0, k as int)),
        decreases s@.len() - k,
    {
        let l = s[k].1;
        assert(s@.subrange(0, k as int + 1).drop_last() =~= s@.subrange(0, k as int));
        if rank_of(l) >= rank_of(best) {
            best = l;
        }
        k = k + 1;
    }
    assert(s@.subrange(0, s@.len() as int) =~= s@);
    best
}

/// Where owner `o` is listed in `s`.
fn owner_position(s: &Vec<(OwnerId, LOD)>, o: OwnerId) -> (r: Option<usize>)
    ensures
        match r {
            Some(j) => j < s@.len() && s@[j as int].0 == o,
            None => forall|i: int| 0 <= i < s@.len() ==> (#[trigger] s@[i]).0 != o,
        },
{
    let mut k: usize = 0;
    while k < s.len()
        invariant
            k <= s@.len(),
            forall|i: int| 0 <= i < k ==> (#[trigger] s@[i]).0 != o,
        decreases s@.len() - k,
    {
        if s[k].0 == o {
            return Some(k);
        }
        k = k + 1;
    }
    None
}

/// A copy of a request list.
fn copy_owners(s: &Vec<(OwnerId, LOD)>) -> (r: Vec<(OwnerId, LOD)>)
    ensures
        r@ == s@,
{
    let mut r: Vec<(OwnerId, LOD)> = Vec::new();
    let mut k: usize = 0;
    while k < s.len()
        invariant
            k <= s@.len(),
            r@ == s@.subrange(0, k as int),
        decreases s@.len() - k,
    {
        r.push(s[k]);
        k = k + 1;
        assert(r@ =~= s@.subrange(0, k as int));
    }
    assert(r@ =~= s@);
    r
}

/// The finest LOD is one of those requested, and none requested is finer.
pub proof fn lemma_finest_is_max(s: Seq<(OwnerId, LOD)>)
    requires
        s.len() > 0,
    ensures
        forall|k: int| 0 <= k < s.len() ==> lod_rank((#[trigger] s[k]).1) <= lod_rank(finest(s)),
        exists|k: int| 0 <= k < s.len() && (#[trigger] s[k]).1 == finest(s),
    decreases s.len(),
{
    if s.len() == 1 {
        assert(s[0].1 == finest(s));
    } else {
        let t = s.drop_last();
        lemma_finest_is_max(t);
        let k0 = choose|k: int| 0 <= k < t.len() && (#[trigger] t[k]).1 == finest(t);
        assert(s[k0] == t[k0]);
        assert(s[s.len() - 1] == s.last());
        assert forall|k: int| 0 <= k < s.len() implies lod_rank((#[trigger] s[k]).1) <= lod_rank(finest(s)) by {
            if k < t.len() {
                assert(s[k] == t[k]);
            }
        }
    }
}

/// An owner in `s` that asks for `l`, if there is one.
fn owner_requesting(s: &Vec<(OwnerId, LOD)>, l: LOD) -> (r: OwnerId)
    requires
        exists|k: int| 0 <= k < s@.len() && (#[trigger] s@[k]).1 == l,
    ensures
        s@.contains((r, l)),
{
    let mut k: usize = 0;
    while k < s.len()
        invariant
            k <= s@.len(),
            forall|j: int| 0 <= j < k ==> (#[trigger] s@[j]).1 != l,
            exists|j: int| 0 <= j < s@.len() && (#[trigger] s@[j]).1 == l,
        decreases s@.len() - k,
    {
        if s[k].1 == l {
            proof {
                assert(s@[k as int] == (s@[k as int].0, l));
            }
            return s[k].0;
        }
        k = k + 1;
    }
    proof {
        let j = choose|j: int| 0 <= j < s@.len() && (#[trigger] s@[j]).1 == l;
        assert(s@[j].1 == l);
    }
    s[0].0
}

/// With each owner listed once, `requested`, `with_request` and
/// `without_owner` act on owner `o`'s own entry `j`.
proof fn lemma_owner_at(s: Seq<(OwnerId, LOD)>, o: OwnerId, j: int, l: LOD)
    requires
        owners_unique(s),
        0 <= j < s.len(),
        s[j].0 == o,
    ensures
        requested(s, o) == Some(s[j].1),
        with_request(s, o, l) == s.update(j, (o, l)),
        without_owner(s, o) == s.remove(j),
        owners_unique(s.update(j, (o, l))),
        owners_unique(s.remove(j)),
{
    let c = choose|i: int| 0 <= i < s.len() && (#[trigger] s[i]).0 == o;
    assert(0 <= c < s.len() && s[c].0 == o);
    assert(c == j);
    let u = s.update(j, (o, l));
    assert forall|a: int, b: int| 0 <= a < b < u.len() implies (#[trigger] u[a]).0 != (#[trigger] u[b]).0 by {
        assert(s[a].0 != s[b].0);
    }
    let r = s.remove(j);
    assert forall|a: int, b: int| 0 <= a < b < r.len() implies (#[trigger] r[a]).0 != (#[trigger] r[b]).0 by {
        let a2 = if a < j { a } else { a + 1 };
        let b2 = if b < j { b } else { b + 1 };
        assert(r[a] == s[a2]);
        assert(r[b] == s[b2]);
        assert(s[a2].0 != s[b2].0);
    }
}

/// An owner not listed in `s` is added at the end.
proof fn lemma_owner_absent(s: Seq<(OwnerId, LOD)>, o: OwnerId, l: LOD)
    requires
        owners_unique(s),
        forall|i: int| 0 <= i < s.len() ==> (#[trigger] s[i]).0 != o,
    ensures
        requested(s, o).is_none(),
        with_request(s, o, l) == s.push((o, l)),
        without_owner(s, o) == s,
        owners_unique(s.push((o, l))),
{
    let u = s.push((o, l));
    assert forall|a: int, b: int| 0 <= a < b < u.len() implies (#[trigger] u[a]).0 != (#[trigger] u[b]).0 by {
        if b < s.len() {
            assert(s[a].0 != s[b].0);
        } else {
            assert(u[a] == s[a]);
        }
    }
}

/// Replacing block entry `i` by one for the same block changes only that
/// block's record.
proof fn lemma_entry_update(s: Seq<(BlockPosition, BlockLoadState)>, i: int, x: (BlockPosition, BlockLoadState), q: BlockPosition)
    requires
        positions_unique(s),
        0 <= i < s.len(),
        x.0 == s[i].0,
    ensures
        positions_unique(s.update(i, x)),
        entry_in(s.update(i, x), x.0) == Some((x.1.owner_lods@, x.1.loaded_lod)),
        q != x.0 ==> entry_in(s.update(i, x), q) == entry_in(s, q),
{
    let u = s.update(i, x);
    assert forall|a: int, b: int| 0 <= a < b < u.len() implies (#[trigger] u[a]).0 != (#[trigger] u[b]).0 by {
        assert(s[a].0 != s[b].0);
    }
    assert(u[i].0 == x.0);
    let c = choose|j: int| 0 <= j < u.len() && (#[trigger] u[j]).0 == x.0;
    assert(c == i);
    if q != x.0 {
        if exists|j: int| 0 <= j < s.len() && (#[trigger] s[j]).0 == q {
            let c1 = choose|j: int| 0 <= j < s.len() && (#[trigger] s[j]).0 == q;
            assert(u[c1] == s[c1]);
            let c2 = choose|j: int| 0 <= j < u.len() && (#[trigger] u[j]).0 == q;
            assert(u[c2] == s[c2]);
            assert(c1 == c2);
        } else {
            assert forall|j: int| 0 <= j < u.len() implies (#[trigger] u[j]).0 != q by {
                if j != i {
                    assert(u[j] == s[j]);
                }
            }
        }
    }
}

/// Appending an entry for a block that has none.
proof fn lemma_entry_push(s: Seq<(BlockPosition, BlockLoadState)>, x: (BlockPosition, BlockLoadState), q: BlockPosition)
    requires
        positions_unique(s),
        entry_in(s, x.0).is_none(),
    ensures
        positions_unique(s.push(x)),
        entry_in(s.push(x), x.0) == Some((x.1.owner_lods@, x.1.loaded_lod)),
        q != x.0 ==> entry_in(s.push(x), q) == entry_in(s, q),
{
    let u = s.push(x);
    assert forall|a: int, b: int| 0 <= a < b < u.len() implies (#[trigger] u[a]).0 != (#[trigger] u[b]).0 by {
        if b < s.len() {
            assert(s[a].0 != s[b].0);
        } else {
            assert(u[a] == s[a]);
        }
    }
    assert(u[s.len() as int].0 == x.0);
    let c = choose|j: int| 0 <= j < u.len() && (#[trigger] u[j]).0 == x.0;
    if c < s.len() {
        assert(u[c] == s[c]);
    }
    if q != x.0 {
        if exists|j: int| 0 <= j < s.len() && (#[trigger] s[j]).0 == q {
            let c1 = choose|j: int| 0 <= j < s.len() && (#[trigger] s[j]).0 == q;
            assert(u[c1] == s[c1]);
            let c2 = choose|j: int| 0 <= j < u.len() && (#[trigger] u[j]).0 == q;
            assert(u[c2] == s[c2]);
            assert(c1 == c2);
        } else {
            assert forall|j: int| 0 <= j < u.len() implies (#[trigger] u[j]).0 != q by {
                if j < s.len() {
                    assert(u[j] == s[j]);
                }
            }
        }
    }
}

/// Removing block entry `i` leaves no record for that block and changes no
/// other.
proof fn lemma_entry_remove(s: Seq<(BlockPosition, BlockLoadState)>, i: int, q: BlockPosition)
    requires
        positions_unique(s),
        0 <= i < s.len(),
    ensures
        positions_unique(s.remove(i)),
        entry_in(s.remove(i), s[i].0).is_none(),
        q != s[i].0 ==> entry_in(s.remove(i), q) == entry_in(s, q),
{
    let u = s.remove(i);
    assert forall|a: int, b: int| 0 <= a < b < u.len() implies (#[trigger] u[a]).0 != (#[trigger] u[b]).0 by {
        let a2 = if a < i { a } else { a + 1 };
        let b2 = if b < i { b } else { b + 1 };
        assert(u[a] == s[a2]);
        assert(u[b] == s[b2]);
        assert(s[a2].0 != s[b2].0);
    }
    assert forall|j: int| 0 <= j < u.len() implies (#[trigger] u[j]).0 != s[i].0 by {
        let j2 = if j < i { j } else { j + 1 };
        assert(u[j] == s[j2]);
    }
    if q != s[i].0 {
        if exists|j: int| 0 <= j < s.len() && (#[trigger] s[j]).0 == q {
            let c1 = choose|j: int| 0 <= j < s.len() && (#[trigger] s[j]).0 == q;
            let k = if c1 < i { c1 } else { c1 - 1 };
            assert(u[k] == s[c1]);
            let c2 = choose|j: int| 0 <= j < u.len() && (#[trigger] u[j]).0 == q;
            let c3 = if c2 < i { c2 } else { c2 + 1 };
            assert(u[c2] == s[c3]);
            assert(c1 == c3);
        } else {
            assert forall|j: int| 0 <= j < u.len() implies (#[trigger] u[j]).0 != q by {
                let j2 = if j < i { j } else { j + 1 };
                assert(u[j] == s[j2]);
            }
        }
    }
}

} // verus!
