//! The client's mirror of the terrain around its player: which blocks it
//! has installed, at which LOD, and the view updates that each block the
//! server sends calls for.

use crate::lod::{is_lod_index, lod_index, radius_between, radius_spec, BlockPosition, LODIndex};
use crate::surroundings::SurroundingsChange;
use vstd::prelude::*;

verus! {

/// A triangle's entity id.
pub type EntityId = u32;

/// A block's mesh: the entity id of each triangle, and the geometry, which
/// the mirror only hands on.
pub struct TerrainBlock<M> {
    pub ids: Vec<EntityId>,
    pub mesh: M,
}

/// A block plus where and at which LOD it belongs.
pub struct TerrainBlockSend<M> {
    pub position: BlockPosition,
    pub block: TerrainBlock<M>,
    pub lod: LODIndex,
}

/// A change to what the client shows.
pub enum ClientToView<M> {
    /// Show this block.
    AddBlock(BlockPosition, TerrainBlock<M>, LODIndex),
    /// Stop showing a triangle.
    RemoveTerrain(EntityId),
    /// Forget the mesh shown for this block at this LOD.
    RemoveBlockData(BlockPosition, LODIndex),
}

/// A block the client has installed.
pub struct LoadedBlock {
    pub position: BlockPosition,
    pub lod: LODIndex,
    pub ids: Vec<EntityId>,
}

/// The blocks the client has installed, at most one per position.
pub struct ClientMirror {
    blocks: Vec<LoadedBlock>,
}

/// The LOD and triangle ids installed at `p` in `blocks`, searched from
/// index `i` on.
pub open spec fn installed_from(blocks: Seq<LoadedBlock>, p: BlockPosition, i: nat) -> Option<(LODIndex, Seq<EntityId>)>
    decreases blocks.len() - i,
{
    if i >= blocks.len() {
        None
    } else if blocks[i as int].position == p {
        Some((blocks[i as int].lod, blocks[i as int].ids@))
    } else {
        installed_from(blocks, p, i + 1)
    }
}

/// The events that take down what is installed at `p`: one per triangle,
/// then the block's data.
pub open spec fn removal<M>(p: BlockPosition, prev: Option<(LODIndex, Seq<EntityId>)>) -> Seq<ClientToView<M>> {
    match prev {
        None => Seq::empty(),
        Some((lod, ids)) => Seq::new(ids.len(), |i: int| ClientToView::RemoveTerrain(ids[i])).push(
            ClientToView::RemoveBlockData(p, lod),
        ),
    }
}

/// A block sent for `position` at `lod` is installed by a client whose
/// player is at `player`: it is within the load distance and has the LOD
/// that its distance calls for.
pub open spec fn accepts(player: BlockPosition, max_load_distance: int, position: BlockPosition, lod: LODIndex) -> bool {
    &&& radius_spec(player, position) <= max_load_distance
    &&& is_lod_index(radius_spec(player, position), lod.0 as int)
}

/// `after` is the mirror `before` once a block for `position` at `lod`
/// with triangles `ids` has arrived.
pub open spec fn installs(
    before: ClientMirror,
    after: ClientMirror,
    player: BlockPosition,
    max_load_distance: int,
    position: BlockPosition,
    lod: LODIndex,
    ids: Seq<EntityId>,
) -> bool {
    if accepts(player, max_load_distance, position, lod) {
        &&& after.installed(position) == Some((lod, ids))
        &&& forall|q: BlockPosition| q != position ==> #[trigger] after.installed(q) == before.installed(q)
    } else {
        after == before
    }
}

/// What is installed at a position after `sends` arrive for it, starting
/// from `start`: the last send that the client accepts, if any.
pub open spec fn last_accepted(
    start: Option<(LODIndex, Seq<EntityId>)>,
    sends: Seq<(LODIndex, Seq<EntityId>)>,
    player: BlockPosition,
    max_load_distance: int,
    position: BlockPosition,
) -> Option<(LODIndex, Seq<EntityId>)>
    decreases sends.len(),
{
    if sends.len() == 0 {
        start
    } else if accepts(player, max_load_distance, position, sends.last().0) {
        Some(sends.last())
    } else {
        last_accepted(start, sends.drop_last(), player, max_load_distance, position)
    }
}

/// Convergence: after a run of blocks sent for one position, what the
/// client has installed there is the last block it accepted; the blocks it
/// dropped, and those before the last it accepted, leave no trace.
pub proof fn lemma_last_accepted_wins(
    states: Seq<ClientMirror>,
    sends: Seq<(LODIndex, Seq<EntityId>)>,
    player: BlockPosition,
    max_load_distance: int,
    position: BlockPosition,
)
    requires
        states.len() == sends.len() + 1,
        forall|k: int|
            0 <= k < sends.len() ==> installs(
                #[trigger] states[k],
                states[k + 1],
                player,
                max_load_distance,
                position,
                sends[k].0,
                sends[k].1,
            ),
    ensures
        states.last().installed(position) == last_accepted(
            states[0].installed(position),
            sends,
            player,
            max_load_distance,
            position,
        ),
    decreases sends.len(),
{
    if sends.len() > 0 {
        let n = sends.len() - 1;
        assert(installs(states[n], states[n + 1], player, max_load_distance, position, sends[n].0, sends[n].1));
        let rest = states.drop_last();
        assert forall|k: int| 0 <= k < sends.drop_last().len() implies installs(
            #[trigger] rest[k],
            rest[k + 1],
            player,
            max_load_distance,
            position,
            sends.drop_last()[k].0,
            sends.drop_last()[k].1,
        ) by {
            assert(installs(states[k], states[k + 1], player, max_load_distance, position, sends[k].0, sends[k].1));
        }
        lemma_last_accepted_wins(rest, sends.drop_last(), player, max_load_distance, position);
        assert(sends.last() == sends[n]);
    }
}

impl ClientMirror {
    /// The LOD and triangle ids installed at `p`.
    pub closed spec fn installed(self, p: BlockPosition) -> Option<(LODIndex, Seq<EntityId>)> {
        installed_from(self.blocks@, p, 0)
    }

    /// No position is installed twice.
    pub closed spec fn wf(self) -> bool {
        forall|a: int, b: int|
            0 <= a < b < self.blocks@.len() ==> (#[trigger] self.blocks@[a]).position != (#[trigger] self.blocks@[b]).position
    }

    pub fn new() -> (r: ClientMirror)
        ensures
            r.wf(),
            forall|p: BlockPosition| r.installed(p).is_none(),
    {
        ClientMirror { blocks: Vec::new() }
    }

    /// Where `p` is installed in `blocks`, searching from `i` on.
    fn index_of(&self, p: &BlockPosition) -> (r: Option<usize>)
        ensures
            match r {
                Some(i) => {
                    &&& i < self.blocks@.len()
                    &&& self.blocks@[i as int].position == *p
                    &&& forall|j: int| 0 <= j < i ==> self.blocks@[j].position != *p
                },
                None => forall|j: int| 0 <= j < self.blocks@.len() ==> self.blocks@[j].position != *p,
            },
    {
        let mut i: usize = 0;
        while i < self.blocks.len()
            invariant
                i <= self.blocks@.len(),
                forall|j: int| 0 <= j < i ==> self.blocks@[j].position != *p,
            decreases self.blocks@.len() - i,
        {
            if self.blocks[i].position == *p {
                return Some(i);
            }
            i = i + 1;
        }
        None
    }
}

/// The events that take down a block installed at `p` at `lod` with
/// triangles `ids`.
fn removal_events<M>(p: BlockPosition, lod: LODIndex, ids: &Vec<EntityId>) -> (r: Vec<ClientToView<M>>)
    ensures
        r@ == removal::<M>(p, Some((lod, ids@))),
{
    let mut events: Vec<ClientToView<M>> = Vec::new();
    let mut k: usize = 0;
    while k < ids.len()
        invariant
            k <= ids@.len(),
            events@ == Seq::new(k as nat, |j: int| ClientToView::<M>::RemoveTerrain(ids@[j])),
        decreases ids@.len() - k,
    {
        events.push(ClientToView::RemoveTerrain(ids[k]));
        k = k + 1;
        assert(events@ =~= Seq::new(k as nat, |j: int| ClientToView::<M>::RemoveTerrain(ids@[j])));
    }
    events.push(ClientToView::RemoveBlockData(p, lod));
    assert(events@ =~= removal::<M>(p, Some((lod, ids@))));
    events
}

/// Past a removed entry `k`, the two lists agree shifted by one.
proof fn lemma_installed_tail(s: Seq<LoadedBlock>, k: int, q: BlockPosition, i: nat)
    requires
        0 <= k < s.len(),
        k + 1 <= i,
    ensures
        installed_from(s.remove(k), q, (i - 1) as nat) == installed_from(s, q, i),
    decreases s.len() - i,
{
    if i < s.len() {
        assert(s.remove(k)[i - 1] == s[i as int]);
        lemma_installed_tail(s, k, q, i + 1);
    }
}

/// Removing entry `k`, which is not at `q`, changes nothing at `q`.
proof fn lemma_installed_remove(s: Seq<LoadedBlock>, k: int, q: BlockPosition, i: nat)
    requires
        0 <= k < s.len(),
        s[k].position != q,
        i <= k,
    ensures
        installed_from(s.remove(k), q, i) == installed_from(s, q, i),
    decreases k - i,
{
    if i < k {
        assert(s.remove(k)[i as int] == s[i as int]);
        lemma_installed_remove(s, k, q, i + 1);
    } else {
        lemma_installed_tail(s, k, q, (k + 1) as nat);
    }
}

impl ClientMirror {
    /// Take down the block installed at `p`, if any.
    pub fn unload<M>(&mut self, p: &BlockPosition) -> (r: Vec<ClientToView<M>>)
        requires
            old(self).wf(),
        ensures
            final(self).wf(),
            r@ == removal::<M>(*p, old(self).installed(*p)),
            final(self).installed(*p).is_none(),
            forall|q: BlockPosition| q != *p ==> #[trigger] final(self).installed(q) == old(self).installed(q),
    {
        let ghost s = self.blocks@;
        match self.index_of(p) {
            None => {
                proof {
                    lemma_installed_from(s, *p, 0, s.len());
                }
                let r: Vec<ClientToView<M>> = Vec::new();
                assert(r@ =~= removal::<M>(*p, installed_from(s, *p, 0)));
                r
            },
            Some(i) => {
                proof {
                    lemma_installed_from(s, *p, 0, i as nat);
                }
                let e = self.blocks.remove(i);
                proof {
                    let t = s.remove(i as int);
                    assert(self.blocks@ == t);
                    assert forall|j: int| 0 <= j < t.len() implies t[j].position != *p by {
                        let j2 = if j < i { j } else { j + 1 };
                        assert(t[j] == s[j2]);
                        if j2 < i {
                            assert(s[j2].position != s[i as int].position);
                        } else if j2 > i {
                            assert(s[i as int].position != s[j2].position);
                        }
                    }
                    lemma_installed_from(t, *p, 0, t.len());
                    assert forall|q: BlockPosition| q != *p implies #[trigger] installed_from(t, q, 0) == installed_from(
                        s,
                        q,
                        0,
                    ) by {
                        lemma_installed_remove(s, i as int, q, 0);
                    }
                    assert forall|a: int, b: int| 0 <= a < b < t.len() implies (#[trigger] t[a]).position
                        != (#[trigger] t[b]).position by {
                        let a2 = if a < i { a } else { a + 1 };
                        let b2 = if b < i { b } else { b + 1 };
                        assert(t[a] == s[a2]);
                        assert(t[b] == s[b2]);
                        assert(s[a2].position != s[b2].position);
                    }
                }
                removal_events(*p, e.lod, &e.ids)
            },
        }
    }

    /// The LOD to ask the server for, for a block `distance` away at `p`:
    /// none if it is installed at the LOD its distance calls for already.
    pub fn wanted_lod(&self, p: &BlockPosition, distance: i32) -> (r: Option<LODIndex>)
        requires
            distance >= 0,
        ensures
            r.is_none() <==> (self.installed(*p) matches Some((l, _)) && is_lod_index(distance as int, l.0 as int)),
            r matches Some(k) ==> is_lod_index(distance as int, k.0 as int),
    {
        let lod = lod_index(distance);
        match self.index_of(p) {
            Some(i) => {
                proof {
                    lemma_installed_from(self.blocks@, *p, 0, i as nat);
                }
                if self.blocks[i].lod.0 == lod.0 {
                    None
                } else {
                    Some(lod)
                }
            },
            None => {
                proof {
                    lemma_installed_from(self.blocks@, *p, 0, self.blocks@.len());
                }
                Some(lod)
            },
        }
    }
}

/// The client's response to a change of its surroundings: for a block to
/// load, the view events (none) and the block to ask the server for, unless
/// it is installed at the right LOD already; for a block to unload, the
/// events that take it down.
pub fn apply_surroundings_change<M>(mirror: &mut ClientMirror, change: SurroundingsChange) -> (r: (
    Vec<ClientToView<M>>,
    Option<(BlockPosition, LODIndex)>,
))
    requires
        old(mirror).wf(),
        change matches SurroundingsChange::Load(_, d) ==> d >= 0,
    ensures
        final(mirror).wf(),
        match change {
            SurroundingsChange::Load(p, d) => {
                &&& *final(mirror) == *old(mirror)
                &&& r.0@.len() == 0
                &&& r.1.is_none() <==> (old(mirror).installed(p) matches Some((l, _)) && is_lod_index(
                    d as int,
                    l.0 as int,
                ))
                &&& r.1 matches Some((q, k)) ==> q == p && is_lod_index(d as int, k.0 as int)
            },
            SurroundingsChange::Unload(p) => {
                &&& r.0@ == removal::<M>(p, old(mirror).installed(p))
                &&& r.1.is_none()
                &&& final(mirror).installed(p).is_none()
                &&& forall|q: BlockPosition| q != p ==> #[trigger] final(mirror).installed(q) == old(mirror).installed(q)
            },
        },
{
    match change {
        SurroundingsChange::Load(p, d) => {
            let request = match mirror.wanted_lod(&p, d) {
                Some(k) => Some((p, k)),
                None => None,
            };
            (Vec::new(), request)
        },
        SurroundingsChange::Unload(p) => (mirror.unload(&p), None),
    }
}

/// A copy of `ids`.
fn copy_ids(ids: &Vec<EntityId>) -> (r: Vec<EntityId>)
    ensures
        r@ == ids@,
{
    let mut r: Vec<EntityId> = Vec::new();
    let mut k: usize = 0;
    while k < ids.len()
        invariant
            k <= ids@.len(),
            r@ == ids@.subrange(0, k as int),
        decreases ids@.len() - k,
    {
        r.push(ids[k]);
        k = k + 1;
        assert(r@ =~= ids@.subrange(0, k as int));
    }
    assert(r@ =~= ids@);
    r
}

/// Install a block that the server sent, unless it is beyond the load
/// distance from the player or not at the LOD its distance calls for. What
/// was installed at its position before is taken down first.
pub fn load_terrain_block<M>(
    mirror: &mut ClientMirror,
    player_position: &BlockPosition,
    max_load_distance: i32,
    block: TerrainBlockSend<M>,
) -> (r: Vec<ClientToView<M>>)
    requires
        old(mirror).wf(),
    ensures
        final(mirror).wf(),
        accepts(*player_position, max_load_distance as int, block.position, block.lod) ==> {
            &&& final(mirror).installed(block.position) == Some((block.lod, block.block.ids@))
            &&& forall|q: BlockPosition|
                q != block.position ==> #[trigger] final(mirror).installed(q) == old(mirror).installed(q)
            &&& r@ == removal::<M>(block.position, old(mirror).installed(block.position)).push(
                ClientToView::AddBlock(block.position, block.block, block.lod),
            )
        },
        !accepts(*player_position, max_load_distance as int, block.position, block.lod) ==> {
            &&& r@.len() == 0
            &&& *final(mirror) == *old(mirror)
        },
        installs(
            *old(mirror),
            *final(mirror),
            *player_position,
            max_load_distance as int,
            block.position,
            block.lod,
            block.block.ids@,
        ),
{
    let distance = radius_between(player_position, &block.position);
    if distance > max_load_distance as i64 {
        return Vec::new();
    }
    let lod = lod_index(distance as i32);
    if lod.0 != block.lod.0 {
        return Vec::new();
    }
    let ghost before = mirror.blocks@;
    let TerrainBlockSend { position, block: data, lod: block_lod } = block;
    let mut events: Vec<ClientToView<M>> = Vec::new();
    let loaded = LoadedBlock { position, lod: block_lod, ids: copy_ids(&data.ids) };
    match mirror.index_of(&position) {
        Some(i) => {
            proof {
                lemma_installed_from(before, position, 0, i as nat);
            }
            let prev_lod = mirror.blocks[i].lod;
            events = removal_events(position, prev_lod, &mirror.blocks[i].ids);
            mirror.blocks.set(i, loaded);
            proof {
                let after = mirror.blocks@;
                assert forall|a: int, b: int| 0 <= a < b < after.len() implies (#[trigger] after[a]).position
                    != (#[trigger] after[b]).position by {
                    assert(before[a].position != before[b].position);
                }
                lemma_installed_from(after, position, 0, i as nat);
                assert forall|q: BlockPosition| q != position implies #[trigger] installed_from(after, q, 0)
                    == installed_from(before, q, 0) by {
                    lemma_installed_same(before, after, q, 0);
                }
            }
        },
        None => {
            proof {
                lemma_installed_from(before, position, 0, before.len());
            }
            assert(events@ =~= removal::<M>(position, installed_from(before, position, 0)));
            mirror.blocks.push(loaded);
            proof {
                let after = mirror.blocks@;
                assert forall|a: int, b: int| 0 <= a < b < after.len() implies (#[trigger] after[a]).position
                    != (#[trigger] after[b]).position by {
                    if b < before.len() {
                        assert(before[a].position != before[b].position);
                    } else {
                        assert(after[a] == before[a]);
                    }
                }
                lemma_installed_from(after, position, 0, before.len());
                assert forall|q: BlockPosition| q != position implies #[trigger] installed_from(after, q, 0)
                    == installed_from(before, q, 0) by {
                    lemma_installed_pushed(before, after, q, 0);
                }
            }
        },
    }
    events.push(ClientToView::AddBlock(position, data, block_lod));
    events
}

/// Two block lists that differ only at entries whose position is not `q`
/// hold the same thing at `q`.
proof fn lemma_installed_same(s1: Seq<LoadedBlock>, s2: Seq<LoadedBlock>, q: BlockPosition, k: nat)
    requires
        s1.len() == s2.len(),
        forall|j: int|
            0 <= j < s1.len() ==> (s1[j] == s2[j] || (s1[j].position != q && s2[j].position != q)),
    ensures
        installed_from(s1, q, k) == installed_from(s2, q, k),
    decreases s1.len() - k,
{
    if k < s1.len() {
        lemma_installed_same(s1, s2, q, k + 1);
    }
}

/// Appending a block at another position changes nothing at `q`.
proof fn lemma_installed_pushed(s1: Seq<LoadedBlock>, s2: Seq<LoadedBlock>, q: BlockPosition, k: nat)
    requires
        s2.len() == s1.len() + 1,
        forall|j: int| 0 <= j < s1.len() ==> s1[j] == s2[j],
        s2[s1.len() as int].position != q,
    ensures
        installed_from(s1, q, k) == installed_from(s2, q, k),
    decreases s2.len() - k,
{
    if k < s2.len() {
        lemma_installed_pushed(s1, s2, q, k + 1);
    }
}

/// Searching from `i` on finds what the first match at or after `i` holds.
proof fn lemma_installed_from(blocks: Seq<LoadedBlock>, p: BlockPosition, i: nat, k: nat)
    requires
        i <= k <= blocks.len(),
        forall|j: int| i <= j < k ==> blocks[j].position != p,
    ensures
        installed_from(blocks, p, i) == installed_from(blocks, p, k),
    decreases k - i,
{
    if i < k {
        lemma_installed_from(blocks, p, i + 1, k);
    }
}

} // verus!
