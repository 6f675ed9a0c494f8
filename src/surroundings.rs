//! Keeps the blocks around a focus position loaded: works out which blocks
//! to load and unload when the focus moves, and hands them out a few at a
//! time.

use crate::lod::{radius_between, radius_spec, BlockPosition};
use vstd::prelude::*;

verus! {

/// How many blocks `load_some` hands out at most per call.
pub const BLOCK_LOAD_SPEED: usize = 4;

/// A block to load, with its distance from the focus, or to unload.
#[derive(Debug, Clone, Copy, PartialEq, Eq, Structural)]
pub enum SurroundingsChange {
    Load(BlockPosition, i32),
    Unload(BlockPosition),
}

/// The distance of `p` from the focus `last` (capped to 32 bits), or 0
/// without a focus.
pub open spec fn focus_distance(last: Option<BlockPosition>, p: BlockPosition) -> int {
    match last {
        Some(f) => if radius_spec(f, p) <= i32::MAX {
            radius_spec(f, p)
        } else {
            i32::MAX as int
        },
        None => 0,
    }
}

/// Which cell of the 3x3x3 cube (numbered x slowest, the centre being 13)
/// comes `i`-th: the centre first, then the others in number order.
pub open spec fn cube_cell(i: int) -> int {
    if i == 0 {
        13
    } else if i <= 13 {
        i - 1
    } else {
        i
    }
}

/// The blocks wanted around `p`: the 3x3x3 cube centred on it, nearest
/// first: `p` itself, then the 26 blocks around it, x slowest.
pub open spec fn wanted_around(p: BlockPosition) -> Seq<BlockPosition> {
    Seq::new(
        27,
        |i: int|
            BlockPosition {
                x: (p.x + cube_cell(i) / 9 - 1) as i32,
                y: (p.y + (cube_cell(i) / 3) % 3 - 1) as i32,
                z: (p.z + cube_cell(i) % 3 - 1) as i32,
            },
    )
}

/// Blocks not in `loaded`.
pub open spec fn not_loaded(loaded: Seq<BlockPosition>) -> spec_fn(BlockPosition) -> bool {
    |p: BlockPosition| !loaded.contains(p)
}

/// Blocks that are loaded and no longer wanted.
pub open spec fn unwanted(loaded: Seq<BlockPosition>, want: Seq<BlockPosition>) -> spec_fn(BlockPosition) -> bool {
    |p: BlockPosition| loaded.contains(p) && !want.contains(p)
}

/// Blocks other than `p`.
pub open spec fn other_than(p: BlockPosition) -> spec_fn(BlockPosition) -> bool {
    |q: BlockPosition| q != p
}

/// `loaded` after the changes in `changes`, in order.
pub open spec fn after_changes(loaded: Seq<BlockPosition>, changes: Seq<SurroundingsChange>) -> Seq<BlockPosition>
    decreases changes.len(),
{
    if changes.len() == 0 {
        loaded
    } else {
        let before = after_changes(loaded, changes.drop_last());
        match changes.last() {
            SurroundingsChange::Load(p, _) => if before.contains(p) {
                before
            } else {
                before.push(p)
            },
            SurroundingsChange::Unload(p) => before.filter(other_than(p)),
        }
    }
}

/// Keep surroundings loaded around a given block position.
pub struct SurroundingsLoader {
    pub load_queue: Vec<BlockPosition>,
    pub unload_queue: Vec<BlockPosition>,
    /// The blocks that are loaded.
    pub loaded: Vec<BlockPosition>,
    /// The blocks that are wanted.
    pub want_loaded: Vec<BlockPosition>,
    pub last_position: Option<BlockPosition>,
}

impl SurroundingsLoader {
    pub fn new() -> (r: SurroundingsLoader)
        ensures
            r.load_queue@.len() == 0,
            r.unload_queue@.len() == 0,
            r.loaded@.len() == 0,
            r.want_loaded@.len() == 0,
            r.last_position.is_none(),
    {
        SurroundingsLoader {
            load_queue: Vec::new(),
            unload_queue: Vec::new(),
            loaded: Vec::new(),
            want_loaded: Vec::new(),
            last_position: None,
        }
    }

    /// Whether `p` is in `s`.
    fn holds(s: &Vec<BlockPosition>, p: &BlockPosition) -> (r: bool)
        ensures
            r == s@.contains(*p),
    {
        let mut k: usize = 0;
        while k < s.len()
            invariant
                k <= s@.len(),
                forall|j: int| 0 <= j < k ==> s@[j] != *p,
            decreases s@.len() - k,
        {
            if s[k] == *p {
                return true;
            }
            k = k + 1;
        }
        false
    }

    /// `s` without `p`.
    fn without_block(s: &Vec<BlockPosition>, p: &BlockPosition) -> (r: Vec<BlockPosition>)
        ensures
            r@ == s@.filter(other_than(*p)),
    {
        let mut r: Vec<BlockPosition> = Vec::new();
        let mut k: usize = 0;
        while k < s.len()
            invariant
                k <= s@.len(),
                r@ == s@.subrange(0, k as int).filter(other_than(*p)),
            decreases s@.len() - k,
        {
            let q = s[k];
            proof {
                assert(s@.subrange(0, k as int + 1) =~= s@.subrange(0, k as int).push(q));
                s@.subrange(0, k as int).lemma_filter_push(q, other_than(*p));
            }
            if q != *p {
                r.push(q);
            }
            k = k + 1;
        }
        assert(s@.subrange(0, s@.len() as int) =~= s@);
        r
    }

    /// Hand out up to `BLOCK_LOAD_SPEED` blocks: unloads first, in queue
    /// order, then loads, and record them as unloaded or loaded.
    pub fn load_some(&mut self) -> (r: Vec<SurroundingsChange>)
        ensures
            ({
                let u = old(self).unload_queue@;
                let l = old(self).load_queue@;
                let last = old(self).last_position;
                let nu = if u.len() < BLOCK_LOAD_SPEED { u.len() as int } else { BLOCK_LOAD_SPEED as int };
                let nl = if l.len() < BLOCK_LOAD_SPEED - nu { l.len() as int } else { BLOCK_LOAD_SPEED - nu };
                &&& r@ == Seq::new(nu as nat, |i: int| SurroundingsChange::Unload(u[i])) + Seq::new(
                    nl as nat,
                    |i: int| SurroundingsChange::Load(l[i], focus_distance(last, l[i]) as i32),
                )
                &&& final(self).unload_queue@ == u.skip(nu)
                &&& final(self).load_queue@ == l.skip(nl)
                &&& final(self).loaded@ == after_changes(old(self).loaded@, r@)
                &&& final(self).want_loaded@ == old(self).want_loaded@
                &&& final(self).last_position == old(self).last_position
            }),
    {
        let ghost u = self.unload_queue@;
        let ghost l = self.load_queue@;
        let ghost loaded = self.loaded@;
        let ghost want = self.want_loaded@;
        let ghost last = self.last_position;
        let mut changes: Vec<SurroundingsChange> = Vec::new();
        let mut n: usize = 0;
        while n < BLOCK_LOAD_SPEED && (self.unload_queue.len() > 0 || self.load_queue.len() > 0)
            invariant
                n <= BLOCK_LOAD_SPEED,
                ({
                    let nu = if u.len() < n { u.len() as int } else { n as int };
                    let nl = if l.len() < n - nu { l.len() as int } else { n - nu };
                    &&& changes@ == Seq::new(nu as nat, |i: int| SurroundingsChange::Unload(u[i])) + Seq::new(
                        nl as nat,
                        |i: int| SurroundingsChange::Load(l[i], focus_distance(last, l[i]) as i32),
                    )
                    &&& self.unload_queue@ == u.skip(nu)
                    &&& self.load_queue@ == l.skip(nl)
                    &&& nu < n ==> nl == n - nu
                }),
                self.loaded@ == after_changes(loaded, changes@),
                self.want_loaded@ == want,
                self.last_position == last,
            decreases BLOCK_LOAD_SPEED - n,
        {
            let ghost before = changes@;
            if self.unload_queue.len() > 0 {
                let p = self.unload_queue.remove(0);
                self.loaded = Self::without_block(&self.loaded, &p);
                changes.push(SurroundingsChange::Unload(p));
                proof {
                    assert(changes@.drop_last() =~= before);
                }
            } else {
                let p = self.load_queue.remove(0);
                if !Self::holds(&self.loaded, &p) {
                    self.loaded.push(p);
                }
                let distance: i32 = match self.last_position {
                    Some(f) => {
                        let d = radius_between(&f, &p);
                        if d <= i32::MAX as i64 {
                            d as i32
                        } else {
                            i32::MAX
                        }
                    },
                    None => 0,
                };
                changes.push(SurroundingsChange::Load(p, distance));
                proof {
                    assert(changes@.drop_last() =~= before);
                }
            }
            n = n + 1;
            proof {
                let nu = if u.len() < n { u.len() as int } else { n as int };
                let nl = if l.len() < n - nu { l.len() as int } else { n - nu };
                assert(changes@ =~= Seq::new(nu as nat, |i: int| SurroundingsChange::Unload(u[i])) + Seq::new(
                    nl as nat,
                    |i: int| SurroundingsChange::Load(l[i], focus_distance(last, l[i]) as i32),
                ));
                assert(self.unload_queue@ =~= u.skip(nu));
                assert(self.load_queue@ =~= l.skip(nl));
            }
        }
        changes
    }

    /// When the focus moves to `block_position`: want the cube around it,
    /// nearest first; queue for loading each wanted block not loaded yet
    /// (in place of the old load queue); and queue for unloading each block
    /// that was wanted and is loaded but is no longer wanted.
    pub fn update_queues(&mut self, block_position: BlockPosition)
        requires
            i32::MIN < block_position.x < i32::MAX,
            i32::MIN < block_position.y < i32::MAX,
            i32::MIN < block_position.z < i32::MAX,
        ensures
            old(self).last_position == Some(block_position) ==> *final(self) == *old(self),
            old(self).last_position != Some(block_position) ==> {
                let want = wanted_around(block_position);
                &&& final(self).last_position == Some(block_position)
                &&& final(self).want_loaded@ == want
                &&& final(self).loaded@ == old(self).loaded@
                &&& final(self).load_queue@ == want.filter(not_loaded(old(self).loaded@))
                &&& final(self).unload_queue@ == old(self).unload_queue@ + old(self).want_loaded@.filter(
                    unwanted(old(self).loaded@, want),
                )
            },
    {
        if self.last_position == Some(block_position) {
            return;
        }
        self.last_position = Some(block_position);
        let ghost want = wanted_around(block_position);
        let ghost loaded = self.loaded@;
        let mut want_loaded: Vec<BlockPosition> = Vec::new();
        let mut i: i32 = 0;
        while i < 27
            invariant
                0 <= i <= 27,
                want == wanted_around(block_position),
                want_loaded@ == want.subrange(0, i as int),
                i32::MIN < block_position.x < i32::MAX,
                i32::MIN < block_position.y < i32::MAX,
                i32::MIN < block_position.z < i32::MAX,
            decreases 27 - i,
        {
            let c: i32 = if i == 0 {
                13
            } else if i <= 13 {
                i - 1
            } else {
                i
            };
            let p = BlockPosition {
                x: block_position.x + (c / 9 - 1),
                y: block_position.y + ((c / 3) % 3 - 1),
                z: block_position.z + (c % 3 - 1),
            };
            want_loaded.push(p);
            i = i + 1;
            assert(want_loaded@ =~= want.subrange(0, i as int));
        }
        assert(want_loaded@ =~= want);

        let ghost old_unload = self.unload_queue@;
        let ghost old_want = self.want_loaded@;
        let mut k: usize = 0;
        while k < self.want_loaded.len()
            invariant
                k <= old_want.len(),
                self.want_loaded@ == old_want,
                self.loaded@ == loaded,
                self.last_position == Some(block_position),
                want_loaded@ == want,
                self.unload_queue@ == old_unload + old_want.subrange(0, k as int).filter(unwanted(loaded, want)),
            decreases old_want.len() - k,
        {
            let p = self.want_loaded[k];
            proof {
                assert(old_want.subrange(0, k as int + 1) =~= old_want.subrange(0, k as int).push(p));
                old_want.subrange(0, k as int).lemma_filter_push(p, unwanted(loaded, want));
            }
            if Self::holds(&self.loaded, &p) && !Self::holds(&want_loaded, &p) {
                self.unload_queue.push(p);
                assert(self.unload_queue@ =~= old_unload + old_want.subrange(0, k as int + 1).filter(unwanted(loaded, want)));
            } else {
                assert(self.unload_queue@ =~= old_unload + old_want.subrange(0, k as int + 1).filter(unwanted(loaded, want)));
            }
            k = k + 1;
        }
        assert(old_want.subrange(0, old_want.len() as int) =~= old_want);

        let mut load_queue: Vec<BlockPosition> = Vec::new();
        let mut j: usize = 0;
        while j < want_loaded.len()
            invariant
                j <= want.len(),
                want_loaded@ == want,
                self.loaded@ == loaded,
                self.last_position == Some(block_position),
                self.unload_queue@ == old_unload + old_want.filter(unwanted(loaded, want)),
                load_queue@ == want.subrange(0, j as int).filter(not_loaded(loaded)),
            decreases want.len() - j,
        {
            let p = want_loaded[j];
            proof {
                assert(want.subrange(0, j as int + 1) =~= want.subrange(0, j as int).push(p));
                want.subrange(0, j as int).lemma_filter_push(p, not_loaded(loaded));
            }
            if !Self::holds(&self.loaded, &p) {
                load_queue.push(p);
            }
            j = j + 1;
        }
        assert(want.subrange(0, want.len() as int) =~= want);
        self.load_queue = load_queue;
        self.want_loaded = want_loaded;
        assert(self.load_queue@ == want.filter(not_loaded(loaded)));
        assert(self.unload_queue@ == old_unload + old_want.filter(unwanted(loaded, want)));
        assert(self.want_loaded@ == want);
        assert(self.loaded@ == loaded);
    }
}

} // verus!
