//! Blocks whose mesh is being generated. Each holds the entity id of the
//! solid placeholder box that stands in for it meanwhile.

use crate::lod::BlockPosition;
use crate::mirror::EntityId;
use vstd::prelude::*;

verus! {

/// The placeholder recorded for `p` in `s`, searched from index `i` on.
pub open spec fn placeholder_from(s: Seq<(BlockPosition, EntityId)>, p: BlockPosition, i: nat) -> Option<EntityId>
    decreases s.len() - i,
{
    if i >= s.len() {
        None
    } else if s[i as int].0 == p {
        Some(s[i as int].1)
    } else {
        placeholder_from(s, p, i + 1)
    }
}

/// Searching from `i` finds what the first match at or after `k` holds,
/// when nothing between matches.
proof fn lemma_placeholder_skip(s: Seq<(BlockPosition, EntityId)>, p: BlockPosition, i: nat, k: nat)
    requires
        i <= k <= s.len(),
        forall|j: int| i <= j < k ==> s[j].0 != p,
    ensures
        placeholder_from(s, p, i) == placeholder_from(s, p, k),
    decreases k - i,
{
    if i < k {
        lemma_placeholder_skip(s, p, i + 1, k);
    }
}

/// Appending an entry for another block changes nothing at `q`.
proof fn lemma_placeholder_push(s: Seq<(BlockPosition, EntityId)>, x: (BlockPosition, EntityId), q: BlockPosition, i: nat)
    requires
        x.0 != q,
    ensures
        placeholder_from(s.push(x), q, i) == placeholder_from(s, q, i),
    decreases s.len() + 1 - i,
{
    if i < s.len() {
        assert(s.push(x)[i as int] == s[i as int]);
        lemma_placeholder_push(s, x, q, i + 1);
    } else if i == s.len() {
        assert(s.push(x)[i as int] == x);
        assert(placeholder_from(s.push(x), q, i + 1).is_none());
    }
}

/// Removing the entry at `k`, which is not for `q`, changes nothing at `q`.
proof fn lemma_placeholder_remove(s: Seq<(BlockPosition, EntityId)>, k: int, q: BlockPosition, i: nat)
    requires
        0 <= k < s.len(),
        s[k].0 != q,
        i <= k,
    ensures
        placeholder_from(s.remove(k), q, i) == placeholder_from(s, q, i),
    decreases k - i,
{
    let r = s.remove(k);
    if i < k {
        assert(r[i as int] == s[i as int]);
        lemma_placeholder_remove(s, k, q, i + 1);
    } else {
        lemma_placeholder_tail(s, k, q, (k + 1) as nat);
        assert(s[k].0 != q);
    }
}

/// Past the removed entry, the two lists agree shifted by one.
proof fn lemma_placeholder_tail(s: Seq<(BlockPosition, EntityId)>, k: int, q: BlockPosition, i: nat)
    requires
        0 <= k < s.len(),
        k + 1 <= i,
    ensures
        placeholder_from(s.remove(k), q, (i - 1) as nat) == placeholder_from(s, q, i),
    decreases s.len() - i,
{
    if i < s.len() {
        assert(s.remove(k)[i - 1] == s[i as int]);
        lemma_placeholder_tail(s, k, q, i + 1);
    }
}

/// Blocks marked in progress, each once, with their placeholder's id.
pub struct InProgressTerrain {
    blocks: Vec<(BlockPosition, EntityId)>,
}

impl InProgressTerrain {
    /// The placeholder of block `p`, if it is in progress.
    pub closed spec fn placeholder(self, p: BlockPosition) -> Option<EntityId> {
        placeholder_from(self.blocks@, p, 0)
    }

    pub closed spec fn wf(self) -> bool {
        forall|i: int, j: int|
            0 <= i < j < self.blocks@.len() ==> (#[trigger] self.blocks@[i]).0 != (#[trigger] self.blocks@[j]).0
    }

    pub fn new() -> (r: InProgressTerrain)
        ensures
            r.wf(),
            forall|p: BlockPosition| r.placeholder(p).is_none(),
    {
        InProgressTerrain { blocks: Vec::new() }
    }

    /// Where block `p` is recorded.
    fn index_of(&self, p: &BlockPosition) -> (r: Option<usize>)
        ensures
            match r {
                Some(i) => {
                    &&& i < self.blocks@.len()
                    &&& self.blocks@[i as int].0 == *p
                    &&& self.placeholder(*p) == Some(self.blocks@[i as int].1)
                },
                None => self.placeholder(*p).is_none(),
            },
    {
        let mut k: usize = 0;
        while k < self.blocks.len()
            invariant
                k <= self.blocks@.len(),
                forall|j: int| 0 <= j < k ==> self.blocks@[j].0 != *p,
            decreases self.blocks@.len() - k,
        {
            if self.blocks[k].0 == *p {
                proof {
                    lemma_placeholder_skip(self.blocks@, *p, 0, k as nat);
                }
                return Some(k);
            }
            k = k + 1;
        }
        proof {
            lemma_placeholder_skip(self.blocks@, *p, 0, k as nat);
        }
        None
    }

    /// Whether block `p` is in progress.
    pub fn contains(&self, block_position: &BlockPosition) -> (r: bool)
        ensures
            r == self.placeholder(*block_position).is_some(),
    {
        self.index_of(block_position).is_some()
    }

    /// Mark a block as in progress, with placeholder `id`. A block that is
    /// already in progress keeps its placeholder, and `false` is returned.
    pub fn insert(&mut self, block_position: &BlockPosition, id: EntityId) -> (r: bool)
        requires
            old(self).wf(),
        ensures
            final(self).wf(),
            r == old(self).placeholder(*block_position).is_none(),
            final(self).placeholder(*block_position) == if r {
                Some(id)
            } else {
                old(self).placeholder(*block_position)
            },
            forall|q: BlockPosition|
                q != *block_position ==> #[trigger] final(self).placeholder(q) == old(self).placeholder(q),
    {
        if self.index_of(block_position).is_some() {
            return false;
        }
        let ghost s = self.blocks@;
        let x = (*block_position, id);
        proof {
            assert forall|q: BlockPosition| q != *block_position implies #[trigger] placeholder_from(s.push(x), q, 0)
                == placeholder_from(s, q, 0) by {
                lemma_placeholder_push(s, x, q, 0);
            }
            assert forall|j: int| 0 <= j < s.len() implies s[j].0 != *block_position by {
                if s[j].0 == *block_position {
                    lemma_placeholder_skip(s, *block_position, 0, j as nat);
                }
            }
            lemma_placeholder_skip(s.push(x), *block_position, 0, s.len());
        }
        self.blocks.push(x);
        proof {
            assert(self.blocks@ == s.push(x));
            assert forall|i: int, j: int|
                0 <= i < j < self.blocks@.len() implies (#[trigger] self.blocks@[i]).0 != (#[trigger] self.blocks@[j]).0 by {
                if j < s.len() {
                    assert(s[i].0 != s[j].0);
                } else {
                    assert(self.blocks@[i] == s[i]);
                }
            }
        }
        true
    }

    /// Unmark a block, because its mesh is loaded or it was unloaded.
    /// Returns its placeholder's id, if it was in progress.
    pub fn remove(&mut self, block_position: &BlockPosition) -> (r: Option<EntityId>)
        requires
            old(self).wf(),
        ensures
            final(self).wf(),
            r == old(self).placeholder(*block_position),
            final(self).placeholder(*block_position).is_none(),
            forall|q: BlockPosition|
                q != *block_position ==> #[trigger] final(self).placeholder(q) == old(self).placeholder(q),
    {
        let ghost s = self.blocks@;
        match self.index_of(block_position) {
            None => None,
            Some(i) => {
                let (_, id) = self.blocks.remove(i);
                proof {
                    let r = s.remove(i as int);
                    assert(self.blocks@ == r);
                    assert forall|q: BlockPosition| q != *block_position implies #[trigger] placeholder_from(r, q, 0)
                        == placeholder_from(s, q, 0) by {
                        lemma_placeholder_remove(s, i as int, q, 0);
                    }
                    assert forall|j: int| 0 <= j < r.len() implies r[j].0 != *block_position by {
                        let j2 = if j < i { j } else { j + 1 };
                        assert(r[j] == s[j2]);
                        if j2 != i {
                            if j2 < i {
                                assert(s[j2].0 != s[i as int].0);
                            } else {
                                assert(s[i as int].0 != s[j2].0);
                            }
                        }
                    }
                    lemma_placeholder_skip(r, *block_position, 0, r.len());
                    assert forall|a: int, b: int|
                        0 <= a < b < r.len() implies (#[trigger] r[a]).0 != (#[trigger] r[b]).0 by {
                        let a2 = if a < i { a } else { a + 1 };
                        let b2 = if b < i { b } else { b + 1 };
                        assert(r[a] == s[a2]);
                        assert(r[b] == s[b2]);
                        assert(s[a2].0 != s[b2].0);
                    }
                }
                Some(id)
            },
        }
    }
}

} // verus!
