//! The work bus between the threads that receive client requests, update
//! the world and generate terrain: which generation work goes first, and
//! how repeated requests are merged.

use crate::lod::{BlockPosition, LODIndex, OwnerId};
use std::cmp::Ordering;
use vstd::prelude::*;

verus! {

/// Unique client ID.
#[derive(Debug, Clone, Copy, PartialEq, Eq, Hash, Structural)]
pub struct ClientId(pub u32);

impl Default for ClientId {
    fn default() -> (r: ClientId)
        ensures
            r == ClientId(0),
    {
        ClientId(0)
    }
}

impl ClientId {
    /// The id `rhs` places after this one.
    pub fn add(self, rhs: u32) -> (r: ClientId)
        requires
            self.0 + rhs <= u32::MAX,
        ensures
            r.0 == self.0 + rhs,
    {
        ClientId(self.0 + rhs)
    }
}

/// Why a block is being sent to a client.
#[derive(Debug, Clone, Copy, PartialEq, Eq, Structural)]
pub enum BlockReason {
    /// The client asked for it.
    Requested,
    /// The block has been updated.
    Updated,
}

/// Who a block load is for.
#[derive(Debug, Clone, Copy, PartialEq, Eq, Structural)]
pub enum LoadReason {
    /// The server itself, on behalf of an owner.
    Local(OwnerId),
    /// A client, with its priority: smaller is more urgent.
    ForClient(ClientId, u16),
}

/// A load's urgency: client loads outrank local ones, and among client
/// loads a smaller priority number outranks a larger one.
pub open spec fn reason_rank(r: LoadReason) -> int {
    match r {
        LoadReason::Local(_) => 0,
        LoadReason::ForClient(_, p) => 0x1_0000 - p,
    }
}

/// The ordering of two ranks.
pub open spec fn rank_order(a: int, b: int) -> Ordering {
    if a < b {
        Ordering::Less
    } else if a == b {
        Ordering::Equal
    } else {
        Ordering::Greater
    }
}

impl LoadReason {
    /// Compare by urgency; the more urgent reason is the greater.
    pub fn cmp(&self, other: &LoadReason) -> (r: Ordering)
        ensures
            r == rank_order(reason_rank(*self), reason_rank(*other)),
    {
        match (self, other) {
            (LoadReason::Local(_), LoadReason::Local(_)) => Ordering::Equal,
            (LoadReason::ForClient(_, _), LoadReason::Local(_)) => Ordering::Greater,
            (LoadReason::Local(_), LoadReason::ForClient(_, _)) => Ordering::Less,
            (LoadReason::ForClient(_, p1), LoadReason::ForClient(_, p2)) => {
                if p1 < p2 {
                    Ordering::Greater
                } else if p1 == p2 {
                    Ordering::Equal
                } else {
                    Ordering::Less
                }
            },
        }
    }
}

/// What orders generation work: brushes go before every load.
#[derive(Debug, Clone, Copy, PartialEq, Eq, Structural)]
pub enum ServerToGaiaCmp {
    Load(LoadReason),
    Brush,
}

/// The rank of a piece of work; higher goes first.
pub open spec fn cmp_rank(c: ServerToGaiaCmp) -> int {
    match c {
        ServerToGaiaCmp::Load(r) => reason_rank(r),
        ServerToGaiaCmp::Brush => 0x1_0001,
    }
}

impl ServerToGaiaCmp {
    /// Compare by rank; the work that goes first is the greater.
    pub fn cmp(&self, other: &ServerToGaiaCmp) -> (r: Ordering)
        ensures
            r == rank_order(cmp_rank(*self), cmp_rank(*other)),
    {
        match (self, other) {
            (ServerToGaiaCmp::Brush, ServerToGaiaCmp::Brush) => Ordering::Equal,
            (ServerToGaiaCmp::Brush, ServerToGaiaCmp::Load(_)) => Ordering::Greater,
            (ServerToGaiaCmp::Load(_), ServerToGaiaCmp::Brush) => Ordering::Less,
            (ServerToGaiaCmp::Load(a), ServerToGaiaCmp::Load(b)) => a.cmp(b),
        }
    }
}

/// Work for the terrain generator: load a block at a LOD, or apply a brush
/// of type `B`.
pub enum ServerToGaia<B> {
    Load(BlockPosition, LODIndex, LoadReason),
    Brush(B),
}

/// The rank of a message's work.
pub open spec fn to_cmp_spec<B>(m: ServerToGaia<B>) -> ServerToGaiaCmp {
    match m {
        ServerToGaia::Load(_, _, r) => ServerToGaiaCmp::Load(r),
        ServerToGaia::Brush(_) => ServerToGaiaCmp::Brush,
    }
}

/// The rank of a message.
pub open spec fn rank<B>(m: ServerToGaia<B>) -> int {
    cmp_rank(to_cmp_spec(m))
}

impl<B> ServerToGaia<B> {
    pub fn to_cmp(&self) -> (r: ServerToGaiaCmp)
        ensures
            r == to_cmp_spec(*self),
    {
        match self {
            ServerToGaia::Load(_, _, x) => ServerToGaiaCmp::Load(*x),
            ServerToGaia::Brush(_) => ServerToGaiaCmp::Brush,
        }
    }
}

/// The work a client's request for a block becomes: a load on the
/// client's behalf, with its priority.
pub fn request_block<B>(client: ClientId, position: BlockPosition, lod: LODIndex, priority: u16) -> (r: ServerToGaia<B>)
    ensures
        r == ServerToGaia::<B>::Load(position, lod, LoadReason::ForClient(client, priority)),
{
    ServerToGaia::Load(position, lod, LoadReason::ForClient(client, priority))
}

/// Both messages are loads of the same block at the same LOD for the same
/// reason.
pub open spec fn same_load<B>(a: ServerToGaia<B>, b: ServerToGaia<B>) -> bool {
    match (a, b) {
        (ServerToGaia::Load(p1, l1, r1), ServerToGaia::Load(p2, l2, r2)) => p1 == p2 && l1 == l2 && r1 == r2,
        _ => false,
    }
}

/// The messages of `s` that are not the same load as `m`, in order.
pub open spec fn without<B>(s: Seq<ServerToGaia<B>>, m: ServerToGaia<B>) -> Seq<ServerToGaia<B>>
    decreases s.len(),
{
    if s.len() == 0 {
        s
    } else if same_load(s.last(), m) {
        without(s.drop_last(), m)
    } else {
        without(s.drop_last(), m).push(s.last())
    }
}

/// `i` is the first of the highest-ranked messages in `s`.
pub open spec fn first_highest<B>(s: Seq<ServerToGaia<B>>, i: int) -> bool {
    &&& 0 <= i < s.len()
    &&& forall|j: int| 0 <= j < s.len() ==> rank(#[trigger] s[j]) <= rank(s[i])
    &&& forall|j: int| 0 <= j < i ==> rank(#[trigger] s[j]) < rank(s[i])
}

/// Pending generation work, in the order it was enqueued.
pub struct WorkBus<B> {
    items: Vec<ServerToGaia<B>>,
}

impl<B> WorkBus<B> {
    /// The pending messages, oldest first.
    pub closed spec fn pending(self) -> Seq<ServerToGaia<B>> {
        self.items@
    }

    pub fn new() -> (r: WorkBus<B>)
        ensures
            r.pending().len() == 0,
    {
        WorkBus { items: Vec::new() }
    }

    pub fn len(&self) -> (r: usize)
        ensures
            r == self.pending().len(),
    {
        self.items.len()
    }

    /// Enqueue a message. A load replaces any pending load of the same
    /// block at the same LOD for the same reason.
    pub fn push(&mut self, msg: ServerToGaia<B>)
        ensures
            final(self).pending() == without(old(self).pending(), msg).push(msg),
    {
        let mut old_items: Vec<ServerToGaia<B>> = Vec::new();
        std::mem::swap(&mut old_items, &mut self.items);
        let ghost s = old_items@;
        let mut kept: Vec<ServerToGaia<B>> = Vec::new();
        let mut rest: Vec<ServerToGaia<B>> = Vec::new();
        // Take the messages from the back so that the kept ones can be
        // restored in order.
        while old_items.len() > 0
            invariant
                s.subrange(0, old_items@.len() as int) == old_items@,
                old_items@.len() <= s.len(),
                without(s, msg) == without(old_items@, msg) + kept@.reverse(),
            decreases old_items@.len(),
        {
            let ghost before = old_items@;
            let m = old_items.pop().unwrap();
            assert(before.drop_last() == old_items@);
            assert(before.last() == m);
            if !Self::is_same_load(&m, &msg) {
                kept.push(m);
                assert(kept@.reverse() =~= seq![m] + kept@.drop_last().reverse());
                assert(without(before, msg) == without(old_items@, msg).push(m));
                assert(without(old_items@, msg).push(m) + kept@.drop_last().reverse() =~= without(
                    old_items@,
                    msg,
                ) + kept@.reverse());
            } else {
                rest.push(m);
            }
            assert(s.subrange(0, old_items@.len() as int) =~= old_items@);
        }
        assert(old_items@ =~= Seq::<ServerToGaia<B>>::empty());
        assert(without(old_items@, msg) =~= Seq::<ServerToGaia<B>>::empty());
        while kept.len() > 0
            invariant
                without(s, msg) == self.items@ + kept@.reverse(),
            decreases kept@.len(),
        {
            let ghost before = kept@;
            let m = kept.pop().unwrap();
            assert(before.reverse() =~= seq![m] + kept@.reverse());
            self.items.push(m);
            assert(self.items@.drop_last() + (seq![m] + kept@.reverse()) =~= self.items@ + kept@.reverse());
        }
        assert(self.items@ =~= without(s, msg));
        self.items.push(msg);
    }

    /// Whether `a` and `b` are loads of the same block at the same LOD for
    /// the same reason.
    fn is_same_load(a: &ServerToGaia<B>, b: &ServerToGaia<B>) -> (r: bool)
        ensures
            r == same_load(*a, *b),
    {
        match (a, b) {
            (ServerToGaia::Load(p1, l1, r1), ServerToGaia::Load(p2, l2, r2)) => *p1 == *p2 && l1.0 == l2.0
                && *r1 == *r2,
            _ => false,
        }
    }

    /// Take the most urgent pending message: the first enqueued of those of
    /// the highest rank.
    pub fn pop(&mut self) -> (r: Option<ServerToGaia<B>>)
        ensures
            old(self).pending().len() == 0 ==> r.is_none() && final(self).pending() == old(self).pending(),
            old(self).pending().len() > 0 ==> exists|i: int|
                first_highest(old(self).pending(), i) && r == Some(old(self).pending()[i])
                    && final(self).pending() == old(self).pending().remove(i),
    {
        if self.items.len() == 0 {
            return None;
        }
        let mut best: usize = 0;
        let mut best_rank = Self::rank_of(&self.items[0]);
        let mut k: usize = 1;
        while k < self.items.len()
            invariant
                1 <= k <= self.items@.len(),
                best < k,
                best_rank == rank(self.items@[best as int]),
                forall|j: int| 0 <= j < k ==> rank(#[trigger] self.items@[j]) <= best_rank,
                forall|j: int| 0 <= j < best ==> rank(#[trigger] self.items@[j]) < best_rank,
            decreases self.items@.len() - k,
        {
            let r = Self::rank_of(&self.items[k]);
            if r > best_rank {
                best = k;
                best_rank = r;
            }
            k = k + 1;
        }
        let ghost s = self.items@;
        let m = self.items.remove(best);
        assert(first_highest(s, best as int));
        Some(m)
    }

    /// The rank of a message.
    fn rank_of(m: &ServerToGaia<B>) -> (r: u32)
        ensures
            r == rank(*m),
    {
        match m {
            ServerToGaia::Load(_, _, LoadReason::Local(_)) => 0,
            ServerToGaia::Load(_, _, LoadReason::ForClient(_, p)) => 0x1_0000 - *p as u32,
            ServerToGaia::Brush(_) => 0x1_0001,
        }
    }
}

/// Priority on the bus: a pending brush is taken before any pending load,
/// and a client load before any client load with a larger priority number,
/// or any local load.
pub proof fn lemma_bus_priority<B>(s: Seq<ServerToGaia<B>>, i: int, j: int, k: int)
    requires
        first_highest(s, k),
        0 <= i < s.len(),
        0 <= j < s.len(),
        match (s[i], s[j]) {
            (ServerToGaia::Brush(_), ServerToGaia::Load(_, _, _)) => true,
            (ServerToGaia::Load(_, _, LoadReason::ForClient(_, p1)), ServerToGaia::Load(_, _, LoadReason::ForClient(_, p2))) => p1 < p2,
            (ServerToGaia::Load(_, _, LoadReason::ForClient(_, _)), ServerToGaia::Load(_, _, LoadReason::Local(_))) => true,
            _ => false,
        },
    ensures
        k != j,
{
    assert(rank(s[i]) <= rank(s[k]));
}

} // verus!
