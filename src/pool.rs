//! The transactional pool engine: per-TXG state, packing of written blocks
//! into data objects, frees, and the end of a TXG. The engine decides; the
//! caller performs the object-store work that each step hands back.
use vstd::prelude::*;
use crate::data_object::DataObjectPhys;
use crate::ids::{BlockID, ObjectID, PoolGUID, TXG};
use crate::logs::{allocs_paired, ObjectSizeLogEntry, PendingFreesLogEntry, ReplayError, StorageObjectLogEntry,
    apply_storage_entry, replay_storage_log, replay_storage_object_log};
use crate::object_block_map::{ObjectBlockMap, last_obj_of, may_append};
use crate::sorted::{find_key, keys_increasing, pairs_to_map, upsert};

verus! {

/// A data object is flushed once its blocks reach this many bytes.
pub const MAX_BYTES_PER_OBJECT: u32 = 1048576;

/// Pool statistics, persisted in each uberblock. They saturate rather than
/// wrap.
#[derive(Clone, Copy, Debug, PartialEq, Eq, Structural)]
pub struct PoolStatsPhys {
    /// Does not include the pending object.
    pub blocks_count: u64,
    /// Does not include the pending object.
    pub blocks_bytes: u64,
    pub pending_frees_count: u64,
    pub pending_frees_bytes: u64,
    pub objects_count: u64,
}

/// `a + b`, or `u64::MAX` where that would not fit.
pub open spec fn sat_add(a: u64, b: int) -> u64 {
    if a + b > u64::MAX { u64::MAX } else { (a + b) as u64 }
}

/// `a - b`, or 0 where that would be negative.
pub open spec fn sat_sub(a: u64, b: int) -> u64 {
    if a - b < 0 { 0 } else { (a - b) as u64 }
}

/// All statistics at zero.
pub open spec fn zero_stats() -> PoolStatsPhys {
    PoolStatsPhys { blocks_count: 0, blocks_bytes: 0, pending_frees_count: 0, pending_frees_bytes: 0, objects_count: 0 }
}

impl PoolStatsPhys {
    /// All statistics at zero.
    pub fn zero() -> (r: PoolStatsPhys)
        ensures
            r == zero_stats(),
    {
        PoolStatsPhys { blocks_count: 0, blocks_bytes: 0, pending_frees_count: 0, pending_frees_bytes: 0, objects_count: 0 }
    }
}

/// A misuse of the engine's protocol by its caller.
#[derive(Clone, Copy, Debug, PartialEq, Eq, Structural)]
pub enum ProtocolError {
    /// A TXG is already open.
    TxgInProgress,
    /// No TXG is open.
    NoTxgInProgress,
    /// The TXG is not above the last committed one.
    TxgNotAfterLast,
    /// The block id is the largest one, or the block is longer than a data
    /// object can count.
    InvalidBlock,
    /// A freed block was never written.
    FreeOfUnwrittenBlock,
    /// An overwritten block lies below every data object.
    BlockNotInAnyObject,
    /// The object being filled, or writes still waiting, remain at the end of
    /// the TXG.
    WritesPending,
    /// The pool is resuming and the call needs it not to be, or the other way round.
    WrongResumeState,
    /// No more object ids are left.
    ObjectIdsExhausted,
}

/// A data object to PUT, with the blocks whose writes complete once it is
/// persisted.
pub struct ObjectWrite {
    pub phys: DataObjectPhys,
    pub waiters: Vec<BlockID>,
}

/// The data object being filled, or, between TXGs and while resuming, the next
/// block id to use.
pub enum PendingObjectState {
    Pending(DataObjectPhys, Vec<BlockID>),
    NotPending(BlockID),
}

impl PendingObjectState {
    pub open spec fn next_block_spec(&self) -> u64 {
        match self {
            PendingObjectState::Pending(phys, _) => phys.next_block.0,
            PendingObjectState::NotPending(b) => b.0,
        }
    }

    pub fn is_pending(&self) -> (r: bool)
        ensures
            r == (self is Pending),
    {
        match self {
            PendingObjectState::Pending(..) => true,
            PendingObjectState::NotPending(..) => false,
        }
    }

    /// The next block id that the pool will pack.
    pub fn next_block(&self) -> (r: BlockID)
        ensures
            r.0 == self.next_block_spec(),
    {
        match self {
            PendingObjectState::Pending(phys, _) => phys.next_block,
            PendingObjectState::NotPending(b) => *b,
        }
    }

    /// A fresh, empty pending object.
    pub fn new_pending(guid: PoolGUID, object: ObjectID, next_block: BlockID, txg: TXG) -> (r: PendingObjectState)
        ensures
            r matches PendingObjectState::Pending(phys, waiters) && phys.wf() && phys.guid == guid
                && phys.object == object && phys.min_block == next_block && phys.next_block == next_block
                && phys.min_txg == txg && phys.max_txg == txg && phys.blocks_view().len() == 0
                && waiters@.len() == 0,
    {
        PendingObjectState::Pending(DataObjectPhys::new(guid, object, next_block, txg), Vec::new())
    }
}

/// The pool's objects include object `obj` with first block `block`.
pub open spec fn has_object(objs: Seq<(u64, u64)>, obj: u64, block: u64) -> bool {
    exists|k: int| 0 <= k < objs.len() && objs[k] == (obj, block)
}

/// Growing keeps every object.
pub proof fn lemma_grow_keeps_object(a: Seq<(u64, u64)>, b: Seq<(u64, u64)>, obj: u64, block: u64)
    requires
        objects_grow(a, b),
        has_object(a, obj, block),
    ensures
        has_object(b, obj, block),
{
    let k = choose|k: int| 0 <= k < a.len() && a[k] == (obj, block);
    assert(b[k] == a[k]);
}

/// The requests of `r` at or past block `nb`, in order.
pub open spec fn requests_at_or_after(r: Seq<u64>, nb: u64) -> Seq<u64>
    decreases r.len(),
{
    if r.len() == 0 {
        r
    } else if r.last() >= nb {
        requests_at_or_after(r.drop_last(), nb).push(r.last())
    } else {
        requests_at_or_after(r.drop_last(), nb)
    }
}

/// Requests all at or past `nb` are all kept.
pub proof fn lemma_requests_all_kept(r: Seq<u64>, nb: u64)
    requires
        forall|i: int| 0 <= i < r.len() ==> #[trigger] r[i] >= nb,
    ensures
        requests_at_or_after(r, nb) == r,
    decreases r.len(),
{
    if r.len() > 0 {
        let d = r.drop_last();
        assert forall|i: int| 0 <= i < d.len() implies #[trigger] d[i] >= nb by {
            assert(d[i] == r[i]);
        }
        lemma_requests_all_kept(d, nb);
        assert(r.last() == r[r.len() - 1]);
        assert(d.push(r.last()) =~= r);
    }
}

/// `b` holds the pairs of `a`, at the same indexes, and maybe more after them.
pub open spec fn objects_grow(a: Seq<(u64, u64)>, b: Seq<(u64, u64)>) -> bool {
    a.len() <= b.len() && forall|i: int| 0 <= i < a.len() ==> #[trigger] b[i] == a[i]
}

/// An object handed out to PUT keeps the data-object invariant, holds every
/// block of [min_block, next_block), and was written in one TXG.
pub open spec fn handed_out_ok(phys: DataObjectPhys) -> bool {
    phys.wf() && contiguous(phys) && phys.min_txg == phys.max_txg
}

/// `waiters` lists the blocks of `phys`, in order.
pub open spec fn waiters_match(phys: DataObjectPhys, waiters: Seq<BlockID>) -> bool {
    waiters.len() == phys.blocks_view().len()
        && forall|i: int| 0 <= i < waiters.len() ==> (#[trigger] waiters[i]).0 == phys.blocks_view()[i].0
}

/// The blocks of a pending object run without gap from its first block.
pub open spec fn contiguous(phys: DataObjectPhys) -> bool {
    &&& phys.next_block.0 - phys.min_block.0 == phys.blocks_view().len()
    &&& forall|i: int| 0 <= i < phys.blocks_view().len() ==> #[trigger] phys.blocks_view()[i].0 == phys.min_block.0 + i
}

/// The state of a pool that changes while a TXG syncs.
pub struct PoolSyncingState {
    guid: PoolGUID,
    block_to_obj: ObjectBlockMap,
    pending_object: PendingObjectState,
    /// Writes received ahead of the next block to pack, in block order.
    pending_unordered_writes: Vec<(u64, Vec<u8>)>,
    /// Blocks after whose arrival the pending object is to be flushed.
    pending_flushes: Vec<u64>,
    last_txg: TXG,
    syncing_txg: Option<TXG>,
    stats: PoolStatsPhys,
    /// Data objects handed out for writing and not yet collected.
    puts: Vec<ObjectWrite>,
    /// Entries appended to each log in this TXG and not yet flushed.
    storage_appends: Vec<StorageObjectLogEntry>,
    size_appends: Vec<ObjectSizeLogEntry>,
    frees_appends: Vec<PendingFreesLogEntry>,
    /// Whether each log is to be cleared before this TXG's entries are added.
    storage_cleared: bool,
    size_cleared: bool,
    frees_cleared: bool,
    /// Data objects to delete once the TXG has committed.
    objects_to_delete: Vec<ObjectID>,
    /// A reclaim pass was started and its outcome not yet applied.
    reclaim_in_progress: bool,
    /// Everything in the storage-object log since it was last cleared,
    /// including this TXG's entries.
    storage_log: Ghost<Seq<StorageObjectLogEntry>>,
    /// The storage-object log as of the last committed TXG.
    storage_committed: Ghost<Seq<StorageObjectLogEntry>>,
    /// A reclaim outcome was applied in the TXG being ended.
    reclaim_applied: Ghost<bool>,
}

impl PoolSyncingState {
    /// The pool's invariant. Replaying the storage-object log yields exactly
    /// the object/first-block map; the object being filled comes after every
    /// object of the map and holds contiguous blocks; the writes waiting are
    /// at or after the next block to pack.
    pub closed spec fn wf(&self) -> bool {
        &&& self.wf_mid()
        &&& !self.storage_cleared
        &&& !self.size_cleared
        &&& !self.frees_cleared
        &&& !self.reclaim_applied@
        &&& self.objects_to_delete@.len() == 0
    }

    /// The invariant while a TXG is being ended, when logs may be marked to
    /// be cleared and a reclaim outcome may have been applied.
    closed spec fn wf_mid(&self) -> bool {
        &&& self.block_to_obj.wf()
        &&& (!self.storage_cleared && !self.reclaim_applied@ ==> allocs_paired(self.storage_appends@, self.size_appends@))
        &&& (self.size_cleared || self.frees_cleared ==> self.reclaim_applied@)
        &&& forall|i: int| 0 <= i < self.puts@.len() ==> handed_out_ok(#[trigger] self.puts@[i].phys)
            && waiters_match(self.puts@[i].phys, self.puts@[i].waiters@)
        &&& replay_storage_log(self.storage_log@) == Some(self.block_to_obj@)
        &&& self.stats.objects_count == self.block_to_obj@.len()
        &&& self.storage_log@ == (if self.storage_cleared { Seq::empty() } else { self.storage_committed@ })
            + self.storage_appends@
        &&& (self.syncing_txg is None ==> self.storage_appends@.len() == 0 && !self.storage_cleared)
        &&& keys_increasing(self.pending_unordered_writes@)
        &&& forall|i: int| 0 <= i < self.pending_unordered_writes@.len()
            ==> #[trigger] self.pending_unordered_writes@[i].0 >= self.pending_object.next_block_spec()
                && self.pending_unordered_writes@[i].0 < u64::MAX
                && self.pending_unordered_writes@[i].1@.len() <= u32::MAX
        &&& match self.pending_object {
            PendingObjectState::Pending(phys, waiters) => {
                &&& phys.wf()
                &&& contiguous(phys)
                &&& waiters_match(phys, waiters@)
                &&& phys.guid == self.guid
                &&& may_append(self.block_to_obj@, phys.object.0, phys.min_block.0)
                &&& phys.object.0 == last_obj_of(self.block_to_obj@) + 1
                &&& self.syncing_txg == Some(phys.min_txg)
                &&& phys.min_txg == phys.max_txg
            },
            PendingObjectState::NotPending(b) => {
                &&& (self.block_to_obj@.len() == 0 || self.block_to_obj@.last().1 < b.0)
            },
        }
    }

    /// The object/first-block pairs of the pool, in object order.
    pub closed spec fn objects(&self) -> Seq<(u64, u64)> {
        self.block_to_obj@
    }

    /// The contents of the storage-object log, including this TXG's entries.
    pub closed spec fn storage_log_spec(&self) -> Seq<StorageObjectLogEntry> {
        self.storage_log@
    }

    pub closed spec fn guid_spec(&self) -> PoolGUID {
        self.guid
    }

    /// The storage-object log as of the last committed TXG.
    pub closed spec fn committed_storage_log(&self) -> Seq<StorageObjectLogEntry> {
        self.storage_committed@
    }

    pub closed spec fn syncing_txg_spec(&self) -> Option<TXG> {
        self.syncing_txg
    }

    pub closed spec fn last_txg_spec(&self) -> TXG {
        self.last_txg
    }

    pub closed spec fn next_block_spec(&self) -> u64 {
        self.pending_object.next_block_spec()
    }

    pub closed spec fn stats_spec(&self) -> PoolStatsPhys {
        self.stats
    }

    pub closed spec fn is_pending_spec(&self) -> bool {
        self.pending_object is Pending
    }

    /// The state of a pool that has never committed a TXG.
    pub fn new_empty(guid: PoolGUID) -> (r: PoolSyncingState)
        ensures
            r.wf(),
            r.objects() == Seq::<(u64, u64)>::empty(),
            r.last_txg_spec() == TXG(0),
            r.syncing_txg_spec() is None,
            r.next_block_spec() == 0,
            r.stats_spec() == zero_stats(),
    {
        let r = PoolSyncingState {
            guid,
            block_to_obj: ObjectBlockMap::new(),
            pending_object: PendingObjectState::NotPending(BlockID(0)),
            pending_unordered_writes: Vec::new(),
            pending_flushes: Vec::new(),
            last_txg: TXG(0),
            syncing_txg: None,
            stats: PoolStatsPhys::zero(),
            puts: Vec::new(),
            storage_appends: Vec::new(),
            size_appends: Vec::new(),
            frees_appends: Vec::new(),
            storage_cleared: false,
            size_cleared: false,
            frees_cleared: false,
            objects_to_delete: Vec::new(),
            reclaim_in_progress: false,
            storage_log: Ghost(Seq::empty()),
            storage_committed: Ghost(Seq::empty()),
            reclaim_applied: Ghost(false),
        };
        assert(r.storage_log@ =~= r.storage_committed@ + r.storage_appends@);
        r
    }
}


/// Block `k` with bytes `v` is among the writes of `st` that were accepted:
/// waiting, in the object being filled, or in an object handed out to PUT.
pub open spec fn holds_write(st: &PoolSyncingState, k: u64, v: Seq<u8>) -> bool {
    ||| (pairs_to_map(st.unordered_spec()).contains_key(k) && pairs_to_map(st.unordered_spec())[k]@ == v)
    ||| (st.pending_blocks().contains_key(k) && st.pending_blocks()[k] == v)
    ||| exists|i: int| 0 <= i < st.puts_spec().len() && (#[trigger] st.puts_spec()[i]).phys.block_map().contains_key(k)
        && st.puts_spec()[i].phys.block_map()[k] == v
}

/// Every write that `a` holds, `b` holds too.
pub open spec fn keeps_writes(a: &PoolSyncingState, b: &PoolSyncingState) -> bool {
    forall|k: u64, v: Seq<u8>| holds_write(a, k, v) ==> #[trigger] holds_write(b, k, v)
}

/// What a step leaves unchanged of the TXG bookkeeping.
pub open spec fn same_txg(a: &PoolSyncingState, b: &PoolSyncingState) -> bool {
    &&& a.syncing_txg_spec() == b.syncing_txg_spec()
    &&& a.last_txg_spec() == b.last_txg_spec()
    &&& a.guid_spec() == b.guid_spec()
}

/// The outcome of an accepted write.
#[derive(Clone, Copy, Debug, PartialEq, Eq, Structural)]
pub enum WriteOutcome {
    /// The block was queued for packing; it completes once the object that
    /// holds it has been PUT.
    Queued,
    /// The block lies below the next block to pack: the caller rewrites this
    /// stored object (get, `DataObjectPhys::overwrite_block`, put).
    Overwrite(ObjectID),
}

impl PoolSyncingState {
    pub closed spec fn unordered_spec(&self) -> Seq<(u64, Vec<u8>)> {
        self.pending_unordered_writes@
    }

    /// The blocks of the object being filled; empty when none is.
    pub closed spec fn pending_blocks(&self) -> Map<u64, Seq<u8>> {
        match self.pending_object {
            PendingObjectState::Pending(phys, _) => phys.block_map(),
            PendingObjectState::NotPending(_) => Map::empty(),
        }
    }

    /// Number of blocks in the object being filled; 0 when none is.
    pub closed spec fn pending_len(&self) -> nat {
        match self.pending_object {
            PendingObjectState::Pending(phys, _) => phys.blocks_view().len(),
            PendingObjectState::NotPending(_) => 0,
        }
    }

    /// The object being filled (meaningful while one is).
    pub closed spec fn pending_phys(&self) -> DataObjectPhys {
        self.pending_object->Pending_0
    }

    pub closed spec fn puts_spec(&self) -> Seq<ObjectWrite> {
        self.puts@
    }

    /// Accounts a data object written in this TXG: statistics, the map, and
    /// an `Alloc` and an `Exists` entry.
    fn account_new_object(&mut self, phys: &DataObjectPhys)
        requires
            old(self).block_to_obj.wf(),
            replay_storage_log(old(self).storage_log@) == Some(old(self).block_to_obj@),
            old(self).stats.objects_count == old(self).block_to_obj@.len(),
            may_append(old(self).block_to_obj@, phys.object.0, phys.min_block.0),
            old(self).storage_log@ == (if old(self).storage_cleared { Seq::empty() } else { old(self).storage_committed@ })
                + old(self).storage_appends@,
            !old(self).storage_cleared && !old(self).reclaim_applied@ ==> allocs_paired(old(self).storage_appends@, old(self).size_appends@),
        ensures
            !final(self).storage_cleared && !final(self).reclaim_applied@ ==> allocs_paired(final(self).storage_appends@, final(self).size_appends@),
            final(self).reclaim_applied == old(self).reclaim_applied,
            final(self).size_cleared == old(self).size_cleared,
            final(self).frees_cleared == old(self).frees_cleared,
            final(self).storage_appends@ == old(self).storage_appends@.push(
                StorageObjectLogEntry::Alloc { obj: phys.object, first_possible_block: phys.min_block }),
            final(self).size_appends@ == old(self).size_appends@.push(ObjectSizeLogEntry::Exists {
                obj: phys.object,
                num_blocks: (if phys.blocks_view().len() > u32::MAX { u32::MAX } else { phys.blocks_view().len() as u32 }),
                num_bytes: phys.blocks_size,
            }),
            final(self).storage_cleared == old(self).storage_cleared,
            final(self).storage_log@ == (if final(self).storage_cleared { Seq::empty() } else { final(self).storage_committed@ })
                + final(self).storage_appends@,
            final(self).storage_cleared == old(self).storage_cleared,
            final(self).storage_committed == old(self).storage_committed,
            final(self).block_to_obj.wf(),
            final(self).block_to_obj@ == old(self).block_to_obj@.push((phys.object.0, phys.min_block.0)),
            replay_storage_log(final(self).storage_log@) == Some(final(self).block_to_obj@),
            final(self).stats.objects_count == final(self).block_to_obj@.len(),
            final(self).stats.blocks_count == sat_add(old(self).stats.blocks_count, phys.blocks_view().len() as int),
            final(self).stats.blocks_bytes == sat_add(old(self).stats.blocks_bytes, phys.blocks_size as int),
            final(self).stats.pending_frees_count == old(self).stats.pending_frees_count,
            final(self).stats.pending_frees_bytes == old(self).stats.pending_frees_bytes,
            final(self).pending_object == old(self).pending_object,
            final(self).pending_unordered_writes == old(self).pending_unordered_writes,
            final(self).puts == old(self).puts,
            final(self).pending_flushes == old(self).pending_flushes,
            final(self).frees_appends == old(self).frees_appends,
            final(self).objects_to_delete == old(self).objects_to_delete,
            final(self).syncing_txg == old(self).syncing_txg,
            final(self).last_txg == old(self).last_txg,
            final(self).guid == old(self).guid,
    {
        let obj = phys.object;
        self.block_to_obj.insert(obj, phys.min_block);
        self.stats.objects_count = self.block_to_obj.len() as u64;
        let n = phys.blocks.len();
        self.stats.blocks_count = self.stats.blocks_count.saturating_add(n as u64);
        self.stats.blocks_bytes = self.stats.blocks_bytes.saturating_add(phys.blocks_size as u64);
        let e = StorageObjectLogEntry::Alloc { obj, first_possible_block: phys.min_block };
        self.storage_appends.push(e);
        let ghost old_log = self.storage_log@;
        self.storage_log = Ghost(self.storage_log@.push(e));
        assert(self.storage_log@.drop_last() =~= old_log);
        assert(self.storage_log@ =~= (if self.storage_cleared { Seq::empty() } else { self.storage_committed@ })
            + self.storage_appends@);
        let num_blocks: u32 = if n > u32::MAX as usize { u32::MAX } else { n as u32 };
        let ghost z0 = self.size_appends@;
        self.size_appends.push(ObjectSizeLogEntry::Exists { obj, num_blocks, num_bytes: phys.blocks_size });
        proof {
            if !self.storage_cleared && !self.reclaim_applied@ {
                let ss = self.storage_appends@;
                let zs = self.size_appends@;
                assert forall|i: int| 0 <= i < ss.len() implies crate::logs::alloc_pair(#[trigger] ss[i], zs[i]) by {
                    if i < ss.len() - 1 {
                        assert(zs[i] == z0[i]);
                    }
                }
            }
        }
    }

    /// Hands out the object being filled for writing, if it holds any block,
    /// and starts a fresh one after it.
    fn initiate_flush_object_impl(&mut self)
        requires
            old(self).wf(),
            old(self).pending_object is Pending,
        ensures
            final(self).wf(),
            final(self).pending_object is Pending,
            final(self).next_block_spec() == old(self).next_block_spec(),
            final(self).pending_unordered_writes == old(self).pending_unordered_writes,
            final(self).pending_flushes == old(self).pending_flushes,
            final(self).objects().len() >= old(self).objects().len(),
            objects_grow(old(self).objects(), final(self).objects()),
            same_txg(old(self), final(self)),
            keeps_writes(old(self), final(self)),
            old(self).pending_len() > 0 && old(self).pending_object->Pending_0.object.0 < u64::MAX
                ==> final(self).pending_len() == 0,
            final(self).pending_len() > 0 ==> final(self).pending_object == old(self).pending_object,
            final(self).pending_len() == 0 ==> final(self).pending_blocks() == Map::<u64, Seq<u8>>::empty(),
            old(self).pending_len() > 0 && old(self).pending_object->Pending_0.object.0 < u64::MAX ==> ({
                &&& final(self).puts@ == old(self).puts@.push(ObjectWrite {
                    phys: old(self).pending_object->Pending_0,
                    waiters: old(self).pending_object->Pending_1,
                })
                &&& final(self).pending_phys().object.0 == old(self).pending_phys().object.0 + 1
                &&& final(self).pending_phys().min_block == old(self).pending_phys().next_block
                &&& final(self).objects() == old(self).objects().push(
                    (old(self).pending_phys().object.0, old(self).pending_phys().min_block.0))
                &&& final(self).stats.blocks_count == sat_add(old(self).stats.blocks_count, old(self).pending_len() as int)
                &&& final(self).stats.blocks_bytes == sat_add(old(self).stats.blocks_bytes, old(self).pending_phys().blocks_size as int)
                &&& final(self).stats.objects_count == final(self).objects().len()
                &&& final(self).storage_appends@ == old(self).storage_appends@.push(StorageObjectLogEntry::Alloc {
                    obj: old(self).pending_phys().object, first_possible_block: old(self).pending_phys().min_block })
                &&& final(self).size_appends@ == old(self).size_appends@.push(ObjectSizeLogEntry::Exists {
                    obj: old(self).pending_phys().object,
                    num_blocks: (if old(self).pending_len() > u32::MAX { u32::MAX } else { old(self).pending_len() as u32 }),
                    num_bytes: old(self).pending_phys().blocks_size,
                })
            }),
            !(old(self).pending_len() > 0 && old(self).pending_object->Pending_0.object.0 < u64::MAX)
                ==> *final(self) == *old(self),
    {
        let (obj, next_block, txg, empty) = match &self.pending_object {
            PendingObjectState::Pending(phys, _) => (phys.object, phys.next_block, phys.min_txg, phys.is_empty()),
            PendingObjectState::NotPending(_) => {
                return;
            },
        };
        proof {
            let phys = self.pending_object->Pending_0;
            if phys.blocks_view().len() == 0 {
                assert(phys.block_map() =~= Map::<u64, Seq<u8>>::empty());
            }
        }
        if empty || obj.0 == u64::MAX {
            return;
        }
        let ghost old_self = *self;
        let mut st = PendingObjectState::new_pending(self.guid, obj.next(), next_block, txg);
        core::mem::swap(&mut self.pending_object, &mut st);
        match st {
            PendingObjectState::Pending(phys, waiters) => {
                self.account_new_object(&phys);
                self.puts.push(ObjectWrite { phys, waiters });
                proof {
                    let p = self.pending_object->Pending_0;
                    assert(p.block_map() =~= Map::<u64, Seq<u8>>::empty());
                    assert(contiguous(p));
                    assert forall|k: u64, v: Seq<u8>| holds_write(&old_self, k, v) implies #[trigger] holds_write(self, k, v) by {
                        if old_self.pending_blocks().contains_key(k) && old_self.pending_blocks()[k] == v {
                            let i = (self.puts@.len() - 1) as int;
                            assert(self.puts_spec()[i].phys.block_map().contains_key(k));
                        } else if exists|i: int| 0 <= i < old_self.puts_spec().len() && (#[trigger] old_self.puts_spec()[i]).phys.block_map().contains_key(k)
                            && old_self.puts_spec()[i].phys.block_map()[k] == v {
                            let i = choose|i: int| 0 <= i < old_self.puts_spec().len() && (#[trigger] old_self.puts_spec()[i]).phys.block_map().contains_key(k)
                                && old_self.puts_spec()[i].phys.block_map()[k] == v;
                            assert(self.puts_spec()[i] == old_self.puts_spec()[i]);
                        }
                    }
                }
            },
            PendingObjectState::NotPending(_) => {},
        }
    }
}

/// `keeps_writes` chains.
pub proof fn lemma_keeps_writes_trans(a: &PoolSyncingState, b: &PoolSyncingState, c: &PoolSyncingState)
    requires
        keeps_writes(a, b),
        keeps_writes(b, c),
    ensures
        keeps_writes(a, c),
{
    assert forall|k: u64, v: Seq<u8>| holds_write(a, k, v) implies #[trigger] holds_write(c, k, v) by {
        assert(holds_write(b, k, v));
    }
}

/// A step that leaves the waiting writes, the object being filled and the
/// objects handed out alone keeps every write.
pub proof fn lemma_keeps_same(a: &PoolSyncingState, b: &PoolSyncingState)
    requires
        a.unordered_spec() == b.unordered_spec(),
        a.pending_blocks() == b.pending_blocks(),
        a.puts_spec() == b.puts_spec(),
    ensures
        keeps_writes(a, b),
{
    assert forall|k: u64, v: Seq<u8>| holds_write(a, k, v) implies #[trigger] holds_write(b, k, v) by {
        if exists|i: int| 0 <= i < a.puts_spec().len() && (#[trigger] a.puts_spec()[i]).phys.block_map().contains_key(k)
            && a.puts_spec()[i].phys.block_map()[k] == v {
            let i = choose|i: int| 0 <= i < a.puts_spec().len() && (#[trigger] a.puts_spec()[i]).phys.block_map().contains_key(k)
                && a.puts_spec()[i].phys.block_map()[k] == v;
            assert(b.puts_spec()[i] == a.puts_spec()[i]);
        }
    }
}

impl PoolSyncingState {
    /// Flushes the object being filled if a flush was requested for a block
    /// below the next one to pack; such requests are then dropped.
    fn check_pending_flushes(&mut self)
        requires
            old(self).wf(),
            old(self).pending_object is Pending,
        ensures
            final(self).wf(),
            final(self).pending_object is Pending,
            final(self).next_block_spec() == old(self).next_block_spec(),
            final(self).pending_unordered_writes == old(self).pending_unordered_writes,
            final(self).objects().len() >= old(self).objects().len(),
            objects_grow(old(self).objects(), final(self).objects()),
            same_txg(old(self), final(self)),
            keeps_writes(old(self), final(self)),
            forall|i: int| 0 <= i < final(self).pending_flushes@.len()
                ==> #[trigger] final(self).pending_flushes@[i] >= final(self).next_block_spec(),
            forall|i: int| 0 <= i < old(self).pending_flushes@.len() && #[trigger] old(self).pending_flushes@[i]
                >= old(self).next_block_spec() ==> final(self).pending_flushes@.contains(old(self).pending_flushes@[i]),
            final(self).pending_flushes@ == requests_at_or_after(old(self).pending_flushes@, old(self).next_block_spec()),
            (exists|i: int| 0 <= i < old(self).pending_flushes@.len()
                && #[trigger] old(self).pending_flushes@[i] < old(self).next_block_spec())
                && old(self).pending_object->Pending_0.object.0 < u64::MAX ==> final(self).pending_len() == 0,
            !(exists|i: int| 0 <= i < old(self).pending_flushes@.len()
                && #[trigger] old(self).pending_flushes@[i] < old(self).next_block_spec())
                ==> final(self).pending_object == old(self).pending_object,
            old(self).puts_spec().len() <= final(self).puts_spec().len(),
            forall|i: int| 0 <= i < old(self).puts_spec().len() ==> final(self).puts_spec()[i] == #[trigger] old(self).puts_spec()[i],
            old(self).pending_len() == 0 || !(exists|i: int| 0 <= i < old(self).pending_flushes@.len()
                && #[trigger] old(self).pending_flushes@[i] < old(self).next_block_spec())
                ==> final(self).pending_object == old(self).pending_object && final(self).block_to_obj == old(self).block_to_obj
                    && final(self).puts == old(self).puts,
            final(self).pending_object == old(self).pending_object && final(self).objects() == old(self).objects()
                || final(self).pending_len() == 0 && final(self).objects() == old(self).objects().push(
                    (old(self).pending_phys().object.0, old(self).pending_phys().min_block.0)),
    {
        let nb = self.pending_object.next_block();
        let mut kept: Vec<u64> = Vec::new();
        let mut do_flush = false;
        let mut i: usize = 0;
        while i < self.pending_flushes.len()
            invariant
                0 <= i <= self.pending_flushes@.len(),
                self.pending_flushes == old(self).pending_flushes,
                forall|j: int| 0 <= j < kept@.len() ==> #[trigger] kept@[j] >= nb.0,
                forall|j: int| 0 <= j < i && #[trigger] self.pending_flushes@[j] >= nb.0 ==> kept@.contains(self.pending_flushes@[j]),
                do_flush <==> exists|j: int| 0 <= j < i && #[trigger] self.pending_flushes@[j] < nb.0,
                kept@ == requests_at_or_after(self.pending_flushes@.take(i as int), nb.0),
            decreases self.pending_flushes@.len() - i,
        {
            let f = self.pending_flushes[i];
            let ghost k0 = kept@;
            assert(self.pending_flushes@.take(i + 1).drop_last() =~= self.pending_flushes@.take(i as int));
            assert(self.pending_flushes@.take(i + 1).last() == f);
            if f < nb.0 {
                do_flush = true;
            } else {
                kept.push(f);
                assert(kept@[kept@.len() - 1] == f);
            }
            assert forall|j: int| 0 <= j < i && #[trigger] self.pending_flushes@[j] >= nb.0 implies kept@.contains(self.pending_flushes@[j]) by {
                assert(k0.contains(self.pending_flushes@[j]));
                let x = choose|x: int| 0 <= x < k0.len() && k0[x] == self.pending_flushes@[j];
                assert(kept@[x] == k0[x]);
            }
            i = i + 1;
        }
        assert(self.pending_flushes@.take(i as int) =~= self.pending_flushes@);
        self.pending_flushes = kept;
        let ghost mid = *self;
        proof {
            lemma_keeps_same(old(self), &mid);
        }
        if do_flush {
            self.initiate_flush_object_impl();
            proof {
                lemma_keeps_writes_trans(old(self), &mid, self);
            }
        }
    }

    /// Moves waiting writes into the object being filled, for as long as the
    /// next block to pack is among them. With a size limit, the object is
    /// flushed each time its blocks reach that many bytes. In any case it is
    /// flushed first where the next block would take its byte count past
    /// `u32::MAX`. Does nothing while the pool is resuming.
    fn write_unordered_to_pending_object(&mut self, size_limit: Option<u32>)
        requires
            old(self).wf(),
        ensures
            final(self).wf(),
            same_txg(old(self), final(self)),
            keeps_writes(old(self), final(self)),
            final(self).pending_object is Pending <==> old(self).pending_object is Pending,
            final(self).next_block_spec() >= old(self).next_block_spec(),
            final(self).objects().len() >= old(self).objects().len(),
            objects_grow(old(self).objects(), final(self).objects()),
            old(self).pending_object is NotPending ==> *final(self) == *old(self),
            exists|n: int| 0 <= n <= old(self).unordered_spec().len()
                && #[trigger] old(self).unordered_spec().skip(n) == final(self).unordered_spec(),
            final(self).is_pending_spec() && last_obj_of(final(self).objects()) < u64::MAX - 1
                ==> forall|i: int| 0 <= i < final(self).unordered_spec().len()
                ==> (#[trigger] final(self).unordered_spec()[i]).0 != final(self).next_block_spec(),
            old(self).puts_spec().len() <= final(self).puts_spec().len(),
            forall|i: int| 0 <= i < old(self).puts_spec().len() ==> final(self).puts_spec()[i] == #[trigger] old(self).puts_spec()[i],
            size_limit is Some && size_limit->Some_0 <= 0x7fff_ffff && old(self).flush_requests().len() == 0
                && (old(self).is_pending_spec() ==> old(self).pending_phys().blocks_size < size_limit->Some_0)
                && (forall|i: int| 0 <= i < old(self).unordered_spec().len()
                    ==> (#[trigger] old(self).unordered_spec()[i]).1@.len() <= size_limit->Some_0)
                ==> forall|i: int| old(self).puts_spec().len() <= i < final(self).puts_spec().len()
                    ==> (#[trigger] final(self).puts_spec()[i]).phys.blocks_size >= size_limit->Some_0,
            size_limit is Some && size_limit->Some_0 > 0 && final(self).is_pending_spec()
                && last_obj_of(final(self).objects()) < u64::MAX - 1 ==> final(self).pending_phys().blocks_size < size_limit->Some_0,
    {
        if !self.pending_object.is_pending() {
            assert(old(self).unordered_spec().skip(0) =~= self.unordered_spec());
            return;
        }
        let ghost mut n_drop: int = 0;
        assert(old(self).unordered_spec().skip(0) =~= self.unordered_spec());
        match size_limit {
            Some(limit) => {
                let size = match &self.pending_object {
                    PendingObjectState::Pending(phys, _) => phys.blocks_size,
                    PendingObjectState::NotPending(_) => 0,
                };
                if size >= limit {
                    let ghost before0 = *self;
                    self.initiate_flush_object_impl();
                    proof {
                        lemma_keeps_writes_trans(old(self), &before0, self);
                        if self.pending_len() == 0 {
                            assert(self.pending_phys().blocks_view() =~= Seq::<(u64, Seq<u8>)>::empty());
                        }
                    }
                }
            },
            None => {},
        }
        loop
            invariant
                self.wf(),
                self.pending_object is Pending,
                same_txg(old(self), self),
                keeps_writes(old(self), self),
                self.next_block_spec() >= old(self).next_block_spec(),
                self.objects().len() >= old(self).objects().len(),
                objects_grow(old(self).objects(), self.objects()),
                old(self).puts_spec().len() <= self.puts_spec().len(),
                forall|i: int| 0 <= i < old(self).puts_spec().len() ==> self.puts_spec()[i] == #[trigger] old(self).puts_spec()[i],
                size_limit is Some && size_limit->Some_0 <= 0x7fff_ffff && old(self).flush_requests().len() == 0
                    && (old(self).is_pending_spec() ==> old(self).pending_phys().blocks_size < size_limit->Some_0)
                    && (forall|i: int| 0 <= i < old(self).unordered_spec().len()
                        ==> (#[trigger] old(self).unordered_spec()[i]).1@.len() <= size_limit->Some_0)
                    ==> (forall|i: int| old(self).puts_spec().len() <= i < self.puts_spec().len()
                        ==> (#[trigger] self.puts_spec()[i]).phys.blocks_size >= size_limit->Some_0)
                        && self.flush_requests().len() == 0
                        && (self.pending_phys().blocks_size < size_limit->Some_0 || last_obj_of(self.objects()) >= u64::MAX - 1)
                        && (forall|i: int| 0 <= i < self.unordered_spec().len()
                            ==> (#[trigger] self.unordered_spec()[i]).1@.len() <= size_limit->Some_0),
                size_limit is Some && size_limit->Some_0 > 0 && last_obj_of(self.objects()) < u64::MAX - 1
                    ==> self.pending_phys().blocks_size < size_limit->Some_0,
                0 <= n_drop <= old(self).unordered_spec().len(),
                old(self).unordered_spec().skip(n_drop) == self.unordered_spec(),
            ensures
                0 <= n_drop <= old(self).unordered_spec().len(),
                old(self).unordered_spec().skip(n_drop) == self.unordered_spec(),
                self.wf(),
                self.pending_object is Pending,
                same_txg(old(self), self),
                keeps_writes(old(self), self),
                self.next_block_spec() >= old(self).next_block_spec(),
                self.objects().len() >= old(self).objects().len(),
                objects_grow(old(self).objects(), self.objects()),
                old(self).puts_spec().len() <= self.puts_spec().len(),
                forall|i: int| 0 <= i < old(self).puts_spec().len() ==> self.puts_spec()[i] == #[trigger] old(self).puts_spec()[i],
                size_limit is Some && size_limit->Some_0 <= 0x7fff_ffff && old(self).flush_requests().len() == 0
                    && (old(self).is_pending_spec() ==> old(self).pending_phys().blocks_size < size_limit->Some_0)
                    && (forall|i: int| 0 <= i < old(self).unordered_spec().len()
                        ==> (#[trigger] old(self).unordered_spec()[i]).1@.len() <= size_limit->Some_0)
                    ==> (forall|i: int| old(self).puts_spec().len() <= i < self.puts_spec().len()
                        ==> (#[trigger] self.puts_spec()[i]).phys.blocks_size >= size_limit->Some_0)
                        && self.flush_requests().len() == 0
                        && (self.pending_phys().blocks_size < size_limit->Some_0 || last_obj_of(self.objects()) >= u64::MAX - 1)
                        && (forall|i: int| 0 <= i < self.unordered_spec().len()
                            ==> (#[trigger] self.unordered_spec()[i]).1@.len() <= size_limit->Some_0),
                size_limit is Some && size_limit->Some_0 > 0 && last_obj_of(self.objects()) < u64::MAX - 1
                    ==> self.pending_phys().blocks_size < size_limit->Some_0,
                last_obj_of(self.objects()) < u64::MAX - 1 ==> forall|i: int| 0 <= i < self.unordered_spec().len()
                    ==> (#[trigger] self.unordered_spec()[i]).0 != self.next_block_spec(),
            decreases self.pending_unordered_writes@.len(),
        {
            let nb = self.pending_object.next_block();
            if self.pending_unordered_writes.len() == 0 || self.pending_unordered_writes[0].0 != nb.0 {
                proof {
                    let u = self.pending_unordered_writes@;
                    assert forall|i: int| 0 <= i < u.len() implies (#[trigger] u[i]).0 != nb.0 by {
                        if i > 0 {
                            assert(u[0].0 < u[i].0);
                        }
                    }
                }
                break;
            }
            let len = self.pending_unordered_writes[0].1.len();
            let size = match &self.pending_object {
                PendingObjectState::Pending(phys, _) => phys.blocks_size,
                PendingObjectState::NotPending(_) => 0,
            };
            if size as u64 + len as u64 > u32::MAX as u64 {
                let ghost before = *self;
                self.initiate_flush_object_impl();
                proof {
                    lemma_keeps_writes_trans(old(self), &before, self);
                }
                let still = match &self.pending_object {
                    PendingObjectState::Pending(phys, _) => !phys.is_empty(),
                    PendingObjectState::NotPending(_) => true,
                };
                if still {
                    proof {
                        assert(self.pending_len() > 0);
                        assert(self.pending_phys().object.0 == u64::MAX);
                    }
                    break;
                }
            }
            let ghost before = *self;
            let ghost uv = self.pending_unordered_writes@;
            proof {
                crate::sorted::lemma_pairs_to_map(uv);
                crate::sorted::lemma_remove_key_index(uv, 0);
                crate::sorted::lemma_remove_key_map(uv, nb.0);
                crate::sorted::lemma_remove_index_increasing(uv, 0);
            }
            let (id, data) = self.pending_unordered_writes.remove(0);
            assert(uv[0] == (id, data));
            proof {
                assert(old(self).unordered_spec().skip(n_drop + 1) =~= self.pending_unordered_writes@);
                n_drop = n_drop + 1;
            }
            match &mut self.pending_object {
                PendingObjectState::Pending(phys, waiters) => {
                    phys.push_block(data);
                    waiters.push(BlockID(id));
                },
                PendingObjectState::NotPending(_) => {},
            }
            proof {
                let phys0 = before.pending_object->Pending_0;
                let phys1 = self.pending_object->Pending_0;
                assert(phys1.blocks_view().drop_last() =~= phys0.blocks_view());
                assert(phys1.block_map() == phys0.block_map().insert(id, data@));
                crate::sorted::lemma_pairs_to_map(phys0.blocks_view());
                assert(!phys0.block_map().contains_key(id)) by {
                    if phys0.block_map().contains_key(id) {
                        assert(crate::sorted::has_key(phys0.blocks_view(), id));
                        let j = choose|j: int| 0 <= j < phys0.blocks_view().len() && phys0.blocks_view()[j].0 == id;
                        assert(phys0.blocks_view()[j].0 < phys0.next_block.0);
                    }
                }
                assert forall|j: int| 0 <= j < phys1.blocks_view().len() implies #[trigger] phys1.blocks_view()[j].0
                    == phys1.min_block.0 + j by {
                    if j < phys0.blocks_view().len() {
                        assert(phys1.blocks_view()[j] == phys0.blocks_view()[j]);
                    }
                }
                let u1 = self.pending_unordered_writes@;
                assert forall|j: int| 0 <= j < u1.len() implies #[trigger] u1[j].0 >= self.pending_object.next_block_spec()
                    && u1[j].0 < u64::MAX && u1[j].1@.len() <= u32::MAX by {
                    assert(u1[j] == uv[j + 1]);
                }
                assert forall|k: u64, v: Seq<u8>| holds_write(&before, k, v) implies #[trigger] holds_write(self, k, v) by {
                    if pairs_to_map(uv).contains_key(k) && pairs_to_map(uv)[k]@ == v {
                        if k == id {
                            assert(self.pending_blocks().contains_key(k));
                        } else {
                            assert(pairs_to_map(u1).contains_key(k));
                        }
                    } else if before.pending_blocks().contains_key(k) && before.pending_blocks()[k] == v {
                        assert(self.pending_blocks().contains_key(k));
                    } else {
                        let i = choose|i: int| 0 <= i < before.puts_spec().len() && (#[trigger] before.puts_spec()[i]).phys.block_map().contains_key(k)
                            && before.puts_spec()[i].phys.block_map()[k] == v;
                        assert(self.puts_spec()[i] == before.puts_spec()[i]);
                    }
                }
                lemma_keeps_writes_trans(old(self), &before, self);
            }
            match size_limit {
                Some(limit) => {
                    let size = match &self.pending_object {
                        PendingObjectState::Pending(phys, _) => phys.blocks_size,
                        PendingObjectState::NotPending(_) => 0,
                    };
                    if size >= limit {
                        let ghost before2 = *self;
                        self.initiate_flush_object_impl();
                        proof {
                            lemma_keeps_writes_trans(old(self), &before2, self);
                        }
                    }
                },
                None => {},
            }
        }
        let ghost before = *self;
        self.check_pending_flushes();
        proof {
            assert(old(self).unordered_spec().skip(n_drop) == self.unordered_spec());
            lemma_keeps_writes_trans(old(self), &before, self);
            if self.pending_len() == 0 {
                assert(self.pending_phys().blocks_view() =~= Seq::<(u64, Seq<u8>)>::empty());
            }
            if self.objects() != before.objects() {
                assert(self.objects().last().0 == before.pending_phys().object.0);
            }
            if last_obj_of(self.objects()) < u64::MAX - 1 {
                assert(last_obj_of(before.objects()) < u64::MAX - 1);
                assert(self.unordered_spec() == before.unordered_spec());
                assert forall|i: int| 0 <= i < self.unordered_spec().len()
                    implies (#[trigger] self.unordered_spec()[i]).0 != self.next_block_spec() by {
                    assert(before.unordered_spec()[i].0 != before.next_block_spec());
                }
            }
        }
    }
}

/// Entries to add to one metadata log at the end of a TXG.
pub struct LogUpdate<T> {
    /// The log is first to be cleared (started on a new generation).
    pub clear: bool,
    pub entries: Vec<T>,
}

/// What the caller persists to commit a TXG: the log updates, then the
/// uberblock (txg, next block, statistics, log descriptors) and the super;
/// then it deletes the objects listed.
pub struct TxgCommit {
    pub txg: TXG,
    pub next_block: BlockID,
    pub stats: PoolStatsPhys,
    pub storage_object_log: LogUpdate<StorageObjectLogEntry>,
    pub object_size_log: LogUpdate<ObjectSizeLogEntry>,
    pub pending_frees_log: LogUpdate<PendingFreesLogEntry>,
    pub objects_to_delete: Vec<ObjectID>,
    /// A reclaim pass is due: the caller snapshots the pending-frees and
    /// object-size logs, plans and runs it, and hands its outcome to a later
    /// `end_txg`.
    pub start_reclaim: bool,
}

/// The outcome of a reclaim pass, applied at the end of a later TXG.
pub struct ReclaimOutcome {
    pub freed_blocks_count: u64,
    pub freed_blocks_bytes: u64,
    /// Frees of the snapshot whose objects were not rewritten.
    pub remaining_frees: Vec<PendingFreesLogEntry>,
    /// Frees logged after the snapshot, in flushed chunks.
    pub later_frees: Vec<PendingFreesLogEntry>,
    /// Objects merged into another one.
    pub deleted_objects: Vec<ObjectID>,
    /// New size of each rewritten object.
    pub rewritten_object_sizes: Vec<(ObjectID, u32)>,
    /// The object sizes of the snapshot, in object order.
    pub object_sizes: Vec<(u64, u32)>,
    /// Size entries logged after the snapshot, in flushed chunks.
    pub later_sizes: Vec<ObjectSizeLogEntry>,
    /// Chunks of the object-size log.
    pub size_log_chunks: u64,
}

/// A log with this many chunks or more is rewritten from its live entries.
pub const LOG_CONDENSE_MIN_CHUNKS: u64 = 30;
/// The factor by which a log may outgrow its condensed form.
pub const LOG_CONDENSE_MULTIPLE: u64 = 5;

/// Whether a log of `num_chunks` chunks that `live` entries describe is to be
/// condensed; `per_chunk` is the number of entries a chunk holds.
pub open spec fn condense_due(num_chunks: u64, live: u64, per_chunk: u64) -> bool {
    per_chunk > 0 && num_chunks as int >= LOG_CONDENSE_MIN_CHUNKS + LOG_CONDENSE_MULTIPLE
        * ((live as int + per_chunk + per_chunk - 1) / per_chunk as int)
}

/// Whether a log is due to be condensed (see `condense_due`).
pub fn log_needs_condense(num_chunks: u64, live: u64, per_chunk: u64) -> (r: bool)
    ensures
        r == condense_due(num_chunks, live, per_chunk),
{
    if per_chunk == 0 {
        return false;
    }
    let q: u128 = (live as u128 + per_chunk as u128 + per_chunk as u128 - 1) / per_chunk as u128;
    assert(q <= live as int + 2) by (nonlinear_arith)
        requires q == (live as int + per_chunk + per_chunk - 1) / per_chunk as int, per_chunk >= 1;
    assert(q <= u64::MAX as int + 2);
    assert(5 * q <= 5 * (u64::MAX as int + 2)) by (nonlinear_arith)
        requires q <= u64::MAX as int + 2;
    num_chunks as u128 >= LOG_CONDENSE_MIN_CHUNKS as u128 + LOG_CONDENSE_MULTIPLE as u128 * q
}

/// The pairs of `s` without the objects of `objs`, removed in order.
pub open spec fn remove_all(s: Seq<(u64, u64)>, objs: Seq<ObjectID>) -> Seq<(u64, u64)>
    decreases objs.len(),
{
    if objs.len() == 0 {
        s
    } else {
        crate::sorted::remove_key(remove_all(s, objs.drop_last()), objs.last().0)
    }
}

/// `n`, or `u64::MAX` where that would not fit.
pub open spec fn count_sat(n: nat) -> u64 {
    if n > u64::MAX { u64::MAX } else { n as u64 }
}

/// The storage-object entries that log the deletion of `objs`.
pub open spec fn free_entries(objs: Seq<ObjectID>) -> Seq<StorageObjectLogEntry> {
    objs.map_values(|o: ObjectID| StorageObjectLogEntry::Free { obj: o })
}

/// The object-size entries that log the deletion of `objs`.
pub open spec fn freed_entries(objs: Seq<ObjectID>) -> Seq<ObjectSizeLogEntry> {
    objs.map_values(|o: ObjectID| ObjectSizeLogEntry::Freed { obj: o })
}

/// The object-size entries that condensing the sizes `sizes` writes.
pub open spec fn exists_entries(sizes: Seq<(u64, u32)>) -> Seq<ObjectSizeLogEntry> {
    sizes.map_values(|p: (u64, u32)| ObjectSizeLogEntry::Exists { obj: ObjectID(p.0), num_blocks: 0, num_bytes: p.1 })
}

/// The object-size entries that log the new sizes of rewritten objects.
pub open spec fn rewritten_entries(sizes: Seq<(ObjectID, u32)>) -> Seq<ObjectSizeLogEntry> {
    sizes.map_values(|p: (ObjectID, u32)| ObjectSizeLogEntry::Exists { obj: p.0, num_blocks: 0, num_bytes: p.1 })
}

/// The object-size entries that applying `o` leaves to write, after this
/// TXG's entries `pending`: the deletions, the condensed rewrite when due,
/// and the new sizes.
pub open spec fn reclaim_size_entries(o: ReclaimOutcome, pending: Seq<ObjectSizeLogEntry>, per_chunk: u64) -> Seq<ObjectSizeLogEntry> {
    let base = pending + freed_entries(o.deleted_objects@);
    (if condense_due(o.size_log_chunks, o.object_sizes@.len() as u64, per_chunk) {
        exists_entries(o.object_sizes@) + o.later_sizes@ + base
    } else {
        base
    }) + rewritten_entries(o.rewritten_object_sizes@)
}

/// The storage-object log that condensing the pairs `s` writes: one `Alloc`
/// per object, in order.
pub open spec fn allocs_of(s: Seq<(u64, u64)>) -> Seq<StorageObjectLogEntry> {
    s.map_values(|p: (u64, u64)| StorageObjectLogEntry::Alloc { obj: ObjectID(p.0), first_possible_block: BlockID(p.1) })
}

/// Replaying the `Alloc`s of a monotone sequence of pairs yields the pairs.
pub proof fn lemma_replay_allocs(s: Seq<(u64, u64)>)
    requires
        crate::object_block_map::monotone(s),
    ensures
        replay_storage_log(allocs_of(s)) == Some(s),
    decreases s.len(),
{
    if s.len() == 0 {
        assert(allocs_of(s) =~= Seq::<StorageObjectLogEntry>::empty());
    } else {
        let t = s.drop_last();
        lemma_replay_allocs(t);
        assert(allocs_of(s).drop_last() =~= allocs_of(t));
        assert(t.push(s.last()) =~= s);
        if t.len() > 0 {
            assert(t.last() == s[s.len() - 2]);
        }
    }
}


/// Statistics that can be read by name.
#[derive(Clone, Copy, Debug, PartialEq, Eq, Structural)]
pub enum PoolProp {
    /// The "zoa_allocated" property, which reports the bytes of pending frees.
    Allocated,
    /// The bytes of pending frees.
    Freeing,
    /// The number of data objects.
    Objects,
}

impl PoolSyncingState {
    pub closed spec fn flush_requests(&self) -> Seq<u64> {
        self.pending_flushes@
    }

    /// Storage-object log entries added in this TXG.
    pub closed spec fn storage_appended(&self) -> Seq<StorageObjectLogEntry> {
        self.storage_appends@
    }

    /// Object-size log entries added in this TXG.
    pub closed spec fn size_appended(&self) -> Seq<ObjectSizeLogEntry> {
        self.size_appends@
    }

    pub closed spec fn frees_appended(&self) -> Seq<PendingFreesLogEntry> {
        self.frees_appends@
    }

    pub fn last_txg(&self) -> (r: TXG)
        ensures
            r == self.last_txg_spec(),
    {
        self.last_txg
    }

    pub fn syncing_txg(&self) -> (r: Option<TXG>)
        ensures
            r == self.syncing_txg_spec(),
    {
        self.syncing_txg
    }

    pub fn next_block(&self) -> (r: BlockID)
        ensures
            r.0 == self.next_block_spec(),
    {
        self.pending_object.next_block()
    }

    pub fn stats(&self) -> (r: PoolStatsPhys)
        ensures
            r == self.stats_spec(),
    {
        self.stats
    }

    /// Number of data objects.
    pub fn objects_len(&self) -> (r: usize)
        ensures
            r == self.objects().len(),
    {
        self.block_to_obj.len()
    }

    /// The (object, first block) pair at index `i`, in object order.
    pub fn object_entry(&self, i: usize) -> (r: (ObjectID, BlockID))
        requires
            i < self.objects().len(),
        ensures
            r.0.0 == self.objects()[i as int].0,
            r.1.0 == self.objects()[i as int].1,
    {
        self.block_to_obj.entry(i)
    }

    /// The data object that holds `block`, as for a read.
    pub fn block_to_obj(&self, block: BlockID) -> (r: Option<ObjectID>)
        requires
            self.wf(),
        ensures
            r.is_none() <==> (self.objects().len() == 0 || block.0 < self.objects()[0].1),
            r matches Some(o) ==> exists|i: int| crate::object_block_map::holds_block(self.objects(), i, block.0)
                && self.objects()[i].0 == o.0,
    {
        self.block_to_obj.block_to_obj(block)
    }

    /// A statistic by name.
    pub fn get_prop(&self, prop: PoolProp) -> (r: u64)
        ensures
            r == match prop {
                PoolProp::Allocated => self.stats_spec().pending_frees_bytes,
                PoolProp::Freeing => self.stats_spec().pending_frees_bytes,
                PoolProp::Objects => self.stats_spec().objects_count,
            },
    {
        match prop {
            PoolProp::Allocated => self.stats.pending_frees_bytes,
            PoolProp::Freeing => self.stats.pending_frees_bytes,
            PoolProp::Objects => self.stats.objects_count,
        }
    }

    /// Collects the data objects handed out for writing since the last call.
    pub fn take_puts(&mut self) -> (r: Vec<ObjectWrite>)
        requires
            old(self).wf(),
        ensures
            final(self).wf(),
            r@ == old(self).puts_spec(),
            forall|i: int| 0 <= i < r@.len() ==> handed_out_ok(#[trigger] r@[i].phys)
                && waiters_match(r@[i].phys, r@[i].waiters@),
            final(self).puts_spec().len() == 0,
            final(self).objects() == old(self).objects(),
            final(self).next_block_spec() == old(self).next_block_spec(),
            final(self).pending_blocks() == old(self).pending_blocks(),
            final(self).unordered_spec() == old(self).unordered_spec(),
            same_txg(old(self), final(self)),
    {
        let mut r: Vec<ObjectWrite> = Vec::new();
        core::mem::swap(&mut self.puts, &mut r);
        r
    }

    /// Opens TXG `txg`: a fresh object is started after the last one, at the
    /// next block.
    pub fn begin_txg(&mut self, txg: TXG) -> (r: Result<(), ProtocolError>)
        requires
            old(self).wf(),
        ensures
            final(self).wf(),
            r == Err::<(), _>(ProtocolError::TxgInProgress) <==> old(self).syncing_txg_spec() is Some,
            r == Err::<(), _>(ProtocolError::TxgNotAfterLast) <==> old(self).syncing_txg_spec() is None
                && txg.0 <= old(self).last_txg_spec().0,
            r == Err::<(), _>(ProtocolError::ObjectIdsExhausted) <==> old(self).syncing_txg_spec() is None
                && txg.0 > old(self).last_txg_spec().0 && last_obj_of(old(self).objects()) == u64::MAX,
            r is Ok <==> old(self).syncing_txg_spec() is None && txg.0 > old(self).last_txg_spec().0
                && last_obj_of(old(self).objects()) < u64::MAX,
            r is Err ==> *final(self) == *old(self),
            r is Ok ==> final(self).syncing_txg_spec() == Some(txg)
                && final(self).is_pending_spec()
                && final(self).pending_len() == 0
                && final(self).pending_phys().object.0 == last_obj_of(old(self).objects()) + 1
                && final(self).pending_phys().min_txg == txg
                && final(self).pending_phys().max_txg == txg
                && final(self).pending_phys().min_block.0 == old(self).next_block_spec()
                && final(self).pending_phys().next_block.0 == old(self).next_block_spec()
                && final(self).pending_phys().blocks_size == 0
                && final(self).pending_phys().guid == old(self).guid_spec()
                && final(self).storage_appended() == old(self).storage_appended()
                && final(self).size_appended() == old(self).size_appended()
                && final(self).frees_appended() == old(self).frees_appended()
                && final(self).unordered_spec() == old(self).unordered_spec()
                && final(self).next_block_spec() == old(self).next_block_spec()
                && final(self).objects() == old(self).objects()
                && final(self).last_txg_spec() == old(self).last_txg_spec()
                && final(self).stats_spec() == old(self).stats_spec()
                && keeps_writes(old(self), final(self)),
    {
        if self.syncing_txg.is_some() {
            return Err(ProtocolError::TxgInProgress);
        }
        if txg.0 <= self.last_txg.0 {
            return Err(ProtocolError::TxgNotAfterLast);
        }
        let last = self.block_to_obj.last_obj();
        if last.0 == u64::MAX {
            return Err(ProtocolError::ObjectIdsExhausted);
        }
        let ghost before = *self;
        let nb = self.pending_object.next_block();
        self.syncing_txg = Some(txg);
        self.pending_object = PendingObjectState::new_pending(self.guid, last.next(), nb, txg);
        proof {
            let phys = self.pending_object->Pending_0;
            assert(phys.block_map() =~= Map::<u64, Seq<u8>>::empty());
            assert(before.pending_blocks() =~= Map::<u64, Seq<u8>>::empty());
            lemma_keeps_same(&before, self);
        }
        Ok(())
    }

    /// Accepts a write of block `id`. A block at or after the next block to
    /// pack is queued and packed in block order; one below it is to be
    /// rewritten in the stored object that holds it.
    pub fn write_block(&mut self, id: BlockID, data: Vec<u8>) -> (r: Result<WriteOutcome, ProtocolError>)
        requires
            old(self).wf(),
        ensures
            final(self).wf(),
            same_txg(old(self), final(self)),
            r == Err::<WriteOutcome, _>(ProtocolError::NoTxgInProgress) <==> old(self).syncing_txg_spec() is None,
            r == Err::<WriteOutcome, _>(ProtocolError::InvalidBlock) <==> old(self).syncing_txg_spec() is Some
                && (id.0 == u64::MAX || data@.len() > u32::MAX),
            r == Err::<WriteOutcome, _>(ProtocolError::BlockNotInAnyObject) <==> old(self).syncing_txg_spec() is Some
                && id.0 < u64::MAX && data@.len() <= u32::MAX && id.0 < old(self).next_block_spec()
                && (old(self).objects().len() == 0 || id.0 < old(self).objects()[0].1),
            r is Err ==> *final(self) == *old(self),
            r matches Ok(WriteOutcome::Overwrite(o)) ==> id.0 < old(self).next_block_spec()
                && *final(self) == *old(self)
                && exists|i: int| crate::object_block_map::holds_block(old(self).objects(), i, id.0)
                    && old(self).objects()[i].0 == o.0,
            r == Ok::<WriteOutcome, ProtocolError>(WriteOutcome::Queued) <==> old(self).syncing_txg_spec() is Some
                && id.0 < u64::MAX && data@.len() <= u32::MAX && id.0 >= old(self).next_block_spec(),
            r == Ok::<WriteOutcome, ProtocolError>(WriteOutcome::Queued) ==> holds_write(final(self), id.0, data@)
                && (forall|k: u64, v: Seq<u8>| k != id.0 && holds_write(old(self), k, v) ==> #[trigger] holds_write(final(self), k, v))
                && final(self).next_block_spec() >= old(self).next_block_spec()
                && old(self).puts_spec().len() <= final(self).puts_spec().len()
                && (forall|i: int| 0 <= i < old(self).puts_spec().len() ==> final(self).puts_spec()[i] == #[trigger] old(self).puts_spec()[i])
                && (old(self).flush_requests().len() == 0 && data@.len() <= MAX_BYTES_PER_OBJECT
                    && (old(self).is_pending_spec() ==> old(self).pending_phys().blocks_size < MAX_BYTES_PER_OBJECT)
                    && (forall|i: int| 0 <= i < old(self).unordered_spec().len()
                        ==> (#[trigger] old(self).unordered_spec()[i]).1@.len() <= MAX_BYTES_PER_OBJECT)
                    ==> forall|i: int| old(self).puts_spec().len() <= i < final(self).puts_spec().len()
                        ==> (#[trigger] final(self).puts_spec()[i]).phys.blocks_size >= MAX_BYTES_PER_OBJECT)
                && (final(self).is_pending_spec() && last_obj_of(final(self).objects()) < u64::MAX - 1 ==> ({
                    &&& forall|i: int| 0 <= i < final(self).unordered_spec().len()
                        ==> (#[trigger] final(self).unordered_spec()[i]).0 != final(self).next_block_spec()
                    &&& final(self).pending_phys().blocks_size < MAX_BYTES_PER_OBJECT
                })),
    {
        if self.syncing_txg.is_none() {
            return Err(ProtocolError::NoTxgInProgress);
        }
        if id.0 == u64::MAX || data.len() > u32::MAX as usize {
            return Err(ProtocolError::InvalidBlock);
        }
        let nb = self.pending_object.next_block();
        if id.0 < nb.0 {
            return match self.block_to_obj.block_to_obj(id) {
                Some(obj) => Ok(WriteOutcome::Overwrite(obj)),
                None => Err(ProtocolError::BlockNotInAnyObject),
            };
        }
        let ghost before = *self;
        let ghost dv = data@;
        let ghost u0 = self.pending_unordered_writes@;
        upsert(&mut self.pending_unordered_writes, id.0, data);
        proof {
            let u1 = self.pending_unordered_writes@;
            crate::sorted::lemma_pairs_to_map(u1);
            crate::sorted::lemma_pairs_to_map(u0);
            assert forall|j: int| 0 <= j < u1.len() implies #[trigger] u1[j].0 >= self.pending_object.next_block_spec()
                && u1[j].0 < u64::MAX && u1[j].1@.len() <= u32::MAX by {
                if u1[j].0 == id.0 {
                    assert(pairs_to_map(u1)[u1[j].0] == u1[j].1);
                } else {
                    assert(crate::sorted::has_key(u1, u1[j].0));
                    assert(crate::sorted::has_key(u0, u1[j].0));
                    let x = choose|x: int| 0 <= x < u0.len() && u0[x].0 == u1[j].0;
                    assert(pairs_to_map(u1)[u1[j].0] == u1[j].1);
                    assert(pairs_to_map(u0)[u0[x].0] == u0[x].1);
                }
            }
            assert(holds_write(self, id.0, dv));
            assert forall|k: u64, v: Seq<u8>| k != id.0 && holds_write(&before, k, v) implies #[trigger] holds_write(self, k, v) by {
                if exists|i: int| 0 <= i < before.puts_spec().len() && (#[trigger] before.puts_spec()[i]).phys.block_map().contains_key(k)
                    && before.puts_spec()[i].phys.block_map()[k] == v {
                    let i = choose|i: int| 0 <= i < before.puts_spec().len() && (#[trigger] before.puts_spec()[i]).phys.block_map().contains_key(k)
                        && before.puts_spec()[i].phys.block_map()[k] == v;
                    assert(self.puts_spec()[i] == before.puts_spec()[i]);
                }
            }
        }
        proof {
            let u1 = self.pending_unordered_writes@;
            if forall|i: int| 0 <= i < u0.len() ==> (#[trigger] u0[i]).1@.len() <= MAX_BYTES_PER_OBJECT {
                if dv.len() <= MAX_BYTES_PER_OBJECT {
                    assert forall|j: int| 0 <= j < u1.len() implies (#[trigger] u1[j]).1@.len() <= MAX_BYTES_PER_OBJECT by {
                        crate::sorted::lemma_pairs_to_map_at(u1, j);
                        if u1[j].0 != id.0 {
                            assert(crate::sorted::has_key(u1, u1[j].0));
                            assert(crate::sorted::has_key(u0, u1[j].0));
                            let x = choose|x: int| 0 <= x < u0.len() && u0[x].0 == u1[j].0;
                            crate::sorted::lemma_pairs_to_map_at(u0, x);
                        }
                    }
                }
            }
            assert(self.puts_spec() == before.puts_spec());
            assert(self.flush_requests() == before.flush_requests());
        }
        let ghost mid = *self;
        self.write_unordered_to_pending_object(Some(MAX_BYTES_PER_OBJECT));
        proof {
            assert(holds_write(&mid, id.0, dv));
            if old(self).flush_requests().len() == 0 && dv.len() <= MAX_BYTES_PER_OBJECT
                && (old(self).is_pending_spec() ==> old(self).pending_phys().blocks_size < MAX_BYTES_PER_OBJECT)
                && (forall|i: int| 0 <= i < old(self).unordered_spec().len()
                    ==> (#[trigger] old(self).unordered_spec()[i]).1@.len() <= MAX_BYTES_PER_OBJECT) {
                assert(forall|i: int| 0 <= i < u0.len() ==> (#[trigger] u0[i]).1@.len() <= MAX_BYTES_PER_OBJECT) by {
                    assert forall|i: int| 0 <= i < u0.len() implies (#[trigger] u0[i]).1@.len() <= MAX_BYTES_PER_OBJECT by {
                        assert(u0[i] == old(self).unordered_spec()[i]);
                    }
                }
                assert(mid.flush_requests().len() == 0);
                assert(mid.is_pending_spec() ==> mid.pending_phys().blocks_size < MAX_BYTES_PER_OBJECT);
                assert(forall|i: int| 0 <= i < mid.unordered_spec().len()
                    ==> (#[trigger] mid.unordered_spec()[i]).1@.len() <= MAX_BYTES_PER_OBJECT);
                assert(forall|i: int| mid.puts_spec().len() <= i < self.puts_spec().len()
                    ==> (#[trigger] self.puts_spec()[i]).phys.blocks_size >= MAX_BYTES_PER_OBJECT);
            }
        }
        Ok(WriteOutcome::Queued)
    }

    /// Requests that the object being filled be flushed as soon as the next
    /// block to pack is past `block`. Does nothing while no TXG is open or
    /// while resuming.
    pub fn initiate_flush(&mut self, block: BlockID)
        requires
            old(self).wf(),
        ensures
            final(self).wf(),
            same_txg(old(self), final(self)),
            keeps_writes(old(self), final(self)),
            final(self).next_block_spec() == old(self).next_block_spec(),
            (old(self).syncing_txg_spec() is None || !old(self).is_pending_spec()) ==> *final(self) == *old(self),
            old(self).syncing_txg_spec() is Some && old(self).is_pending_spec() && block.0 >= old(self).next_block_spec()
                ==> final(self).flush_requests().contains(block.0),
            old(self).syncing_txg_spec() is Some && old(self).is_pending_spec() && block.0 < old(self).next_block_spec()
                && last_obj_of(old(self).objects()) < u64::MAX - 1 ==> final(self).pending_len() == 0,
            old(self).syncing_txg_spec() is Some && old(self).is_pending_spec() ==> forall|i: int|
                0 <= i < final(self).flush_requests().len() ==> #[trigger] final(self).flush_requests()[i] >= final(self).next_block_spec(),
            old(self).syncing_txg_spec() is Some && old(self).is_pending_spec()
                && (forall|i: int| 0 <= i < old(self).flush_requests().len() ==> #[trigger] old(self).flush_requests()[i] >= old(self).next_block_spec())
                && (block.0 >= old(self).next_block_spec() ==> old(self).flush_requests().contains(block.0))
                && (block.0 < old(self).next_block_spec() ==> old(self).pending_len() == 0)
                ==> final(self).flush_requests() == old(self).flush_requests()
                    && final(self).pending_blocks() == old(self).pending_blocks()
                    && final(self).pending_phys() == old(self).pending_phys()
                    && final(self).objects() == old(self).objects()
                    && final(self).puts_spec() == old(self).puts_spec()
                    && final(self).unordered_spec() == old(self).unordered_spec(),
    {
        if self.syncing_txg.is_none() || !self.pending_object.is_pending() {
            return;
        }
        let ghost r0 = self.pending_flushes@;
        let ghost idem = (forall|i: int| 0 <= i < r0.len() ==> #[trigger] r0[i] >= self.next_block_spec())
            && (block.0 >= self.next_block_spec() ==> r0.contains(block.0))
            && (block.0 < self.next_block_spec() ==> self.pending_len() == 0);
        let ghost before = *self;
        let mut present = false;
        let mut i: usize = 0;
        while i < self.pending_flushes.len()
            invariant
                0 <= i <= self.pending_flushes@.len(),
                present <==> exists|j: int| 0 <= j < i && self.pending_flushes@[j] == block.0,
            decreases self.pending_flushes@.len() - i,
        {
            if self.pending_flushes[i] == block.0 {
                present = true;
            }
            i = i + 1;
        }
        if !present {
            self.pending_flushes.push(block.0);
        }
        proof {
            lemma_keeps_same(&before, self);
            if block.0 >= self.next_block_spec() {
                if present {
                    let j = choose|j: int| 0 <= j < self.pending_flushes@.len() && self.pending_flushes@[j] == block.0;
                    assert(self.flush_requests()[j] == block.0);
                } else {
                    assert(self.flush_requests()[self.flush_requests().len() - 1] == block.0);
                }
            } else {
                if present {
                    let j = choose|j: int| 0 <= j < self.pending_flushes@.len() && self.pending_flushes@[j] == block.0;
                    assert(self.pending_flushes@[j] < self.next_block_spec());
                } else {
                    let j = self.pending_flushes@.len() - 1;
                    assert(self.pending_flushes@[j] < self.next_block_spec());
                }
            }
        }
        let ghost mid = *self;
        self.check_pending_flushes();
        proof {
            lemma_keeps_writes_trans(&before, &mid, self);
            if idem {
                lemma_requests_all_kept(r0, mid.next_block_spec());
                if present {
                    assert(mid.pending_flushes@ == r0);
                    assert(!(exists|i: int| 0 <= i < mid.pending_flushes@.len()
                        && #[trigger] mid.pending_flushes@[i] < mid.next_block_spec()));
                } else {
                    assert(block.0 < before.next_block_spec()) by {
                        if block.0 >= before.next_block_spec() {
                            let j = choose|j: int| 0 <= j < r0.len() && r0[j] == block.0;
                        }
                    }
                    assert(mid.pending_flushes@ == r0.push(block.0));
                    assert(mid.pending_flushes@.drop_last() =~= r0);
                    assert(mid.pending_len() == 0);
                }
            }
        }
    }

    /// Records that `block`, of `size` bytes, was freed.
    pub fn free_block(&mut self, block: BlockID, size: u32) -> (r: Result<(), ProtocolError>)
        requires
            old(self).wf(),
        ensures
            final(self).wf(),
            r == Err::<(), _>(ProtocolError::NoTxgInProgress) <==> old(self).syncing_txg_spec() is None,
            r == Err::<(), _>(ProtocolError::FreeOfUnwrittenBlock) <==> old(self).syncing_txg_spec() is Some
                && block.0 >= old(self).next_block_spec(),
            r is Ok <==> old(self).syncing_txg_spec() is Some && block.0 < old(self).next_block_spec(),
            r is Err ==> *final(self) == *old(self),
            r is Ok ==> final(self).frees_appended() == old(self).frees_appended().push(PendingFreesLogEntry { block, size })
                && final(self).stats_spec() == (PoolStatsPhys {
                    pending_frees_count: sat_add(old(self).stats_spec().pending_frees_count, 1),
                    pending_frees_bytes: sat_add(old(self).stats_spec().pending_frees_bytes, size as int),
                    ..old(self).stats_spec()
                })
                && final(self).objects() == old(self).objects()
                && final(self).next_block_spec() == old(self).next_block_spec()
                && same_txg(old(self), final(self))
                && keeps_writes(old(self), final(self)),
    {
        if self.syncing_txg.is_none() {
            return Err(ProtocolError::NoTxgInProgress);
        }
        if block.0 >= self.pending_object.next_block().0 {
            return Err(ProtocolError::FreeOfUnwrittenBlock);
        }
        let ghost before = *self;
        self.log_free(PendingFreesLogEntry { block, size });
        proof {
            lemma_keeps_same(&before, self);
        }
        Ok(())
    }

    fn log_free(&mut self, ent: PendingFreesLogEntry)
        ensures
            final(self).frees_appends@ == old(self).frees_appends@.push(ent),
            final(self).stats == (PoolStatsPhys {
                pending_frees_count: sat_add(old(self).stats.pending_frees_count, 1),
                pending_frees_bytes: sat_add(old(self).stats.pending_frees_bytes, ent.size as int),
                ..old(self).stats
            }),
            final(self).block_to_obj == old(self).block_to_obj,
            final(self).pending_object == old(self).pending_object,
            final(self).pending_unordered_writes == old(self).pending_unordered_writes,
            final(self).pending_flushes == old(self).pending_flushes,
            final(self).puts == old(self).puts,
            final(self).storage_log == old(self).storage_log,
            final(self).storage_appends == old(self).storage_appends,
            final(self).storage_committed == old(self).storage_committed,
            final(self).storage_cleared == old(self).storage_cleared,
            final(self).frees_cleared == old(self).frees_cleared,
            final(self).size_cleared == old(self).size_cleared,
            final(self).reclaim_applied == old(self).reclaim_applied,
            final(self).size_appends == old(self).size_appends,
            final(self).objects_to_delete == old(self).objects_to_delete,
            final(self).syncing_txg == old(self).syncing_txg,
            final(self).last_txg == old(self).last_txg,
            final(self).guid == old(self).guid,
    {
        self.frees_appends.push(ent);
        self.stats.pending_frees_count = self.stats.pending_frees_count.saturating_add(1);
        self.stats.pending_frees_bytes = self.stats.pending_frees_bytes.saturating_add(ent.size as u64);
    }
}

/// Why a committed pool state could not be opened.
#[derive(Clone, Copy, Debug, PartialEq, Eq, Structural)]
pub enum OpenError {
    /// The storage-object log does not replay.
    Replay(ReplayError),
    /// The uberblock's object count differs from the objects of the log.
    ObjectCountMismatch,
    /// The uberblock's next block is not past the last object's first block.
    NextBlockBehind,
}

/// Why resuming a TXG failed.
#[derive(Clone, Copy, Debug, PartialEq, Eq, Structural)]
pub enum ResumeError {
    /// No TXG is being resumed.
    NotResuming,
    /// A recovered object belongs to another pool or TXG, or breaks its
    /// invariant.
    ForeignObject,
    /// A recovered object does not come after the objects already known, or
    /// holds no block.
    ObjectOutOfOrder,
    /// The replayed writes leave a gap before the next recovered object.
    MissingWrites,
    /// The replayed writes before a recovered object hold more bytes than a
    /// data object can count.
    GapTooLarge,
}


/// Recovered object `i` is the one with the largest id below that of `j`.
pub open spec fn is_pred(r: Seq<DataObjectPhys>, i: int, j: int) -> bool {
    &&& 0 <= i < r.len()
    &&& r[i].object.0 < r[j].object.0
    &&& forall|k: int| 0 <= k < r.len() && #[trigger] r[k].object.0 < r[j].object.0 ==> r[k].object.0 <= r[i].object.0
}

/// Some recovered object has a smaller id than `j`.
pub open spec fn has_pred(r: Seq<DataObjectPhys>, j: int) -> bool {
    exists|i: int| #[trigger] is_pred(r, i, j)
}

/// Where the writes packed before recovered object `j` start: after the
/// recovered object before it by id, or else at the next block `nb`.
pub open spec fn gap_start(r: Seq<DataObjectPhys>, j: int, nb: u64) -> u64 {
    if has_pred(r, j) { r[choose|i: int| #[trigger] is_pred(r, i, j)].next_block.0 } else { nb }
}

/// The last object id before recovered object `j` is packed: that of the
/// recovered object before it by id, or else `last`.
pub open spec fn gap_prev_id(r: Seq<DataObjectPhys>, j: int, last: u64) -> u64 {
    if has_pred(r, j) { r[choose|i: int| #[trigger] is_pred(r, i, j)].object.0 } else { last }
}

/// Some waiting write lies in [lo, hi).
pub open spec fn writes_in(u: Seq<(u64, Vec<u8>)>, lo: u64, hi: u64) -> bool {
    exists|x: int| 0 <= x < u.len() && lo <= (#[trigger] u[x]).0 < hi
}

/// The waiting writes in [lo, hi) do not run without gap from `lo`: some
/// write above `lo` lacks a write just before it.
pub open spec fn gap_hole(u: Seq<(u64, Vec<u8>)>, lo: u64, hi: u64) -> bool {
    exists|x: int| 0 <= x < u.len() && lo < (#[trigger] u[x]).0 < hi
        && !(exists|y: int| 0 <= y < u.len() && (#[trigger] u[y]).0 + 1 == u[x].0)
}

/// Bytes of the waiting writes in [lo, hi).
pub open spec fn gap_bytes(u: Seq<(u64, Vec<u8>)>, lo: u64, hi: u64) -> nat
    decreases u.len(),
{
    if u.len() == 0 {
        0
    } else {
        gap_bytes(u.drop_last(), lo, hi) + (if lo <= u.last().0 < hi { u.last().1@.len() } else { 0 })
    }
}

/// The recovered objects cannot be adopted in id order after the known
/// objects: one holds no block, comes at or before the last known object or
/// below the next block, has the largest id, shares its id with another, or
/// overlaps one with a larger id; or the writes before one need an object id
/// that it takes; or, with none recovered, no object id is left.
pub open spec fn recovered_out_of_order(objs: Seq<(u64, u64)>, nb: u64, u: Seq<(u64, Vec<u8>)>, r: Seq<DataObjectPhys>) -> bool {
    ||| exists|i: int| 0 <= i < r.len() && ((#[trigger] r[i]).blocks_view().len() == 0
        || r[i].object.0 <= last_obj_of(objs) || r[i].min_block.0 < nb || r[i].object.0 == u64::MAX)
    ||| recovered_out_of_order_pairs(r)
    ||| (r.len() == 0 && last_obj_of(objs) == u64::MAX)
    ||| exists|j: int| 0 <= j < r.len() && writes_in(u, gap_start(r, j, nb), (#[trigger] r[j]).min_block.0)
        && gap_prev_id(r, j, last_obj_of(objs)) + 1 >= r[j].object.0
}

/// The writes before some recovered object leave a gap.
pub open spec fn recovered_missing_writes(nb: u64, u: Seq<(u64, Vec<u8>)>, r: Seq<DataObjectPhys>) -> bool {
    exists|j: int| 0 <= j < r.len() && gap_hole(u, gap_start(r, j, nb), (#[trigger] r[j]).min_block.0)
}

/// The writes before some recovered object hold too many bytes.
pub open spec fn recovered_gap_too_large(nb: u64, u: Seq<(u64, Vec<u8>)>, r: Seq<DataObjectPhys>) -> bool {
    exists|j: int| 0 <= j < r.len() && gap_bytes(u, gap_start(r, j, nb), (#[trigger] r[j]).min_block.0) > u32::MAX
}

/// The error resuming with the recovered objects `r` meets, in the order
/// they are checked; none when resuming succeeds.
pub open spec fn resume_problem(objs: Seq<(u64, u64)>, nb: u64, u: Seq<(u64, Vec<u8>)>, r: Seq<DataObjectPhys>) -> Option<ResumeError> {
    if recovered_out_of_order(objs, nb, u, r) {
        Some(ResumeError::ObjectOutOfOrder)
    } else if recovered_missing_writes(nb, u, r) {
        Some(ResumeError::MissingWrites)
    } else if recovered_gap_too_large(nb, u, r) {
        Some(ResumeError::GapTooLarge)
    } else {
        None
    }
}

/// Block `k` lies in the block range of data object `d`.
pub open spec fn in_range(d: DataObjectPhys, k: u64) -> bool {
    d.min_block.0 <= k < d.next_block.0
}

/// Block `k` lies in the block range of one of the objects `recovered`.
pub open spec fn in_recovered(recovered: Seq<DataObjectPhys>, k: u64) -> bool {
    exists|i: int| 0 <= i < recovered.len() && #[trigger] in_range(recovered[i], k)
}

/// `r` lists the first waiting writes of `u`, all below `bound`.
pub open spec fn dropped_prefix(r: Seq<BlockID>, u: Seq<(u64, Vec<u8>)>, bound: u64) -> bool {
    forall|i: int| 0 <= i < r.len() ==> (#[trigger] r[i]).0 == u[i].0 && u[i].0 < bound
}

/// A recovered data object fits the pool and TXG being resumed.
pub open spec fn recovered_ok(d: DataObjectPhys, guid: PoolGUID, txg: TXG) -> bool {
    d.wf() && d.guid == guid && d.min_txg == txg && d.max_txg == txg
}

impl PoolSyncingState {
    /// The state of a pool whose last committed uberblock is for `txg`, with
    /// `next_block` and `stats`, and whose storage-object log holds `entries`.
    pub fn open(guid: PoolGUID, txg: TXG, next_block: BlockID, stats: PoolStatsPhys,
        entries: &Vec<StorageObjectLogEntry>) -> (r: Result<PoolSyncingState, OpenError>)
        ensures
            r matches Err(OpenError::Replay(_)) <==> replay_storage_log(entries@) is None,
            r == Err::<PoolSyncingState, _>(OpenError::ObjectCountMismatch) <==> (replay_storage_log(entries@) matches Some(s)
                && s.len() != stats.objects_count),
            r == Err::<PoolSyncingState, _>(OpenError::NextBlockBehind) <==> (replay_storage_log(entries@) matches Some(s)
                && s.len() == stats.objects_count && s.len() > 0 && s.last().1 >= next_block.0),
            r matches Ok(p) ==> p.wf() && Some(p.objects()) == replay_storage_log(entries@)
                && p.storage_log_spec() == entries@ && p.last_txg_spec() == txg
                && p.syncing_txg_spec() is None && p.next_block_spec() == next_block.0
                && p.stats_spec() == stats && p.guid_spec() == guid,
    {
        let map = match replay_storage_object_log(entries) {
            Ok(m) => m,
            Err(e) => {
                return Err(OpenError::Replay(e));
            },
        };
        let n = map.len();
        if n as u64 != stats.objects_count {
            return Err(OpenError::ObjectCountMismatch);
        }
        if n > 0 {
            let (_, last_block) = map.entry(n - 1);
            if last_block.0 >= next_block.0 {
                return Err(OpenError::NextBlockBehind);
            }
        }
        let r = PoolSyncingState {
            guid,
            block_to_obj: map,
            pending_object: PendingObjectState::NotPending(next_block),
            pending_unordered_writes: Vec::new(),
            pending_flushes: Vec::new(),
            last_txg: txg,
            syncing_txg: None,
            stats,
            puts: Vec::new(),
            storage_appends: Vec::new(),
            size_appends: Vec::new(),
            frees_appends: Vec::new(),
            storage_cleared: false,
            size_cleared: false,
            frees_cleared: false,
            objects_to_delete: Vec::new(),
            reclaim_in_progress: false,
            storage_log: Ghost(entries@),
            storage_committed: Ghost(entries@),
            reclaim_applied: Ghost(false),
        };
        assert(r.storage_log@ =~= r.storage_committed@ + r.storage_appends@);
        Ok(r)
    }

    /// Opens TXG `txg` for resuming after a crash: the caller replays its
    /// writes and frees, then calls `resume_complete`.
    pub fn resume_txg(&mut self, txg: TXG) -> (r: Result<(), ProtocolError>)
        requires
            old(self).wf(),
        ensures
            final(self).wf(),
            r == Err::<(), _>(ProtocolError::TxgInProgress) <==> old(self).syncing_txg_spec() is Some,
            r == Err::<(), _>(ProtocolError::TxgNotAfterLast) <==> old(self).syncing_txg_spec() is None
                && txg.0 <= old(self).last_txg_spec().0,
            r is Ok <==> old(self).syncing_txg_spec() is None && txg.0 > old(self).last_txg_spec().0,
            r is Err ==> *final(self) == *old(self),
            r is Ok ==> final(self).syncing_txg_spec() == Some(txg) && !final(self).is_pending_spec()
                && final(self).stats_spec() == old(self).stats_spec()
                && final(self).unordered_spec() == old(self).unordered_spec()
                && final(self).next_block_spec() == old(self).next_block_spec()
                && final(self).objects() == old(self).objects()
                && final(self).last_txg_spec() == old(self).last_txg_spec(),
    {
        if self.syncing_txg.is_some() {
            return Err(ProtocolError::TxgInProgress);
        }
        if txg.0 <= self.last_txg.0 {
            return Err(ProtocolError::TxgNotAfterLast);
        }
        self.syncing_txg = Some(txg);
        Ok(())
    }

    /// Ends resuming. `recovered` holds the data objects of the TXG that were
    /// found persisted. In block order, each recovered object is adopted
    /// (the replayed writes it already holds complete at once), and the
    /// replayed writes before it are packed into new objects; the writes after
    /// the last one start the object being filled. Returns the blocks whose
    /// writes completed because an adopted object holds them.
    #[verifier::rlimit(100)]
    pub fn resume_complete(&mut self, recovered: Vec<DataObjectPhys>) -> (r: Result<Vec<BlockID>, ResumeError>)
        requires
            old(self).wf(),
        ensures
            final(self).wf(),
            same_txg(old(self), final(self)),
            r == Err::<Vec<BlockID>, _>(ResumeError::NotResuming) <==> old(self).syncing_txg_spec() is None
                || old(self).is_pending_spec(),
            r == Err::<Vec<BlockID>, _>(ResumeError::ForeignObject) <==> old(self).syncing_txg_spec() is Some
                && !old(self).is_pending_spec()
                && exists|i: int| 0 <= i < recovered@.len()
                    && !recovered_ok(#[trigger] recovered@[i], old(self).guid_spec(), old(self).syncing_txg_spec().unwrap()),
            r is Ok ==> final(self).is_pending_spec()
                && replay_storage_log(final(self).storage_log_spec()) == Some(final(self).objects())
                && objects_grow(old(self).objects(), final(self).objects())
                && (forall|i: int| 0 <= i < recovered@.len() ==> has_object(final(self).objects(),
                    (#[trigger] recovered@[i]).object.0, recovered@[i].min_block.0))
                && (forall|k: u64, v: Seq<u8>| #[trigger] holds_write(old(self), k, v)
                    ==> holds_write(final(self), k, v) || in_recovered(recovered@, k))
                && (forall|i: int| 0 <= i < r->Ok_0@.len() ==> crate::sorted::has_key(old(self).unordered_spec(), (#[trigger] r->Ok_0@[i]).0)
                    && in_recovered(recovered@, r->Ok_0@[i].0)),
            old(self).syncing_txg_spec() is Some && !old(self).is_pending_spec()
                && (forall|i: int| 0 <= i < recovered@.len()
                    ==> recovered_ok(#[trigger] recovered@[i], old(self).guid_spec(), old(self).syncing_txg_spec().unwrap()))
                ==> (r is Ok <==> resume_problem(old(self).objects(), old(self).next_block_spec(), old(self).unordered_spec(), recovered@) is None)
                    && (r matches Err(e) ==> Some(e) == resume_problem(old(self).objects(), old(self).next_block_spec(),
                        old(self).unordered_spec(), recovered@)),
    {
        let txg = match self.syncing_txg {
            Some(t) => t,
            None => {
                return Err(ResumeError::NotResuming);
            },
        };
        if self.pending_object.is_pending() {
            return Err(ResumeError::NotResuming);
        }
        let mut k: usize = 0;
        while k < recovered.len()
            invariant
                0 <= k <= recovered@.len(),
                *self == *old(self),
                old(self).wf(),
                self.syncing_txg == Some(txg),
                self.pending_object is NotPending,
                forall|i: int| 0 <= i < k ==> recovered_ok(#[trigger] recovered@[i], self.guid, txg),
            decreases recovered@.len() - k,
        {
            let d = &recovered[k];
            if !(d.guid == self.guid && d.min_txg == txg && d.max_txg == txg && d.verify()) {
                assert(!recovered_ok(recovered@[k as int], self.guid, txg));
                return Err(ResumeError::ForeignObject);
            }
            k = k + 1;
        }
        match self.resume_check(&recovered) {
            Some(e) => {
                return Err(e);
            },
            None => {},
        }
        let ghost orig = recovered@;
        let ghost u0 = self.pending_unordered_writes@;
        let ghost nb0 = self.next_block_spec();
        let ghost last0 = last_obj_of(self.objects());
        let ghost objs0 = self.objects();
        let ghost mut prev: Option<int> = None;
        let ghost mut n: int = 0;
        let mut rest = recovered;
        let mut done: Vec<BlockID> = Vec::new();
        proof {
            assert(u0.skip(0) =~= u0);
            assert forall|i: int| 0 <= i < rest@.len() implies orig.contains(#[trigger] rest@[i]) by {
                assert(orig[i] == rest@[i]);
            }
            assert forall|q: int| 0 <= q < orig.len() implies rest@.contains(#[trigger] orig[q]) by {
                assert(rest@[q] == orig[q]);
            }
            assert(objects_grow(objs0, self.objects()));
        }
        while rest.len() > 0
            invariant
                self.wf(),
                self.syncing_txg == Some(txg),
                self.pending_object is NotPending,
                same_txg(old(self), self),
                orig == recovered@,
                u0 == old(self).unordered_spec(),
                nb0 == old(self).next_block_spec(),
                objs0 == old(self).objects(),
                last0 == last_obj_of(objs0),
                keys_increasing(u0),
                !recovered_out_of_order(objs0, nb0, u0, orig),
                !recovered_missing_writes(nb0, u0, orig),
                !recovered_gap_too_large(nb0, u0, orig),
                forall|i: int| 0 <= i < orig.len() ==> recovered_ok(#[trigger] orig[i], self.guid, txg),
                forall|i: int| 0 <= i < rest@.len() ==> orig.contains(#[trigger] rest@[i]),
                forall|a: int, b: int| 0 <= a < rest@.len() && 0 <= b < rest@.len() && a != b
                    ==> (#[trigger] rest@[a]).object.0 != (#[trigger] rest@[b]).object.0,
                prev is None ==> forall|q: int| 0 <= q < orig.len() ==> rest@.contains(#[trigger] orig[q]),
                prev is None ==> self.next_block_spec() == nb0 && last_obj_of(self.objects()) == last0,
                prev matches Some(p) ==> 0 <= p < orig.len()
                    && self.next_block_spec() == orig[p].next_block.0
                    && last_obj_of(self.objects()) == orig[p].object.0
                    && (forall|i: int| 0 <= i < rest@.len() ==> (#[trigger] rest@[i]).object.0 > orig[p].object.0)
                    && (forall|q: int| 0 <= q < orig.len() && !rest@.contains(#[trigger] orig[q]) ==> orig[q].object.0 <= orig[p].object.0),
                0 <= n <= u0.len(),
                u0.skip(n) == self.unordered_spec(),
                forall|x: int| 0 <= x < n ==> (#[trigger] u0[x]).0 < self.next_block_spec(),
                objects_grow(objs0, self.objects()),
                forall|q: int| 0 <= q < orig.len() && !rest@.contains(#[trigger] orig[q])
                    ==> has_object(self.objects(), orig[q].object.0, orig[q].min_block.0),
                forall|k: u64, v: Seq<u8>| #[trigger] holds_write(old(self), k, v)
                    ==> holds_write(self, k, v) || in_recovered(orig, k),
                forall|i: int| 0 <= i < done@.len() ==> crate::sorted::has_key(u0, (#[trigger] done@[i]).0)
                    && in_recovered(orig, done@[i].0),
            decreases rest@.len(),
        {
            // the recovered object with the smallest id
            let mut best: usize = 0;
            let mut j: usize = 1;
            while j < rest.len()
                invariant
                    0 <= best < j || rest@.len() == 0,
                    rest@.len() == 0 || best < rest@.len(),
                    1 <= j,
                    forall|x: int| 0 <= x < j && x < rest@.len() ==> rest@[best as int].object.0 <= #[trigger] rest@[x].object.0,
                decreases rest@.len() - j,
            {
                if rest[j].object.0 < rest[best].object.0 {
                    best = j;
                }
                j = j + 1;
            }
            let ghost rest0 = rest@;
            let ghost jo = choose|q: int| 0 <= q < orig.len() && orig[q] == rest0[best as int];
            proof {
                assert(orig.contains(rest0[best as int]));
                lemma_resume_gap(orig, rest0, best as int, prev, jo, nb0, last0, self.next_block_spec(), last_obj_of(self.objects()));
            }
            let obj = rest.remove(best);
            assert(obj == orig[jo]);
            let ghost st_a = *self;
            // the replayed writes before it, packed into one new object
            if self.pending_unordered_writes.len() > 0 && self.pending_unordered_writes[0].0 < obj.min_block.0 {
                proof {
                    assert(u0.skip(n)[0] == u0[0 + n]);
                    assert(writes_in(u0, gap_start(orig, jo, nb0), orig[jo].min_block.0));
                }
                let ghost st0 = *self;
                let nn = self.resume_pack_gap(txg, obj.min_block.0, Ghost(u0), Ghost(n));
                proof {
                    n = nn@;
                    assert forall|k: u64, v: Seq<u8>| #[trigger] holds_write(old(self), k, v)
                        implies holds_write(self, k, v) || in_recovered(orig, k) by {
                        if !in_recovered(orig, k) {
                            assert(holds_write(&st0, k, v));
                        }
                    }
                    assert forall|q: int| 0 <= q < orig.len() && !rest0.contains(#[trigger] orig[q])
                        implies has_object(self.objects(), orig[q].object.0, orig[q].min_block.0) by {
                        lemma_grow_keeps_object(st0.objects(), self.objects(), orig[q].object.0, orig[q].min_block.0);
                    }
                }
            }
            proof {
                assert(self.next_block_spec() <= obj.min_block.0);
                assert(last_obj_of(self.objects()) < obj.object.0);
                let uu = self.unordered_spec();
                assert forall|i: int| 0 <= i < uu.len() implies (#[trigger] uu[i]).0 >= obj.min_block.0 by {
                    if uu[i].0 < obj.min_block.0 {
                        if i > 0 {
                            assert(uu[0].0 < uu[i].0);
                        }
                    }
                }
            }
            let ghost before = *self;
            let ghost done0 = done@;
            let ghost objs_b = self.block_to_obj@;
            proof {
                assert(recovered_ok(orig[jo], self.guid, txg));
            }
            let mut dropped = self.resume_adopt(&obj, Ghost(u0), Ghost(n));
            let ghost dr = dropped@;
            done.append(&mut dropped);
            proof {
                let objs1 = self.block_to_obj@;
                assert(has_object(objs1, obj.object.0, obj.min_block.0)) by {
                    assert(objs1[objs_b.len() as int] == (obj.object.0, obj.min_block.0));
                }
                assert forall|i: int| 0 <= i < done@.len() implies crate::sorted::has_key(u0, (#[trigger] done@[i]).0)
                    && in_recovered(orig, done@[i].0) by {
                    if i >= done0.len() {
                        let x = i - done0.len();
                        assert(done@[i] == dr[x]);
                        assert(in_range(orig[jo], dr[x].0));
                    } else {
                        assert(done@[i] == done0[i]);
                    }
                }
                assert forall|k: u64, v: Seq<u8>| #[trigger] holds_write(old(self), k, v)
                    implies holds_write(self, k, v) || in_recovered(orig, k) by {
                    if !in_recovered(orig, k) {
                        assert(holds_write(&before, k, v));
                        if !holds_write(self, k, v) {
                            assert(in_range(orig[jo], k));
                        }
                    }
                }
                lemma_resume_rest_step(orig, rest0, rest@, best as int, jo, prev, objs_b, objs1);
                assert(objects_grow(objs0, objs1));
                n = n + dr.len();
                prev = Some(jo);
            }
        }
            let last = self.block_to_obj.last_obj();
            proof {
                if prev is None {
                    if orig.len() > 0 {
                        assert(rest@.contains(orig[0]));
                    }
                    assert(orig.len() == 0);
                } else {
                    let p = prev->Some_0;
                    assert(!(orig[p].object.0 == u64::MAX));
                }
            }
            let nb = self.pending_object.next_block();
            let ghost st0 = *self;
            self.pending_object = PendingObjectState::new_pending(self.guid, last.next(), nb, txg);
            proof {
                let phys = self.pending_object->Pending_0;
                assert(phys.block_map() =~= Map::<u64, Seq<u8>>::empty());
                assert(st0.pending_blocks() =~= Map::<u64, Seq<u8>>::empty());
                lemma_keeps_same(&st0, self);
            }
            let ghost st1 = *self;
            self.write_unordered_to_pending_object(Some(MAX_BYTES_PER_OBJECT));
            proof {
                lemma_keeps_writes_trans(&st0, &st1, self);
                assert forall|k: u64, v: Seq<u8>| #[trigger] holds_write(old(self), k, v)
                    implies holds_write(self, k, v) || in_recovered(recovered@, k) by {
                    if !in_recovered(orig, k) {
                        assert(holds_write(&st0, k, v));
                        assert(holds_write(&st1, k, v));
                    }
                }
                assert forall|i: int| 0 <= i < recovered@.len() implies has_object(self.objects(),
                    (#[trigger] recovered@[i]).object.0, recovered@[i].min_block.0) by {
                    assert(orig[i] == recovered@[i]);
                    assert(!rest@.contains(orig[i]));
                    lemma_grow_keeps_object(st0.objects(), self.objects(), orig[i].object.0, orig[i].min_block.0);
                }
            }
            return Ok(done);
    }
}

impl PoolSyncingState {
    /// Drops the waiting writes below `bound` and returns their blocks.
    #[verifier::rlimit(40)]
    fn drop_writes_below(&mut self, bound: BlockID) -> (r: Vec<BlockID>)
        requires
            keys_increasing(old(self).pending_unordered_writes@),
            forall|i: int| 0 <= i < old(self).pending_unordered_writes@.len()
                ==> #[trigger] old(self).pending_unordered_writes@[i].0 < u64::MAX
                    && old(self).pending_unordered_writes@[i].1@.len() <= u32::MAX,
        ensures
            keys_increasing(final(self).pending_unordered_writes@),
            forall|i: int| 0 <= i < final(self).pending_unordered_writes@.len()
                ==> #[trigger] final(self).pending_unordered_writes@[i].0 >= bound.0
                    && final(self).pending_unordered_writes@[i].0 < u64::MAX
                    && final(self).pending_unordered_writes@[i].1@.len() <= u32::MAX,
            final(self).pending_unordered_writes@.len() <= old(self).pending_unordered_writes@.len(),
            r@.len() <= old(self).pending_unordered_writes@.len(),
            final(self).pending_unordered_writes@ == old(self).pending_unordered_writes@.skip(r@.len() as int),
            dropped_prefix(r@, old(self).pending_unordered_writes@, bound.0),
            final(self).block_to_obj == old(self).block_to_obj,
            final(self).pending_object == old(self).pending_object,
            final(self).pending_flushes == old(self).pending_flushes,
            final(self).puts == old(self).puts,
            final(self).objects_to_delete == old(self).objects_to_delete,
            final(self).stats == old(self).stats,
            final(self).storage_log == old(self).storage_log,
            final(self).storage_appends == old(self).storage_appends,
            final(self).storage_committed == old(self).storage_committed,
            final(self).storage_cleared == old(self).storage_cleared,
            final(self).size_appends == old(self).size_appends,
            final(self).size_cleared == old(self).size_cleared,
            final(self).frees_cleared == old(self).frees_cleared,
            final(self).reclaim_applied == old(self).reclaim_applied,
            final(self).syncing_txg == old(self).syncing_txg,
            final(self).last_txg == old(self).last_txg,
            final(self).guid == old(self).guid,
    {
        let mut done: Vec<BlockID> = Vec::new();
        while self.pending_unordered_writes.len() > 0 && self.pending_unordered_writes[0].0 < bound.0
            invariant
                keys_increasing(self.pending_unordered_writes@),
                forall|i: int| 0 <= i < self.pending_unordered_writes@.len()
                    ==> #[trigger] self.pending_unordered_writes@[i].0 < u64::MAX
                        && self.pending_unordered_writes@[i].1@.len() <= u32::MAX,
                self.pending_unordered_writes@.len() <= old(self).pending_unordered_writes@.len(),
                done@.len() <= old(self).pending_unordered_writes@.len(),
                self.pending_unordered_writes@ == old(self).pending_unordered_writes@.skip(done@.len() as int),
                dropped_prefix(done@, old(self).pending_unordered_writes@, bound.0),
                self.block_to_obj == old(self).block_to_obj,
                self.pending_object == old(self).pending_object,
                self.pending_flushes == old(self).pending_flushes,
                self.puts == old(self).puts,
                self.objects_to_delete == old(self).objects_to_delete,
                self.stats == old(self).stats,
                self.storage_log == old(self).storage_log,
                self.storage_appends == old(self).storage_appends,
                self.storage_committed == old(self).storage_committed,
                self.storage_cleared == old(self).storage_cleared,
                self.size_appends == old(self).size_appends,
                self.size_cleared == old(self).size_cleared,
                self.frees_cleared == old(self).frees_cleared,
                self.reclaim_applied == old(self).reclaim_applied,
                self.syncing_txg == old(self).syncing_txg,
                self.last_txg == old(self).last_txg,
                self.guid == old(self).guid,
            decreases self.pending_unordered_writes@.len(),
        {
            let ghost u0 = self.pending_unordered_writes@;
            let ghost d0 = done@;
            let (id, _) = self.pending_unordered_writes.remove(0);
            done.push(BlockID(id));
            proof {
                let ou = old(self).pending_unordered_writes@;
                assert(u0 == ou.skip(d0.len() as int));
                assert(u0[0] == ou[d0.len() as int]);
                assert(self.pending_unordered_writes@ =~= ou.skip(done@.len() as int));
                assert forall|i: int| 0 <= i < done@.len() implies (#[trigger] done@[i]).0 == ou[i].0 && ou[i].0 < bound.0 by {
                    if i < d0.len() {
                        assert(done@[i] == d0[i]);
                    }
                }
            }
            proof {
                crate::sorted::lemma_remove_index_increasing(u0, 0);
                let u1 = self.pending_unordered_writes@;
                assert forall|i: int| 0 <= i < u1.len() implies #[trigger] u1[i].0 < u64::MAX
                    && u1[i].1@.len() <= u32::MAX by {
                    assert(u1[i] == u0[i + 1]);
                }
            }
        }
        proof {
            let u = self.pending_unordered_writes@;
            assert forall|i: int| 0 <= i < u.len() implies #[trigger] u[i].0 >= bound.0 by {
                if i > 0 {
                    assert(u[0].0 < u[i].0);
                }
            }
        }
        done
    }
}

impl PoolSyncingState {
    /// Rewrites the storage-object log from the objects, if it is due.
    fn try_condense_object_log(&mut self, num_chunks: u64, per_chunk: u64)
        requires
            old(self).wf_mid(),
            old(self).syncing_txg is Some,
        ensures
            final(self).wf_mid(),
            final(self).objects() == old(self).objects(),
            final(self).stats == old(self).stats,
            final(self).pending_object == old(self).pending_object,
            final(self).pending_unordered_writes == old(self).pending_unordered_writes,
            final(self).puts == old(self).puts,
            final(self).storage_committed == old(self).storage_committed,
            final(self).frees_appends == old(self).frees_appends,
            final(self).frees_cleared == old(self).frees_cleared,
            final(self).size_appends == old(self).size_appends,
            final(self).size_cleared == old(self).size_cleared,
            final(self).reclaim_applied == old(self).reclaim_applied,
            final(self).storage_cleared == (old(self).storage_cleared || condense_due(num_chunks, old(self).objects().len() as u64, per_chunk)),
            same_txg(old(self), final(self)),
            condense_due(num_chunks, old(self).objects().len() as u64, per_chunk)
                ==> final(self).storage_log_spec() == allocs_of(old(self).objects())
                    && final(self).storage_appends@ == allocs_of(old(self).objects()),
            final(self).objects_to_delete == old(self).objects_to_delete,
            !condense_due(num_chunks, old(self).objects().len() as u64, per_chunk) ==> *final(self) == *old(self),
    {
        let n = self.block_to_obj.len();
        if !log_needs_condense(num_chunks, n as u64, per_chunk) {
            return;
        }
        let mut entries: Vec<StorageObjectLogEntry> = Vec::new();
        let mut i: usize = 0;
        while i < n
            invariant
                0 <= i <= n,
                n == self.block_to_obj@.len(),
                entries@ == allocs_of(self.block_to_obj@.take(i as int)),
            decreases n - i,
        {
            let (obj, block) = self.block_to_obj.entry(i);
            entries.push(StorageObjectLogEntry::Alloc { obj, first_possible_block: block });
            assert(entries@ =~= allocs_of(self.block_to_obj@.take(i + 1)));
            i = i + 1;
        }
        assert(self.block_to_obj@.take(n as int) =~= self.block_to_obj@);
        proof {
            lemma_replay_allocs(self.block_to_obj@);
        }
        self.storage_log = Ghost(entries@);
        self.storage_appends = entries;
        self.storage_cleared = true;
        assert(self.storage_log@ =~= Seq::<StorageObjectLogEntry>::empty() + self.storage_appends@);
    }

    /// Logs the deletion of objects merged into another one.
    #[verifier::rlimit(60)]
    fn log_deleted_objects(&mut self, deleted: &Vec<ObjectID>)
        requires
            old(self).wf_mid(),
            old(self).syncing_txg is Some,
            old(self).pending_object is NotPending,
            old(self).reclaim_applied@,
        ensures
            final(self).wf_mid(),
            final(self).pending_object is NotPending,
            final(self).next_block_spec() == old(self).next_block_spec(),
            same_txg(old(self), final(self)),
            final(self).reclaim_applied@,
            final(self).objects_to_delete@ == old(self).objects_to_delete@ + deleted@,
            final(self).objects() == remove_all(old(self).objects(), deleted@),
            final(self).storage_committed == old(self).storage_committed,
            final(self).frees_appends == old(self).frees_appends,
            final(self).frees_cleared == old(self).frees_cleared,
            final(self).stats.blocks_count == old(self).stats.blocks_count,
            final(self).stats.blocks_bytes == old(self).stats.blocks_bytes,
            final(self).stats.pending_frees_count == old(self).stats.pending_frees_count,
            final(self).stats.pending_frees_bytes == old(self).stats.pending_frees_bytes,
            final(self).storage_appends@ == old(self).storage_appends@ + free_entries(deleted@),
            final(self).size_appends@ == old(self).size_appends@ + freed_entries(deleted@),
            final(self).storage_cleared == old(self).storage_cleared,
            final(self).size_cleared == old(self).size_cleared,
    {
        let mut i: usize = 0;
        assert(deleted@.take(0) =~= Seq::<ObjectID>::empty());
        assert(old(self).storage_appends@ =~= old(self).storage_appends@ + free_entries(deleted@.take(0)));
        assert(old(self).size_appends@ =~= old(self).size_appends@ + freed_entries(deleted@.take(0)));
        while i < deleted.len()
            invariant
                0 <= i <= deleted@.len(),
                self.wf_mid(),
                self.pending_object is NotPending,
                self.next_block_spec() == old(self).next_block_spec(),
                same_txg(old(self), self),
                self.objects_to_delete@ == old(self).objects_to_delete@ + deleted@.take(i as int),
                self.syncing_txg is Some,
                self.reclaim_applied@,
                self.block_to_obj@ == remove_all(old(self).block_to_obj@, deleted@.take(i as int)),
                self.storage_committed == old(self).storage_committed,
                self.frees_appends == old(self).frees_appends,
                self.frees_cleared == old(self).frees_cleared,
                self.stats.blocks_count == old(self).stats.blocks_count,
                self.stats.blocks_bytes == old(self).stats.blocks_bytes,
                self.stats.pending_frees_count == old(self).stats.pending_frees_count,
                self.stats.pending_frees_bytes == old(self).stats.pending_frees_bytes,
                self.storage_appends@ == old(self).storage_appends@ + free_entries(deleted@.take(i as int)),
                self.size_appends@ == old(self).size_appends@ + freed_entries(deleted@.take(i as int)),
                self.storage_cleared == old(self).storage_cleared,
                self.size_cleared == old(self).size_cleared,
            decreases deleted@.len() - i,
        {
            let obj = deleted[i];
            let e = StorageObjectLogEntry::Free { obj };
            self.storage_appends.push(e);
            let ghost old_log = self.storage_log@;
            self.storage_log = Ghost(self.storage_log@.push(e));
            assert(self.storage_log@.drop_last() =~= old_log);
            assert(self.storage_log@ =~= (if self.storage_cleared { Seq::empty() } else { self.storage_committed@ })
                + self.storage_appends@);
            self.block_to_obj.remove(obj);
            self.stats.objects_count = self.block_to_obj.len() as u64;
            self.size_appends.push(ObjectSizeLogEntry::Freed { obj });
            self.objects_to_delete.push(obj);
            assert(self.objects_to_delete@ =~= old(self).objects_to_delete@ + deleted@.take(i + 1));
            assert(deleted@.take(i + 1).drop_last() =~= deleted@.take(i as int));
            assert(deleted@.take(i + 1).last() == obj);
            assert(self.storage_appends@ =~= old(self).storage_appends@ + free_entries(deleted@.take(i + 1)));
            assert(self.size_appends@ =~= old(self).size_appends@ + freed_entries(deleted@.take(i + 1)));
            proof {
                let s0 = replay_storage_log(old_log).unwrap();
                let s1 = self.block_to_obj@;
                assert(crate::sorted::keys_increasing(s0));
                if crate::sorted::has_key(s0, obj.0) {
                    let j = choose|j: int| 0 <= j < s0.len() && s0[j].0 == obj.0;
                    crate::sorted::lemma_remove_key_index(s0, j);
                } else {
                    crate::sorted::lemma_remove_absent_key(s0, obj.0);
                }
                let b = self.pending_object.next_block_spec();
                if s1.len() > 0 {
                    // the last pair left was a pair of s0, at or before its last
                    assert(s1.len() <= s0.len());
                    if crate::sorted::has_key(s0, obj.0) {
                        let j = choose|j: int| 0 <= j < s0.len() && s0[j].0 == obj.0;
                        assert(s1 == s0.remove(j));
                        if j == s0.len() - 1 {
                            assert(s1.last() == s0[s0.len() - 2]);
                        } else {
                            assert(s1.last() == s0.last());
                        }
                    }
                }
            }
            i = i + 1;
        }
        assert(deleted@.take(i as int) =~= deleted@);
    }

    /// Applies the outcome of a reclaim pass: statistics, the pending-frees log
    /// rebuilt from the frees left, the deleted objects, the object-size log
    /// condensed if due, and the new sizes of the rewritten objects.
    fn apply_reclaim(&mut self, outcome: ReclaimOutcome, per_chunk: u64)
        requires
            old(self).wf_mid(),
            old(self).syncing_txg is Some,
            old(self).pending_object is NotPending,
        ensures
            final(self).wf_mid(),
            final(self).pending_object is NotPending,
            final(self).next_block_spec() == old(self).next_block_spec(),
            same_txg(old(self), final(self)),
            final(self).objects() == remove_all(old(self).objects(), outcome.deleted_objects@),
            final(self).stats.blocks_count == sat_sub(old(self).stats.blocks_count, outcome.freed_blocks_count as int),
            final(self).stats.blocks_bytes == sat_sub(old(self).stats.blocks_bytes, outcome.freed_blocks_bytes as int),
            final(self).storage_committed == old(self).storage_committed,
            final(self).frees_appends@ == outcome.remaining_frees@ + outcome.later_frees@ + old(self).frees_appends@,
            final(self).frees_cleared,
            final(self).stats.pending_frees_count == count_sat(final(self).frees_appends@.len()),
            final(self).stats.pending_frees_bytes == crate::reclaim::bytes_of(final(self).frees_appends@),
            final(self).storage_appends@ == old(self).storage_appends@ + free_entries(outcome.deleted_objects@),
            final(self).storage_cleared == old(self).storage_cleared,
            final(self).size_appends@ == reclaim_size_entries(outcome, old(self).size_appends@, per_chunk),
            final(self).size_cleared == (old(self).size_cleared
                || condense_due(outcome.size_log_chunks, outcome.object_sizes@.len() as u64, per_chunk)),
            final(self).objects_to_delete@ == old(self).objects_to_delete@ + outcome.deleted_objects@,
    {
        self.reclaim_applied = Ghost(true);
        self.stats.blocks_count = self.stats.blocks_count.saturating_sub(outcome.freed_blocks_count);
        self.stats.blocks_bytes = self.stats.blocks_bytes.saturating_sub(outcome.freed_blocks_bytes);
        // the pending-frees log starts over with the frees still pending
        let mut pending: Vec<PendingFreesLogEntry> = Vec::new();
        core::mem::swap(&mut self.frees_appends, &mut pending);
        self.frees_cleared = true;
        self.stats.pending_frees_count = 0;
        self.stats.pending_frees_bytes = 0;
        assert(self.frees_appends@.len() == 0);
        let mut i: usize = 0;
        while i < outcome.remaining_frees.len()
            invariant
                self.wf_mid(),
                self.pending_object is NotPending,
                self.next_block_spec() == old(self).next_block_spec(),
                same_txg(old(self), self),
                self.block_to_obj@ == old(self).block_to_obj@,
                self.stats.blocks_count == sat_sub(old(self).stats.blocks_count, outcome.freed_blocks_count as int),
                self.stats.blocks_bytes == sat_sub(old(self).stats.blocks_bytes, outcome.freed_blocks_bytes as int),
                self.storage_committed == old(self).storage_committed,
                self.frees_appends@ == outcome.remaining_frees@.take(i as int),
                self.frees_cleared,
                pending@ == old(self).frees_appends@,
                0 <= i <= outcome.remaining_frees@.len(),
                self.stats.pending_frees_count == count_sat(self.frees_appends@.len()),
                self.stats.pending_frees_bytes == crate::reclaim::bytes_of(self.frees_appends@),
                self.storage_appends == old(self).storage_appends,
                self.storage_cleared == old(self).storage_cleared,
                self.size_appends == old(self).size_appends,
                self.size_cleared == old(self).size_cleared,
                self.objects_to_delete == old(self).objects_to_delete,
            decreases outcome.remaining_frees@.len() - i,
        {
            let ghost fa0 = self.frees_appends@;
            self.log_free(outcome.remaining_frees[i]);
            assert(self.frees_appends@.drop_last() =~= fa0);
            assert(self.frees_appends@ =~= outcome.remaining_frees@.take(i + 1));
            i = i + 1;
        }
        assert(outcome.remaining_frees@.take(i as int) =~= outcome.remaining_frees@);
        let mut i: usize = 0;
        while i < outcome.later_frees.len()
            invariant
                self.wf_mid(),
                self.pending_object is NotPending,
                self.next_block_spec() == old(self).next_block_spec(),
                same_txg(old(self), self),
                self.block_to_obj@ == old(self).block_to_obj@,
                self.stats.blocks_count == sat_sub(old(self).stats.blocks_count, outcome.freed_blocks_count as int),
                self.stats.blocks_bytes == sat_sub(old(self).stats.blocks_bytes, outcome.freed_blocks_bytes as int),
                self.storage_committed == old(self).storage_committed,
                self.frees_appends@ == outcome.remaining_frees@ + outcome.later_frees@.take(i as int),
                self.frees_cleared,
                pending@ == old(self).frees_appends@,
                0 <= i <= outcome.later_frees@.len(),
                self.stats.pending_frees_count == count_sat(self.frees_appends@.len()),
                self.stats.pending_frees_bytes == crate::reclaim::bytes_of(self.frees_appends@),
                self.storage_appends == old(self).storage_appends,
                self.storage_cleared == old(self).storage_cleared,
                self.size_appends == old(self).size_appends,
                self.size_cleared == old(self).size_cleared,
                self.objects_to_delete == old(self).objects_to_delete,
            decreases outcome.later_frees@.len() - i,
        {
            let ghost fa0 = self.frees_appends@;
            self.log_free(outcome.later_frees[i]);
            assert(self.frees_appends@.drop_last() =~= fa0);
            assert(self.frees_appends@ =~= outcome.remaining_frees@ + outcome.later_frees@.take(i + 1));
            i = i + 1;
        }
        assert(outcome.later_frees@.take(i as int) =~= outcome.later_frees@);
        let mut i: usize = 0;
        while i < pending.len()
            invariant
                self.wf_mid(),
                self.pending_object is NotPending,
                self.next_block_spec() == old(self).next_block_spec(),
                same_txg(old(self), self),
                self.block_to_obj@ == old(self).block_to_obj@,
                self.stats.blocks_count == sat_sub(old(self).stats.blocks_count, outcome.freed_blocks_count as int),
                self.stats.blocks_bytes == sat_sub(old(self).stats.blocks_bytes, outcome.freed_blocks_bytes as int),
                self.storage_committed == old(self).storage_committed,
                self.frees_appends@ == outcome.remaining_frees@ + outcome.later_frees@ + pending@.take(i as int),
                self.frees_cleared,
                pending@ == old(self).frees_appends@,
                0 <= i <= pending@.len(),
                self.stats.pending_frees_count == count_sat(self.frees_appends@.len()),
                self.stats.pending_frees_bytes == crate::reclaim::bytes_of(self.frees_appends@),
                self.storage_appends == old(self).storage_appends,
                self.storage_cleared == old(self).storage_cleared,
                self.size_appends == old(self).size_appends,
                self.size_cleared == old(self).size_cleared,
                self.objects_to_delete == old(self).objects_to_delete,
            decreases pending@.len() - i,
        {
            let ghost fa0 = self.frees_appends@;
            self.log_free(pending[i]);
            assert(self.frees_appends@.drop_last() =~= fa0);
            assert(self.frees_appends@ =~= outcome.remaining_frees@ + outcome.later_frees@ + pending@.take(i + 1));
            i = i + 1;
        }
        assert(pending@.take(i as int) =~= pending@);
        self.log_deleted_objects(&outcome.deleted_objects);
        let ghost base = self.size_appends@;
        assert(base == old(self).size_appends@ + freed_entries(outcome.deleted_objects@));
        let cond = log_needs_condense(outcome.size_log_chunks, outcome.object_sizes.len() as u64, per_chunk);
        // the object-size log, condensed if due
        if cond {
            let mut pending_sizes: Vec<ObjectSizeLogEntry> = Vec::new();
            core::mem::swap(&mut self.size_appends, &mut pending_sizes);
            self.size_cleared = true;
            let mut i: usize = 0;
            assert(self.size_appends@ =~= exists_entries(outcome.object_sizes@.take(0)));
            while i < outcome.object_sizes.len()
                invariant
                    self.wf_mid(),
                    self.pending_object is NotPending,
                    self.next_block_spec() == old(self).next_block_spec(),
                    same_txg(old(self), self),
                    self.block_to_obj@ == remove_all(old(self).block_to_obj@, outcome.deleted_objects@),
                    self.stats.blocks_count == sat_sub(old(self).stats.blocks_count, outcome.freed_blocks_count as int),
                    self.stats.blocks_bytes == sat_sub(old(self).stats.blocks_bytes, outcome.freed_blocks_bytes as int),
                    self.stats.pending_frees_count == count_sat(self.frees_appends@.len()),
                    self.stats.pending_frees_bytes == crate::reclaim::bytes_of(self.frees_appends@),
                    self.storage_committed == old(self).storage_committed,
                    self.frees_appends@ == outcome.remaining_frees@ + outcome.later_frees@ + old(self).frees_appends@,
                    self.frees_cleared,
                    self.storage_appends@ == old(self).storage_appends@ + free_entries(outcome.deleted_objects@),
                    self.storage_cleared == old(self).storage_cleared,
                    self.objects_to_delete@ == old(self).objects_to_delete@ + outcome.deleted_objects@,
                    0 <= i <= outcome.object_sizes@.len(),
                    self.size_cleared,
                    pending_sizes@ == base,
                    self.size_appends@ == exists_entries(outcome.object_sizes@.take(i as int)),
                decreases outcome.object_sizes@.len() - i,
            {
                let (obj, num_bytes) = outcome.object_sizes[i];
                self.size_appends.push(ObjectSizeLogEntry::Exists { obj: ObjectID(obj), num_blocks: 0, num_bytes });
                assert(self.size_appends@ =~= exists_entries(outcome.object_sizes@.take(i + 1)));
                i = i + 1;
            }
            assert(outcome.object_sizes@.take(i as int) =~= outcome.object_sizes@);
            let mut i: usize = 0;
            assert(outcome.later_sizes@.take(0) =~= Seq::<ObjectSizeLogEntry>::empty());
            assert(self.size_appends@ =~= exists_entries(outcome.object_sizes@) + outcome.later_sizes@.take(0));
            while i < outcome.later_sizes.len()
                invariant
                    self.wf_mid(),
                    self.pending_object is NotPending,
                    self.next_block_spec() == old(self).next_block_spec(),
                    same_txg(old(self), self),
                    self.block_to_obj@ == remove_all(old(self).block_to_obj@, outcome.deleted_objects@),
                    self.stats.blocks_count == sat_sub(old(self).stats.blocks_count, outcome.freed_blocks_count as int),
                    self.stats.blocks_bytes == sat_sub(old(self).stats.blocks_bytes, outcome.freed_blocks_bytes as int),
                    self.stats.pending_frees_count == count_sat(self.frees_appends@.len()),
                    self.stats.pending_frees_bytes == crate::reclaim::bytes_of(self.frees_appends@),
                    self.storage_committed == old(self).storage_committed,
                    self.frees_appends@ == outcome.remaining_frees@ + outcome.later_frees@ + old(self).frees_appends@,
                    self.frees_cleared,
                    self.storage_appends@ == old(self).storage_appends@ + free_entries(outcome.deleted_objects@),
                    self.storage_cleared == old(self).storage_cleared,
                    self.objects_to_delete@ == old(self).objects_to_delete@ + outcome.deleted_objects@,
                    0 <= i <= outcome.later_sizes@.len(),
                    self.size_cleared,
                    pending_sizes@ == base,
                    self.size_appends@ == exists_entries(outcome.object_sizes@) + outcome.later_sizes@.take(i as int),
                decreases outcome.later_sizes@.len() - i,
            {
                self.size_appends.push(outcome.later_sizes[i]);
                assert(self.size_appends@ =~= exists_entries(outcome.object_sizes@) + outcome.later_sizes@.take(i + 1));
                i = i + 1;
            }
            assert(outcome.later_sizes@.take(i as int) =~= outcome.later_sizes@);
            self.size_appends.append(&mut pending_sizes);
        }
        let ghost mid = self.size_appends@;
        assert(mid == (if condense_due(outcome.size_log_chunks, outcome.object_sizes@.len() as u64, per_chunk) {
            exists_entries(outcome.object_sizes@) + outcome.later_sizes@ + base } else { base }));
        let mut i: usize = 0;
        assert(mid =~= mid + rewritten_entries(outcome.rewritten_object_sizes@.take(0)));
        while i < outcome.rewritten_object_sizes.len()
            invariant
                self.wf_mid(),
                self.pending_object is NotPending,
                self.next_block_spec() == old(self).next_block_spec(),
                same_txg(old(self), self),
                self.block_to_obj@ == remove_all(old(self).block_to_obj@, outcome.deleted_objects@),
                self.stats.blocks_count == sat_sub(old(self).stats.blocks_count, outcome.freed_blocks_count as int),
                self.stats.blocks_bytes == sat_sub(old(self).stats.blocks_bytes, outcome.freed_blocks_bytes as int),
                self.stats.pending_frees_count == count_sat(self.frees_appends@.len()),
                self.stats.pending_frees_bytes == crate::reclaim::bytes_of(self.frees_appends@),
                self.storage_committed == old(self).storage_committed,
                self.frees_appends@ == outcome.remaining_frees@ + outcome.later_frees@ + old(self).frees_appends@,
                self.frees_cleared,
                self.storage_appends@ == old(self).storage_appends@ + free_entries(outcome.deleted_objects@),
                self.storage_cleared == old(self).storage_cleared,
                self.objects_to_delete@ == old(self).objects_to_delete@ + outcome.deleted_objects@,
                0 <= i <= outcome.rewritten_object_sizes@.len(),
                self.size_cleared == (old(self).size_cleared
                    || condense_due(outcome.size_log_chunks, outcome.object_sizes@.len() as u64, per_chunk)),
                self.size_appends@ == mid + rewritten_entries(outcome.rewritten_object_sizes@.take(i as int)),
            decreases outcome.rewritten_object_sizes@.len() - i,
        {
            let (obj, num_bytes) = outcome.rewritten_object_sizes[i];
            self.size_appends.push(ObjectSizeLogEntry::Exists { obj, num_blocks: 0, num_bytes });
            assert(self.size_appends@ =~= mid + rewritten_entries(outcome.rewritten_object_sizes@.take(i + 1)));
            i = i + 1;
        }
        assert(outcome.rewritten_object_sizes@.take(i as int) =~= outcome.rewritten_object_sizes@);
        self.reclaim_in_progress = false;
    }
}

impl PoolSyncingState {
    pub closed spec fn reclaim_in_progress_spec(&self) -> bool {
        self.reclaim_in_progress
    }

    /// Gives up the reclaim pass in progress (its planning or its rewrites
    /// failed), so that a later `end_txg` may start another.
    pub fn abandon_reclaim(&mut self)
        requires
            old(self).wf(),
        ensures
            final(self).wf(),
            !final(self).reclaim_in_progress_spec(),
            final(self).objects() == old(self).objects(),
            final(self).stats_spec() == old(self).stats_spec(),
            final(self).next_block_spec() == old(self).next_block_spec(),
            final(self).pending_blocks() == old(self).pending_blocks(),
            final(self).unordered_spec() == old(self).unordered_spec(),
            final(self).puts_spec() == old(self).puts_spec(),
            same_txg(old(self), final(self)),
    {
        self.reclaim_in_progress = false;
    }

    /// Ends the open TXG. Every write must have been packed and the object
    /// being filled flushed. `storage_log_chunks` is the number of chunks of
    /// the storage-object log and `per_chunk` the entries a log chunk holds;
    /// `reclaim` is the outcome of a finished reclaim pass, if any. Returns
    /// what the caller persists, in order, to commit the TXG.
    pub fn end_txg(&mut self, storage_log_chunks: u64, per_chunk: u64, reclaim: Option<ReclaimOutcome>)
        -> (r: Result<TxgCommit, ProtocolError>)
        requires
            old(self).wf(),
        ensures
            final(self).wf(),
            r matches Err(ProtocolError::NoTxgInProgress) <==> old(self).syncing_txg_spec() is None,
            r matches Err(ProtocolError::WrongResumeState) <==> old(self).syncing_txg_spec() is Some
                && !old(self).is_pending_spec(),
            r matches Err(ProtocolError::WritesPending) <==> old(self).syncing_txg_spec() is Some
                && old(self).is_pending_spec()
                && (old(self).unordered_spec().len() > 0 || old(self).pending_len() > 0),
            r is Err ==> *final(self) == *old(self),
            r matches Ok(c) ==> old(self).syncing_txg_spec() == Some(c.txg)
                && final(self).last_txg_spec() == c.txg
                && final(self).syncing_txg_spec() is None
                && c.next_block.0 == old(self).next_block_spec()
                && final(self).next_block_spec() == old(self).next_block_spec()
                && c.stats == final(self).stats_spec()
                && c.start_reclaim == (reclaim is None && !old(self).reclaim_in_progress_spec()
                    && crate::reclaim::reclaim_due(old(self).stats_spec()))
                && (reclaim is None ==> final(self).objects() == old(self).objects())
                && (reclaim matches Some(o) ==> final(self).objects() == remove_all(old(self).objects(), o.deleted_objects@)
                    && c.stats.blocks_count == sat_sub(old(self).stats_spec().blocks_count, o.freed_blocks_count as int))
                && (if c.storage_object_log.clear { Seq::empty() } else { old(self).committed_storage_log() })
                    + c.storage_object_log.entries@ == final(self).committed_storage_log()
                && final(self).committed_storage_log() == final(self).storage_log_spec()
                && (reclaim matches Some(o) ==> c.pending_frees_log.clear
                    && c.pending_frees_log.entries@ == o.remaining_frees@ + o.later_frees@ + old(self).frees_appended())
                && (reclaim is None ==> c.pending_frees_log.entries@ == old(self).frees_appended())
                && (reclaim is None && !c.storage_object_log.clear ==> !c.object_size_log.clear
                    && allocs_paired(c.storage_object_log.entries@, c.object_size_log.entries@))
                && !final(self).is_pending_spec()
                && c.storage_object_log.clear == condense_due(storage_log_chunks, old(self).objects().len() as u64, per_chunk)
                && c.storage_object_log.entries@ == (if c.storage_object_log.clear { allocs_of(old(self).objects()) }
                    else { old(self).storage_appended() })
                    + (if reclaim is Some { free_entries(reclaim->Some_0.deleted_objects@) } else { Seq::empty() })
                && (reclaim is None ==> c.stats == old(self).stats_spec()
                    && c.object_size_log.entries@ == old(self).size_appended()
                    && !c.object_size_log.clear
                    && !c.pending_frees_log.clear
                    && c.objects_to_delete@.len() == 0)
                && (reclaim matches Some(o) ==> c.objects_to_delete@ == o.deleted_objects@
                    && c.object_size_log.entries@ == reclaim_size_entries(o, old(self).size_appended(), per_chunk)
                    && c.object_size_log.clear == condense_due(o.size_log_chunks, o.object_sizes@.len() as u64, per_chunk)
                    && c.stats.blocks_bytes == sat_sub(old(self).stats_spec().blocks_bytes, o.freed_blocks_bytes as int)
                    && c.stats.pending_frees_count == count_sat(c.pending_frees_log.entries@.len())
                    && c.stats.pending_frees_bytes == crate::reclaim::bytes_of(c.pending_frees_log.entries@)),
            r is Ok <==> old(self).syncing_txg_spec() is Some && old(self).is_pending_spec()
                && old(self).unordered_spec().len() == 0 && old(self).pending_len() == 0,
    {
        let txg = match self.syncing_txg {
            Some(t) => t,
            None => {
                return Err(ProtocolError::NoTxgInProgress);
            },
        };
        let (empty, next_block) = match &self.pending_object {
            PendingObjectState::Pending(phys, _) => (phys.is_empty(), phys.next_block),
            PendingObjectState::NotPending(_) => {
                return Err(ProtocolError::WrongResumeState);
            },
        };
        if self.pending_unordered_writes.len() > 0 || !empty {
            return Err(ProtocolError::WritesPending);
        }
        proof {
            let phys = self.pending_object->Pending_0;
            assert(phys.min_block == phys.next_block);
        }
        self.pending_object = PendingObjectState::NotPending(next_block);
        let start_reclaim = reclaim.is_none() && !self.reclaim_in_progress
            && crate::reclaim::reclaim_needed(&self.stats);
        if start_reclaim {
            self.reclaim_in_progress = true;
        }
        self.try_condense_object_log(storage_log_chunks, per_chunk);
        match reclaim {
            Some(outcome) => {
                self.apply_reclaim(outcome, per_chunk);
            },
            None => {},
        }
        let mut storage_entries: Vec<StorageObjectLogEntry> = Vec::new();
        let mut size_entries: Vec<ObjectSizeLogEntry> = Vec::new();
        let mut frees_entries: Vec<PendingFreesLogEntry> = Vec::new();
        let mut objects_to_delete: Vec<ObjectID> = Vec::new();
        core::mem::swap(&mut self.storage_appends, &mut storage_entries);
        core::mem::swap(&mut self.size_appends, &mut size_entries);
        core::mem::swap(&mut self.frees_appends, &mut frees_entries);
        core::mem::swap(&mut self.objects_to_delete, &mut objects_to_delete);
        let commit = TxgCommit {
            txg,
            next_block,
            stats: self.stats,
            storage_object_log: LogUpdate { clear: self.storage_cleared, entries: storage_entries },
            object_size_log: LogUpdate { clear: self.size_cleared, entries: size_entries },
            pending_frees_log: LogUpdate { clear: self.frees_cleared, entries: frees_entries },
            objects_to_delete,
            start_reclaim,
        };
        self.storage_cleared = false;
        self.reclaim_applied = Ghost(false);
        self.storage_committed = Ghost(self.storage_log@);
        assert(self.storage_log@ =~= self.storage_committed@ + self.storage_appends@);
        self.size_cleared = false;
        self.frees_cleared = false;
        self.pending_flushes = Vec::new();
        self.last_txg = txg;
        self.syncing_txg = None;
        Ok(commit)
    }
}

impl PoolSyncingState {
    /// The waiting writes, in block order, lie at or after the next block to
    /// pack and hold at most `u32::MAX` bytes each; the object being filled
    /// keeps the data-object invariant, holds every block from its first one
    /// up to the next block to pack, and was written in one TXG.
    pub proof fn lemma_wf_shape(&self)
        requires
            self.wf(),
        ensures
            keys_increasing(self.unordered_spec()),
            forall|i: int| 0 <= i < self.unordered_spec().len()
                ==> (#[trigger] self.unordered_spec()[i]).0 >= self.next_block_spec()
                    && self.unordered_spec()[i].1@.len() <= u32::MAX,
            self.is_pending_spec() ==> handed_out_ok(self.pending_phys())
                && self.pending_phys().next_block.0 == self.next_block_spec()
                && self.pending_len() == self.pending_phys().blocks_view().len(),
            forall|i: int| 0 <= i < self.puts_spec().len() ==> handed_out_ok(#[trigger] self.puts_spec()[i].phys)
                && waiters_match(self.puts_spec()[i].phys, self.puts_spec()[i].waiters@),
    {
    }

    /// The pool's invariant includes that its storage-object log replays to
    /// its objects.
    pub proof fn lemma_wf_replay(&self)
        requires
            self.wf(),
        ensures
            replay_storage_log(self.storage_log_spec()) == Some(self.objects()),
            self.syncing_txg_spec() is None ==> self.storage_log_spec() == self.committed_storage_log(),
    {
        if self.syncing_txg is None {
            assert(self.storage_log@ =~= self.storage_committed@);
        }
    }
}

/// With distinct ids, the predecessor by id is unique.
pub proof fn lemma_pred_unique(r: Seq<DataObjectPhys>, i: int, k: int, j: int)
    requires
        is_pred(r, i, j),
        is_pred(r, k, j),
        forall|a: int, b: int| 0 <= a < r.len() && 0 <= b < r.len() && a != b ==> (#[trigger] r[a]).object.0 != (#[trigger] r[b]).object.0,
    ensures
        i == k,
{
    assert(r[i].object.0 <= r[k].object.0);
    assert(r[k].object.0 <= r[i].object.0);
}

/// The recovered object with the largest id below that of `j`, if any.
fn find_pred(r: &Vec<DataObjectPhys>, j: usize) -> (res: Option<usize>)
    requires
        j < r@.len(),
    ensures
        res matches Some(i) ==> is_pred(r@, i as int, j as int),
        res is None ==> !has_pred(r@, j as int),
{
    let mut best: Option<usize> = None;
    let mut k: usize = 0;
    while k < r.len()
        invariant
            0 <= k <= r@.len(),
            j < r@.len(),
            best matches Some(b) ==> b < k && r@[b as int].object.0 < r@[j as int].object.0
                && forall|m: int| 0 <= m < k && #[trigger] r@[m].object.0 < r@[j as int].object.0 ==> r@[m].object.0 <= r@[b as int].object.0,
            best is None ==> forall|m: int| 0 <= m < k ==> !(#[trigger] r@[m].object.0 < r@[j as int].object.0),
        decreases r@.len() - k,
    {
        if r[k].object.0 < r[j].object.0 {
            match best {
                Some(b) => {
                    if r[k].object.0 > r[b].object.0 {
                        best = Some(k);
                    }
                },
                None => {
                    best = Some(k);
                },
            }
        }
        k = k + 1;
    }
    match best {
        Some(b) => {
            assert(is_pred(r@, b as int, j as int));
        },
        None => {
            assert(!has_pred(r@, j as int)) by {
                if has_pred(r@, j as int) {
                    let i = choose|i: int| #[trigger] is_pred(r@, i, j as int);
                    assert(r@[i].object.0 < r@[j as int].object.0);
                }
            }
        },
    }
    best
}

/// Whether some waiting write lies in [lo, hi).
fn writes_in_exec(u: &Vec<(u64, Vec<u8>)>, lo: u64, hi: u64) -> (res: bool)
    ensures
        res == writes_in(u@, lo, hi),
{
    let mut x: usize = 0;
    while x < u.len()
        invariant
            0 <= x <= u@.len(),
            forall|y: int| 0 <= y < x ==> !(lo <= (#[trigger] u@[y]).0 < hi),
        decreases u@.len() - x,
    {
        if lo <= u[x].0 && u[x].0 < hi {
            assert(lo <= u@[x as int].0 < hi);
            return true;
        }
        x = x + 1;
    }
    false
}

/// Whether the waiting writes in [lo, hi) leave a gap.
fn gap_hole_exec(u: &Vec<(u64, Vec<u8>)>, lo: u64, hi: u64) -> (res: bool)
    requires
        keys_increasing(u@),
    ensures
        res == gap_hole(u@, lo, hi),
{
    let mut x: usize = 0;
    while x < u.len()
        invariant
            0 <= x <= u@.len(),
            keys_increasing(u@),
            forall|z: int| 0 <= z < x && lo < (#[trigger] u@[z]).0 < hi
                ==> exists|y: int| 0 <= y < u@.len() && (#[trigger] u@[y]).0 + 1 == u@[z].0,
        decreases u@.len() - x,
    {
        let k = u[x].0;
        if lo < k && k < hi {
            let has_prev = x > 0 && u[x - 1].0 + 1 == k;
            if !has_prev {
                proof {
                    assert(lo < u@[x as int].0 < hi);
                    assert forall|y: int| 0 <= y < u@.len() implies !((#[trigger] u@[y]).0 + 1 == u@[x as int].0) by {
                        if u@[y].0 + 1 == u@[x as int].0 {
                            if y > x - 1 {
                                if y >= x {
                                    if y > x {
                                        assert(u@[x as int].0 < u@[y].0);
                                    }
                                }
                            } else if y < x - 1 {
                                assert(u@[y].0 < u@[x - 1].0);
                                assert(u@[x - 1].0 < u@[x as int].0);
                            }
                        }
                    }
                }
                return true;
            }
            assert(u@[x - 1].0 + 1 == u@[x as int].0);
        }
        x = x + 1;
    }
    false
}

pub proof fn lemma_gap_bytes_take(u: Seq<(u64, Vec<u8>)>, lo: u64, hi: u64, n: int)
    requires
        0 <= n <= u.len(),
    ensures
        gap_bytes(u.take(n), lo, hi) <= gap_bytes(u, lo, hi),
    decreases u.len() - n,
{
    if n < u.len() {
        assert(u.take(n + 1).drop_last() =~= u.take(n));
        lemma_gap_bytes_take(u, lo, hi, n + 1);
    } else {
        assert(u.take(n) =~= u);
    }
}

/// Whether the waiting writes in [lo, hi) hold at most `u32::MAX` bytes.
fn gap_fits_exec(u: &Vec<(u64, Vec<u8>)>, lo: u64, hi: u64) -> (res: bool)
    ensures
        res == (gap_bytes(u@, lo, hi) <= u32::MAX),
{
    let mut acc: u64 = 0;
    let mut x: usize = 0;
    assert(u@.take(0) =~= Seq::<(u64, Vec<u8>)>::empty());
    while x < u.len()
        invariant
            0 <= x <= u@.len(),
            acc == gap_bytes(u@.take(x as int), lo, hi),
            acc <= u32::MAX,
        decreases u@.len() - x,
    {
        assert(u@.take(x + 1).drop_last() =~= u@.take(x as int));
        assert(u@.take(x + 1).last() == u@[x as int]);
        if lo <= u[x].0 && u[x].0 < hi {
            let len = u[x].1.len();
            if len as u64 > u32::MAX as u64 - acc {
                proof {
                    lemma_gap_bytes_take(u@, lo, hi, x + 1);
                }
                return false;
            }
            acc = acc + len as u64;
        }
        x = x + 1;
    }
    assert(u@.take(x as int) =~= u@);
    true
}

impl PoolSyncingState {
    /// Decides, before anything changes, whether resuming with the recovered
    /// objects `r` fails, and with which error.
    #[verifier::rlimit(60)]
    fn resume_check(&self, r: &Vec<DataObjectPhys>) -> (res: Option<ResumeError>)
        requires
            self.wf(),
        ensures
            res == resume_problem(self.objects(), self.next_block_spec(), self.unordered_spec(), r@),
    {
        let nb = self.pending_object.next_block().0;
        let last = self.block_to_obj.last_obj().0;
        let ghost objs = self.objects();
        let ghost u = self.unordered_spec();
        let ghost rs = r@;
        let n = r.len();
        // each object on its own
        let mut i: usize = 0;
        while i < n
            invariant
                0 <= i <= n,
                n == rs.len(),
                rs == r@,
                last == last_obj_of(objs),
                nb == self.next_block_spec(),
                objs == self.objects(),
                u == self.unordered_spec(),
                forall|x: int| 0 <= x < i ==> !((#[trigger] rs[x]).blocks_view().len() == 0
                    || rs[x].object.0 <= last_obj_of(objs) || rs[x].min_block.0 < nb || rs[x].object.0 == u64::MAX),
            decreases n - i,
        {
            let o = &r[i];
            if o.is_empty() || o.object.0 <= last || o.min_block.0 < nb || o.object.0 == u64::MAX {
                proof {
                    let d = rs[i as int];
                    assert(d == r@[i as int]);
                    assert(d.blocks_view().len() == 0 || d.object.0 <= last_obj_of(objs)
                        || d.min_block.0 < nb || d.object.0 == u64::MAX);
                    assert(recovered_out_of_order(self.objects(), self.next_block_spec(), self.unordered_spec(), r@));
                }
                assert(resume_problem(self.objects(), self.next_block_spec(), self.unordered_spec(), r@) == Some(ResumeError::ObjectOutOfOrder));
                return Some(ResumeError::ObjectOutOfOrder);
            }
            i = i + 1;
        }
        // pairs
        let mut i: usize = 0;
        while i < n
            invariant
                0 <= i <= n,
                n == rs.len(),
                rs == r@,
                forall|a: int, b: int| 0 <= a < i && 0 <= b < n && a != b ==> !((#[trigger] rs[a]).object.0 == (#[trigger] rs[b]).object.0
                    || (rs[a].object.0 < rs[b].object.0 && rs[a].next_block.0 > rs[b].min_block.0)),
            decreases n - i,
        {
            let mut j: usize = 0;
            while j < n
                invariant
                    0 <= j <= n,
                    i < n,
                    n == rs.len(),
                    rs == r@,
                    forall|a: int, b: int| 0 <= a < i && 0 <= b < n && a != b ==> !((#[trigger] rs[a]).object.0 == (#[trigger] rs[b]).object.0
                        || (rs[a].object.0 < rs[b].object.0 && rs[a].next_block.0 > rs[b].min_block.0)),
                    forall|b: int| 0 <= b < j && i != b ==> !((#[trigger] rs[b]).object.0 == rs[i as int].object.0
                        || (rs[i as int].object.0 < rs[b].object.0 && rs[i as int].next_block.0 > rs[b].min_block.0)),
                decreases n - j,
            {
                if i != j && (r[i].object.0 == r[j].object.0
                    || (r[i].object.0 < r[j].object.0 && r[i].next_block.0 > r[j].min_block.0)) {
                    assert(recovered_out_of_order(objs, nb, u, rs)) by {
                        assert(rs[i as int].object.0 == rs[j as int].object.0
                            || (rs[i as int].object.0 < rs[j as int].object.0 && rs[i as int].next_block.0 > rs[j as int].min_block.0));
                    }
                    return Some(ResumeError::ObjectOutOfOrder);
                }
                j = j + 1;
            }
            i = i + 1;
        }
        if n == 0 && last == u64::MAX {
            return Some(ResumeError::ObjectOutOfOrder);
        }
        // the writes before each object: the ids they need
        let mut j: usize = 0;
        while j < n
            invariant
                0 <= j <= n,
                n == rs.len(),
                rs == r@,
                u == self.unordered_spec(),
                u == self.pending_unordered_writes@,
                last == last_obj_of(objs),
                nb == self.next_block_spec(),
                forall|x: int| 0 <= x < n ==> !((#[trigger] rs[x]).blocks_view().len() == 0
                    || rs[x].object.0 <= last_obj_of(objs) || rs[x].min_block.0 < nb || rs[x].object.0 == u64::MAX),
                forall|a: int, b: int| 0 <= a < n && 0 <= b < n && a != b ==> (#[trigger] rs[a]).object.0 != (#[trigger] rs[b]).object.0,
                forall|x: int| 0 <= x < j ==> !(writes_in(u, gap_start(rs, x, nb), (#[trigger] rs[x]).min_block.0)
                    && gap_prev_id(rs, x, last_obj_of(objs)) + 1 >= rs[x].object.0),
                !(n == 0 && last == u64::MAX),
                objs == self.objects(),
            decreases n - j,
        {
            let (start, prev_id) = match find_pred(r, j) {
                Some(p) => {
                    proof {
                        assert(is_pred(rs, p as int, j as int));
                        assert(has_pred(rs, j as int));
                        let c = choose|q: int| #[trigger] is_pred(rs, q, j as int);
                        lemma_pred_unique(rs, c, p as int, j as int);
                    }
                    (r[p].next_block.0, r[p].object.0)
                },
                None => (nb, last),
            };
            assert(start == gap_start(rs, j as int, nb) && prev_id == gap_prev_id(rs, j as int, last_obj_of(objs)));
            if writes_in_exec(&self.pending_unordered_writes, start, r[j].min_block.0) && prev_id >= r[j].object.0 - 1 {
                assert(writes_in(u, gap_start(rs, j as int, nb), rs[j as int].min_block.0)
                    && gap_prev_id(rs, j as int, last_obj_of(objs)) + 1 >= rs[j as int].object.0);
                assert(resume_problem(self.objects(), self.next_block_spec(), self.unordered_spec(), r@) == Some(ResumeError::ObjectOutOfOrder));
                return Some(ResumeError::ObjectOutOfOrder);
            }
            j = j + 1;
        }
        assert(!recovered_out_of_order(objs, nb, u, rs));
        // gaps
        let mut j: usize = 0;
        while j < n
            invariant
                0 <= j <= n,
                n == rs.len(),
                rs == r@,
                u == self.pending_unordered_writes@,
                keys_increasing(u),
                nb == self.next_block_spec(),
                forall|a: int, b: int| 0 <= a < n && 0 <= b < n && a != b ==> (#[trigger] rs[a]).object.0 != (#[trigger] rs[b]).object.0,
                forall|x: int| 0 <= x < j ==> !gap_hole(u, gap_start(rs, x, nb), (#[trigger] rs[x]).min_block.0),
                !recovered_out_of_order(objs, nb, u, rs),
                objs == self.objects(),
                u == self.unordered_spec(),
            decreases n - j,
        {
            let start = match find_pred(r, j) {
                Some(p) => {
                    proof {
                        assert(is_pred(rs, p as int, j as int));
                        assert(has_pred(rs, j as int));
                        let c = choose|q: int| #[trigger] is_pred(rs, q, j as int);
                        lemma_pred_unique(rs, c, p as int, j as int);
                    }
                    r[p].next_block.0
                },
                None => nb,
            };
            assert(start == gap_start(rs, j as int, nb));
            if gap_hole_exec(&self.pending_unordered_writes, start, r[j].min_block.0) {
                assert(gap_hole(u, gap_start(rs, j as int, nb), rs[j as int].min_block.0));
                assert(resume_problem(self.objects(), self.next_block_spec(), self.unordered_spec(), r@) == Some(ResumeError::MissingWrites));
                return Some(ResumeError::MissingWrites);
            }
            j = j + 1;
        }
        let mut j: usize = 0;
        while j < n
            invariant
                0 <= j <= n,
                n == rs.len(),
                rs == r@,
                u == self.pending_unordered_writes@,
                nb == self.next_block_spec(),
                forall|a: int, b: int| 0 <= a < n && 0 <= b < n && a != b ==> (#[trigger] rs[a]).object.0 != (#[trigger] rs[b]).object.0,
                forall|x: int| 0 <= x < j ==> !(gap_bytes(u, gap_start(rs, x, nb), (#[trigger] rs[x]).min_block.0) > u32::MAX),
                !recovered_out_of_order(objs, nb, u, rs),
                !recovered_missing_writes(nb, u, rs),
                objs == self.objects(),
                u == self.unordered_spec(),
            decreases n - j,
        {
            let start = match find_pred(r, j) {
                Some(p) => {
                    proof {
                        assert(is_pred(rs, p as int, j as int));
                        assert(has_pred(rs, j as int));
                        let c = choose|q: int| #[trigger] is_pred(rs, q, j as int);
                        lemma_pred_unique(rs, c, p as int, j as int);
                    }
                    r[p].next_block.0
                },
                None => nb,
            };
            assert(start == gap_start(rs, j as int, nb));
            if !gap_fits_exec(&self.pending_unordered_writes, start, r[j].min_block.0) {
                assert(gap_bytes(u, gap_start(rs, j as int, nb), rs[j as int].min_block.0) > u32::MAX);
                assert(resume_problem(self.objects(), self.next_block_spec(), self.unordered_spec(), r@) == Some(ResumeError::GapTooLarge));
                return Some(ResumeError::GapTooLarge);
            }
            j = j + 1;
        }
        None
    }
}

impl PoolSyncingState {
    /// Packs into the object being filled the waiting writes below `bound`,
    /// which run without gap from the next block (`u0` is the list of waiting
    /// writes the resume started from; the first `n0` of them are gone).
    #[verifier::rlimit(60)]
    fn pack_below(&mut self, bound: u64, Ghost(u0): Ghost<Seq<(u64, Vec<u8>)>>, Ghost(n0): Ghost<int>)
        requires
            old(self).wf(),
            old(self).pending_object is Pending,
            old(self).pending_len() == 0,
            keys_increasing(u0),
            0 <= n0 <= u0.len(),
            old(self).unordered_spec() == u0.skip(n0),
            forall|x: int| 0 <= x < n0 ==> (#[trigger] u0[x]).0 < old(self).next_block_spec(),
            !gap_hole(u0, old(self).next_block_spec(), bound),
            gap_bytes(u0, old(self).next_block_spec(), bound) <= u32::MAX,
        ensures
            final(self).wf(),
            final(self).pending_object is Pending,
            same_txg(old(self), final(self)),
            keeps_writes(old(self), final(self)),
            final(self).objects() == old(self).objects(),
            final(self).puts_spec() == old(self).puts_spec(),
            final(self).pending_phys().object == old(self).pending_phys().object,
            final(self).pending_phys().min_block == old(self).pending_phys().min_block,
            final(self).next_block_spec() <= bound || final(self).next_block_spec() == old(self).next_block_spec(),
            exists|n: int| n0 <= n <= u0.len() && #[trigger] u0.skip(n) == final(self).unordered_spec()
                && forall|x: int| 0 <= x < n ==> (#[trigger] u0[x]).0 < final(self).next_block_spec(),
            forall|i: int| 0 <= i < final(self).unordered_spec().len() ==> (#[trigger] final(self).unordered_spec()[i]).0 >= bound
                || final(self).unordered_spec()[i].0 >= final(self).next_block_spec(),
            writes_in(u0, old(self).next_block_spec(), bound) ==> final(self).pending_len() > 0
                && forall|i: int| 0 <= i < final(self).unordered_spec().len() ==> (#[trigger] final(self).unordered_spec()[i]).0 >= bound,
            !writes_in(u0, old(self).next_block_spec(), bound) ==> *final(self) == *old(self),
    {
        let ghost lo = self.next_block_spec();
        let ghost mut n: int = n0;
        proof {
            assert(self.pending_phys().blocks_view() =~= Seq::<(u64, Seq<u8>)>::empty());
            assert(u0.take(n0) =~= u0.take(n0));
            lemma_gap_bytes_below(u0, lo, bound, n0);
        }
        let ghost start = *self;
        while self.pending_unordered_writes.len() > 0 && self.pending_unordered_writes[0].0 < bound
            invariant
                self.wf(),
                self.pending_object is Pending,
                same_txg(old(self), self),
                keeps_writes(old(self), self),
                self.objects() == old(self).objects(),
                self.puts_spec() == old(self).puts_spec(),
                self.pending_phys().object == old(self).pending_phys().object,
                self.pending_phys().min_block == old(self).pending_phys().min_block,
                keys_increasing(u0),
                0 <= n0,
                n0 <= n <= u0.len(),
                u0.skip(n) == self.unordered_spec(),
                forall|x: int| 0 <= x < n ==> (#[trigger] u0[x]).0 < self.next_block_spec(),
                !gap_hole(u0, lo, bound),
                gap_bytes(u0, lo, bound) <= u32::MAX,
                lo <= self.next_block_spec(),
                lo == old(self).next_block_spec(),
                self.pending_phys().blocks_size == gap_bytes(u0.take(n), lo, bound),
                n == n0 ==> *self == *old(self),
                n > n0 ==> lo <= u0[n0].0 < bound,
                self.next_block_spec() <= bound || self.next_block_spec() == lo,
            decreases self.pending_unordered_writes@.len(),
        {
            let nb = self.pending_object.next_block();
            let ghost key = u0[n].0;
            proof {
                assert(u0.skip(n).len() > 0);
                assert(n < u0.len());
                assert(u0.skip(n)[0] == u0[0 + n]);
                assert(self.unordered_spec()[0] == u0[n]);
                assert(key >= nb.0);
                if key > nb.0 {
                    assert(lo < u0[n].0 < bound);
                    let y = choose|y: int| 0 <= y < u0.len() && (#[trigger] u0[y]).0 + 1 == u0[n].0;
                    if y >= n {
                        if y > n {
                            assert(0 <= n && n < y && y < u0.len());
                            assert(keys_increasing(u0));
                            assert(u0[n].0 < u0[y].0);
                        }
                    } else {
                        assert(u0[y].0 < nb.0);
                    }
                }
                assert(key == nb.0);
                assert(u0.take(n + 1).drop_last() =~= u0.take(n));
                assert(u0.take(n + 1).last() == u0[n]);
                lemma_gap_bytes_take(u0, lo, bound, n + 1);
            }
            let ghost before = *self;
            let ghost uv = self.pending_unordered_writes@;
            proof {
                crate::sorted::lemma_pairs_to_map(uv);
                crate::sorted::lemma_remove_key_index(uv, 0);
                crate::sorted::lemma_remove_key_map(uv, nb.0);
                crate::sorted::lemma_remove_index_increasing(uv, 0);
            }
            let (id, data) = self.pending_unordered_writes.remove(0);
            assert(uv[0] == (id, data));
            proof {
                assert(u0.skip(n + 1) =~= self.pending_unordered_writes@);
                n = n + 1;
            }
            match &mut self.pending_object {
                PendingObjectState::Pending(phys, waiters) => {
                    phys.push_block(data);
                    waiters.push(BlockID(id));
                },
                PendingObjectState::NotPending(_) => {},
            }
            proof {
                let phys0 = before.pending_object->Pending_0;
                let phys1 = self.pending_object->Pending_0;
                assert(phys1.blocks_view().drop_last() =~= phys0.blocks_view());
                assert(phys1.block_map() == phys0.block_map().insert(id, data@));
                crate::sorted::lemma_pairs_to_map(phys0.blocks_view());
                assert(!phys0.block_map().contains_key(id)) by {
                    if phys0.block_map().contains_key(id) {
                        assert(crate::sorted::has_key(phys0.blocks_view(), id));
                        let j = choose|j: int| 0 <= j < phys0.blocks_view().len() && phys0.blocks_view()[j].0 == id;
                        assert(phys0.blocks_view()[j].0 < phys0.next_block.0);
                    }
                }
                assert forall|j: int| 0 <= j < phys1.blocks_view().len() implies #[trigger] phys1.blocks_view()[j].0
                    == phys1.min_block.0 + j by {
                    if j < phys0.blocks_view().len() {
                        assert(phys1.blocks_view()[j] == phys0.blocks_view()[j]);
                    }
                }
                let u1 = self.pending_unordered_writes@;
                assert forall|j: int| 0 <= j < u1.len() implies #[trigger] u1[j].0 >= self.pending_object.next_block_spec()
                    && u1[j].0 < u64::MAX && u1[j].1@.len() <= u32::MAX by {
                    assert(u1[j] == uv[j + 1]);
                }
                assert forall|k: u64, v: Seq<u8>| holds_write(&before, k, v) implies #[trigger] holds_write(self, k, v) by {
                    if pairs_to_map(uv).contains_key(k) && pairs_to_map(uv)[k]@ == v {
                        if k == id {
                            assert(self.pending_blocks().contains_key(k));
                        } else {
                            assert(pairs_to_map(u1).contains_key(k));
                        }
                    } else if before.pending_blocks().contains_key(k) && before.pending_blocks()[k] == v {
                        assert(self.pending_blocks().contains_key(k));
                    } else {
                        let i = choose|i: int| 0 <= i < before.puts_spec().len() && (#[trigger] before.puts_spec()[i]).phys.block_map().contains_key(k)
                            && before.puts_spec()[i].phys.block_map()[k] == v;
                        assert(self.puts_spec()[i] == before.puts_spec()[i]);
                    }
                }
                lemma_keeps_writes_trans(old(self), &before, self);
                assert forall|x: int| 0 <= x < n implies (#[trigger] u0[x]).0 < self.next_block_spec() by {
                    if x < n - 1 {
                        assert(u0[x].0 < nb.0);
                    }
                }
            }
        }
        proof {
            let u = self.unordered_spec();
            assert forall|i: int| 0 <= i < u.len() implies (#[trigger] u[i]).0 >= bound || u[i].0 >= self.next_block_spec() by {
                if i > 0 {
                    assert(u[0].0 < u[i].0);
                }
            }
            if writes_in(u0, lo, bound) {
                let x = choose|x: int| 0 <= x < u0.len() && lo <= (#[trigger] u0[x]).0 < bound;
                if n == n0 {
                    assert(x >= n0) by {
                        if x < n0 {
                            assert(u0[x].0 < lo);
                        }
                    }
                    assert(u[0] == u0[n0]);
                    if x > n0 {
                        assert(u0[n0].0 < u0[x].0);
                    }
                }
                assert(n > n0);
                assert(self.pending_phys().blocks_view().len() > 0) by {
                    assert(self.next_block_spec() > lo);
                }
                assert forall|i: int| 0 <= i < u.len() implies (#[trigger] u[i]).0 >= bound by {
                    if u[i].0 < bound {
                        if i > 0 {
                            assert(u[0].0 < u[i].0);
                        }
                        assert(u[0] == u0[n]);
                    }
                }
            } else {
                if n > n0 {
                    assert(lo <= u0[n0].0 < bound);
                }
            }
        }
    }
}

/// Writes gone before the next block add no bytes to a gap that starts there.
pub proof fn lemma_gap_bytes_below(u: Seq<(u64, Vec<u8>)>, lo: u64, hi: u64, n: int)
    requires
        0 <= n <= u.len(),
        forall|x: int| 0 <= x < n ==> (#[trigger] u[x]).0 < lo,
    ensures
        gap_bytes(u.take(n), lo, hi) == 0,
    decreases n,
{
    if n > 0 {
        assert(u.take(n).drop_last() =~= u.take(n - 1));
        assert(u.take(n).last() == u[n - 1]);
        lemma_gap_bytes_below(u, lo, hi, n - 1);
    } else {
        assert(u.take(0).len() == 0);
    }
}


impl PoolSyncingState {
    /// While resuming, packs the waiting writes below `bound` into one new
    /// object after the last one, hands it out, and leaves no object being
    /// filled. Returns how many of the writes `u0` are now gone.
    #[verifier::rlimit(60)]
    fn resume_pack_gap(&mut self, txg: TXG, bound: u64, Ghost(u0): Ghost<Seq<(u64, Vec<u8>)>>, Ghost(n): Ghost<int>)
        -> (nn: Ghost<int>)
        requires
            old(self).wf(),
            old(self).pending_object is NotPending,
            old(self).syncing_txg == Some(txg),
            last_obj_of(old(self).objects()) < u64::MAX - 1,
            keys_increasing(u0),
            0 <= n <= u0.len(),
            old(self).unordered_spec() == u0.skip(n),
            forall|x: int| 0 <= x < n ==> (#[trigger] u0[x]).0 < old(self).next_block_spec(),
            writes_in(u0, old(self).next_block_spec(), bound),
            !gap_hole(u0, old(self).next_block_spec(), bound),
            gap_bytes(u0, old(self).next_block_spec(), bound) <= u32::MAX,
        ensures
            final(self).wf(),
            final(self).pending_object is NotPending,
            same_txg(old(self), final(self)),
            keeps_writes(old(self), final(self)),
            final(self).objects() == old(self).objects().push(((last_obj_of(old(self).objects()) + 1) as u64, old(self).next_block_spec())),
            last_obj_of(final(self).objects()) == last_obj_of(old(self).objects()) + 1,
            final(self).next_block_spec() <= bound,
            n <= nn@ <= u0.len(),
            u0.skip(nn@) == final(self).unordered_spec(),
            forall|x: int| 0 <= x < nn@ ==> (#[trigger] u0[x]).0 < final(self).next_block_spec(),
            forall|i: int| 0 <= i < final(self).unordered_spec().len() ==> (#[trigger] final(self).unordered_spec()[i]).0 >= bound,
    {
        let last = self.block_to_obj.last_obj();
        let nb = self.pending_object.next_block();
        let ghost st0 = *self;
        self.pending_object = PendingObjectState::new_pending(self.guid, last.next(), nb, txg);
        proof {
            let phys = self.pending_object->Pending_0;
            assert(phys.block_map() =~= Map::<u64, Seq<u8>>::empty());
            assert(st0.pending_blocks() =~= Map::<u64, Seq<u8>>::empty());
            lemma_keeps_same(&st0, self);
        }
        let ghost st1 = *self;
        self.pack_below(bound, Ghost(u0), Ghost(n));
        let ghost st2 = *self;
        let ghost m = choose|m: int| n <= m <= u0.len() && #[trigger] u0.skip(m) == st2.unordered_spec()
            && forall|x: int| 0 <= x < m ==> (#[trigger] u0[x]).0 < st2.next_block_spec();
        self.initiate_flush_object_impl();
        proof {
            assert(self.pending_len() == 0);
            let phys = self.pending_object->Pending_0;
            assert(phys.block_map() =~= Map::<u64, Seq<u8>>::empty());
        }
        let next = self.pending_object.next_block();
        let ghost st3 = *self;
        self.pending_object = PendingObjectState::NotPending(next);
        proof {
            lemma_keeps_same(&st3, self);
            lemma_keeps_writes_trans(&st0, &st1, &st2);
            lemma_keeps_writes_trans(&st0, &st2, &st3);
            lemma_keeps_writes_trans(&st0, &st3, self);
            assert(st2.pending_phys().min_block.0 == nb.0);
        }
        Ghost(m)
    }

    /// While resuming, adopts the recovered object `obj`: it is accounted,
    /// and the waiting writes it holds are dropped and returned.
    #[verifier::rlimit(60)]
    fn resume_adopt(&mut self, obj: &DataObjectPhys, Ghost(u0): Ghost<Seq<(u64, Vec<u8>)>>, Ghost(n): Ghost<int>)
        -> (dropped: Vec<BlockID>)
        requires
            old(self).wf(),
            old(self).pending_object is NotPending,
            old(self).syncing_txg is Some,
            recovered_ok(*obj, old(self).guid_spec(), old(self).syncing_txg.unwrap()),
            obj.blocks_view().len() > 0,
            may_append(old(self).objects(), obj.object.0, obj.min_block.0),
            old(self).next_block_spec() <= obj.min_block.0,
            forall|i: int| 0 <= i < old(self).unordered_spec().len() ==> (#[trigger] old(self).unordered_spec()[i]).0 >= obj.min_block.0,
            keys_increasing(u0),
            0 <= n <= u0.len(),
            old(self).unordered_spec() == u0.skip(n),
            forall|x: int| 0 <= x < n ==> (#[trigger] u0[x]).0 < old(self).next_block_spec(),
        ensures
            final(self).wf(),
            final(self).pending_object is NotPending,
            same_txg(old(self), final(self)),
            final(self).objects() == old(self).objects().push((obj.object.0, obj.min_block.0)),
            final(self).next_block_spec() == obj.next_block.0,
            n + dropped@.len() <= u0.len(),
            u0.skip(n + dropped@.len()) == final(self).unordered_spec(),
            forall|x: int| 0 <= x < n + dropped@.len() ==> (#[trigger] u0[x]).0 < final(self).next_block_spec(),
            forall|i: int| 0 <= i < dropped@.len() ==> in_range(*obj, (#[trigger] dropped@[i]).0)
                && crate::sorted::has_key(u0, dropped@[i].0),
            forall|k: u64, v: Seq<u8>| #[trigger] holds_write(old(self), k, v)
                ==> holds_write(final(self), k, v) || in_range(*obj, k),
    {
        let ghost before = *self;
        let ghost objs_b = self.block_to_obj@;
        self.account_new_object(obj);
        let ghost ub = self.pending_unordered_writes@;
        let dropped = self.drop_writes_below(obj.next_block);
        let ghost dr = dropped@;
        assert(dropped_prefix(dr, ub, obj.next_block.0));
        assert(keys_increasing(self.pending_unordered_writes@));
        assert(self.pending_unordered_writes@ == ub.skip(dr.len() as int));
        self.pending_object = PendingObjectState::NotPending(obj.next_block);
        proof {
            crate::sorted::lemma_pairs_to_map(obj.blocks_view());
            assert(obj.min_block.0 <= obj.blocks_view()[0].0);
            assert(ub == u0.skip(n));
            let ua = self.pending_unordered_writes@;
            assert(ua =~= u0.skip(n + dr.len()));
            assert forall|x: int| 0 <= x < n + dr.len() implies (#[trigger] u0[x]).0 < obj.next_block.0 by {
                if x >= n {
                    assert(u0[x] == ub[x - n]);
                    assert(dr[x - n].0 == ub[x - n].0);
                }
            }
            assert forall|i: int| 0 <= i < ua.len() implies (#[trigger] ua[i]).0 >= obj.next_block.0 by {
                if i > 0 {
                    assert(ua[0].0 < ua[i].0);
                }
            }
            assert forall|x: int| 0 <= x < dr.len() implies in_range(*obj, (#[trigger] dr[x]).0)
                && crate::sorted::has_key(u0, dr[x].0) by {
                assert(dr[x].0 == ub[x].0);
                assert(ub[x] == u0[x + n]);
                assert(ub[x].0 >= obj.min_block.0);
            }
            crate::sorted::lemma_pairs_to_map(ub);
            crate::sorted::lemma_pairs_to_map(ua);
            assert forall|k: u64, v: Seq<u8>| #[trigger] holds_write(old(self), k, v)
                implies holds_write(self, k, v) || in_range(*obj, k) by {
                if !in_range(*obj, k) {
                    if pairs_to_map(ub).contains_key(k) && pairs_to_map(ub)[k]@ == v {
                        assert(crate::sorted::has_key(ub, k));
                        let x = choose|x: int| 0 <= x < ub.len() && ub[x].0 == k;
                        if x < dr.len() {
                            assert(dr[x].0 == ub[x].0);
                            assert(ub[x].0 >= obj.min_block.0);
                        } else {
                            let y = x - dr.len();
                            assert(ua[y] == ub[x]);
                            crate::sorted::lemma_pairs_to_map_at(ua, y);
                            crate::sorted::lemma_pairs_to_map_at(ub, x);
                        }
                    } else if exists|i: int| 0 <= i < before.puts_spec().len() && (#[trigger] before.puts_spec()[i]).phys.block_map().contains_key(k)
                        && before.puts_spec()[i].phys.block_map()[k] == v {
                        let i = choose|i: int| 0 <= i < before.puts_spec().len() && (#[trigger] before.puts_spec()[i]).phys.block_map().contains_key(k)
                            && before.puts_spec()[i].phys.block_map()[k] == v;
                        assert(self.puts_spec()[i] == before.puts_spec()[i]);
                    }
                }
            }
        }
        dropped
    }
}

/// While resuming, the recovered object with the smallest id left comes
/// right after the last adopted one: its writes start at the next block, and
/// the last object id is the last adopted one's.
pub proof fn lemma_resume_gap(orig: Seq<DataObjectPhys>, rest: Seq<DataObjectPhys>, best: int, prev: Option<int>, jo: int,
    nb0: u64, last0: u64, nb: u64, last: u64)
    requires
        0 <= best < rest.len(),
        0 <= jo < orig.len(),
        orig[jo] == rest[best],
        forall|x: int| 0 <= x < rest.len() ==> rest[best].object.0 <= (#[trigger] rest[x]).object.0,
        forall|i: int| 0 <= i < rest.len() ==> orig.contains(#[trigger] rest[i]),
        !recovered_out_of_order_pairs(orig),
        prev is None ==> forall|q: int| 0 <= q < orig.len() ==> rest.contains(#[trigger] orig[q]),
        prev is None ==> nb == nb0 && last == last0,
        prev matches Some(p) ==> 0 <= p < orig.len() && nb == orig[p].next_block.0 && last == orig[p].object.0
            && (forall|i: int| 0 <= i < rest.len() ==> (#[trigger] rest[i]).object.0 > orig[p].object.0)
            && (forall|q: int| 0 <= q < orig.len() && !rest.contains(#[trigger] orig[q]) ==> orig[q].object.0 <= orig[p].object.0),
    ensures
        gap_start(orig, jo, nb0) == nb,
        gap_prev_id(orig, jo, last0) == last,
        prev matches Some(p) ==> orig[p].next_block.0 <= orig[jo].min_block.0,
{
    if prev is Some {
        let p = prev->Some_0;
        assert(is_pred(orig, p, jo)) by {
            assert forall|k: int| 0 <= k < orig.len() && #[trigger] orig[k].object.0 < orig[jo].object.0
                implies orig[k].object.0 <= orig[p].object.0 by {
                if rest.contains(orig[k]) {
                    let b = choose|b: int| 0 <= b < rest.len() && rest[b] == orig[k];
                    assert(rest[best].object.0 <= rest[b].object.0);
                }
            }
        }
        let c = choose|q: int| #[trigger] is_pred(orig, q, jo);
        lemma_pred_unique(orig, c, p, jo);
        assert(p != jo);
        assert(!(orig[p].object.0 < orig[jo].object.0 && orig[p].next_block.0 > orig[jo].min_block.0));
    } else {
        assert(!has_pred(orig, jo)) by {
            if has_pred(orig, jo) {
                let c = choose|q: int| #[trigger] is_pred(orig, q, jo);
                assert(rest.contains(orig[c]));
                let b = choose|b: int| 0 <= b < rest.len() && rest[b] == orig[c];
                assert(rest[best].object.0 <= rest[b].object.0);
            }
        }
    }
}

/// No two recovered objects share an id, and one with a smaller id ends
/// before one with a larger id starts.
pub open spec fn recovered_out_of_order_pairs(r: Seq<DataObjectPhys>) -> bool {
    exists|i: int, j: int| 0 <= i < r.len() && 0 <= j < r.len() && i != j
        && ((#[trigger] r[i]).object.0 == (#[trigger] r[j]).object.0
            || (r[i].object.0 < r[j].object.0 && r[i].next_block.0 > r[j].min_block.0))
}

/// While resuming, taking the recovered object with the smallest id out of
/// those left keeps the bookkeeping of the adopted and the remaining ones.
pub proof fn lemma_resume_rest_step(orig: Seq<DataObjectPhys>, rest0: Seq<DataObjectPhys>, rest: Seq<DataObjectPhys>,
    best: int, jo: int, prev: Option<int>, objs_b: Seq<(u64, u64)>, objs1: Seq<(u64, u64)>)
    requires
        0 <= best < rest0.len(),
        0 <= jo < orig.len(),
        rest == rest0.remove(best),
        orig[jo] == rest0[best],
        forall|x: int| 0 <= x < rest0.len() ==> rest0[best].object.0 <= (#[trigger] rest0[x]).object.0,
        forall|i: int| 0 <= i < rest0.len() ==> orig.contains(#[trigger] rest0[i]),
        forall|a: int, b: int| 0 <= a < rest0.len() && 0 <= b < rest0.len() && a != b
            ==> (#[trigger] rest0[a]).object.0 != (#[trigger] rest0[b]).object.0,
        prev is None ==> forall|q: int| 0 <= q < orig.len() ==> rest0.contains(#[trigger] orig[q]),
        prev matches Some(p) ==> 0 <= p < orig.len()
            && (forall|q: int| 0 <= q < orig.len() && !rest0.contains(#[trigger] orig[q]) ==> orig[q].object.0 <= orig[p].object.0)
            && orig[p].object.0 < orig[jo].object.0,
        objs1 == objs_b.push((orig[jo].object.0, orig[jo].min_block.0)),
        forall|q: int| 0 <= q < orig.len() && !rest0.contains(#[trigger] orig[q])
            ==> has_object(objs_b, orig[q].object.0, orig[q].min_block.0),
    ensures
        forall|i: int| 0 <= i < rest.len() ==> orig.contains(#[trigger] rest[i]),
        forall|a: int, b: int| 0 <= a < rest.len() && 0 <= b < rest.len() && a != b
            ==> (#[trigger] rest[a]).object.0 != (#[trigger] rest[b]).object.0,
        forall|i: int| 0 <= i < rest.len() ==> (#[trigger] rest[i]).object.0 > orig[jo].object.0,
        forall|q: int| 0 <= q < orig.len() && !rest.contains(#[trigger] orig[q])
            ==> orig[q].object.0 <= orig[jo].object.0 && has_object(objs1, orig[q].object.0, orig[q].min_block.0),
{
    assert(objects_grow(objs_b, objs1));
    assert(objs1[objs_b.len() as int] == (orig[jo].object.0, orig[jo].min_block.0));
    assert(has_object(objs1, orig[jo].object.0, orig[jo].min_block.0));
    assert forall|i: int| 0 <= i < rest.len() implies orig.contains(#[trigger] rest[i]) by {
        if i < best { assert(rest[i] == rest0[i]); } else { assert(rest[i] == rest0[i + 1]); }
    }
    assert forall|a: int, b: int| 0 <= a < rest.len() && 0 <= b < rest.len() && a != b
        implies (#[trigger] rest[a]).object.0 != (#[trigger] rest[b]).object.0 by {
        let a2 = if a < best { a } else { a + 1 };
        let b2 = if b < best { b } else { b + 1 };
        assert(rest[a] == rest0[a2]);
        assert(rest[b] == rest0[b2]);
    }
    assert forall|i: int| 0 <= i < rest.len() implies (#[trigger] rest[i]).object.0 > orig[jo].object.0 by {
        let i2 = if i < best { i } else { i + 1 };
        assert(rest[i] == rest0[i2]);
        assert(rest0[best].object.0 <= rest0[i2].object.0);
        assert(i2 != best);
    }
    assert forall|q: int| 0 <= q < orig.len() && !rest.contains(#[trigger] orig[q])
        implies orig[q].object.0 <= orig[jo].object.0 && has_object(objs1, orig[q].object.0, orig[q].min_block.0) by {
        if rest0.contains(orig[q]) {
            let b = choose|b: int| 0 <= b < rest0.len() && rest0[b] == orig[q];
            if b != best {
                let b2 = if b < best { b } else { b - 1 };
                assert(rest[b2] == rest0[b]);
            }
        } else {
            lemma_grow_keeps_object(objs_b, objs1, orig[q].object.0, orig[q].min_block.0);
            if prev is Some {
                let p = prev->Some_0;
                assert(orig[q].object.0 <= orig[p].object.0);
            } else {
                assert(rest0.contains(orig[q]));
            }
        }
    }
}
} // verus!
