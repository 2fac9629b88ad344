//! Free-space reclamation: when to start, which objects to consolidate, and
//! the consolidation of one batch of objects.
use vstd::prelude::*;
use crate::data_object::{DataObjectPhys, consolidate, min_u64, max_u64};
use crate::ids::ObjectID;
use crate::logs::PendingFreesLogEntry;
use crate::pool::{PoolStatsPhys, PoolSyncingState, MAX_BYTES_PER_OBJECT};
use crate::object_block_map::holds_block;
use crate::sorted::{find_key, keys_increasing};

verus! {

/// Reclaim starts once pending frees reach this percentage of all blocks...
pub const FREE_HIGHWATER_PCT: u64 = 10;
/// ...and frees until they are below this percentage.
pub const FREE_LOWWATER_PCT: u64 = 9;
/// Reclaim does not start below this many pending frees.
pub const FREE_MIN_BLOCKS: u64 = 1000;

/// `pct` percent of `n`, rounded down.
pub open spec fn percent_of(n: u64, pct: u64) -> int {
    (n as int * pct as int) / 100
}

/// Whether a reclaim pass is due.
pub open spec fn reclaim_due(stats: PoolStatsPhys) -> bool {
    stats.pending_frees_count >= FREE_MIN_BLOCKS
        && stats.pending_frees_count >= percent_of(stats.blocks_count, FREE_HIGHWATER_PCT)
}

/// `pct` percent of `n`, rounded down.
pub fn percent(n: u64, pct: u64) -> (r: u64)
    requires
        pct <= 100,
    ensures
        r == percent_of(n, pct),
{
    assert(n as int * pct as int <= u64::MAX as int * 100) by (nonlinear_arith)
        requires pct <= 100, n <= u64::MAX;
    let r = (n as u128 * pct as u128) / 100;
    assert(r <= n) by (nonlinear_arith)
        requires r == (n as int * pct as int) / 100, pct <= 100, n >= 0;
    r as u64
}

/// Whether a reclaim pass is due: the pending frees are at least
/// `FREE_MIN_BLOCKS` and at least `FREE_HIGHWATER_PCT` percent of the blocks.
pub fn reclaim_needed(stats: &PoolStatsPhys) -> (r: bool)
    ensures
        r == reclaim_due(*stats),
{
    stats.pending_frees_count >= FREE_MIN_BLOCKS
        && stats.pending_frees_count >= percent(stats.blocks_count, FREE_HIGHWATER_PCT)
}

/// How many frees a pass must reclaim to bring the pending frees below
/// `FREE_LOWWATER_PCT` percent of the blocks.
pub fn required_frees(stats: &PoolStatsPhys) -> (r: u64)
    requires
        reclaim_due(*stats),
    ensures
        r == stats.pending_frees_count - percent_of(stats.blocks_count, FREE_LOWWATER_PCT),
{
    let low = percent(stats.blocks_count, FREE_LOWWATER_PCT);
    let high = percent(stats.blocks_count, FREE_HIGHWATER_PCT);
    assert(low <= high) by (nonlinear_arith)
        requires low == (stats.blocks_count as int * 9) / 100, high == (stats.blocks_count as int * 10) / 100;
    stats.pending_frees_count - low
}

/// Why a batch could not be consolidated.
#[derive(Clone, Copy, Debug, PartialEq, Eq, Structural)]
pub enum ReclaimError {
    /// A freed block is held with another length than the free records.
    FreeSizeMismatch,
    /// The objects of a batch belong to different pools.
    ForeignObject,
    /// An object of a batch comes before the first one.
    OutOfOrder,
    /// The consolidated blocks would not fit a data object's size count.
    TooLarge,
}

/// The blocks left after applying `frees` in order; a free of a block that is
/// already gone is accepted (an interrupted pass may have removed it). None
/// where a block is held with another length than its free records.
pub open spec fn apply_frees_spec(m: Map<u64, Seq<u8>>, frees: Seq<PendingFreesLogEntry>) -> Option<Map<u64, Seq<u8>>>
    decreases frees.len(),
{
    if frees.len() == 0 {
        Some(m)
    } else {
        match apply_frees_spec(m, frees.drop_last()) {
            None => None,
            Some(p) => {
                let f = frees.last();
                if p.contains_key(f.block.0) {
                    if p[f.block.0].len() == f.size {
                        Some(p.remove(f.block.0))
                    } else {
                        None
                    }
                } else {
                    Some(p)
                }
            },
        }
    }
}

/// Removes the freed blocks from `obj`.
pub fn apply_frees(obj: &mut DataObjectPhys, frees: &Vec<PendingFreesLogEntry>) -> (r: Result<(), ReclaimError>)
    requires
        old(obj).wf(),
    ensures
        final(obj).wf(),
        r is Ok <==> apply_frees_spec(old(obj).block_map(), frees@) is Some,
        r is Ok ==> Some(final(obj).block_map()) == apply_frees_spec(old(obj).block_map(), frees@),
        r matches Err(e) ==> e == ReclaimError::FreeSizeMismatch,
        final(obj).guid == old(obj).guid,
        final(obj).object == old(obj).object,
        final(obj).min_block == old(obj).min_block,
        final(obj).next_block == old(obj).next_block,
        final(obj).min_txg == old(obj).min_txg,
        final(obj).max_txg == old(obj).max_txg,
        final(obj).blocks_size <= old(obj).blocks_size,
{
    let ghost m0 = obj.block_map();
    let mut i: usize = 0;
    assert(frees@.take(0) =~= Seq::<PendingFreesLogEntry>::empty());
    while i < frees.len()
        invariant
            0 <= i <= frees@.len(),
            obj.wf(),
            m0 == old(obj).block_map(),
            apply_frees_spec(m0, frees@.take(i as int)) == Some(obj.block_map()),
            obj.guid == old(obj).guid,
            obj.object == old(obj).object,
            obj.min_block == old(obj).min_block,
            obj.next_block == old(obj).next_block,
            obj.min_txg == old(obj).min_txg,
            obj.max_txg == old(obj).max_txg,
            obj.blocks_size <= old(obj).blocks_size,
        decreases frees@.len() - i,
    {
        let f = frees[i];
        assert(frees@.take(i + 1).drop_last() =~= frees@.take(i as int));
        assert(frees@.take(i + 1).last() == f);
        let removed = obj.remove_block(f.block);
        match removed {
            Some(v) => {
                if v.len() != f.size as usize {
                    proof {
                        lemma_apply_frees_none_extends(m0, frees@, i as int + 1);
                    }
                    return Err(ReclaimError::FreeSizeMismatch);
                }
            },
            None => {},
        }
        i = i + 1;
    }
    assert(frees@.take(i as int) =~= frees@);
    Ok(())
}

/// Once applying a prefix of the frees fails, applying all of them does.
pub proof fn lemma_apply_frees_none_extends(m: Map<u64, Seq<u8>>, frees: Seq<PendingFreesLogEntry>, n: int)
    requires
        0 <= n <= frees.len(),
        apply_frees_spec(m, frees.take(n)) is None,
    ensures
        apply_frees_spec(m, frees) is None,
    decreases frees.len() - n,
{
    if n < frees.len() {
        assert(frees.take(n + 1).drop_last() =~= frees.take(n));
        lemma_apply_frees_none_extends(m, frees, n + 1);
    } else {
        assert(frees.take(n) =~= frees);
    }
}

/// The blocks that consolidating `objs` keeps: each object's blocks less its
/// frees, merged in order, an earlier object's copy of a block winning.
pub open spec fn consolidated_blocks(objs: Seq<(DataObjectPhys, Vec<PendingFreesLogEntry>)>) -> Option<Map<u64, Seq<u8>>>
    decreases objs.len(),
{
    if objs.len() == 0 {
        Some(Map::empty())
    } else {
        match consolidated_blocks(objs.drop_last()) {
            None => None,
            Some(acc) => match apply_frees_spec(objs.last().0.block_map(), objs.last().1@) {
                None => None,
                Some(m) => Some(m.union_prefer_right(acc)),
            },
        }
    }
}


/// The least of `f` over the objects of a non-empty batch.
pub open spec fn batch_min(objs: Seq<(DataObjectPhys, Vec<PendingFreesLogEntry>)>, f: spec_fn(DataObjectPhys) -> u64) -> u64
    decreases objs.len(),
{
    if objs.len() <= 1 {
        f(objs[0].0)
    } else {
        min_u64(batch_min(objs.drop_last(), f), f(objs.last().0))
    }
}

/// The greatest of `f` over the objects of a non-empty batch.
pub open spec fn batch_max(objs: Seq<(DataObjectPhys, Vec<PendingFreesLogEntry>)>, f: spec_fn(DataObjectPhys) -> u64) -> u64
    decreases objs.len(),
{
    if objs.len() <= 1 {
        f(objs[0].0)
    } else {
        max_u64(batch_max(objs.drop_last(), f), f(objs.last().0))
    }
}

/// Sum of the block sizes of the objects of `objs`.
pub open spec fn sum_sizes(objs: Seq<(DataObjectPhys, Vec<PendingFreesLogEntry>)>) -> nat
    decreases objs.len(),
{
    if objs.len() == 0 {
        0
    } else {
        sum_sizes(objs.drop_last()) + objs.last().0.blocks_size as nat
    }
}

/// Consolidates one batch: removes each object's freed blocks, then merges
/// the objects, in order, into the first one, which has the smallest id and
/// keeps it. The caller PUTs the result and no longer needs the others.
pub fn reclaim_frees_object(objs: Vec<(DataObjectPhys, Vec<PendingFreesLogEntry>)>) -> (r: Result<DataObjectPhys, ReclaimError>)
    requires
        objs@.len() > 0,
        forall|i: int| 0 <= i < objs@.len() ==> (#[trigger] objs@[i]).0.wf(),
    ensures
        r matches Ok(d) ==> d.wf() && Some(d.block_map()) == consolidated_blocks(objs@)
            && d.object == objs@[0].0.object && d.guid == objs@[0].0.guid
            && d.min_block.0 == batch_min(objs@, |o: DataObjectPhys| o.min_block.0)
            && d.next_block.0 == batch_max(objs@, |o: DataObjectPhys| o.next_block.0)
            && d.min_txg.0 == batch_min(objs@, |o: DataObjectPhys| o.min_txg.0)
            && d.max_txg.0 == batch_max(objs@, |o: DataObjectPhys| o.max_txg.0),
        r == Err::<DataObjectPhys, _>(ReclaimError::FreeSizeMismatch) ==> consolidated_blocks(objs@) is None,
        r == Err::<DataObjectPhys, _>(ReclaimError::ForeignObject) ==> exists|i: int| 0 <= i < objs@.len()
            && (#[trigger] objs@[i]).0.guid != objs@[0].0.guid,
        r == Err::<DataObjectPhys, _>(ReclaimError::OutOfOrder) ==> exists|i: int| 0 < i < objs@.len()
            && (#[trigger] objs@[i]).0.object.0 <= objs@[0].0.object.0,
        r == Err::<DataObjectPhys, _>(ReclaimError::TooLarge) ==> sum_sizes(objs@) > u32::MAX,
        (forall|i: int| 0 <= i < objs@.len() ==> (#[trigger] objs@[i]).0.guid == objs@[0].0.guid)
            && (forall|i: int| 0 < i < objs@.len() ==> (#[trigger] objs@[i]).0.object.0 > objs@[0].0.object.0)
            && consolidated_blocks(objs@) is Some && sum_sizes(objs@) <= u32::MAX ==> r is Ok,
{
    let ghost all = objs@;
    let n = objs.len();
    let mut rest = objs;
    let (mut acc, first_frees) = rest.remove(0);
    proof {
        assert(all.take(1).drop_last() =~= all.take(0));
        assert(all.take(0) =~= Seq::<(DataObjectPhys, Vec<PendingFreesLogEntry>)>::empty());
        assert(all.take(1).last() == all[0]);
        assert(Map::<u64, Seq<u8>>::empty().union_prefer_right(Map::<u64, Seq<u8>>::empty()) =~= Map::<u64, Seq<u8>>::empty());
    }
    let first = acc.object;
    let guid = acc.guid;
    match apply_frees(&mut acc, &first_frees) {
        Ok(()) => {},
        Err(e) => {
            proof {
                lemma_consolidated_none_extends(all, 1);
            }
            return Err(e);
        },
    }
    proof {
        let m = acc.block_map();
        assert(m.union_prefer_right(Map::<u64, Seq<u8>>::empty()) =~= m);
        assert(rest@ =~= all.skip(1));
        assert(consolidated_blocks(all.take(0)) == Some(Map::<u64, Seq<u8>>::empty()));
        assert(all.take(1)[0] == all[0]);
        assert(consolidated_blocks(all.take(1)) == Some(m));
        assert(sum_sizes(all.take(0)) == 0);
        assert(sum_sizes(all.take(1)) == all[0].0.blocks_size);
    }
    let mut k: usize = 1;
    while rest.len() > 0
        invariant
            1 <= k <= all.len(),
            rest@ == all.skip(k as int),
            all == objs@,
            all.len() == n,
            acc.wf(),
            consolidated_blocks(all.take(k as int)) == Some(acc.block_map()),
            acc.blocks_size <= sum_sizes(all.take(k as int)),
            acc.object == first,
            acc.guid == guid,
            acc.min_block.0 == batch_min(all.take(k as int), |o: DataObjectPhys| o.min_block.0),
            acc.next_block.0 == batch_max(all.take(k as int), |o: DataObjectPhys| o.next_block.0),
            acc.min_txg.0 == batch_min(all.take(k as int), |o: DataObjectPhys| o.min_txg.0),
            acc.max_txg.0 == batch_max(all.take(k as int), |o: DataObjectPhys| o.max_txg.0),
            first == all[0].0.object,
            guid == all[0].0.guid,
            forall|i: int| 0 <= i < all.len() ==> (#[trigger] all[i]).0.wf(),
            forall|i: int| 0 <= i < k ==> (#[trigger] all[i]).0.guid == guid,
            forall|i: int| 0 < i < k ==> (#[trigger] all[i]).0.object.0 > first.0,
        decreases rest@.len(),
    {
        assert(rest@.len() == all.len() - k);
        let (mut cur, frees) = rest.remove(0);
        assert(all[k as int] == (cur, frees));
        proof {
            assert(all.take(k + 1).drop_last() =~= all.take(k as int));
            assert(all.take(k + 1).last() == all[k as int]);
            lemma_sum_sizes_take(all, k as int + 1);
        }
        if cur.guid != guid {
            assert(all[k as int].0.guid != all[0].0.guid);
            return Err(ReclaimError::ForeignObject);
        }
        if cur.object.0 <= first.0 {
            assert(all[k as int].0.object.0 <= all[0].0.object.0);
            return Err(ReclaimError::OutOfOrder);
        }
        match apply_frees(&mut cur, &frees) {
            Ok(()) => {},
            Err(e) => {
                proof {
                    lemma_consolidated_none_extends(all, k as int + 1);
                }
                return Err(e);
            },
        }
        if acc.blocks_size as u64 + cur.blocks_size as u64 > u32::MAX as u64 {
            return Err(ReclaimError::TooLarge);
        }
        acc = consolidate(acc, &cur);
        proof {
            assert(all.take(k + 1).len() > 1);
            assert(rest@ =~= all.skip(k + 1));
        }
        k = k + 1;
    }
    proof {
        assert(all.take(k as int) =~= all);
    }
    Ok(acc)
}

/// The sizes of a prefix of `objs` add up to at most the sizes of all.
pub proof fn lemma_sum_sizes_take(objs: Seq<(DataObjectPhys, Vec<PendingFreesLogEntry>)>, n: int)
    requires
        0 <= n <= objs.len(),
    ensures
        sum_sizes(objs.take(n)) <= sum_sizes(objs),
    decreases objs.len() - n,
{
    if n < objs.len() {
        assert(objs.take(n + 1).drop_last() =~= objs.take(n));
        lemma_sum_sizes_take(objs, n + 1);
    } else {
        assert(objs.take(n) =~= objs);
    }
}

/// Once consolidating a prefix of `objs` fails, consolidating all does.
pub proof fn lemma_consolidated_none_extends(objs: Seq<(DataObjectPhys, Vec<PendingFreesLogEntry>)>, n: int)
    requires
        0 <= n <= objs.len(),
        consolidated_blocks(objs.take(n)) is None,
    ensures
        consolidated_blocks(objs) is None,
    decreases objs.len() - n,
{
    if n < objs.len() {
        assert(objs.take(n + 1).drop_last() =~= objs.take(n));
        lemma_consolidated_none_extends(objs, n + 1);
    } else {
        assert(objs.take(n) =~= objs);
    }
}


/// Why a reclaim pass could not be planned.
#[derive(Clone, Copy, Debug, PartialEq, Eq, Structural)]
pub enum PlanError {
    /// A free lies below every data object.
    FreeOutsideObjects,
    /// The same free was logged twice.
    DuplicateFree,
    /// An object with frees has no size in the object-size log.
    UnknownObjectSize,
}

/// One object of a batch: its id, its logged size, and its frees.
pub struct BatchObject {
    pub obj: ObjectID,
    pub size: u32,
    pub frees: Vec<PendingFreesLogEntry>,
}

/// A reclaim pass: the batches to consolidate, each a run of consecutive
/// objects merged into its first; what is left of the frees; the objects that
/// disappear.
pub struct ReclaimPlan {
    pub batches: Vec<Vec<BatchObject>>,
    pub remaining_frees: Vec<PendingFreesLogEntry>,
    pub deleted_objects: Vec<ObjectID>,
    pub freed_blocks_count: u64,
    pub freed_blocks_bytes: u64,
}

/// The frees of `group` all lie in object `obj` of the pool.
pub open spec fn frees_in_object(objects: Seq<(u64, u64)>, obj: u64, frees: Seq<PendingFreesLogEntry>) -> bool {
    forall|j: int| 0 <= j < frees.len() ==> in_object(objects, obj, (#[trigger] frees[j]).block.0)
}

/// Object `obj` of the pool holds `block`.
pub open spec fn in_object(objects: Seq<(u64, u64)>, obj: u64, block: u64) -> bool {
    exists|i: int| holds_block(objects, i, block) && objects[i].0 == obj
}

/// Adding a free of a block that `obj` holds keeps the frees in `obj`.
pub proof fn lemma_frees_in_object_push(objects: Seq<(u64, u64)>, obj: u64, l: Seq<PendingFreesLogEntry>, f: PendingFreesLogEntry)
    requires
        frees_in_object(objects, obj, l),
        in_object(objects, obj, f.block.0),
    ensures
        frees_in_object(objects, obj, l.push(f)),
{
    let n = l.push(f);
    assert forall|j: int| 0 <= j < n.len() implies in_object(objects, obj, (#[trigger] n[j]).block.0) by {
        if j < l.len() {
            assert(n[j] == l[j]);
        } else {
            assert(n[j] == f);
        }
    }
}

/// The frees of `frees` whose block object `obj` holds, in stream order.
pub open spec fn frees_in(objects: Seq<(u64, u64)>, frees: Seq<PendingFreesLogEntry>, obj: u64) -> Seq<PendingFreesLogEntry>
    decreases frees.len(),
{
    if frees.len() == 0 {
        frees
    } else if in_object(objects, obj, frees.last().block.0) {
        frees_in(objects, frees.drop_last(), obj).push(frees.last())
    } else {
        frees_in(objects, frees.drop_last(), obj)
    }
}

/// Some group of `groups` is for the object that holds `block`.
pub open spec fn grouped(groups: Seq<(u64, Vec<PendingFreesLogEntry>)>, objects: Seq<(u64, u64)>, block: u64) -> bool {
    exists|g: int| 0 <= g < groups.len() && in_object(objects, #[trigger] groups[g].0, block)
}

/// `block` lies below every object of the pool.
pub open spec fn outside_objects(objects: Seq<(u64, u64)>, block: u64) -> bool {
    objects.len() == 0 || block < objects[0].1
}

/// Some free appears twice in `frees`.
pub open spec fn has_duplicate(frees: Seq<PendingFreesLogEntry>) -> bool {
    exists|a: int, b: int| 0 <= a < b < frees.len() && frees[a] == frees[b]
}

/// At most one object holds a block.
pub proof fn lemma_owner_unique(objects: Seq<(u64, u64)>, o1: u64, o2: u64, block: u64)
    requires
        crate::object_block_map::monotone(objects),
        in_object(objects, o1, block),
        in_object(objects, o2, block),
    ensures
        o1 == o2,
{
    let i = choose|i: int| holds_block(objects, i, block) && objects[i].0 == o1;
    let j = choose|j: int| holds_block(objects, j, block) && objects[j].0 == o2;
    if i < j {
        assert(objects[i + 1].1 <= objects[j].1);
    } else if j < i {
        assert(objects[j + 1].1 <= objects[i].1);
    }
}

/// A block at or above the first object's first block lies in some object.
pub proof fn lemma_owner_exists(objects: Seq<(u64, u64)>, block: u64)
    requires
        crate::object_block_map::monotone(objects),
        !outside_objects(objects, block),
    ensures
        exists|o: u64| in_object(objects, o, block),
    decreases objects.len(),
{
    let n = objects.len();
    if objects[n - 1].1 <= block {
        assert(holds_block(objects, n - 1, block));
        assert(in_object(objects, objects[n - 1].0, block));
    } else {
        let d = objects.drop_last();
        assert(crate::object_block_map::monotone(d));
        assert(d[0] == objects[0]);
        lemma_owner_exists(d, block);
        let o = choose|o: u64| in_object(d, o, block);
        let i = choose|i: int| holds_block(d, i, block) && d[i].0 == o;
        assert(objects[i] == d[i]);
        if i + 1 < d.len() {
            assert(objects[i + 1] == d[i + 1]);
        }
        assert(holds_block(objects, i, block));
        assert(in_object(objects, o, block));
    }
}

/// Every free of `frees_in(objects, frees, o)` is a free of `frees` that `o`
/// holds.
pub proof fn lemma_frees_in_elems(objects: Seq<(u64, u64)>, frees: Seq<PendingFreesLogEntry>, o: u64)
    ensures
        forall|y: int| 0 <= y < frees_in(objects, frees, o).len() ==> (exists|x: int| 0 <= x < frees.len()
            && frees[x] == #[trigger] frees_in(objects, frees, o)[y])
            && in_object(objects, o, frees_in(objects, frees, o)[y].block.0),
    decreases frees.len(),
{
    if frees.len() > 0 {
        let d = frees.drop_last();
        lemma_frees_in_elems(objects, d, o);
        let r = frees_in(objects, frees, o);
        assert forall|y: int| 0 <= y < r.len() implies (exists|x: int| 0 <= x < frees.len()
            && frees[x] == #[trigger] r[y]) && in_object(objects, o, r[y].block.0) by {
            let rd = frees_in(objects, d, o);
            if y < rd.len() {
                assert(r[y] == rd[y]);
                let x = choose|x: int| 0 <= x < d.len() && d[x] == rd[y];
                assert(frees[x] == d[x]);
            } else {
                assert(r[y] == frees[frees.len() - 1]);
            }
        }
    }
}

/// A free that `o` holds is among `frees_in(objects, frees, o)`.
pub proof fn lemma_frees_in_has(objects: Seq<(u64, u64)>, frees: Seq<PendingFreesLogEntry>, j: int, o: u64)
    requires
        0 <= j < frees.len(),
        in_object(objects, o, frees[j].block.0),
    ensures
        frees_in(objects, frees, o).len() > 0,
    decreases frees.len(),
{
    let d = frees.drop_last();
    if j < frees.len() - 1 {
        assert(d[j] == frees[j]);
        lemma_frees_in_has(objects, d, j, o);
    }
}

/// Adding a free not yet in its object's group keeps the frees free of
/// duplicates.
proof fn lemma_no_duplicate_push(objects: Seq<(u64, u64)>, frees: Seq<PendingFreesLogEntry>, i: int,
    group: Seq<PendingFreesLogEntry>, o: u64)
    requires
        crate::object_block_map::monotone(objects),
        0 <= i < frees.len(),
        !has_duplicate(frees.take(i)),
        in_object(objects, o, frees[i].block.0),
        group == frees_in(objects, frees.take(i), o),
        !group.contains(frees[i]),
    ensures
        !has_duplicate(frees.take(i + 1)),
{
    let t = frees.take(i + 1);
    if has_duplicate(t) {
        let (a, b) = choose|a: int, b: int| 0 <= a < b < t.len() && t[a] == t[b];
        if b < i {
            assert(frees.take(i)[a] == t[a]);
            assert(frees.take(i)[b] == t[b]);
        } else {
            assert(t[a] == frees[i]);
            assert(frees.take(i)[a] == frees[a]);
            lemma_frees_in_has_at(objects, frees.take(i), a, o);
        }
    }
}

/// A free that `o` holds is an element of `frees_in(objects, frees, o)`.
proof fn lemma_frees_in_has_at(objects: Seq<(u64, u64)>, frees: Seq<PendingFreesLogEntry>, j: int, o: u64)
    requires
        0 <= j < frees.len(),
        in_object(objects, o, frees[j].block.0),
    ensures
        frees_in(objects, frees, o).contains(frees[j]),
    decreases frees.len(),
{
    let d = frees.drop_last();
    let r = frees_in(objects, frees, o);
    if j < frees.len() - 1 {
        assert(d[j] == frees[j]);
        lemma_frees_in_has_at(objects, d, j, o);
        let rd = frees_in(objects, d, o);
        let y = choose|y: int| 0 <= y < rd.len() && rd[y] == frees[j];
        assert(r[y] == rd[y]);
    } else {
        assert(r[r.len() - 1] == frees[j]);
    }
}

/// `batch` is the run of objects of `sizes` that starts at index `start`.
pub open spec fn batch_is_run(batch: Seq<BatchObject>, sizes: Seq<(u64, u32)>, start: int) -> bool {
    &&& 0 <= start
    &&& start + batch.len() <= sizes.len()
    &&& forall|j: int| 0 <= j < batch.len() ==> (#[trigger] batch[j]).obj.0 == sizes[start + j].0
        && batch[j].size == sizes[start + j].1
}

/// Whether `f` is among `frees`.
fn contains_free(frees: &Vec<PendingFreesLogEntry>, f: PendingFreesLogEntry) -> (r: bool)
    ensures
        r == frees@.contains(f),
{
    let mut d: usize = 0;
    while d < frees.len()
        invariant
            0 <= d <= frees@.len(),
            forall|x: int| 0 <= x < d ==> frees@[x] != f,
        decreases frees@.len() - d,
    {
        if frees[d] == f {
            assert(frees@[d as int] == f);
            return true;
        }
        d = d + 1;
    }
    false
}

/// Every batch is a nonempty run of consecutive objects of `sizes`, and the
/// frees of each of its objects lie in that object.
pub open spec fn batches_ok(objects: Seq<(u64, u64)>, batches: Seq<Vec<BatchObject>>, sizes: Seq<(u64, u32)>) -> bool {
    forall|k: int| 0 <= k < batches.len() ==> batch_ok(objects, #[trigger] batches[k]@, sizes)
}

/// `batch` is a nonempty run of consecutive objects of `sizes`, and the frees
/// of each of its objects lie in that object.
pub open spec fn batch_ok(objects: Seq<(u64, u64)>, batch: Seq<BatchObject>, sizes: Seq<(u64, u32)>) -> bool {
    &&& batch.len() > 0
    &&& (batch.len() > 1 ==> projected_size(batch) <= MAX_BYTES_PER_OBJECT)
    &&& exists|start: int| batch_is_run(batch, sizes, start)
    &&& forall|j: int| 0 <= j < batch.len() ==> frees_in_object(objects, (#[trigger] batch[j]).obj.0, batch[j].frees@)
}

/// The objects that the batches `bs` delete: all but the first of each
/// batch, in order.
pub open spec fn deleted_by(bs: Seq<Vec<BatchObject>>) -> Seq<ObjectID>
    decreases bs.len(),
{
    if bs.len() == 0 {
        Seq::empty()
    } else {
        deleted_by(bs.drop_last()) + bs.last()@.skip(1).map_values(|o: BatchObject| o.obj)
    }
}

/// The number of frees in the objects of `b`.
pub open spec fn batch_frees(b: Seq<BatchObject>) -> int
    decreases b.len(),
{
    if b.len() == 0 { 0 } else { batch_frees(b.drop_last()) + b.last().frees@.len() }
}

/// The bytes of the frees in the objects of `b`, each object's saturating.
pub open spec fn batch_bytes(b: Seq<BatchObject>) -> int
    decreases b.len(),
{
    if b.len() == 0 { 0 } else { batch_bytes(b.drop_last()) + bytes_of(b.last().frees@) }
}

/// The number of frees in all the batches `bs`.
pub open spec fn plan_frees(bs: Seq<Vec<BatchObject>>) -> int
    decreases bs.len(),
{
    if bs.len() == 0 { 0 } else { plan_frees(bs.drop_last()) + batch_frees(bs.last()@) }
}

/// The bytes of the frees in all the batches `bs`.
pub open spec fn plan_bytes(bs: Seq<Vec<BatchObject>>) -> int
    decreases bs.len(),
{
    if bs.len() == 0 { 0 } else { plan_bytes(bs.drop_last()) + batch_bytes(bs.last()@) }
}

/// `n`, or `u64::MAX` where that would not fit.
pub open spec fn sat_u64(n: int) -> u64 {
    if n > u64::MAX { u64::MAX } else if n < 0 { 0 } else { n as u64 }
}

/// Object `o` is an object of one of the batches `bs`.
pub open spec fn obj_in_batches(bs: Seq<Vec<BatchObject>>, o: u64) -> bool {
    exists|k: int, j: int| 0 <= k < bs.len() && 0 <= j < bs[k]@.len() && (#[trigger] bs[k]@[j]).obj.0 == o
}

/// An object of one of the batches `bs` holds `block`.
pub open spec fn in_some_batch(objects: Seq<(u64, u64)>, bs: Seq<Vec<BatchObject>>, block: u64) -> bool {
    exists|k: int, j: int| 0 <= k < bs.len() && 0 <= j < bs[k]@.len() && #[trigger] in_object(objects, bs[k]@[j].obj.0, block)
}

/// An object of the batches after adding `b` is one of the old batches or
/// of `b`.
pub proof fn lemma_obj_in_batches_push(bs: Seq<Vec<BatchObject>>, v: Vec<BatchObject>, o: u64)
    ensures
        obj_in_batches(bs.push(v), o) <==> obj_in_batches(bs, o)
            || exists|j: int| 0 <= j < v@.len() && (#[trigger] v@[j]).obj.0 == o,
{
    let n = bs.push(v);
    if obj_in_batches(n, o) {
        let (k, j) = choose|k: int, j: int| 0 <= k < n.len() && 0 <= j < n[k]@.len() && (#[trigger] n[k]@[j]).obj.0 == o;
        if k < bs.len() {
            assert(n[k] == bs[k]);
            assert(bs[k]@[j].obj.0 == o);
        } else {
            assert(n[k] == v);
            assert(v@[j].obj.0 == o);
        }
    }
    if obj_in_batches(bs, o) {
        let (k, j) = choose|k: int, j: int| 0 <= k < bs.len() && 0 <= j < bs[k]@.len() && (#[trigger] bs[k]@[j]).obj.0 == o;
        assert(n[k] == bs[k]);
        assert(n[k]@[j].obj.0 == o);
    }
    if exists|j: int| 0 <= j < v@.len() && (#[trigger] v@[j]).obj.0 == o {
        let j = choose|j: int| 0 <= j < v@.len() && (#[trigger] v@[j]).obj.0 == o;
        assert(n[bs.len() as int] == v);
        assert(n[bs.len() as int]@[j].obj.0 == o);
    }
}

/// Adding a good batch keeps the batches good.
pub proof fn lemma_batches_push(objects: Seq<(u64, u64)>, batches: Seq<Vec<BatchObject>>, b: Seq<BatchObject>,
    sizes: Seq<(u64, u32)>, start: int)
    requires
        batches_ok(objects, batches, sizes),
        b.len() > 0,
        b.len() > 1 ==> projected_size(b) <= MAX_BYTES_PER_OBJECT,
        batch_is_run(b, sizes, start),
        forall|j: int| 0 <= j < b.len() ==> frees_in_object(objects, (#[trigger] b[j]).obj.0, b[j].frees@),
    ensures
        forall|v: Vec<BatchObject>| v@ == b ==> batches_ok(objects, #[trigger] batches.push(v), sizes),
{
    assert forall|v: Vec<BatchObject>| v@ == b implies batches_ok(objects, #[trigger] batches.push(v), sizes) by {
        let n = batches.push(v);
        assert forall|k: int| 0 <= k < n.len() implies batch_ok(objects, #[trigger] n[k]@, sizes) by {
            if k < batches.len() {
                assert(n[k] == batches[k]);
            } else {
                assert(n[k] == v);
            }
        }
    }
}

/// Sum of the sizes of `frees`, saturating.
fn frees_bytes(frees: &Vec<PendingFreesLogEntry>) -> (r: u64)
    ensures
        r == bytes_of(frees@),
{
    let mut sum: u64 = 0;
    let mut i: usize = 0;
    assert(frees@.take(0) =~= Seq::<PendingFreesLogEntry>::empty());
    while i < frees.len()
        invariant
            0 <= i <= frees@.len(),
            sum == bytes_of(frees@.take(i as int)),
        decreases frees@.len() - i,
    {
        assert(frees@.take(i + 1).drop_last() =~= frees@.take(i as int));
        sum = sum.saturating_add(frees[i].size as u64);
        i = i + 1;
    }
    assert(frees@.take(i as int) =~= frees@);
    sum
}

/// The bytes that `frees` free, saturating.
pub open spec fn bytes_of(frees: Seq<PendingFreesLogEntry>) -> u64
    decreases frees.len(),
{
    if frees.len() == 0 {
        0
    } else {
        crate::pool::sat_add(bytes_of(frees.drop_last()), frees.last().size as int)
    }
}

/// The size a batch is expected to have once consolidated: each object's
/// logged size less the bytes its frees free.
pub open spec fn projected_size(b: Seq<BatchObject>) -> int
    decreases b.len(),
{
    if b.len() == 0 {
        0
    } else {
        projected_size(b.drop_last()) + crate::pool::sat_sub(b.last().size as u64, bytes_of(b.last().frees@) as int)
    }
}

impl PoolSyncingState {
    /// Groups `frees` by the data object that holds each freed block, in
    /// object order; each group keeps the order of the stream.
    pub fn get_frees_per_obj(&self, frees: &Vec<PendingFreesLogEntry>)
        -> (r: Result<Vec<(u64, Vec<PendingFreesLogEntry>)>, PlanError>)
        requires
            self.wf(),
        ensures
            r matches Ok(groups) ==> keys_increasing(groups@)
                && (forall|g: int| 0 <= g < groups@.len() ==> (#[trigger] groups@[g]).1@.len() > 0
                    && groups@[g].1@ == frees_in(self.objects(), frees@, groups@[g].0)
                    && frees_in_object(self.objects(), groups@[g].0, groups@[g].1@))
                && (forall|j: int| 0 <= j < frees@.len() ==> grouped(groups@, self.objects(), (#[trigger] frees@[j]).block.0)),
            r == Err::<Vec<(u64, Vec<PendingFreesLogEntry>)>, _>(PlanError::FreeOutsideObjects) <==> exists|j: int|
                0 <= j < frees@.len() && outside_objects(self.objects(), (#[trigger] frees@[j]).block.0),
            r == Err::<Vec<(u64, Vec<PendingFreesLogEntry>)>, _>(PlanError::DuplicateFree) <==>
                (forall|j: int| 0 <= j < frees@.len() ==> !outside_objects(self.objects(), (#[trigger] frees@[j]).block.0))
                && has_duplicate(frees@),
            r matches Err(e) ==> e == PlanError::FreeOutsideObjects || e == PlanError::DuplicateFree,
    {
        proof {
            crate::laws::lemma_pool_objects_monotonic(self);
        }
        let ghost objs = self.objects();
        // every freed block lies in some object
        let mut j: usize = 0;
        while j < frees.len()
            invariant
                0 <= j <= frees@.len(),
                self.wf(),
                forall|x: int| 0 <= x < j ==> !outside_objects(self.objects(), (#[trigger] frees@[x]).block.0),
            decreases frees@.len() - j,
        {
            if self.block_to_obj(frees[j].block).is_none() {
                assert(outside_objects(self.objects(), frees@[j as int].block.0));
                return Err(PlanError::FreeOutsideObjects);
            }
            j = j + 1;
        }
        let mut groups: Vec<(u64, Vec<PendingFreesLogEntry>)> = Vec::new();
        let mut i: usize = 0;
        assert(frees@.take(0) =~= Seq::<PendingFreesLogEntry>::empty());
        while i < frees.len()
            invariant
                0 <= i <= frees@.len(),
                self.wf(),
                objs == self.objects(),
                crate::object_block_map::monotone(objs),
                forall|x: int| 0 <= x < frees@.len() ==> !outside_objects(objs, (#[trigger] frees@[x]).block.0),
                keys_increasing(groups@),
                forall|g: int| 0 <= g < groups@.len() ==> (#[trigger] groups@[g]).1@.len() > 0
                    && groups@[g].1@ == frees_in(objs, frees@.take(i as int), groups@[g].0),
                forall|o: u64| !crate::sorted::has_key(groups@, o) ==> #[trigger] frees_in(objs, frees@.take(i as int), o).len() == 0,
                !has_duplicate(frees@.take(i as int)),
            decreases frees@.len() - i,
        {
            let f = frees[i];
            let obj = match self.block_to_obj(f.block) {
                Some(o) => o,
                None => {
                    assert(outside_objects(objs, frees@[i as int].block.0));
                    return Err(PlanError::FreeOutsideObjects);
                },
            };
            let ghost t0 = frees@.take(i as int);
            let ghost t1 = frees@.take(i + 1);
            proof {
                assert(t1 =~= t0.push(f));
                assert(in_object(objs, obj.0, f.block.0));
                assert forall|o: u64| #[trigger] frees_in(objs, t1, o) == (if o == obj.0 { frees_in(objs, t0, o).push(f) }
                    else { frees_in(objs, t0, o) }) by {
                    assert(t1.drop_last() =~= t0);
                    if o != obj.0 && in_object(objs, o, f.block.0) {
                        lemma_owner_unique(objs, o, obj.0, f.block.0);
                    }
                }
            }
            let ghost g0 = groups@;
            match find_key(&groups, obj.0) {
                Ok(gi) => {
                    if contains_free(&groups[gi].1, f) {
                        proof {
                            assert(g0[gi as int].0 == obj.0);
                            lemma_frees_in_elems(objs, t0, obj.0);
                            let y = choose|y: int| 0 <= y < g0[gi as int].1@.len() && g0[gi as int].1@[y] == f;
                            let x = choose|x: int| 0 <= x < t0.len() && t0[x] == g0[gi as int].1@[y];
                            assert(frees@[x] == frees@[i as int]);
                            assert(has_duplicate(frees@));
                        }
                        return Err(PlanError::DuplicateFree);
                    }
                    let (o, mut list) = groups.remove(gi);
                    let ghost l0 = list@;
                    list.push(f);
                    groups.insert(gi, (o, list));
                    proof {
                        assert(g0[gi as int].0 == obj.0);
                        let gs = groups@;
                        assert(gs =~= g0.update(gi as int, (o, list)));
                        assert forall|a: int, b: int| 0 <= a < b < gs.len() implies gs[a].0 < gs[b].0 by {
                            assert(gs[a].0 == g0[a].0);
                            assert(gs[b].0 == g0[b].0);
                        }
                        assert forall|g: int| 0 <= g < gs.len() implies (#[trigger] gs[g]).1@.len() > 0
                            && gs[g].1@ == frees_in(objs, t1, gs[g].0) by {
                            if g != gi {
                                assert(gs[g] == g0[g]);
                                assert(g0[g].0 != obj.0);
                            }
                        }
                        assert forall|o2: u64| !crate::sorted::has_key(gs, o2) implies #[trigger] frees_in(objs, t1, o2).len() == 0 by {
                            assert(gs[gi as int].0 == obj.0);
                            if crate::sorted::has_key(g0, o2) {
                                let g = choose|g: int| 0 <= g < g0.len() && g0[g].0 == o2;
                                assert(gs[g].0 == g0[g].0);
                            }
                        }
                        lemma_no_duplicate_push(objs, frees@, i as int, l0, obj.0);
                    }
                },
                Err(p) => {
                    let mut list: Vec<PendingFreesLogEntry> = Vec::new();
                    list.push(f);
                    groups.insert(p, (obj.0, list));
                    proof {
                        let gs = groups@;
                        assert(!crate::sorted::has_key(g0, obj.0));
                        assert(frees_in(objs, t0, obj.0).len() == 0);
                        assert(list@ =~= frees_in(objs, t0, obj.0).push(f));
                        assert forall|a: int| 0 <= a < gs.len() implies #[trigger] gs[a] == (if a < p { g0[a] } else if a
                            == p { (obj.0, list) } else { g0[a - 1] }) by {}
                        assert forall|a: int, b: int| 0 <= a < b < gs.len() implies gs[a].0 < gs[b].0 by {}
                        assert forall|g: int| 0 <= g < gs.len() implies (#[trigger] gs[g]).1@.len() > 0
                            && gs[g].1@ == frees_in(objs, t1, gs[g].0) by {
                            if g < p {
                                assert(gs[g] == g0[g]);
                                assert(g0[g].0 != obj.0);
                            } else if g > p {
                                assert(gs[g] == g0[g - 1]);
                                assert(g0[g - 1].0 != obj.0);
                            }
                        }
                        assert forall|o2: u64| !crate::sorted::has_key(gs, o2) implies #[trigger] frees_in(objs, t1, o2).len() == 0 by {
                            assert(gs[p as int].0 == obj.0);
                            if crate::sorted::has_key(g0, o2) {
                                let g = choose|g: int| 0 <= g < g0.len() && g0[g].0 == o2;
                                if g < p {
                                    assert(gs[g] == g0[g]);
                                } else {
                                    assert(gs[g + 1] == g0[g]);
                                }
                            }
                        }
                        assert(frees_in(objs, t0, obj.0) =~= Seq::<PendingFreesLogEntry>::empty());
                        lemma_no_duplicate_push(objs, frees@, i as int, Seq::empty(), obj.0);
                    }
                },
            }
            i = i + 1;
        }
        proof {
            assert(frees@.take(i as int) =~= frees@);
            let gs = groups@;
            assert forall|j: int| 0 <= j < frees@.len() implies grouped(gs, objs, (#[trigger] frees@[j]).block.0) by {
                lemma_owner_exists(objs, frees@[j].block.0);
                let o = choose|o: u64| in_object(objs, o, frees@[j].block.0);
                lemma_frees_in_has(objs, frees@, j, o);
                if !crate::sorted::has_key(gs, o) {
                    assert(frees_in(objs, frees@, o).len() == 0);
                }
                let g = choose|g: int| 0 <= g < gs.len() && gs[g].0 == o;
                assert(in_object(objs, gs[g].0, frees@[j].block.0));
            }
            assert forall|g: int| 0 <= g < gs.len() implies frees_in_object(objs, (#[trigger] gs[g]).0, gs[g].1@) by {
                lemma_frees_in_elems(objs, frees@, gs[g].0);
                assert forall|y: int| 0 <= y < gs[g].1@.len() implies in_object(objs, gs[g].0, (#[trigger] gs[g].1@[y]).block.0) by {
                    assert(gs[g].1@[y] == frees_in(objs, frees@, gs[g].0)[y]);
                }
            }
        }
        Ok(groups)
    }
}

/// A copy of `v`.
fn copy_frees(v: &Vec<PendingFreesLogEntry>) -> (r: Vec<PendingFreesLogEntry>)
    ensures
        r@ == v@,
{
    let mut r: Vec<PendingFreesLogEntry> = Vec::new();
    let mut i: usize = 0;
    while i < v.len()
        invariant
            0 <= i <= v@.len(),
            r@ == v@.take(i as int),
        decreases v@.len() - i,
    {
        r.push(v[i]);
        assert(r@ =~= v@.take(i + 1));
        i = i + 1;
    }
    assert(v@.take(i as int) =~= v@);
    r
}

/// Whether `objs` holds `obj`.
fn contains_obj(objs: &Vec<u64>, obj: u64) -> (r: bool)
    ensures
        r == objs@.contains(obj),
{
    let mut i: usize = 0;
    while i < objs.len()
        invariant
            0 <= i <= objs@.len(),
            forall|x: int| 0 <= x < i ==> objs@[x] != obj,
        decreases objs@.len() - i,
    {
        if objs[i] == obj {
            assert(objs@[i as int] == obj);
            return true;
        }
        i = i + 1;
    }
    false
}

/// `e` is the (number of frees, object) entry of some group of `groups`.
pub open spec fn rank_entry(groups: Seq<(u64, Vec<PendingFreesLogEntry>)>, e: (usize, u64)) -> bool {
    exists|x: int| 0 <= x < groups.len() && e == (#[trigger] groups[x].1.len(), groups[x].0)
}

/// The rank of object `o`: its number of frees, and its id.
pub open spec fn rank_of(objects: Seq<(u64, u64)>, frees: Seq<PendingFreesLogEntry>, o: u64) -> (usize, u64) {
    (frees_in(objects, frees, o).len() as usize, o)
}

/// `a` ranks before `b`: more frees, or as many and a smaller object.
pub open spec fn ranks_before(a: (usize, u64), b: (usize, u64)) -> bool {
    a.0 > b.0 || (a.0 == b.0 && a.1 < b.1)
}

/// The objects of `groups` with their numbers of frees, those with the most
/// frees first and, among equals, the smaller id first.
fn order_by_frees(groups: &Vec<(u64, Vec<PendingFreesLogEntry>)>) -> (r: Vec<(usize, u64)>)
    requires
        keys_increasing(groups@),
    ensures
        r@.len() == groups@.len(),
        forall|i: int, j: int| 0 <= i < j < r@.len() ==> ranks_before(#[trigger] r@[i], #[trigger] r@[j]),
        forall|g: int| 0 <= g < groups@.len() ==> r@.contains((#[trigger] groups@[g].1.len(), groups@[g].0)),
        forall|i: int| 0 <= i < r@.len() ==> crate::sorted::has_key(groups@, (#[trigger] r@[i]).1),
        forall|i: int| 0 <= i < r@.len() ==> rank_entry(groups@, #[trigger] r@[i]),
{
    let mut order: Vec<(usize, u64)> = Vec::new();
    let mut g: usize = 0;
    while g < groups.len()
        invariant
            0 <= g <= groups@.len(),
            keys_increasing(groups@),
            order@.len() == g,
            forall|i: int, j: int| 0 <= i < j < order@.len() ==> ranks_before(#[trigger] order@[i], #[trigger] order@[j]),
            forall|x: int| 0 <= x < g ==> order@.contains((#[trigger] groups@[x].1.len(), groups@[x].0)),
            forall|i: int| 0 <= i < order@.len() ==> exists|x: int| 0 <= x < g && (#[trigger] order@[i]).1 == groups@[x].0,
            forall|i: int| 0 <= i < order@.len() ==> exists|x: int| 0 <= x < g
                && (#[trigger] order@[i]) == (groups@[x].1.len(), groups@[x].0),
        decreases groups@.len() - g,
    {
        let count = groups[g].1.len();
        let obj = groups[g].0;
        let e = (count, obj);
        let mut p: usize = 0;
        while p < order.len()
            invariant
                p <= order@.len(),
                e == (count, obj),
                forall|i: int| 0 <= i < p ==> ranks_before(#[trigger] order@[i], e),
            ensures
                p <= order@.len(),
                forall|i: int| 0 <= i < p ==> ranks_before(#[trigger] order@[i], e),
                p < order@.len() ==> !ranks_before(order@[p as int], e),
            decreases order@.len() - p,
        {
            let (c2, o2) = order[p];
            if !(c2 > count || (c2 == count && o2 < obj)) {
                assert(order@[p as int] == (c2, o2));
                break;
            }
            assert(order@[p as int] == (c2, o2));
            p = p + 1;
        }
        let ghost o0 = order@;
        proof {
            // every object already ranked differs from this one
            assert forall|i: int| 0 <= i < o0.len() implies (#[trigger] o0[i]).1 != obj by {
                let x = choose|x: int| 0 <= x < g && o0[i].1 == groups@[x].0;
                assert(groups@[x].0 < groups@[g as int].0);
            }
            assert forall|i: int| p <= i < o0.len() implies ranks_before(e, #[trigger] o0[i]) by {
                if i > p {
                    assert(ranks_before(o0[p as int], o0[i]));
                }
            }
        }
        order.insert(p, e);
        proof {
            let o1 = order@;
            assert forall|i: int| 0 <= i < o1.len() implies #[trigger] o1[i] == (if i < p { o0[i] } else if i == p { e } else { o0[i - 1] }) by {}
            assert forall|i: int, j: int| 0 <= i < j < o1.len() implies ranks_before(#[trigger] o1[i], #[trigger] o1[j]) by {
                if j < p {
                } else if j == p {
                } else if i < p {
                    assert(ranks_before(o0[i], e));
                    assert(ranks_before(e, o0[j - 1]));
                } else if i == p {
                } else {
                }
            }
            assert forall|x: int| 0 <= x < g + 1 implies o1.contains((#[trigger] groups@[x].1.len(), groups@[x].0)) by {
                if x == g {
                    assert(o1[p as int] == e);
                } else {
                    let y = choose|y: int| 0 <= y < o0.len() && o0[y] == (groups@[x].1.len(), groups@[x].0);
                    if y < p {
                        assert(o1[y] == o0[y]);
                    } else {
                        assert(o1[y + 1] == o0[y]);
                    }
                }
            }
            assert forall|i: int| 0 <= i < o1.len() implies exists|x: int| 0 <= x < g + 1
                && (#[trigger] o1[i]) == (groups@[x].1.len(), groups@[x].0) by {
                if i < p {
                    let x = choose|x: int| 0 <= x < g && o0[i] == (groups@[x].1.len(), groups@[x].0);
                } else if i == p {
                    assert(o1[i] == (groups@[g as int].1.len(), groups@[g as int].0));
                } else {
                    let x = choose|x: int| 0 <= x < g && o0[i - 1] == (groups@[x].1.len(), groups@[x].0);
                }
            }
            assert forall|i: int| 0 <= i < o1.len() implies exists|x: int| 0 <= x < g + 1 && (#[trigger] o1[i]).1 == groups@[x].0 by {
                if i < p {
                    let x = choose|x: int| 0 <= x < g && o0[i].1 == groups@[x].0;
                } else if i == p {
                    assert(o1[i].1 == groups@[g as int].0);
                } else {
                    let x = choose|x: int| 0 <= x < g && o0[i - 1].1 == groups@[x].0;
                }
            }
        }
        g = g + 1;
    }
    proof {
        assert forall|i: int| 0 <= i < order@.len() implies crate::sorted::has_key(groups@, (#[trigger] order@[i]).1) by {
            let x = choose|x: int| 0 <= x < g && order@[i].1 == groups@[x].0;
        }
        assert forall|i: int| 0 <= i < order@.len() implies rank_entry(groups@, #[trigger] order@[i]) by {
            let x = choose|x: int| 0 <= x < g && order@[i] == (groups@[x].1.len(), groups@[x].0);
            assert(order@[i] == (groups@[x].1.len(), groups@[x].0));
        }
    }
    order
}

impl PoolSyncingState {
    /// Plans a reclaim pass over the snapshot `frees` of the pending-frees log
    /// and `sizes` of the object-size log (in object order): objects are taken
    /// by most frees first; each starts a batch that takes in the following
    /// objects while the projected size stays within `MAX_BYTES_PER_OBJECT`
    /// and the next one is not the first of another batch. Planning stops
    /// once more than `required` frees are covered.
    #[verifier::rlimit(100)]
    pub fn plan_reclaim(&self, frees: &Vec<PendingFreesLogEntry>, sizes: &Vec<(u64, u32)>, required: u64)
        -> (r: Result<ReclaimPlan, PlanError>)
        requires
            self.wf(),
            keys_increasing(sizes@),
        ensures
            r matches Ok(plan) ==> batches_ok(self.objects(), plan.batches@, sizes@)
                && plan.deleted_objects@ == deleted_by(plan.batches@)
                && plan.freed_blocks_count == sat_u64(plan_frees(plan.batches@))
                && plan.freed_blocks_bytes == sat_u64(plan_bytes(plan.batches@))
                && (forall|k: int| 0 <= k < plan.batches@.len() - 1
                    ==> sat_u64(plan_frees(#[trigger] plan.batches@.take(k + 1))) <= required)
                && (frees@.len() > 0 ==> plan.batches@.len() > 0)
                && (forall|x: int| 0 <= x < plan.remaining_frees@.len() ==> frees@.contains(#[trigger] plan.remaining_frees@[x])
                    && !in_some_batch(self.objects(), plan.batches@, plan.remaining_frees@[x].block.0))
                && (forall|j: int| 0 <= j < frees@.len() ==> in_some_batch(self.objects(), plan.batches@, (#[trigger] frees@[j]).block.0)
                    || plan.remaining_frees@.contains(frees@[j]))
                && (forall|k: int, l: int, i: int, j: int| 0 <= k < l < plan.batches@.len()
                    && 0 <= i < plan.batches@[k]@.len() && 0 <= j < plan.batches@[l]@.len()
                    ==> (#[trigger] plan.batches@[k]@[i]).obj != (#[trigger] plan.batches@[l]@[j]).obj)
                && (forall|k: int, l: int| 0 <= k < l < plan.batches@.len() ==> ranks_before(
                    rank_of(self.objects(), frees@, (#[trigger] plan.batches@[k])@[0].obj.0),
                    rank_of(self.objects(), frees@, (#[trigger] plan.batches@[l])@[0].obj.0))),
            r == Err::<ReclaimPlan, _>(PlanError::FreeOutsideObjects) <==> exists|j: int|
                0 <= j < frees@.len() && outside_objects(self.objects(), (#[trigger] frees@[j]).block.0),
            r == Err::<ReclaimPlan, _>(PlanError::DuplicateFree) <==>
                (forall|j: int| 0 <= j < frees@.len() ==> !outside_objects(self.objects(), (#[trigger] frees@[j]).block.0))
                && has_duplicate(frees@),
            r == Err::<ReclaimPlan, _>(PlanError::UnknownObjectSize) <==>
                (forall|j: int| 0 <= j < frees@.len() ==> !outside_objects(self.objects(), (#[trigger] frees@[j]).block.0))
                && !has_duplicate(frees@)
                && exists|j: int, o: u64| 0 <= j < frees@.len() && #[trigger] in_object(self.objects(), o, frees@[j].block.0)
                    && !crate::sorted::has_key(sizes@, o),
    {
        let groups = match self.get_frees_per_obj(frees) {
            Ok(g) => g,
            Err(e) => {
                return Err(e);
            },
        };
        proof {
            crate::laws::lemma_pool_objects_monotonic(self);
        }
        // every object with frees has a size
        let mut g: usize = 0;
        while g < groups.len()
            invariant
                0 <= g <= groups@.len(),
                keys_increasing(sizes@),
                forall|x: int| 0 <= x < g ==> crate::sorted::has_key(sizes@, (#[trigger] groups@[x]).0),
                forall|x: int| 0 <= x < groups@.len() ==> (#[trigger] groups@[x]).1@.len() > 0
                    && groups@[x].1@ == frees_in(self.objects(), frees@, groups@[x].0),
                forall|j: int| 0 <= j < frees@.len() ==> !outside_objects(self.objects(), (#[trigger] frees@[j]).block.0),
                !has_duplicate(frees@),
            decreases groups@.len() - g,
        {
            match find_key(sizes, groups[g].0) {
                Ok(_) => {},
                Err(_) => {
                    proof {
                        let o = groups@[g as int].0;
                        let l = groups@[g as int].1@;
                        assert(l.len() > 0);
                        assert(l == frees_in(self.objects(), frees@, o));
                        lemma_frees_in_elems(self.objects(), frees@, o);
                        assert(l[0] == frees_in(self.objects(), frees@, o)[0]);
                        let x = choose|x: int| 0 <= x < frees@.len() && frees@[x] == frees_in(self.objects(), frees@, o)[0];
                        assert(in_object(self.objects(), o, frees@[x].block.0));
                    }
                    return Err(PlanError::UnknownObjectSize);
                },
            }
            g = g + 1;
        }
        proof {
            assert forall|j: int, o: u64| 0 <= j < frees@.len() && #[trigger] in_object(self.objects(), o, frees@[j].block.0)
                implies crate::sorted::has_key(sizes@, o) by {
                assert(grouped(groups@, self.objects(), frees@[j].block.0));
                let x = choose|x: int| 0 <= x < groups@.len() && in_object(self.objects(), #[trigger] groups@[x].0, frees@[j].block.0);
                lemma_owner_unique(self.objects(), o, groups@[x].0, frees@[j].block.0);
            }
        }
        let order = order_by_frees(&groups);
        proof {
            if frees@.len() > 0 {
                assert(grouped(groups@, self.objects(), frees@[0].block.0));
            }
        }
        let mut taken: Vec<bool> = Vec::new();
        let mut g: usize = 0;
        while g < groups.len()
            invariant
                0 <= g <= groups@.len(),
                taken@.len() == g,
                forall|x: int| 0 <= x < g ==> !(#[trigger] taken@[x]),
            decreases groups@.len() - g,
        {
            taken.push(false);
            g = g + 1;
        }
        let mut batches: Vec<Vec<BatchObject>> = Vec::new();
        let mut deleted_objects: Vec<ObjectID> = Vec::new();
        let mut writing: Vec<u64> = Vec::new();
        let mut freed_blocks_count: u64 = 0;
        let mut freed_blocks_bytes: u64 = 0;
        let mut c: usize = 0;
        let ghost mut firsts: Seq<int> = Seq::empty();
        let ghost mut starts: Seq<int> = Seq::empty();
        while c < order.len()
            invariant_except_break
                freed_blocks_count <= required,
            invariant
                self.wf(),
                keys_increasing(sizes@),
                keys_increasing(groups@),
                taken@.len() == groups@.len(),
                forall|g: int| 0 <= g < groups@.len() ==> (#[trigger] taken@[g] <==> obj_in_batches(batches@, groups@[g].0)),
                forall|x: int| 0 <= x < groups@.len() ==> frees_in_object(self.objects(), (#[trigger] groups@[x]).0, groups@[x].1@),
                batches_ok(self.objects(), batches@, sizes@),
                deleted_objects@ == deleted_by(batches@),
                freed_blocks_count == sat_u64(plan_frees(batches@)),
                freed_blocks_bytes == sat_u64(plan_bytes(batches@)),
                plan_frees(batches@) >= 0,
                plan_bytes(batches@) >= 0,
                forall|k: int| 0 <= k < batches@.len() - 1
                    ==> sat_u64(plan_frees(#[trigger] batches@.take(k + 1))) <= required,
                0 <= c <= order@.len(),
                order@.len() == groups@.len(),
                forall|i: int| 0 <= i < order@.len() ==> crate::sorted::has_key(groups@, (#[trigger] order@[i]).1),
                batches@.len() == 0 ==> c == 0,
                starts.len() == batches@.len(),
                forall|k: int| 0 <= k < starts.len() ==> batch_is_run(batches@[k]@, sizes@, #[trigger] starts[k]),
                forall|k: int, l: int| 0 <= k < l < starts.len() ==> #[trigger] starts[l] + batches@[l]@.len() <= #[trigger] starts[k]
                    || starts[k] + batches@[k]@.len() <= starts[l],
                forall|k: int| 0 <= k < starts.len() ==> writing@.contains(sizes@[#[trigger] starts[k]].0),
                forall|k: int, j: int, g: int| 0 <= k < batches@.len() && 0 <= j < batches@[k]@.len() && 0 <= g < groups@.len()
                    && groups@[g].0 == (#[trigger] batches@[k]@[j]).obj.0 ==> #[trigger] taken@[g],
                firsts.len() == batches@.len(),
                forall|k: int| 0 <= k < firsts.len() ==> 0 <= #[trigger] firsts[k] < c,
                forall|k: int, l: int| 0 <= k < l < firsts.len() ==> #[trigger] firsts[k] < #[trigger] firsts[l],
                forall|k: int| 0 <= k < firsts.len() ==> order@[#[trigger] firsts[k]]
                    == rank_of(self.objects(), frees@, batches@[k]@[0].obj.0),
                forall|i: int, j: int| 0 <= i < j < order@.len() ==> ranks_before(#[trigger] order@[i], #[trigger] order@[j]),
                forall|i: int| 0 <= i < order@.len() ==> rank_entry(groups@, #[trigger] order@[i]),
                forall|x: int| 0 <= x < groups@.len() ==> (#[trigger] groups@[x]).1@ == frees_in(self.objects(), frees@, groups@[x].0),
                batches@.len() == 0 ==> forall|x: int| 0 <= x < taken@.len() ==> !(#[trigger] taken@[x]),
                forall|x: int| 0 <= x < groups@.len() ==> crate::sorted::has_key(sizes@, (#[trigger] groups@[x]).0),
                forall|j: int| 0 <= j < frees@.len() ==> !outside_objects(self.objects(), (#[trigger] frees@[j]).block.0),
                !has_duplicate(frees@),
                forall|j: int, o: u64| 0 <= j < frees@.len() && #[trigger] in_object(self.objects(), o, frees@[j].block.0)
                    ==> crate::sorted::has_key(sizes@, o),
            ensures
                starts.len() == batches@.len(),
                forall|k: int| 0 <= k < starts.len() ==> batch_is_run(batches@[k]@, sizes@, #[trigger] starts[k]),
                forall|k: int, l: int| 0 <= k < l < starts.len() ==> #[trigger] starts[l] + batches@[l]@.len() <= #[trigger] starts[k]
                    || starts[k] + batches@[k]@.len() <= starts[l],
                forall|i: int, j: int| 0 <= i < j < order@.len() ==> ranks_before(#[trigger] order@[i], #[trigger] order@[j]),
                firsts.len() == batches@.len(),
                forall|k: int| 0 <= k < firsts.len() ==> 0 <= #[trigger] firsts[k] < c,
                forall|k: int, l: int| 0 <= k < l < firsts.len() ==> #[trigger] firsts[k] < #[trigger] firsts[l],
                forall|k: int| 0 <= k < firsts.len() ==> order@[#[trigger] firsts[k]]
                    == rank_of(self.objects(), frees@, batches@[k]@[0].obj.0),
                order@.len() > 0 ==> batches@.len() > 0,
                batches_ok(self.objects(), batches@, sizes@),
                deleted_objects@ == deleted_by(batches@),
                freed_blocks_count == sat_u64(plan_frees(batches@)),
                freed_blocks_bytes == sat_u64(plan_bytes(batches@)),
                forall|k: int| 0 <= k < batches@.len() - 1
                    ==> sat_u64(plan_frees(#[trigger] batches@.take(k + 1))) <= required,
                taken@.len() == groups@.len(),
                forall|g: int| 0 <= g < groups@.len() ==> (#[trigger] taken@[g] <==> obj_in_batches(batches@, groups@[g].0)),
            decreases order@.len() - c,
        {
            let obj = order[c].1;
            assert(crate::sorted::has_key(groups@, order@[c as int].1));
            let ghost c0: int = c as int;
            c = c + 1;
            let gi = match find_key(&groups, obj) {
                Ok(x) => x,
                Err(_) => {
                    continue;
                },
            };
            if taken[gi] {
                continue;
            }
            let start = match find_key(sizes, obj) {
                Ok(x) => x,
                Err(_) => {
                    assert(groups@[gi as int].0 == obj);
                    assert(crate::sorted::has_key(sizes@, groups@[gi as int].0));
                    return Err(PlanError::UnknownObjectSize);
                },
            };
            proof {
                assert forall|k: int| 0 <= k < starts.len() implies start < #[trigger] starts[k]
                    || starts[k] + batches@[k]@.len() <= start by {
                    if starts[k] <= start < starts[k] + batches@[k]@.len() {
                        let j = start - starts[k];
                        assert(batches@[k]@[j].obj.0 == sizes@[start as int].0);
                        assert(groups@[gi as int].0 == obj);
                        assert(taken@[gi as int]);
                    }
                }
            }
            let mut batch: Vec<BatchObject> = Vec::new();
            let mut new_size: u64 = 0;
            assert(batch_frees(batch@) == 0 && batch_bytes(batch@) == 0);
            let mut t: usize = start;
            while t < sizes.len()
                invariant
                    self.wf(),
                    keys_increasing(groups@),
                    taken@.len() == groups@.len(),
                    forall|x: int| 0 <= x < groups@.len() ==> frees_in_object(self.objects(), (#[trigger] groups@[x]).0, groups@[x].1@),
                    start <= t <= sizes@.len(),
                    start < sizes@.len(),
                    t == start + batch@.len(),
                    batch_is_run(batch@, sizes@, start as int),
                    forall|j: int| 0 <= j < batch@.len() ==> frees_in_object(self.objects(),
                        (#[trigger] batch@[j]).obj.0, batch@[j].frees@),
                    new_size <= u32::MAX as u64,
                    t == start ==> new_size == 0,
                    new_size == projected_size(batch@),
                    freed_blocks_count == sat_u64(plan_frees(batches@) + batch_frees(batch@)),
                    freed_blocks_bytes == sat_u64(plan_bytes(batches@) + batch_bytes(batch@)),
                    plan_frees(batches@) >= 0,
                    plan_bytes(batches@) >= 0,
                    batch_frees(batch@) >= 0,
                    batch_bytes(batch@) >= 0,
                    batch@.len() > 1 ==> new_size <= MAX_BYTES_PER_OBJECT,
                    starts.len() == batches@.len(),
                    forall|k: int| 0 <= k < starts.len() ==> batch_is_run(batches@[k]@, sizes@, #[trigger] starts[k]),
                    forall|k: int| 0 <= k < starts.len() ==> writing@.contains(sizes@[#[trigger] starts[k]].0),
                    forall|k: int| 0 <= k < starts.len() ==> t <= #[trigger] starts[k] || starts[k] + batches@[k]@.len() <= start,
                    forall|k: int| 0 <= k < starts.len() ==> start < #[trigger] starts[k] || starts[k] + batches@[k]@.len() <= start,
                    forall|k: int, j: int, g: int| 0 <= k < batches@.len() && 0 <= j < batches@[k]@.len() && 0 <= g < groups@.len()
                        && groups@[g].0 == (#[trigger] batches@[k]@[j]).obj.0 ==> #[trigger] taken@[g],
                    forall|j: int, g: int| 0 <= j < batch@.len() && 0 <= g < groups@.len()
                        && groups@[g].0 == (#[trigger] batch@[j]).obj.0 ==> #[trigger] taken@[g],
                    keys_increasing(sizes@),
                    keys_increasing(groups@),
                    forall|g: int| 0 <= g < groups@.len() ==> (#[trigger] taken@[g] <==> obj_in_batches(batches@, groups@[g].0)
                        || exists|j: int| 0 <= j < batch@.len() && (#[trigger] batch@[j]).obj.0 == groups@[g].0),
                ensures
                    batch@.len() > 0,
                    forall|g: int| 0 <= g < groups@.len() ==> (#[trigger] taken@[g] <==> obj_in_batches(batches@, groups@[g].0)
                        || exists|j: int| 0 <= j < batch@.len() && (#[trigger] batch@[j]).obj.0 == groups@[g].0),
                decreases sizes@.len() - t,
            {
                let (later, later_size) = sizes[t];
                let mut found: Option<usize> = None;
                let mut bytes_freed: u64 = 0;
                let ghost taken0 = taken@;
                let ghost mut key_at: Option<int> = None;
                match find_key(&groups, later) {
                    Ok(x) => {
                        proof {
                            key_at = Some(x as int);
                        }
                        if !taken[x] {
                            found = Some(x);
                            bytes_freed = frees_bytes(&groups[x].1);
                        }
                    },
                    Err(_) => {},
                }
                let later_new = (later_size as u64).saturating_sub(bytes_freed);
                if t > start {
                    if contains_obj(&writing, later) {
                        break;
                    }
                    if new_size + later_new > MAX_BYTES_PER_OBJECT as u64 {
                        break;
                    }
                }
                proof {
                    assert forall|k: int| 0 <= k < starts.len() implies t + 1 <= #[trigger] starts[k]
                        || starts[k] + batches@[k]@.len() <= start by {
                        if t == starts[k] && !(starts[k] + batches@[k]@.len() <= start) {
                            assert(t > start);
                            assert(writing@.contains(sizes@[starts[k]].0));
                        }
                    }
                }
                new_size = new_size + later_new;
                let frees_of = match found {
                    Some(x) => {
                        taken.set(x, true);
                        assert(frees_in_object(self.objects(), groups@[x as int].0, groups@[x as int].1@));
                        copy_frees(&groups[x].1)
                    },
                    None => Vec::new(),
                };
                proof {
                    if found is None {
                        assert(frees_in_object(self.objects(), later, frees_of@));
                    }
                }
                freed_blocks_count = freed_blocks_count.saturating_add(frees_of.len() as u64);
                freed_blocks_bytes = freed_blocks_bytes.saturating_add(bytes_freed);
                let ghost b0 = batch@;
                assert(bytes_of(frees_of@) == bytes_freed);
                batch.push(BatchObject { obj: ObjectID(later), size: later_size, frees: frees_of });
                assert(batch@.drop_last() =~= b0);
                assert(batch@.last() == batch@[batch@.len() - 1]);
                proof {
                    assert forall|g: int| 0 <= g < groups@.len() implies (#[trigger] taken@[g] <==> obj_in_batches(batches@, groups@[g].0)
                        || exists|j: int| 0 <= j < batch@.len() && (#[trigger] batch@[j]).obj.0 == groups@[g].0) by {
                        let nbj = b0.len() as int;
                        assert(batch@[nbj].obj.0 == later);
                        let old_side = obj_in_batches(batches@, groups@[g].0)
                            || exists|j: int| 0 <= j < b0.len() && (#[trigger] b0[j]).obj.0 == groups@[g].0;
                        assert(taken0[g] <==> old_side);
                        if exists|j: int| 0 <= j < b0.len() && (#[trigger] b0[j]).obj.0 == groups@[g].0 {
                            let j = choose|j: int| 0 <= j < b0.len() && (#[trigger] b0[j]).obj.0 == groups@[g].0;
                            assert(batch@[j] == b0[j]);
                        }
                        if exists|j: int| 0 <= j < batch@.len() && (#[trigger] batch@[j]).obj.0 == groups@[g].0 {
                            let j = choose|j: int| 0 <= j < batch@.len() && (#[trigger] batch@[j]).obj.0 == groups@[g].0;
                            if j < b0.len() {
                                assert(batch@[j] == b0[j]);
                            } else {
                                assert(groups@[g].0 == later);
                                assert(key_at is Some);
                                let x = key_at->Some_0;
                                assert(groups@[x].0 == later);
                                assert(g == x) by {
                                    if g < x { assert(groups@[g].0 < groups@[x].0); }
                                    if g > x { assert(groups@[x].0 < groups@[g].0); }
                                }
                            }
                        }
                        if groups@[g].0 == later {
                            if key_at is None {
                                assert(crate::sorted::has_key(groups@, later));
                            }
                        }
                    }
                    assert forall|j: int| 0 <= j < batch@.len() implies (#[trigger] batch@[j]).obj.0 == sizes@[start + j].0
                        && batch@[j].size == sizes@[start + j].1 by {
                        if j < b0.len() {
                            assert(batch@[j] == b0[j]);
                        }
                    }
                    assert forall|j: int| 0 <= j < batch@.len() implies frees_in_object(self.objects(),
                        (#[trigger] batch@[j]).obj.0, batch@[j].frees@) by {
                        if j < b0.len() {
                            assert(batch@[j] == b0[j]);
                        }
                    }
                }
                t = t + 1;
            }
            let ghost d0 = deleted_objects@;
            let mut j: usize = 1;
            while j < batch.len()
                invariant
                    1 <= j,
                    batch@.len() > 0 ==> j <= batch@.len()
                        && deleted_objects@ == d0 + batch@.subrange(1, j as int).map_values(|o: BatchObject| o.obj),
                    batch@.len() == 0 ==> deleted_objects@ == d0,
                    forall|g: int| 0 <= g < groups@.len() ==> (#[trigger] taken@[g] <==> obj_in_batches(batches@, groups@[g].0)
                        || exists|jj: int| 0 <= jj < batch@.len() && (#[trigger] batch@[jj]).obj.0 == groups@[g].0),
                decreases batch@.len() - j,
            {
                deleted_objects.push(batch[j].obj);
                assert(deleted_objects@ =~= d0 + batch@.subrange(1, j + 1).map_values(|o: BatchObject| o.obj));
                j = j + 1;
            }
            if batch.len() > 0 {
                assert(batch@.subrange(1, batch@.len() as int) =~= batch@.skip(1));
            }
            let ghost taken_snap = taken@;
            assert(forall|g: int| 0 <= g < groups@.len() ==> (#[trigger] taken_snap[g] <==> obj_in_batches(batches@, groups@[g].0)
                || exists|j: int| 0 <= j < batch@.len() && (#[trigger] batch@[j]).obj.0 == groups@[g].0));
            let ghost w0 = writing@;
            writing.push(obj);
            proof {
                assert(writing@ == w0.push(obj));
                assert(writing@[w0.len() as int] == obj);
                assert forall|k: int| 0 <= k < starts.len() implies writing@.contains(sizes@[#[trigger] starts[k]].0) by {
                    let y = choose|y: int| 0 <= y < w0.len() && w0[y] == sizes@[starts[k]].0;
                    assert(writing@[y] == w0[y]);
                }
                assert(batch@[0].obj.0 == sizes@[start as int].0);
            }
            if batch.len() > 0 {
                let ghost bs0 = batches@;
                let ghost bv = batch@;
                proof {
                    lemma_batches_push(self.objects(), bs0, batch@, sizes@, start as int);
                }
                let ghost bvec = batch;
                batches.push(batch);
                proof {
                    assert(batches@ == bs0.push(bvec));
                    assert forall|g: int| 0 <= g < groups@.len() implies (#[trigger] taken@[g] <==> obj_in_batches(batches@, groups@[g].0)) by {
                        lemma_obj_in_batches_push(bs0, bvec, groups@[g].0);
                        assert(taken_snap[g] <==> obj_in_batches(bs0, groups@[g].0)
                            || exists|j: int| 0 <= j < bvec@.len() && (#[trigger] bvec@[j]).obj.0 == groups@[g].0);
                        assert(taken@[g] == taken_snap[g]);
                    }
                }
                proof {
                    let s0 = starts;
                    starts = starts.push(start as int);
                    assert forall|k: int| 0 <= k < starts.len() implies batch_is_run(batches@[k]@, sizes@, #[trigger] starts[k]) by {
                        if k < s0.len() {
                            assert(batches@[k] == bs0[k]);
                            assert(starts[k] == s0[k]);
                        }
                    }
                    assert forall|k: int, l: int| 0 <= k < l < starts.len() implies #[trigger] starts[l] + batches@[l]@.len() <= #[trigger] starts[k]
                        || starts[k] + batches@[k]@.len() <= starts[l] by {
                        assert(starts[k] == s0[k]);
                        assert(batches@[k] == bs0[k]);
                        if l < s0.len() {
                            assert(starts[l] == s0[l]);
                            assert(batches@[l] == bs0[l]);
                        }
                    }
                    assert forall|k: int| 0 <= k < starts.len() implies writing@.contains(sizes@[#[trigger] starts[k]].0) by {
                        if k < s0.len() {
                            assert(starts[k] == s0[k]);
                        } else {
                            assert(starts[k] == start as int);
                            assert(sizes@[start as int].0 == obj);
                            assert(writing@[writing@.len() - 1] == obj);
                            assert(writing@.contains(obj));
                        }
                    }
                    assert forall|k: int, j: int, g: int| 0 <= k < batches@.len() && 0 <= j < batches@[k]@.len() && 0 <= g < groups@.len()
                        && groups@[g].0 == (#[trigger] batches@[k]@[j]).obj.0 implies #[trigger] taken@[g] by {
                        if k < bs0.len() {
                            assert(batches@[k] == bs0[k]);
                        }
                    }
                    let x = choose|x: int| 0 <= x < groups@.len() && order@[c0] == (#[trigger] groups@[x].1.len(), groups@[x].0);
                    assert(bv[0].obj.0 == sizes@[start as int].0);
                    assert(order@[c0] == rank_of(self.objects(), frees@, bv[0].obj.0));
                    let f0 = firsts;
                    firsts = firsts.push(c0);
                    assert forall|k: int| 0 <= k < firsts.len() implies order@[#[trigger] firsts[k]]
                        == rank_of(self.objects(), frees@, batches@[k]@[0].obj.0) by {
                        if k < f0.len() {
                            assert(firsts[k] == f0[k]);
                            assert(batches@[k] == bs0[k]);
                        }
                    }
                }
                assert(batches@ == bs0.push(batches@.last()));
                assert(batches@.drop_last() =~= bs0);
                assert(batches@.last()@ == bv);
                assert(batches@.take(bs0.len() as int) =~= bs0);
                assert forall|k: int| 0 <= k < batches@.len() - 1
                    implies sat_u64(plan_frees(#[trigger] batches@.take(k + 1))) <= required by {
                    if k < bs0.len() - 1 {
                        assert(batches@.take(k + 1) =~= bs0.take(k + 1));
                    }
                }
            }
            if freed_blocks_count > required {
                break;
            }
        }
        proof {
            assert forall|k: int, l: int, i: int, j: int| 0 <= k < l < batches@.len()
                && 0 <= i < batches@[k]@.len() && 0 <= j < batches@[l]@.len()
                implies (#[trigger] batches@[k]@[i]).obj != (#[trigger] batches@[l]@[j]).obj by {
                assert(batch_is_run(batches@[k]@, sizes@, starts[k]));
                assert(batch_is_run(batches@[l]@, sizes@, starts[l]));
                assert(batches@[k]@[i].obj.0 == sizes@[starts[k] + i].0);
                assert(batches@[l]@[j].obj.0 == sizes@[starts[l] + j].0);
                assert(starts[l] + batches@[l]@.len() <= starts[k] || starts[k] + batches@[k]@.len() <= starts[l]);
            }
            assert forall|k: int, l: int| 0 <= k < l < batches@.len() implies ranks_before(
                rank_of(self.objects(), frees@, (#[trigger] batches@[k])@[0].obj.0),
                rank_of(self.objects(), frees@, (#[trigger] batches@[l])@[0].obj.0)) by {
                assert(firsts[k] < firsts[l]);
                assert(order@[firsts[k]] == rank_of(self.objects(), frees@, batches@[k]@[0].obj.0));
                assert(order@[firsts[l]] == rank_of(self.objects(), frees@, batches@[l]@[0].obj.0));
                assert(ranks_before(order@[firsts[k]], order@[firsts[l]]));
            }
        }
        let mut remaining_frees: Vec<PendingFreesLogEntry> = Vec::new();
        let mut g: usize = 0;
        while g < groups.len()
            invariant
                0 <= g <= groups@.len(),
                taken@.len() == groups@.len(),
                forall|f: PendingFreesLogEntry| remaining_frees@.contains(f) <==> exists|x: int| 0 <= x < g && !taken@[x]
                    && (#[trigger] groups@[x]).1@.contains(f),
            decreases groups@.len() - g,
        {
            if !taken[g] {
                let ghost r0 = remaining_frees@;
                let mut copy = copy_frees(&groups[g].1);
                let ghost c = copy@;
                remaining_frees.append(&mut copy);
                proof {
                    assert(remaining_frees@ == r0 + c);
                    assert forall|f: PendingFreesLogEntry| remaining_frees@.contains(f) <==> exists|x: int| 0 <= x < g + 1 && !taken@[x]
                        && (#[trigger] groups@[x]).1@.contains(f) by {
                        if remaining_frees@.contains(f) {
                            let y = choose|y: int| 0 <= y < remaining_frees@.len() && remaining_frees@[y] == f;
                            if y >= r0.len() {
                                assert(c[y - r0.len()] == f);
                                assert(groups@[g as int].1@.contains(f));
                            } else {
                                assert(r0[y] == f);
                                assert(r0.contains(f));
                            }
                        }
                        if exists|x: int| 0 <= x < g + 1 && !taken@[x] && (#[trigger] groups@[x]).1@.contains(f) {
                            let x = choose|x: int| 0 <= x < g + 1 && !taken@[x] && (#[trigger] groups@[x]).1@.contains(f);
                            if x == g {
                                let y = choose|y: int| 0 <= y < c.len() && c[y] == f;
                                assert(remaining_frees@[r0.len() + y] == f);
                            } else {
                                assert(r0.contains(f));
                                let y = choose|y: int| 0 <= y < r0.len() && r0[y] == f;
                                assert(remaining_frees@[y] == f);
                            }
                        }
                    }
                }
            }
            g = g + 1;
        }
        proof {
            let objs = self.objects();
            crate::laws::lemma_pool_objects_monotonic(self);
            assert forall|x: int| 0 <= x < remaining_frees@.len() implies frees@.contains(#[trigger] remaining_frees@[x])
                && !in_some_batch(objs, batches@, remaining_frees@[x].block.0) by {
                let f = remaining_frees@[x];
                assert(remaining_frees@.contains(f));
                let g2 = choose|g2: int| 0 <= g2 < groups@.len() && !taken@[g2] && (#[trigger] groups@[g2]).1@.contains(f);
                lemma_frees_in_elems(objs, frees@, groups@[g2].0);
                let y = choose|y: int| 0 <= y < groups@[g2].1@.len() && groups@[g2].1@[y] == f;
                assert(groups@[g2].1@[y] == frees_in(objs, frees@, groups@[g2].0)[y]);
                let z = choose|z: int| 0 <= z < frees@.len() && frees@[z] == frees_in(objs, frees@, groups@[g2].0)[y];
                assert(frees@[z] == f);
                if in_some_batch(objs, batches@, f.block.0) {
                    let (k, j) = choose|k: int, j: int| 0 <= k < batches@.len() && 0 <= j < batches@[k]@.len()
                        && #[trigger] in_object(objs, batches@[k]@[j].obj.0, f.block.0);
                    lemma_owner_unique(objs, batches@[k]@[j].obj.0, groups@[g2].0, f.block.0);
                    assert(obj_in_batches(batches@, groups@[g2].0));
                }
            }
            assert forall|j: int| 0 <= j < frees@.len() implies in_some_batch(objs, batches@, (#[trigger] frees@[j]).block.0)
                || remaining_frees@.contains(frees@[j]) by {
                let f = frees@[j];
                assert(grouped(groups@, objs, f.block.0));
                let g2 = choose|g2: int| 0 <= g2 < groups@.len() && in_object(objs, #[trigger] groups@[g2].0, f.block.0);
                lemma_frees_in_has_at(objs, frees@, j, groups@[g2].0);
                assert(groups@[g2].1@.contains(f));
                if taken@[g2] {
                    assert(obj_in_batches(batches@, groups@[g2].0));
                    let (k, jj) = choose|k: int, jj: int| 0 <= k < batches@.len() && 0 <= jj < batches@[k]@.len()
                        && (#[trigger] batches@[k]@[jj]).obj.0 == groups@[g2].0;
                    assert(in_object(objs, batches@[k]@[jj].obj.0, f.block.0));
                } else {
                    assert(remaining_frees@.contains(f));
                }
            }
        }
        Ok(ReclaimPlan { batches, remaining_frees, deleted_objects, freed_blocks_count, freed_blocks_bytes })
    }
}
} // verus!
