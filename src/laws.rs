//! Laws that relate the pool's structures and operations.
use vstd::prelude::*;
use crate::data_object::{DataObjectPhys, total_len};
use crate::logs::{allocs_paired, alloc_pair, ObjectSizeLogEntry, StorageObjectLogEntry, apply_size_entry, apply_storage_entry,
    replay_size_log, replay_storage_log};
use crate::object_block_map::{ObjectBlockMap, may_append, monotone};
use crate::pool::PoolSyncingState;
use crate::reclaim::{apply_frees_spec, consolidated_blocks};
use crate::logs::PendingFreesLogEntry;
use crate::sorted::{has_key, keys_increasing, lemma_pairs_to_map, lemma_remove_key_map, pairs_to_map};

verus! {

/// A well-formed data object's size is the sum of its block lengths, every
/// block lies in [min_block, next_block), and min_txg <= max_txg.
pub proof fn lemma_data_object_invariant(d: DataObjectPhys)
    requires
        d.wf(),
    ensures
        d.blocks_size == total_len(d.blocks_view()),
        forall|i: int| 0 <= i < d.blocks_view().len() ==> d.min_block.0 <= #[trigger] d.blocks_view()[i].0,
        forall|i: int| 0 <= i < d.blocks_view().len() ==> #[trigger] d.blocks_view()[i].0 < d.next_block.0,
        d.min_txg.0 <= d.max_txg.0,
{
}

/// The object/first-block map is strictly monotonic: a larger object has a
/// larger first block.
pub proof fn lemma_object_block_map_monotonic(m: &ObjectBlockMap, i: int, j: int)
    requires
        m.wf(),
        0 <= i < j < m@.len(),
    ensures
        m@[i].0 < m@[j].0,
        m@[i].1 < m@[j].1,
{
}

/// The pool's objects are strictly monotonic in both object and first block.
pub proof fn lemma_pool_objects_monotonic(p: &PoolSyncingState)
    requires
        p.wf(),
    ensures
        monotone(p.objects()),
{
    lemma_storage_log_yields_objects(p);
    crate::logs::lemma_replay_storage_monotone(p.storage_log_spec());
}

/// Replaying the storage-object log (each `Alloc` inserts, each `Free`
/// removes) yields exactly the pool's object/first-block map.
pub proof fn lemma_storage_log_yields_objects(p: &PoolSyncingState)
    requires
        p.wf(),
    ensures
        replay_storage_log(p.storage_log_spec()) == Some(p.objects()),
{
    p.lemma_wf_replay();
}

/// Between TXGs, the committed storage-object log replays to exactly the
/// pool's object/first-block map.
pub proof fn lemma_committed_log_yields_objects(p: &PoolSyncingState)
    requires
        p.wf(),
        p.syncing_txg_spec() is None,
    ensures
        replay_storage_log(p.committed_storage_log()) == Some(p.objects()),
{
    p.lemma_wf_replay();
}

/// The object-size log keeps describing exactly the objects of the
/// storage-object log when both get the entries the pool appends together:
/// `Alloc` with `Exists` for a new object, `Free` with `Freed` for a deleted
/// one.
pub proof fn lemma_size_log_tracks_objects(
    storage: Seq<StorageObjectLogEntry>,
    sizes: Seq<ObjectSizeLogEntry>,
    e: StorageObjectLogEntry,
    f: ObjectSizeLogEntry,
)
    requires
        replay_storage_log(storage) is Some,
        replay_size_log(sizes) is Some,
        replay_size_log(sizes).unwrap().dom() == pairs_to_map(replay_storage_log(storage).unwrap()).dom(),
        match (e, f) {
            (StorageObjectLogEntry::Alloc { obj, first_possible_block }, ObjectSizeLogEntry::Exists { obj: o2, .. }) =>
                obj == o2 && may_append(replay_storage_log(storage).unwrap(), obj.0, first_possible_block.0),
            (StorageObjectLogEntry::Free { obj }, ObjectSizeLogEntry::Freed { obj: o2 }) =>
                obj == o2 && has_key(replay_storage_log(storage).unwrap(), obj.0),
            _ => false,
        },
    ensures
        replay_storage_log(storage.push(e)) is Some,
        replay_size_log(sizes.push(f)) is Some,
        replay_size_log(sizes.push(f)).unwrap().dom() == pairs_to_map(replay_storage_log(storage.push(e)).unwrap()).dom(),
{
    let s = replay_storage_log(storage).unwrap();
    let m = replay_size_log(sizes).unwrap();
    assert(storage.push(e).drop_last() =~= storage);
    assert(sizes.push(f).drop_last() =~= sizes);
    crate::logs::lemma_replay_storage_monotone(storage);
    assert(keys_increasing(s));
    lemma_pairs_to_map(s);
    match e {
        StorageObjectLogEntry::Alloc { obj, first_possible_block } => {
            assert(replay_storage_log(storage.push(e)) == Some(s.push((obj.0, first_possible_block.0))));
            assert(s.push((obj.0, first_possible_block.0)).drop_last() =~= s);
            assert(replay_size_log(sizes.push(f)).unwrap().dom() =~= pairs_to_map(s.push((obj.0, first_possible_block.0))).dom());
        },
        StorageObjectLogEntry::Free { obj } => {
            lemma_remove_key_map(s, obj.0);
            assert(pairs_to_map(s).contains_key(obj.0));
            assert(replay_size_log(sizes.push(f)).unwrap().dom() =~= pairs_to_map(crate::sorted::remove_key(s, obj.0)).dom());
        },
    }
}

/// Committing a TXG whose storage-object and object-size entries record the
/// same new objects, one for one (as `end_txg` hands out for a TXG without
/// reclaim or condensing), keeps the object-size log describing exactly the
/// objects that the storage-object log describes.
pub proof fn lemma_paired_allocs_keep_sizes(
    storage: Seq<StorageObjectLogEntry>,
    sizes: Seq<ObjectSizeLogEntry>,
    ss: Seq<StorageObjectLogEntry>,
    zs: Seq<ObjectSizeLogEntry>,
)
    requires
        replay_storage_log(storage) is Some,
        replay_size_log(sizes) is Some,
        replay_size_log(sizes).unwrap().dom() == pairs_to_map(replay_storage_log(storage).unwrap()).dom(),
        allocs_paired(ss, zs),
        replay_storage_log(storage + ss) is Some,
    ensures
        replay_size_log(sizes + zs) is Some,
        replay_size_log(sizes + zs).unwrap().dom() == pairs_to_map(replay_storage_log(storage + ss).unwrap()).dom(),
    decreases ss.len(),
{
    if ss.len() == 0 {
        assert(storage + ss =~= storage);
        assert(sizes + zs =~= sizes);
    } else {
        let ss0 = ss.drop_last();
        let zs0 = zs.drop_last();
        let all = storage + ss;
        assert(all.take(all.len() - 1) =~= storage + ss0);
        if replay_storage_log(storage + ss0) is None {
            crate::logs::lemma_replay_none_extends(all, all.len() - 1);
        }
        assert forall|i: int| 0 <= i < ss0.len() implies alloc_pair(#[trigger] ss0[i], zs0[i]) by {
            assert(alloc_pair(ss[i], zs[i]));
        }
        lemma_paired_allocs_keep_sizes(storage, sizes, ss0, zs0);
        let e = ss.last();
        let f = zs.last();
        assert(alloc_pair(ss[ss.len() - 1], zs[zs.len() - 1]));
        assert(all.drop_last() =~= storage + ss0);
        assert(all.last() == e);
        assert((storage + ss0).push(e) =~= all);
        assert((sizes + zs0).push(f) =~= sizes + zs);
        lemma_size_log_tracks_objects(storage + ss0, sizes + zs0, e, f);
    }
}

/// No block of `frees` remains after applying them.
pub proof fn lemma_apply_frees_removes(m: Map<u64, Seq<u8>>, frees: Seq<PendingFreesLogEntry>)
    requires
        apply_frees_spec(m, frees) is Some,
    ensures
        forall|j: int| 0 <= j < frees.len() ==> !apply_frees_spec(m, frees).unwrap().contains_key(#[trigger] frees[j].block.0),
        forall|k: u64| #[trigger] apply_frees_spec(m, frees).unwrap().contains_key(k) ==> m.contains_key(k)
            && apply_frees_spec(m, frees).unwrap()[k] == m[k],
    decreases frees.len(),
{
    if frees.len() > 0 {
        let d = frees.drop_last();
        lemma_apply_frees_removes(m, d);
        assert forall|j: int| 0 <= j < frees.len() implies !apply_frees_spec(m, frees).unwrap().contains_key(#[trigger] frees[j].block.0) by {
            if j < d.len() {
                assert(frees[j] == d[j]);
            }
        }
    }
}

/// Applying frees to a map that holds none of their blocks changes nothing.
pub proof fn lemma_apply_frees_absent(m: Map<u64, Seq<u8>>, frees: Seq<PendingFreesLogEntry>)
    requires
        forall|j: int| 0 <= j < frees.len() ==> !m.contains_key(#[trigger] frees[j].block.0),
    ensures
        apply_frees_spec(m, frees) == Some(m),
    decreases frees.len(),
{
    if frees.len() > 0 {
        let d = frees.drop_last();
        assert forall|j: int| 0 <= j < d.len() implies !m.contains_key(#[trigger] d[j].block.0) by {
            assert(d[j] == frees[j]);
        }
        lemma_apply_frees_absent(m, d);
        assert(frees.last() == frees[frees.len() - 1]);
    }
}

/// Reclaim idempotence, for the frees: applying an object's frees again,
/// after an interrupted pass already applied them, changes nothing.
pub proof fn lemma_apply_frees_idempotent(m: Map<u64, Seq<u8>>, frees: Seq<PendingFreesLogEntry>)
    requires
        apply_frees_spec(m, frees) is Some,
    ensures
        apply_frees_spec(apply_frees_spec(m, frees).unwrap(), frees) == apply_frees_spec(m, frees),
{
    lemma_apply_frees_removes(m, frees);
    lemma_apply_frees_absent(apply_frees_spec(m, frees).unwrap(), frees);
}

/// Reclaim idempotence, for the merge: merging an object's blocks again into
/// a target that already took them changes nothing.
pub proof fn lemma_merge_idempotent(target: Map<u64, Seq<u8>>, moved: Map<u64, Seq<u8>>)
    ensures
        moved.union_prefer_right(moved.union_prefer_right(target)) == moved.union_prefer_right(target),
{
    assert(moved.union_prefer_right(moved.union_prefer_right(target)) =~= moved.union_prefer_right(target));
}


/// No object of a batch holds a block that another object of the batch frees
/// (frees belong to the object that holds their block).
pub open spec fn frees_disjoint(objs: Seq<(DataObjectPhys, Vec<PendingFreesLogEntry>)>) -> bool {
    forall|j: int, k: int, x: int| 0 <= j < objs.len() && 0 <= k < objs.len() && j != k && 0 <= x < objs[j].1@.len()
        ==> !(#[trigger] objs[k].0.block_map()).contains_key((#[trigger] objs[j].1@[x]).block.0)
}

/// What consolidating a prefix of a batch keeps: each object's blocks after
/// its frees, and nothing else.
proof fn lemma_consolidated_parts(objs: Seq<(DataObjectPhys, Vec<PendingFreesLogEntry>)>)
    requires
        consolidated_blocks(objs) is Some,
    ensures
        forall|i: int| 0 <= i < objs.len() ==> (#[trigger] apply_frees_spec(objs[i].0.block_map(), objs[i].1@)) is Some,
        forall|i: int, b: u64| 0 <= i < objs.len() && #[trigger] apply_frees_spec(objs[i].0.block_map(), objs[i].1@).unwrap().contains_key(b)
            ==> consolidated_blocks(objs).unwrap().contains_key(b),
        forall|b: u64| #[trigger] consolidated_blocks(objs).unwrap().contains_key(b) ==> exists|i: int| 0 <= i < objs.len()
            && (#[trigger] apply_frees_spec(objs[i].0.block_map(), objs[i].1@)).unwrap().contains_key(b),
    decreases objs.len(),
{
    if objs.len() > 0 {
        let d = objs.drop_last();
        lemma_consolidated_parts(d);
        let n = objs.len() - 1;
        assert forall|i: int| 0 <= i < objs.len() implies (#[trigger] apply_frees_spec(objs[i].0.block_map(), objs[i].1@)) is Some by {
            if i < n {
                assert(objs[i] == d[i]);
            }
        }
        assert forall|i: int, b: u64| 0 <= i < objs.len() && #[trigger] apply_frees_spec(objs[i].0.block_map(), objs[i].1@).unwrap().contains_key(b)
            implies consolidated_blocks(objs).unwrap().contains_key(b) by {
            if i < n {
                assert(objs[i] == d[i]);
            }
        }
        assert forall|b: u64| #[trigger] consolidated_blocks(objs).unwrap().contains_key(b) implies exists|i: int| 0 <= i < objs.len()
            && (#[trigger] apply_frees_spec(objs[i].0.block_map(), objs[i].1@)).unwrap().contains_key(b) by {
            if consolidated_blocks(d).unwrap().contains_key(b) {
                let i = choose|i: int| 0 <= i < d.len() && (#[trigger] apply_frees_spec(d[i].0.block_map(), d[i].1@)).unwrap().contains_key(b);
                assert(objs[i] == d[i]);
            } else {
                assert(apply_frees_spec(objs[n].0.block_map(), objs[n].1@).unwrap().contains_key(b));
            }
        }
    }
}

/// Consolidating the rest of a batch into a target that already holds the
/// batch's result changes nothing.
proof fn lemma_rerun_prefix(objs: Seq<(DataObjectPhys, Vec<PendingFreesLogEntry>)>, again: Seq<(DataObjectPhys, Vec<PendingFreesLogEntry>)>, n: int)
    requires
        consolidated_blocks(objs) is Some,
        1 <= n <= objs.len(),
        again.len() == objs.len(),
        forall|i: int| 1 <= i < objs.len() ==> again[i] == objs[i],
        consolidated_blocks(again.take(1)) == consolidated_blocks(objs),
    ensures
        consolidated_blocks(again.take(n)) == consolidated_blocks(objs),
    decreases n,
{
    if n > 1 {
        lemma_rerun_prefix(objs, again, n - 1);
        lemma_consolidated_parts(objs);
        let t = again.take(n);
        assert(t.drop_last() =~= again.take(n - 1));
        assert(t.last() == objs[n - 1]);
        let r = consolidated_blocks(objs).unwrap();
        let m = apply_frees_spec(objs[n - 1].0.block_map(), objs[n - 1].1@).unwrap();
        assert(m.union_prefer_right(r) =~= r);
    }
}

/// Reclaim idempotence for a whole batch: when a pass was interrupted after
/// the batch's target was rewritten, running the batch again with the
/// rewritten target in place of the old one yields the same blocks.
pub proof fn lemma_reclaim_rerun(objs: Seq<(DataObjectPhys, Vec<PendingFreesLogEntry>)>, rewritten: DataObjectPhys)
    requires
        objs.len() > 0,
        consolidated_blocks(objs) is Some,
        frees_disjoint(objs),
        rewritten.block_map() == consolidated_blocks(objs).unwrap(),
    ensures
        consolidated_blocks(objs.update(0, (rewritten, objs[0].1))) == consolidated_blocks(objs),
{
    let again = objs.update(0, (rewritten, objs[0].1));
    let r = consolidated_blocks(objs).unwrap();
    let f0 = objs[0].1@;
    lemma_consolidated_parts(objs);
    // no block that the target frees is left in the result
    assert forall|x: int| 0 <= x < f0.len() implies !r.contains_key(#[trigger] f0[x].block.0) by {
        let b = f0[x].block.0;
        if r.contains_key(b) {
            let i = choose|i: int| 0 <= i < objs.len() && (#[trigger] apply_frees_spec(objs[i].0.block_map(), objs[i].1@)).unwrap().contains_key(b);
            lemma_apply_frees_removes(objs[i].0.block_map(), objs[i].1@);
            if i == 0 {
                assert(objs[0].1@[x] == f0[x]);
            } else {
                assert(!objs[i].0.block_map().contains_key(objs[0].1@[x].block.0));
            }
        }
    }
    lemma_apply_frees_absent(r, f0);
    let t1 = again.take(1);
    assert(t1.drop_last() =~= Seq::<(DataObjectPhys, Vec<PendingFreesLogEntry>)>::empty());
    assert(t1.last() == (rewritten, objs[0].1));
    assert(r.union_prefer_right(Map::<u64, Seq<u8>>::empty()) =~= r);
    assert(consolidated_blocks(t1.drop_last()) == Some(Map::<u64, Seq<u8>>::empty()));
    assert(t1.last().0.block_map() == r);
    assert(t1.last().1@ == f0);
    assert(apply_frees_spec(t1.last().0.block_map(), t1.last().1@) == Some(r));
    assert(consolidated_blocks(t1) == Some(r));
    lemma_rerun_prefix(objs, again, objs.len() as int);
    assert(again.take(objs.len() as int) =~= again);
}
} // verus!
