use zfs_object_agent::data_object::DataObjectPhys;
use zfs_object_agent::ids::{BlockID, ObjectID, PoolGUID, TXG};
use zfs_object_agent::logs::{get_object_sizes, replay_storage_object_log, ObjectSizeLogEntry, PendingFreesLogEntry, ReplayError, StorageObjectLogEntry};
use zfs_object_agent::pool::{
    ObjectWrite, OpenError, PoolProp, PoolStatsPhys, PoolSyncingState, ProtocolError, ReclaimOutcome, ResumeError, WriteOutcome,
};
use zfs_object_agent::reclaim::{reclaim_frees_object, PlanError};

const KIB16: usize = 16 * 1024;

fn block_data(id: u64) -> Vec<u8> {
    vec![(id % 251) as u8; KIB16]
}

fn objects(p: &PoolSyncingState) -> Vec<(u64, u64)> {
    (0..p.objects_len()).map(|i| {
        let (o, b) = p.object_entry(i);
        (o.0, b.0)
    }).collect()
}

fn block_ids(w: &ObjectWrite) -> Vec<u64> {
    w.phys.blocks.iter().map(|(b, _)| b.0).collect()
}

/// One TXG writing blocks 0..=99 of 16 KiB each.
fn pack_hundred() -> (PoolSyncingState, Vec<ObjectWrite>) {
    let mut p = PoolSyncingState::new_empty(PoolGUID(1));
    p.begin_txg(TXG(1)).unwrap();
    for id in 0..100u64 {
        assert_eq!(p.write_block(BlockID(id), block_data(id)), Ok(WriteOutcome::Queued));
    }
    p.initiate_flush(BlockID(99));
    let puts = p.take_puts();
    let commit = p.end_txg(0, 100, None).unwrap();
    assert_eq!(commit.txg, TXG(1));
    (p, puts)
}

#[test]
fn empty_pool_opens_fresh() {
    let p = PoolSyncingState::new_empty(PoolGUID(1));
    assert_eq!(p.last_txg(), TXG(0));
    assert_eq!(p.next_block(), BlockID(0));
    assert_eq!(p.syncing_txg(), None);
    assert_eq!(p.objects_len(), 0);
    assert_eq!(p.get_prop(PoolProp::Objects), 0);
}

#[test]
fn single_block_txg() {
    let mut p = PoolSyncingState::new_empty(PoolGUID(1));
    p.begin_txg(TXG(1)).unwrap();
    assert_eq!(p.write_block(BlockID(0), b"hello".to_vec()), Ok(WriteOutcome::Queued));
    p.initiate_flush(BlockID(0));
    let puts = p.take_puts();
    assert_eq!(puts.len(), 1);
    assert_eq!(puts[0].waiters, vec![BlockID(0)]);
    let commit = p.end_txg(0, 100, None).unwrap();
    assert_eq!(commit.txg, TXG(1));
    assert_eq!(commit.stats.blocks_count, 1);
    assert_eq!(p.last_txg(), TXG(1));
    // read back block 0
    let obj = p.block_to_obj(BlockID(0)).unwrap();
    assert_eq!(obj, puts[0].phys.object);
    assert_eq!(puts[0].phys.get_block(BlockID(0)), Some(&b"hello".to_vec()));
    // reopen from what was committed
    let reopened = PoolSyncingState::open(
        PoolGUID(1),
        commit.txg,
        commit.next_block,
        commit.stats,
        &commit.storage_object_log.entries,
    )
    .unwrap();
    assert_eq!(reopened.last_txg(), TXG(1));
    assert_eq!(reopened.stats().blocks_count, 1);
    assert_eq!(reopened.block_to_obj(BlockID(0)), Some(obj));
}

#[test]
fn pack_multiple_small_blocks() {
    let (p, puts) = pack_hundred();
    assert_eq!(puts.len(), 2);
    assert_eq!(objects(&p), vec![(1, 0), (2, 64)]);
    assert_eq!(block_ids(&puts[0]), (0..64).collect::<Vec<u64>>());
    assert_eq!(block_ids(&puts[1]), (64..100).collect::<Vec<u64>>());
    assert_eq!(puts[0].phys.blocks_size as usize, 64 * KIB16);
    assert_eq!(p.stats().blocks_count, 100);
    assert_eq!(p.stats().objects_count, 2);
    assert_eq!(p.next_block(), BlockID(100));
}

#[test]
fn free_and_reclaim() {
    let (mut p, puts) = pack_hundred();
    p.begin_txg(TXG(2)).unwrap();
    let mut frees = Vec::new();
    for b in 0..=50u64 {
        p.free_block(BlockID(b), KIB16 as u32).unwrap();
        frees.push(PendingFreesLogEntry { block: BlockID(b), size: KIB16 as u32 });
    }
    assert_eq!(p.stats().pending_frees_count, 51);
    assert_eq!(p.get_prop(PoolProp::Freeing), 51 * KIB16 as u64);
    let commit = p.end_txg(0, 100, None).unwrap();
    assert_eq!(commit.pending_frees_log.entries.len(), 51);
    // fewer than the minimum of pending frees: not due by itself
    assert!(!commit.start_reclaim);

    // plan a pass over the snapshot of the two logs
    let sizes = vec![(1u64, (64 * KIB16) as u32), (2u64, (36 * KIB16) as u32)];
    let plan = p.plan_reclaim(&frees, &sizes, 0).unwrap();
    assert_eq!(plan.batches.len(), 1);
    let batch: Vec<u64> = plan.batches[0].iter().map(|o| o.obj.0).collect();
    assert_eq!(batch, vec![1, 2]);
    assert_eq!(plan.deleted_objects, vec![ObjectID(2)]);
    assert_eq!(plan.freed_blocks_count, 51);
    assert!(plan.remaining_frees.is_empty());

    // consolidate the batch
    let objs: Vec<(DataObjectPhys, Vec<PendingFreesLogEntry>)> = puts
        .into_iter()
        .zip(plan.batches[0].iter())
        .map(|(w, b)| (w.phys, b.frees.clone()))
        .collect();
    let merged = reclaim_frees_object(objs).unwrap();
    assert_eq!(merged.object, ObjectID(1));
    assert_eq!(merged.num_blocks(), 49);
    assert_eq!(merged.get_block(BlockID(0)), None);
    assert_eq!(merged.get_block(BlockID(51)), Some(&block_data(51)));
    assert_eq!(merged.get_block(BlockID(99)), Some(&block_data(99)));
    assert_eq!(merged.blocks_size as usize, 49 * KIB16);
    assert!(merged.verify());

    // commit the pass in TXG 3
    p.begin_txg(TXG(3)).unwrap();
    let outcome = ReclaimOutcome {
        freed_blocks_count: plan.freed_blocks_count,
        freed_blocks_bytes: plan.freed_blocks_bytes,
        remaining_frees: plan.remaining_frees,
        later_frees: Vec::new(),
        deleted_objects: plan.deleted_objects,
        rewritten_object_sizes: vec![(merged.object, merged.blocks_size)],
        object_sizes: sizes,
        later_sizes: Vec::new(),
        size_log_chunks: 0,
    };
    let commit = p.end_txg(0, 100, Some(outcome)).unwrap();
    assert_eq!(commit.stats.blocks_count, 49);
    assert_eq!(commit.stats.pending_frees_count, 0);
    assert_eq!(commit.objects_to_delete, vec![ObjectID(2)]);
    assert!(commit.pending_frees_log.clear);
    assert!(commit.storage_object_log.entries.contains(&StorageObjectLogEntry::Free { obj: ObjectID(2) }));
    assert_eq!(objects(&p), vec![(1, 0)]);
    assert_eq!(p.block_to_obj(BlockID(99)), Some(ObjectID(1)));
}

#[test]
fn out_of_order_writes() {
    let mut p = PoolSyncingState::new_empty(PoolGUID(1));
    p.begin_txg(TXG(1)).unwrap();
    assert_eq!(p.write_block(BlockID(2), b"c".to_vec()), Ok(WriteOutcome::Queued));
    assert_eq!(p.next_block(), BlockID(0));
    assert_eq!(p.write_block(BlockID(0), b"a".to_vec()), Ok(WriteOutcome::Queued));
    assert_eq!(p.next_block(), BlockID(1));
    assert_eq!(p.write_block(BlockID(1), b"b".to_vec()), Ok(WriteOutcome::Queued));
    assert_eq!(p.next_block(), BlockID(3));
    // nothing is handed out before the flush
    assert_eq!(p.take_puts().len(), 0);
    p.initiate_flush(BlockID(2));
    let puts = p.take_puts();
    assert_eq!(puts.len(), 1);
    assert_eq!(block_ids(&puts[0]), vec![0, 1, 2]);
    assert_eq!(puts[0].waiters, vec![BlockID(0), BlockID(1), BlockID(2)]);
    assert_eq!(puts[0].phys.get_block(BlockID(0)), Some(&b"a".to_vec()));
    assert_eq!(puts[0].phys.get_block(BlockID(1)), Some(&b"b".to_vec()));
    assert_eq!(puts[0].phys.get_block(BlockID(2)), Some(&b"c".to_vec()));
}

#[test]
fn crash_resume_matches_no_crash() {
    let (reference, ref_puts) = pack_hundred();
    // the first object was persisted before the crash, the second was not
    let recovered = ref_puts.into_iter().next().unwrap().phys;
    let mut p = PoolSyncingState::new_empty(PoolGUID(1));
    p.resume_txg(TXG(1)).unwrap();
    for id in 0..100u64 {
        assert_eq!(p.write_block(BlockID(id), block_data(id)), Ok(WriteOutcome::Queued));
    }
    let done = p.resume_complete(vec![recovered]).unwrap();
    assert_eq!(done, (0..64).map(BlockID).collect::<Vec<BlockID>>());
    p.initiate_flush(BlockID(99));
    let puts = p.take_puts();
    assert_eq!(puts.len(), 1);
    assert_eq!(block_ids(&puts[0]), (64..100).collect::<Vec<u64>>());
    let commit = p.end_txg(0, 100, None).unwrap();
    assert_eq!(commit.txg, TXG(1));
    assert_eq!(objects(&p), objects(&reference));
    assert_eq!(p.stats(), reference.stats());
    assert_eq!(p.next_block(), reference.next_block());
}

#[test]
fn protocol_misuse_is_reported() {
    let mut p = PoolSyncingState::new_empty(PoolGUID(1));
    assert_eq!(p.write_block(BlockID(0), vec![1]), Err(ProtocolError::NoTxgInProgress));
    assert_eq!(p.free_block(BlockID(0), 1), Err(ProtocolError::NoTxgInProgress));
    assert_eq!(p.end_txg(0, 100, None).err(), Some(ProtocolError::NoTxgInProgress));
    assert_eq!(p.begin_txg(TXG(0)), Err(ProtocolError::TxgNotAfterLast));
    p.begin_txg(TXG(1)).unwrap();
    assert_eq!(p.begin_txg(TXG(2)), Err(ProtocolError::TxgInProgress));
    assert_eq!(p.resume_txg(TXG(2)), Err(ProtocolError::TxgInProgress));
    assert_eq!(p.write_block(BlockID(u64::MAX), vec![1]), Err(ProtocolError::InvalidBlock));
    assert_eq!(p.free_block(BlockID(0), 1), Err(ProtocolError::FreeOfUnwrittenBlock));
    p.write_block(BlockID(0), vec![1]).unwrap();
    assert_eq!(p.end_txg(0, 100, None).err(), Some(ProtocolError::WritesPending));
    assert_eq!(p.write_block(BlockID(5), vec![1]), Ok(WriteOutcome::Queued));
    p.initiate_flush(BlockID(0));
    assert_eq!(p.end_txg(0, 100, None).err(), Some(ProtocolError::WritesPending));
}

#[test]
fn overwrite_below_next_block_goes_to_stored_object() {
    let mut p = PoolSyncingState::new_empty(PoolGUID(1));
    p.begin_txg(TXG(1)).unwrap();
    p.write_block(BlockID(0), b"aa".to_vec()).unwrap();
    p.initiate_flush(BlockID(0));
    let mut puts = p.take_puts();
    assert_eq!(p.write_block(BlockID(0), b"zz".to_vec()), Ok(WriteOutcome::Overwrite(ObjectID(1))));
    let phys = &mut puts[0].phys;
    assert_eq!(phys.overwrite_block(TXG(1), BlockID(0), b"zz".to_vec()), Ok(()));
    assert_eq!(phys.get_block(BlockID(0)), Some(&b"zz".to_vec()));
}

#[test]
fn block_below_every_object_cannot_be_overwritten() {
    let mut p = PoolSyncingState::open(PoolGUID(1), TXG(1), BlockID(10), PoolStatsPhys::zero(), &Vec::new()).unwrap();
    p.begin_txg(TXG(2)).unwrap();
    assert_eq!(p.write_block(BlockID(3), vec![1]), Err(ProtocolError::BlockNotInAnyObject));
}

#[test]
fn resume_rejects_foreign_objects_and_wrong_state() {
    let mut p = PoolSyncingState::new_empty(PoolGUID(1));
    assert_eq!(p.resume_complete(Vec::new()).err(), Some(ResumeError::NotResuming));
    p.resume_txg(TXG(1)).unwrap();
    let foreign = DataObjectPhys::new(PoolGUID(2), ObjectID(1), BlockID(0), TXG(1));
    assert_eq!(p.resume_complete(vec![foreign]).err(), Some(ResumeError::ForeignObject));
}

#[test]
fn resume_with_nothing_recovered_packs_replayed_writes() {
    let mut p = PoolSyncingState::new_empty(PoolGUID(1));
    p.resume_txg(TXG(1)).unwrap();
    p.write_block(BlockID(1), vec![2]).unwrap();
    p.write_block(BlockID(0), vec![1]).unwrap();
    assert_eq!(p.next_block(), BlockID(0));
    let done = p.resume_complete(Vec::new()).unwrap();
    assert!(done.is_empty());
    assert_eq!(p.next_block(), BlockID(2));
}

#[test]
fn open_checks_the_uberblock_against_the_log() {
    let entries = vec![StorageObjectLogEntry::Alloc { obj: ObjectID(1), first_possible_block: BlockID(0) }];
    let mut stats = PoolStatsPhys::zero();
    assert_eq!(
        PoolSyncingState::open(PoolGUID(1), TXG(1), BlockID(5), stats, &entries).err(),
        Some(OpenError::ObjectCountMismatch)
    );
    stats.objects_count = 1;
    assert_eq!(
        PoolSyncingState::open(PoolGUID(1), TXG(1), BlockID(0), stats, &entries).err(),
        Some(OpenError::NextBlockBehind)
    );
    assert!(PoolSyncingState::open(PoolGUID(1), TXG(1), BlockID(5), stats, &entries).is_ok());
}

#[test]
fn allocated_prop_reports_pending_free_bytes() {
    let mut p = PoolSyncingState::new_empty(PoolGUID(1));
    p.begin_txg(TXG(1)).unwrap();
    p.write_block(BlockID(0), vec![0; 8]).unwrap();
    p.free_block(BlockID(0), 8).unwrap();
    assert_eq!(p.get_prop(PoolProp::Allocated), 8);
    assert_eq!(p.get_prop(PoolProp::Freeing), 8);
}

#[test]
fn committed_storage_log_rebuilds_the_objects() {
    let (mut p, _) = pack_hundred();
    p.begin_txg(TXG(2)).unwrap();
    for id in 100..103u64 {
        p.write_block(BlockID(id), block_data(id)).unwrap();
    }
    p.initiate_flush(BlockID(102));
    p.take_puts();
    let commit = p.end_txg(0, 100, None).unwrap();
    assert!(!commit.storage_object_log.clear);
    assert_eq!(
        commit.storage_object_log.entries,
        vec![StorageObjectLogEntry::Alloc { obj: ObjectID(3), first_possible_block: BlockID(100) }]
    );
    assert!(!commit.object_size_log.clear);
    assert_eq!(
        commit.object_size_log.entries,
        vec![ObjectSizeLogEntry::Exists { obj: ObjectID(3), num_blocks: 3, num_bytes: (3 * KIB16) as u32 }]
    );
    assert_eq!(objects(&p), vec![(1, 0), (2, 64), (3, 100)]);
}

#[test]
fn storage_log_is_condensed_when_long() {
    let (mut p, _) = pack_hundred();
    p.begin_txg(TXG(2)).unwrap();
    // 30 + 5 * ceil((2 + 10) / 10) = 40 chunks
    let commit = p.end_txg(40, 10, None).unwrap();
    assert!(commit.storage_object_log.clear);
    assert_eq!(
        commit.storage_object_log.entries,
        vec![
            StorageObjectLogEntry::Alloc { obj: ObjectID(1), first_possible_block: BlockID(0) },
            StorageObjectLogEntry::Alloc { obj: ObjectID(2), first_possible_block: BlockID(64) },
        ]
    );
}

#[test]
fn reclaim_plan_ranks_by_frees_and_stops_at_written_objects() {
    let entries = vec![
        StorageObjectLogEntry::Alloc { obj: ObjectID(1), first_possible_block: BlockID(0) },
        StorageObjectLogEntry::Alloc { obj: ObjectID(2), first_possible_block: BlockID(10) },
        StorageObjectLogEntry::Alloc { obj: ObjectID(3), first_possible_block: BlockID(20) },
    ];
    let mut stats = PoolStatsPhys::zero();
    stats.objects_count = 3;
    let p = PoolSyncingState::open(PoolGUID(1), TXG(1), BlockID(30), stats, &entries).unwrap();
    let mut frees = Vec::new();
    for b in [11u64, 12, 13, 14, 15, 1, 2] {
        frees.push(PendingFreesLogEntry { block: BlockID(b), size: 10 });
    }
    let sizes = vec![(1u64, 100u32), (2, 100), (3, 100)];
    let plan = p.plan_reclaim(&frees, &sizes, 1000).unwrap();
    let batches: Vec<Vec<u64>> = plan.batches.iter().map(|b| b.iter().map(|o| o.obj.0).collect()).collect();
    assert_eq!(batches, vec![vec![2, 3], vec![1]]);
    assert_eq!(plan.deleted_objects, vec![ObjectID(3)]);
    assert_eq!(plan.freed_blocks_count, 7);
    assert_eq!(plan.freed_blocks_bytes, 70);
    // a required count already reached stops after the first batch
    let plan = p.plan_reclaim(&frees, &sizes, 4).unwrap();
    assert_eq!(plan.batches.len(), 1);
    assert_eq!(plan.remaining_frees.len(), 2);
}

#[test]
fn reclaim_plan_respects_the_object_size_bound() {
    let entries = vec![
        StorageObjectLogEntry::Alloc { obj: ObjectID(1), first_possible_block: BlockID(0) },
        StorageObjectLogEntry::Alloc { obj: ObjectID(2), first_possible_block: BlockID(10) },
    ];
    let mut stats = PoolStatsPhys::zero();
    stats.objects_count = 2;
    let p = PoolSyncingState::open(PoolGUID(1), TXG(1), BlockID(20), stats, &entries).unwrap();
    let frees = vec![PendingFreesLogEntry { block: BlockID(0), size: 10 }];
    let sizes = vec![(1u64, 600_000u32), (2, 600_000)];
    let plan = p.plan_reclaim(&frees, &sizes, 1000).unwrap();
    let batches: Vec<Vec<u64>> = plan.batches.iter().map(|b| b.iter().map(|o| o.obj.0).collect()).collect();
    assert_eq!(batches, vec![vec![1]]);
    assert!(plan.deleted_objects.is_empty());
    let outside = vec![PendingFreesLogEntry { block: BlockID(0), size: 1 }];
    let empty = PoolSyncingState::new_empty(PoolGUID(1));
    assert_eq!(empty.plan_reclaim(&outside, &sizes, 0).err(), Some(PlanError::FreeOutsideObjects));
}

fn open_with(entries: &Vec<StorageObjectLogEntry>, next_block: u64) -> PoolSyncingState {
    let mut stats = PoolStatsPhys::zero();
    stats.objects_count = 1;
    PoolSyncingState::open(PoolGUID(1), TXG(1), BlockID(next_block), stats, entries).unwrap()
}

#[test]
fn remaining_protocol_and_open_errors() {
    let mut p = PoolSyncingState::new_empty(PoolGUID(1));
    p.resume_txg(TXG(1)).unwrap();
    assert_eq!(p.end_txg(0, 100, None).err(), Some(ProtocolError::WrongResumeState));
    let last = vec![StorageObjectLogEntry::Alloc { obj: ObjectID(u64::MAX), first_possible_block: BlockID(0) }];
    let mut p = open_with(&last, 1);
    assert_eq!(p.begin_txg(TXG(2)), Err(ProtocolError::ObjectIdsExhausted));
    let bad = vec![
        StorageObjectLogEntry::Alloc { obj: ObjectID(2), first_possible_block: BlockID(10) },
        StorageObjectLogEntry::Alloc { obj: ObjectID(1), first_possible_block: BlockID(20) },
    ];
    assert_eq!(
        PoolSyncingState::open(PoolGUID(1), TXG(1), BlockID(30), PoolStatsPhys::zero(), &bad).err(),
        Some(OpenError::Replay(ReplayError::AllocOutOfOrder))
    );
}

#[test]
fn resume_errors_on_misplaced_objects_and_gaps() {
    let known = vec![StorageObjectLogEntry::Alloc { obj: ObjectID(5), first_possible_block: BlockID(10) }];
    let mut p = open_with(&known, 20);
    p.resume_txg(TXG(2)).unwrap();
    let mut early = DataObjectPhys::new(PoolGUID(1), ObjectID(6), BlockID(5), TXG(2));
    early.push_block(vec![1]);
    assert_eq!(p.resume_complete(vec![early]).err(), Some(ResumeError::ObjectOutOfOrder));

    let mut p = PoolSyncingState::new_empty(PoolGUID(1));
    p.resume_txg(TXG(1)).unwrap();
    p.write_block(BlockID(5), vec![1]).unwrap();
    let mut later = DataObjectPhys::new(PoolGUID(1), ObjectID(2), BlockID(10), TXG(1));
    later.push_block(vec![2]);
    assert_eq!(p.resume_complete(vec![later]).err(), Some(ResumeError::MissingWrites));

    // the writes before object 1 would need object id 1 themselves
    let mut p = PoolSyncingState::new_empty(PoolGUID(1));
    p.resume_txg(TXG(1)).unwrap();
    p.write_block(BlockID(0), vec![1]).unwrap();
    let mut taken = DataObjectPhys::new(PoolGUID(1), ObjectID(1), BlockID(10), TXG(1));
    taken.push_block(vec![2]);
    assert_eq!(p.resume_complete(vec![taken]).err(), Some(ResumeError::ObjectOutOfOrder));
}

#[test]
fn resume_packs_the_gap_between_recovered_objects() {
    // objects 1 (blocks 0..2) and 3 (blocks 4..6) were persisted, object 2 (blocks 2..4) was lost
    let mut first = DataObjectPhys::new(PoolGUID(1), ObjectID(1), BlockID(0), TXG(1));
    first.push_block(vec![0]);
    first.push_block(vec![1]);
    let mut third = DataObjectPhys::new(PoolGUID(1), ObjectID(3), BlockID(4), TXG(1));
    third.push_block(vec![4]);
    third.push_block(vec![5]);
    let mut p = PoolSyncingState::new_empty(PoolGUID(1));
    p.resume_txg(TXG(1)).unwrap();
    for id in 0..8u64 {
        p.write_block(BlockID(id), vec![id as u8]).unwrap();
    }
    let done = p.resume_complete(vec![third, first]).unwrap();
    assert_eq!(done, vec![BlockID(0), BlockID(1), BlockID(4), BlockID(5)]);
    let puts = p.take_puts();
    assert_eq!(puts.len(), 1);
    assert_eq!(puts[0].phys.object, ObjectID(2));
    assert_eq!(block_ids(&puts[0]), vec![2, 3]);
    assert_eq!(objects(&p), vec![(1, 0), (2, 2), (3, 4)]);
    assert_eq!(p.next_block(), BlockID(8));
}

#[test]
fn reclaim_plan_errors() {
    let known = vec![StorageObjectLogEntry::Alloc { obj: ObjectID(1), first_possible_block: BlockID(0) }];
    let p = open_with(&known, 10);
    let f = PendingFreesLogEntry { block: BlockID(3), size: 4 };
    let sizes = vec![(1u64, 100u32)];
    assert_eq!(p.plan_reclaim(&vec![f, f], &sizes, 0).err(), Some(PlanError::DuplicateFree));
    assert_eq!(p.plan_reclaim(&vec![f], &Vec::new(), 0).err(), Some(PlanError::UnknownObjectSize));
}

#[test]
fn committed_logs_replay_to_the_objects_and_their_sizes() {
    let mut p = PoolSyncingState::new_empty(PoolGUID(1));
    let mut storage = Vec::new();
    let mut sizes = Vec::new();
    for txg in 1..=2u64 {
        p.begin_txg(TXG(txg)).unwrap();
        let first = (txg - 1) * 100;
        for id in first..first + 100 {
            p.write_block(BlockID(id), block_data(id)).unwrap();
        }
        p.initiate_flush(BlockID(first + 99));
        p.take_puts();
        let commit = p.end_txg(0, 100, None).unwrap();
        storage.extend(commit.storage_object_log.entries);
        sizes.extend(commit.object_size_log.entries);
    }
    let replayed = replay_storage_object_log(&storage).unwrap();
    let from_log: Vec<(u64, u64)> = (0..replayed.len()).map(|i| {
        let (o, b) = replayed.entry(i);
        (o.0, b.0)
    }).collect();
    assert_eq!(from_log, objects(&p));
    assert_eq!(from_log, vec![(1, 0), (2, 64), (3, 100), (4, 164)]);
    let by_size = get_object_sizes(&sizes).unwrap();
    let keys: Vec<u64> = by_size.iter().map(|(o, _)| *o).collect();
    assert_eq!(keys, vec![1, 2, 3, 4]);
    assert_eq!(by_size[0].1 as usize, 64 * KIB16);
    assert_eq!(by_size[1].1 as usize, 36 * KIB16);
}

#[test]
fn abandoned_reclaim_can_start_again() {
    let mut p = PoolSyncingState::new_empty(PoolGUID(1));
    p.begin_txg(TXG(1)).unwrap();
    for id in 0..1000u64 {
        p.write_block(BlockID(id), vec![1]).unwrap();
    }
    p.initiate_flush(BlockID(999));
    p.take_puts();
    p.end_txg(0, 100, None).unwrap();
    p.begin_txg(TXG(2)).unwrap();
    for id in 0..1000u64 {
        p.free_block(BlockID(id), 1).unwrap();
    }
    assert!(p.end_txg(0, 100, None).unwrap().start_reclaim);
    p.begin_txg(TXG(3)).unwrap();
    // a pass is in progress: no second one starts
    assert!(!p.end_txg(0, 100, None).unwrap().start_reclaim);
    p.abandon_reclaim();
    p.begin_txg(TXG(4)).unwrap();
    assert!(p.end_txg(0, 100, None).unwrap().start_reclaim);
}

#[test]
fn initiate_flush_twice_is_once() {
    let mut p = PoolSyncingState::new_empty(PoolGUID(1));
    p.begin_txg(TXG(1)).unwrap();
    p.write_block(BlockID(0), vec![1]).unwrap();
    p.initiate_flush(BlockID(5));
    p.initiate_flush(BlockID(5));
    assert_eq!(p.take_puts().len(), 0);
    p.initiate_flush(BlockID(0));
    p.initiate_flush(BlockID(0));
    assert_eq!(p.take_puts().len(), 1);
    for id in 1..=5u64 {
        p.write_block(BlockID(id), vec![1]).unwrap();
    }
    let puts = p.take_puts();
    assert_eq!(puts.len(), 1);
    assert_eq!(block_ids(&puts[0]), vec![1, 2, 3, 4, 5]);
}
