use zfs_object_agent::block_based_log::{
    check_read_back, lookup_in_chunk, BlockBasedLog, BlockBasedLogPhys, DiskLocation, Extent, LogError, Placement,
    DEFAULT_EXTENT_SIZE,
};
use zfs_object_agent::data_object::{consolidate, data_shard, DataObjectPhys, OverwriteError};
use zfs_object_agent::ids::{BlockID, ChunkID, LogOffset, ObjectID, PoolGUID, TXG};
use zfs_object_agent::logs::{
    get_object_sizes, replay_storage_object_log, ObjectSizeLogEntry, PendingFreesLogEntry, ReplayError,
    StorageObjectLogEntry,
};
use zfs_object_agent::object_block_map::ObjectBlockMap;
use zfs_object_agent::pool::{log_needs_condense, PoolStatsPhys};
use zfs_object_agent::reclaim::{
    apply_frees, percent, reclaim_frees_object, reclaim_needed, required_frees, ReclaimError,
};

fn object(obj: u64, first: u64, blocks: &[&[u8]]) -> DataObjectPhys {
    let mut d = DataObjectPhys::new(PoolGUID(7), ObjectID(obj), BlockID(first), TXG(3));
    for b in blocks {
        d.push_block(b.to_vec());
    }
    d
}

#[test]
fn ids_step_and_subtract() {
    assert_eq!(ObjectID(4).next(), ObjectID(5));
    assert_eq!(BlockID(0).next(), BlockID(1));
    assert_eq!(ChunkID(9).next(), ChunkID(10));
    assert_eq!(LogOffset(30).sub(LogOffset(12)), 18);
}

#[test]
fn data_object_keeps_size_and_range() {
    let mut d = object(1, 10, &[b"ab", b"cde", b""]);
    assert_eq!(d.blocks_size, 5);
    assert_eq!(d.next_block, BlockID(13));
    assert_eq!(d.num_blocks(), 3);
    assert!(d.verify());
    assert_eq!(d.remove_block(BlockID(11)), Some(b"cde".to_vec()));
    assert_eq!(d.remove_block(BlockID(11)), None);
    assert_eq!(d.blocks_size, 2);
    assert_eq!(d.get_block(BlockID(10)), Some(&b"ab".to_vec()));
    assert!(d.verify());
}

#[test]
fn data_object_verify_catches_broken_invariant() {
    let mut d = object(1, 0, &[b"ab"]);
    d.blocks_size = 3;
    assert!(!d.verify());
    let mut d = object(1, 0, &[b"ab"]);
    d.min_block = BlockID(1);
    assert!(!d.verify());
    let mut d = object(1, 0, &[b"ab"]);
    d.min_txg = TXG(9);
    assert!(!d.verify());
}

#[test]
fn overwrite_errors() {
    let mut d = object(1, 0, &[b"ab"]);
    assert_eq!(d.overwrite_block(TXG(4), BlockID(0), b"xy".to_vec()), Err(OverwriteError::WrongTxg));
    assert_eq!(d.overwrite_block(TXG(3), BlockID(1), b"xy".to_vec()), Err(OverwriteError::NotWritten));
    assert_eq!(d.overwrite_block(TXG(3), BlockID(0), b"xyz".to_vec()), Err(OverwriteError::SizeChanged));
    assert_eq!(d.overwrite_block(TXG(3), BlockID(0), b"xy".to_vec()), Ok(()));
    assert_eq!(d.get_block(BlockID(0)), Some(&b"xy".to_vec()));
}

#[test]
fn consolidate_merges_and_keeps_first_copy() {
    let a = object(5, 0, &[b"a0", b"a1"]);
    let mut b = object(6, 1, &[b"b1", b"b2"]);
    b.min_txg = TXG(1);
    let r = consolidate(a, &b);
    assert_eq!(r.object, ObjectID(5));
    assert_eq!(r.min_block, BlockID(0));
    assert_eq!(r.next_block, BlockID(3));
    assert_eq!(r.min_txg, TXG(1));
    assert_eq!(r.max_txg, TXG(3));
    assert_eq!(r.get_block(BlockID(1)), Some(&b"a1".to_vec()));
    assert_eq!(r.get_block(BlockID(2)), Some(&b"b2".to_vec()));
    assert_eq!(r.blocks_size, 6);
    assert!(r.verify());
}

#[test]
fn object_block_map_finds_owner() {
    let mut m = ObjectBlockMap::new();
    m.insert(ObjectID(1), BlockID(0));
    m.insert(ObjectID(2), BlockID(64));
    m.insert(ObjectID(5), BlockID(100));
    assert_eq!(m.block_to_obj(BlockID(0)), Some(ObjectID(1)));
    assert_eq!(m.block_to_obj(BlockID(63)), Some(ObjectID(1)));
    assert_eq!(m.block_to_obj(BlockID(64)), Some(ObjectID(2)));
    assert_eq!(m.block_to_obj(BlockID(1000)), Some(ObjectID(5)));
    assert_eq!(m.last_obj(), ObjectID(5));
    m.remove(ObjectID(2));
    assert_eq!(m.block_to_obj(BlockID(64)), Some(ObjectID(1)));
    assert!(!m.contains(ObjectID(2)));
    assert_eq!(m.len(), 2);
    let empty = ObjectBlockMap::new();
    assert_eq!(empty.block_to_obj(BlockID(3)), None);
    assert_eq!(empty.last_obj(), ObjectID(0));
}

#[test]
fn storage_log_replay() {
    let log = vec![
        StorageObjectLogEntry::Alloc { obj: ObjectID(1), first_possible_block: BlockID(0) },
        StorageObjectLogEntry::Alloc { obj: ObjectID(2), first_possible_block: BlockID(10) },
        StorageObjectLogEntry::Free { obj: ObjectID(1) },
        StorageObjectLogEntry::Alloc { obj: ObjectID(3), first_possible_block: BlockID(20) },
    ];
    let m = replay_storage_object_log(&log).unwrap();
    assert_eq!(m.len(), 2);
    assert_eq!(m.entry(0), (ObjectID(2), BlockID(10)));
    assert_eq!(m.entry(1), (ObjectID(3), BlockID(20)));
    let bad = vec![
        StorageObjectLogEntry::Alloc { obj: ObjectID(2), first_possible_block: BlockID(10) },
        StorageObjectLogEntry::Alloc { obj: ObjectID(1), first_possible_block: BlockID(20) },
    ];
    assert_eq!(replay_storage_object_log(&bad).err(), Some(ReplayError::AllocOutOfOrder));
}

#[test]
fn size_log_replay() {
    let log = vec![
        ObjectSizeLogEntry::Exists { obj: ObjectID(3), num_blocks: 2, num_bytes: 30 },
        ObjectSizeLogEntry::Exists { obj: ObjectID(1), num_blocks: 1, num_bytes: 10 },
        ObjectSizeLogEntry::Exists { obj: ObjectID(3), num_blocks: 0, num_bytes: 7 },
        ObjectSizeLogEntry::Exists { obj: ObjectID(2), num_blocks: 1, num_bytes: 20 },
        ObjectSizeLogEntry::Freed { obj: ObjectID(2) },
    ];
    assert_eq!(get_object_sizes(&log), Ok(vec![(1, 10), (3, 7)]));
    let bad = vec![ObjectSizeLogEntry::Freed { obj: ObjectID(2) }];
    assert_eq!(get_object_sizes(&bad), Err(ReplayError::FreedUnknownObject));
}

#[test]
fn reclaim_thresholds() {
    assert_eq!(percent(1000, 10), 100);
    assert_eq!(percent(999, 9), 89);
    let mut stats = PoolStatsPhys::zero();
    stats.blocks_count = 20000;
    stats.pending_frees_count = 1999;
    assert!(!reclaim_needed(&stats));
    stats.pending_frees_count = 2000;
    assert!(reclaim_needed(&stats));
    assert_eq!(required_frees(&stats), 200);
    stats.blocks_count = 100;
    stats.pending_frees_count = 999;
    assert!(!reclaim_needed(&stats));
    stats.pending_frees_count = 1000;
    assert!(reclaim_needed(&stats));
}

#[test]
fn condense_threshold() {
    // 30 + 5 * ceil((250 + 100) / 100) = 50
    assert!(!log_needs_condense(49, 250, 100));
    assert!(log_needs_condense(50, 250, 100));
    assert!(!log_needs_condense(1000, 0, 0));
}

#[test]
fn apply_frees_tolerates_absent_blocks() {
    let mut d = object(1, 0, &[b"ab", b"cd"]);
    let frees = vec![
        PendingFreesLogEntry { block: BlockID(1), size: 2 },
        PendingFreesLogEntry { block: BlockID(7), size: 5 },
    ];
    assert_eq!(apply_frees(&mut d, &frees), Ok(()));
    assert_eq!(d.num_blocks(), 1);
    assert_eq!(apply_frees(&mut d, &frees), Ok(()));
    assert_eq!(d.num_blocks(), 1);
    let wrong = vec![PendingFreesLogEntry { block: BlockID(0), size: 9 }];
    assert_eq!(apply_frees(&mut d, &wrong), Err(ReclaimError::FreeSizeMismatch));
}

#[test]
fn reclaim_batch_errors() {
    let a = object(5, 0, &[b"a"]);
    let b = object(4, 1, &[b"b"]);
    assert_eq!(reclaim_frees_object(vec![(a, Vec::new()), (b, Vec::new())]).err(), Some(ReclaimError::OutOfOrder));
    let a = object(5, 0, &[b"a"]);
    let mut c = object(6, 1, &[b"c"]);
    c.guid = PoolGUID(8);
    assert_eq!(reclaim_frees_object(vec![(a, Vec::new()), (c, Vec::new())]).err(), Some(ReclaimError::ForeignObject));
}

#[test]
fn reclaim_is_idempotent_after_interrupted_pass() {
    let a = object(5, 0, &[b"a0", b"a1"]);
    let b = object(6, 2, &[b"b2"]);
    let frees = vec![PendingFreesLogEntry { block: BlockID(0), size: 2 }];
    let first = reclaim_frees_object(vec![(a, frees.clone()), (object(6, 2, &[b"b2"]), Vec::new())]).unwrap();
    // the pass is run again on the already rewritten target and the old object
    let again = reclaim_frees_object(vec![(first, frees), (b, Vec::new())]).unwrap();
    assert_eq!(again.num_blocks(), 2);
    assert_eq!(again.get_block(BlockID(1)), Some(&b"a1".to_vec()));
    assert_eq!(again.get_block(BlockID(2)), Some(&b"b2".to_vec()));
    assert_eq!(again.blocks_size, 4);
}

fn write_all(log: &mut BlockBasedLog<u64>, chunk_bytes: u64) -> Vec<(ChunkID, LogOffset, Vec<u64>)> {
    let mut written = Vec::new();
    while let Some((id, off, entries)) = log.next_chunk() {
        loop {
            match log.place_chunk(chunk_bytes) {
                Placement::WriteAt(_) => break,
                Placement::NeedExtent { free: _, min_size, target_size } => {
                    assert_eq!(target_size, DEFAULT_EXTENT_SIZE.max(min_size));
                    let at = log.get_phys().next_chunk_offset.0;
                    log.add_extent(Extent { location: DiskLocation { offset: 1 << 40 | at }, size: target_size }).unwrap();
                }
            }
        }
        log.chunk_written(chunk_bytes).unwrap();
        written.push((id, off, entries));
    }
    written
}

#[test]
fn block_based_log_round_trip() {
    let mut log: BlockBasedLog<u64> = BlockBasedLog::new();
    for i in 0..250u64 {
        log.append(i * 2);
    }
    let written = write_all(&mut log, 1000);
    let sizes: Vec<usize> = written.iter().map(|c| c.2.len()).collect();
    assert_eq!(sizes, vec![100, 100, 50]);
    let all: Vec<u64> = written.iter().flat_map(|c| c.2.clone()).collect();
    assert_eq!(all, (0..250u64).map(|i| i * 2).collect::<Vec<u64>>());
    let phys = log.get_phys();
    assert_eq!(phys.num_entries, 250);
    assert_eq!(phys.next_chunk, ChunkID(3));
    assert_eq!(phys.next_chunk_offset, LogOffset(3000));
    let ids: Vec<ChunkID> = written.iter().map(|c| c.0).collect();
    let counts: Vec<u64> = written.iter().map(|c| c.2.len() as u64).collect();
    assert!(check_read_back(&phys, &ids, &counts));
    assert!(!check_read_back(&phys, &ids[..2].to_vec(), &counts[..2].to_vec()));
    // chunk 1 sits right after chunk 0 in the one extent
    let e = log.chunk_extent(1);
    assert_eq!(e.size, 1000);
    assert_eq!(e.location.offset, (1u64 << 40) + 1000);
}

#[test]
fn block_based_log_lookup() {
    let mut log: BlockBasedLog<u64> = BlockBasedLog::new();
    for i in 0..250u64 {
        log.append(i * 2 + 10);
    }
    let written = write_all(&mut log, 500);
    assert_eq!(log.lookup_chunk(5), Ok(None));
    assert_eq!(log.lookup_chunk(10), Ok(Some(0)));
    assert_eq!(log.lookup_chunk(210), Ok(Some(1)));
    assert_eq!(log.lookup_chunk(10_000), Ok(Some(2)));
    let chunk = &written[1].2;
    assert_eq!(lookup_in_chunk(chunk, 212), Some(212));
    assert_eq!(lookup_in_chunk(chunk, 213), None);
}

#[test]
fn block_based_log_open_and_rebuild() {
    let mut log: BlockBasedLog<u64> = BlockBasedLog::new();
    for i in 0..150u64 {
        log.append(i);
    }
    let written = write_all(&mut log, 700);
    let phys = log.get_phys();
    let mut opened: BlockBasedLog<u64> = BlockBasedLog::open(phys).unwrap();
    assert_eq!(opened.lookup_chunk(3), Err(LogError::NotIndexed));
    opened.append(500);
    assert_eq!(opened.chunk_written(10), Err(LogError::NotIndexed));
    let chunks: Vec<(LogOffset, Vec<u64>)> = written.iter().map(|c| (c.1, c.2.clone())).collect();
    assert_eq!(opened.rebuild_index(chunks[..1].to_vec()), Err(LogError::Corrupt));
    assert_eq!(opened.rebuild_index(chunks), Ok(()));
    assert_eq!(opened.lookup_chunk(120), Ok(Some(1)));
    let freed = opened.clear();
    assert_eq!(freed.len(), 1);
    assert_eq!(opened.get_phys().num_entries, 0);
    let mut broken = log.get_phys();
    broken.next_chunk_offset = LogOffset(u64::MAX);
    assert!(BlockBasedLog::<u64>::open(broken).is_err());
    assert!(BlockBasedLog::<u64>::open(BlockBasedLogPhys::new()).is_ok());
}

#[test]
fn block_based_log_rejects_empty_or_oversized_chunks() {
    let mut log: BlockBasedLog<u64> = BlockBasedLog::new();
    assert_eq!(log.chunk_written(10), Err(LogError::NothingPending));
    log.append(1);
    assert_eq!(log.chunk_written(10), Err(LogError::DoesNotFit));
    assert!(matches!(log.place_chunk(10), Placement::NeedExtent { .. }));
    log.add_extent(Extent { location: DiskLocation { offset: 0 }, size: 16 }).unwrap();
    assert_eq!(log.chunk_written(0), Err(LogError::DoesNotFit));
    assert_eq!(log.chunk_written(17), Err(LogError::DoesNotFit));
    assert_eq!(log.chunk_written(16), Ok(()));
    assert_eq!(log.add_extent(Extent { location: DiskLocation { offset: u64::MAX }, size: 1 }), Err(LogError::ExtentOutOfRange));
}

#[test]
fn data_objects_spread_over_prefixes() {
    assert_eq!(data_shard(ObjectID(0)), 0);
    assert_eq!(data_shard(ObjectID(65)), 1);
    assert_eq!(data_shard(ObjectID(127)), 63);
}
