//! Entries of the pool's three metadata logs, and what replaying them yields.
use vstd::prelude::*;
use crate::ids::{BlockID, ObjectID};
use crate::object_block_map::{ObjectBlockMap, may_append, monotone};
use crate::sorted::{find_key, has_key, keys_increasing, lemma_pairs_to_map, pairs_to_map,
    remove_key, remove_key_exec, upsert};

verus! {

/// An entry of the storage-object log: the life of a data object.
#[derive(Clone, Copy, Debug, PartialEq, Eq, Structural)]
pub enum StorageObjectLogEntry {
    Alloc { obj: ObjectID, first_possible_block: BlockID },
    Free { obj: ObjectID },
}

/// An entry of the object-size log. A later `Exists` for an object supersedes
/// an earlier one.
#[derive(Clone, Copy, Debug, PartialEq, Eq, Structural)]
pub enum ObjectSizeLogEntry {
    /// `num_bytes` counts the bytes of the blocks only.
    Exists { obj: ObjectID, num_blocks: u32, num_bytes: u32 },
    Freed { obj: ObjectID },
}

/// An entry of the pending-frees log: a freed block not yet removed from its
/// data object.
#[derive(Clone, Copy, Debug, PartialEq, Eq, Structural)]
pub struct PendingFreesLogEntry {
    pub block: BlockID,
    /// In bytes.
    pub size: u32,
}

/// Why a log could not be replayed.
#[derive(Clone, Copy, Debug, PartialEq, Eq, Structural)]
pub enum ReplayError {
    /// An `Alloc` whose object or first block is not above those of every
    /// object before it.
    AllocOutOfOrder,
    /// A `Freed` for an object that has no size.
    FreedUnknownObject,
}

/// The object/first-block pairs after applying `e` to `s`; none where `e` is
/// an `Alloc` that may not follow `s`.
pub open spec fn apply_storage_entry(s: Seq<(u64, u64)>, e: StorageObjectLogEntry) -> Option<Seq<(u64, u64)>> {
    match e {
        StorageObjectLogEntry::Alloc { obj, first_possible_block } => {
            if may_append(s, obj.0, first_possible_block.0) {
                Some(s.push((obj.0, first_possible_block.0)))
            } else {
                None
            }
        },
        StorageObjectLogEntry::Free { obj } => Some(remove_key(s, obj.0)),
    }
}

/// The object/first-block pairs that the storage-object log `log` describes.
pub open spec fn replay_storage_log(log: Seq<StorageObjectLogEntry>) -> Option<Seq<(u64, u64)>>
    decreases log.len(),
{
    if log.len() == 0 {
        Some(Seq::empty())
    } else {
        match replay_storage_log(log.drop_last()) {
            None => None,
            Some(s) => apply_storage_entry(s, log.last()),
        }
    }
}

/// The sizes after applying `e` to `m`; none for a `Freed` of an object
/// without a size.
pub open spec fn apply_size_entry(m: Map<u64, u32>, e: ObjectSizeLogEntry) -> Option<Map<u64, u32>> {
    match e {
        ObjectSizeLogEntry::Exists { obj, num_blocks, num_bytes } => Some(m.insert(obj.0, num_bytes)),
        ObjectSizeLogEntry::Freed { obj } => {
            if m.contains_key(obj.0) {
                Some(m.remove(obj.0))
            } else {
                None
            }
        },
    }
}

/// The object sizes that the object-size log `log` describes.
pub open spec fn replay_size_log(log: Seq<ObjectSizeLogEntry>) -> Option<Map<u64, u32>>
    decreases log.len(),
{
    if log.len() == 0 {
        Some(Map::empty())
    } else {
        match replay_size_log(log.drop_last()) {
            None => None,
            Some(m) => apply_size_entry(m, log.last()),
        }
    }
}

/// What a replay of the storage-object log describes has objects and first
/// blocks strictly increasing.
pub proof fn lemma_replay_storage_monotone(log: Seq<StorageObjectLogEntry>)
    requires
        replay_storage_log(log) is Some,
    ensures
        monotone(replay_storage_log(log).unwrap()),
    decreases log.len(),
{
    if log.len() > 0 {
        lemma_replay_storage_monotone(log.drop_last());
        let s = replay_storage_log(log.drop_last()).unwrap();
        match log.last() {
            StorageObjectLogEntry::Alloc { obj, first_possible_block } => {},
            StorageObjectLogEntry::Free { obj } => {
                assert(keys_increasing(s));
                if has_key(s, obj.0) {
                    let i = choose|i: int| 0 <= i < s.len() && s[i].0 == obj.0;
                    crate::sorted::lemma_remove_key_index(s, i);
                    let r = s.remove(i);
                    assert forall|a: int, b: int| 0 <= a < b < r.len() implies r[a].0 < r[b].0
                        && r[a].1 < r[b].1 by {
                        let a2 = if a < i { a } else { a + 1 };
                        let b2 = if b < i { b } else { b + 1 };
                        assert(r[a] == s[a2]);
                        assert(r[b] == s[b2]);
                    }
                } else {
                    crate::sorted::lemma_remove_absent_key(s, obj.0);
                }
            },
        }
    }
}

/// Rebuilds the object/first-block map from the entries of the storage-object
/// log: each `Alloc` inserts, each `Free` removes.
pub fn replay_storage_object_log(entries: &Vec<StorageObjectLogEntry>) -> (r: Result<ObjectBlockMap, ReplayError>)
    ensures
        r is Ok <==> replay_storage_log(entries@) is Some,
        r matches Ok(m) ==> m.wf() && replay_storage_log(entries@) == Some(m@),
        r matches Err(e) ==> e == ReplayError::AllocOutOfOrder,
{
    let mut map = ObjectBlockMap::new();
    let mut i: usize = 0;
    assert(entries@.take(0) =~= Seq::<StorageObjectLogEntry>::empty());
    while i < entries.len()
        invariant
            0 <= i <= entries@.len(),
            map.wf(),
            replay_storage_log(entries@.take(i as int)) == Some(map@),
        decreases entries@.len() - i,
    {
        assert(entries@.take(i + 1).drop_last() =~= entries@.take(i as int));
        assert(entries@.take(i + 1).last() == entries@[i as int]);
        match entries[i] {
            StorageObjectLogEntry::Alloc { obj, first_possible_block } => {
                let n = map.len();
                if n > 0 {
                    let (last_obj, last_block) = map.entry(n - 1);
                    if !(last_obj.0 < obj.0 && last_block.0 < first_possible_block.0) {
                        proof {
                            lemma_replay_none_extends(entries@, i as int + 1);
                        }
                        return Err(ReplayError::AllocOutOfOrder);
                    }
                }
                map.insert(obj, first_possible_block);
            },
            StorageObjectLogEntry::Free { obj } => {
                map.remove(obj);
            },
        }
        i = i + 1;
    }
    assert(entries@.take(i as int) =~= entries@);
    Ok(map)
}

/// Once a prefix of a storage-object log fails to replay, the whole log does.
pub proof fn lemma_replay_none_extends(log: Seq<StorageObjectLogEntry>, n: int)
    requires
        0 <= n <= log.len(),
        replay_storage_log(log.take(n)) is None,
    ensures
        replay_storage_log(log) is None,
    decreases log.len() - n,
{
    if n < log.len() {
        assert(log.take(n + 1).drop_last() =~= log.take(n));
        lemma_replay_none_extends(log, n + 1);
    } else {
        assert(log.take(n) =~= log);
    }
}

/// Once a prefix of an object-size log fails to replay, the whole log does.
pub proof fn lemma_size_replay_none_extends(log: Seq<ObjectSizeLogEntry>, n: int)
    requires
        0 <= n <= log.len(),
        replay_size_log(log.take(n)) is None,
    ensures
        replay_size_log(log) is None,
    decreases log.len() - n,
{
    if n < log.len() {
        assert(log.take(n + 1).drop_last() =~= log.take(n));
        lemma_size_replay_none_extends(log, n + 1);
    } else {
        assert(log.take(n) =~= log);
    }
}

/// The size of each object, in increasing object order, from the entries of
/// the object-size log: `Exists` sets the size, `Freed` removes it.
pub fn get_object_sizes(entries: &Vec<ObjectSizeLogEntry>) -> (r: Result<Vec<(u64, u32)>, ReplayError>)
    ensures
        r is Ok <==> replay_size_log(entries@) is Some,
        r matches Ok(v) ==> keys_increasing(v@) && replay_size_log(entries@) == Some(pairs_to_map(v@)),
        r matches Err(e) ==> e == ReplayError::FreedUnknownObject,
{
    let mut sizes: Vec<(u64, u32)> = Vec::new();
    let mut i: usize = 0;
    assert(entries@.take(0) =~= Seq::<ObjectSizeLogEntry>::empty());
    assert(pairs_to_map(sizes@) =~= Map::<u64, u32>::empty());
    while i < entries.len()
        invariant
            0 <= i <= entries@.len(),
            keys_increasing(sizes@),
            replay_size_log(entries@.take(i as int)) == Some(pairs_to_map(sizes@)),
        decreases entries@.len() - i,
    {
        assert(entries@.take(i + 1).drop_last() =~= entries@.take(i as int));
        assert(entries@.take(i + 1).last() == entries@[i as int]);
        proof {
            lemma_pairs_to_map(sizes@);
        }
        match entries[i] {
            ObjectSizeLogEntry::Exists { obj, num_blocks: _, num_bytes } => {
                upsert(&mut sizes, obj.0, num_bytes);
            },
            ObjectSizeLogEntry::Freed { obj } => {
                match find_key(&sizes, obj.0) {
                    Ok(j) => {
                        assert(sizes@[j as int].0 == obj.0);
                        assert(has_key(sizes@, obj.0));
                        remove_key_exec(&mut sizes, obj.0);
                    },
                    Err(_) => {
                        proof {
                            lemma_size_replay_none_extends(entries@, i as int + 1);
                        }
                        return Err(ReplayError::FreedUnknownObject);
                    },
                }
            },
        }
        i = i + 1;
    }
    assert(entries@.take(i as int) =~= entries@);
    Ok(sizes)
}


/// `s` records a new object and `z` its size.
pub open spec fn alloc_pair(s: StorageObjectLogEntry, z: ObjectSizeLogEntry) -> bool {
    match (s, z) {
        (StorageObjectLogEntry::Alloc { obj, .. }, ObjectSizeLogEntry::Exists { obj: o2, .. }) => obj == o2,
        _ => false,
    }
}

/// The storage-object entries `ss` and object-size entries `zs` record the
/// same new objects, one for one.
pub open spec fn allocs_paired(ss: Seq<StorageObjectLogEntry>, zs: Seq<ObjectSizeLogEntry>) -> bool {
    ss.len() == zs.len() && forall|i: int| 0 <= i < ss.len() ==> alloc_pair(#[trigger] ss[i], zs[i])
}

} // verus!
