//! A data object: many client blocks packed into one blob of the object store.
use vstd::prelude::*;
use crate::ids::{BlockID, ObjectID, PoolGUID, TXG};
use crate::sorted::{has_key, keys_increasing, pairs_to_map, remove_key, lemma_pairs_to_map,
    lemma_remove_key_index, lemma_remove_key_map, lemma_remove_index_increasing};

verus! {

/// The blocks of a data object as (block, bytes) pairs.
pub open spec fn block_pairs(v: Seq<(BlockID, Vec<u8>)>) -> Seq<(u64, Seq<u8>)> {
    v.map_values(|p: (BlockID, Vec<u8>)| (p.0.0, p.1@))
}

/// Sum of the lengths of the blocks in `s`.
pub open spec fn total_len(s: Seq<(u64, Seq<u8>)>) -> nat
    decreases s.len(),
{
    if s.len() == 0 {
        0
    } else {
        total_len(s.drop_last()) + s.last().1.len()
    }
}

pub proof fn lemma_total_len_add(a: Seq<(u64, Seq<u8>)>, b: Seq<(u64, Seq<u8>)>)
    ensures
        total_len(a + b) == total_len(a) + total_len(b),
    decreases b.len(),
{
    if b.len() == 0 {
        assert(a + b =~= a);
    } else {
        lemma_total_len_add(a, b.drop_last());
        assert((a + b).drop_last() =~= a + b.drop_last());
    }
}

pub proof fn lemma_total_len_remove(s: Seq<(u64, Seq<u8>)>, i: int)
    requires
        0 <= i < s.len(),
    ensures
        total_len(s.remove(i)) + s[i].1.len() == total_len(s),
{
    let a = s.subrange(0, i);
    let b = s.subrange(i + 1, s.len() as int);
    lemma_total_len_add(a, b);
    lemma_total_len_add(a.push(s[i]), b);
    assert(a.push(s[i]).drop_last() =~= a);
    assert(a.push(s[i]) + b =~= s);
}

/// Data objects are spread over this many key prefixes, so that listing them
/// can run in parallel.
pub const NUM_DATA_PREFIXES: u64 = 64;

/// The key prefix (shard) of object `obj`: `zfs/<guid>/data/<shard>/<obj>`.
pub fn data_shard(obj: ObjectID) -> (r: u64)
    ensures
        r == obj.0 % NUM_DATA_PREFIXES,
        r < NUM_DATA_PREFIXES,
{
    obj.0 % NUM_DATA_PREFIXES
}

/// A data object as stored in the object store.
pub struct DataObjectPhys {
    pub guid: PoolGUID,
    pub object: ObjectID,
    /// Sum of the lengths of the blocks.
    pub blocks_size: u32,
    /// Every block is at least this one.
    pub min_block: BlockID,
    /// Every block is below this one.
    pub next_block: BlockID,
    /// A consolidated object may hold blocks written over a range of TXGs.
    pub min_txg: TXG,
    pub max_txg: TXG,
    /// The blocks, in increasing block order.
    pub blocks: Vec<(BlockID, Vec<u8>)>,
}

/// Why a stored data object could not be overwritten in place.
#[derive(Clone, Copy, Debug, PartialEq, Eq, Structural)]
pub enum OverwriteError {
    /// The object was not written in the TXG that is syncing.
    WrongTxg,
    /// The object does not hold the block.
    NotWritten,
    /// The new contents have another length than the old.
    SizeChanged,
}

impl DataObjectPhys {
    pub open spec fn blocks_view(&self) -> Seq<(u64, Seq<u8>)> {
        block_pairs(self.blocks@)
    }

    /// The blocks as a map from block to bytes.
    pub open spec fn block_map(&self) -> Map<u64, Seq<u8>> {
        pairs_to_map(self.blocks_view())
    }

    /// The object's invariant: the size is the sum of the block lengths,
    /// every block lies in [min_block, next_block), and min_txg <= max_txg.
    pub open spec fn wf(&self) -> bool {
        &&& keys_increasing(self.blocks_view())
        &&& self.blocks_size == total_len(self.blocks_view())
        &&& self.min_block.0 <= self.next_block.0
        &&& self.min_txg.0 <= self.max_txg.0
        &&& forall|i: int|
            0 <= i < self.blocks_view().len() ==> self.min_block.0 <= #[trigger] self.blocks_view()[i].0
                < self.next_block.0
    }

    /// An empty object whose first block will be `next_block`, written in `txg`.
    pub fn new(guid: PoolGUID, object: ObjectID, next_block: BlockID, txg: TXG) -> (r: DataObjectPhys)
        ensures
            r.wf(),
            r.guid == guid,
            r.object == object,
            r.min_block == next_block,
            r.next_block == next_block,
            r.min_txg == txg,
            r.max_txg == txg,
            r.blocks_size == 0,
            r.blocks_view() == Seq::<(u64, Seq<u8>)>::empty(),
    {
        let r = DataObjectPhys {
            guid,
            object,
            blocks_size: 0,
            min_block: next_block,
            next_block,
            min_txg: txg,
            max_txg: txg,
            blocks: Vec::new(),
        };
        assert(r.blocks_view() =~= Seq::<(u64, Seq<u8>)>::empty());
        r
    }

    /// Whether the object keeps its invariant; used on objects read back from
    /// the object store.
    pub fn verify(&self) -> (r: bool)
        ensures
            r == self.wf(),
    {
        if self.min_block.0 > self.next_block.0 || self.min_txg.0 > self.max_txg.0 {
            return false;
        }
        let ghost bv = self.blocks_view();
        let mut acc: u64 = 0;
        let mut i: usize = 0;
        while i < self.blocks.len()
            invariant
                bv == self.blocks_view(),
                0 <= i <= bv.len(),
                acc == total_len(bv.take(i as int)),
                acc <= u32::MAX,
                self.min_block.0 <= self.next_block.0,
                self.min_txg.0 <= self.max_txg.0,
                keys_increasing(bv.take(i as int)),
                forall|j: int| 0 <= j < i ==> self.min_block.0 <= #[trigger] bv[j].0 < self.next_block.0,
            decreases bv.len() - i,
        {
            let k = self.blocks[i].0;
            let len = self.blocks[i].1.len();
            assert(bv[i as int].0 == k.0 && bv[i as int].1.len() == len);
            proof {
                lemma_total_len_take(bv, i as int);
                lemma_total_len_take(bv, i as int + 1);
            }
            if k.0 < self.min_block.0 || k.0 >= self.next_block.0 {
                return false;
            }
            if i > 0 && self.blocks[i - 1].0.0 >= k.0 {
                assert(bv[i - 1].0 == self.blocks@[i - 1].0.0);
                return false;
            }
            if len as u64 > u32::MAX as u64 - acc {
                return false;
            }
            acc = acc + len as u64;
            proof {
                let t = bv.take(i as int + 1);
                assert forall|a: int, b: int| 0 <= a < b < t.len() implies t[a].0 < t[b].0 by {
                    if b < i {
                        assert(bv.take(i as int)[a] == t[a]);
                        assert(bv.take(i as int)[b] == t[b]);
                    } else if a < i - 1 {
                        assert(bv.take(i as int)[a] == t[a]);
                        assert(bv.take(i as int)[i - 1] == t[i - 1]);
                        assert(bv[i - 1].0 == self.blocks@[i - 1].0.0);
                    } else {
                        assert(bv[i - 1].0 == self.blocks@[i - 1].0.0);
                    }
                }
            }
            i = i + 1;
        }
        assert(bv.take(i as int) =~= bv);
        acc == self.blocks_size as u64
    }

    /// Number of blocks in the object.
    pub fn num_blocks(&self) -> (r: usize)
        ensures
            r == self.blocks_view().len(),
    {
        self.blocks.len()
    }

    pub fn is_empty(&self) -> (r: bool)
        ensures
            r == (self.blocks_view().len() == 0),
    {
        self.blocks.len() == 0
    }

    /// Appends `data` as block `next_block`, and moves `next_block` on by one.
    pub fn push_block(&mut self, data: Vec<u8>)
        requires
            old(self).wf(),
            old(self).next_block.0 < u64::MAX,
            old(self).blocks_size + data@.len() <= u32::MAX,
        ensures
            final(self).wf(),
            final(self).blocks_view() == old(self).blocks_view().push((old(self).next_block.0, data@)),
            final(self).next_block.0 == old(self).next_block.0 + 1,
            final(self).blocks_size == old(self).blocks_size + data@.len(),
            final(self).guid == old(self).guid,
            final(self).object == old(self).object,
            final(self).min_block == old(self).min_block,
            final(self).min_txg == old(self).min_txg,
            final(self).max_txg == old(self).max_txg,
    {
        let ghost old_view = self.blocks_view();
        let id = self.next_block;
        self.blocks_size = self.blocks_size + data.len() as u32;
        self.blocks.push((id, data));
        self.next_block = id.next();
        assert(self.blocks_view() =~= old_view.push((id.0, data@)));
        assert(self.blocks_view().drop_last() =~= old_view);
    }

    /// Index of block `id` among the blocks, if present.
    fn find(&self, id: BlockID) -> (r: Option<usize>)
        requires
            self.wf(),
        ensures
            r matches Some(i) ==> i < self.blocks_view().len() && self.blocks_view()[i as int].0 == id.0,
            r.is_none() ==> !has_key(self.blocks_view(), id.0),
    {
        let mut lo: usize = 0;
        let mut hi: usize = self.blocks.len();
        while lo < hi
            invariant
                0 <= lo <= hi <= self.blocks_view().len(),
                self.wf(),
                forall|j: int| 0 <= j < lo ==> self.blocks_view()[j].0 < id.0,
                forall|j: int| hi <= j < self.blocks_view().len() ==> id.0 < self.blocks_view()[j].0,
            decreases hi - lo,
        {
            let mid = lo + (hi - lo) / 2;
            let k = self.blocks[mid].0;
            assert(self.blocks_view()[mid as int].0 == k.0);
            if k.0 == id.0 {
                return Some(mid);
            } else if k.0 < id.0 {
                lo = mid + 1;
            } else {
                hi = mid;
            }
        }
        None
    }

    /// The bytes of block `id`, if the object holds it.
    pub fn get_block(&self, id: BlockID) -> (r: Option<&Vec<u8>>)
        requires
            self.wf(),
        ensures
            r.is_some() == self.block_map().contains_key(id.0),
            r matches Some(v) ==> v@ == self.block_map()[id.0],
    {
        proof {
            lemma_pairs_to_map(self.blocks_view());
        }
        match self.find(id) {
            Some(i) => {
                assert(has_key(self.blocks_view(), id.0));
                assert(self.blocks_view()[i as int].0 == id.0);
                Some(&self.blocks[i].1)
            },
            None => None,
        }
    }

    /// Removes block `id`, if the object holds it, and returns its bytes.
    pub fn remove_block(&mut self, id: BlockID) -> (r: Option<Vec<u8>>)
        requires
            old(self).wf(),
        ensures
            final(self).wf(),
            r.is_some() == old(self).block_map().contains_key(id.0),
            r matches Some(v) ==> v@ == old(self).block_map()[id.0]
                && final(self).blocks_size == old(self).blocks_size - v@.len(),
            r.is_none() ==> final(self).blocks_size == old(self).blocks_size,
            final(self).blocks_view() == remove_key(old(self).blocks_view(), id.0),
            final(self).block_map() == old(self).block_map().remove(id.0),
            final(self).guid == old(self).guid,
            final(self).object == old(self).object,
            final(self).min_block == old(self).min_block,
            final(self).next_block == old(self).next_block,
            final(self).min_txg == old(self).min_txg,
            final(self).max_txg == old(self).max_txg,
    {
        let ghost old_view = self.blocks_view();
        proof {
            lemma_pairs_to_map(old_view);
            lemma_remove_key_map(old_view, id.0);
        }
        match self.find(id) {
            Some(i) => {
                proof {
                    assert(has_key(old_view, id.0));
                    lemma_remove_key_index(old_view, i as int);
                    lemma_remove_index_increasing(old_view, i as int);
                    lemma_total_len_remove(old_view, i as int);
                }
                let (_, v) = self.blocks.remove(i);
                assert(self.blocks_view() =~= old_view.remove(i as int));
                assert(v@ == old_view[i as int].1);
                self.blocks_size = self.blocks_size - v.len() as u32;
                assert forall|j: int| 0 <= j < self.blocks_view().len() implies self.min_block.0
                    <= #[trigger] self.blocks_view()[j].0 < self.next_block.0 by {
                    let j2 = if j < i { j } else { j + 1 };
                    assert(self.blocks_view()[j] == old_view[j2]);
                }
                Some(v)
            },
            None => {
                proof {
                    crate::sorted::lemma_remove_absent_key(old_view, id.0);
                }
                None
            },
        }
    }

    /// Replaces the bytes of block `id` in an object written in `txg`; the
    /// length of the block may not change.
    pub fn overwrite_block(&mut self, txg: TXG, id: BlockID, data: Vec<u8>) -> (r: Result<(), OverwriteError>)
        requires
            old(self).wf(),
        ensures
            final(self).wf(),
            r == Err::<(), _>(OverwriteError::WrongTxg) <==> (old(self).min_txg != txg || old(self).max_txg != txg),
            r == Err::<(), _>(OverwriteError::NotWritten) <==> (old(self).min_txg == txg && old(self).max_txg == txg
                && !old(self).block_map().contains_key(id.0)),
            r == Err::<(), _>(OverwriteError::SizeChanged) <==> (old(self).min_txg == txg && old(self).max_txg == txg
                && old(self).block_map().contains_key(id.0)
                && old(self).block_map()[id.0].len() != data@.len()),
            r.is_err() ==> *final(self) == *old(self),
            r.is_ok() ==> final(self).block_map() == old(self).block_map().insert(id.0, data@)
                && final(self).blocks_size == old(self).blocks_size
                && final(self).guid == old(self).guid
                && final(self).object == old(self).object
                && final(self).min_block == old(self).min_block
                && final(self).next_block == old(self).next_block
                && final(self).min_txg == old(self).min_txg
                && final(self).max_txg == old(self).max_txg,
    {
        if self.min_txg != txg || self.max_txg != txg {
            return Err(OverwriteError::WrongTxg);
        }
        let ghost old_view = self.blocks_view();
        proof {
            lemma_pairs_to_map(old_view);
        }
        match self.find(id) {
            None => Err(OverwriteError::NotWritten),
            Some(i) => {
                assert(has_key(old_view, id.0));
                assert(old_view[i as int].0 == id.0);
                if self.blocks[i].1.len() != data.len() {
                    return Err(OverwriteError::SizeChanged);
                }
                let ghost old_len = old_view[i as int].1.len();
                self.blocks.set(i, (id, data));
                let ghost nv = self.blocks_view();
                assert(nv =~= old_view.update(i as int, (id.0, data@)));
                assert(nv.remove(i as int) =~= old_view.remove(i as int));
                proof {
                    lemma_total_len_remove(old_view, i as int);
                    lemma_total_len_remove(nv, i as int);
                    assert forall|a: int, b: int| 0 <= a < b < nv.len() implies nv[a].0 < nv[b].0 by {
                        assert(nv[a].0 == old_view[a].0);
                        assert(nv[b].0 == old_view[b].0);
                    }
                    assert forall|j: int| 0 <= j < nv.len() implies self.min_block.0
                        <= #[trigger] nv[j].0 < self.next_block.0 by {
                        assert(nv[j].0 == old_view[j].0);
                    }
                    lemma_pairs_to_map(nv);
                    let m_new = pairs_to_map(nv);
                    let m_old = pairs_to_map(old_view);
                    assert forall|k: u64| #[trigger] m_new.contains_key(k) <==> m_old.insert(id.0, data@).contains_key(k) by {
                        if has_key(nv, k) {
                            let j = choose|j: int| 0 <= j < nv.len() && nv[j].0 == k;
                            assert(nv[j].0 == old_view[j].0);
                        }
                        if has_key(old_view, k) {
                            let j = choose|j: int| 0 <= j < old_view.len() && old_view[j].0 == k;
                            assert(nv[j].0 == old_view[j].0);
                        }
                    }
                    assert forall|k: u64| #[trigger] m_new.contains_key(k) implies
                        m_new[k] == m_old.insert(id.0, data@)[k] by {
                        assert(has_key(nv, k));
                        let j = choose|j: int| 0 <= j < nv.len() && nv[j].0 == k;
                        assert(nv[j].0 == old_view[j].0);
                        if j != i {
                            assert(nv[j] == old_view[j]);
                        }
                    }
                    assert(m_new =~= m_old.insert(id.0, data@));
                }
                Ok(())
            },
        }
    }
}

/// A copy of `v`.
fn copy_bytes(v: &Vec<u8>) -> (r: Vec<u8>)
    ensures
        r@ == v@,
{
    let r = v.clone();
    assert(r@ =~= v@);
    r
}

pub proof fn lemma_total_len_take(s: Seq<(u64, Seq<u8>)>, i: int)
    requires
        0 <= i <= s.len(),
    ensures
        total_len(s.take(i)) <= total_len(s),
        i < s.len() ==> total_len(s.take(i + 1)) == total_len(s.take(i)) + s[i].1.len(),
{
    lemma_total_len_add(s.take(i), s.skip(i));
    assert(s.take(i) + s.skip(i) =~= s);
    if i < s.len() {
        assert(s.take(i + 1).drop_last() =~= s.take(i));
    }
}

/// The minimum of two block ids.
pub open spec fn min_u64(a: u64, b: u64) -> u64 {
    if a <= b { a } else { b }
}

/// The maximum of two block ids.
pub open spec fn max_u64(a: u64, b: u64) -> u64 {
    if a >= b { a } else { b }
}

/// Merges the blocks of `b` into `a`. The result keeps the smaller object id,
/// the wider block and TXG ranges, and every block of either object; where
/// both hold a block, `a`'s bytes are kept (the block was already moved by an
/// earlier, interrupted consolidation).
pub fn consolidate(a: DataObjectPhys, b: &DataObjectPhys) -> (r: DataObjectPhys)
    requires
        a.wf(),
        b.wf(),
        a.blocks_size + b.blocks_size <= u32::MAX,
    ensures
        r.wf(),
        r.guid == a.guid,
        r.object.0 == min_u64(a.object.0, b.object.0),
        r.min_txg.0 == min_u64(a.min_txg.0, b.min_txg.0),
        r.max_txg.0 == max_u64(a.max_txg.0, b.max_txg.0),
        r.min_block.0 == min_u64(a.min_block.0, b.min_block.0),
        r.next_block.0 == max_u64(a.next_block.0, b.next_block.0),
        r.block_map() == b.block_map().union_prefer_right(a.block_map()),
        r.blocks_size <= a.blocks_size + b.blocks_size,
{
    let ghost av = a.blocks_view();
    let ghost bv = b.blocks_view();
    let min_block = if a.min_block.0 <= b.min_block.0 { a.min_block } else { b.min_block };
    let next_block = if a.next_block.0 >= b.next_block.0 { a.next_block } else { b.next_block };
    let mut out: Vec<(BlockID, Vec<u8>)> = Vec::new();
    let mut size: u32 = 0;
    let mut i: usize = 0;
    let mut j: usize = 0;
    let alen = a.blocks.len();
    let blen = b.blocks.len();
    proof {
        assert(block_pairs(out@) =~= Seq::<(u64, Seq<u8>)>::empty());
        assert(pairs_to_map(av.take(0)) =~= Map::<u64, Seq<u8>>::empty());
        assert(pairs_to_map(bv.take(0)) =~= Map::<u64, Seq<u8>>::empty());
        assert(Map::<u64, Seq<u8>>::empty().union_prefer_right(Map::<u64, Seq<u8>>::empty()) =~= Map::<u64, Seq<u8>>::empty());
    }
    while i < alen || j < blen
        invariant
            a.wf(),
            b.wf(),
            av == a.blocks_view(),
            bv == b.blocks_view(),
            alen == av.len(),
            blen == bv.len(),
            a.blocks_size + b.blocks_size <= u32::MAX,
            min_block.0 == min_u64(a.min_block.0, b.min_block.0),
            next_block.0 == max_u64(a.next_block.0, b.next_block.0),
            0 <= i <= alen,
            0 <= j <= blen,
            keys_increasing(block_pairs(out@)),
            size == total_len(block_pairs(out@)),
            total_len(block_pairs(out@)) <= total_len(av.take(i as int)) + total_len(bv.take(j as int)),
            forall|x: int| 0 <= x < out@.len() ==> min_block.0 <= #[trigger] block_pairs(out@)[x].0 < next_block.0,
            forall|x: int| 0 <= x < out@.len() ==> (i < alen ==> #[trigger] block_pairs(out@)[x].0 < av[i as int].0)
                && (j < blen ==> block_pairs(out@)[x].0 < bv[j as int].0),
            forall|x: int| 0 <= x < i ==> (j < blen ==> #[trigger] av[x].0 < bv[j as int].0),
            forall|y: int| 0 <= y < j ==> (i < alen ==> #[trigger] bv[y].0 < av[i as int].0),
            pairs_to_map(block_pairs(out@)) == pairs_to_map(bv.take(j as int)).union_prefer_right(
                pairs_to_map(av.take(i as int))),
        decreases alen + blen - i - j,
    {
        let ghost old_out = block_pairs(out@);
        let take_a = i < alen && (j == blen || a.blocks[i].0.0 <= b.blocks[j].0.0);
        let take_b = j < blen && (i == alen || b.blocks[j].0.0 <= a.blocks[i].0.0);
        proof {
            lemma_total_len_take(av, i as int);
            lemma_total_len_take(bv, j as int);
            if i < alen {
                assert(av[i as int].0 == a.blocks@[i as int].0.0);
            }
            if j < blen {
                assert(bv[j as int].0 == b.blocks@[j as int].0.0);
            }
        }
        if take_a {
            let k = a.blocks[i].0;
            let v = copy_bytes(&a.blocks[i].1);
            assert(av[i as int] == (k.0, v@));
            proof {
                lemma_total_len_take(av, i + 1);
            }
            size = size + v.len() as u32;
            out.push((k, v));
            proof {
                assert(block_pairs(out@) =~= old_out.push((k.0, v@)));
                assert(block_pairs(out@).drop_last() =~= old_out);
                assert(av.take(i + 1).drop_last() =~= av.take(i as int));
                assert(av.take(i + 1).last() == av[i as int]);
            }
            if take_b {
                proof {
                    assert(bv.take(j + 1).drop_last() =~= bv.take(j as int));
                    assert(bv.take(j + 1).last() == bv[j as int]);
                    assert(pairs_to_map(block_pairs(out@)) =~= pairs_to_map(bv.take(j + 1)).union_prefer_right(
                        pairs_to_map(av.take(i + 1))));
                }
                j = j + 1;
            } else {
                proof {
                    assert(pairs_to_map(block_pairs(out@)) =~= pairs_to_map(bv.take(j as int)).union_prefer_right(
                        pairs_to_map(av.take(i + 1))));
                }
            }
            i = i + 1;
        } else {
            let k = b.blocks[j].0;
            let v = copy_bytes(&b.blocks[j].1);
            assert(bv[j as int] == (k.0, v@));
            proof {
                lemma_total_len_take(bv, j + 1);
            }
            size = size + v.len() as u32;
            out.push((k, v));
            proof {
                assert(block_pairs(out@) =~= old_out.push((k.0, v@)));
                assert(block_pairs(out@).drop_last() =~= old_out);
                assert(bv.take(j + 1).drop_last() =~= bv.take(j as int));
                assert(bv.take(j + 1).last() == bv[j as int]);
                let am = pairs_to_map(av.take(i as int));
                assert(!am.contains_key(k.0)) by {
                    let t = av.take(i as int);
                    assert(keys_increasing(t));
                    lemma_pairs_to_map(t);
                    if has_key(t, k.0) {
                        let x = choose|x: int| 0 <= x < t.len() && t[x].0 == k.0;
                        assert(t[x] == av[x]);
                    }
                }
                assert(pairs_to_map(block_pairs(out@)) =~= pairs_to_map(bv.take(j + 1)).union_prefer_right(am));
            }
            j = j + 1;
        }
    }
    proof {
        assert(av.take(alen as int) =~= av);
        assert(bv.take(blen as int) =~= bv);
    }
    assert(size <= a.blocks_size + b.blocks_size);
    let r = DataObjectPhys {
        guid: a.guid,
        object: if a.object.0 <= b.object.0 { a.object } else { b.object },
        blocks_size: size,
        min_block,
        next_block,
        min_txg: if a.min_txg.0 <= b.min_txg.0 { a.min_txg } else { b.min_txg },
        max_txg: if a.max_txg.0 >= b.max_txg.0 { a.max_txg } else { b.max_txg },
        blocks: out,
    };
    r
}

} // verus!
