//! A chunked, append-only log of fixed-type records kept in locally
//! allocated disk extents. The log decides how entries are chunked and where
//! each chunk goes; the caller encodes chunks, allocates and frees extents,
//! and does the disk I/O.
use vstd::prelude::*;
use crate::ids::{ChunkID, LogOffset};

verus! {

/// A new extent is at least this large.
pub const DEFAULT_EXTENT_SIZE: u64 = 134217728;
/// A chunk holds at most this many entries.
pub const ENTRIES_PER_CHUNK: usize = 100;

/// A byte offset on disk.
#[derive(Clone, Copy, Debug, PartialEq, Eq, Structural)]
pub struct DiskLocation {
    pub offset: u64,
}

/// A contiguous range of disk.
#[derive(Clone, Copy, Debug, PartialEq, Eq, Structural)]
pub struct Extent {
    pub location: DiskLocation,
    pub size: u64,
}

/// An entry of a block-based log, ordered for lookups by its key.
pub trait BlockBasedLogEntry: Copy {
    spec fn key_spec(&self) -> u64;

    fn key(&self) -> (r: u64)
        ensures
            r == self.key_spec();
}

/// The persistent description of a block-based log.
#[derive(Debug)]
pub struct BlockBasedLogPhys {
    /// Extents by the log offset of their first byte, in offset order.
    pub extents: Vec<(LogOffset, Extent)>,
    pub next_chunk: ChunkID,
    /// Log offset at which the next chunk goes.
    pub next_chunk_offset: LogOffset,
    pub num_entries: u64,
}

/// The extents of `e` follow one another in log offsets, and the next chunk
/// offset lies within the last one.
pub open spec fn extents_wf(e: Seq<(LogOffset, Extent)>, next: u64) -> bool {
    &&& forall|i: int| 0 <= i < e.len() - 1 ==> (#[trigger] e[i]).0.0 + e[i].1.size == e[i + 1].0.0
    &&& forall|i: int| 0 <= i < e.len() ==> (#[trigger] e[i]).0.0 + e[i].1.size <= u64::MAX
        && e[i].1.location.offset + e[i].1.size <= u64::MAX
    &&& forall|i: int| 0 <= i < e.len() ==> e[0].0.0 <= (#[trigger] e[i]).0.0
    &&& e.len() > 0 ==> e.last().0.0 <= next <= e.last().0.0 + e.last().1.size
    &&& e.len() == 0 ==> next == 0
}

/// The number of entries of all the chunks `c`.
pub open spec fn chunk_lens_sum<T>(c: Seq<(LogOffset, Vec<T>)>) -> int
    decreases c.len(),
{
    if c.len() == 0 { 0 } else { chunk_lens_sum(c.drop_last()) + c.last().1@.len() }
}

/// A prefix of the chunks holds no more entries than all of them.
pub proof fn lemma_chunk_lens_sum_take<T>(c: Seq<(LogOffset, Vec<T>)>, n: int)
    requires
        0 <= n <= c.len(),
    ensures
        chunk_lens_sum(c.take(n)) <= chunk_lens_sum(c),
    decreases c.len() - n,
{
    if n < c.len() {
        assert(c.take(n + 1).drop_last() =~= c.take(n));
        lemma_chunk_lens_sum_take(c, n + 1);
    } else {
        assert(c.take(n) =~= c);
    }
}

/// The chunks `c`, read back with their offsets, are those that `p`
/// describes: one per chunk id, each of 1 to `ENTRIES_PER_CHUNK` entries, at
/// rising offsets inside the extents and before the next chunk offset, with
/// `num_entries` entries in all.
pub open spec fn chunks_match<T>(p: BlockBasedLogPhys, c: Seq<(LogOffset, Vec<T>)>) -> bool {
    &&& c.len() == p.next_chunk.0
    &&& c.len() > 0
    &&& p.extents@.len() > 0
    &&& p.extents@[0].0.0 <= c[0].0.0
    &&& forall|i: int| 0 <= i < c.len() ==> 0 < (#[trigger] c[i]).1@.len() <= ENTRIES_PER_CHUNK
        && c[i].0.0 < p.next_chunk_offset.0
    &&& forall|i: int| 0 < i < c.len() ==> c[i - 1].0.0 < (#[trigger] c[i]).0.0
    &&& chunk_lens_sum(c) == p.num_entries
}

/// The extents after the last one shrinks to end at `next` and `extent`
/// starts there; a last extent left empty is replaced.
pub open spec fn shrink_and_add(e: Seq<(LogOffset, Extent)>, next: LogOffset, extent: Extent) -> Seq<(LogOffset, Extent)> {
    if e.len() == 0 {
        e.push((next, extent))
    } else if next.0 - e.last().0.0 == 0 {
        e.update(e.len() - 1, (next, extent))
    } else {
        e.update(e.len() - 1, (e.last().0, Extent { location: e.last().1.location, size: (next.0 - e.last().0.0) as u64 }))
            .push((next, extent))
    }
}

/// The unused tail of the last extent, where the next chunk goes.
pub open spec fn tail_extent(p: BlockBasedLogPhys) -> Extent {
    if p.extents@.len() == 0 {
        Extent { location: DiskLocation { offset: 0 }, size: 0 }
    } else {
        let (off, e) = p.extents@.last();
        Extent {
            location: DiskLocation { offset: (e.location.offset + (p.next_chunk_offset.0 - off.0)) as u64 },
            size: (e.size - (p.next_chunk_offset.0 - off.0)) as u64,
        }
    }
}

impl BlockBasedLogPhys {
    pub open spec fn wf(&self) -> bool {
        extents_wf(self.extents@, self.next_chunk_offset.0)
    }

    /// An empty log.
    pub fn new() -> (r: BlockBasedLogPhys)
        ensures
            r.wf(),
            r.extents@.len() == 0,
            r.next_chunk == ChunkID(0),
            r.next_chunk_offset == LogOffset(0),
            r.num_entries == 0,
    {
        BlockBasedLogPhys { extents: Vec::new(), next_chunk: ChunkID(0), next_chunk_offset: LogOffset(0), num_entries: 0 }
    }
}

/// Where the next chunk goes.
pub enum Placement {
    /// Write the encoded chunk at this location.
    WriteAt(DiskLocation),
    /// The current extent is too small: free its unused tail `free`, then
    /// allocate an extent of at least `min_size` (`target_size` preferred)
    /// and hand it to `add_extent`.
    NeedExtent { free: Extent, min_size: u64, target_size: u64 },
}

/// The entries of all chunks, in order.
pub open spec fn flatten<T>(chunks: Seq<Seq<T>>) -> Seq<T>
    decreases chunks.len(),
{
    if chunks.len() == 0 {
        Seq::empty()
    } else {
        flatten(chunks.drop_last()) + chunks.last()
    }
}

/// A block-based log: its description, the first entry and offset of each
/// chunk (for lookups), and entries appended since the last flush.
pub struct BlockBasedLog<T: BlockBasedLogEntry> {
    phys: BlockBasedLogPhys,
    chunks: Vec<(LogOffset, T)>,
    pending_entries: Vec<T>,
    /// Whether `chunks` covers every chunk (false after an open, until the
    /// index is rebuilt).
    indexed: bool,
    /// The entries of each flushed chunk.
    contents: Ghost<Seq<Seq<T>>>,
}

/// A misuse of, or damage to, a block-based log.
#[derive(Clone, Copy, Debug, PartialEq, Eq, Structural)]
pub enum LogError {
    /// The chunk index has not been rebuilt since the log was opened.
    NotIndexed,
    /// No entries wait to be flushed.
    NothingPending,
    /// The encoded chunk is empty, or larger than the room where it goes.
    DoesNotFit,
    /// An extent would run past the end of the log or disk offsets.
    ExtentOutOfRange,
    /// What was read back does not match the log's description.
    Corrupt,
}

impl<T: BlockBasedLogEntry> BlockBasedLog<T> {
    pub closed spec fn wf(&self) -> bool {
        &&& self.phys.wf()
        &&& self.indexed ==> self.index_wf()
        &&& !self.indexed ==> self.chunks@.len() == 0 && self.contents@.len() == 0
    }

    pub closed spec fn indexed_spec(&self) -> bool {
        self.indexed
    }

    closed spec fn index_wf(&self) -> bool {
        &&& self.chunks@.len() == self.contents@.len()
        &&& self.phys.next_chunk.0 == self.chunks@.len()
        &&& forall|i: int| 0 <= i < self.contents@.len() ==> (#[trigger] self.contents@[i]).len() > 0
            && self.contents@[i].len() <= ENTRIES_PER_CHUNK
            && self.chunks@[i].1 == self.contents@[i][0]
            && self.chunks@[i].0.0 <= self.phys.next_chunk_offset.0
        &&& forall|i: int, j: int| 0 <= i < j < self.chunks@.len() ==> (#[trigger] self.chunks@[i]).0.0 < (#[trigger] self.chunks@[j]).0.0
        &&& self.phys.num_entries == flatten(self.contents@).len()
        &&& (self.chunks@.len() > 0 ==> self.chunks@.last().0.0 < self.phys.next_chunk_offset.0)
        &&& (self.chunks@.len() > 0 ==> self.phys.extents@.len() > 0 && self.phys.extents@[0].0.0 <= self.chunks@[0].0.0)
    }

    /// The entries flushed to disk, in order.
    pub closed spec fn flushed(&self) -> Seq<T> {
        flatten(self.contents@)
    }

    /// The entries of each flushed chunk.
    pub closed spec fn chunk_contents(&self) -> Seq<Seq<T>> {
        self.contents@
    }

    /// The chunk index: the log offset and first entry of each chunk.
    pub closed spec fn chunk_index(&self) -> Seq<(LogOffset, T)> {
        self.chunks@
    }

    /// The log offset of each chunk.
    pub closed spec fn chunk_offsets(&self) -> Seq<u64> {
        self.chunks@.map_values(|c: (LogOffset, T)| c.0.0)
    }

    /// Entries appended and not yet flushed.
    pub closed spec fn pending(&self) -> Seq<T> {
        self.pending_entries@
    }

    pub closed spec fn phys_spec(&self) -> BlockBasedLogPhys {
        self.phys
    }

    /// A new, empty log.
    pub fn new() -> (r: BlockBasedLog<T>)
        ensures
            r.wf(),
            r.flushed() == Seq::<T>::empty(),
            r.pending() == Seq::<T>::empty(),
            r.indexed_spec(),
            r.phys_spec().extents@.len() == 0,
            r.phys_spec().next_chunk == ChunkID(0),
            r.phys_spec().next_chunk_offset == LogOffset(0),
            r.phys_spec().num_entries == 0,
            r.chunk_index().len() == 0,
    {
        let r = BlockBasedLog { phys: BlockBasedLogPhys::new(), chunks: Vec::new(), pending_entries: Vec::new(), indexed: true, contents: Ghost(Seq::empty()) };
        assert(flatten(r.contents@) =~= Seq::<T>::empty());
        r
    }

    /// The log's persistent description.
    pub fn get_phys(&self) -> (r: BlockBasedLogPhys)
        ensures
            r.extents@ == self.phys_spec().extents@,
            r.next_chunk == self.phys_spec().next_chunk,
            r.next_chunk_offset == self.phys_spec().next_chunk_offset,
            r.num_entries == self.phys_spec().num_entries,
    {
        let mut extents: Vec<(LogOffset, Extent)> = Vec::new();
        let mut i: usize = 0;
        while i < self.phys.extents.len()
            invariant
                0 <= i <= self.phys.extents@.len(),
                extents@ == self.phys.extents@.take(i as int),
            decreases self.phys.extents@.len() - i,
        {
            extents.push(self.phys.extents[i]);
            assert(extents@ =~= self.phys.extents@.take(i + 1));
            i = i + 1;
        }
        assert(self.phys.extents@.take(i as int) =~= self.phys.extents@);
        BlockBasedLogPhys { extents, next_chunk: self.phys.next_chunk, next_chunk_offset: self.phys.next_chunk_offset, num_entries: self.phys.num_entries }
    }

    /// Buffers `entry` until the next flush.
    pub fn append(&mut self, entry: T)
        ensures
            final(self).pending() == old(self).pending().push(entry),
            final(self).flushed() == old(self).flushed(),
            old(self).wf() ==> final(self).wf(),
    {
        self.pending_entries.push(entry);
    }

    /// Where the next chunk would go: the unused tail of the last extent.
    pub fn next_write_location(&self) -> (r: Extent)
        requires
            self.wf(),
        ensures
            r == tail_extent(self.phys_spec()),
    {
        let n = self.phys.extents.len();
        if n == 0 {
            return Extent { location: DiskLocation { offset: 0 }, size: 0 };
        }
        let (offset, extent) = self.phys.extents[n - 1];
        let within = self.phys.next_chunk_offset.sub(offset);
        Extent { location: DiskLocation { offset: extent.location.offset + within }, size: extent.size - within }
    }
}


/// Every key in `s` is below the next one.
pub open spec fn keys_sorted<T: BlockBasedLogEntry>(s: Seq<T>) -> bool {
    forall|i: int, j: int| 0 <= i < j < s.len() ==> s[i].key_spec() < s[j].key_spec()
}

/// Flattening one more chunk appends its entries.
pub proof fn lemma_flatten_push<T>(c: Seq<Seq<T>>, x: Seq<T>)
    ensures
        flatten(c.push(x)) == flatten(c) + x,
{
    assert(c.push(x).drop_last() =~= c);
}

impl<T: BlockBasedLogEntry> BlockBasedLog<T> {
    /// The chunk to write next: its id, its log offset, and up to
    /// `ENTRIES_PER_CHUNK` of the pending entries. None when nothing is
    /// pending.
    pub fn next_chunk(&self) -> (r: Option<(ChunkID, LogOffset, Vec<T>)>)
        ensures
            self.pending().len() == 0 <==> r is None,
            r matches Some((id, off, entries)) ==> id == self.phys_spec().next_chunk
                && off == self.phys_spec().next_chunk_offset
                && entries@ == self.pending().take(if self.pending().len() < ENTRIES_PER_CHUNK { self.pending().len() as int } else { ENTRIES_PER_CHUNK as int }),
    {
        let n = self.pending_entries.len();
        if n == 0 {
            return None;
        }
        let k = if n < ENTRIES_PER_CHUNK { n } else { ENTRIES_PER_CHUNK };
        let mut entries: Vec<T> = Vec::new();
        let mut i: usize = 0;
        while i < k
            invariant
                0 <= i <= k <= self.pending_entries@.len(),
                entries@ == self.pending_entries@.take(i as int),
            decreases k - i,
        {
            entries.push(self.pending_entries[i]);
            assert(entries@ =~= self.pending_entries@.take(i + 1));
            i = i + 1;
        }
        Some((self.phys.next_chunk, self.phys.next_chunk_offset, entries))
    }

    /// Where an encoded chunk of `raw_size` bytes goes.
    pub fn place_chunk(&self, raw_size: u64) -> (r: Placement)
        requires
            self.wf(),
        ensures
            r matches Placement::WriteAt(loc) ==> loc == tail_extent(self.phys_spec()).location
                && raw_size <= tail_extent(self.phys_spec()).size,
            r matches Placement::NeedExtent { free, min_size, target_size } ==> free == tail_extent(self.phys_spec())
                && min_size == raw_size
                && target_size == (if raw_size > DEFAULT_EXTENT_SIZE { raw_size } else { DEFAULT_EXTENT_SIZE })
                && raw_size > free.size,
    {
        let tail = self.next_write_location();
        if raw_size > tail.size {
            let target = if raw_size > DEFAULT_EXTENT_SIZE { raw_size } else { DEFAULT_EXTENT_SIZE };
            Placement::NeedExtent { free: tail, min_size: raw_size, target_size: target }
        } else {
            Placement::WriteAt(tail.location)
        }
    }

    /// Takes a newly allocated extent after the unused tail of the last one
    /// was freed: the last extent shrinks to end at the next chunk offset, and
    /// the new one starts there.
    pub fn add_extent(&mut self, extent: Extent) -> (r: Result<(), LogError>)
        requires
            old(self).wf(),
        ensures
            final(self).wf(),
            final(self).flushed() == old(self).flushed(),
            final(self).pending() == old(self).pending(),
            final(self).indexed_spec() == old(self).indexed_spec(),
            final(self).chunk_contents() == old(self).chunk_contents(),
            r is Err <==> old(self).phys_spec().next_chunk_offset.0 + extent.size > u64::MAX
                || extent.location.offset + extent.size > u64::MAX,
            r is Err ==> *final(self) == *old(self),
            r is Ok ==> final(self).phys_spec().extents@.last() == (old(self).phys_spec().next_chunk_offset, extent)
                && final(self).phys_spec().next_chunk_offset == old(self).phys_spec().next_chunk_offset
                && final(self).phys_spec().next_chunk == old(self).phys_spec().next_chunk
                && final(self).phys_spec().num_entries == old(self).phys_spec().num_entries
                && final(self).chunk_index() == old(self).chunk_index()
                && final(self).phys_spec().extents@ == shrink_and_add(old(self).phys_spec().extents@,
                    old(self).phys_spec().next_chunk_offset, extent),
    {
        let next = self.phys.next_chunk_offset;
        if extent.size > u64::MAX - next.0 || extent.size > u64::MAX - extent.location.offset {
            return Err(LogError::ExtentOutOfRange);
        }
        let n = self.phys.extents.len();
        let ghost e0 = self.phys.extents@;
        if n == 0 {
            self.phys.extents.push((next, extent));
        } else {
            let (off, last) = self.phys.extents[n - 1];
            let within = next.0 - off.0;
            if within == 0 {
                self.phys.extents.set(n - 1, (next, extent));
            } else {
                self.phys.extents.set(n - 1, (off, Extent { location: last.location, size: within }));
                self.phys.extents.push((next, extent));
            }
        }
        proof {
            let e1 = self.phys.extents@;
            assert forall|i: int| 0 <= i < e1.len() - 1 implies (#[trigger] e1[i]).0.0 + e1[i].1.size == e1[i + 1].0.0 by {
                if i < n - 1 {
                    assert(e1[i] == e0[i]);
                    if i + 1 < n - 1 {
                        assert(e1[i + 1] == e0[i + 1]);
                    }
                }
            }
            assert forall|i: int| 0 <= i < e1.len() implies (#[trigger] e1[i]).0.0 + e1[i].1.size <= u64::MAX
                && e1[i].1.location.offset + e1[i].1.size <= u64::MAX by {
                if i < n - 1 {
                    assert(e1[i] == e0[i]);
                }
            }
            if self.indexed && self.chunks@.len() > 0 {
                assert(e1[0].0.0 <= e0[0].0.0 || (n == 1 && e0[0].0.0 <= next.0));
            }
        }
        Ok(())
    }

    /// Records that the chunk `next_chunk` handed out, encoded in `raw_size`
    /// bytes, was written where `place_chunk` said.
    pub fn chunk_written(&mut self, raw_size: u64) -> (r: Result<(), LogError>)
        requires
            old(self).wf(),
        ensures
            final(self).wf(),
            final(self).indexed_spec() == old(self).indexed_spec(),
            r == Err::<(), _>(LogError::NotIndexed) <==> !old(self).indexed_spec(),
            r == Err::<(), _>(LogError::NothingPending) <==> old(self).indexed_spec() && old(self).pending().len() == 0,
            r is Err ==> *final(self) == *old(self),
            r is Ok ==> ({
                let k = if old(self).pending().len() < ENTRIES_PER_CHUNK { old(self).pending().len() as int } else { ENTRIES_PER_CHUNK as int };
                &&& final(self).chunk_contents() == old(self).chunk_contents().push(old(self).pending().take(k))
                &&& final(self).flushed() == old(self).flushed() + old(self).pending().take(k)
                &&& final(self).pending() == old(self).pending().skip(k)
                &&& final(self).phys_spec().next_chunk_offset.0 == old(self).phys_spec().next_chunk_offset.0 + raw_size
                &&& final(self).phys_spec().next_chunk.0 == old(self).phys_spec().next_chunk.0 + 1
                &&& final(self).phys_spec().num_entries == old(self).phys_spec().num_entries + k
                &&& final(self).phys_spec().extents@ == old(self).phys_spec().extents@
                &&& final(self).chunk_index() == old(self).chunk_index().push(
                    (old(self).phys_spec().next_chunk_offset, old(self).pending()[0]))
            }),
            old(self).indexed_spec() && old(self).pending().len() > 0 && 0 < raw_size
                && raw_size <= tail_extent(old(self).phys_spec()).size
                && old(self).phys_spec().next_chunk.0 < u64::MAX
                && old(self).phys_spec().num_entries + ENTRIES_PER_CHUNK <= u64::MAX ==> r is Ok,
    {
        if !self.indexed {
            return Err(LogError::NotIndexed);
        }
        let n = self.pending_entries.len();
        if n == 0 {
            return Err(LogError::NothingPending);
        }
        let tail = self.next_write_location();
        if raw_size == 0 || raw_size > tail.size || self.phys.next_chunk.0 == u64::MAX
            || self.phys.num_entries > u64::MAX - ENTRIES_PER_CHUNK as u64 {
            return Err(LogError::DoesNotFit);
        }
        let k = if n < ENTRIES_PER_CHUNK { n } else { ENTRIES_PER_CHUNK };
        let ghost pend0 = self.pending_entries@;
        let ghost taken = pend0.take(k as int);
        let first = self.pending_entries[0];
        let off = self.phys.next_chunk_offset;
        self.chunks.push((off, first));
        let mut rest: Vec<T> = Vec::new();
        let mut i: usize = k;
        while i < n
            invariant
                k <= i <= n,
                n == pend0.len(),
                pend0 == self.pending_entries@,
                rest@ == pend0.subrange(k as int, i as int),
            decreases n - i,
        {
            rest.push(self.pending_entries[i]);
            assert(rest@ =~= pend0.subrange(k as int, i + 1));
            i = i + 1;
        }
        self.pending_entries = rest;
        assert(self.pending_entries@ =~= pend0.skip(k as int));
        let ghost c0 = self.contents@;
        self.contents = Ghost(self.contents@.push(taken));
        proof {
            lemma_flatten_push(c0, taken);
        }
        self.phys.num_entries = self.phys.num_entries + k as u64;
        self.phys.next_chunk = self.phys.next_chunk.next();
        self.phys.next_chunk_offset = LogOffset(off.0 + raw_size);
        proof {
            let ch = self.chunks@;
            let ct = self.contents@;
            assert(taken[0] == first);
            assert forall|i: int| 0 <= i < ct.len() implies (#[trigger] ct[i]).len() > 0
                && ct[i].len() <= ENTRIES_PER_CHUNK && ch[i].1 == ct[i][0]
                && ch[i].0.0 <= self.phys.next_chunk_offset.0 by {
                if i < c0.len() {
                    assert(ct[i] == c0[i]);
                }
            }
            assert forall|i: int, j: int| 0 <= i < j < ch.len() implies (#[trigger] ch[i]).0.0 < (#[trigger] ch[j]).0.0 by {
                if j < ch.len() - 1 {
                } else if i < ch.len() - 1 {
                    assert(ch[i].0.0 < off.0);
                }
            }
        }
        Ok(())
    }
}

/// Extent `j` of `ex` holds log offset `coff`, at disk offset `loc`.
pub open spec fn located_in(ex: Seq<(LogOffset, Extent)>, j: int, coff: u64, loc: u64) -> bool {
    &&& 0 <= j < ex.len()
    &&& ex[j].0.0 <= coff < ex[j].0.0 + ex[j].1.size
    &&& loc == ex[j].1.location.offset + (coff - ex[j].0.0)
}

impl<T: BlockBasedLogEntry> BlockBasedLog<T> {
    /// The exact disk range of chunk `chunk_id` (not its whole extent).
    #[verifier::rlimit(40)]
    pub fn chunk_extent(&self, chunk_id: usize) -> (r: Extent)
        requires
            self.wf(),
            self.indexed_spec(),
            chunk_id < self.chunk_contents().len(),
        ensures
            exists|j: int| located_in(self.phys_spec().extents@, j, self.chunk_offsets()[chunk_id as int], r.location.offset),
            r.size == (if chunk_id + 1 == self.chunk_contents().len() { self.phys_spec().next_chunk_offset.0 }
                else { self.chunk_offsets()[chunk_id + 1] }) - self.chunk_offsets()[chunk_id as int],
    {
        let (coff, _) = self.chunks[chunk_id];
        let end = if chunk_id == self.chunks.len() - 1 { self.phys.next_chunk_offset } else { self.chunks[chunk_id + 1].0 };
        proof {
            let last = self.chunks@.len() - 1;
            if chunk_id < last {
                assert(self.chunks@[chunk_id as int].0.0 < self.chunks@[last].0.0);
            }
            assert(coff.0 < self.phys.next_chunk_offset.0);
        }
        let size = end.sub(coff);
        let n = self.phys.extents.len();
        let ghost ex = self.phys.extents@;
        assert(n > 0);
        // the last extent that starts at or before the chunk
        let mut j: usize = n - 1;
        while self.phys.extents[j].0.0 > coff.0
            invariant
                0 <= j < n,
                n == ex.len(),
                ex == self.phys.extents@,
                ex[0].0.0 <= coff.0,
                forall|x: int| j < x < n ==> coff.0 < (#[trigger] ex[x]).0.0,
            decreases j,
        {
            j = j - 1;
        }
        let (eoff, e) = self.phys.extents[j];
        proof {
            if j + 1 < n {
                assert(ex[j as int].0.0 + ex[j as int].1.size == ex[j + 1].0.0);
            }
        }
        let r = Extent { location: DiskLocation { offset: e.location.offset + (coff.0 - eoff.0) }, size };
        assert(self.chunk_offsets()[chunk_id as int] == coff.0);
        assert(located_in(ex, j as int, coff.0, r.location.offset));
        assert(located_in(self.phys_spec().extents@, j as int, self.chunk_offsets()[chunk_id as int], r.location.offset));
        r
    }

    /// The chunk that would hold `key`: the last one whose first key is at
    /// most `key`. None when `key` is below the first chunk's first key.
    pub fn lookup_chunk(&self, key: u64) -> (r: Result<Option<usize>, LogError>)
        requires
            self.wf(),
        ensures
            r is Err <==> !self.indexed_spec(),
            r matches Ok(None) ==> self.chunk_contents().len() == 0 || key < self.chunk_contents()[0][0].key_spec(),
            r matches Ok(Some(i)) ==> i < self.chunk_contents().len()
                && self.chunk_contents()[i as int][0].key_spec() <= key
                && (i + 1 == self.chunk_contents().len() || key < self.chunk_contents()[i + 1][0].key_spec()),
    {
        if !self.indexed {
            return Err(LogError::NotIndexed);
        }
        let ghost c = self.contents@;
        let mut lo: usize = 0;
        let mut hi: usize = self.chunks.len();
        while lo < hi
            invariant
                0 <= lo <= hi <= c.len(),
                c == self.contents@,
                self.wf(),
                self.indexed,
                lo == 0 || c[lo - 1][0].key_spec() <= key,
                hi == c.len() || key < c[hi as int][0].key_spec(),
            decreases hi - lo,
        {
            let mid = lo + (hi - lo) / 2;
            let k = self.chunks[mid].1.key();
            assert(self.chunks@[mid as int].1 == c[mid as int][0]);
            if k <= key {
                lo = mid + 1;
            } else {
                hi = mid;
            }
        }
        if lo == 0 {
            Ok(None)
        } else {
            Ok(Some(lo - 1))
        }
    }

    /// Frees nothing itself: returns the extents for the caller to free, and
    /// empties the log.
    pub fn clear(&mut self) -> (r: Vec<Extent>)
        ensures
            final(self).wf(),
            final(self).indexed_spec(),
            final(self).flushed() == Seq::<T>::empty(),
            final(self).pending() == Seq::<T>::empty(),
            r@.len() == old(self).phys_spec().extents@.len(),
            forall|i: int| 0 <= i < r@.len() ==> r@[i] == (#[trigger] old(self).phys_spec().extents@[i]).1,
            final(self).phys_spec().extents@.len() == 0,
            final(self).phys_spec().next_chunk == ChunkID(0),
            final(self).phys_spec().next_chunk_offset == LogOffset(0),
            final(self).phys_spec().num_entries == 0,
            final(self).chunk_index().len() == 0,
    {
        let mut r: Vec<Extent> = Vec::new();
        let mut i: usize = 0;
        while i < self.phys.extents.len()
            invariant
                0 <= i <= self.phys.extents@.len(),
                r@.len() == i,
                self.phys == old(self).phys,
                forall|x: int| 0 <= x < i ==> r@[x] == (#[trigger] self.phys.extents@[x]).1,
            decreases self.phys.extents@.len() - i,
        {
            r.push(self.phys.extents[i].1);
            i = i + 1;
        }
        *self = BlockBasedLog::new();
        r
    }
}

/// The entry of `entries` with key `key`, found by binary search; when the
/// keys of `entries` strictly increase, None means that no entry has it.
pub fn lookup_in_chunk<T: BlockBasedLogEntry>(entries: &Vec<T>, key: u64) -> (r: Option<T>)
    ensures
        r matches Some(e) ==> e.key_spec() == key && entries@.contains(e),
        keys_sorted(entries@) && r is None ==> forall|i: int| 0 <= i < entries@.len() ==> (#[trigger] entries@[i]).key_spec() != key,
{
    let mut lo: usize = 0;
    let mut hi: usize = entries.len();
    while lo < hi
        invariant
            0 <= lo <= hi <= entries@.len(),
            keys_sorted(entries@) ==> forall|x: int| 0 <= x < lo ==> (#[trigger] entries@[x]).key_spec() < key,
            keys_sorted(entries@) ==> forall|x: int| hi <= x < entries@.len() ==> key < (#[trigger] entries@[x]).key_spec(),
        decreases hi - lo,
    {
        let mid = lo + (hi - lo) / 2;
        let k = entries[mid].key();
        if k == key {
            assert(entries@[mid as int] == entries[mid as int]);
            return Some(entries[mid]);
        } else if k < key {
            lo = mid + 1;
        } else {
            hi = mid;
        }
    }
    None
}

/// Sum of `s`.
pub open spec fn sum_u64(s: Seq<u64>) -> int
    decreases s.len(),
{
    if s.len() == 0 { 0 } else { sum_u64(s.drop_last()) + s.last() }
}

/// Whether the chunks read back from a log, with ids `ids` holding
/// `counts` entries each, are exactly the log's chunks: ids run from 0 up to
/// the next chunk, and the entries add up to the log's count.
pub fn check_read_back(phys: &BlockBasedLogPhys, ids: &Vec<ChunkID>, counts: &Vec<u64>) -> (r: bool)
    ensures
        r == (ids@.len() == phys.next_chunk.0 && counts@.len() == ids@.len()
            && (forall|i: int| 0 <= i < ids@.len() ==> (#[trigger] ids@[i]).0 == i)
            && sum_u64(counts@) == phys.num_entries),
{
    if ids.len() as u64 != phys.next_chunk.0 || counts.len() != ids.len() {
        return false;
    }
    let mut total: u64 = 0;
    let mut i: usize = 0;
    assert(counts@.take(0) =~= Seq::<u64>::empty());
    while i < ids.len()
        invariant
            0 <= i <= ids@.len(),
            counts@.len() == ids@.len(),
            forall|x: int| 0 <= x < i ==> (#[trigger] ids@[x]).0 == x,
            total == sum_u64(counts@.take(i as int)),
        decreases ids@.len() - i,
    {
        assert(counts@.take(i + 1).drop_last() =~= counts@.take(i as int));
        if ids[i].0 != i as u64 {
            return false;
        }
        if counts[i] > u64::MAX - total {
            proof {
                lemma_sum_u64_take(counts@, i as int + 1);
            }
            return false;
        }
        total = total + counts[i];
        i = i + 1;
    }
    assert(counts@.take(i as int) =~= counts@);
    total == phys.num_entries
}

/// A prefix of `s` sums to at most the sum of `s`.
pub proof fn lemma_sum_u64_take(s: Seq<u64>, n: int)
    requires
        0 <= n <= s.len(),
    ensures
        sum_u64(s.take(n)) <= sum_u64(s),
    decreases s.len() - n,
{
    if n < s.len() {
        assert(s.take(n + 1).drop_last() =~= s.take(n));
        lemma_sum_u64_take(s, n + 1);
    } else {
        assert(s.take(n) =~= s);
    }
}

impl<T: BlockBasedLogEntry> BlockBasedLog<T> {
    /// A log with the persistent description `phys`. Its chunk index is known
    /// only when it has no chunk; otherwise `rebuild_index` restores it from
    /// the chunks read back. The caller claims the extents of `phys` from the
    /// allocator.
    pub fn open(phys: BlockBasedLogPhys) -> (r: Result<BlockBasedLog<T>, LogError>)
        ensures
            r is Ok <==> phys.wf() && (phys.next_chunk.0 == 0 ==> phys.num_entries == 0),
            r matches Ok(log) ==> log.wf() && log.pending() == Seq::<T>::empty()
                && log.indexed_spec() == (phys.next_chunk.0 == 0)
                && log.phys_spec() == phys,
    {
        let n = phys.extents.len();
        let next = phys.next_chunk_offset.0;
        let ghost e = phys.extents@;
        if n == 0 {
            if next != 0 {
                return Err(LogError::Corrupt);
            }
        } else {
            let first = phys.extents[0].0.0;
            let mut i: usize = 0;
            while i < n
                invariant
                    0 <= i <= n,
                    n == e.len(),
                    e == phys.extents@,
                    first == e[0].0.0,
                    forall|x: int| 0 <= x < i ==> (#[trigger] e[x]).0.0 + e[x].1.size <= u64::MAX
                        && e[x].1.location.offset + e[x].1.size <= u64::MAX
                        && first <= e[x].0.0,
                    forall|x: int| 0 <= x < i && x < n - 1 ==> (#[trigger] e[x]).0.0 + e[x].1.size == e[x + 1].0.0,
                decreases n - i,
            {
                let (off, ext) = phys.extents[i];
                if ext.size > u64::MAX - off.0 || ext.size > u64::MAX - ext.location.offset || off.0 < first {
                    return Err(LogError::Corrupt);
                }
                if i + 1 < n && off.0 + ext.size != phys.extents[i + 1].0.0 {
                    return Err(LogError::Corrupt);
                }
                i = i + 1;
            }
            let (loff, lext) = phys.extents[n - 1];
            if !(loff.0 <= next && next - loff.0 <= lext.size) {
                return Err(LogError::Corrupt);
            }
        }
        if phys.next_chunk.0 == 0 && phys.num_entries != 0 {
            return Err(LogError::Corrupt);
        }
        let indexed = phys.next_chunk.0 == 0;
        let log = BlockBasedLog { phys, chunks: Vec::new(), pending_entries: Vec::new(), indexed, contents: Ghost(Seq::empty()) };
        assert(flatten(Seq::<Seq<T>>::empty()) =~= Seq::<T>::empty());
        Ok(log)
    }

    /// Restores the chunk index of an opened log from its chunks read back in
    /// order, each with its log offset and entries.
    #[verifier::rlimit(60)]
    pub fn rebuild_index(&mut self, chunks: Vec<(LogOffset, Vec<T>)>) -> (r: Result<(), LogError>)
        requires
            old(self).wf(),
        ensures
            final(self).wf(),
            r is Err ==> *final(self) == *old(self),
            r is Ok ==> final(self).indexed_spec()
                && final(self).chunk_contents().len() == chunks@.len()
                && forall|i: int| 0 <= i < chunks@.len() ==> (#[trigger] final(self).chunk_contents()[i]) == chunks@[i].1@,
            old(self).indexed_spec() ==> r is Err,
            r is Ok <==> !old(self).indexed_spec() && chunks_match(old(self).phys_spec(), chunks@),
    {
        if self.indexed {
            return Err(LogError::Corrupt);
        }
        let n = chunks.len();
        if n as u64 != self.phys.next_chunk.0 || n == 0 || self.phys.extents.len() == 0 {
            return Err(LogError::Corrupt);
        }
        if chunks[0].0.0 < self.phys.extents[0].0.0 {
            return Err(LogError::Corrupt);
        }
        let mut index: Vec<(LogOffset, T)> = Vec::new();
        let ghost mut contents: Seq<Seq<T>> = Seq::empty();
        let mut total: u64 = 0;
        let mut i: usize = 0;
        assert(flatten(contents) =~= Seq::<T>::empty());
        assert(chunks@.take(0) =~= Seq::<(LogOffset, Vec<T>)>::empty());
        while i < n
            invariant
                *self == *old(self),
                old(self).wf(),
                !old(self).indexed,
                n == self.phys.next_chunk.0,
                self.phys.extents@.len() > 0,
                self.phys.extents@[0].0.0 <= chunks@[0].0.0,
                0 <= i <= n,
                n == chunks@.len(),
                index@.len() == i,
                contents.len() == i,
                total == flatten(contents).len(),
                total == chunk_lens_sum(chunks@.take(i as int)),
                forall|x: int| 0 <= x < i ==> 0 < (#[trigger] chunks@[x]).1@.len() <= ENTRIES_PER_CHUNK
                    && chunks@[x].0.0 < self.phys.next_chunk_offset.0,
                forall|x: int| 0 < x < i ==> chunks@[x - 1].0.0 < (#[trigger] chunks@[x]).0.0,
                forall|x: int| 0 <= x < i ==> (#[trigger] contents[x]) == chunks@[x].1@,
                forall|x: int| 0 <= x < i ==> (#[trigger] contents[x]).len() > 0 && contents[x].len() <= ENTRIES_PER_CHUNK,
                forall|x: int| 0 <= x < i ==> (#[trigger] index@[x]).1 == contents[x][0] && index@[x].0 == chunks@[x].0
                    && index@[x].0.0 < self.phys.next_chunk_offset.0,
                forall|x: int, y: int| 0 <= x < y < i ==> (#[trigger] index@[x]).0.0 < (#[trigger] index@[y]).0.0,
            decreases n - i,
        {
            let off = chunks[i].0;
            let len = chunks[i].1.len();
            if len == 0 || len > ENTRIES_PER_CHUNK || off.0 >= self.phys.next_chunk_offset.0 {
                return Err(LogError::Corrupt);
            }
            if i > 0 && chunks[i - 1].0.0 >= off.0 {
                return Err(LogError::Corrupt);
            }
            assert(chunks@.take(i + 1).drop_last() =~= chunks@.take(i as int));
            if len as u64 > u64::MAX - total {
                proof {
                    lemma_chunk_lens_sum_take(chunks@, i + 1);
                }
                return Err(LogError::Corrupt);
            }
            proof {
                lemma_flatten_push(contents, chunks@[i as int].1@);
            }
            let ghost idx0 = index@;
            index.push((off, chunks[i].1[0]));
            proof {
                contents = contents.push(chunks@[i as int].1@);
                assert forall|x: int, y: int| 0 <= x < y < i + 1 implies (#[trigger] index@[x]).0.0 < (#[trigger] index@[y]).0.0 by {
                    if y == i {
                        assert(index@[x] == idx0[x]);
                        assert(index@[x].0 == chunks@[x].0);
                        if x < i - 1 {
                            assert(idx0[x].0.0 < idx0[i - 1].0.0);
                        }
                    } else {
                        assert(index@[x] == idx0[x]);
                        assert(index@[y] == idx0[y]);
                    }
                }
            }
            total = total + len as u64;
            i = i + 1;
        }
        assert(chunks@.take(n as int) =~= chunks@);
        if total != self.phys.num_entries {
            return Err(LogError::Corrupt);
        }
        self.chunks = index;
        self.contents = Ghost(contents);
        self.indexed = true;
        Ok(())
    }
}
} // verus!

verus! {

impl BlockBasedLogEntry for u64 {
    open spec fn key_spec(&self) -> u64 {
        *self
    }

    fn key(&self) -> (r: u64) {
        *self
    }
}

impl BlockBasedLogEntry for crate::logs::PendingFreesLogEntry {
    open spec fn key_spec(&self) -> u64 {
        self.block.0
    }

    fn key(&self) -> (r: u64) {
        self.block.0
    }
}

/// Where chunk `i` starts among the flattened entries.
pub open spec fn chunk_start<T>(c: Seq<Seq<T>>, i: int) -> int {
    flatten(c.take(i)).len() as int
}

/// Entry `x` of chunk `i` is entry `chunk_start(c, i) + x` of the flattened
/// log, and chunks start in order.
pub proof fn lemma_flatten_index<T>(c: Seq<Seq<T>>, i: int, x: int)
    requires
        0 <= i < c.len(),
        0 <= x < c[i].len(),
    ensures
        chunk_start(c, i) + x < flatten(c).len(),
        flatten(c)[chunk_start(c, i) + x] == c[i][x],
        chunk_start(c, i) + c[i].len() <= flatten(c).len(),
    decreases c.len(),
{
    let d = c.drop_last();
    if i < c.len() - 1 {
        lemma_flatten_index(d, i, x);
        assert(d.take(i) =~= c.take(i));
    } else {
        assert(c.take(i) =~= d);
    }
}

/// Position `p` of the flattened log is entry `x` of chunk `i`.
pub open spec fn in_chunk_at<T>(c: Seq<Seq<T>>, i: int, x: int, p: int) -> bool {
    0 <= i < c.len() && 0 <= x < c[i].len() && p == chunk_start(c, i) + x
}

/// Each position of the flattened log lies in some chunk.
pub proof fn lemma_flatten_position<T>(c: Seq<Seq<T>>, p: int)
    requires
        0 <= p < flatten(c).len(),
    ensures
        exists|i: int, x: int| #[trigger] in_chunk_at(c, i, x, p),
    decreases c.len(),
{
    let d = c.drop_last();
    if p < flatten(d).len() {
        lemma_flatten_position(d, p);
        let (i, x) = choose|i: int, x: int| #[trigger] in_chunk_at(d, i, x, p);
        assert(d.take(i) =~= c.take(i));
        assert(c[i] == d[i]);
        assert(in_chunk_at(c, i, x, p));
    } else {
        let i = c.len() - 1;
        assert(c.take(i) =~= d);
        assert(0 <= p - chunk_start(c, i) < c[i].len());
        assert(in_chunk_at(c, i, p - chunk_start(c, i), p));
    }
}

/// Chunks start in increasing order when none is empty.
pub proof fn lemma_chunk_start_increasing<T>(c: Seq<Seq<T>>, i: int, j: int)
    requires
        0 <= i < j <= c.len(),
        forall|k: int| 0 <= k < c.len() ==> (#[trigger] c[k]).len() > 0,
    ensures
        chunk_start(c, i) + c[i].len() <= chunk_start(c, j),
    decreases j - i,
{
    assert(c.take(i + 1).drop_last() =~= c.take(i));
    assert(c.take(i + 1).last() == c[i]);
    if i + 1 < j {
        lemma_chunk_start_increasing(c, i + 1, j);
    }
}

/// Round trip: recording a chunk of the first `k` pending entries keeps the
/// flushed entries followed by the pending ones unchanged, so appending
/// entries and flushing them all yields them, in order, after the entries
/// already flushed.
pub proof fn lemma_flush_round_trip<T>(c: Seq<Seq<T>>, pending: Seq<T>, k: int)
    requires
        0 <= k <= pending.len(),
    ensures
        flatten(c.push(pending.take(k))) + pending.skip(k) == flatten(c) + pending,
{
    lemma_flatten_push(c, pending.take(k));
    assert(pending.take(k) + pending.skip(k) =~= pending);
    assert(flatten(c) + pending.take(k) + pending.skip(k) =~= flatten(c) + (pending.take(k) + pending.skip(k)));
}

/// Lookup: when the flushed entries have strictly increasing keys, the chunk
/// that `lookup_chunk` picks for `key` (first key at most `key`, next chunk's
/// first key above it) holds every flushed entry with that key; so looking
/// the key up in that chunk finds the unique such entry, or shows none.
pub proof fn lemma_lookup_finds_key<T: BlockBasedLogEntry>(c: Seq<Seq<T>>, i: int, key: u64, p: int)
    requires
        forall|k: int| 0 <= k < c.len() ==> (#[trigger] c[k]).len() > 0,
        keys_sorted(flatten(c)),
        0 <= i < c.len(),
        c[i][0].key_spec() <= key,
        i + 1 == c.len() || key < c[i + 1][0].key_spec(),
        0 <= p < flatten(c).len(),
        flatten(c)[p].key_spec() == key,
    ensures
        exists|x: int| 0 <= x < c[i].len() && c[i][x] == flatten(c)[p],
{
    let f = flatten(c);
    lemma_flatten_position(c, p);
    let (j, x) = choose|j: int, x: int| #[trigger] in_chunk_at(c, j, x, p);
    lemma_flatten_index(c, j, x);
    if j < i {
        lemma_chunk_start_increasing(c, j, i);
        lemma_flatten_index(c, i, 0);
        assert(f[p].key_spec() < f[chunk_start(c, i)].key_spec());
    } else if j > i {
        lemma_flatten_index(c, i + 1, 0);
        lemma_flatten_index(c, j, 0);
        if i + 1 < j {
            lemma_chunk_start_increasing(c, i + 1, j);
            assert(f[chunk_start(c, i + 1)].key_spec() < f[chunk_start(c, j)].key_spec());
        }
        if x > 0 {
            assert(f[chunk_start(c, j)].key_spec() < f[p].key_spec());
        }
    }
}

} // verus!
