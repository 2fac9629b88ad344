use vstd::prelude::*;

verus! {

/// Identifier of a pool.
#[derive(Clone, Copy, Debug, PartialEq, Eq, Structural, PartialOrd, Ord, Hash)]
pub struct PoolGUID(pub u64);

/// Number of a transaction group.
#[derive(Clone, Copy, Debug, PartialEq, Eq, Structural, PartialOrd, Ord, Hash)]
pub struct TXG(pub u64);

/// Identifier of a data object in the object store.
#[derive(Clone, Copy, Debug, PartialEq, Eq, Structural, PartialOrd, Ord, Hash)]
pub struct ObjectID(pub u64);

/// Identifier of a block, as assigned by the client filesystem.
#[derive(Clone, Copy, Debug, PartialEq, Eq, Structural, PartialOrd, Ord, Hash)]
pub struct BlockID(pub u64);

/// Identifier of a chunk of a block-based log.
#[derive(Clone, Copy, Debug, PartialEq, Eq, Structural, PartialOrd, Ord, Hash)]
pub struct ChunkID(pub u64);

/// Logical byte offset within a block-based log.
#[derive(Clone, Copy, Debug, PartialEq, Eq, Structural, PartialOrd, Ord, Hash)]
pub struct LogOffset(pub u64);

impl ObjectID {
    /// The identifier that follows this one.
    pub fn next(&self) -> (r: ObjectID)
        requires
            self.0 < u64::MAX,
        ensures
            r.0 == self.0 + 1,
    {
        ObjectID(self.0 + 1)
    }
}

impl BlockID {
    /// The identifier that follows this one.
    pub fn next(&self) -> (r: BlockID)
        requires
            self.0 < u64::MAX,
        ensures
            r.0 == self.0 + 1,
    {
        BlockID(self.0 + 1)
    }
}

impl ChunkID {
    /// The identifier that follows this one.
    pub fn next(&self) -> (r: ChunkID)
        requires
            self.0 < u64::MAX,
        ensures
            r.0 == self.0 + 1,
    {
        ChunkID(self.0 + 1)
    }
}

impl LogOffset {
    /// The number of bytes from `rhs` up to this offset.
    pub fn sub(self, rhs: LogOffset) -> (r: u64)
        requires
            rhs.0 <= self.0,
        ensures
            r == self.0 - rhs.0,
    {
        self.0 - rhs.0
    }
}

} // verus!
