//! The in-memory map from each data object to the first block it may hold.
use vstd::prelude::*;
use crate::ids::{BlockID, ObjectID};
use crate::sorted::{has_key, keys_increasing, remove_key, lemma_remove_key_index,
    lemma_remove_absent_key, lemma_remove_index_increasing};

verus! {

/// Objects and first blocks both strictly increase along `s`.
pub open spec fn monotone(s: Seq<(u64, u64)>) -> bool {
    forall|i: int, j: int| 0 <= i < j < s.len() ==> s[i].0 < s[j].0 && s[i].1 < s[j].1
}

/// The object at index `i` of `s` is the one that holds `block`: its first
/// block is at most `block`, and the next object's first block is above it.
pub open spec fn holds_block(s: Seq<(u64, u64)>, i: int, block: u64) -> bool {
    &&& 0 <= i < s.len()
    &&& s[i].1 <= block
    &&& (i + 1 == s.len() || block < s[i + 1].1)
}

/// The last object of `s`, or 0 when there is none.
pub open spec fn last_obj_of(s: Seq<(u64, u64)>) -> u64 {
    if s.len() == 0 { 0 } else { s.last().0 }
}

/// Whether an object with this first block may follow the objects of `s`.
pub open spec fn may_append(s: Seq<(u64, u64)>, obj: u64, block: u64) -> bool {
    s.len() == 0 || (s.last().0 < obj && s.last().1 < block)
}

/// Map from object to the first block that the object may hold, ordered by
/// object. Its view lists the (object, first block) pairs in order.
pub struct ObjectBlockMap {
    entries: Vec<(u64, u64)>,
}

impl View for ObjectBlockMap {
    type V = Seq<(u64, u64)>;

    closed spec fn view(&self) -> Seq<(u64, u64)> {
        self.entries@
    }
}

impl ObjectBlockMap {
    pub open spec fn wf(&self) -> bool {
        monotone(self@)
    }

    /// An empty map.
    pub fn new() -> (r: ObjectBlockMap)
        ensures
            r@ == Seq::<(u64, u64)>::empty(),
            r.wf(),
    {
        ObjectBlockMap { entries: Vec::new() }
    }

    /// Number of objects in the map.
    pub fn len(&self) -> (r: usize)
        ensures
            r == self@.len(),
    {
        self.entries.len()
    }

    /// The (object, first block) pair at index `i`.
    pub fn entry(&self, i: usize) -> (r: (ObjectID, BlockID))
        requires
            i < self@.len(),
        ensures
            r.0.0 == self@[i as int].0,
            r.1.0 == self@[i as int].1,
    {
        let (o, b) = self.entries[i];
        (ObjectID(o), BlockID(b))
    }

    /// The largest object in the map, or object 0 for an empty map.
    pub fn last_obj(&self) -> (r: ObjectID)
        ensures
            r.0 == last_obj_of(self@),
    {
        let n = self.entries.len();
        if n == 0 {
            ObjectID(0)
        } else {
            ObjectID(self.entries[n - 1].0)
        }
    }

    /// Adds an object after all the others.
    pub fn insert(&mut self, obj: ObjectID, first_possible_block: BlockID)
        requires
            old(self).wf(),
            may_append(old(self)@, obj.0, first_possible_block.0),
        ensures
            final(self)@ == old(self)@.push((obj.0, first_possible_block.0)),
            final(self).wf(),
    {
        self.entries.push((obj.0, first_possible_block.0));
    }

    /// Whether the map holds `obj`.
    pub fn contains(&self, obj: ObjectID) -> (r: bool)
        ensures
            r == has_key(self@, obj.0),
    {
        let mut i: usize = 0;
        while i < self.entries.len()
            invariant
                0 <= i <= self@.len(),
                forall|j: int| 0 <= j < i ==> self@[j].0 != obj.0,
            decreases self@.len() - i,
        {
            if self.entries[i].0 == obj.0 {
                return true;
            }
            i = i + 1;
        }
        false
    }

    /// Removes `obj`, if present.
    pub fn remove(&mut self, obj: ObjectID)
        requires
            old(self).wf(),
        ensures
            final(self)@ == remove_key(old(self)@, obj.0),
            final(self).wf(),
    {
        let mut i: usize = 0;
        while i < self.entries.len()
            invariant
                0 <= i <= self@.len(),
                self@ == old(self)@,
                old(self).wf(),
                forall|j: int| 0 <= j < i ==> self@[j].0 != obj.0,
            decreases self@.len() - i,
        {
            if self.entries[i].0 == obj.0 {
                proof {
                    assert(keys_increasing(self@));
                    lemma_remove_key_index(self@, i as int);
                    lemma_remove_index_increasing(self@, i as int);
                    let s = self@;
                    let r = s.remove(i as int);
                    assert forall|a: int, b: int| 0 <= a < b < r.len() implies r[a].0 < r[b].0
                        && r[a].1 < r[b].1 by {
                        let a2 = if a < i { a } else { a + 1 };
                        let b2 = if b < i { b } else { b + 1 };
                        assert(r[a] == s[a2]);
                        assert(r[b] == s[b2]);
                    }
                }
                self.entries.remove(i);
                return;
            }
            i = i + 1;
        }
        proof {
            lemma_remove_absent_key(self@, obj.0);
        }
    }

    /// The object that holds `block`: the one with the largest first block
    /// that is at most `block`. None when every first block is above `block`.
    pub fn block_to_obj(&self, block: BlockID) -> (r: Option<ObjectID>)
        requires
            self.wf(),
        ensures
            r.is_none() <==> (self@.len() == 0 || block.0 < self@[0].1),
            r matches Some(o) ==> exists|i: int| holds_block(self@, i, block.0) && self@[i].0 == o.0,
    {
        let mut lo: usize = 0;
        let mut hi: usize = self.entries.len();
        while lo < hi
            invariant
                0 <= lo <= hi <= self@.len(),
                self.wf(),
                forall|j: int| 0 <= j < lo ==> self@[j].1 <= block.0,
                forall|j: int| hi <= j < self@.len() ==> block.0 < self@[j].1,
            decreases hi - lo,
        {
            let mid = lo + (hi - lo) / 2;
            if self.entries[mid].1 <= block.0 {
                lo = mid + 1;
            } else {
                hi = mid;
            }
        }
        if lo == 0 {
            None
        } else {
            assert(holds_block(self@, lo - 1, block.0));
            Some(ObjectID(self.entries[lo - 1].0))
        }
    }
}

} // verus!
