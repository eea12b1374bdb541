//! Id tables that differ between two versions by a block of ids inserted in
//! the newer one.
use vstd::prelude::*;

verus! {

/// The newer version has `count` ids inserted at `insert_at`: ids below it
/// are shared, ids at or above it move up by `count`.
#[derive(Debug, Clone, Copy, PartialEq, Eq)]
pub struct IdShift {
    pub insert_at: u32,
    pub count: u32,
}

impl IdShift {
    /// The inserted block ends within the id range.
    pub open spec fn wf(self) -> bool {
        self.insert_at + self.count <= u32::MAX
    }

    /// Whether `id` is one of the ids that only the newer version has.
    pub open spec fn spec_is_inserted(self, id: u32) -> bool {
        self.insert_at <= id < self.insert_at + self.count
    }

    /// An id of the older version in the newer one (wrapping at the top of
    /// the id range).
    pub open spec fn spec_up(self, id: u32) -> u32 {
        if id >= self.insert_at {
            ((id + self.count) % 0x1_0000_0000) as u32
        } else {
            id
        }
    }

    /// An id of the newer version in the older one; the inserted ids have no
    /// counterpart and are left as they are.
    pub open spec fn spec_down(self, id: u32) -> u32 {
        if id >= self.insert_at + self.count {
            (id - self.count) as u32
        } else {
            id
        }
    }

    /// `count` ids inserted at `insert_at`.
    pub fn inserted(count: u32, insert_at: u32) -> (s: IdShift)
        requires
            insert_at + count <= u32::MAX,
        ensures
            s == (IdShift { insert_at, count }),
            s.wf(),
    {
        IdShift { insert_at, count }
    }

    /// Maps an id of the older version to the newer one.
    pub fn up(&self, id: u32) -> (r: u32)
        ensures
            r == self.spec_up(id),
    {
        if id >= self.insert_at {
            id.wrapping_add(self.count)
        } else {
            id
        }
    }

    /// Maps an id of the newer version to the older one.
    pub fn down(&self, id: u32) -> (r: u32)
        requires
            self.wf(),
        ensures
            r == self.spec_down(id),
    {
        if id >= self.insert_at + self.count {
            id - self.count
        } else {
            id
        }
    }

    /// Whether `id` exists only in the newer version.
    pub fn is_inserted(&self, id: u32) -> (b: bool)
        requires
            self.wf(),
        ensures
            b == self.spec_is_inserted(id),
    {
        self.insert_at <= id && id < self.insert_at + self.count
    }

    /// Going up and back down gives the id back, unless moving it up ran
    /// past the top of the id range.
    pub proof fn lemma_down_up(self, id: u32)
        requires
            self.wf(),
            id < self.insert_at || id + self.count <= u32::MAX,
        ensures
            self.spec_down(self.spec_up(id)) == id,
    {
    }

    /// No id of the older version lands on an inserted id, unless moving it
    /// up ran past the top of the id range.
    pub proof fn lemma_up_avoids_inserted(self, id: u32)
        requires
            self.wf(),
            id < self.insert_at || id + self.count <= u32::MAX,
        ensures
            !self.spec_is_inserted(self.spec_up(id)),
    {
    }

    /// Going down and back up gives the id back for every id the older
    /// version also has.
    pub proof fn lemma_up_down(self, id: u32)
        requires
            self.wf(),
            !self.spec_is_inserted(id),
        ensures
            self.spec_up(self.spec_down(id)) == id,
    {
    }
}

} // verus!
