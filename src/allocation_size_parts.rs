use vstd::prelude::*;

verus! {

/// The bytes that one block of the heap takes in memory, part by part.
pub struct AllocationSizeParts {
    /// Bytes taken by the block's header.
    pub header: usize,
    /// Bytes taken by the back-reference word stored just before the data,
    /// which leads from the data pointer back to the header.
    pub header_ptr: usize,
    /// Bytes reserved for data.
    pub data: usize,
}

impl AllocationSizeParts {
    /// The whole footprint of the block: header, back-reference and data.
    pub open spec fn total(&self) -> int {
        self.header + self.header_ptr + self.data
    }

    /// The bytes of the block that hold no data.
    pub open spec fn overhead(&self) -> int {
        self.header + self.header_ptr
    }

    /// Returns the number of bytes from the start of this block to the start
    /// of the next one.
    pub fn get_total_size(&self) -> (r: usize)
        requires
            self.total() <= usize::MAX,
        ensures
            r == self.total(),
    {
        self.data + self.header + self.header_ptr
    }

    /// Returns the number of bytes of the block that are not usable data.
    pub fn get_header_and_ptr_size(&self) -> (r: usize)
        requires
            self.overhead() <= usize::MAX,
        ensures
            r == self.overhead(),
    {
        self.header + self.header_ptr
    }
}

} // verus!
