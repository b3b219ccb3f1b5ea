use vstd::prelude::*;

use crate::allocation_size_parts::AllocationSizeParts;
use vstd::arithmetic::div_mod::{
    lemma_fundamental_div_mod,
    lemma_mod_multiples_basic,
    lemma_mod_self_0,
    lemma_small_mod,
};

verus! {

/// Bytes taken by a block header: a free flag and a data size, laid out as a
/// C struct on a 64-bit target.
pub const HEADER_SIZE: usize = 16;

/// Bytes taken by the back-reference word stored just before a block's data.
pub const WORD_SIZE: usize = 8;

/// One block of the heap, as its header describes it.
///
/// `addr` is where the header stands; `is_free` and `size` are the header's
/// fields; `padding` is the alignment gap between the header and the
/// back-reference word, set when the block is handed out.
#[derive(Clone, Copy, Debug, PartialEq, Eq, Structural)]
pub struct Allocation {
    pub addr: usize,
    pub is_free: bool,
    pub size: usize,
    pub padding: usize,
}

impl Allocation {
    /// Bytes from this block's header to the next block's header.
    pub open spec fn footprint(&self) -> int {
        HEADER_SIZE + WORD_SIZE + self.size
    }

    /// The address just past this block.
    pub open spec fn end(&self) -> int {
        self.addr + self.footprint()
    }

    /// Where the back-reference word of an allocated block stands.
    pub open spec fn back_ref_addr(&self) -> int {
        self.addr + HEADER_SIZE + self.padding
    }

    /// The address handed to the caller for an allocated block.
    pub open spec fn data_start(&self) -> int {
        self.back_ref_addr() + WORD_SIZE
    }

    /// The layout facts of this block.
    pub fn get_size(&self) -> (r: AllocationSizeParts)
        ensures
            r.header == HEADER_SIZE,
            r.header_ptr == WORD_SIZE,
            r.data == self.size,
            r.total() == self.footprint(),
            r.overhead() == HEADER_SIZE + WORD_SIZE,
    {
        AllocationSizeParts { header: HEADER_SIZE, header_ptr: WORD_SIZE, data: self.size }
    }

    /// Marks the block as free or in use; nothing else changes.
    pub fn mark(&mut self, is_free: bool)
        ensures
            *final(self) == (Allocation { is_free, ..*old(self) }),
    {
        self.is_free = is_free;
    }

    /// Padding bytes needed after the header so that the data, which follows
    /// the back-reference word, starts at a multiple of `align`.
    pub fn offset_for_layout(&self, align: usize) -> (r: usize)
        requires
            align > 0,
            self.addr + HEADER_SIZE + WORD_SIZE <= usize::MAX,
        ensures
            r == pad_for(self.addr as int, align as int),
            r < align,
    {
        let data_addr = self.addr + HEADER_SIZE + WORD_SIZE;
        (align - data_addr % align) % align
    }
}

/// Padding that puts the data of a block whose header is at `addr` on a
/// multiple of `align`.
pub open spec fn pad_for(addr: int, align: int) -> int {
    (align - (addr + HEADER_SIZE + WORD_SIZE) % align) % align
}

/// A block can serve a request when it is free, holds the padding and the
/// requested bytes, and the data it would hand out ends within the heap,
/// whose end is `end`. Only the last block can reach past the heap's end: its
/// footprint counts a back-reference word beyond it, which is never handed out.
pub open spec fn fits(b: Allocation, size: int, align: int, end: int) -> bool {
    &&& b.is_free
    &&& b.size >= pad_for(b.addr as int, align) + size
    &&& b.addr + HEADER_SIZE + WORD_SIZE + pad_for(b.addr as int, align) + size <= end
}

/// The first block at index `i` or later that can serve a request.
pub open spec fn first_fit_from(
    blocks: Seq<Allocation>,
    size: int,
    align: int,
    end: int,
    i: int,
) -> Option<int>
    decreases blocks.len() - i,
{
    if i < 0 || i >= blocks.len() {
        None
    } else if fits(blocks[i], size, align, end) {
        Some(i)
    } else {
        first_fit_from(blocks, size, align, end, i + 1)
    }
}

/// The first block of the heap that can serve a request.
pub open spec fn first_fit(blocks: Seq<Allocation>, size: int, align: int, end: int) -> Option<
    int,
> {
    first_fit_from(blocks, size, align, end, 0)
}

/// Whether splitting block `i` for a request leaves a remainder that holds a
/// header, a back-reference word and at least one byte.
pub open spec fn can_split(b: Allocation, size: int, align: int) -> bool {
    b.size > size + pad_for(b.addr as int, align) + HEADER_SIZE + WORD_SIZE
}

/// Block `i` shrunk to the padding and the request, followed by a new free
/// block holding the rest; the blocks unchanged when the rest is too small.
pub open spec fn split(blocks: Seq<Allocation>, i: int, size: int, align: int) -> Seq<Allocation> {
    let b = blocks[i];
    let p = pad_for(b.addr as int, align);
    if can_split(b, size, align) {
        blocks.update(i, Allocation { size: (p + size) as usize, ..b }).insert(
            i + 1,
            Allocation {
                addr: (b.addr + HEADER_SIZE + WORD_SIZE + p + size) as usize,
                is_free: true,
                size: (b.size - p - size - HEADER_SIZE - WORD_SIZE) as usize,
                padding: 0,
            },
        )
    } else {
        blocks
    }
}

/// The blocks after block `i` serves a request: split, then marked in use
/// with the padding that aligns its data.
pub open spec fn place(blocks: Seq<Allocation>, i: int, size: int, align: int) -> Seq<Allocation> {
    let s = split(blocks, i, size, align);
    s.update(
        i,
        Allocation {
            is_free: false,
            padding: pad_for(blocks[i].addr as int, align) as usize,
            ..s[i]
        },
    )
}

/// Block `i` takes in the whole footprint of block `i + 1`.
pub open spec fn absorb(blocks: Seq<Allocation>, i: int) -> Seq<Allocation> {
    blocks.update(
        i,
        Allocation { size: (blocks[i].size + blocks[i + 1].footprint()) as usize, ..blocks[i] },
    ).remove(i + 1)
}

/// Block `i` takes in each following block for as long as that block is free.
pub open spec fn merge_forward(blocks: Seq<Allocation>, i: int) -> Seq<Allocation>
    decreases blocks.len(),
{
    if 0 <= i && i + 1 < blocks.len() && blocks[i + 1].is_free {
        merge_forward(absorb(blocks, i), i)
    } else {
        blocks
    }
}

/// The blocks after block `i` is given back: marked free, then merged forward.
pub open spec fn release(blocks: Seq<Allocation>, i: int) -> Seq<Allocation> {
    merge_forward(blocks.update(i, Allocation { is_free: true, ..blocks[i] }), i)
}

/// Whether `ptr` is the data address of a block in use.
pub open spec fn is_allocated(blocks: Seq<Allocation>, ptr: int) -> bool {
    exists|i: int|
        0 <= i < blocks.len() && !(#[trigger] blocks[i]).is_free && blocks[i].data_start() == ptr
}

/// The block in use whose data address is `ptr`.
pub open spec fn owner(blocks: Seq<Allocation>, ptr: int) -> int {
    choose|i: int|
        0 <= i < blocks.len() && !(#[trigger] blocks[i]).is_free && blocks[i].data_start() == ptr
}

/// The blocks form one chain over the heap `[start, end)`: the first starts at
/// `start`, each next one starts where the one before it ends, and every
/// header lies inside the heap. The heap's first block is sized as the heap
/// less one header, so the last block's footprint, which counts a
/// back-reference word, ends one word past `end`; `fits` keeps that word from
/// ever being handed out.
pub open spec fn chain_ok(start: int, end: int, blocks: Seq<Allocation>) -> bool {
    &&& start < end
    &&& end + HEADER_SIZE + WORD_SIZE <= usize::MAX
    &&& blocks.len() > 0
    &&& blocks[0].addr == start
    &&& forall|i: int|
        #![trigger blocks[i].end()]
        0 <= i < blocks.len() - 1 ==> blocks[i + 1].addr == blocks[i].end()
    &&& blocks[blocks.len() - 1].end() == end + WORD_SIZE
    &&& forall|i: int| 0 <= i < blocks.len() ==> #[trigger] blocks[i].addr < end
    &&& forall|i: int|
        0 <= i < blocks.len() && !(#[trigger] blocks[i]).is_free ==> blocks[i].padding
            < blocks[i].size
}

/// What the first-fit search finds: a block that fits at or after `i`, with
/// none fitting between `i` and it.
pub proof fn lemma_first_fit_from(
    blocks: Seq<Allocation>,
    size: int,
    align: int,
    end: int,
    i: int,
)
    requires
        0 <= i,
    ensures
        first_fit_from(blocks, size, align, end, i) matches Some(k) ==> {
            &&& i <= k < blocks.len()
            &&& fits(blocks[k], size, align, end)
            &&& forall|j: int| i <= j < k ==> !fits(#[trigger] blocks[j], size, align, end)
        },
        first_fit_from(blocks, size, align, end, i) is None ==> forall|j: int|
            i <= j < blocks.len() ==> !fits(#[trigger] blocks[j], size, align, end),
    decreases blocks.len() - i,
{
    if i < blocks.len() && !fits(blocks[i], size, align, end) {
        lemma_first_fit_from(blocks, size, align, end, i + 1);
    }
}

/// Every block ends where the next one starts, or one word past the heap's
/// end for the last one.
pub proof fn lemma_block_end(start: int, end: int, blocks: Seq<Allocation>, i: int)
    requires
        chain_ok(start, end, blocks),
        0 <= i < blocks.len(),
    ensures
        i + 1 < blocks.len() ==> blocks[i].end() == blocks[i + 1].addr && blocks[i].end() < end,
        i + 1 == blocks.len() ==> blocks[i].end() == end + WORD_SIZE,
        blocks[i].end() <= end + WORD_SIZE,
{
    if i + 1 < blocks.len() {
        assert(blocks[i].end() == blocks[i + 1].addr);
        assert(blocks[i + 1].addr < end);
    }
}

/// Splitting block `b` for a request keeps it well formed: it is free, or the
/// padding recorded for its data stays below its new size.
pub open spec fn split_keeps_padding(b: Allocation, size: int, align: int) -> bool {
    b.is_free || b.padding < pad_for(b.addr as int, align) + size
}

/// Splitting a block keeps the chain whole, unless it would shrink a block in
/// use below its recorded padding.
pub proof fn lemma_split_chain(
    start: int,
    end: int,
    blocks: Seq<Allocation>,
    i: int,
    size: int,
    align: int,
)
    requires
        chain_ok(start, end, blocks),
        0 <= i < blocks.len(),
        size >= 0,
        align > 0,
    ensures
        split_keeps_padding(blocks[i], size, align) || !can_split(blocks[i], size, align)
            ==> chain_ok(start, end, split(blocks, i, size, align)),
        split(blocks, i, size, align).len() == blocks.len() + (if can_split(
            blocks[i],
            size,
            align,
        ) {
            1int
        } else {
            0int
        }),
        split(blocks, i, size, align)[i].addr == blocks[i].addr,
        split(blocks, i, size, align)[i].is_free == blocks[i].is_free,
        split(blocks, i, size, align)[i].padding == blocks[i].padding,
        blocks[i].size >= pad_for(blocks[i].addr as int, align) + size ==> split(
            blocks,
            i,
            size,
            align,
        )[i].size >= pad_for(blocks[i].addr as int, align) + size,
        forall|k: int| 0 <= k < i ==> split(blocks, i, size, align)[k] == blocks[k],
{
    lemma_block_end(start, end, blocks, i);
    let b = blocks[i];
    let p = pad_for(b.addr as int, align);
    if can_split(b, size, align) {
        let b1 = Allocation { size: (p + size) as usize, ..b };
        let r = Allocation {
            addr: (b.addr + HEADER_SIZE + WORD_SIZE + p + size) as usize,
            is_free: true,
            size: (b.size - p - size - HEADER_SIZE - WORD_SIZE) as usize,
            padding: 0,
        };
        let u = blocks.update(i, b1);
        let s = u.insert(i + 1, r);
        assert(s == split(blocks, i, size, align));
        u.insert_ensures(i + 1, r);
        assert(s[i] == b1);
        assert(s[i + 1] == r);
        assert(b1.end() == r.addr);
        assert(r.end() == b.end());
        assert forall|k: int| 0 <= k < s.len() - 1 implies #[trigger] s[k + 1].addr == s[k].end() by {
            if k < i - 1 {
                assert(blocks[k].end() == blocks[k + 1].addr);
            } else if k == i - 1 {
                assert(blocks[k].end() == blocks[k + 1].addr);
            } else if k == i {
            } else if k == i + 1 {
                assert(s[k + 1] == blocks[i + 1]);
            } else {
                assert(s[k] == blocks[k - 1]);
                assert(s[k + 1] == blocks[k]);
                assert(blocks[k - 1].end() == blocks[k].addr);
            }
        }
        assert forall|k: int| 0 <= k < s.len() implies #[trigger] s[k].addr < end by {
            if k < i {
                assert(s[k] == blocks[k]);
            } else if k > i + 1 {
                assert(s[k] == blocks[k - 1]);
            }
        }
        if split_keeps_padding(b, size, align) {
            assert forall|k: int| 0 <= k < s.len() && !(#[trigger] s[k]).is_free implies s[k].padding
                < s[k].size by {
                if k < i {
                    assert(s[k] == blocks[k]);
                } else if k > i + 1 {
                    assert(s[k] == blocks[k - 1]);
                }
            }
        }
        if i + 1 < blocks.len() {
            assert(s[s.len() - 1] == blocks[blocks.len() - 1]);
        }
    }
}

/// The padding puts the data on a multiple of the alignment.
pub proof fn lemma_pad_aligns(addr: int, align: int)
    requires
        addr >= 0,
        align > 0,
    ensures
        0 <= pad_for(addr, align) < align,
        (addr + HEADER_SIZE + WORD_SIZE + pad_for(addr, align)) % align == 0,
{
    let x = addr + HEADER_SIZE + WORD_SIZE;
    let r = x % align;
    let q = x / align;
    lemma_fundamental_div_mod(x, align);
    if r == 0 {
        lemma_mod_self_0(align);
        assert(pad_for(addr, align) == 0);
    } else {
        lemma_small_mod((align - r) as nat, align as nat);
        assert(pad_for(addr, align) == align - r);
        assert(x + (align - r) == (q + 1) * align) by (nonlinear_arith)
            requires
                x == align * q + r,
        ;
        lemma_mod_multiples_basic(q + 1, align);
    }
}

/// Handing out the first block that fits keeps the chain whole, and the block
/// handed out holds its padding and the request.
pub proof fn lemma_place_chain(
    start: int,
    end: int,
    blocks: Seq<Allocation>,
    i: int,
    size: int,
    align: int,
)
    requires
        chain_ok(start, end, blocks),
        0 <= i < blocks.len(),
        size > 0,
        align > 0,
        fits(blocks[i], size, align, end),
    ensures
        chain_ok(start, end, place(blocks, i, size, align)),
        place(blocks, i, size, align)[i].addr == blocks[i].addr,
        !place(blocks, i, size, align)[i].is_free,
        place(blocks, i, size, align)[i].padding == pad_for(blocks[i].addr as int, align),
        place(blocks, i, size, align)[i].data_start() + size <= place(
            blocks,
            i,
            size,
            align,
        )[i].end(),
        place(blocks, i, size, align)[i].data_start() % align == 0,
        place(blocks, i, size, align).len() == split(blocks, i, size, align).len(),
        forall|k: int| 0 <= k < i ==> place(blocks, i, size, align)[k] == blocks[k],
{
    lemma_split_chain(start, end, blocks, i, size, align);
    lemma_pad_aligns(blocks[i].addr as int, align);
    let s = split(blocks, i, size, align);
    let t = place(blocks, i, size, align);
    assert(t[i].end() == s[i].end());
    assert forall|k: int| 0 <= k < t.len() - 1 implies #[trigger] t[k + 1].addr == t[k].end() by {
        assert(s[k].end() == s[k + 1].addr);
    }
    assert forall|k: int| 0 <= k < t.len() implies #[trigger] t[k].addr < end by {
        assert(s[k].addr < end);
    }
    assert forall|k: int| 0 <= k < t.len() && !(#[trigger] t[k]).is_free implies t[k].padding
        < t[k].size by {
        if k != i {
            assert(t[k] == s[k]);
        }
    }
    assert(t[t.len() - 1].end() == s[s.len() - 1].end());
}

/// A block taking in the block after it keeps the chain whole.
pub proof fn lemma_absorb_chain(start: int, end: int, blocks: Seq<Allocation>, i: int)
    requires
        chain_ok(start, end, blocks),
        0 <= i,
        i + 1 < blocks.len(),
    ensures
        chain_ok(start, end, absorb(blocks, i)),
        absorb(blocks, i).len() == blocks.len() - 1,
        absorb(blocks, i)[i].size == blocks[i].size + blocks[i + 1].footprint(),
        absorb(blocks, i)[i] == (Allocation {
            size: (blocks[i].size + blocks[i + 1].footprint()) as usize,
            ..blocks[i]
        }),
        forall|k: int| 0 <= k < i ==> absorb(blocks, i)[k] == blocks[k],
        forall|k: int| i < k < absorb(blocks, i).len() ==> absorb(blocks, i)[k] == blocks[k + 1],
{
    lemma_block_end(start, end, blocks, i);
    lemma_block_end(start, end, blocks, i + 1);
    let b = blocks[i];
    assert(b.size + blocks[i + 1].footprint() <= usize::MAX);
    let b1 = Allocation { size: (b.size + blocks[i + 1].footprint()) as usize, ..b };
    let u = blocks.update(i, b1);
    let s = u.remove(i + 1);
    u.remove_ensures(i + 1);
    assert(s == absorb(blocks, i));
    assert(b1.end() == blocks[i + 1].end());
    assert forall|k: int| 0 <= k < s.len() - 1 implies #[trigger] s[k + 1].addr == s[k].end() by {
        if k < i {
            assert(blocks[k].end() == blocks[k + 1].addr);
        } else if k == i {
            assert(blocks[i + 1].end() == blocks[i + 2].addr);
        } else {
            assert(blocks[k + 1].end() == blocks[k + 2].addr);
        }
    }
    assert forall|k: int| 0 <= k < s.len() implies #[trigger] s[k].addr < end by {
        if k > i {
            assert(s[k] == blocks[k + 1]);
        }
    }
    assert forall|k: int| 0 <= k < s.len() && !(#[trigger] s[k]).is_free implies s[k].padding
        < s[k].size by {
        if k > i {
            assert(s[k] == blocks[k + 1]);
        } else if k < i {
            assert(s[k] == blocks[k]);
        }
    }
    assert(s[s.len() - 1].end() == end + WORD_SIZE);
}

/// Merging forward keeps the chain whole, leaves the blocks before `i` as
/// they were, and only grows block `i`.
pub proof fn lemma_merge_forward(start: int, end: int, blocks: Seq<Allocation>, i: int)
    requires
        chain_ok(start, end, blocks),
        0 <= i < blocks.len(),
    ensures
        chain_ok(start, end, merge_forward(blocks, i)),
        i < merge_forward(blocks, i).len() <= blocks.len(),
        merge_forward(blocks, i)[i].addr == blocks[i].addr,
        merge_forward(blocks, i)[i].is_free == blocks[i].is_free,
        merge_forward(blocks, i)[i].padding == blocks[i].padding,
        merge_forward(blocks, i)[i].size >= blocks[i].size,
        forall|k: int| 0 <= k < i ==> merge_forward(blocks, i)[k] == blocks[k],
    decreases blocks.len(),
{
    if i + 1 < blocks.len() && blocks[i + 1].is_free {
        lemma_absorb_chain(start, end, blocks, i);
        lemma_merge_forward(start, end, absorb(blocks, i), i);
    }
}

/// Blocks lie in address order without overlapping: each one ends at or
/// before the start of every later one.
pub proof fn lemma_ordered(start: int, end: int, blocks: Seq<Allocation>, i: int, j: int)
    requires
        chain_ok(start, end, blocks),
        0 <= i < j < blocks.len(),
    ensures
        blocks[i].end() <= blocks[j].addr,
    decreases j - i,
{
    lemma_block_end(start, end, blocks, i);
    if j > i + 1 {
        lemma_ordered(start, end, blocks, i + 1, j);
    }
}

/// At most one block in use has a given data address, so the block that
/// `owner` names is the one.
pub proof fn lemma_owner_unique(start: int, end: int, blocks: Seq<Allocation>, ptr: int, i: int)
    requires
        chain_ok(start, end, blocks),
        0 <= i < blocks.len(),
        !blocks[i].is_free,
        blocks[i].data_start() == ptr,
    ensures
        is_allocated(blocks, ptr),
        owner(blocks, ptr) == i,
{
    assert(is_allocated(blocks, ptr));
    let o = owner(blocks, ptr);
    if o < i {
        lemma_ordered(start, end, blocks, o, i);
    } else if o > i {
        lemma_ordered(start, end, blocks, i, o);
    }
}

/// Marking a block free keeps the chain whole.
pub proof fn lemma_mark_free_chain(start: int, end: int, blocks: Seq<Allocation>, i: int)
    requires
        chain_ok(start, end, blocks),
        0 <= i < blocks.len(),
    ensures
        chain_ok(start, end, blocks.update(i, Allocation { is_free: true, ..blocks[i] })),
{
    let s = blocks.update(i, Allocation { is_free: true, ..blocks[i] });
    assert forall|k: int| 0 <= k < s.len() - 1 implies #[trigger] s[k + 1].addr == s[k].end() by {
        assert(blocks[k].end() == blocks[k + 1].addr);
    }
    assert forall|k: int| 0 <= k < s.len() implies #[trigger] s[k].addr < end by {
        assert(blocks[k].addr < end);
    }
    assert forall|k: int| 0 <= k < s.len() && !(#[trigger] s[k]).is_free implies s[k].padding
        < s[k].size by {
        assert(s[k] == blocks[k]);
    }
    assert(s[s.len() - 1].end() == blocks[blocks.len() - 1].end());
}

/// The heap allocator: the bounds of the heap and its chain of blocks, in
/// address order.
pub struct Allocator {
    heap_start: usize,
    heap_end: usize,
    blocks: Vec<Allocation>,
}

impl Allocator {
    /// The first address of the heap.
    pub closed spec fn start(&self) -> int {
        self.heap_start as int
    }

    /// The address just past the heap.
    pub closed spec fn end(&self) -> int {
        self.heap_end as int
    }

    /// The blocks of the heap in address order.
    pub closed spec fn blocks(&self) -> Seq<Allocation> {
        self.blocks@
    }

    /// The blocks form one whole chain over the heap.
    pub open spec fn wf(&self) -> bool {
        chain_ok(self.start(), self.end(), self.blocks())
    }

    /// The first address of the heap.
    pub fn heap_start(&self) -> (r: usize)
        ensures
            r == self.start(),
    {
        self.heap_start
    }

    /// The address just past the heap.
    pub fn heap_end(&self) -> (r: usize)
        ensures
            r == self.end(),
    {
        self.heap_end
    }

    /// The blocks of the heap in address order.
    pub fn get_blocks(&self) -> (r: &Vec<Allocation>)
        ensures
            r@ == self.blocks(),
    {
        &self.blocks
    }
}


impl Allocator {
    /// Lays out a heap over `[heap_start, heap_end)` as one free block whose
    /// size is the whole range less one header.
    pub fn init(heap_start: usize, heap_end: usize) -> (a: Allocator)
        requires
            heap_start + HEADER_SIZE <= heap_end,
            heap_end + HEADER_SIZE + WORD_SIZE <= usize::MAX,
        ensures
            a.wf(),
            a.start() == heap_start,
            a.end() == heap_end,
            a.blocks() == seq![
                Allocation {
                    addr: heap_start,
                    is_free: true,
                    size: (heap_end - heap_start - HEADER_SIZE) as usize,
                    padding: 0,
                },
            ],
    {
        let first = Allocation {
            addr: heap_start,
            is_free: true,
            size: heap_end - heap_start - HEADER_SIZE,
            padding: 0,
        };
        let mut blocks: Vec<Allocation> = Vec::new();
        blocks.push(first);
        Allocator { heap_start, heap_end, blocks }
    }

    /// The address of the header after block `i`, or `None` when block `i`
    /// reaches the end of the heap.
    pub fn get_next_allocation_address(&self, i: usize) -> (r: Option<usize>)
        requires
            self.wf(),
            i < self.blocks().len(),
        ensures
            r == (if i + 1 < self.blocks().len() {
                Some(self.blocks()[i + 1].addr)
            } else {
                None
            }),
    {
        let b = self.blocks[i];
        proof {
            lemma_block_end(self.start(), self.end(), self.blocks(), i as int);
        }
        let next_addr = b.addr + b.get_size().get_total_size();
        if next_addr >= self.heap_end {
            proof {
                if i + 1 < self.blocks().len() {
                    assert(self.blocks()[i as int].end() == self.blocks()[i + 1].addr);
                }
            }
            None
        } else {
            proof {
                if i + 1 >= self.blocks().len() {
                    assert(self.blocks()[i as int].end() == self.end() + WORD_SIZE);
                }
                assert(self.blocks()[i as int].end() == self.blocks()[i + 1].addr);
            }
            Some(next_addr)
        }
    }

    /// Splits block `i` so that it keeps only the padding and the requested
    /// bytes, when the rest can form a free block of its own; leaves it whole,
    /// changing nothing, otherwise.
    pub fn maybe_split(&mut self, i: usize, size: usize, align: usize)
        requires
            old(self).wf(),
            i < old(self).blocks().len(),
            align > 0,
        ensures
            split_keeps_padding(old(self).blocks()[i as int], size as int, align as int)
                || !can_split(old(self).blocks()[i as int], size as int, align as int)
                ==> final(self).wf(),
            final(self).start() == old(self).start(),
            final(self).end() == old(self).end(),
            final(self).blocks() == split(old(self).blocks(), i as int, size as int, align as int),
    {
        proof {
            lemma_block_end(self.start(), self.end(), self.blocks(), i as int);
            lemma_split_chain(self.start(), self.end(), self.blocks(), i as int, size as int, align as int);
        }
        // the vector's length bounds `i + 1` below
        let _len = self.blocks.len();
        let b = self.blocks[i];
        let pad = b.offset_for_layout(align);
        let overhead = b.get_size().get_header_and_ptr_size();
        if b.size < size || b.size - size < pad || b.size - size - pad <= overhead {
            return ;
        }
        let rest = Allocation {
            addr: b.addr + overhead + pad + size,
            is_free: true,
            size: b.size - pad - size - overhead,
            padding: 0,
        };
        self.blocks.set(i, Allocation { size: pad + size, ..b });
        self.blocks.insert(i + 1, rest);
    }

    /// Hands out the first block that can hold `size` bytes aligned to
    /// `align`: splits it when the rest can form a free block, marks it in use,
    /// records the back-reference word just before the data and returns the
    /// data's address. Returns `None`, and changes nothing, when no block can.
    pub fn allocate(&mut self, size: usize, align: usize) -> (r: Option<usize>)
        requires
            old(self).wf(),
            size > 0,
            align > 0,
        ensures
            final(self).wf(),
            final(self).start() == old(self).start(),
            final(self).end() == old(self).end(),
            match first_fit(old(self).blocks(), size as int, align as int, old(self).end()) {
                None => r is None && final(self).blocks() == old(self).blocks(),
                Some(i) => {
                    &&& final(self).blocks() == place(
                        old(self).blocks(),
                        i,
                        size as int,
                        align as int,
                    )
                    &&& r == Some(final(self).blocks()[i].data_start() as usize)
                    &&& !final(self).blocks()[i].is_free
                    &&& final(self).blocks()[i].data_start() + size <= final(self).blocks()[i].end()
                },
            },
            r is None <==> forall|j: int|
                0 <= j < old(self).blocks().len() ==> !fits(
                    #[trigger] old(self).blocks()[j],
                    size as int,
                    align as int,
                    old(self).end(),
                ),
            r matches Some(p) ==> p % align == 0,
            r matches Some(p) ==> p + size <= final(self).end(),
    {
        proof {
            lemma_first_fit_from(self.blocks(), size as int, align as int, self.end(), 0);
        }
        match self.find_next_free_with_size(size, align) {
            None => None,
            Some(i) => {
                proof {
                    lemma_first_fit_from(self.blocks(), size as int, align as int, self.end(), 0);
                    lemma_place_chain(
                        self.start(),
                        self.end(),
                        self.blocks(),
                        i as int,
                        size as int,
                        align as int,
                    );
                    lemma_block_end(self.start(), self.end(), self.blocks(), i as int);
                }
                self.maybe_split(i, size, align);
                let mut b = self.blocks[i];
                let pad = b.offset_for_layout(align);
                b.mark(false);
                b.padding = pad;
                self.blocks.set(i, b);
                // the back-reference word sits right after the padding and
                // holds the header's address; the data follows it
                let back_ref = b.addr + HEADER_SIZE + pad;
                Some(back_ref + WORD_SIZE)
            },
        }
    }

    /// Block `i`, which is free, takes in each following block for as long as
    /// that block is free, stopping at a block in use or at the end of the heap.
    pub fn maybe_merge(&mut self, i: usize)
        requires
            old(self).wf(),
            i < old(self).blocks().len(),
            old(self).blocks()[i as int].is_free,
        ensures
            final(self).wf(),
            final(self).start() == old(self).start(),
            final(self).end() == old(self).end(),
            final(self).blocks() == merge_forward(old(self).blocks(), i as int),
    {
        loop
            invariant
                self.wf(),
                i < self.blocks().len(),
                self.start() == old(self).start(),
                self.end() == old(self).end(),
                merge_forward(self.blocks(), i as int) == merge_forward(old(self).blocks(), i as int),
            decreases self.blocks().len(),
        {
            if self.get_next_allocation_address(i).is_none() {
                return ;
            }
            // the vector's length bounds `i + 1`
            let _len = self.blocks.len();
            let next = self.blocks[i + 1];
            if !next.is_free {
                return ;
            }
            proof {
                lemma_absorb_chain(self.start(), self.end(), self.blocks(), i as int);
                lemma_block_end(self.start(), self.end(), self.blocks(), i as int + 1);
            }
            let mut b = self.blocks[i];
            b.size = b.size + next.get_size().get_total_size();
            self.blocks.set(i, b);
            self.blocks.remove(i + 1);
        }
    }

    /// Reads the back-reference word just before `ptr` and returns the index
    /// of the block whose header it names.
    fn header_of(&self, ptr: usize) -> (i: usize)
        requires
            self.wf(),
            is_allocated(self.blocks(), ptr as int),
        ensures
            i == owner(self.blocks(), ptr as int),
    {
        let ghost w = owner(self.blocks(), ptr as int);
        let n = self.blocks.len();
        let mut i: usize = 0;
        loop
            invariant
                self.wf(),
                n == self.blocks().len(),
                0 <= w < n,
                !self.blocks()[w].is_free,
                self.blocks()[w].data_start() == ptr,
                i <= w,
            decreases n - i,
        {
            let b = self.blocks[i];
            proof {
                lemma_block_end(self.start(), self.end(), self.blocks(), i as int);
            }
            if !b.is_free && b.addr + HEADER_SIZE + b.padding + WORD_SIZE == ptr {
                proof {
                    lemma_owner_unique(self.start(), self.end(), self.blocks(), ptr as int, i as int);
                }
                return i;
            }
            i = i + 1;
        }
    }

    /// Whether `ptr` is the data address of a block in use, that is, one
    /// that `deallocate` accepts.
    pub fn owns(&self, ptr: usize) -> (r: bool)
        requires
            self.wf(),
        ensures
            r == is_allocated(self.blocks(), ptr as int),
    {
        let n = self.blocks.len();
        let mut i: usize = 0;
        while i < n
            invariant
                self.wf(),
                n == self.blocks().len(),
                i <= n,
                forall|j: int|
                    0 <= j < i ==> !(!(#[trigger] self.blocks()[j]).is_free
                        && self.blocks()[j].data_start() == ptr),
            decreases n - i,
        {
            let b = self.blocks[i];
            proof {
                lemma_block_end(self.start(), self.end(), self.blocks(), i as int);
            }
            if !b.is_free && b.addr + HEADER_SIZE + b.padding + WORD_SIZE == ptr {
                return true;
            }
            i = i + 1;
        }
        false
    }

    /// Gives back the block whose data starts at `ptr`: marks it free, then
    /// merges it forward with each free block that follows it.
    pub fn deallocate(&mut self, ptr: usize)
        requires
            old(self).wf(),
            is_allocated(old(self).blocks(), ptr as int),
        ensures
            final(self).wf(),
            final(self).start() == old(self).start(),
            final(self).end() == old(self).end(),
            final(self).blocks() == release(old(self).blocks(), owner(old(self).blocks(), ptr as int)),
    {
        let i = self.header_of(ptr);
        proof {
            lemma_mark_free_chain(self.start(), self.end(), self.blocks(), i as int);
        }
        let mut b = self.blocks[i];
        b.mark(true);
        self.blocks.set(i, b);
        self.maybe_merge(i);
    }

    /// Walks the chain from the start of the heap to the first block that can
    /// serve a request of `size` bytes aligned to `align`.
    pub fn find_next_free_with_size(&self, size: usize, align: usize) -> (r: Option<usize>)
        requires
            self.wf(),
            align > 0,
        ensures
            r matches Some(i) ==> first_fit(self.blocks(), size as int, align as int, self.end()) == Some(
                i as int,
            ),
            r is None ==> first_fit(self.blocks(), size as int, align as int, self.end()) is None,
    {
        let mut i: usize = 0;
        loop
            invariant
                self.wf(),
                align > 0,
                i < self.blocks().len(),
                first_fit(self.blocks(), size as int, align as int, self.end()) == first_fit_from(
                    self.blocks(),
                    size as int,
                    align as int,
                    self.end(),
                    i as int,
                ),
            decreases self.blocks().len() - i,
        {
            let b = self.blocks[i];
            // the vector's length bounds `i + 1` below
            let _len = self.blocks.len();
            let pad = b.offset_for_layout(align);
            proof {
                lemma_block_end(self.start(), self.end(), self.blocks(), i as int);
            }
            if b.is_free && b.size >= size && b.size - size >= pad {
                // the data must also end within the heap, which only the last
                // block's size can reach past
                let data = b.addr + HEADER_SIZE + WORD_SIZE + pad;
                if data <= self.heap_end && self.heap_end - data >= size {
                    return Some(i);
                }
            }
            match self.get_next_allocation_address(i) {
                Some(_) => {
                    i = i + 1;
                },
                None => {
                    assert(first_fit_from(self.blocks(), size as int, align as int, self.end(), i + 1) is None);
                    return None;
                },
            }
        }
    }
}

} // verus!

verus! {

/// Address `x` lies inside block `b`.
pub open spec fn holds(b: Allocation, x: int) -> bool {
    b.addr <= x < b.end()
}

/// Address `x` lies inside some block.
pub open spec fn covered(blocks: Seq<Allocation>, x: int) -> bool {
    exists|i: int| 0 <= i < blocks.len() && #[trigger] holds(blocks[i], x)
}

/// Finds the block that holds address `x`, looking from block `k` on.
proof fn lemma_cover_from(start: int, end: int, blocks: Seq<Allocation>, x: int, k: int)
    requires
        chain_ok(start, end, blocks),
        0 <= k < blocks.len(),
        blocks[k].addr <= x < end + WORD_SIZE,
    ensures
        covered(blocks, x),
    decreases blocks.len() - k,
{
    lemma_block_end(start, end, blocks, k);
    if x >= blocks[k].end() {
        lemma_cover_from(start, end, blocks, x, k + 1);
    } else {
        assert(holds(blocks[k], x));
    }
}

/// The blocks tile the heap: the chain starts at the heap's start, every
/// block lies wholly before every later one, every address of the heap lies
/// in exactly one block, and the last block's footprint ends one
/// back-reference word past the heap's end (the first block reserves room for
/// its header alone); `fits` never hands that word out.
/// Every operation of `Allocator` keeps `wf`, so this holds after any sequence
/// of them.
pub proof fn lemma_blocks_tile_heap(start: int, end: int, blocks: Seq<Allocation>)
    requires
        chain_ok(start, end, blocks),
    ensures
        blocks[0].addr == start,
        blocks[blocks.len() - 1].end() == end + WORD_SIZE,
        forall|i: int, j: int|
            0 <= i < j < blocks.len() ==> #[trigger] blocks[i].end() <= #[trigger] blocks[j].addr,
        forall|x: int| start <= x < end ==> #[trigger] covered(blocks, x),
        forall|x: int, i: int, j: int|
            0 <= i < blocks.len() && 0 <= j < blocks.len() && #[trigger] holds(blocks[i], x)
                && #[trigger] holds(blocks[j], x) ==> i == j,
{
    assert forall|i: int, j: int| 0 <= i < j < blocks.len() implies #[trigger] blocks[i].end()
        <= #[trigger] blocks[j].addr by {
        lemma_ordered(start, end, blocks, i, j);
    }
    assert forall|x: int| start <= x < end implies #[trigger] covered(blocks, x) by {
        lemma_cover_from(start, end, blocks, x, 0);
    }
    assert forall|x: int, i: int, j: int|
        0 <= i < blocks.len() && 0 <= j < blocks.len() && #[trigger] holds(blocks[i], x)
            && #[trigger] holds(blocks[j], x) implies i == j by {
        if i < j {
            lemma_ordered(start, end, blocks, i, j);
        } else if j < i {
            lemma_ordered(start, end, blocks, j, i);
        }
    }
}

/// A request that takes a free, unpadded block's whole capacity (the request
/// plus one header and one back-reference word) splits nothing off: the
/// block is handed out whole and no new free block appears.
pub proof fn lemma_exact_fit_no_split(blocks: Seq<Allocation>, i: int, size: int, align: int)
    requires
        0 <= i < blocks.len(),
        size > 0,
        align > 0,
        blocks[i].is_free,
        blocks[i].size == size + HEADER_SIZE + WORD_SIZE,
        pad_for(blocks[i].addr as int, align) == 0,
    ensures
        place(blocks, i, size, align).len() == blocks.len(),
        place(blocks, i, size, align)[i].size == blocks[i].size,
        forall|k: int|
            0 <= k < blocks.len() && k != i ==> place(blocks, i, size, align)[k] == blocks[k],
{
}

/// Allocating, giving the block back and allocating again no more bytes with
/// the same alignment succeeds, in the freed block or in one before it.
pub proof fn lemma_reuse_after_free(
    start: int,
    end: int,
    blocks: Seq<Allocation>,
    n: int,
    m: int,
    align: int,
)
    requires
        chain_ok(start, end, blocks),
        0 < m <= n,
        align > 0,
        first_fit(blocks, n, align, end) is Some,
    ensures
        ({
            let i = first_fit(blocks, n, align, end)->Some_0;
            let placed = place(blocks, i, n, align);
            let freed = release(placed, owner(placed, placed[i].data_start()));
            first_fit(freed, m, align, end) matches Some(k) && k <= i
        }),
{
    let i = first_fit(blocks, n, align, end)->Some_0;
    lemma_first_fit_from(blocks, n, align, end, 0);
    lemma_place_chain(start, end, blocks, i, n, align);
    let placed = place(blocks, i, n, align);
    lemma_owner_unique(start, end, placed, placed[i].data_start(), i);
    let u = placed.update(i, Allocation { is_free: true, ..placed[i] });
    lemma_mark_free_chain(start, end, placed, i);
    lemma_merge_forward(start, end, u, i);
    let freed = release(placed, i);
    assert(fits(freed[i], m, align, end));
    lemma_first_fit_from(freed, m, align, end, 0);
}

/// Giving back a block in use and then the block in use just before it, with
/// a block in use (or the heap's end) after the pair, leaves one free block
/// whose size is the two data sizes plus the header and back-reference word
/// of the block taken in.
pub proof fn lemma_forward_coalescing(start: int, end: int, blocks: Seq<Allocation>, i: int)
    requires
        chain_ok(start, end, blocks),
        0 <= i,
        i + 1 < blocks.len(),
        !blocks[i].is_free,
        !blocks[i + 1].is_free,
        i + 2 < blocks.len() ==> !blocks[i + 2].is_free,
    ensures
        ({
            let first = release(blocks, owner(blocks, blocks[i + 1].data_start()));
            let second = release(first, owner(first, blocks[i].data_start()));
            &&& second.len() == blocks.len() - 1
            &&& second[i].is_free
            &&& second[i].addr == blocks[i].addr
            &&& second[i].size == blocks[i].size + HEADER_SIZE + WORD_SIZE + blocks[i + 1].size
        }),
{
    lemma_owner_unique(start, end, blocks, blocks[i + 1].data_start(), i + 1);
    let u1 = blocks.update(i + 1, Allocation { is_free: true, ..blocks[i + 1] });
    lemma_mark_free_chain(start, end, blocks, i + 1);
    assert(merge_forward(u1, i + 1) == u1);
    let first = release(blocks, i + 1);
    assert(first == u1);
    assert(first[i] == blocks[i]);
    lemma_owner_unique(start, end, first, blocks[i].data_start(), i);
    let u2 = first.update(i, Allocation { is_free: true, ..first[i] });
    lemma_mark_free_chain(start, end, first, i);
    lemma_absorb_chain(start, end, u2, i);
    let a = absorb(u2, i);
    if i + 2 < blocks.len() {
        assert(a[i + 1] == u2[i + 2]);
    }
    assert(merge_forward(a, i) == a);
    assert(merge_forward(u2, i) == a);
}

} // verus!
