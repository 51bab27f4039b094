//! One contiguous, fixed-size byte buffer with a bump cursor.

use crate::align::{
    align_up,
    is_aligned,
    lemma_pow2_headroom,
    lemma_round_up_is_least_multiple,
    round_up,
};
use crate::error::ArenaError;
use crate::layout::Layout;
use vstd::layout::{group_align_properties, layout_of_primitives, valid_layout};
use vstd::prelude::*;

verus! {

/// What a block is, mathematically: its bytes, and how many of them, counted
/// from the start, are in use.
pub struct BlockView {
    pub bytes: Seq<u8>,
    pub cursor: nat,
}

impl BlockView {
    /// The offset of the first byte.
    pub open spec fn start(self) -> nat {
        0
    }

    /// The offset one past the last byte.
    pub open spec fn end(self) -> nat {
        self.bytes.len()
    }

    /// The number of bytes the block owns.
    pub open spec fn size(self) -> nat {
        (self.end() - self.start()) as nat
    }

    /// The number of bytes in use.
    pub open spec fn used(self) -> nat {
        (self.cursor - self.start()) as nat
    }

    /// The number of bytes between the cursor and the end.
    pub open spec fn remaining(self) -> nat {
        (self.end() - self.cursor) as nat
    }

    /// The cursor lies within a buffer of positive size that a layout can
    /// describe.
    pub open spec fn wf(self) -> bool {
        &&& 0 < self.size() <= isize::MAX
        &&& self.start() <= self.cursor <= self.end()
    }

    /// A block of `size` zero bytes, none in use.
    pub open spec fn fresh(size: nat) -> BlockView {
        BlockView { bytes: Seq::new(size, |i: int| 0u8), cursor: 0 }
    }

    /// Where a region of the given alignment would start.
    pub open spec fn aligned(self, align: nat) -> nat {
        round_up(self.cursor, align)
    }

    /// Whether a region of the given size and alignment fits before the end.
    pub open spec fn fits(self, size: nat, align: nat) -> bool {
        self.aligned(align) + size <= self.end()
    }

    /// The block after a region of the given size and alignment was taken.
    pub open spec fn bumped(self, size: nat, align: nat) -> BlockView {
        BlockView { cursor: self.aligned(align) + size, ..self }
    }

    /// The block with its cursor set to `offset`.
    pub open spec fn rewound(self, offset: nat) -> BlockView {
        BlockView { cursor: offset, ..self }
    }

    /// The block with nothing in use; its bytes keep their values.
    pub open spec fn reset(self) -> BlockView {
        self.rewound(self.start())
    }

    /// The block with nothing in use and every byte zero.
    pub open spec fn zeroed(self) -> BlockView {
        BlockView::fresh(self.size())
    }

    /// The block with `data` written from `offset` on.
    pub open spec fn with_bytes(self, offset: nat, data: Seq<u8>) -> BlockView
        recommends
            offset + data.len() <= self.end(),
    {
        BlockView {
            bytes: Seq::new(
                self.bytes.len(),
                |i: int|
                    if offset <= i < offset + data.len() {
                        data[i - offset]
                    } else {
                        self.bytes[i]
                    },
            ),
            ..self
        }
    }
}

/// Whether a buffer of `size` bytes can be requested: `size`, at the
/// alignment of a machine word, is a valid layout.
pub open spec fn buffer_size_ok(size: usize) -> bool {
    valid_layout(size, vstd::layout::align_of::<usize>() as usize)
}

/// A buffer of up to `isize::MAX - 7` bytes can be requested on every machine:
/// a machine word is aligned to at most eight bytes.
pub proof fn lemma_buffer_size_ok(size: usize)
    requires
        size <= isize::MAX - 7,
    ensures
        buffer_size_ok(size),
{
    broadcast use layout_of_primitives, group_align_properties;

    let align = vstd::layout::align_of::<usize>();
    let width = vstd::layout::size_of::<usize>();
    assert(width == 4 || width == 8);
    assert(0 < align <= width) by {
        if align > width {
            vstd::arithmetic::div_mod::lemma_small_mod(width, align);
        }
    }
    vstd::arithmetic::div_mod::lemma_mod_bound(isize::MAX as int, align as int);
}

/// One owned, fixed-size buffer and the offset of its next free byte.
pub struct Block {
    buf: Vec<u8>,
    cursor: usize,
}

impl View for Block {
    type V = BlockView;

    closed spec fn view(&self) -> BlockView {
        BlockView { bytes: self.buf@, cursor: self.cursor as nat }
    }
}

impl Block {
    /// What holds of every block.
    #[verifier::type_invariant]
    pub open spec fn wf(&self) -> bool {
        self@.wf()
    }

    /// A block over `storage`, emptied and then filled with `size` zero
    /// bytes. `None` stands for a memory request that failed.
    pub fn from_storage(size: usize, storage: Option<Vec<u8>>) -> (made: Result<Block, ArenaError>)
        ensures
            size == 0 ==> made == Err::<Block, ArenaError>(ArenaError::ZeroSize),
            size > 0 && !buffer_size_ok(size) ==> made == Err::<Block, ArenaError>(
                ArenaError::BadAlignment,
            ),
            size > 0 && buffer_size_ok(size) && storage is None ==> made == Err::<
                Block,
                ArenaError,
            >(ArenaError::InsufficientMemory),
            size > 0 && buffer_size_ok(size) && storage is Some ==> (made matches Ok(block)
                && block@ == BlockView::fresh(size as nat)),
    {
        if size == 0 {
            return Err(ArenaError::ZeroSize);
        }
        let alignment = core::mem::align_of::<usize>();
        let layout = Layout::from_size_align(size, alignment);
        if layout.is_err() {
            return Err(ArenaError::BadAlignment);
        }
        match storage {
            None => Err(ArenaError::InsufficientMemory),
            Some(mut buf) => {
                buf.clear();
                buf.resize(size, 0u8);
                assert(buf@ =~= Seq::new(size as nat, |i: int| 0u8));
                Ok(Block { buf, cursor: 0 })
            },
        }
    }

    /// Asks for memory for `size` bytes: an empty buffer with that much room,
    /// or `None` if the request fails.
    fn reserve(size: usize) -> (storage: Option<Vec<u8>>)
        ensures
            storage matches Some(buf) ==> buf@ == Seq::<u8>::empty(),
    {
        let mut buf: Vec<u8> = Vec::new();
        match buf.try_reserve(size) {
            Ok(_) => Some(buf),
            Err(_) => None,
        }
    }

    /// A block of `size` zero bytes with nothing in use, unless `size` is
    /// zero, no layout describes it, or memory for it cannot be had.
    pub fn new(size: usize) -> (made: Result<Block, ArenaError>)
        ensures
            size == 0 ==> made == Err::<Block, ArenaError>(ArenaError::ZeroSize),
            size > 0 && !buffer_size_ok(size) ==> made == Err::<Block, ArenaError>(
                ArenaError::BadAlignment,
            ),
            size > 0 && buffer_size_ok(size) ==> match made {
                Ok(block) => block@ == BlockView::fresh(size as nat),
                Err(e) => e == ArenaError::InsufficientMemory,
            },
    {
        Block::from_storage(size, Block::reserve(size))
    }

    /// Takes a region of the layout's size at the first offset from the
    /// cursor on that is a multiple of the layout's alignment, and returns
    /// that offset; fails, and changes nothing, if the region would reach
    /// past the end.
    pub fn allocate(&mut self, layout: Layout) -> (got: Result<usize, ArenaError>)
        ensures
            match got {
                Ok(at) => {
                    &&& old(self)@.fits(layout.size() as nat, layout.align() as nat)
                    &&& at == old(self)@.aligned(layout.align() as nat)
                    &&& final(self)@ == old(self)@.bumped(
                        layout.size() as nat,
                        layout.align() as nat,
                    )
                    &&& is_aligned(at as nat, layout.align() as nat)
                    &&& 0 <= at - old(self)@.cursor < layout.align()
                    &&& final(self)@.used() == old(self)@.used() + (at - old(self)@.cursor)
                        + layout.size()
                },
                Err(e) => {
                    &&& !old(self)@.fits(layout.size() as nat, layout.align() as nat)
                    &&& e == ArenaError::InsufficientMemory
                    &&& final(self)@ == old(self)@
                },
            },
    {
        proof {
            use_type_invariant(&*self);
            use_type_invariant(&layout);
            lemma_pow2_headroom(layout.align());
            lemma_round_up_is_least_multiple(self.cursor as nat, layout.align() as nat);
        }
        let size = layout.size();
        let alignment = layout.align();
        let aligned = align_up(self.cursor, alignment);
        if aligned > self.buf.len() || size > self.buf.len() - aligned {
            return Err(ArenaError::InsufficientMemory);
        }
        self.cursor = aligned + size;
        Ok(aligned)
    }

    /// Sets the cursor to an offset recorded earlier.
    pub fn rewind_to(&mut self, save_point: usize)
        requires
            save_point <= old(self)@.end(),
        ensures
            final(self)@ == old(self)@.rewound(save_point as nat),
    {
        proof {
            use_type_invariant(&*self);
        }
        self.cursor = save_point;
    }

    /// Puts the cursor back at the start. The bytes keep their values.
    pub fn reset(&mut self)
        ensures
            final(self)@ == old(self)@.reset(),
    {
        proof {
            use_type_invariant(&*self);
        }
        self.cursor = 0;
    }

    /// Puts the cursor back at the start and sets every byte to zero.
    pub fn reset_zeroed(&mut self)
        ensures
            final(self)@ == old(self)@.zeroed(),
    {
        proof {
            use_type_invariant(&*self);
        }
        self.reset();
        let len = self.buf.len();
        let mut i: usize = 0;
        while i < len
            invariant
                i <= len,
                0 < len <= isize::MAX,
                len == self.buf@.len(),
                len == old(self)@.size(),
                self.cursor == 0,
                forall|j: int| 0 <= j < i ==> self.buf@[j] == 0u8,
            decreases len - i,
        {
            self.buf[i] = 0u8;
            i += 1;
        }
        assert(self.buf@ =~= Seq::new(len as nat, |i: int| 0u8));
    }

    /// The number of bytes between the cursor and the end.
    pub fn remaining(&self) -> (n: usize)
        ensures
            n == self@.remaining(),
    {
        proof {
            use_type_invariant(self);
        }
        self.buf.len() - self.cursor
    }

    /// The number of bytes in use.
    pub fn used(&self) -> (n: usize)
        ensures
            n == self@.used(),
    {
        self.cursor
    }

    /// The number of bytes the block owns.
    pub fn size(&self) -> (n: usize)
        ensures
            n == self@.size(),
    {
        self.buf.len()
    }

    /// The `len` bytes from `offset` on.
    pub fn bytes(&self, offset: usize, len: usize) -> (bytes: &[u8])
        requires
            offset + len <= self@.end(),
        ensures
            bytes@ == self@.bytes.subrange(offset as int, offset + len),
    {
        proof {
            use_type_invariant(self);
        }
        vstd::slice::slice_subrange(self.buf.as_slice(), offset, offset + len)
    }

    /// Copies `data` into the buffer from `offset` on. The cursor stays.
    pub fn write(&mut self, offset: usize, data: &[u8])
        requires
            offset + data@.len() <= old(self)@.end(),
        ensures
            final(self)@ == old(self)@.with_bytes(offset as nat, data@),
    {
        proof {
            use_type_invariant(&*self);
        }
        let n = data.len();
        let mut i: usize = 0;
        assert(self.buf@ =~= old(self)@.with_bytes(offset as nat, data@.take(0)).bytes);
        while i < n
            invariant
                i <= n,
                n == data@.len(),
                offset + n <= self.buf@.len(),
                self.wf(),
                self@ == old(self)@.with_bytes(offset as nat, data@.take(i as int)),
            decreases n - i,
        {
            self.buf[offset + i] = data[i];
            i += 1;
            assert(self.buf@ =~= old(self)@.with_bytes(offset as nat, data@.take(i as int)).bytes);
        }
        assert(data@.take(n as int) =~= data@);
    }

    /// Sets the `len` bytes from `offset` on to zero. The cursor stays.
    pub fn zero(&mut self, offset: usize, len: usize)
        requires
            offset + len <= old(self)@.end(),
        ensures
            final(self)@ == old(self)@.with_bytes(offset as nat, Seq::new(len as nat, |i: int| 0u8)),
    {
        proof {
            use_type_invariant(&*self);
        }
        let mut i: usize = 0;
        assert(self.buf@ =~= old(self)@.with_bytes(
            offset as nat,
            Seq::new(0nat, |j: int| 0u8),
        ).bytes);
        while i < len
            invariant
                i <= len,
                offset + len <= self.buf@.len(),
                self.wf(),
                self@ == old(self)@.with_bytes(offset as nat, Seq::new(i as nat, |j: int| 0u8)),
            decreases len - i,
        {
            self.buf[offset + i] = 0u8;
            i += 1;
            assert(self.buf@ =~= old(self)@.with_bytes(
                offset as nat,
                Seq::new(i as nat, |j: int| 0u8),
            ).bytes);
        }
    }

    /// The offset of the first byte, from which all offsets into the block
    /// are counted.
    pub fn as_ptr(&self) -> (p: usize)
        ensures
            p == self@.start(),
    {
        0
    }
}

} // verus!
