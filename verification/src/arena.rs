//! The arena: an append-only sequence of blocks, first-fit routing of
//! requests, growth by whole blocks, and reset, snapshot and rewind.

use crate::align::{is_aligned, lemma_pow2_headroom};
use crate::block::{buffer_size_ok, lemma_buffer_size_ok, Block, BlockView};
use crate::error::ArenaError;
use crate::layout::Layout;
use crate::model::{
    lemma_allocated_is_live,
    lemma_first_fit,
    lemma_reset_keeps_wf,
    lemma_rewound_keeps_wf,
    lemma_stored_is_live,
    lemma_sums_of_prefix,
    lemma_totals_after_update,
    lemma_zeroed_keeps_wf,
    total_size,
    total_used,
    ArenaView,
    Region,
    SnapshotView,
};
use crate::plain::{bytes_of_all, lemma_bytes_of_all_bytes, Plain};
use vstd::arithmetic::power2::is_pow2;
use vstd::prelude::*;
use vstd::string::StringSliceAdditionalSpecFns;

verus! {

/// The size of the blocks of an arena made by `Arena::new`.
pub const DEFAULT_BLOCK_SIZE: usize = 65536;

/// A saved frontier of an arena, to go back to later.
#[must_use]
pub struct ArenaSnapshot {
    block_idx: usize,
    /// block's save point
    offset: usize,
}

impl View for ArenaSnapshot {
    type V = SnapshotView;

    closed spec fn view(&self) -> SnapshotView {
        SnapshotView { block_idx: self.block_idx as nat, offset: self.offset as nat }
    }
}

/// A growing sequence of blocks from which regions are handed out.
pub struct Arena {
    blocks: Vec<Block>,
    block_size: usize,
}

impl View for Arena {
    type V = ArenaView;

    closed spec fn view(&self) -> ArenaView {
        ArenaView {
            blocks: self.blocks@.map_values(|b: Block| b@),
            block_size: self.block_size as nat,
        }
    }
}

impl Arena {
    /// What holds of every arena that this module hands out, and what its
    /// functions expect and keep.
    pub open spec fn wf(&self) -> bool {
        self@.wf()
    }

    /// An arena with one block of the default size.
    pub fn new() -> (made: Result<Arena, ArenaError>)
        ensures
            match made {
                Ok(arena) => arena.wf() && arena@ == (ArenaView {
                    blocks: seq![BlockView::fresh(DEFAULT_BLOCK_SIZE as nat)],
                    block_size: DEFAULT_BLOCK_SIZE as nat,
                }),
                Err(e) => e == ArenaError::InsufficientMemory,
            },
    {
        let block_size = DEFAULT_BLOCK_SIZE;
        proof {
            lemma_buffer_size_ok(block_size);
        }
        Arena::with_block_size(block_size)
    }

    /// An arena with one block of `size` bytes, which makes blocks of that
    /// size by default.
    pub fn with_block_size(size: usize) -> (made: Result<Arena, ArenaError>)
        ensures
            size == 0 ==> made == Err::<Arena, ArenaError>(ArenaError::ZeroSize),
            size > 0 && !buffer_size_ok(size) ==> made == Err::<Arena, ArenaError>(
                ArenaError::BadAlignment,
            ),
            size > 0 && buffer_size_ok(size) ==> match made {
                Ok(arena) => arena.wf() && arena@ == (ArenaView {
                    blocks: seq![BlockView::fresh(size as nat)],
                    block_size: size as nat,
                }),
                Err(e) => e == ArenaError::InsufficientMemory,
            },
    {
        Arena::from_first_block(Block::new(size))
    }

    /// An arena around its first block, which sets the default block size,
    /// or the error that the block's creation gave.
    pub fn from_first_block(first: Result<Block, ArenaError>) -> (made: Result<Arena, ArenaError>)
        ensures
            match first {
                Ok(block) => made matches Ok(arena) && arena.wf() && arena@ == (ArenaView {
                    blocks: seq![block@],
                    block_size: block@.size(),
                }),
                Err(e) => made == Err::<Arena, ArenaError>(e),
            },
    {
        match first {
            Ok(block) => {
                proof {
                    use_type_invariant(&block);
                }
                let ghost view = block@;
                let size = block.size();
                let mut blocks: Vec<Block> = Vec::new();
                blocks.push(block);
                proof {
                    assert(blocks@.map_values(|b: Block| b@) =~= seq![view]);
                    assert(seq![view].drop_last() =~= Seq::<BlockView>::empty());
                    reveal_with_fuel(total_size, 2);
                }
                Ok(Arena { blocks, block_size: size })
            },
            Err(e) => Err(e),
        }
    }

    /// The number of the first block, in the order of creation, whose
    /// remaining bytes are more than the layout's size.
    pub fn try_get_block(&self, layout: Layout) -> (found: Option<usize>)
        ensures
            match found {
                Some(i) => self@.first_fit(layout.size() as nat) == Some(i as int),
                None => self@.first_fit(layout.size() as nat) is None,
            },
    {
        let count = self.blocks.len();
        let size = layout.size();
        let mut i: usize = 0;
        while i < count
            invariant
                i <= count,
                count == self.blocks@.len(),
                size == layout.size(),
                self@.first_fit(size as nat) == self@.first_fit_from(size as nat, i as int),
            decreases count - i,
        {
            if self.blocks[i].remaining() > size {
                return Some(i);
            }
            i += 1;
        }
        None
    }

    /// Appends `made`, if it is a block and the sizes of all blocks together
    /// still fit a `usize` with it, and returns its number.
    pub fn attach(&mut self, made: Result<Block, ArenaError>) -> (added: Result<usize, ArenaError>)
        requires
            old(self).wf(),
        ensures
            final(self).wf(),
            match made {
                Ok(block) => if old(self)@.capacity() + block@.size() <= usize::MAX {
                    added == Ok::<usize, ArenaError>(old(self)@.blocks.len() as usize)
                        && final(self)@ == old(self)@.with_new_block(block@)
                } else {
                    added == Err::<usize, ArenaError>(ArenaError::InsufficientMemory)
                        && final(self)@ == old(self)@
                },
                Err(e) => added == Err::<usize, ArenaError>(e) && final(self)@ == old(self)@,
            },
    {
        match made {
            Ok(block) => {
                proof {
                    use_type_invariant(&block);
                }
                let capacity = self.cap();
                if block.size() > usize::MAX - capacity {
                    return Err(ArenaError::InsufficientMemory);
                }
                let index = self.blocks.len();
                let ghost before = self@;
                let ghost view = block@;
                proof {
                    assert(before.blocks.push(view).drop_last() =~= before.blocks);
                    assert(before.with_new_block(view).wf());
                    assert(self.blocks@.push(block).map_values(|b: Block| b@)
                        =~= before.blocks.push(view));
                }
                self.blocks.push(block);
                Ok(index)
            },
            Err(e) => Err(e),
        }
    }

    /// Makes a block of the default size, or of `size` bytes if that is more,
    /// appends it, and returns its number.
    pub fn alloc_new_block(&mut self, size: usize) -> (added: Result<usize, ArenaError>)
        requires
            old(self).wf(),
        ensures
            final(self).wf(),
            match old(self)@.growth_error(size as nat) {
                Some(e) => added == Err::<usize, ArenaError>(e) && final(self)@ == old(self)@,
                None => (added == Err::<usize, ArenaError>(ArenaError::InsufficientMemory)
                    && final(self)@ == old(self)@) || (added == Ok::<usize, ArenaError>(
                    old(self)@.blocks.len() as usize,
                ) && final(self)@ == old(self)@.with_new_block(
                    BlockView::fresh(old(self)@.growth(size as nat)),
                )),
            },
    {
        let wanted = if self.block_size >= size {
            self.block_size
        } else {
            size
        };
        let made = Block::new(wanted);
        self.attach(made)
    }

    /// Takes a region for `layout` from the first block with room for more
    /// than its size, or from a new block if there is none.
    pub fn try_alloc(&mut self, layout: Layout) -> (got: Result<Region, ArenaError>)
        requires
            old(self).wf(),
        ensures
            final(self).wf(),
            (final(self)@, got) == old(self)@.allocated(
                layout.size() as nat,
                layout.align() as nat,
                true,
            ) || (final(self)@, got) == old(self)@.allocated(
                layout.size() as nat,
                layout.align() as nat,
                false,
            ),
            final(self)@.extends(old(self)@),
            match got {
                Ok(region) => {
                    &&& final(self)@.live(region)
                    &&& is_aligned(region.offset as nat, layout.align() as nat)
                    &&& region.size == layout.size()
                },
                Err(_) => final(self)@ == old(self)@,
            },
    {
        proof {
            use_type_invariant(&layout);
            lemma_first_fit(self@, layout.size() as nat, 0);
            lemma_allocated_is_live(self@, layout.size() as nat, layout.align() as nat, true);
            lemma_allocated_is_live(self@, layout.size() as nat, layout.align() as nat, false);
        }
        let ghost start = self@;
        assert(start.blocks.len() == self.blocks.len());
        let ghost size = layout.size() as nat;
        let ghost align = layout.align() as nat;
        let index = match self.try_get_block(layout) {
            Some(index) => index,
            None => match self.alloc_new_block(layout.size()) {
                Ok(index) => {
                    proof {
                        lemma_pow2_headroom(layout.align());
                        assert(BlockView::fresh(start.growth(size)).fits(size, align));
                    }
                    index
                },
                Err(e) => {
                    return Err(e);
                },
            },
        };
        let ghost before = self@;
        proof {
            lemma_totals_after_update(
                before.blocks,
                index as int,
                before.blocks[index as int].bumped(size, align),
            );
        }
        match self.blocks[index].allocate(layout) {
            Ok(offset) => {
                proof {
                    assert(self@.blocks =~= before.blocks.update(
                        index as int,
                        before.blocks[index as int].bumped(size, align),
                    ));
                    if start.first_fit(size) is None {
                        assert(self@.blocks =~= start.with_new_block(
                            BlockView::fresh(start.growth(size)).bumped(size, align),
                        ).blocks);
                    }
                }
                Ok(Region { block: index, offset, size: layout.size() })
            },
            Err(e) => {
                proof {
                    assert(self@.blocks =~= before.blocks);
                }
                Err(e)
            },
        }
    }

    /// The bytes of `region`, if it lies within the bytes in use of a block.
    pub fn bytes(&self, region: &Region) -> (found: Option<&[u8]>)
        ensures
            self@.live(*region) ==> (found matches Some(bytes) && bytes@ == self@.bytes_of(
                *region,
            )),
            !self@.live(*region) ==> found is None,
    {
        if region.block >= self.blocks.len() {
            return None;
        }
        let block = &self.blocks[region.block];
        proof {
            use_type_invariant(block);
        }
        match region.offset.checked_add(region.size) {
            Some(end) => if end <= block.used() {
                Some(block.bytes(region.offset, region.size))
            } else {
                None
            },
            None => None,
        }
    }

    /// Copies `data` into `region` from its start on, if the region lies
    /// within the bytes in use of a block and `data` is no longer than it;
    /// tells whether it did.
    pub fn write(&mut self, region: &Region, data: &[u8]) -> (written: bool)
        requires
            old(self).wf(),
        ensures
            final(self).wf(),
            written == (old(self)@.live(*region) && data@.len() <= region.size),
            written ==> final(self)@ == old(self)@.with_bytes(*region, data@),
            !written ==> final(self)@ == old(self)@,
    {
        if region.block >= self.blocks.len() || data.len() > region.size {
            return false;
        }
        let ghost before = self@;
        match region.offset.checked_add(region.size) {
            Some(end) => if end <= self.blocks[region.block].used() {
                proof {
                    lemma_totals_after_update(
                        before.blocks,
                        region.block as int,
                        before.blocks[region.block as int].with_bytes(region.offset as nat, data@),
                    );
                }
                self.blocks[region.block].write(region.offset, data);
                assert(self@.blocks =~= before.with_bytes(*region, data@).blocks);
                true
            } else {
                false
            },
            None => false,
        }
    }

    /// Takes a region for `layout` and copies `data` into it.
    fn store(&mut self, layout: Layout, data: &[u8]) -> (got: Result<Region, ArenaError>)
        requires
            old(self).wf(),
            data@.len() <= layout.size(),
        ensures
            final(self).wf(),
            (final(self)@, got) == old(self)@.stored(
                layout.size() as nat,
                layout.align() as nat,
                data@,
                true,
            ) || (final(self)@, got) == old(self)@.stored(
                layout.size() as nat,
                layout.align() as nat,
                data@,
                false,
            ),
            final(self)@.extends(old(self)@),
            match got {
                Ok(region) => {
                    &&& final(self)@.live(region)
                    &&& is_aligned(region.offset as nat, layout.align() as nat)
                    &&& region.size == layout.size()
                    &&& final(self)@.bytes_of(region).take(data@.len() as int) == data@
                },
                Err(_) => final(self)@ == old(self)@,
            },
    {
        proof {
            use_type_invariant(&layout);
            lemma_stored_is_live(
                self@,
                layout.size() as nat,
                layout.align() as nat,
                data@,
                true,
            );
            lemma_stored_is_live(
                self@,
                layout.size() as nat,
                layout.align() as nat,
                data@,
                false,
            );
        }
        match self.try_alloc(layout) {
            Ok(region) => {
                self.write(&region, data);
                Ok(region)
            },
            Err(e) => Err(e),
        }
    }

    /// Takes a region sized and aligned for a `T` and writes `obj` into it.
    pub fn allocate<T: Plain>(&mut self, obj: T) -> (got: Result<Region, ArenaError>)
        requires
            old(self).wf(),
        ensures
            final(self).wf(),
            (final(self)@, got) == old(self)@.stored(
                vstd::layout::size_of::<T>(),
                vstd::layout::align_of::<T>(),
                obj.bytes(),
                true,
            ) || (final(self)@, got) == old(self)@.stored(
                vstd::layout::size_of::<T>(),
                vstd::layout::align_of::<T>(),
                obj.bytes(),
                false,
            ),
            final(self)@.extends(old(self)@),
            match got {
                Ok(region) => {
                    &&& final(self)@.live(region)
                    &&& is_aligned(region.offset as nat, vstd::layout::align_of::<T>())
                    &&& region.size == vstd::layout::size_of::<T>()
                    &&& final(self)@.bytes_of(region) == obj.bytes()
                },
                Err(_) => final(self)@ == old(self)@,
            },
    {
        let layout = Layout::new::<T>();
        let data = obj.to_bytes();
        self.store(layout, data.as_slice())
    }

    /// Takes a region sized and aligned for `length` values of type `T` in a
    /// row and sets its bytes to zero.
    pub fn alloc_slice<T>(&mut self, length: usize) -> (got: Result<Region, ArenaError>)
        requires
            old(self).wf(),
        ensures
            final(self).wf(),
            !Layout::array_fits::<T>(length) ==> got == Err::<Region, ArenaError>(
                ArenaError::BadAlignment,
            ) && final(self)@ == old(self)@,
            Layout::array_fits::<T>(length) ==> (final(self)@, got) == old(self)@.stored(
                Layout::array_size::<T>(length),
                vstd::layout::align_of::<T>(),
                Seq::new(Layout::array_size::<T>(length), |i: int| 0u8),
                true,
            ) || (final(self)@, got) == old(self)@.stored(
                Layout::array_size::<T>(length),
                vstd::layout::align_of::<T>(),
                Seq::new(Layout::array_size::<T>(length), |i: int| 0u8),
                false,
            ),
            final(self)@.extends(old(self)@),
            match got {
                Ok(region) => {
                    &&& final(self)@.live(region)
                    &&& is_aligned(region.offset as nat, vstd::layout::align_of::<T>())
                    &&& region.size == Layout::array_size::<T>(length)
                    &&& forall|i: int|
                        0 <= i < region.size ==> #[trigger] final(self)@.bytes_of(region)[i] == 0u8
                },
                Err(_) => final(self)@ == old(self)@,
            },
    {
        proof {
            if Layout::array_fits::<T>(length) {
                broadcast use vstd::layout::group_align_properties;

                let zeros = Seq::new(Layout::array_size::<T>(length), |i: int| 0u8);
                lemma_stored_is_live(
                    self@,
                    Layout::array_size::<T>(length),
                    vstd::layout::align_of::<T>(),
                    zeros,
                    true,
                );
                lemma_stored_is_live(
                    self@,
                    Layout::array_size::<T>(length),
                    vstd::layout::align_of::<T>(),
                    zeros,
                    false,
                );
            }
        }
        let layout = match Layout::array::<T>(length) {
            Ok(layout) => layout,
            Err(e) => {
                return Err(e);
            },
        };
        let ghost start = self@;
        let ghost size = layout.size() as nat;
        let ghost align = layout.align() as nat;
        match self.try_alloc(layout) {
            Ok(region) => {
                let ghost before = self@;
                proof {
                    use_type_invariant(&layout);
                    lemma_allocated_is_live(start, size, align, true);
                    lemma_totals_after_update(
                        before.blocks,
                        region.block as int,
                        before.blocks[region.block as int].with_bytes(
                            region.offset as nat,
                            Seq::new(size, |i: int| 0u8),
                        ),
                    );
                }
                self.blocks[region.block].zero(region.offset, region.size);
                assert(self@.blocks =~= before.with_bytes(
                    region,
                    Seq::new(size, |i: int| 0u8),
                ).blocks);
                Ok(region)
            },
            Err(e) => Err(e),
        }
    }

    /// Takes a region sized for the bytes of `str` and copies them into it.
    pub fn alloc_str(&mut self, str: &str) -> (got: Result<Region, ArenaError>)
        requires
            old(self).wf(),
        ensures
            final(self).wf(),
            str.spec_bytes().len() > isize::MAX ==> got == Err::<Region, ArenaError>(
                ArenaError::BadAlignment,
            ) && final(self)@ == old(self)@,
            str.spec_bytes().len() <= isize::MAX ==> (final(self)@, got) == old(self)@.stored(
                str.spec_bytes().len(),
                1,
                str.spec_bytes(),
                true,
            ) || (final(self)@, got) == old(self)@.stored(
                str.spec_bytes().len(),
                1,
                str.spec_bytes(),
                false,
            ),
            final(self)@.extends(old(self)@),
            match got {
                Ok(region) => {
                    &&& final(self)@.live(region)
                    &&& region.size == str.spec_bytes().len()
                    &&& final(self)@.bytes_of(region) == str.spec_bytes()
                },
                Err(_) => final(self)@ == old(self)@,
            },
    {
        broadcast use vstd::layout::align_of_u8, vstd::layout::layout_of_primitives;

        let bytes = str.as_bytes();
        let count = bytes.len();
        proof {
            lemma_bytes_of_all_bytes(str.spec_bytes());
            reveal_with_fuel(is_pow2, 2);
            assert(Layout::array_size::<u8>(count) == count);
            assert(Layout::array_fits::<u8>(count) <==> count <= isize::MAX);
        }
        self.copy_slice::<u8>(bytes)
    }

    /// Takes a region sized and aligned for the values of `slice` in a row
    /// and copies their bytes into it.
    pub fn copy_slice<T: Plain>(&mut self, slice: &[T]) -> (got: Result<Region, ArenaError>)
        requires
            old(self).wf(),
        ensures
            final(self).wf(),
            !Layout::array_fits::<T>(slice@.len() as usize) ==> got == Err::<Region, ArenaError>(
                ArenaError::BadAlignment,
            ) && final(self)@ == old(self)@,
            Layout::array_fits::<T>(slice@.len() as usize) ==> (final(self)@, got)
                == old(self)@.stored(
                Layout::array_size::<T>(slice@.len() as usize),
                vstd::layout::align_of::<T>(),
                bytes_of_all(slice@),
                true,
            ) || (final(self)@, got) == old(self)@.stored(
                Layout::array_size::<T>(slice@.len() as usize),
                vstd::layout::align_of::<T>(),
                bytes_of_all(slice@),
                false,
            ),
            final(self)@.extends(old(self)@),
            match got {
                Ok(region) => {
                    &&& final(self)@.live(region)
                    &&& is_aligned(region.offset as nat, vstd::layout::align_of::<T>())
                    &&& region.size == Layout::array_size::<T>(slice@.len() as usize)
                    &&& final(self)@.bytes_of(region) == bytes_of_all(slice@)
                },
                Err(_) => final(self)@ == old(self)@,
            },
    {
        let count = slice.len();
        let layout = match Layout::array::<T>(count) {
            Ok(layout) => layout,
            Err(e) => {
                return Err(e);
            },
        };
        let mut data: Vec<u8> = Vec::new();
        let mut i: usize = 0;
        while i < count
            invariant
                i <= count,
                count == slice@.len(),
                data@ == bytes_of_all(slice@.take(i as int)),
                data@.len() == i * vstd::layout::size_of::<T>(),
            decreases count - i,
        {
            let mut item = slice[i].to_bytes();
            proof {
                assert(slice@.take(i + 1).drop_last() =~= slice@.take(i as int));
                assert((i + 1) * vstd::layout::size_of::<T>() == i * vstd::layout::size_of::<T>()
                    + vstd::layout::size_of::<T>()) by (nonlinear_arith);
            }
            data.append(&mut item);
            i += 1;
        }
        assert(slice@.take(count as int) =~= slice@);
        self.store(layout, data.as_slice())
    }

    /// Puts the cursor of every block back at its start. The blocks stay, and
    /// their bytes keep their values.
    pub fn reset(&mut self)
        requires
            old(self).wf(),
        ensures
            final(self).wf(),
            final(self)@ == old(self)@.reset(),
            final(self)@.used() == 0,
    {
        let count = self.blocks.len();
        let mut i: usize = 0;
        while i < count
            invariant
                i <= count,
                count == self.blocks@.len(),
                count == old(self)@.blocks.len(),
                self@.block_size == old(self)@.block_size,
                forall|j: int| 0 <= j < i ==> self@.blocks[j] == old(self)@.blocks[j].reset(),
                forall|j: int| i <= j < count ==> self@.blocks[j] == old(self)@.blocks[j],
            decreases count - i,
        {
            let ghost prev = self@;
            self.blocks[i].reset();
            assert(self@.blocks =~= prev.blocks.update(i as int, prev.blocks[i as int].reset()));
            i += 1;
        }
        proof {
            assert(self@.blocks =~= old(self)@.reset().blocks);
            lemma_reset_keeps_wf(old(self)@);
        }
    }

    /// Puts the cursor of every block back at its start and sets every byte
    /// of every block to zero.
    pub fn reset_zeroed(&mut self)
        requires
            old(self).wf(),
        ensures
            final(self).wf(),
            final(self)@ == old(self)@.zeroed(),
            final(self)@.used() == 0,
            forall|i: int, j: int|
                0 <= i < final(self)@.blocks.len() && 0 <= j < final(self)@.blocks[i].size()
                    ==> #[trigger] final(self)@.blocks[i].bytes[j] == 0u8,
    {
        let count = self.blocks.len();
        let mut i: usize = 0;
        while i < count
            invariant
                i <= count,
                count == self.blocks@.len(),
                count == old(self)@.blocks.len(),
                self@.block_size == old(self)@.block_size,
                forall|j: int| 0 <= j < i ==> self@.blocks[j] == old(self)@.blocks[j].zeroed(),
                forall|j: int| i <= j < count ==> self@.blocks[j] == old(self)@.blocks[j],
            decreases count - i,
        {
            let ghost prev = self@;
            self.blocks[i].reset_zeroed();
            assert(self@.blocks =~= prev.blocks.update(i as int, prev.blocks[i as int].zeroed()));
            i += 1;
        }
        proof {
            assert(self@.blocks =~= old(self)@.zeroed().blocks);
            lemma_zeroed_keeps_wf(old(self)@);
        }
    }

    /// Records the frontier: the number of the last block and its cursor.
    pub fn snapshot(&self) -> (snapshot: ArenaSnapshot)
        requires
            self.wf(),
        ensures
            snapshot@ == self@.snapshot(),
    {
        let block_idx = self.blocks.len() - 1;
        let offset = self.blocks[block_idx].used();
        ArenaSnapshot { block_idx, offset }
    }

    /// Whether the arena can go back to `snapshot`: the snapshot's block
    /// exists, and its cursor has not fallen behind the recorded one.
    pub fn admits(&self, snapshot: &ArenaSnapshot) -> (yes: bool)
        ensures
            yes == self@.admits(snapshot@),
    {
        snapshot.block_idx < self.blocks.len() && snapshot.offset
            <= self.blocks[snapshot.block_idx].used()
    }

    /// Goes back to `snapshot`: its block gets the recorded cursor, and every
    /// block after it is reset. The blocks stay. A snapshot that the arena
    /// does not admit changes nothing.
    pub fn rewind_to(&mut self, snapshot: ArenaSnapshot)
        requires
            old(self).wf(),
        ensures
            final(self).wf(),
            final(self)@ == old(self)@.restored(snapshot@),
    {
        if !self.admits(&snapshot) {
            return ;
        }
        let count = self.blocks.len();
        let first = snapshot.block_idx;
        proof {
            lemma_rewound_keeps_wf(self@, snapshot@);
        }
        let ghost prev = self@;
        self.blocks[first].rewind_to(snapshot.offset);
        assert(self@.blocks =~= prev.blocks.update(
            first as int,
            prev.blocks[first as int].rewound(snapshot@.offset),
        ));
        let mut i: usize = first + 1;
        while i < count
            invariant
                first < i <= count,
                first == snapshot@.block_idx,
                count == self.blocks@.len(),
                count == old(self)@.blocks.len(),
                self@.block_size == old(self)@.block_size,
                forall|j: int| 0 <= j < first ==> self@.blocks[j] == old(self)@.blocks[j],
                self@.blocks[first as int] == old(self)@.blocks[first as int].rewound(
                    snapshot@.offset,
                ),
                forall|j: int| first < j < i ==> self@.blocks[j] == old(self)@.blocks[j].reset(),
                forall|j: int| i <= j < count ==> self@.blocks[j] == old(self)@.blocks[j],
            decreases count - i,
        {
            let ghost prev = self@;
            self.blocks[i].reset();
            assert(self@.blocks =~= prev.blocks.update(i as int, prev.blocks[i as int].reset()));
            i += 1;
        }
        proof {
            assert(self@.blocks =~= old(self)@.rewound(snapshot@).blocks);
        }
    }

    /// Runs `func` on the arena and then goes back to the frontier at which
    /// it started, so that what `func` took after that frontier is free
    /// again.
    pub fn scope<Func, FuncResult>(&mut self, func: Func) -> (result: FuncResult) where
        Func: FnOnce(&mut Arena) -> FuncResult,

        requires
            old(self).wf(),
            forall|arena: &mut Arena| *arena == *old(self) ==> #[trigger] call_requires(func, (arena,)),
            forall|arena: &mut Arena, result: FuncResult|
                *arena == *old(self) && #[trigger] call_ensures(func, (arena,), result)
                    ==> final(arena).wf(),
        ensures
            final(self).wf(),
            exists|arena: &mut Arena|
                *arena == *old(self) && #[trigger] call_ensures(func, (arena,), result)
                    && final(self)@ == final(arena)@.restored(old(self)@.snapshot()),
    {
        let snapshot = self.snapshot();
        let result = func(self);
        self.rewind_to(snapshot);

        result
    }

    /// The number of blocks.
    pub fn block_count(&self) -> (n: usize)
        ensures
            n == self@.blocks.len(),
    {
        self.blocks.len()
    }

    /// The block numbered `index`, if there is one.
    pub fn block(&self, index: usize) -> (found: Option<&Block>)
        ensures
            index < self@.blocks.len() ==> (found matches Some(block) && block@
                == self@.blocks[index as int]),
            index >= self@.blocks.len() ==> found is None,
    {
        if index < self.blocks.len() {
            Some(&self.blocks[index])
        } else {
            None
        }
    }

    /// The bytes in use.
    pub fn len(&self) -> (n: usize)
        requires
            self.wf(),
        ensures
            n == self@.used(),
    {
        let count = self.blocks.len();
        let ghost blocks = self@.blocks;
        let mut total: usize = 0;
        let mut i: usize = 0;
        while i < count
            invariant
                i <= count,
                count == self.blocks@.len(),
                blocks == self@.blocks,
                self@.wf(),
                total == total_used(blocks.take(i as int)),
                total_size(blocks.take(i as int)) <= total_size(blocks),
            decreases count - i,
        {
            proof {
                assert(blocks.take(i + 1).drop_last() =~= blocks.take(i as int));
                lemma_sums_of_prefix(blocks, i + 1);
            }
            total = total + self.blocks[i].used();
            i += 1;
        }
        assert(blocks.take(count as int) =~= blocks);
        total
    }

    /// The bytes that the blocks own.
    pub fn cap(&self) -> (n: usize)
        requires
            self.wf(),
        ensures
            n == self@.capacity(),
    {
        let count = self.blocks.len();
        let ghost blocks = self@.blocks;
        let mut total: usize = 0;
        let mut i: usize = 0;
        while i < count
            invariant
                i <= count,
                count == self.blocks@.len(),
                blocks == self@.blocks,
                self@.wf(),
                total == total_size(blocks.take(i as int)),
            decreases count - i,
        {
            proof {
                assert(blocks.take(i + 1).drop_last() =~= blocks.take(i as int));
                lemma_sums_of_prefix(blocks, i + 1);
            }
            total = total + self.blocks[i].size();
            i += 1;
        }
        assert(blocks.take(count as int) =~= blocks);
        total
    }

    /// Whether nothing is in use.
    pub fn is_empty(&self) -> (empty: bool)
        requires
            self.wf(),
        ensures
            empty == (self@.used() == 0),
    {
        self.len() == 0
    }
}

} // verus!
