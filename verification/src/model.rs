//! The arena as a mathematical object: a sequence of block views and a
//! default block size, with what each operation makes of it.

use crate::align::{is_aligned, lemma_round_up_is_least_multiple};
use crate::block::{buffer_size_ok, BlockView};
use crate::error::ArenaError;
use vstd::arithmetic::power2::is_pow2;
use vstd::layout::valid_layout;
use vstd::prelude::*;

verus! {

/// The bytes in use in all of `blocks`.
pub open spec fn total_used(blocks: Seq<BlockView>) -> nat
    decreases blocks.len(),
{
    if blocks.len() == 0 {
        0
    } else {
        total_used(blocks.drop_last()) + blocks.last().used()
    }
}

/// The bytes that all of `blocks` own.
pub open spec fn total_size(blocks: Seq<BlockView>) -> nat
    decreases blocks.len(),
{
    if blocks.len() == 0 {
        0
    } else {
        total_size(blocks.drop_last()) + blocks.last().size()
    }
}

/// A place in an arena: `size` bytes from `offset` on in the block numbered
/// `block`.
#[derive(Clone, Copy, Debug, PartialEq, Eq, Structural)]
pub struct Region {
    pub block: usize,
    pub offset: usize,
    pub size: usize,
}

/// What a snapshot records: the number of the last block when it was taken,
/// and that block's cursor.
pub struct SnapshotView {
    pub block_idx: nat,
    pub offset: nat,
}

/// What an arena is, mathematically: its blocks in the order of their
/// creation, and the size of the blocks it makes by default.
pub struct ArenaView {
    pub blocks: Seq<BlockView>,
    pub block_size: nat,
}

impl ArenaView {
    /// There is a block, every block is well formed, the default size is
    /// positive, and the sizes of all blocks together fit a `usize`.
    pub open spec fn wf(self) -> bool {
        &&& self.blocks.len() > 0
        &&& self.block_size > 0
        &&& forall|i: int| 0 <= i < self.blocks.len() ==> (#[trigger] self.blocks[i]).wf()
        &&& self.capacity() <= usize::MAX
    }

    /// The bytes in use in all blocks.
    pub open spec fn used(self) -> nat {
        total_used(self.blocks)
    }

    /// The bytes that all blocks own.
    pub open spec fn capacity(self) -> nat {
        total_size(self.blocks)
    }

    /// The first block from `from` on, in the order of creation, whose
    /// remaining bytes are more than `size`.
    pub open spec fn first_fit_from(self, size: nat, from: int) -> Option<int>
        decreases self.blocks.len() - from,
    {
        if from < 0 || from >= self.blocks.len() {
            None
        } else if self.blocks[from].remaining() > size {
            Some(from)
        } else {
            self.first_fit_from(size, from + 1)
        }
    }

    /// The first block, in the order of creation, whose remaining bytes are
    /// more than `size`.
    pub open spec fn first_fit(self, size: nat) -> Option<int> {
        self.first_fit_from(size, 0)
    }

    /// The size of the block that a request of `size` bytes adds when no
    /// block has room for it.
    pub open spec fn growth(self, size: nat) -> nat {
        if self.block_size >= size {
            self.block_size
        } else {
            size
        }
    }

    /// The error that a request for a new block for `size` bytes is bound to
    /// give, if any: no layout describes the block, or the sizes of all
    /// blocks together would no longer fit a `usize`.
    pub open spec fn growth_error(self, size: nat) -> Option<ArenaError> {
        if self.growth(size) > usize::MAX || !buffer_size_ok(self.growth(size) as usize) {
            Some(ArenaError::BadAlignment)
        } else if self.capacity() + self.growth(size) > usize::MAX {
            Some(ArenaError::InsufficientMemory)
        } else {
            None
        }
    }

    /// What a request for `size` bytes at a boundary of `align` does: the
    /// arena after it, and the region or the error that it gives. The first
    /// block with room for more than `size` bytes takes it, and fails it if
    /// the aligned region does not fit; if no block has such room, a new
    /// block of `growth(size)` bytes takes it at offset 0, where `granted`
    /// says whether the memory for that block could be had.
    pub open spec fn allocated(self, size: nat, align: nat, granted: bool) -> (
        ArenaView,
        Result<Region, ArenaError>,
    ) {
        match self.first_fit(size) {
            Some(i) => if self.blocks[i].fits(size, align) {
                (
                    self.with_block(i, self.blocks[i].bumped(size, align)),
                    Ok(
                        Region {
                            block: i as usize,
                            offset: self.blocks[i].aligned(align) as usize,
                            size: size as usize,
                        },
                    ),
                )
            } else {
                (self, Err(ArenaError::InsufficientMemory))
            },
            None => match self.growth_error(size) {
                Some(e) => (self, Err(e)),
                None => if granted {
                    (
                        self.with_new_block(
                            BlockView::fresh(self.growth(size)).bumped(size, align),
                        ),
                        Ok(
                            Region {
                                block: self.blocks.len() as usize,
                                offset: 0,
                                size: size as usize,
                            },
                        ),
                    )
                } else {
                    (self, Err(ArenaError::InsufficientMemory))
                },
            },
        }
    }

    /// The arena with `data` written from the start of `region` on.
    pub open spec fn with_bytes(self, region: Region, data: Seq<u8>) -> ArenaView
        recommends
            self.live(region),
            data.len() <= region.size,
    {
        self.with_block(
            region.block as int,
            self.blocks[region.block as int].with_bytes(region.offset as nat, data),
        )
    }

    /// What a request for `size` bytes at a boundary of `align`, to be filled
    /// with `data`, does: what `allocated` says, with `data` in the region if
    /// there is one.
    pub open spec fn stored(self, size: nat, align: nat, data: Seq<u8>, granted: bool) -> (
        ArenaView,
        Result<Region, ArenaError>,
    ) {
        match self.allocated(size, align, granted).1 {
            Ok(region) => (
                self.allocated(size, align, granted).0.with_bytes(region, data),
                Ok(region),
            ),
            Err(e) => (self, Err(e)),
        }
    }

    /// The arena with the block numbered `i` replaced.
    pub open spec fn with_block(self, i: int, block: BlockView) -> ArenaView {
        ArenaView { blocks: self.blocks.update(i, block), ..self }
    }

    /// The arena with one more block.
    pub open spec fn with_new_block(self, block: BlockView) -> ArenaView {
        ArenaView { blocks: self.blocks.push(block), ..self }
    }

    /// The arena with nothing in use; the bytes keep their values.
    pub open spec fn reset(self) -> ArenaView {
        ArenaView { blocks: self.blocks.map_values(|b: BlockView| b.reset()), ..self }
    }

    /// The arena with nothing in use and every byte zero.
    pub open spec fn zeroed(self) -> ArenaView {
        ArenaView { blocks: self.blocks.map_values(|b: BlockView| b.zeroed()), ..self }
    }

    /// The frontier: the last block and its cursor.
    pub open spec fn snapshot(self) -> SnapshotView {
        SnapshotView {
            block_idx: (self.blocks.len() - 1) as nat,
            offset: self.blocks.last().cursor,
        }
    }

    /// Whether the arena can go back to `snapshot`: its block exists, and that
    /// block's cursor has not fallen behind the recorded one.
    pub open spec fn admits(self, snapshot: SnapshotView) -> bool {
        &&& snapshot.block_idx < self.blocks.len()
        &&& snapshot.offset <= self.blocks[snapshot.block_idx as int].cursor
    }

    /// The arena taken back to `snapshot`: the snapshot's block has the
    /// recorded cursor, every later block has nothing in use, earlier blocks
    /// are as they are.
    pub open spec fn rewound(self, snapshot: SnapshotView) -> ArenaView {
        ArenaView {
            blocks: Seq::new(
                self.blocks.len(),
                |i: int|
                    if i < snapshot.block_idx {
                        self.blocks[i]
                    } else if i == snapshot.block_idx {
                        self.blocks[i].rewound(snapshot.offset)
                    } else {
                        self.blocks[i].reset()
                    },
            ),
            ..self
        }
    }

    /// The arena after an attempt to go back to `snapshot`: taken back if it
    /// admits the snapshot, as it is if not.
    pub open spec fn restored(self, snapshot: SnapshotView) -> ArenaView {
        if self.admits(snapshot) {
            self.rewound(snapshot)
        } else {
            self
        }
    }

    /// Whether this arena can have come from `earlier` by requests alone:
    /// the blocks of `earlier` are still there with their sizes, and no
    /// cursor has moved back.
    pub open spec fn extends(self, earlier: ArenaView) -> bool {
        &&& self.block_size == earlier.block_size
        &&& self.blocks.len() >= earlier.blocks.len()
        &&& forall|i: int|
            0 <= i < earlier.blocks.len() ==> (#[trigger] self.blocks[i]).size()
                == earlier.blocks[i].size() && self.blocks[i].cursor >= earlier.blocks[i].cursor
    }

    /// Whether `region` lies within the bytes in use of a block.
    pub open spec fn live(self, region: Region) -> bool {
        &&& region.block < self.blocks.len()
        &&& region.offset + region.size <= self.blocks[region.block as int].cursor
    }

    /// The bytes of `region`.
    pub open spec fn bytes_of(self, region: Region) -> Seq<u8>
        recommends
            self.live(region),
    {
        self.blocks[region.block as int].bytes.subrange(
            region.offset as int,
            region.offset + region.size,
        )
    }
}

/// Of well-formed blocks, a prefix owns no more than the whole, and has in
/// use no more than it owns.
pub proof fn lemma_sums_of_prefix(blocks: Seq<BlockView>, n: int)
    requires
        0 <= n <= blocks.len(),
        forall|i: int| 0 <= i < blocks.len() ==> (#[trigger] blocks[i]).wf(),
    ensures
        total_used(blocks.take(n)) <= total_size(blocks.take(n)) <= total_size(blocks),
    decreases blocks.len() - n,
{
    lemma_used_within_size(blocks.take(n));
    if n < blocks.len() {
        lemma_sums_of_prefix(blocks, n + 1);
        assert(blocks.take(n + 1).drop_last() =~= blocks.take(n));
    } else {
        assert(blocks.take(n) =~= blocks);
    }
}

/// What `first_fit_from` finds: a block from `from` on with room for more
/// than `size` bytes, before which no block from `from` on has such room; and
/// nothing only if no block from `from` on has such room.
pub proof fn lemma_first_fit(arena: ArenaView, size: nat, from: int)
    requires
        0 <= from,
    ensures
        match arena.first_fit_from(size, from) {
            Some(i) => {
                &&& from <= i < arena.blocks.len()
                &&& arena.blocks[i].remaining() > size
                &&& forall|j: int| from <= j < i ==> (#[trigger] arena.blocks[j]).remaining() <= size
            },
            None => forall|j: int|
                from <= j < arena.blocks.len() ==> (#[trigger] arena.blocks[j]).remaining() <= size,
        },
    decreases arena.blocks.len() - from,
{
    if from < arena.blocks.len() && arena.blocks[from].remaining() <= size {
        lemma_first_fit(arena, size, from + 1);
    }
}

/// A request leaves a well-formed arena that extends the one before it. The
/// region that it gives lies within the bytes in use of that arena, starts
/// at a multiple of the alignment, and has the size asked for; an error
/// leaves the arena as it was.
pub proof fn lemma_allocated_is_live(arena: ArenaView, size: nat, align: nat, granted: bool)
    requires
        arena.wf(),
        size <= usize::MAX,
        is_pow2(align as int),
    ensures
        arena.allocated(size, align, granted).0.wf(),
        arena.allocated(size, align, granted).0.extends(arena),
        match arena.allocated(size, align, granted).1 {
            Ok(region) => {
                &&& arena.allocated(size, align, granted).0.live(region)
                &&& is_aligned(region.offset as nat, align)
                &&& region.size == size
            },
            Err(_) => arena.allocated(size, align, granted).0 == arena,
        },
{
    assert(align > 0) by {
        reveal(is_pow2);
    }
    lemma_count_within_size(arena.blocks);
    lemma_first_fit(arena, size, 0);
    match arena.first_fit(size) {
        Some(i) => {
            if arena.blocks[i].fits(size, align) {
                lemma_round_up_is_least_multiple(arena.blocks[i].cursor, align);
                lemma_totals_after_update(arena.blocks, i, arena.blocks[i].bumped(size, align));
            }
        },
        None => {
            if arena.growth_error(size) is None && granted {
                let block = BlockView::fresh(arena.growth(size)).bumped(size, align);
                assert(arena.blocks.push(block).drop_last() =~= arena.blocks);
                assert(valid_layout(
                    arena.growth(size) as usize,
                    vstd::layout::align_of::<usize>() as usize,
                ));
                assert(vstd::layout::align_of::<usize>() as usize > 0) by {
                    reveal(is_pow2);
                }
                vstd::arithmetic::div_mod::lemma_mod_bound(
                    isize::MAX as int,
                    vstd::layout::align_of::<usize>() as usize as int,
                );
                assert(block.wf());
            }
        },
    }
}

/// A request that is filled with data no longer than it leaves a well-formed
/// arena that extends the one before it. The region that it gives lies within
/// the bytes in use of that arena, starts at a multiple of the alignment, has
/// the size asked for, and begins with the data; an error leaves the arena as
/// it was.
pub proof fn lemma_stored_is_live(
    arena: ArenaView,
    size: nat,
    align: nat,
    data: Seq<u8>,
    granted: bool,
)
    requires
        arena.wf(),
        size <= usize::MAX,
        is_pow2(align as int),
        data.len() <= size,
    ensures
        arena.stored(size, align, data, granted).0.wf(),
        arena.stored(size, align, data, granted).0.extends(arena),
        match arena.stored(size, align, data, granted).1 {
            Ok(region) => {
                &&& arena.stored(size, align, data, granted).0.live(region)
                &&& is_aligned(region.offset as nat, align)
                &&& region.size == size
                &&& arena.stored(size, align, data, granted).0.bytes_of(region).take(
                    data.len() as int,
                ) == data
            },
            Err(_) => arena.stored(size, align, data, granted).0 == arena,
        },
{
    lemma_allocated_is_live(arena, size, align, granted);
    let taken = arena.allocated(size, align, granted).0;
    match arena.allocated(size, align, granted).1 {
        Ok(region) => {
            let block = taken.blocks[region.block as int];
            let filled = taken.with_bytes(region, data);
            lemma_totals_after_update(
                taken.blocks,
                region.block as int,
                block.with_bytes(region.offset as nat, data),
            );
            assert(filled.bytes_of(region).take(data.len() as int) =~= data);
        },
        Err(_) => {},
    }
}

/// Well-formed blocks own at least one byte each.
pub proof fn lemma_count_within_size(blocks: Seq<BlockView>)
    requires
        forall|i: int| 0 <= i < blocks.len() ==> (#[trigger] blocks[i]).wf(),
    ensures
        blocks.len() <= total_size(blocks),
    decreases blocks.len(),
{
    if blocks.len() > 0 {
        lemma_count_within_size(blocks.drop_last());
    }
}

/// Blocks of the same sizes, one by one, own the same in all.
pub proof fn lemma_total_size_by_sizes(a: Seq<BlockView>, b: Seq<BlockView>)
    requires
        a.len() == b.len(),
        forall|i: int| 0 <= i < a.len() ==> (#[trigger] a[i]).size() == b[i].size(),
    ensures
        total_size(a) == total_size(b),
    decreases a.len(),
{
    if a.len() > 0 {
        lemma_total_size_by_sizes(a.drop_last(), b.drop_last());
    }
}

/// Blocks with nothing in use have nothing in use in all.
pub proof fn lemma_total_used_of_empty(blocks: Seq<BlockView>)
    requires
        forall|i: int| 0 <= i < blocks.len() ==> (#[trigger] blocks[i]).used() == 0,
    ensures
        total_used(blocks) == 0,
    decreases blocks.len(),
{
    if blocks.len() > 0 {
        lemma_total_used_of_empty(blocks.drop_last());
    }
}

/// A reset arena is well formed and has nothing in use.
pub proof fn lemma_reset_keeps_wf(arena: ArenaView)
    requires
        arena.wf(),
    ensures
        arena.reset().wf(),
        arena.reset().used() == 0,
{
    lemma_total_size_by_sizes(arena.blocks, arena.reset().blocks);
    lemma_total_used_of_empty(arena.reset().blocks);
}

/// A zeroed arena is well formed and has nothing in use.
pub proof fn lemma_zeroed_keeps_wf(arena: ArenaView)
    requires
        arena.wf(),
    ensures
        arena.zeroed().wf(),
        arena.zeroed().used() == 0,
{
    lemma_total_size_by_sizes(arena.blocks, arena.zeroed().blocks);
    lemma_total_used_of_empty(arena.zeroed().blocks);
}

/// An arena taken back to a snapshot that it admits is well formed.
pub proof fn lemma_rewound_keeps_wf(arena: ArenaView, snapshot: SnapshotView)
    requires
        arena.wf(),
        arena.admits(snapshot),
    ensures
        arena.rewound(snapshot).wf(),
{
    lemma_total_size_by_sizes(arena.blocks, arena.rewound(snapshot).blocks);
}

/// Replacing one block by a block of the same size leaves the size of all
/// blocks as it is, and changes what is in use by the difference.
pub proof fn lemma_totals_after_update(blocks: Seq<BlockView>, i: int, block: BlockView)
    requires
        0 <= i < blocks.len(),
        block.size() == blocks[i].size(),
    ensures
        total_size(blocks.update(i, block)) == total_size(blocks),
        total_used(blocks.update(i, block)) == total_used(blocks) - blocks[i].used() + block.used(),
    decreases blocks.len(),
{
    let after = blocks.update(i, block);
    if i == blocks.len() - 1 {
        assert(after.drop_last() =~= blocks.drop_last());
    } else {
        lemma_totals_after_update(blocks.drop_last(), i, block);
        assert(after.drop_last() =~= blocks.drop_last().update(i, block));
    }
}

/// Well-formed blocks have in use no more than they own.
pub proof fn lemma_used_within_size(blocks: Seq<BlockView>)
    requires
        forall|i: int| 0 <= i < blocks.len() ==> (#[trigger] blocks[i]).wf(),
    ensures
        total_used(blocks) <= total_size(blocks),
    decreases blocks.len(),
{
    if blocks.len() > 0 {
        lemma_used_within_size(blocks.drop_last());
    }
}

} // verus!
