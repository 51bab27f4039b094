//! What holds of arenas across several operations, proved over their
//! mathematical form.

use crate::block::BlockView;
use crate::error::ArenaError;
use crate::model::{
    lemma_count_within_size,
    lemma_first_fit,
    lemma_reset_keeps_wf,
    lemma_rewound_keeps_wf,
    total_used,
    ArenaView,
    Region,
};
use vstd::arithmetic::power2::is_pow2;
use vstd::prelude::*;

verus! {

/// After a reset nothing is in use, and the next request that succeeds gets
/// its region at the very start of a block; if some block is larger than the
/// request, that is the first such block, so bytes handed out before are
/// handed out again.
pub proof fn lemma_request_after_reset_starts_a_block(
    arena: ArenaView,
    size: nat,
    align: nat,
    granted: bool,
)
    requires
        arena.wf(),
        is_pow2(align as int),
    ensures
        arena.reset().used() == 0,
        arena.reset().allocated(size, align, granted).1 matches Ok(region) ==> {
            &&& region.offset == 0
            &&& (exists|i: int| 0 <= i < arena.blocks.len() && arena.blocks[i].size() > size)
                ==> region.block < arena.blocks.len() && arena.blocks[region.block as int].size()
                > size
        },
{
    let fresh = arena.reset();
    lemma_reset_keeps_wf(arena);
    lemma_first_fit(fresh, size, 0);
    assert(align > 0) by {
        reveal(is_pow2);
    }
    lemma_count_within_size(fresh.blocks);
    if exists|i: int| 0 <= i < arena.blocks.len() && arena.blocks[i].size() > size {
        let i = choose|i: int| 0 <= i < arena.blocks.len() && arena.blocks[i].size() > size;
        assert(fresh.blocks[i].remaining() > size);
    }
    match fresh.first_fit(size) {
        Some(i) => {
            assert(fresh.blocks[i].remaining() == arena.blocks[i].size());
            assert(fresh.blocks[i].aligned(align) == 0);
        },
        None => {},
    }
}

/// Going back to a snapshot right after it was taken changes nothing: the
/// arena admits its own frontier, and the bytes in use and the blocks are
/// what they were.
pub proof fn lemma_rewind_to_own_snapshot(arena: ArenaView)
    requires
        arena.wf(),
    ensures
        arena.admits(arena.snapshot()),
        arena.restored(arena.snapshot()) == arena,
        arena.restored(arena.snapshot()).used() == arena.used(),
        arena.restored(arena.snapshot()).blocks.len() == arena.blocks.len(),
{
    assert(arena.rewound(arena.snapshot()).blocks =~= arena.blocks);
}

/// An arena that extends one that extends a third extends the third.
pub proof fn lemma_extends_is_transitive(a: ArenaView, b: ArenaView, c: ArenaView)
    requires
        c.extends(b),
        b.extends(a),
    ensures
        c.extends(a),
{
    assert forall|i: int| 0 <= i < a.blocks.len() implies (#[trigger] c.blocks[i]).size()
        == a.blocks[i].size() && c.blocks[i].cursor >= a.blocks[i].cursor by {
        assert(b.blocks[i].size() == a.blocks[i].size());
    }
}

/// Leaving a scope gives back what was taken in it. If `after` extends
/// `before`, and the blocks before the frontier block of `before` are used as
/// much as they were, then going back to the frontier of `before` leaves as
/// many bytes in use as `before` had; the blocks added since stay, empty.
pub proof fn lemma_scope_restores_used(before: ArenaView, after: ArenaView)
    requires
        before.wf(),
        after.wf(),
        after.extends(before),
        forall|i: int|
            0 <= i < before.blocks.len() - 1 ==> (#[trigger] after.blocks[i]).cursor
                == before.blocks[i].cursor,
    ensures
        after.admits(before.snapshot()),
        after.restored(before.snapshot()).wf(),
        after.restored(before.snapshot()).used() == before.used(),
        after.restored(before.snapshot()).blocks.len() == after.blocks.len(),
        forall|i: int|
            before.blocks.len() <= i < after.blocks.len() ==> (#[trigger] after.restored(
                before.snapshot(),
            ).blocks[i]).used() == 0,
{
    let snapshot = before.snapshot();
    let back = after.restored(snapshot);
    lemma_rewound_keeps_wf(after, snapshot);
    lemma_used_of_extension(before.blocks, back.blocks);
}

/// Blocks that start with blocks used as much as those of `short`, one by
/// one, and go on with empty blocks only, have as much in use as `short`.
proof fn lemma_used_of_extension(short: Seq<BlockView>, long: Seq<BlockView>)
    requires
        short.len() <= long.len(),
        forall|i: int| 0 <= i < short.len() ==> (#[trigger] long[i]).used() == short[i].used(),
        forall|i: int| short.len() <= i < long.len() ==> (#[trigger] long[i]).used() == 0,
    ensures
        total_used(long) == total_used(short),
    decreases long.len(),
{
    if long.len() > short.len() {
        lemma_used_of_extension(short, long.drop_last());
    } else if long.len() > 0 {
        lemma_used_of_extension(short.drop_last(), long.drop_last());
    }
}

/// A request for more than the default block size, for which no block has
/// room, adds a block of exactly the size asked for, and takes all of it from
/// offset 0, provided the block can be had.
pub proof fn lemma_oversized_request_gets_own_block(arena: ArenaView, size: nat, align: nat)
    requires
        arena.wf(),
        is_pow2(align as int),
        size > arena.block_size,
        arena.first_fit(size) is None,
        arena.growth_error(size) is None,
    ensures
        arena.allocated(size, align, true).1 == Ok::<Region, ArenaError>(
            Region { block: arena.blocks.len() as usize, offset: 0, size: size as usize },
        ),
        arena.allocated(size, align, true).0.blocks.len() == arena.blocks.len() + 1,
        arena.allocated(size, align, true).0.blocks.last().size() == size,
        arena.allocated(size, align, true).0.blocks.last().remaining() == 0,
        arena.allocated(size, align, true).0.blocks.drop_last() == arena.blocks,
{
    assert(align > 0) by {
        reveal(is_pow2);
    }
    let block = BlockView::fresh(arena.growth(size)).bumped(size, align);
    assert(arena.blocks.push(block).drop_last() =~= arena.blocks);
}

/// A block added at the end does not take requests that an earlier block has
/// room for: the first fit stays the first fit.
pub proof fn lemma_first_fit_prefers_earlier(arena: ArenaView, added: BlockView, size: nat)
    requires
        arena.first_fit(size) is Some,
    ensures
        arena.with_new_block(added).first_fit(size) == arena.first_fit(size),
{
    lemma_first_fit_in_longer(arena, added, size, 0);
}

/// `first_fit_from` finds the same block after a block was added at the end,
/// if it finds one before.
proof fn lemma_first_fit_in_longer(arena: ArenaView, added: BlockView, size: nat, from: int)
    requires
        0 <= from,
        arena.first_fit_from(size, from) is Some,
    ensures
        arena.with_new_block(added).first_fit_from(size, from) == arena.first_fit_from(
            size,
            from,
        ),
    decreases arena.blocks.len() - from,
{
    if from < arena.blocks.len() && arena.blocks[from].remaining() <= size {
        lemma_first_fit_in_longer(arena, added, size, from + 1);
    }
}

} // verus!
