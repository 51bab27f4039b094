use arena::{Arena, ArenaError, Block, Layout, Region};

fn layout(size: usize, align: usize) -> Layout {
    Layout::from_size_align(size, align).unwrap()
}

fn chunk(arena: &mut Arena, size: usize) -> Region {
    arena.try_alloc(layout(size, 1)).unwrap()
}

#[test]
fn new_arena_has_one_default_block() {
    let arena = Arena::new().unwrap();
    assert_eq!(arena.block_count(), 1);
    assert_eq!(arena.cap(), 64 * 1024);
    assert_eq!(arena.len(), 0);
    assert!(arena.is_empty());
}

#[test]
fn arena_with_block_size_zero_is_refused() {
    assert_eq!(Arena::with_block_size(0).err(), Some(ArenaError::ZeroSize));
}

#[test]
fn arena_with_block_size_too_large_is_refused() {
    assert_eq!(Arena::with_block_size(usize::MAX).err(), Some(ArenaError::BadAlignment));
}

#[test]
fn arena_from_a_failed_first_block_is_that_error() {
    let first = Block::from_storage(64, None);
    assert_eq!(Arena::from_first_block(first).err(), Some(ArenaError::InsufficientMemory));
    let arena = Arena::from_first_block(Block::new(128)).unwrap();
    assert_eq!(arena.cap(), 128);
    assert_eq!(arena.block_count(), 1);
}

#[test]
fn integer_array_then_text_uses_24_bytes() {
    let mut arena = Arena::with_block_size(4096).unwrap();
    let numbers = arena.alloc_slice::<u32>(4).unwrap();
    assert_eq!(numbers, Region { block: 0, offset: 0, size: 16 });
    assert_eq!(arena.bytes(&numbers), Some(&[0u8; 16][..]));
    let text = arena.alloc_str("8 bytes!").unwrap();
    assert_eq!(text, Region { block: 0, offset: 16, size: 8 });
    assert_eq!(arena.bytes(&text), Some("8 bytes!".as_bytes()));
    assert_eq!(arena.len(), 16 + 8);
    assert_eq!(arena.cap(), 4096);
    assert!(!arena.is_empty());
}

#[test]
fn hundred_byte_chunks_overflow_into_a_second_block() {
    let mut arena = Arena::with_block_size(4096).unwrap();
    for i in 0..40 {
        let region = chunk(&mut arena, 100);
        assert_eq!(region, Region { block: 0, offset: i * 100, size: 100 });
        assert_eq!(arena.block_count(), 1);
    }
    assert_eq!(arena.len(), 4000);
    let region = chunk(&mut arena, 100);
    assert_eq!(arena.block_count(), 2);
    assert_eq!(region, Region { block: 1, offset: 0, size: 100 });
    assert_eq!(arena.len(), 4100);
    assert_eq!(arena.cap(), 8192);
    assert_eq!(arena.block(0).unwrap().remaining(), 96);
    assert_eq!(arena.block(1).unwrap().used(), 100);
    assert!(arena.block(2).is_none());
}

#[test]
fn nested_scopes_give_back_inner_then_outer() {
    let mut arena = Arena::with_block_size(4096).unwrap();
    chunk(&mut arena, 10);
    let at_entry = arena.len();
    let seen = arena.scope(|outer| {
        let a = outer.alloc_str("outer").unwrap();
        let with_a = outer.len();
        let inside = outer.scope(|inner| {
            let b = inner.alloc_str("inner!").unwrap();
            assert_eq!(inner.bytes(&b), Some("inner!".as_bytes()));
            inner.len()
        });
        // the inner region is given back, the outer one is kept
        assert_eq!(outer.len(), with_a);
        assert_eq!(outer.bytes(&a), Some("outer".as_bytes()));
        (with_a, inside)
    });
    assert_eq!(seen, (15, 21));
    assert_eq!(arena.len(), at_entry);
    assert_eq!(arena.len(), 10);
}

#[test]
fn scope_returns_the_result_of_its_body() {
    let mut arena = Arena::with_block_size(64).unwrap();
    let answer = arena.scope(|_| 42);
    assert_eq!(answer, 42);
    assert!(arena.is_empty());
}

#[test]
fn scope_gives_back_any_number_of_bytes() {
    for n in [0usize, 1, 100, 4095, 4096, 10_000] {
        let mut arena = Arena::with_block_size(4096).unwrap();
        chunk(&mut arena, 7);
        let before = arena.len();
        arena.scope(|inner| {
            chunk(inner, n);
        });
        assert_eq!(arena.len(), before);
    }
}

#[test]
fn scope_keeps_added_blocks_empty() {
    let mut arena = Arena::with_block_size(64).unwrap();
    chunk(&mut arena, 60);
    arena.scope(|inner| {
        chunk(inner, 200);
        chunk(inner, 64);
        assert_eq!(inner.block_count(), 3);
    });
    assert_eq!(arena.block_count(), 3);
    assert_eq!(arena.len(), 60);
    assert_eq!(arena.cap(), 64 + 200 + 64);
    assert_eq!(arena.block(1).unwrap().used(), 0);
    assert_eq!(arena.block(2).unwrap().used(), 0);
}

#[test]
fn scope_does_not_give_back_what_went_into_an_earlier_block() {
    let mut arena = Arena::with_block_size(64).unwrap();
    chunk(&mut arena, 60);
    chunk(&mut arena, 64);
    assert_eq!(arena.block_count(), 2);
    assert_eq!(arena.len(), 124);
    arena.scope(|inner| {
        // the first block still has room for more than two bytes
        assert_eq!(chunk(inner, 2), Region { block: 0, offset: 60, size: 2 });
    });
    assert_eq!(arena.len(), 126);
}

#[test]
fn snapshot_then_rewind_changes_nothing() {
    let mut arena = Arena::with_block_size(128).unwrap();
    chunk(&mut arena, 100);
    chunk(&mut arena, 100);
    chunk(&mut arena, 5);
    let used = arena.len();
    let blocks = arena.block_count();
    let snapshot = arena.snapshot();
    assert!(arena.admits(&snapshot));
    arena.rewind_to(snapshot);
    assert_eq!(arena.len(), used);
    assert_eq!(arena.block_count(), blocks);
    assert_eq!(arena.block(0).unwrap().used(), 105);
    assert_eq!(arena.block(1).unwrap().used(), 100);
}

#[test]
fn rewind_resets_later_blocks_and_keeps_them() {
    let mut arena = Arena::with_block_size(128).unwrap();
    chunk(&mut arena, 50);
    let snapshot = arena.snapshot();
    chunk(&mut arena, 70);
    chunk(&mut arena, 100);
    chunk(&mut arena, 300);
    assert_eq!(arena.block_count(), 3);
    assert_eq!(arena.len(), 520);
    arena.rewind_to(snapshot);
    assert_eq!(arena.block_count(), 3);
    assert_eq!(arena.len(), 50);
    assert_eq!(arena.cap(), 128 + 128 + 300);
    assert_eq!(arena.block(0).unwrap().used(), 50);
    assert_eq!(arena.block(1).unwrap().used(), 0);
    assert_eq!(arena.block(2).unwrap().used(), 0);
}

#[test]
fn rewind_to_a_snapshot_from_before_a_reset_changes_nothing() {
    let mut arena = Arena::with_block_size(128).unwrap();
    chunk(&mut arena, 50);
    let snapshot = arena.snapshot();
    arena.reset();
    chunk(&mut arena, 10);
    assert!(!arena.admits(&snapshot));
    arena.rewind_to(snapshot);
    assert_eq!(arena.len(), 10);
}

#[test]
fn rewind_to_a_snapshot_of_a_larger_arena_changes_nothing() {
    let mut large = Arena::with_block_size(16).unwrap();
    chunk(&mut large, 16);
    chunk(&mut large, 16);
    let snapshot = large.snapshot();
    let mut small = Arena::with_block_size(16).unwrap();
    chunk(&mut small, 4);
    assert!(!small.admits(&snapshot));
    small.rewind_to(snapshot);
    assert_eq!(small.len(), 4);
    assert_eq!(small.block_count(), 1);
}

#[test]
fn reset_reuses_the_bytes_handed_out_before() {
    let mut arena = Arena::with_block_size(64).unwrap();
    let first = arena.copy_slice(&[1u8, 2, 3, 4]).unwrap();
    chunk(&mut arena, 100);
    assert_eq!(arena.block_count(), 2);
    arena.reset();
    assert_eq!(arena.len(), 0);
    assert!(arena.is_empty());
    assert_eq!(arena.block_count(), 2);
    assert_eq!(arena.cap(), 164);
    let again = chunk(&mut arena, 4);
    assert_eq!(again, first);
    assert_eq!(again, Region { block: 0, offset: 0, size: 4 });
    // a plain reset does not clear the bytes
    assert_eq!(arena.bytes(&again), Some(&[1u8, 2, 3, 4][..]));
    assert_eq!(arena.len(), 4);
}

#[test]
fn reset_zeroed_clears_every_byte_of_every_block() {
    let mut arena = Arena::with_block_size(16).unwrap();
    arena.copy_slice(&[0xffu8; 15]).unwrap();
    arena.copy_slice(&[0xeeu8; 40]).unwrap();
    assert_eq!(arena.block_count(), 2);
    assert_eq!(arena.block(0).unwrap().bytes(0, 16)[14], 0xff);
    assert_eq!(arena.block(1).unwrap().bytes(0, 40)[39], 0xee);
    arena.reset_zeroed();
    assert_eq!(arena.len(), 0);
    assert_eq!(arena.block_count(), 2);
    assert_eq!(arena.block(0).unwrap().bytes(0, 16), &[0u8; 16][..]);
    assert_eq!(arena.block(1).unwrap().bytes(0, 40), &[0u8; 40][..]);
}

#[test]
fn oversized_request_gets_a_block_of_exactly_its_size() {
    let mut arena = Arena::with_block_size(64).unwrap();
    chunk(&mut arena, 8);
    let big = chunk(&mut arena, 1000);
    assert_eq!(big, Region { block: 1, offset: 0, size: 1000 });
    assert_eq!(arena.block_count(), 2);
    assert_eq!(arena.block(1).unwrap().size(), 1000);
    assert_eq!(arena.block(1).unwrap().remaining(), 0);
    // small requests go back to the first block while it has room
    let small = chunk(&mut arena, 8);
    assert_eq!(small, Region { block: 0, offset: 8, size: 8 });
    assert_eq!(arena.block_count(), 2);
}

#[test]
fn request_of_the_remaining_size_does_not_fit_the_block() {
    let mut arena = Arena::with_block_size(64).unwrap();
    // room must be more than the size asked for
    let region = chunk(&mut arena, 64);
    assert_eq!(region, Region { block: 1, offset: 0, size: 64 });
    assert_eq!(arena.block(0).unwrap().used(), 0);
    let region = chunk(&mut arena, 63);
    assert_eq!(region, Region { block: 0, offset: 0, size: 63 });
}

#[test]
fn request_fails_when_padding_pushes_past_the_end_of_the_first_fit() {
    let mut arena = Arena::with_block_size(16).unwrap();
    chunk(&mut arena, 1);
    assert_eq!(arena.try_get_block(layout(12, 8)), Some(0));
    assert_eq!(arena.try_alloc(layout(12, 8)), Err(ArenaError::InsufficientMemory));
    assert_eq!(arena.len(), 1);
    assert_eq!(arena.block_count(), 1);
}

#[test]
fn try_get_block_finds_the_first_block_with_room() {
    let mut arena = Arena::with_block_size(32).unwrap();
    chunk(&mut arena, 30);
    chunk(&mut arena, 20);
    chunk(&mut arena, 31);
    assert_eq!(arena.block_count(), 3);
    assert_eq!(arena.try_get_block(layout(1, 1)), Some(0));
    assert_eq!(arena.try_get_block(layout(2, 1)), Some(1));
    assert_eq!(arena.try_get_block(layout(11, 1)), Some(1));
    assert_eq!(arena.try_get_block(layout(12, 1)), None);
    assert_eq!(arena.try_get_block(layout(0, 1)), Some(0));
}

#[test]
fn alloc_new_block_appends_the_larger_of_default_and_request() {
    let mut arena = Arena::with_block_size(32).unwrap();
    assert_eq!(arena.alloc_new_block(8), Ok(1));
    assert_eq!(arena.block(1).unwrap().size(), 32);
    assert_eq!(arena.alloc_new_block(33), Ok(2));
    assert_eq!(arena.block(2).unwrap().size(), 33);
    assert_eq!(arena.alloc_new_block(usize::MAX), Err(ArenaError::BadAlignment));
    assert_eq!(arena.block_count(), 3);
    assert_eq!(arena.cap(), 97);
}

#[test]
fn attach_appends_a_block_or_hands_the_error_on() {
    let mut arena = Arena::with_block_size(32).unwrap();
    assert_eq!(arena.attach(Block::new(10)), Ok(1));
    assert_eq!(arena.attach(Err(ArenaError::ZeroSize)), Err(ArenaError::ZeroSize));
    assert_eq!(
        arena.attach(Block::from_storage(10, None)),
        Err(ArenaError::InsufficientMemory)
    );
    assert_eq!(arena.block_count(), 2);
    assert_eq!(arena.cap(), 42);
}

#[test]
fn allocate_writes_the_value() {
    let mut arena = Arena::with_block_size(64).unwrap();
    let byte = arena.allocate(0xabu8).unwrap();
    assert_eq!(byte, Region { block: 0, offset: 0, size: 1 });
    let word = arena.allocate(0x0102_0304u32).unwrap();
    let align = std::mem::align_of::<u32>();
    assert_eq!(word, Region { block: 0, offset: align, size: 4 });
    assert_eq!(arena.bytes(&byte), Some(&[0xabu8][..]));
    assert_eq!(arena.bytes(&word), Some(&[4u8, 3, 2, 1][..]));
    let half = arena.allocate(0x0a0bu16).unwrap();
    assert_eq!(arena.bytes(&half), Some(&[0x0bu8, 0x0a][..]));
    let wide = arena.allocate(0x0102_0304_0506_0708u64).unwrap();
    assert_eq!(wide.offset % std::mem::align_of::<u64>(), 0);
    assert_eq!(arena.bytes(&wide), Some(&[8u8, 7, 6, 5, 4, 3, 2, 1][..]));
}

#[test]
fn alloc_slice_is_zeroed_even_over_old_bytes() {
    let mut arena = Arena::with_block_size(64).unwrap();
    arena.copy_slice(&[0xffu8; 32]).unwrap();
    arena.reset();
    let slice = arena.alloc_slice::<u64>(3).unwrap();
    assert_eq!(slice, Region { block: 0, offset: 0, size: 24 });
    assert_eq!(arena.bytes(&slice), Some(&[0u8; 24][..]));
    assert_eq!(arena.block(0).unwrap().bytes(24, 8), &[0xffu8; 8][..]);
}

#[test]
fn alloc_slice_too_long_is_bad_alignment() {
    let mut arena = Arena::with_block_size(64).unwrap();
    assert_eq!(arena.alloc_slice::<u64>(usize::MAX), Err(ArenaError::BadAlignment));
    assert_eq!(arena.alloc_slice::<u32>(isize::MAX as usize), Err(ArenaError::BadAlignment));
    assert_eq!(arena.len(), 0);
    assert_eq!(arena.block_count(), 1);
}

#[test]
fn copy_slice_copies_each_value_in_order() {
    let mut arena = Arena::with_block_size(64).unwrap();
    let halves = arena.copy_slice(&[1u16, 2, 0x0304]).unwrap();
    assert_eq!(halves.size, 6);
    assert_eq!(arena.bytes(&halves), Some(&[1u8, 0, 2, 0, 4, 3][..]));
    let none = arena.copy_slice::<u32>(&[]).unwrap();
    assert_eq!(none.size, 0);
    assert_eq!(arena.bytes(&none), Some(&[][..]));
}

#[test]
fn alloc_str_copies_text_byte_for_byte() {
    let mut arena = Arena::new().unwrap();
    let first = arena.alloc_str("wtf").unwrap();
    let second = arena.alloc_str("test str").unwrap();
    let third = arena.alloc_str("grüße, 世界").unwrap();
    assert_eq!(first, Region { block: 0, offset: 0, size: 3 });
    assert_eq!(second, Region { block: 0, offset: 3, size: 8 });
    assert_eq!(std::str::from_utf8(arena.bytes(&first).unwrap()), Ok("wtf"));
    assert_eq!(std::str::from_utf8(arena.bytes(&second).unwrap()), Ok("test str"));
    assert_eq!(std::str::from_utf8(arena.bytes(&third).unwrap()), Ok("grüße, 世界"));
    assert_eq!(arena.len(), 3 + 8 + "grüße, 世界".len());
}

#[test]
fn bytes_of_a_region_that_is_not_in_use_are_not_given() {
    let mut arena = Arena::with_block_size(64).unwrap();
    let region = arena.copy_slice(&[5u8; 10]).unwrap();
    assert!(arena.bytes(&region).is_some());
    arena.reset();
    assert_eq!(arena.bytes(&region), None);
    assert_eq!(arena.bytes(&Region { block: 3, offset: 0, size: 0 }), None);
    assert_eq!(arena.bytes(&Region { block: 0, offset: usize::MAX, size: 2 }), None);
    assert_eq!(arena.bytes(&Region { block: 0, offset: 0, size: 0 }), Some(&[][..]));
}

#[test]
fn write_fills_a_region_in_use() {
    let mut arena = Arena::with_block_size(64).unwrap();
    let region = arena.alloc_slice::<u8>(4).unwrap();
    assert!(arena.write(&region, &[1, 2, 3]));
    assert_eq!(arena.bytes(&region), Some(&[1u8, 2, 3, 0][..]));
    // too long for the region
    assert!(!arena.write(&region, &[9, 9, 9, 9, 9]));
    assert_eq!(arena.bytes(&region), Some(&[1u8, 2, 3, 0][..]));
    arena.reset();
    assert!(!arena.write(&region, &[7]));
    assert_eq!(arena.block(0).unwrap().bytes(0, 4), &[1u8, 2, 3, 0][..]);
}
