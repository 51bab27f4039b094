//! Values that an arena can hold: those with a fixed form in bytes.

use vstd::bytes::{
    spec_u16_to_le_bytes,
    spec_u32_to_le_bytes,
    spec_u64_to_le_bytes,
    u16_to_le_bytes,
    u32_to_le_bytes,
    u64_to_le_bytes,
};
use vstd::layout::layout_of_primitives;
use vstd::prelude::*;

verus! {

/// A value that is stored as a fixed number of bytes: as many as its type
/// takes in memory.
pub trait Plain: Sized {
    /// The bytes that stand for the value.
    spec fn bytes(&self) -> Seq<u8>;

    /// The bytes that stand for the value.
    fn to_bytes(&self) -> (out: Vec<u8>)
        ensures
            out@ == self.bytes(),
            out@.len() == vstd::layout::size_of::<Self>(),
    ;
}

impl Plain for u8 {
    open spec fn bytes(&self) -> Seq<u8> {
        seq![*self]
    }

    fn to_bytes(&self) -> (out: Vec<u8>) {
        broadcast use layout_of_primitives;

        let mut out: Vec<u8> = Vec::new();
        out.push(*self);
        assert(out@ =~= seq![*self]);
        out
    }
}

impl Plain for u16 {
    /// Least significant byte first.
    open spec fn bytes(&self) -> Seq<u8> {
        spec_u16_to_le_bytes(*self)
    }

    fn to_bytes(&self) -> (out: Vec<u8>) {
        broadcast use layout_of_primitives;

        u16_to_le_bytes(*self)
    }
}

impl Plain for u32 {
    /// Least significant byte first.
    open spec fn bytes(&self) -> Seq<u8> {
        spec_u32_to_le_bytes(*self)
    }

    fn to_bytes(&self) -> (out: Vec<u8>) {
        broadcast use layout_of_primitives;

        u32_to_le_bytes(*self)
    }
}

impl Plain for u64 {
    /// Least significant byte first.
    open spec fn bytes(&self) -> Seq<u8> {
        spec_u64_to_le_bytes(*self)
    }

    fn to_bytes(&self) -> (out: Vec<u8>) {
        broadcast use layout_of_primitives;

        u64_to_le_bytes(*self)
    }
}

/// The bytes of the values of `items`, one value after the other.
pub open spec fn bytes_of_all<T: Plain>(items: Seq<T>) -> Seq<u8>
    decreases items.len(),
{
    if items.len() == 0 {
        Seq::empty()
    } else {
        bytes_of_all(items.drop_last()) + items.last().bytes()
    }
}

/// The bytes of a sequence of bytes are that sequence.
pub proof fn lemma_bytes_of_all_bytes(items: Seq<u8>)
    ensures
        bytes_of_all(items) == items,
    decreases items.len(),
{
    if items.len() > 0 {
        lemma_bytes_of_all_bytes(items.drop_last());
        assert(items.drop_last() + seq![items.last()] =~= items);
    } else {
        assert(items =~= Seq::<u8>::empty());
    }
}

} // verus!
