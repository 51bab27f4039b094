//! The size and alignment of a requested region.

use crate::align::is_power_of_two;
use crate::error::ArenaError;
use vstd::arithmetic::power2::is_pow2;
use vstd::layout::valid_layout;
use vstd::prelude::*;

verus! {

/// The size in bytes of a region and the power-of-two boundary at which it
/// starts. Every value is valid: the alignment is a power of two, and the size
/// rounded up to it does not exceed `isize::MAX`.
#[derive(Clone, Copy, Debug)]
pub struct Layout {
    size: usize,
    align: usize,
}

impl Layout {
    /// The number of bytes requested.
    pub closed spec fn spec_size(&self) -> usize {
        self.size
    }

    /// The boundary, in bytes, at which the region starts.
    pub closed spec fn spec_align(&self) -> usize {
        self.align
    }

    /// What holds of every layout.
    #[verifier::type_invariant]
    pub open spec fn wf(&self) -> bool {
        valid_layout(self.size(), self.align())
    }

    /// A layout of `size` bytes at a boundary of `align` bytes, if `align` is
    /// a power of two and `size`, rounded up to it, does not exceed
    /// `isize::MAX`.
    pub fn from_size_align(size: usize, align: usize) -> (made: Result<Layout, ArenaError>)
        ensures
            valid_layout(size, align) ==> (made matches Ok(layout) && layout.size() == size
                && layout.align() == align),
            !valid_layout(size, align) ==> made == Err::<Layout, ArenaError>(
                ArenaError::BadAlignment,
            ),
    {
        if !is_power_of_two(align) {
            return Err(ArenaError::BadAlignment);
        }
        proof {
            assert(align > 0) by {
                reveal(is_pow2);
            }
            vstd::arithmetic::div_mod::lemma_mod_decreases(isize::MAX as nat, align as nat);
        }
        if size > isize::MAX as usize - (isize::MAX as usize % align) {
            return Err(ArenaError::BadAlignment);
        }
        Ok(Layout { size, align })
    }

    /// The layout of a value of type `T`.
    pub fn new<T>() -> (layout: Layout)
        ensures
            layout.size() == vstd::layout::size_of::<T>(),
            layout.align() == vstd::layout::align_of::<T>(),
    {
        vstd::layout::layout_for_type_is_valid::<T>();
        Layout { size: core::mem::size_of::<T>(), align: core::mem::align_of::<T>() }
    }

    /// The layout of `n` values of type `T` in a row, if their total size
    /// fits a layout.
    pub fn array<T>(n: usize) -> (made: Result<Layout, ArenaError>)
        ensures
            Self::array_fits::<T>(n) ==> (made matches Ok(layout) && layout.size()
                == Self::array_size::<T>(n) && layout.align() == vstd::layout::align_of::<T>()),
            !Self::array_fits::<T>(n) ==> made == Err::<Layout, ArenaError>(
                ArenaError::BadAlignment,
            ),
    {
        vstd::layout::layout_for_type_is_valid::<T>();
        proof {
            vstd::arithmetic::mul::lemma_mul_is_commutative(
                n as int,
                vstd::layout::size_of::<T>() as int,
            );
        }
        match core::mem::size_of::<T>().checked_mul(n) {
            Some(total) => Layout::from_size_align(total, core::mem::align_of::<T>()),
            None => Err(ArenaError::BadAlignment),
        }
    }

    /// The number of bytes that `n` values of type `T` in a row take.
    pub open spec fn array_size<T>(n: usize) -> nat {
        (n * vstd::layout::size_of::<T>()) as nat
    }

    /// Whether `n` values of type `T` in a row fit a layout.
    pub open spec fn array_fits<T>(n: usize) -> bool {
        &&& Self::array_size::<T>(n) <= usize::MAX
        &&& valid_layout(Self::array_size::<T>(n) as usize, vstd::layout::align_of::<T>() as usize)
    }

    /// The number of bytes requested.
    #[verifier::when_used_as_spec(spec_size)]
    pub fn size(&self) -> (size: usize)
        ensures
            size == self.size(),
    {
        self.size
    }

    /// The boundary, in bytes, at which the region starts.
    #[verifier::when_used_as_spec(spec_align)]
    pub fn align(&self) -> (align: usize)
        ensures
            align == self.align(),
    {
        self.align
    }
}

} // verus!
