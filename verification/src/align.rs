//! Arithmetic of power-of-two alignment: rounding an offset up to a boundary,
//! by division in specifications and by masking in executable code.

use vstd::arithmetic::div_mod::*;
use vstd::arithmetic::power2::*;
use vstd::bits::*;
use vstd::prelude::*;

verus! {

/// Whether `n` is a multiple of `align`.
pub open spec fn is_aligned(n: nat, align: nat) -> bool
    recommends
        align > 0,
{
    n % align == 0
}

/// The least multiple of `align` that is not below `n`.
pub open spec fn round_up(n: nat, align: nat) -> nat
    recommends
        align > 0,
{
    if n % align == 0 {
        n
    } else {
        (n - n % align + align) as nat
    }
}

/// `round_up(n, align)` is a multiple of `align`, lies in `[n, n + align)`,
/// and no smaller multiple of `align` reaches `n`.
pub proof fn lemma_round_up_is_least_multiple(n: nat, align: nat)
    requires
        align > 0,
    ensures
        is_aligned(round_up(n, align), align),
        n <= round_up(n, align) < n + align,
        forall|m: nat| #[trigger] is_aligned(m, align) && n <= m ==> round_up(n, align) <= m,
{
    let a = align as int;
    let r = (n % align) as int;
    let q = (n / align) as int;
    let up = round_up(n, align) as int;
    lemma_fundamental_div_mod(n as int, a);
    lemma_mod_bound(n as int, a);
    if r != 0 {
        assert(up == (q + 1) * a) by (nonlinear_arith)
            requires
                up == n - r + a,
                n == a * q + r,
        ;
        lemma_mod_multiples_basic(q + 1, a);
    }
    assert forall|m: nat| #[trigger] is_aligned(m, align) && n <= m implies round_up(n, align)
        <= m by {
        if r != 0 {
            lemma_fundamental_div_mod(m as int, a);
            let p = (m / align) as int;
            assert(m == a * p);
            assert(p >= q + 1) by (nonlinear_arith)
                requires
                    a * p >= a * q + r,
                    r > 0,
                    a > 0,
            ;
            assert(a * p >= (q + 1) * a) by (nonlinear_arith)
                requires
                    p >= q + 1,
                    a > 0,
            ;
        }
    }
}

/// Tells whether `n` is a power of two, by halving.
pub fn is_power_of_two(n: usize) -> (yes: bool)
    ensures
        yes == is_pow2(n as int),
{
    if n == 0 {
        proof {
            reveal(is_pow2);
        }
        return false;
    }
    let mut m: usize = n;
    while m % 2 == 0
        invariant
            m > 0,
            is_pow2(m as int) == is_pow2(n as int),
        decreases m,
    {
        proof {
            reveal(is_pow2);
        }
        m = m / 2;
    }
    proof {
        reveal(is_pow2);
    }
    m == 1
}

/// A power of two that fits a `usize` is `pow2(k)` for some `k` below the
/// width of `usize`.
pub proof fn lemma_pow2_exponent(align: usize) -> (k: nat)
    requires
        is_pow2(align as int),
    ensures
        k < usize::BITS,
        pow2(k) == align,
{
    is_pow2_equiv(align as int);
    let k = choose|i: nat| vstd::arithmetic::power::pow(2, i) == align as int;
    lemma_pow2(k);
    if k >= usize::BITS {
        vstd::layout::unsigned_int_max_values();
        if k > usize::BITS {
            lemma_pow2_strictly_increases(usize::BITS as nat, k);
        }
        assert(false);
    }
    k
}

/// A power of two that fits a `usize` is at most `isize::MAX + 1`, so adding
/// one less than it to a value up to `isize::MAX` stays within `usize`.
pub proof fn lemma_pow2_headroom(align: usize)
    requires
        is_pow2(align as int),
    ensures
        0 < align <= isize::MAX + 1,
        isize::MAX + align <= usize::MAX,
{
    let k = lemma_pow2_exponent(align);
    lemma_pow2_pos(k);
    vstd::layout::unsigned_int_max_values();
    vstd::layout::signed_int_min_max_values();
    if k < (usize::BITS - 1) as nat {
        lemma_pow2_strictly_increases(k, (usize::BITS - 1) as nat);
    }
    lemma_pow2_unfold(usize::BITS as nat);
}

/// Masking off the low bits of `n + align - 1` rounds `n` up to `align`.
pub proof fn lemma_mask_rounds_up(n: usize, align: usize)
    requires
        is_pow2(align as int),
        n + align - 1 <= usize::MAX,
    ensures
        align > 0,
        (((n + align - 1) as usize) & !((align - 1) as usize)) == round_up(n as nat, align as nat),
{
    let k = lemma_pow2_exponent(align);
    lemma_pow2_pos(k);
    let x: usize = (n + align - 1) as usize;
    let m: usize = (align - 1) as usize;
    assert(m == low_bits_mask(k) as usize);
    lemma_usize_low_bits_mask_is_mod(x, k);
    assert(x & m == x % align);
    assert(x & !m == x - (x & m)) by (bit_vector);
    let a = align as int;
    let q = (n / align) as int;
    let r = (n % align) as int;
    lemma_fundamental_div_mod(n as int, a);
    lemma_mod_bound(n as int, a);
    if r == 0 {
        assert(x == q * a + (a - 1)) by (nonlinear_arith)
            requires
                x == n + a - 1,
                n == a * q,
        ;
        lemma_fundamental_div_mod_converse(x as int, a, q, a - 1);
    } else {
        assert(x == (q + 1) * a + (r - 1)) by (nonlinear_arith)
            requires
                x == n + a - 1,
                n == a * q + r,
        ;
        lemma_fundamental_div_mod_converse(x as int, a, q + 1, r - 1);
    }
}

/// Rounds `n` up to the next multiple of `align`, a power of two, with the
/// alignment mask.
pub fn align_up(n: usize, align: usize) -> (aligned: usize)
    requires
        is_pow2(align as int),
        n + align - 1 <= usize::MAX,
    ensures
        aligned == round_up(n as nat, align as nat),
{
    proof {
        lemma_mask_rounds_up(n, align);
    }
    let align_mask: usize = !(align - 1);
    (n + (align - 1)) & align_mask
}

} // verus!
