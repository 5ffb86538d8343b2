//! Address arithmetic shared by the byte and page allocators.

use vstd::arithmetic::div_mod::{
    lemma_fundamental_div_mod, lemma_mod_multiples_basic, lemma_small_mod,
};
use vstd::arithmetic::power2::pow2;
use vstd::bits::{lemma_usize_pow2_no_overflow, lemma_usize_shl_is_mul};
use vstd::prelude::*;

verus! {

/// Size in bytes of one memory page.
pub const PAGE_SIZE: usize = 0x1000;

/// Whether `addr` is a multiple of `align`. An alignment of zero constrains
/// nothing.
pub open spec fn is_aligned(addr: nat, align: nat) -> bool {
    align == 0 || addr % align == 0
}

/// Number of bytes that must be skipped from `addr` to reach the next
/// address that is a multiple of `align`.
pub open spec fn padding(addr: nat, align: nat) -> nat {
    if align == 0 || addr % align == 0 {
        0
    } else {
        (align - addr % align) as nat
    }
}

/// The least address at or above `addr` that is a multiple of `align`.
pub open spec fn align_up(addr: nat, align: nat) -> nat {
    addr + padding(addr, align)
}

/// `align_up` yields an aligned address, skips fewer than `align` bytes, and
/// no aligned address lies between `addr` and it.
pub proof fn lemma_align_up_is_least(addr: nat, align: nat)
    requires
        align > 0,
    ensures
        is_aligned(align_up(addr, align), align),
        addr <= align_up(addr, align) < addr + align,
        forall|m: nat| addr <= m && is_aligned(m, align) ==> align_up(addr, align) <= m,
{
    let a = addr as int;
    let d = align as int;
    let up = align_up(addr, align) as int;
    lemma_fundamental_div_mod(a, d);
    if a % d == 0 {
    } else {
        // up == d * (a / d + 1)
        assert(up == d * (a / d) + d);
        assert(d * (a / d + 1) == d * (a / d) + d) by (nonlinear_arith);
        lemma_mod_multiples_basic(a / d + 1, d);
        assert(((a / d + 1) * d) % d == 0);
        assert((a / d + 1) * d == d * (a / d + 1)) by (nonlinear_arith);
    }
    assert forall|m: nat| addr <= m && is_aligned(m, align) implies up <= m by {
        let mi = m as int;
        lemma_fundamental_div_mod(mi, d);
        if a % d != 0 && mi < up {
            // a < mi < d * (a / d + 1), and mi == d * (mi / d)
            assert(mi == d * (mi / d));
            assert(mi / d <= a / d) by (nonlinear_arith)
                requires
                    d > 0,
                    d * (mi / d) < d * (a / d) + d,
            ;
            assert(d * (mi / d) <= d * (a / d)) by (nonlinear_arith)
                requires
                    d > 0,
                    mi / d <= a / d,
            ;
            assert(false);
        }
    }
}

/// Computes the padding that brings `addr` up to a multiple of `align`.
pub fn padding_for(addr: usize, align: usize) -> (pad: usize)
    ensures
        pad == padding(addr as nat, align as nat),
{
    if align == 0 {
        0
    } else {
        let rem: usize = addr % align;
        if rem == 0 {
            0
        } else {
            align - rem
        }
    }
}

/// Tests whether `addr` is a multiple of two to the power `log2`.
pub fn is_aligned_pow2(addr: usize, log2: usize) -> (ok: bool)
    ensures
        ok == is_aligned(addr as nat, pow2(log2 as nat)),
{
    if log2 >= usize::BITS as usize {
        proof {
            lemma_pow2_exceeds_usize(log2 as nat);
            if addr != 0 {
                lemma_small_mod(addr as nat, pow2(log2 as nat));
            }
        }
        addr == 0
    } else {
        proof {
            lemma_usize_pow2_no_overflow(log2 as nat);
            lemma_usize_shl_is_mul(1usize, log2);
        }
        let align: usize = 1usize << log2;
        addr % align == 0
    }
}

/// Two to a power of at least the width of `usize` is above every `usize`.
pub proof fn lemma_pow2_exceeds_usize(e: nat)
    requires
        e >= usize::BITS,
    ensures
        pow2(e) > usize::MAX,
{
    vstd::arithmetic::power2::lemma2_to64();
    vstd::arithmetic::power2::lemma2_to64_rest();
    if e > 64 {
        vstd::arithmetic::power2::lemma_pow2_strictly_increases(64, e);
    }
    if e > 32 && e < 64 {
        vstd::arithmetic::power2::lemma_pow2_strictly_increases(32, e);
    }
}

} // verus!
