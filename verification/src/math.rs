use vstd::prelude::*;

verus! {

use vstd::arithmetic::power2::pow2;
use vstd::arithmetic::power2::lemma_pow2_strictly_increases;
use vstd::arithmetic::power2::lemma_pow2_unfold;
use vstd::arithmetic::power2::lemma2_to64;

/// `x` rounded up to the next multiple of `alignment`.
pub open spec fn spec_align(x: int, alignment: int) -> int {
    if x % alignment == 0 {
        x
    } else {
        (x / alignment + 1) * alignment
    }
}

/// Ceiling of the base-two logarithm, by repeated halving.
pub open spec fn spec_log2_ceil(x: nat) -> nat
    decreases x,
{
    if x <= 1 {
        0
    } else {
        1 + spec_log2_ceil((x + 1) / 2)
    }
}

/// The smallest power of two that is at least `y`, with zero mapped to zero.
pub open spec fn spec_next_pow2(y: nat) -> nat {
    if y == 0 {
        0
    } else {
        pow2(spec_log2_ceil(y))
    }
}

/// `spec_align` names the smallest multiple of `alignment` that is at least `x`.
pub proof fn lemma_align_bounds(x: int, alignment: int)
    requires
        0 <= x,
        0 < alignment,
    ensures
        spec_align(x, alignment) % alignment == 0,
        x <= spec_align(x, alignment) < x + alignment,
{
    assert(alignment * (x / alignment) + x % alignment == x && 0 <= x % alignment < alignment)
        by (nonlinear_arith)
        requires
            0 <= x,
            0 < alignment,
    ;
    if x % alignment != 0 {
        assert((x / alignment + 1) * alignment == alignment * (x / alignment) + alignment)
            by (nonlinear_arith);
        assert(((x / alignment + 1) * alignment) % alignment == 0) by (nonlinear_arith)
            requires
                0 < alignment,
        ;
    }
}

/// `spec_log2_ceil(x)` names the least exponent whose power of two reaches `x`.
pub proof fn lemma_log2_ceil_bounds(x: nat)
    requires
        x >= 1,
    ensures
        pow2(spec_log2_ceil(x)) >= x,
        x >= 2 ==> pow2((spec_log2_ceil(x) - 1) as nat) < x,
    decreases x,
{
    if x <= 1 {
        lemma2_to64();
    } else {
        let y = (x + 1) / 2;
        assert(1 <= y < x);
        lemma_log2_ceil_bounds(y);
        let s = spec_log2_ceil(y);
        assert(spec_log2_ceil(x) == s + 1);
        lemma_pow2_unfold(s + 1);
        assert(2 * y >= x);
        if y >= 2 {
            assert(s >= 1);
            lemma_pow2_unfold(s);
            assert(pow2((s - 1) as nat) < y);
            assert(2 * y <= x + 1);
            assert(pow2(s) <= 2 * y - 2);
        } else {
            assert(y == 1 && s == 0);
            lemma2_to64();
        }
    }
}

/// Any exponent meeting the bounds of `lemma_log2_ceil_bounds` is `spec_log2_ceil(x)`.
pub proof fn lemma_log2_ceil_unique(x: nat, n: nat)
    requires
        x >= 1,
        pow2(n) >= x,
        n > 0 ==> pow2((n - 1) as nat) < x,
    ensures
        n == spec_log2_ceil(x),
{
    let s = spec_log2_ceil(x);
    lemma_log2_ceil_bounds(x);
    if n < s {
        if n < s - 1 {
            lemma_pow2_strictly_increases(n, (s - 1) as nat);
        }
        if x == 1 {
            assert(s == 0);
            assert(false);
        }
        assert(pow2(n) <= pow2((s - 1) as nat));
        assert(false);
    }
    if n > s {
        if s < n - 1 {
            lemma_pow2_strictly_increases(s, (n - 1) as nat);
        }
        assert(pow2(s) <= pow2((n - 1) as nat));
        assert(pow2((n - 1) as nat) < x);
        assert(false);
    }
}

/// Smallest multiple of `alignment` that is at least `x`.
pub fn align(x: u32, alignment: u32) -> (r: u32)
    requires
        0 < alignment,
        x + alignment <= u32::MAX + 1,
    ensures
        r == spec_align(x as int, alignment as int),
        r % alignment == 0,
        x <= r < x + alignment,
{
    proof {
        lemma_align_bounds(x as int, alignment as int);
    }
    let count = x / alignment;
    let remainder = x % alignment;
    assert(alignment * count + remainder == x && alignment * count <= x) by (nonlinear_arith)
        requires
            0 < alignment,
            count == x / alignment,
            remainder == x % alignment,
    ;
    let mut result = alignment * count;
    if remainder != 0 {
        assert((x / alignment + 1) * (alignment as int) == alignment * count + alignment)
            by (nonlinear_arith)
            requires
                count == x as int / alignment as int,
                alignment > 0,
        ;
        result += alignment;
    }
    result
}

/// Ceiling of the base-two logarithm; zero maps to the full word width.
pub fn log2_ceil(x: u32) -> (r: u32)
    ensures
        x == 0 ==> r == 32,
        x >= 1 ==> r == spec_log2_ceil(x as nat),
        r <= 32,
{
    if x == 0 {
        return 32;
    }
    let mut r: u32 = 0;
    let mut p: u64 = 1;
    proof {
        lemma2_to64();
    }
    while p < x as u64
        invariant
            1 <= x,
            1 <= p,
            p == pow2(r as nat),
            r <= 32,
            r > 0 ==> pow2((r - 1) as nat) < x,
            p <= 0x1_0000_0000,
        decreases 2 * (x as int) - p,
    {
        proof {
            lemma2_to64();
            if r == 32 {
                assert(false);
            }
            lemma_pow2_unfold((r + 1) as nat);
            if r + 1 < 32 {
                lemma_pow2_strictly_increases((r + 1) as nat, 32);
            }
        }
        p = p * 2;
        r = r + 1;
    }
    proof {
        lemma_log2_ceil_unique(x as nat, r as nat);
    }
    r
}

/// Smallest power of two that is at least `y`; zero maps to zero.
pub fn next_pow2(y: u32) -> (r: u32)
    requires
        y <= 0x4000_0000,
    ensures
        r == spec_next_pow2(y as nat),
        r <= 0x4000_0000,
        y >= 1 ==> 1 <= y <= r,
{
    if y == 0 {
        return 0;
    }
    let mut r: u32 = 1;
    let ghost mut n: nat = 0;
    proof {
        lemma2_to64();
    }
    while r < y
        invariant
            1 <= y <= 0x4000_0000,
            1 <= r,
            r == pow2(n),
            r <= 0x4000_0000,
            n > 0 ==> pow2((n - 1) as nat) < y,
        decreases 2 * (y as int) - r,
    {
        proof {
            lemma_pow2_unfold(n + 1);
        }
        r = r * 2;
        proof {
            n = n + 1;
            lemma2_to64();
            if r > 0x4000_0000 {
                assert(pow2((n - 1) as nat) > 0x2000_0000);
                if n - 1 < 29 {
                    lemma_pow2_strictly_increases((n - 1) as nat, 29);
                }
                assert(n - 1 >= 30);
                if n - 1 > 30 {
                    lemma_pow2_strictly_increases(30, (n - 1) as nat);
                }
                assert(pow2((n - 1) as nat) >= 0x4000_0000);
                assert(false);
            }
        }
    }
    proof {
        lemma_log2_ceil_unique(y as nat, n);
        lemma_log2_ceil_bounds(y as nat);
    }
    r
}

/// `2^e` as a machine word, for exponents within a `u32`.
pub fn pow2_u32(e: u32) -> (r: u32)
    requires
        e <= 31,
    ensures
        r == pow2(e as nat),
        1 <= r <= 0x8000_0000u32,
{
    let mut r: u32 = 1;
    let mut i: u32 = 0;
    proof {
        lemma2_to64();
    }
    while i < e
        invariant
            i <= e <= 31,
            r == pow2(i as nat),
        decreases e - i,
    {
        proof {
            lemma_pow2_unfold((i + 1) as nat);
            if (i as nat) < 31 {
                lemma_pow2_strictly_increases(i as nat, 31);
            }
            lemma2_to64();
        }
        r = r * 2;
        i = i + 1;
    }
    proof {
        if (e as nat) < 31 {
            lemma_pow2_strictly_increases(e as nat, 31);
        }
        lemma2_to64();
    }
    r
}

} // verus!
