//! Sizes in physical pixels, and the power-of-two rounding that atlas sizes use.
use vstd::prelude::*;
use vstd::arithmetic::power2::{
    pow2, lemma_pow2_unfold, lemma_pow2_strictly_increases, lemma2_to64, lemma_pow2_pos,
};

verus! {

/// A size in physical pixels.
#[derive(Debug, Clone, Copy, PartialEq, Eq, Structural)]
pub struct SizePixels {
    pub width: u32,
    pub height: u32,
}

/// `n` is `2^k` for some `k`.
pub open spec fn is_power_of_two(n: int) -> bool {
    exists|k: nat| pow2(k) == n
}

/// Doubling from `p` until reaching at least `x`.
pub open spec fn power_of_two_from(p: nat, x: nat) -> nat
    decreases if x >= p { x - p } else { 0 },
{
    if p == 0 || p >= x {
        p
    } else {
        power_of_two_from(2 * p, x)
    }
}

/// The smallest power of two that is at least `x` (1 for 0).
pub open spec fn spec_npot(x: nat) -> nat {
    power_of_two_from(1, x)
}

/// `r` is the smallest power of two that is at least `x`.
pub open spec fn spec_next_power_of_two(x: u32, r: u32) -> bool {
    &&& is_power_of_two(r as int)
    &&& x <= r
    &&& (r == 1 || r / 2 < x)
}

/// The smallest power of two that is at least `x`; `x` must not exceed `2^31`,
/// beyond which no `u32` power of two is large enough.
pub fn next_power_of_two(x: u32) -> (r: u32)
    requires
        x <= 0x8000_0000,
    ensures
        r == spec_npot(x as nat),
        spec_next_power_of_two(x, r),
        r <= 0x8000_0000,
{
    let mut p: u32 = 1;
    let ghost mut k: nat = 0;
    proof {
        lemma2_to64();
    }
    while p < x
        invariant
            p == pow2(k),
            x <= 0x8000_0000,
            p == 1 || p / 2 < x,
            p <= 0x8000_0000,
            power_of_two_from(p as nat, x as nat) == spec_npot(x as nat),
        decreases 0x8000_0000 - p,
    {
        proof {
            lemma2_to64();
            if k >= 31 {
                if k > 31 {
                    lemma_pow2_strictly_increases(31, k);
                }
                assert(false);
            }
            lemma_pow2_unfold(k + 1);
            if k + 1 < 31 {
                lemma_pow2_strictly_increases(k + 1, 31);
            }
        }
        p = p * 2;
        proof {
            k = k + 1;
        }
    }
    proof {
        assert(pow2(k) == p);
    }
    p
}

proof fn lemma_power_of_two_from(j: nat, x: nat)
    requires
        pow2(j) <= 0x8000_0000,
        x <= 0x8000_0000,
    ensures
        x <= power_of_two_from(pow2(j), x) <= 0x8000_0000,
        pow2(j) <= power_of_two_from(pow2(j), x),
        is_power_of_two(power_of_two_from(pow2(j), x) as int),
        power_of_two_from(pow2(j), x) == pow2(j) || power_of_two_from(pow2(j), x) / 2 < x,
        is_power_of_two(x as int) && pow2(j) <= x ==> power_of_two_from(pow2(j), x) == x,
    decreases 32 - j,
{
    lemma2_to64();
    lemma_pow2_pos(j);
    if j > 31 {
        lemma_pow2_strictly_increases(31, j);
    }
    if pow2(j) >= x {
        if is_power_of_two(x as int) && pow2(j) <= x {
        }
    } else {
        if j >= 31 {
            if j > 31 {
                lemma_pow2_strictly_increases(31, j);
            }
            assert(false);
        }
        lemma_pow2_unfold(j + 1);
        if j + 1 < 31 {
            lemma_pow2_strictly_increases(j + 1, 31);
        }
        assert(power_of_two_from(pow2(j), x) == power_of_two_from(pow2(j + 1), x));
        lemma_power_of_two_from(j + 1, x);
        if is_power_of_two(x as int) {
            let m = choose|m: nat| pow2(m) == x;
            if m <= j {
                if m < j {
                    lemma_pow2_strictly_increases(m, j);
                }
                assert(false);
            }
            if m > j + 1 {
                lemma_pow2_strictly_increases(j + 1, m);
            }
        }
    }
}

/// The next power of two of `x` (up to `2^31`) is a power of two, at least `x`,
/// less than twice `x` (or 1), at most `2^31`, and `x` itself when `x` is a power of two.
pub proof fn lemma_npot(x: nat)
    requires
        x <= 0x8000_0000,
    ensures
        x <= spec_npot(x) <= 0x8000_0000,
        is_power_of_two(spec_npot(x) as int),
        spec_npot(x) == 1 || spec_npot(x) / 2 < x,
        is_power_of_two(x as int) ==> spec_npot(x) == x,
{
    lemma2_to64();
    lemma_power_of_two_from(0, x);
    if is_power_of_two(x as int) {
        let m = choose|m: nat| pow2(m) == x;
        lemma_pow2_pos(m);
    }
}

} // verus!
