//! The window of capacities that the dynamic program keeps at each step.
//!
//! After `step` of `count` items the window is centred on
//! `step / count` of the capacity and reaches
//! `ceil(sqrt(step * ln(count)) * heaviest)` to either side, cut off at zero
//! and at the capacity. Everything is computed in integers: the logarithm
//! with 32 binary places, the square root with 28, both rounded up.

use vstd::arithmetic::power2::{lemma2_to64, lemma_pow2_unfold, pow2};
use vstd::prelude::*;

verus! {

/// `2^63`: a normalised mantissa lies between this and `2^64`.
pub const MANTISSA_MIN: u64 = 0x8000_0000_0000_0000;

/// How many binary places of the logarithm are computed.
pub const LOG_PLACES: u32 = 32;

/// The whole part of the binary logarithm of `n`; zero for `n < 2`.
pub open spec fn spec_log2_floor(n: nat) -> nat
    decreases n,
{
    if n < 2 {
        0
    } else {
        1 + spec_log2_floor(n / 2)
    }
}

/// `n` doubled until it reaches `2^63`: the digits of `n` with the leading
/// one in the top bit of a `u64`.
pub open spec fn spec_mantissa(n: nat) -> nat
    decreases 0x1_0000_0000_0000_0000 - n,
{
    if n == 0 || n >= 0x8000_0000_0000_0000 {
        n
    } else {
        spec_mantissa(2 * n)
    }
}

/// Whether the square of the mantissa `x` reaches two, so that the next
/// binary place of the logarithm is a one.
pub open spec fn spec_square_carries(x: nat) -> bool {
    x * x >= 0x8000_0000_0000_0000_0000_0000_0000_0000
}

/// The mantissa of the square of the mantissa `x`, cut to 64 bits.
pub open spec fn spec_square_step(x: nat) -> nat {
    if spec_square_carries(x) {
        x * x / 0x1_0000_0000_0000_0000
    } else {
        x * x / 0x8000_0000_0000_0000
    }
}

/// The mantissa `x` after `places` squarings.
pub open spec fn spec_mantissa_after(x: nat, places: nat) -> nat
    decreases places,
{
    if places == 0 {
        x
    } else {
        spec_square_step(spec_mantissa_after(x, (places - 1) as nat))
    }
}

/// The first `places` binary places of the binary logarithm of the mantissa
/// `x`, read as one number: each squaring yields the next place.
pub open spec fn spec_log2_fraction(x: nat, places: nat) -> nat
    decreases places,
{
    if places == 0 {
        0
    } else {
        2 * spec_log2_fraction(x, (places - 1) as nat) + if spec_square_carries(
            spec_mantissa_after(x, (places - 1) as nat),
        ) {
            1nat
        } else {
            0nat
        }
    }
}

/// The binary logarithm of `n` in units of `2^-32`.
pub open spec fn spec_log2_fixed(n: nat) -> nat {
    spec_log2_floor(n) * 0x1_0000_0000 + spec_log2_fraction(spec_mantissa(n), 32)
}

/// The natural logarithm of `n` in units of `2^-32`, rounded up; zero for
/// `n == 1`. The factor is `ln 2` in the same units, rounded up.
pub open spec fn spec_ln_fixed(n: nat) -> nat {
    (spec_log2_fixed(n) * 2977044472 + 0xffff_ffff) / 0x1_0000_0000
}

/// `s` is the least number whose square reaches `x`.
pub open spec fn is_ceil_sqrt(x: int, s: int) -> bool {
    &&& s >= 0
    &&& s * s >= x
    &&& s == 0 || (s - 1) * (s - 1) < x
}

/// The square root of `x`, rounded up.
pub open spec fn spec_ceil_sqrt(x: int) -> int {
    choose|s: int| is_ceil_sqrt(x, s)
}

/// The middle of the window after `step` of `count` items.
pub open spec fn spec_band_center(step: int, count: int, capacity: int) -> int {
    step * capacity / count
}

/// How far the window reaches to either side of its middle after `step` of
/// `count` items, the heaviest of which weighs `heaviest`.
pub open spec fn spec_band_half_width(step: int, count: int, heaviest: int) -> int {
    (spec_ceil_sqrt(step * spec_ln_fixed(count as nat) * 0x100_0000) * heaviest + 0xfff_ffff)
        / 0x1000_0000
}

/// The least capacity in the window.
pub open spec fn spec_band_low(step: int, count: int, capacity: int, heaviest: int) -> int {
    let low = spec_band_center(step, count, capacity) - spec_band_half_width(step, count, heaviest);
    if low < 0 {
        0
    } else {
        low
    }
}

/// The greatest capacity in the window.
pub open spec fn spec_band_high(step: int, count: int, capacity: int, heaviest: int) -> int {
    let high = spec_band_center(step, count, capacity) + spec_band_half_width(
        step,
        count,
        heaviest,
    );
    if high > capacity {
        capacity
    } else {
        high
    }
}

/// A number below `2^k` has a binary logarithm below `k`.
pub proof fn lemma_log2_floor_bound(n: nat, k: nat)
    requires
        k >= 1,
        n < pow2(k),
    ensures
        spec_log2_floor(n) < k,
    decreases k,
{
    lemma_pow2_unfold(k);
    if n >= 2 {
        if k == 1 {
            lemma2_to64();
        } else {
            lemma_log2_floor_bound(n / 2, (k - 1) as nat);
        }
    }
}

/// At most one number is the rounded-up square root of `x`, and
/// `spec_ceil_sqrt` names it.
pub proof fn lemma_ceil_sqrt_unique(x: int, s: int)
    requires
        is_ceil_sqrt(x, s),
    ensures
        spec_ceil_sqrt(x) == s,
{
    let t = spec_ceil_sqrt(x);
    assert(is_ceil_sqrt(x, t));
    if s < t {
        assert(s * s <= (t - 1) * (t - 1)) by (nonlinear_arith)
            requires
                0 <= s <= t - 1,
        ;
    }
    if t < s {
        assert(t * t <= (s - 1) * (s - 1)) by (nonlinear_arith)
            requires
                0 <= t <= s - 1,
        ;
    }
}

/// The whole part of the binary logarithm of `n`.
pub fn log2_floor(n: u64) -> (e: u32)
    ensures
        e == spec_log2_floor(n as nat),
        e <= 63,
{
    let mut rest: u64 = n;
    let mut e: u32 = 0;
    proof {
        lemma2_to64();
        lemma_log2_floor_bound(n as nat, 64);
    }
    while rest >= 2
        invariant
            e + spec_log2_floor(rest as nat) == spec_log2_floor(n as nat),
            spec_log2_floor(n as nat) <= 63,
        decreases rest,
    {
        rest = rest / 2;
        e = e + 1;
    }
    e
}

/// The digits of `n` with the leading one moved to the top bit; zero for
/// zero.
pub fn mantissa(n: u64) -> (x: u64)
    ensures
        x == spec_mantissa(n as nat),
        n >= 1 ==> x >= MANTISSA_MIN,
{
    if n == 0 {
        return 0;
    }
    let mut x: u64 = n;
    while x < 0x8000_0000_0000_0000
        invariant
            x >= 1,
            spec_mantissa(x as nat) == spec_mantissa(n as nat),
        decreases u64::MAX - x,
    {
        x = x * 2;
    }
    x
}

/// The natural logarithm of `n` in units of `2^-32`, rounded up; zero for
/// zero.
pub fn ln_fixed(n: u64) -> (l: u64)
    ensures
        l == spec_ln_fixed(n as nat),
        l < 0x40_0000_0000,
{
    let whole: u32 = log2_floor(n);
    let start: u64 = mantissa(n);
    let mut x: u64 = start;
    let mut fraction: u64 = 0;
    let mut place: u32 = 0;
    proof {
        lemma2_to64();
    }
    while place < LOG_PLACES
        invariant
            place <= LOG_PLACES,
            x == spec_mantissa_after(start as nat, place as nat),
            fraction == spec_log2_fraction(start as nat, place as nat),
            fraction < pow2(place as nat),
            pow2(place as nat) <= pow2(32),
            pow2(32) == 0x1_0000_0000,
        decreases LOG_PLACES - place,
    {
        proof {
            assert(x * x <= u128::MAX) by (nonlinear_arith)
                requires
                    0 <= x <= 0xffff_ffff_ffff_ffff,
            ;
            lemma_pow2_unfold((place + 1) as nat);
            if place + 1 < 32 {
                vstd::arithmetic::power2::lemma_pow2_strictly_increases(
                    (place + 1) as nat,
                    32,
                );
            }
        }
        let square: u128 = (x as u128) * (x as u128);
        if square >= 0x8000_0000_0000_0000_0000_0000_0000_0000 {
            x = (square / 0x1_0000_0000_0000_0000) as u64;
            fraction = 2 * fraction + 1;
        } else {
            x = (square / 0x8000_0000_0000_0000) as u64;
            fraction = 2 * fraction;
        }
        place = place + 1;
    }
    let log2: u128 = (whole as u128) * 0x1_0000_0000 + (fraction as u128);
    let l: u128 = (log2 * 2977044472 + 0xffff_ffff) / 0x1_0000_0000;
    l as u64
}

/// The square root of `x`, rounded up.
pub fn ceil_sqrt(x: u128) -> (s: u128)
    ensures
        s == spec_ceil_sqrt(x as int),
        is_ceil_sqrt(x as int, s as int),
{
    let mut low: u128 = 0;
    let mut high: u128 = 0x1_0000_0000_0000_0000;
    while low < high
        invariant
            low <= high <= 0x1_0000_0000_0000_0000,
            high * high >= x,
            low == 0 || (low - 1) * (low - 1) < x,
        decreases high - low,
    {
        let mid: u128 = low + (high - low) / 2;
        assert(mid * mid <= u128::MAX) by (nonlinear_arith)
            requires
                0 <= mid <= 0xffff_ffff_ffff_ffff,
        ;
        if mid * mid >= x {
            high = mid;
        } else {
            low = mid + 1;
        }
    }
    proof {
        lemma_ceil_sqrt_unique(x as int, low as int);
    }
    low
}

/// The window of capacities kept after `step` of `count` items: its least
/// and its greatest capacity.
pub fn band_window(step: usize, count: usize, capacity: i64, heaviest: i64) -> (window: (i64, i64))
    requires
        1 <= step <= count,
        capacity >= 0,
        heaviest >= 0,
    ensures
        window.0 == spec_band_low(step as int, count as int, capacity as int, heaviest as int),
        window.1 == spec_band_high(step as int, count as int, capacity as int, heaviest as int),
        0 <= window.0 <= spec_band_center(step as int, count as int, capacity as int) <= window.1
            <= capacity,
{
    assert(step * capacity <= 0x7fff_ffff_ffff_ffff_ffff_ffff_ffff_ffff) by (nonlinear_arith)
        requires
            0 <= step <= 0xffff_ffff_ffff_ffff,
            0 <= capacity <= 0x7fff_ffff_ffff_ffff,
    ;
    let product: u128 = (step as u128) * (capacity as u128);
    let center: u128 = product / (count as u128);
    assert(center <= capacity) by (nonlinear_arith)
        requires
            center == (step * capacity) / (count as int),
            0 < step <= count,
            capacity >= 0,
    ;
    let ln: u64 = ln_fixed(count as u64);
    assert(step * ln * 0x100_0000 <= 0x4000_0000_0000_0000_0000_0000_0000_0000)
        by (nonlinear_arith)
        requires
            0 <= step <= 0xffff_ffff_ffff_ffff,
            0 <= ln < 0x40_0000_0000,
    ;
    assert(step * ln <= 0x40_0000_0000_0000_0000_0000_0000) by (nonlinear_arith)
        requires
            0 <= step <= 0xffff_ffff_ffff_ffff,
            0 <= ln < 0x40_0000_0000,
    ;
    let root: u128 = ceil_sqrt((step as u128) * (ln as u128) * 0x100_0000);
    assert(root <= 0x8000_0000_0000_0000) by (nonlinear_arith)
        requires
            root == 0 || (root - 1) * (root - 1) < 0x4000_0000_0000_0000_0000_0000_0000_0000,
            0 <= root,
    ;
    assert(root * heaviest <= 0x4000_0000_0000_0000_0000_0000_0000_0000) by (nonlinear_arith)
        requires
            0 <= root <= 0x8000_0000_0000_0000,
            0 <= heaviest <= 0x7fff_ffff_ffff_ffff,
    ;
    let half: u128 = (root * (heaviest as u128) + 0xfff_ffff) / 0x1000_0000;
    let low: i64 = if half >= center {
        0
    } else {
        (center - half) as i64
    };
    let high: i64 = if half >= (capacity as u128) - center {
        capacity
    } else {
        (center + half) as i64
    };
    (low, high)
}

} // verus!
