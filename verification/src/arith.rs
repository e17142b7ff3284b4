//! Fixed-width arithmetic as integer arithmetic: wrapping, saturation, clipping and shifts.
use vstd::arithmetic::div_mod::*;
use vstd::arithmetic::power2::*;
use vstd::prelude::*;

verus! {

/// `x` brought into the range of `i16` modulo 2^16.
pub open spec fn wrap16(x: int) -> int {
    (x + 0x8000) % 0x1_0000 - 0x8000
}

/// `x` brought into the range of `i32` modulo 2^32.
pub open spec fn wrap32(x: int) -> int {
    (x + 0x8000_0000) % 0x1_0000_0000 - 0x8000_0000
}

/// `x` limited to the range `lo ..= hi`.
pub open spec fn clip(x: int, lo: int, hi: int) -> int {
    if x < lo {
        lo
    } else if x > hi {
        hi
    } else {
        x
    }
}

/// `x` limited to the range of `i16`.
pub open spec fn sat16(x: int) -> int {
    clip(x, -0x8000, 0x7fff)
}

/// `x` limited to the range of an 8-bit pixel.
pub open spec fn clip8(x: int) -> int {
    clip(x, 0, 255)
}

pub open spec fn abs(x: int) -> int {
    if x < 0 {
        -x
    } else {
        x
    }
}

pub open spec fn min(x: int, y: int) -> int {
    if x <= y {
        x
    } else {
        y
    }
}

pub open spec fn max(x: int, y: int) -> int {
    if x >= y {
        x
    } else {
        y
    }
}

/// `x >> s` on integers: `x / 2^s`, rounded towards minus infinity.
pub open spec fn shr(x: int, s: nat) -> int {
    x / (pow2(s) as int)
}

/// The bits of an `i16` lane read as a `u16`.
pub open spec fn unsigned16(x: int) -> int {
    if x < 0 {
        x + 0x1_0000
    } else {
        x
    }
}

pub proof fn lemma_shr_step(x: int, s: nat)
    ensures
        shr(x, s + 1) == shr(x, s) / 2,
{
    lemma_pow2_pos(s);
    lemma_pow2_unfold(s + 1);
    let p: int = pow2(s) as int;
    let q: int = x / p;
    let r: int = x % p;
    lemma_fundamental_div_mod(x, p);
    lemma_mod_bound(x, p);
    assert(x == (q / 2) * (2 * p) + (p * (q % 2) + r)) by (nonlinear_arith)
        requires
            x == p * q + r,
            q == 2 * (q / 2) + q % 2,
    ;
    assert(0 <= p * (q % 2) + r < 2 * p) by (nonlinear_arith)
        requires
            0 <= r < p,
            q % 2 == 0 || q % 2 == 1,
    ;
    lemma_fundamental_div_mod_converse(x, 2 * p, q / 2, p * (q % 2) + r);
}

/// The arithmetic right shift of an `i32` is floor division by a power of two.
pub proof fn lemma_i32_shr(x: i32, s: u32)
    requires
        s < 32,
    ensures
        (x >> s) as int == shr(x as int, s as nat),
    decreases s,
{
    if s == 0 {
        assert(x >> 0u32 == x) by (bit_vector);
        lemma2_to64();
    } else {
        let t: u32 = (s - 1) as u32;
        lemma_i32_shr(x, t);
        lemma_shr_step(x as int, t as nat);
        assert(x >> s == (x >> t) >> 1u32) by (bit_vector)
            requires
                0 < s < 32,
                t == s - 1,
        ;
        let y: i32 = x >> t;
        let z: i32 = y >> 1u32;
        assert(z == y >> 1u32 ==> (y == z + z || y == z + z + 1)) by (bit_vector);
    }
}

/// The arithmetic right shift of an `i16` is floor division by a power of two.
pub proof fn lemma_i16_shr(x: i16, s: u32)
    requires
        s < 16,
    ensures
        (x >> s) as int == shr(x as int, s as nat),
    decreases s,
{
    if s == 0 {
        assert(x >> 0u32 == x) by (bit_vector);
        lemma2_to64();
    } else {
        let t: u32 = (s - 1) as u32;
        lemma_i16_shr(x, t);
        lemma_shr_step(x as int, t as nat);
        assert(x >> s == (x >> t) >> 1u32) by (bit_vector)
            requires
                0 < s < 16,
                t == s - 1,
        ;
        let y: i16 = x >> t;
        let z: i16 = y >> 1u32;
        assert(z == y >> 1u32 ==> (y == z + z || y == z + z + 1)) by (bit_vector);
    }
}

/// The logical right shift of a `u16` is division by a power of two.
pub proof fn lemma_u16_shr(x: u16, s: u32)
    requires
        s < 16,
    ensures
        (x >> s) as int == shr(x as int, s as nat),
    decreases s,
{
    if s == 0 {
        assert(x >> 0u32 == x) by (bit_vector);
        lemma2_to64();
    } else {
        let t: u32 = (s - 1) as u32;
        lemma_u16_shr(x, t);
        lemma_shr_step(x as int, t as nat);
        assert(x >> s == (x >> t) >> 1u32) by (bit_vector)
            requires
                0 < s < 16,
                t == s - 1,
        ;
        let y: u16 = x >> t;
        let z: u16 = y >> 1u32;
        assert(z == y >> 1u32 ==> (y == z + z || y == z + z + 1)) by (bit_vector);
    }
}

/// The left shift of an `i16` keeps the low sixteen bits of the product.
pub proof fn lemma_i16_shl(x: i16, s: u32)
    requires
        s < 16,
    ensures
        (x << s) as int == wrap16(x * pow2(s as nat)),
    decreases s,
{
    if s == 0 {
        assert(x << 0u32 == x) by (bit_vector);
        lemma2_to64();
        assert(x * 1 == x) by (nonlinear_arith);
    } else {
        let t: u32 = (s - 1) as u32;
        lemma_i16_shl(x, t);
        lemma_pow2_unfold(s as nat);
        assert(x << s == (x << t) << 1u32) by (bit_vector)
            requires
                0 < s < 16,
                t == s - 1,
        ;
        let y: i16 = x << t;
        let z: i16 = y << 1u32;
        assert(z == y << 1u32 ==> (z == y + y || z == y + y + 0x1_0000 || z == y + y - 0x1_0000))
            by (bit_vector);
        let m: int = x * pow2(t as nat);
        assert(x * pow2(s as nat) == 2 * m) by (nonlinear_arith)
            requires
                m == x * pow2(t as nat),
                pow2(s as nat) == 2 * pow2(t as nat),
        ;
    }
}

/// Powers of two at the shift amounts that the kernels use.
pub proof fn lemma_pow2_values()
    ensures
        pow2(0) == 1,
        pow2(1) == 2,
        pow2(2) == 4,
        pow2(3) == 8,
        pow2(4) == 16,
        pow2(5) == 32,
        pow2(6) == 64,
        pow2(7) == 128,
        pow2(8) == 256,
        pow2(10) == 1024,
        pow2(11) == 2048,
        pow2(15) == 32768,
{
    lemma2_to64();
}

/// The shifts that the kernels use, as divisions.
pub proof fn lemma_shr_values(x: int)
    ensures
        shr(x, 0) == x,
        shr(x, 1) == x / 2,
        shr(x, 2) == x / 4,
        shr(x, 3) == x / 8,
        shr(x, 4) == x / 16,
        shr(x, 6) == x / 64,
        shr(x, 7) == x / 128,
        shr(x, 10) == x / 1024,
        shr(x, 11) == x / 2048,
        shr(x, 15) == x / 32768,
{
    lemma2_to64();
}

/// Wrapping brings a number into the range of the type and changes it by a multiple of the number of values of
/// the type.
pub proof fn wrapping_keeps_the_remainder(x: int)
    ensures
        -0x8000 <= wrap16(x) <= 0x7fff,
        (wrap16(x) - x) % 0x1_0000 == 0,
        -0x8000_0000 <= wrap32(x) <= 0x7fff_ffff,
        (wrap32(x) - x) % 0x1_0000_0000 == 0,
{
}

/// Reading a lane as unsigned changes it by a multiple of the number of values of the lane.
pub proof fn unsigned_reading_keeps_the_remainder(x: int)
    requires
        -0x8000 <= x <= 0x7fff,
    ensures
        0 <= unsigned16(x) <= 0xffff,
        (unsigned16(x) - x) % 0x1_0000 == 0,
{
}

/// Limiting a number to a range takes the number of the range that is nearest to it.
pub proof fn limiting_takes_the_nearest(x: int, lo: int, hi: int, y: int)
    requires
        lo <= y <= hi,
    ensures
        lo <= clip(x, lo, hi) <= hi,
        x <= y ==> x <= clip(x, lo, hi) <= y || clip(x, lo, hi) == x,
        x >= y ==> y <= clip(x, lo, hi) <= x || clip(x, lo, hi) == x,
        x < lo ==> clip(x, lo, hi) == lo,
        x > hi ==> clip(x, lo, hi) == hi,
        lo <= x <= hi ==> clip(x, lo, hi) == x,
{
}

/// Saturation keeps what fits, and takes the end of the range for what lies beyond it.
pub proof fn saturation_keeps_what_fits(x: int)
    ensures
        -0x8000 <= sat16(x) <= 0x7fff,
        -0x8000 <= x <= 0x7fff ==> sat16(x) == x,
        x < -0x8000 ==> sat16(x) == -0x8000,
        x > 0x7fff ==> sat16(x) == 0x7fff,
        0 <= clip8(x) <= 255,
        0 <= x <= 255 ==> clip8(x) == x,
        x < 0 ==> clip8(x) == 0,
        x > 255 ==> clip8(x) == 255,
{
}

/// The smaller and the larger of two numbers bound both and are among them; the absolute value is the larger of a
/// number and its opposite.
pub proof fn smaller_and_larger_bound_both(x: int, y: int)
    ensures
        min(x, y) <= x,
        min(x, y) <= y,
        min(x, y) == x || min(x, y) == y,
        max(x, y) >= x,
        max(x, y) >= y,
        max(x, y) == x || max(x, y) == y,
        abs(x) >= x,
        abs(x) >= -x,
        abs(x) == x || abs(x) == -x,
{
}

/// A shift to the right gives the number of whole powers of two in a number, rounded down.
pub proof fn shifting_counts_powers_of_two(x: int, s: nat)
    ensures
        shr(x, s) * pow2(s) <= x < shr(x, s) * pow2(s) + pow2(s),
{
    lemma_pow2_pos(s);
    let n = pow2(s) as int;
    lemma_fundamental_div_mod(x, n);
    lemma_mod_bound(x, n);
    assert(n * (x / n) == (x / n) * n) by (nonlinear_arith);
}

} // verus!
