//! Vectors of fixed-width lanes and the lane-wise operations of the 128-bit SIMD instruction set
//! that the pixel kernels are written in.
//!
//! A register holds eight `i16` lanes ([`I16x8`]) or four `i32` lanes ([`I32x4`]). Every operation
//! states each lane of its result as integer arithmetic.
use crate::arith::{
    abs, clip8, lemma_i16_shl, lemma_i16_shr, lemma_i32_shr, lemma_u16_shr, max, min, sat16, shr,
    unsigned16, wrap16, wrap32,
};
use vstd::arithmetic::power2::*;
use vstd::prelude::*;

verus! {

/// Eight 16-bit lanes.
#[derive(Clone, Copy)]
pub struct I16x8 {
    pub lanes: [i16; 8],
}

/// Four 32-bit lanes.
#[derive(Clone, Copy)]
pub struct I32x4 {
    pub lanes: [i32; 4],
}

impl View for I16x8 {
    type V = Seq<i16>;

    open spec fn view(&self) -> Seq<i16> {
        self.lanes@
    }
}

impl View for I32x4 {
    type V = Seq<i32>;

    open spec fn view(&self) -> Seq<i32> {
        self.lanes@
    }
}

/// The lane that a comparison yields: all bits set for `true`, none for `false`.
pub open spec fn mask(b: bool) -> i16 {
    if b {
        -1i16
    } else {
        0i16
    }
}

/// The `u16` that shares its bits with `x`.
fn to_unsigned(x: i16) -> (r: u16)
    ensures
        r == unsigned16(x as int),
{
    proof {
        assert(x < 0 ==> (x as u16) == x + 0x1_0000) by (bit_vector);
    }
    #[verifier::truncate] (x as u16)
}

/// The `i16` that shares its bits with `x`.
fn to_signed(x: u16) -> (r: i16)
    ensures
        r == wrap16(x as int),
{
    proof {
        assert(x >= 0x8000 ==> (x as i16) == x - 0x1_0000) by (bit_vector);
    }
    #[verifier::truncate] (x as i16)
}

/// Eight copies of `x`.
pub fn i16x8_splat(x: i16) -> (r: I16x8)
    ensures
        forall|l: int| 0 <= l < 8 ==> #[trigger] r@[l] == x,
{
    I16x8 { lanes: [x, x, x, x, x, x, x, x] }
}

/// The eight lanes given one by one.
pub fn i16x8(x0: i16, x1: i16, x2: i16, x3: i16, x4: i16, x5: i16, x6: i16, x7: i16) -> (r: I16x8)
    ensures
        r@ == seq![x0, x1, x2, x3, x4, x5, x6, x7],
{
    I16x8 { lanes: [x0, x1, x2, x3, x4, x5, x6, x7] }
}

fn add_lane(a: i16, b: i16) -> (r: i16)
    ensures
        r == wrap16(a + b),
{
    a.wrapping_add(b)
}

/// Lane sums, modulo 2^16.
pub fn i16x8_add(a: I16x8, b: I16x8) -> (r: I16x8)
    ensures
        forall|l: int| 0 <= l < 8 ==> #[trigger] r@[l] == wrap16(a@[l] + b@[l]),
{
    I16x8 {
        lanes: [
            add_lane(a.lanes[0], b.lanes[0]),
            add_lane(a.lanes[1], b.lanes[1]),
            add_lane(a.lanes[2], b.lanes[2]),
            add_lane(a.lanes[3], b.lanes[3]),
            add_lane(a.lanes[4], b.lanes[4]),
            add_lane(a.lanes[5], b.lanes[5]),
            add_lane(a.lanes[6], b.lanes[6]),
            add_lane(a.lanes[7], b.lanes[7]),
        ],
    }
}

fn sub_lane(a: i16, b: i16) -> (r: i16)
    ensures
        r == wrap16(a - b),
{
    a.wrapping_sub(b)
}

/// Lane differences, modulo 2^16.
pub fn i16x8_sub(a: I16x8, b: I16x8) -> (r: I16x8)
    ensures
        forall|l: int| 0 <= l < 8 ==> #[trigger] r@[l] == wrap16(a@[l] - b@[l]),
{
    I16x8 {
        lanes: [
            sub_lane(a.lanes[0], b.lanes[0]),
            sub_lane(a.lanes[1], b.lanes[1]),
            sub_lane(a.lanes[2], b.lanes[2]),
            sub_lane(a.lanes[3], b.lanes[3]),
            sub_lane(a.lanes[4], b.lanes[4]),
            sub_lane(a.lanes[5], b.lanes[5]),
            sub_lane(a.lanes[6], b.lanes[6]),
            sub_lane(a.lanes[7], b.lanes[7]),
        ],
    }
}

fn sub_sat_lane(a: i16, b: i16) -> (r: i16)
    ensures
        r == sat16(a - b),
{
    let d: i32 = a as i32 - b as i32;
    if d < -0x8000 {
        -0x8000
    } else if d > 0x7fff {
        0x7fff
    } else {
        d as i16
    }
}

/// Lane differences, limited to the range of `i16`.
pub fn i16x8_sub_sat(a: I16x8, b: I16x8) -> (r: I16x8)
    ensures
        forall|l: int| 0 <= l < 8 ==> #[trigger] r@[l] == sat16(a@[l] - b@[l]),
{
    I16x8 {
        lanes: [
            sub_sat_lane(a.lanes[0], b.lanes[0]),
            sub_sat_lane(a.lanes[1], b.lanes[1]),
            sub_sat_lane(a.lanes[2], b.lanes[2]),
            sub_sat_lane(a.lanes[3], b.lanes[3]),
            sub_sat_lane(a.lanes[4], b.lanes[4]),
            sub_sat_lane(a.lanes[5], b.lanes[5]),
            sub_sat_lane(a.lanes[6], b.lanes[6]),
            sub_sat_lane(a.lanes[7], b.lanes[7]),
        ],
    }
}

fn mul_lane(a: i16, b: i16) -> (r: i16)
    ensures
        r == wrap16(a * b),
{
    a.wrapping_mul(b)
}

/// The low halves of the lane products.
pub fn i16x8_mul(a: I16x8, b: I16x8) -> (r: I16x8)
    ensures
        forall|l: int| 0 <= l < 8 ==> #[trigger] r@[l] == wrap16(a@[l] * b@[l]),
{
    I16x8 {
        lanes: [
            mul_lane(a.lanes[0], b.lanes[0]),
            mul_lane(a.lanes[1], b.lanes[1]),
            mul_lane(a.lanes[2], b.lanes[2]),
            mul_lane(a.lanes[3], b.lanes[3]),
            mul_lane(a.lanes[4], b.lanes[4]),
            mul_lane(a.lanes[5], b.lanes[5]),
            mul_lane(a.lanes[6], b.lanes[6]),
            mul_lane(a.lanes[7], b.lanes[7]),
        ],
    }
}

fn abs_lane(a: i16) -> (r: i16)
    ensures
        r == wrap16(abs(a as int)),
{
    if a < 0 {
        0i16.wrapping_sub(a)
    } else {
        a
    }
}

/// Absolute values; the absolute value of `i16::MIN` is `i16::MIN` again.
pub fn i16x8_abs(a: I16x8) -> (r: I16x8)
    ensures
        forall|l: int| 0 <= l < 8 ==> #[trigger] r@[l] == wrap16(abs(a@[l] as int)),
{
    I16x8 {
        lanes: [
            abs_lane(a.lanes[0]),
            abs_lane(a.lanes[1]),
            abs_lane(a.lanes[2]),
            abs_lane(a.lanes[3]),
            abs_lane(a.lanes[4]),
            abs_lane(a.lanes[5]),
            abs_lane(a.lanes[6]),
            abs_lane(a.lanes[7]),
        ],
    }
}

fn min_lane(a: i16, b: i16) -> (r: i16)
    ensures
        r == min(a as int, b as int),
{
    if a <= b {
        a
    } else {
        b
    }
}

/// The smaller of each two lanes.
pub fn i16x8_min(a: I16x8, b: I16x8) -> (r: I16x8)
    ensures
        forall|l: int| 0 <= l < 8 ==> #[trigger] r@[l] == min(a@[l] as int, b@[l] as int),
{
    I16x8 {
        lanes: [
            min_lane(a.lanes[0], b.lanes[0]),
            min_lane(a.lanes[1], b.lanes[1]),
            min_lane(a.lanes[2], b.lanes[2]),
            min_lane(a.lanes[3], b.lanes[3]),
            min_lane(a.lanes[4], b.lanes[4]),
            min_lane(a.lanes[5], b.lanes[5]),
            min_lane(a.lanes[6], b.lanes[6]),
            min_lane(a.lanes[7], b.lanes[7]),
        ],
    }
}

fn max_lane(a: i16, b: i16) -> (r: i16)
    ensures
        r == max(a as int, b as int),
{
    if a >= b {
        a
    } else {
        b
    }
}

/// The larger of each two lanes.
pub fn i16x8_max(a: I16x8, b: I16x8) -> (r: I16x8)
    ensures
        forall|l: int| 0 <= l < 8 ==> #[trigger] r@[l] == max(a@[l] as int, b@[l] as int),
{
    I16x8 {
        lanes: [
            max_lane(a.lanes[0], b.lanes[0]),
            max_lane(a.lanes[1], b.lanes[1]),
            max_lane(a.lanes[2], b.lanes[2]),
            max_lane(a.lanes[3], b.lanes[3]),
            max_lane(a.lanes[4], b.lanes[4]),
            max_lane(a.lanes[5], b.lanes[5]),
            max_lane(a.lanes[6], b.lanes[6]),
            max_lane(a.lanes[7], b.lanes[7]),
        ],
    }
}

fn umin_lane(a: i16, b: i16) -> (r: i16)
    ensures
        unsigned16(r as int) == min(unsigned16(a as int), unsigned16(b as int)),
{
    if to_unsigned(a) <= to_unsigned(b) {
        a
    } else {
        b
    }
}

/// The smaller of each two lanes, read as unsigned.
pub fn u16x8_min(a: I16x8, b: I16x8) -> (r: I16x8)
    ensures
        forall|l: int|
            0 <= l < 8 ==> unsigned16((#[trigger] r@[l]) as int) == min(
                unsigned16(a@[l] as int),
                unsigned16(b@[l] as int),
            ),
{
    I16x8 {
        lanes: [
            umin_lane(a.lanes[0], b.lanes[0]),
            umin_lane(a.lanes[1], b.lanes[1]),
            umin_lane(a.lanes[2], b.lanes[2]),
            umin_lane(a.lanes[3], b.lanes[3]),
            umin_lane(a.lanes[4], b.lanes[4]),
            umin_lane(a.lanes[5], b.lanes[5]),
            umin_lane(a.lanes[6], b.lanes[6]),
            umin_lane(a.lanes[7], b.lanes[7]),
        ],
    }
}

fn shr_lane(a: i16, sh: u32) -> (r: i16)
    ensures
        r == shr(a as int, (sh % 16) as nat),
{
    proof {
        lemma_i16_shr(a, sh % 16);
    }
    a.wrapping_shr(sh)
}

/// Arithmetic right shift of each lane; only `sh` modulo the lane width counts.
pub fn i16x8_shr(a: I16x8, sh: u32) -> (r: I16x8)
    ensures
        forall|l: int| 0 <= l < 8 ==> #[trigger] r@[l] == shr(a@[l] as int, (sh % 16) as nat),
{
    I16x8 {
        lanes: [
            shr_lane(a.lanes[0], sh),
            shr_lane(a.lanes[1], sh),
            shr_lane(a.lanes[2], sh),
            shr_lane(a.lanes[3], sh),
            shr_lane(a.lanes[4], sh),
            shr_lane(a.lanes[5], sh),
            shr_lane(a.lanes[6], sh),
            shr_lane(a.lanes[7], sh),
        ],
    }
}

fn ushr_lane(a: i16, sh: u32) -> (r: i16)
    ensures
        r == wrap16(shr(unsigned16(a as int), (sh % 16) as nat)),
{
    let u: u16 = to_unsigned(a);
    proof {
        lemma_u16_shr(u, sh % 16);
    }
    to_signed(u.wrapping_shr(sh))
}

/// Logical right shift of each lane; only `sh` modulo the lane width counts.
pub fn u16x8_shr(a: I16x8, sh: u32) -> (r: I16x8)
    ensures
        forall|l: int|
            0 <= l < 8 ==> #[trigger] r@[l] == wrap16(
                shr(unsigned16(a@[l] as int), (sh % 16) as nat),
            ),
{
    I16x8 {
        lanes: [
            ushr_lane(a.lanes[0], sh),
            ushr_lane(a.lanes[1], sh),
            ushr_lane(a.lanes[2], sh),
            ushr_lane(a.lanes[3], sh),
            ushr_lane(a.lanes[4], sh),
            ushr_lane(a.lanes[5], sh),
            ushr_lane(a.lanes[6], sh),
            ushr_lane(a.lanes[7], sh),
        ],
    }
}

fn shl_lane(a: i16, sh: u32) -> (r: i16)
    ensures
        r == wrap16(a * pow2((sh % 16) as nat)),
{
    proof {
        lemma_i16_shl(a, sh % 16);
    }
    a.wrapping_shl(sh)
}

/// Left shift of each lane; only `sh` modulo the lane width counts.
pub fn i16x8_shl(a: I16x8, sh: u32) -> (r: I16x8)
    ensures
        forall|l: int| 0 <= l < 8 ==> #[trigger] r@[l] == wrap16(a@[l] * pow2((sh % 16) as nat)),
{
    I16x8 {
        lanes: [
            shl_lane(a.lanes[0], sh),
            shl_lane(a.lanes[1], sh),
            shl_lane(a.lanes[2], sh),
            shl_lane(a.lanes[3], sh),
            shl_lane(a.lanes[4], sh),
            shl_lane(a.lanes[5], sh),
            shl_lane(a.lanes[6], sh),
            shl_lane(a.lanes[7], sh),
        ],
    }
}

fn le_lane(a: i16, b: i16) -> (r: i16)
    ensures
        r == mask(a <= b),
{
    if a <= b {
        -1
    } else {
        0
    }
}

/// The mask of the lanes in which `a <= b`.
pub fn i16x8_le(a: I16x8, b: I16x8) -> (r: I16x8)
    ensures
        forall|l: int| 0 <= l < 8 ==> #[trigger] r@[l] == mask(a@[l] <= b@[l]),
{
    I16x8 {
        lanes: [
            le_lane(a.lanes[0], b.lanes[0]),
            le_lane(a.lanes[1], b.lanes[1]),
            le_lane(a.lanes[2], b.lanes[2]),
            le_lane(a.lanes[3], b.lanes[3]),
            le_lane(a.lanes[4], b.lanes[4]),
            le_lane(a.lanes[5], b.lanes[5]),
            le_lane(a.lanes[6], b.lanes[6]),
            le_lane(a.lanes[7], b.lanes[7]),
        ],
    }
}

fn gt_lane(a: i16, b: i16) -> (r: i16)
    ensures
        r == mask(a > b),
{
    if a > b {
        -1
    } else {
        0
    }
}

/// The mask of the lanes in which `a > b`.
pub fn i16x8_gt(a: I16x8, b: I16x8) -> (r: I16x8)
    ensures
        forall|l: int| 0 <= l < 8 ==> #[trigger] r@[l] == mask(a@[l] > b@[l]),
{
    I16x8 {
        lanes: [
            gt_lane(a.lanes[0], b.lanes[0]),
            gt_lane(a.lanes[1], b.lanes[1]),
            gt_lane(a.lanes[2], b.lanes[2]),
            gt_lane(a.lanes[3], b.lanes[3]),
            gt_lane(a.lanes[4], b.lanes[4]),
            gt_lane(a.lanes[5], b.lanes[5]),
            gt_lane(a.lanes[6], b.lanes[6]),
            gt_lane(a.lanes[7], b.lanes[7]),
        ],
    }
}

fn and_lane(a: i16, b: i16) -> (r: i16)
    ensures
        r == a & b,
        a == mask(true) ==> r == b,
        b == mask(true) ==> r == a,
        a == mask(false) ==> r == mask(false),
        b == mask(false) ==> r == mask(false),
{
    proof {
        assert(a == -1i16 ==> a & b == b) by (bit_vector);
        assert(b == -1i16 ==> a & b == a) by (bit_vector);
        assert(a == 0i16 || b == 0i16 ==> a & b == 0i16) by (bit_vector);
    }
    a & b
}

fn or_lane(a: i16, b: i16) -> (r: i16)
    ensures
        r == a | b,
        a == mask(true) ==> r == mask(true),
        b == mask(true) ==> r == mask(true),
        a == mask(false) ==> r == b,
        b == mask(false) ==> r == a,
{
    proof {
        assert(a == -1i16 || b == -1i16 ==> a | b == -1i16) by (bit_vector);
        assert(a == 0i16 ==> a | b == b) by (bit_vector);
        assert(b == 0i16 ==> a | b == a) by (bit_vector);
    }
    a | b
}

fn andnot_lane(a: i16, b: i16) -> (r: i16)
    ensures
        r == a & !b,
        b == mask(true) ==> r == mask(false),
        b == mask(false) ==> r == a,
        a == mask(false) ==> r == mask(false),
{
    proof {
        assert(b == -1i16 || a == 0i16 ==> a & !b == 0i16) by (bit_vector);
        assert(b == 0i16 ==> a & !b == a) by (bit_vector);
    }
    a & !b
}

fn xor_lane(a: i16, b: i16) -> (r: i16)
    ensures
        r == a ^ b,
        b == mask(true) ==> r == -a - 1,
        b == mask(false) ==> r == a,
{
    proof {
        assert(b == -1i16 ==> (a ^ b) == -a - 1) by (bit_vector);
        assert(b == 0i16 ==> a ^ b == a) by (bit_vector);
    }
    a ^ b
}

fn bitselect_lane(a: i16, b: i16, c: i16) -> (r: i16)
    ensures
        r == (a & c) | (b & !c),
        c == mask(true) ==> r == a,
        c == mask(false) ==> r == b,
{
    proof {
        assert(c == -1i16 ==> (a & c) | (b & !c) == a) by (bit_vector);
        assert(c == 0i16 ==> (a & c) | (b & !c) == b) by (bit_vector);
    }
    (a & c) | (b & !c)
}

/// Bitwise and; a mask on either side keeps the lanes that it marks.
pub fn v128_and(a: I16x8, b: I16x8) -> (r: I16x8)
    ensures
        forall|l: int| 0 <= l < 8 ==> #[trigger] r@[l] == a@[l] & b@[l],
        forall|l: int|
            #![trigger r@[l]]
            0 <= l < 8 ==> (a@[l] == mask(true) ==> r@[l] == b@[l]) && (a@[l] == mask(false) ==> r@[l] == mask(
                false,
            )),
        forall|l: int|
            #![trigger r@[l]]
            0 <= l < 8 ==> (b@[l] == mask(true) ==> r@[l] == a@[l]) && (b@[l] == mask(false) ==> r@[l] == mask(
                false,
            )),
{
    I16x8 {
        lanes: [
            and_lane(a.lanes[0], b.lanes[0]),
            and_lane(a.lanes[1], b.lanes[1]),
            and_lane(a.lanes[2], b.lanes[2]),
            and_lane(a.lanes[3], b.lanes[3]),
            and_lane(a.lanes[4], b.lanes[4]),
            and_lane(a.lanes[5], b.lanes[5]),
            and_lane(a.lanes[6], b.lanes[6]),
            and_lane(a.lanes[7], b.lanes[7]),
        ],
    }
}

/// Bitwise or.
pub fn v128_or(a: I16x8, b: I16x8) -> (r: I16x8)
    ensures
        forall|l: int| 0 <= l < 8 ==> #[trigger] r@[l] == a@[l] | b@[l],
        forall|l: int|
            #![trigger r@[l]]
            0 <= l < 8 ==> (a@[l] == mask(true) ==> r@[l] == mask(true)) && (a@[l] == mask(false) ==> r@[l]
                == b@[l]),
        forall|l: int|
            #![trigger r@[l]]
            0 <= l < 8 ==> (b@[l] == mask(true) ==> r@[l] == mask(true)) && (b@[l] == mask(false) ==> r@[l]
                == a@[l]),
{
    I16x8 {
        lanes: [
            or_lane(a.lanes[0], b.lanes[0]),
            or_lane(a.lanes[1], b.lanes[1]),
            or_lane(a.lanes[2], b.lanes[2]),
            or_lane(a.lanes[3], b.lanes[3]),
            or_lane(a.lanes[4], b.lanes[4]),
            or_lane(a.lanes[5], b.lanes[5]),
            or_lane(a.lanes[6], b.lanes[6]),
            or_lane(a.lanes[7], b.lanes[7]),
        ],
    }
}

/// The bits of `a` that are not set in `b`.
pub fn v128_andnot(a: I16x8, b: I16x8) -> (r: I16x8)
    ensures
        forall|l: int| 0 <= l < 8 ==> #[trigger] r@[l] == a@[l] & !b@[l],
        forall|l: int|
            #![trigger r@[l]]
            0 <= l < 8 ==> (b@[l] == mask(true) ==> r@[l] == mask(false)) && (b@[l] == mask(false) ==> r@[l]
                == a@[l]),
        forall|l: int|
            #![trigger r@[l]]
            0 <= l < 8 ==> (a@[l] == mask(false) ==> r@[l] == mask(false)),
{
    I16x8 {
        lanes: [
            andnot_lane(a.lanes[0], b.lanes[0]),
            andnot_lane(a.lanes[1], b.lanes[1]),
            andnot_lane(a.lanes[2], b.lanes[2]),
            andnot_lane(a.lanes[3], b.lanes[3]),
            andnot_lane(a.lanes[4], b.lanes[4]),
            andnot_lane(a.lanes[5], b.lanes[5]),
            andnot_lane(a.lanes[6], b.lanes[6]),
            andnot_lane(a.lanes[7], b.lanes[7]),
        ],
    }
}

/// Bitwise exclusive or; under a set mask lane this is the complement.
pub fn v128_xor(a: I16x8, b: I16x8) -> (r: I16x8)
    ensures
        forall|l: int| 0 <= l < 8 ==> #[trigger] r@[l] == a@[l] ^ b@[l],
        forall|l: int|
            #![trigger r@[l]]
            0 <= l < 8 ==> (b@[l] == mask(true) ==> r@[l] == -a@[l] - 1) && (b@[l] == mask(false) ==> r@[l]
                == a@[l]),
{
    I16x8 {
        lanes: [
            xor_lane(a.lanes[0], b.lanes[0]),
            xor_lane(a.lanes[1], b.lanes[1]),
            xor_lane(a.lanes[2], b.lanes[2]),
            xor_lane(a.lanes[3], b.lanes[3]),
            xor_lane(a.lanes[4], b.lanes[4]),
            xor_lane(a.lanes[5], b.lanes[5]),
            xor_lane(a.lanes[6], b.lanes[6]),
            xor_lane(a.lanes[7], b.lanes[7]),
        ],
    }
}

/// The bits of `a` where `c` is set and those of `b` elsewhere.
pub fn v128_bitselect(a: I16x8, b: I16x8, c: I16x8) -> (r: I16x8)
    ensures
        forall|l: int| 0 <= l < 8 ==> #[trigger] r@[l] == (a@[l] & c@[l]) | (b@[l] & !c@[l]),
        forall|l: int|
            #![trigger r@[l]]
            0 <= l < 8 ==> (c@[l] == mask(true) ==> r@[l] == a@[l]) && (c@[l] == mask(false) ==> r@[l] == b@[l]),
{
    I16x8 {
        lanes: [
            bitselect_lane(a.lanes[0], b.lanes[0], c.lanes[0]),
            bitselect_lane(a.lanes[1], b.lanes[1], c.lanes[1]),
            bitselect_lane(a.lanes[2], b.lanes[2], c.lanes[2]),
            bitselect_lane(a.lanes[3], b.lanes[3], c.lanes[3]),
            bitselect_lane(a.lanes[4], b.lanes[4], c.lanes[4]),
            bitselect_lane(a.lanes[5], b.lanes[5], c.lanes[5]),
            bitselect_lane(a.lanes[6], b.lanes[6], c.lanes[6]),
            bitselect_lane(a.lanes[7], b.lanes[7], c.lanes[7]),
        ],
    }
}

/// Whether any bit is set.
pub fn v128_any_true(a: I16x8) -> (r: bool)
    ensures
        r == exists|l: int| 0 <= l < 8 && #[trigger] a@[l] != 0,
{
    let mut l: usize = 0;
    while l < 8
        invariant
            l <= 8,
            forall|k: int| 0 <= k < l ==> #[trigger] a@[k] == 0,
        decreases 8 - l,
    {
        if a.lanes[l] != 0 {
            assert(a@[l as int] != 0);
            return true;
        }
        l += 1;
    }
    false
}

/// Eight bytes of `src` from `at` on, each widened to a lane.
pub fn u16x8_load8(src: &[u8], at: usize) -> (r: I16x8)
    requires
        at + 8 <= src@.len(),
    ensures
        forall|l: int| 0 <= l < 8 ==> #[trigger] r@[l] == src@[at + l],
{
    I16x8 {
        lanes: [
            src[at] as i16,
            src[at + 1] as i16,
            src[at + 2] as i16,
            src[at + 3] as i16,
            src[at + 4] as i16,
            src[at + 5] as i16,
            src[at + 6] as i16,
            src[at + 7] as i16,
        ],
    }
}

/// Four bytes of `src` from `at` on, each widened to a lane; the upper four lanes are zero.
pub fn u16x8_load4(src: &[u8], at: usize) -> (r: I16x8)
    requires
        at + 4 <= src@.len(),
    ensures
        forall|l: int| 0 <= l < 4 ==> #[trigger] r@[l] == src@[at + l],
        forall|l: int| 4 <= l < 8 ==> #[trigger] r@[l] == 0,
{
    I16x8 {
        lanes: [
            src[at] as i16,
            src[at + 1] as i16,
            src[at + 2] as i16,
            src[at + 3] as i16,
            0,
            0,
            0,
            0,
        ],
    }
}

/// Eight `i16` of `src` from `at` on.
pub fn i16x8_load(src: &[i16], at: usize) -> (r: I16x8)
    requires
        at + 8 <= src@.len(),
    ensures
        forall|l: int| 0 <= l < 8 ==> #[trigger] r@[l] == src@[at + l],
{
    I16x8 {
        lanes: [
            src[at],
            src[at + 1],
            src[at + 2],
            src[at + 3],
            src[at + 4],
            src[at + 5],
            src[at + 6],
            src[at + 7],
        ],
    }
}

/// Eight signed bytes, each widened to a lane.
pub fn i16x8_extend_i8(f: &[i8; 8]) -> (r: I16x8)
    ensures
        forall|l: int| 0 <= l < 8 ==> #[trigger] r@[l] == f@[l],
{
    I16x8 {
        lanes: [
            f[0] as i16,
            f[1] as i16,
            f[2] as i16,
            f[3] as i16,
            f[4] as i16,
            f[5] as i16,
            f[6] as i16,
            f[7] as i16,
        ],
    }
}

fn clip8_lane(a: i16) -> (r: u8)
    ensures
        r == clip8(a as int),
{
    if a < 0 {
        0
    } else if a > 255 {
        255
    } else {
        a as u8
    }
}

/// The sixteen lanes of `a` and `b`, each limited to the range of a byte.
pub fn u8x16_narrow_i16x8(a: I16x8, b: I16x8) -> (r: [u8; 16])
    ensures
        forall|l: int| 0 <= l < 8 ==> #[trigger] r@[l] == clip8(a@[l] as int),
        forall|l: int| 8 <= l < 16 ==> #[trigger] r@[l] == clip8(b@[l - 8] as int),
{
    [
        clip8_lane(a.lanes[0]),
        clip8_lane(a.lanes[1]),
        clip8_lane(a.lanes[2]),
        clip8_lane(a.lanes[3]),
        clip8_lane(a.lanes[4]),
        clip8_lane(a.lanes[5]),
        clip8_lane(a.lanes[6]),
        clip8_lane(a.lanes[7]),
        clip8_lane(b.lanes[0]),
        clip8_lane(b.lanes[1]),
        clip8_lane(b.lanes[2]),
        clip8_lane(b.lanes[3]),
        clip8_lane(b.lanes[4]),
        clip8_lane(b.lanes[5]),
        clip8_lane(b.lanes[6]),
        clip8_lane(b.lanes[7]),
    ]
}

/// Four copies of `x`.
pub fn i32x4_splat(x: i32) -> (r: I32x4)
    ensures
        forall|l: int| 0 <= l < 4 ==> #[trigger] r@[l] == x,
{
    I32x4 { lanes: [x, x, x, x] }
}

fn add32_lane(a: i32, b: i32) -> (r: i32)
    ensures
        r == wrap32(a + b),
{
    a.wrapping_add(b)
}

/// Lane sums, modulo 2^32.
pub fn i32x4_add(a: I32x4, b: I32x4) -> (r: I32x4)
    ensures
        forall|l: int| 0 <= l < 4 ==> #[trigger] r@[l] == wrap32(a@[l] + b@[l]),
{
    I32x4 {
        lanes: [
            add32_lane(a.lanes[0], b.lanes[0]),
            add32_lane(a.lanes[1], b.lanes[1]),
            add32_lane(a.lanes[2], b.lanes[2]),
            add32_lane(a.lanes[3], b.lanes[3]),
        ],
    }
}

fn shr32_lane(a: i32, sh: u32) -> (r: i32)
    ensures
        r == shr(a as int, (sh % 32) as nat),
{
    proof {
        lemma_i32_shr(a, sh % 32);
    }
    a.wrapping_shr(sh)
}

/// Arithmetic right shift of each lane; only `sh` modulo the lane width counts.
pub fn i32x4_shr(a: I32x4, sh: u32) -> (r: I32x4)
    ensures
        forall|l: int| 0 <= l < 4 ==> #[trigger] r@[l] == shr(a@[l] as int, (sh % 32) as nat),
{
    I32x4 {
        lanes: [
            shr32_lane(a.lanes[0], sh),
            shr32_lane(a.lanes[1], sh),
            shr32_lane(a.lanes[2], sh),
            shr32_lane(a.lanes[3], sh),
        ],
    }
}

/// The full product of two 16-bit lanes.
fn mul_wide(a: i16, b: i16) -> (r: i32)
    ensures
        r == a * b,
        -0x4000_0000 < r <= 0x4000_0000,
{
    proof {
        assert(-0x4000_0000 < a * b <= 0x4000_0000) by (nonlinear_arith)
            requires
                -0x8000 <= a <= 0x7fff,
                -0x8000 <= b <= 0x7fff,
        ;
    }
    a as i32 * b as i32
}

/// The products of the low four lanes.
pub fn i32x4_extmul_low_i16x8(a: I16x8, b: I16x8) -> (r: I32x4)
    ensures
        forall|l: int| 0 <= l < 4 ==> #[trigger] r@[l] == a@[l] * b@[l],
{
    I32x4 {
        lanes: [
            mul_wide(a.lanes[0], b.lanes[0]),
            mul_wide(a.lanes[1], b.lanes[1]),
            mul_wide(a.lanes[2], b.lanes[2]),
            mul_wide(a.lanes[3], b.lanes[3]),
        ],
    }
}

/// The products of the high four lanes.
pub fn i32x4_extmul_high_i16x8(a: I16x8, b: I16x8) -> (r: I32x4)
    ensures
        forall|l: int| 0 <= l < 4 ==> #[trigger] r@[l] == a@[l + 4] * b@[l + 4],
{
    I32x4 {
        lanes: [
            mul_wide(a.lanes[4], b.lanes[4]),
            mul_wide(a.lanes[5], b.lanes[5]),
            mul_wide(a.lanes[6], b.lanes[6]),
            mul_wide(a.lanes[7], b.lanes[7]),
        ],
    }
}

fn dot_lane(a0: i16, b0: i16, a1: i16, b1: i16) -> (r: i32)
    ensures
        r == wrap32(a0 * b0 + a1 * b1),
{
    mul_wide(a0, b0).wrapping_add(mul_wide(a1, b1))
}

/// The sums of the products of adjacent lanes, modulo 2^32.
pub fn i32x4_dot_i16x8(a: I16x8, b: I16x8) -> (r: I32x4)
    ensures
        forall|l: int|
            0 <= l < 4 ==> #[trigger] r@[l] == wrap32(
                a@[2 * l] * b@[2 * l] + a@[2 * l + 1] * b@[2 * l + 1],
            ),
{
    I32x4 {
        lanes: [
            dot_lane(a.lanes[0], b.lanes[0], a.lanes[1], b.lanes[1]),
            dot_lane(a.lanes[2], b.lanes[2], a.lanes[3], b.lanes[3]),
            dot_lane(a.lanes[4], b.lanes[4], a.lanes[5], b.lanes[5]),
            dot_lane(a.lanes[6], b.lanes[6], a.lanes[7], b.lanes[7]),
        ],
    }
}

fn sat16_lane(a: i32) -> (r: i16)
    ensures
        r == sat16(a as int),
{
    if a < -0x8000 {
        -0x8000
    } else if a > 0x7fff {
        0x7fff
    } else {
        a as i16
    }
}

/// The eight lanes of `a` and `b`, each limited to the range of `i16`.
pub fn i16x8_narrow_i32x4(a: I32x4, b: I32x4) -> (r: I16x8)
    ensures
        forall|l: int| 0 <= l < 4 ==> #[trigger] r@[l] == sat16(a@[l] as int),
        forall|l: int| 4 <= l < 8 ==> #[trigger] r@[l] == sat16(b@[l - 4] as int),
{
    I16x8 {
        lanes: [
            sat16_lane(a.lanes[0]),
            sat16_lane(a.lanes[1]),
            sat16_lane(a.lanes[2]),
            sat16_lane(a.lanes[3]),
            sat16_lane(b.lanes[0]),
            sat16_lane(b.lanes[1]),
            sat16_lane(b.lanes[2]),
            sat16_lane(b.lanes[3]),
        ],
    }
}

/// Lane `i` of the sixteen lanes of `a` and `b`.
fn pick(a: &I16x8, b: &I16x8, i: usize) -> (r: i16)
    requires
        i < 16,
    ensures
        r == (a@ + b@)[i as int],
{
    if i < 8 {
        a.lanes[i]
    } else {
        b.lanes[i - 8]
    }
}

/// Eight lanes chosen by index from the sixteen lanes of `a` and `b`.
pub fn i16x8_shuffle<
    const I0: usize,
    const I1: usize,
    const I2: usize,
    const I3: usize,
    const I4: usize,
    const I5: usize,
    const I6: usize,
    const I7: usize,
>(a: I16x8, b: I16x8) -> (r: I16x8)
    requires
        I0 < 16 && I1 < 16 && I2 < 16 && I3 < 16 && I4 < 16 && I5 < 16 && I6 < 16 && I7 < 16,
    ensures
        r@ == seq![I0, I1, I2, I3, I4, I5, I6, I7].map_values(|i: usize| (a@ + b@)[i as int]),
{
    I16x8 {
        lanes: [
            pick(&a, &b, I0),
            pick(&a, &b, I1),
            pick(&a, &b, I2),
            pick(&a, &b, I3),
            pick(&a, &b, I4),
            pick(&a, &b, I5),
            pick(&a, &b, I6),
            pick(&a, &b, I7),
        ],
    }
}

/// Four pairs of 16-bit lanes chosen by index from the eight pairs of `a` and `b`.
pub fn i16x8_shuffle_pairs<const I0: usize, const I1: usize, const I2: usize, const I3: usize>(
    a: I16x8,
    b: I16x8,
) -> (r: I16x8)
    requires
        I0 < 8 && I1 < 8 && I2 < 8 && I3 < 8,
    ensures
        r@ == seq![
            (a@ + b@)[2 * I0],
            (a@ + b@)[2 * I0 + 1],
            (a@ + b@)[2 * I1],
            (a@ + b@)[2 * I1 + 1],
            (a@ + b@)[2 * I2],
            (a@ + b@)[2 * I2 + 1],
            (a@ + b@)[2 * I3],
            (a@ + b@)[2 * I3 + 1],
        ],
{
    I16x8 {
        lanes: [
            pick(&a, &b, 2 * I0),
            pick(&a, &b, 2 * I0 + 1),
            pick(&a, &b, 2 * I1),
            pick(&a, &b, 2 * I1 + 1),
            pick(&a, &b, 2 * I2),
            pick(&a, &b, 2 * I2 + 1),
            pick(&a, &b, 2 * I3),
            pick(&a, &b, 2 * I3 + 1),
        ],
    }
}

/// Two quarters of four 16-bit lanes chosen by index from the four quarters of `a` and `b`.
pub fn i16x8_shuffle_quads<const I0: usize, const I1: usize>(a: I16x8, b: I16x8) -> (r: I16x8)
    requires
        I0 < 4 && I1 < 4,
    ensures
        r@ == (a@ + b@).subrange(4 * I0, 4 * I0 + 4) + (a@ + b@).subrange(4 * I1, 4 * I1 + 4),
{
    I16x8 {
        lanes: [
            pick(&a, &b, 4 * I0),
            pick(&a, &b, 4 * I0 + 1),
            pick(&a, &b, 4 * I0 + 2),
            pick(&a, &b, 4 * I0 + 3),
            pick(&a, &b, 4 * I1),
            pick(&a, &b, 4 * I1 + 1),
            pick(&a, &b, 4 * I1 + 2),
            pick(&a, &b, 4 * I1 + 3),
        ],
    }
}

/// Lane `i` of the eight lanes of `a` and `b`.
fn pick32(a: &I32x4, b: &I32x4, i: usize) -> (r: i32)
    requires
        i < 8,
    ensures
        r == (a@ + b@)[i as int],
{
    if i < 4 {
        a.lanes[i]
    } else {
        b.lanes[i - 4]
    }
}

/// Four lanes chosen by index from the eight lanes of `a` and `b`.
pub fn i32x4_shuffle<const I0: usize, const I1: usize, const I2: usize, const I3: usize>(
    a: I32x4,
    b: I32x4,
) -> (r: I32x4)
    requires
        I0 < 8 && I1 < 8 && I2 < 8 && I3 < 8,
    ensures
        r@ == seq![
            (a@ + b@)[I0 as int],
            (a@ + b@)[I1 as int],
            (a@ + b@)[I2 as int],
            (a@ + b@)[I3 as int],
        ],
{
    I32x4 {
        lanes: [
            pick32(&a, &b, I0),
            pick32(&a, &b, I1),
            pick32(&a, &b, I2),
            pick32(&a, &b, I3),
        ],
    }
}

/// The lane of a comparison that holds keeps every bit of another lane, and that of one that fails keeps none.
pub proof fn comparison_lanes_keep_all_bits_or_none(x: i16)
    ensures
        x & mask(true) == x,
        x & mask(false) == 0,
        mask(true) == -1,
        mask(false) == 0,
{
    assert(x & -1i16 == x) by (bit_vector);
    assert(x & 0i16 == 0) by (bit_vector);
}

} // verus!
