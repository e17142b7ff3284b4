//! The directional enhancement filter of a block of 8-bit pixels, one row at a time.
//!
//! The block is filtered against a padded copy of it and its surroundings, in which `i16::MIN` marks
//! the pixels that are not available. A marker is farther from any pixel than any strength reaches, so
//! that it contributes nothing to the sum; read as unsigned it is the largest value, and read as signed
//! the smallest, so that it never is the bound that a result is limited to.
use crate::arith::{abs, clip8, lemma_shr_values, max, min, sat16, shr, unsigned16, wrap16};
use crate::bitdepth::{bit_length, pixels};
use crate::picture::{lemma_rows_inside, offset_by, put_row, rows_inside};
use crate::simd::{
    i16x8_abs, i16x8_add, i16x8_load, i16x8_max, i16x8_min, i16x8_mul, i16x8_shr, i16x8_splat,
    i16x8_sub, i16x8_sub_sat, mask, u16x8_load4, u16x8_load8, u16x8_min, u16x8_shr,
    u8x16_narrow_i16x8, v128_xor, I16x8,
};
use vstd::arithmetic::power2::pow2;
use vstd::prelude::*;

verus! {

/// The distance of the rows of the padded block: eight pixels and two on each side.
pub const TMP_STRIDE: usize = 12;

/// The size of the padded block.
pub const TMP_SIZE: usize = 144;

/// What the difference between a tap and the pixel contributes in a 16-bit lane: the difference itself,
/// limited to what is left of the strength once the difference is taken off it.
pub open spec fn constrain_lane(p: int, px: int, strength: int, shift: nat) -> int {
    let diff = sat16(p - px);
    let m = min(abs(diff), max(0, wrap16(strength - shr(abs(diff), shift))));
    if diff < 0 {
        -m
    } else {
        m
    }
}

pub proof fn lemma_shr_bounds(x: int, s: nat)
    requires
        0 <= x,
    ensures
        0 <= shr(x, s) <= x,
{
    vstd::arithmetic::power2::lemma_pow2_pos(s);
    vstd::arithmetic::div_mod::lemma_div_pos_is_pos(x, pow2(s) as int);
    vstd::arithmetic::div_mod::lemma_div_nonincreasing(x, pow2(s) as int);
}

/// What eight taps contribute to eight pixels.
pub fn constrain8(p: I16x8, px: I16x8, strength: I16x8, shift: u32) -> (r: I16x8)
    ensures
        forall|l: int|
            0 <= l < 8 ==> #[trigger] r@[l] == constrain_lane(
                p@[l] as int,
                px@[l] as int,
                strength@[l] as int,
                (shift % 16) as nat,
            ),
{
    let diff: I16x8 = i16x8_sub_sat(p, px);
    let adiff: I16x8 = i16x8_abs(diff);
    let far: I16x8 = u16x8_shr(adiff, shift);
    let left: I16x8 = i16x8_sub(strength, far);
    let t: I16x8 = i16x8_max(i16x8_splat(0), left);
    let m: I16x8 = u16x8_min(adiff, t);
    let s: I16x8 = i16x8_shr(diff, 15);
    let r: I16x8 = i16x8_sub(v128_xor(m, s), s);
    proof {
        assert forall|l: int| 0 <= l < 8 implies #[trigger] r@[l] == constrain_lane(
            p@[l] as int,
            px@[l] as int,
            strength@[l] as int,
            (shift % 16) as nat,
        ) by {
            let d = diff@[l] as int;
            let z = shr(abs(d), (shift % 16) as nat);
            lemma_shr_bounds(abs(d), (shift % 16) as nat);
            assert(unsigned16(adiff@[l] as int) == abs(d));
            assert(far@[l] == wrap16(z));
            assert(left@[l] == wrap16(strength@[l] - z));
            assert(m@[l] == min(abs(d), max(0, wrap16(strength@[l] - z))));
            lemma_shr_values(d);
            assert(s@[l] == mask(d < 0));
        }
    }
    r
}

/// One neighbour that takes part in the filter: where it lies in the padded block relative to the
/// pixel, and how it counts.
#[derive(Clone, Copy, Debug, PartialEq, Eq, Structural)]
pub struct CdefTap {
    pub off: isize,
    pub weight: i16,
    pub strength: i16,
    pub shift: u32,
}

/// What the first `n` taps contribute to the pixel `px`, which is at `at` in the padded block.
pub open spec fn lane_total(taps: Seq<CdefTap>, tmp: Seq<i16>, at: int, px: int, n: nat) -> int
    decreases n,
{
    if n == 0 {
        0
    } else {
        let tap = taps[n - 1];
        lane_total(taps, tmp, at, px, (n - 1) as nat) + tap.weight * constrain_lane(
            tmp[at + tap.off] as int,
            px,
            tap.strength as int,
            (tap.shift % 16) as nat,
        )
    }
}

/// The smallest of the pixel and the first `n` taps, read as unsigned.
pub open spec fn lane_low(taps: Seq<CdefTap>, tmp: Seq<i16>, at: int, px: int, n: nat) -> int
    decreases n,
{
    if n == 0 {
        px
    } else {
        min(
            lane_low(taps, tmp, at, px, (n - 1) as nat),
            unsigned16(tmp[at + taps[n - 1].off] as int),
        )
    }
}

/// The largest of the pixel and the first `n` taps, read as signed.
pub open spec fn lane_high(taps: Seq<CdefTap>, tmp: Seq<i16>, at: int, px: int, n: nat) -> int
    decreases n,
{
    if n == 0 {
        px
    } else {
        max(lane_high(taps, tmp, at, px, (n - 1) as nat), tmp[at + taps[n - 1].off] as int)
    }
}

/// The filtered pixel: `px` moved by a sixteenth of what the taps contribute, and, where both kinds of
/// taps take part, limited to the range of the taps.
pub open spec fn cdef_pixel(
    taps: Seq<CdefTap>,
    both: bool,
    tmp: Seq<i16>,
    at: int,
    px: int,
) -> int {
    let n = taps.len();
    let total = wrap16(lane_total(taps, tmp, at, px, n));
    let moved = wrap16(
        px + shr(
            wrap16(
                total - (if total < 0 {
                    1int
                } else {
                    0
                }) + 8,
            ),
            4,
        ),
    );
    let limited = if both {
        min(
            max(moved, wrap16(lane_low(taps, tmp, at, px, n))),
            lane_high(taps, tmp, at, px, n),
        )
    } else {
        moved
    };
    clip8(limited)
}

/// The sum of `acc` and the contribution of one tap to eight pixels.
fn add_tap(acc: I16x8, tap: &CdefTap, p: I16x8, px: I16x8) -> (r: I16x8)
    ensures
        forall|l: int|
            0 <= l < 8 ==> #[trigger] r@[l] == wrap16(
                acc@[l] + tap.weight * constrain_lane(
                    p@[l] as int,
                    px@[l] as int,
                    tap.strength as int,
                    (tap.shift % 16) as nat,
                ),
            ),
{
    let c: I16x8 = constrain8(p, px, i16x8_splat(tap.strength), tap.shift);
    let weight: I16x8 = i16x8_splat(tap.weight);
    let weighted: I16x8 = i16x8_mul(weight, c);
    let r: I16x8 = i16x8_add(acc, weighted);
    proof {
        assert forall|l: int| 0 <= l < 8 implies #[trigger] r@[l] == wrap16(
            acc@[l] + tap.weight * constrain_lane(
                p@[l] as int,
                px@[l] as int,
                tap.strength as int,
                (tap.shift % 16) as nat,
            ),
        ) by {
            assert(weighted@[l] == wrap16(weight@[l] * c@[l]));
        }
    }
    r
}

/// Filters eight pixels, whose first is at `at` in the padded block.
fn filter_row(taps: &Vec<CdefTap>, both: bool, tmp: &[i16; 144], at: usize, px: I16x8) -> (r: [u8; 16])
    requires
        forall|n: int|
            0 <= n < taps@.len() ==> 0 <= at + (#[trigger] taps@[n]).off && at + taps@[n].off + 8
                <= TMP_SIZE,
        forall|l: int| 0 <= l < 8 ==> 0 <= #[trigger] px@[l] <= 255,
    ensures
        forall|l: int|
            0 <= l < 8 ==> #[trigger] r@[l] == cdef_pixel(
                taps@,
                both,
                tmp@,
                at + l,
                px@[l] as int,
            ),
{
    let mut sum: I16x8 = i16x8_splat(0);
    let mut low: I16x8 = px;
    let mut high: I16x8 = px;
    let mut n: usize = 0;
    while n < taps.len()
        invariant
            n <= taps@.len(),
            forall|n: int|
                0 <= n < taps@.len() ==> 0 <= at + (#[trigger] taps@[n]).off && at + taps@[n].off + 8
                    <= TMP_SIZE,
            forall|l: int| 0 <= l < 8 ==> 0 <= #[trigger] px@[l] <= 255,
            forall|l: int|
                0 <= l < 8 ==> #[trigger] sum@[l] == wrap16(
                    lane_total(taps@, tmp@, at + l, px@[l] as int, n as nat),
                ),
            forall|l: int|
                0 <= l < 8 ==> unsigned16((#[trigger] low@[l]) as int) == lane_low(
                    taps@,
                    tmp@,
                    at + l,
                    px@[l] as int,
                    n as nat,
                ),
            forall|l: int|
                0 <= l < 8 ==> #[trigger] high@[l] == lane_high(
                    taps@,
                    tmp@,
                    at + l,
                    px@[l] as int,
                    n as nat,
                ),
        decreases taps@.len() - n,
    {
        let t: CdefTap = taps[n];
        let p: I16x8 = tap(tmp, at, t.off);
        let ghost before = sum;
        sum = add_tap(sum, &t, p, px);
        low = u16x8_min(low, p);
        high = i16x8_max(high, p);
        proof {
            assert forall|l: int| 0 <= l < 8 implies #[trigger] sum@[l] == wrap16(
                lane_total(taps@, tmp@, at + l, px@[l] as int, (n + 1) as nat),
            ) by {
                assert(p@[l] == tmp@[at + l + t.off]);
                assert(before@[l] == wrap16(lane_total(taps@, tmp@, at + l, px@[l] as int, n as nat)));
            }
            assert forall|l: int| 0 <= l < 8 implies unsigned16((#[trigger] low@[l]) as int)
                == lane_low(taps@, tmp@, at + l, px@[l] as int, (n + 1) as nat) by {
                assert(p@[l] == tmp@[at + l + t.off]);
            }
            assert forall|l: int| 0 <= l < 8 implies #[trigger] high@[l] == lane_high(
                taps@,
                tmp@,
                at + l,
                px@[l] as int,
                (n + 1) as nat,
            ) by {
                assert(p@[l] == tmp@[at + l + t.off]);
            }
        }
        n += 1;
    }
    let neg: I16x8 = i16x8_shr(sum, 15);
    let rounded: I16x8 = i16x8_add(i16x8_add(sum, neg), i16x8_splat(8));
    let adj: I16x8 = i16x8_shr(rounded, 4);
    let moved: I16x8 = i16x8_add(px, adj);
    let out: I16x8 = if both {
        i16x8_min(i16x8_max(moved, low), high)
    } else {
        moved
    };
    let packed: [u8; 16] = u8x16_narrow_i16x8(out, out);
    proof {
        assert forall|l: int| 0 <= l < 8 implies #[trigger] packed@[l] == cdef_pixel(
            taps@,
            both,
            tmp@,
            at + l,
            px@[l] as int,
        ) by {
            lemma_shr_values(sum@[l] as int);
            assert(neg@[l] == if sum@[l] < 0 {
                -1int
            } else {
                0
            });
            assert(low@[l] == wrap16(lane_low(taps@, tmp@, at + l, px@[l] as int, taps@.len())));
        }
    }
    packed
}

/// Eight values of the padded block, from `off` away from `base` on.
fn tap(tmp: &[i16; 144], base: usize, off: isize) -> (r: I16x8)
    requires
        0 <= base + off,
        base + off + 8 <= TMP_SIZE,
    ensures
        forall|l: int| 0 <= l < 8 ==> #[trigger] r@[l] == tmp@[base + off + l],
{
    let i: usize = base.wrapping_add_signed(off);
    i16x8_load(tmp, i)
}

/// The integer part of the logarithm to the base two.
pub open spec fn ilog2(x: int) -> int {
    bit_length(x as nat) - 1
}

proof fn lemma_bit_length_32(x: nat)
    requires
        x <= 0xffff_ffff,
    ensures
        bit_length(x) <= 32,
        x > 0 ==> bit_length(x) >= 1,
{
    reveal_with_fuel(bit_length, 33);
}

fn floor_log2(x: i32) -> (r: i32)
    requires
        x > 0,
    ensures
        r == ilog2(x as int),
        0 <= r < 32,
{
    let mut rest: i32 = x;
    let mut n: i32 = 0;
    proof {
        lemma_bit_length_32(x as nat);
    }
    while rest > 1
        invariant
            rest > 0,
            0 <= n,
            n + bit_length(rest as nat) == bit_length(x as nat),
            bit_length(x as nat) <= 32,
        decreases rest,
    {
        rest = rest / 2;
        n += 1;
    }
    proof {
        reveal_with_fuel(bit_length, 2);
    }
    n
}

/// The shift of the primary taps.
pub open spec fn pri_shift(pri_strength: int, damping: int) -> int {
    max(0, damping - ilog2(pri_strength))
}

/// The shift of the secondary taps. A lane shift takes it modulo the width of the lane.
pub open spec fn sec_shift(sec_strength: int, damping: int) -> int {
    damping - ilog2(sec_strength)
}

/// Whether the shift for a strength can be computed in 32 bits.
pub open spec fn damping_fits(strength: int, damping: int) -> bool {
    strength > 0 ==> damping - ilog2(strength) >= i32::MIN
}

/// The two taps that lie `off` to either side of the pixel.
pub open spec fn opposite(off: int, weight: int, strength: int, shift: int) -> Seq<CdefTap> {
    seq![
        CdefTap {
            off: off as isize,
            weight: weight as i16,
            strength: strength as i16,
            shift: shift as u32,
        },
        CdefTap {
            off: -off as isize,
            weight: weight as i16,
            strength: strength as i16,
            shift: shift as u32,
        },
    ]
}

/// The primary taps, along the direction of the block. Their weights are four and two, or three and three
/// for an odd strength.
pub open spec fn pri_taps(
    directions: Seq<[i8; 2]>,
    pri_strength: int,
    dir: int,
    damping: int,
) -> Seq<CdefTap> {
    if pri_strength == 0 {
        Seq::empty()
    } else {
        let odd = pri_strength % 2 == 1;
        let shift = pri_shift(pri_strength, damping);
        let strength = wrap16(pri_strength);
        let d = directions[dir + 2]@;
        opposite(
            d[0] as int,
            if odd {
                3
            } else {
                4
            },
            strength,
            shift,
        ) + opposite(
            d[1] as int,
            if odd {
                3
            } else {
                2
            },
            strength,
            shift,
        )
    }
}

/// The secondary taps, along the two directions beside that of the block.
pub open spec fn sec_taps(
    directions: Seq<[i8; 2]>,
    sec_strength: int,
    dir: int,
    damping: int,
) -> Seq<CdefTap> {
    if sec_strength == 0 {
        Seq::empty()
    } else {
        let shift = sec_shift(sec_strength, damping) % 0x1_0000_0000;
        let strength = wrap16(sec_strength);
        let d2 = directions[dir + 4]@;
        let d3 = directions[dir]@;
        opposite(d2[0] as int, 2, strength, shift) + opposite(d3[0] as int, 2, strength, shift)
            + opposite(d2[1] as int, 1, strength, shift) + opposite(d3[1] as int, 1, strength, shift)
    }
}

/// All taps of a block.
pub open spec fn block_taps(
    directions: Seq<[i8; 2]>,
    pri_strength: int,
    sec_strength: int,
    dir: int,
    damping: int,
) -> Seq<CdefTap> {
    pri_taps(directions, pri_strength, dir, damping) + sec_taps(
        directions,
        sec_strength,
        dir,
        damping,
    )
}

/// Appends the two taps that lie `off` to either side of the pixel.
fn push_opposite(taps: &mut Vec<CdefTap>, off: i8, weight: i16, strength: i16, shift: u32)
    ensures
        final(taps)@ == old(taps)@ + opposite(off as int, weight as int, strength as int, shift as int),
{
    taps.push(CdefTap { off: off as isize, weight, strength, shift });
    taps.push(CdefTap { off: -(off as isize), weight, strength, shift });
    assert(taps@ =~= old(taps)@ + opposite(
        off as int,
        weight as int,
        strength as int,
        shift as int,
    ));
}

/// The low half of `x`.
fn low_half(x: i32) -> (r: i16)
    ensures
        r == wrap16(x as int),
{
    proof {
        let y: i16 = #[verifier::truncate] (x as i16);
        let k: i32 = x >> 16u32;
        let lo: i32 = x & 0xffff;
        assert(x == k * 0x1_0000 + lo && 0 <= lo < 0x1_0000) by (bit_vector)
            requires
                k == x >> 16u32,
                lo == x & 0xffff,
        ;
        assert(lo < 0x8000 ==> y == lo) by (bit_vector)
            requires
                y == x as i16,
                lo == x & 0xffff,
        ;
        assert(lo >= 0x8000 ==> y == lo - 0x1_0000) by (bit_vector)
            requires
                y == x as i16,
                lo == x & 0xffff,
        ;
    }
    #[verifier::truncate] (x as i16)
}

/// The bits of `x`, read as unsigned.
fn to_u32(x: i32) -> (r: u32)
    ensures
        r == x as int % 0x1_0000_0000,
{
    proof {
        assert(x < 0 ==> (x as u32) == x + 0x1_0000_0000) by (bit_vector);
    }
    #[verifier::truncate] (x as u32)
}

/// The taps of a block.
fn cdef_taps(
    directions: &[[i8; 2]; 12],
    pri_strength: i32,
    sec_strength: i32,
    dir: usize,
    damping: i32,
) -> (r: Vec<CdefTap>)
    requires
        0 <= pri_strength,
        0 <= sec_strength,
        damping_fits(pri_strength as int, damping as int),
        damping_fits(sec_strength as int, damping as int),
        pri_strength != 0 ==> dir + 2 < 12,
        sec_strength != 0 ==> dir + 4 < 12,
    ensures
        r@ == block_taps(
            directions@,
            pri_strength as int,
            sec_strength as int,
            dir as int,
            damping as int,
        ),
{
    let mut taps: Vec<CdefTap> = Vec::new();
    if pri_strength != 0 {
        let pri_tap: i16 = if pri_strength % 2 == 1 {
            3
        } else {
            4
        };
        let outer: i16 = if pri_strength % 2 == 1 {
            3
        } else {
            2
        };
        let room: i32 = damping - floor_log2(pri_strength);
        let shift: u32 = if room < 0 {
            0
        } else {
            room as u32
        };
        let strength: i16 = low_half(pri_strength);
        push_opposite(&mut taps, directions[dir + 2][0], pri_tap, strength, shift);
        push_opposite(&mut taps, directions[dir + 2][1], outer, strength, shift);
    }
    assert(taps@ =~= pri_taps(directions@, pri_strength as int, dir as int, damping as int));
    if sec_strength != 0 {
        let shift: u32 = to_u32(damping - floor_log2(sec_strength));
        let strength: i16 = low_half(sec_strength);
        push_opposite(&mut taps, directions[dir + 4][0], 2, strength, shift);
        push_opposite(&mut taps, directions[dir][0], 2, strength, shift);
        push_opposite(&mut taps, directions[dir + 4][1], 1, strength, shift);
        push_opposite(&mut taps, directions[dir][1], 1, strength, shift);
    }
    assert(taps@ =~= block_taps(
        directions@,
        pri_strength as int,
        sec_strength as int,
        dir as int,
        damping as int,
    ));
    taps
}

/// Whether the taps of a row of the block lie in the padded block.
pub open spec fn taps_in_tmp(taps: Seq<CdefTap>, h: int) -> bool {
    forall|n: int, y: int|
        #![trigger taps[n], tmp_row(y)]
        0 <= n < taps.len() && 0 <= y < h ==> 0 <= tmp_row(y) + taps[n].off && tmp_row(y) + taps[n].off
            + 8 <= TMP_SIZE
}

/// The position in the padded block of the first pixel of row `y`.
pub open spec fn tmp_row(y: int) -> int {
    y * TMP_STRIDE + 2 * TMP_STRIDE + 2
}

/// The plane after the first `y` rows of the block have been filtered.
pub open spec fn cdef_rows(
    data: Seq<int>,
    base: int,
    stride: int,
    tmp: Seq<i16>,
    taps: Seq<CdefTap>,
    both: bool,
    w: nat,
    y: nat,
) -> Seq<int>
    decreases y,
{
    if y == 0 {
        data
    } else {
        let before = cdef_rows(data, base, stride, tmp, taps, both, w, (y - 1) as nat);
        let at = base + (y - 1) * stride;
        put_row(
            before,
            at,
            Seq::new(
                w,
                |x: int| cdef_pixel(taps, both, tmp, tmp_row(y - 1) + x, before[at + x]),
            ),
        )
    }
}

/// Filters a block of `w` by `h` pixels against the padded copy `tmp` of it. The primary taps lie along
/// entry `dir + 2` of the directions, the secondary ones along `dir` and `dir + 4`.
pub fn cdef_filter_block(
    dst: &mut [u8],
    base: usize,
    stride: isize,
    tmp: &[i16; 144],
    pri_strength: i32,
    sec_strength: i32,
    dir: usize,
    damping: i32,
    w: usize,
    h: usize,
    directions: &[[i8; 2]; 12],
)
    requires
        w == 4 || w == 8,
        rows_inside(old(dst)@.len() as int, base as int, stride as int, w as int, h as int),
        tmp_row(h as int) <= usize::MAX,
        0 <= pri_strength,
        0 <= sec_strength,
        damping_fits(pri_strength as int, damping as int),
        damping_fits(sec_strength as int, damping as int),
        h > 0 && pri_strength != 0 ==> dir + 2 < 12,
        h > 0 && sec_strength != 0 ==> dir + 4 < 12,
        taps_in_tmp(
            block_taps(
                directions@,
                pri_strength as int,
                sec_strength as int,
                dir as int,
                damping as int,
            ),
            h as int,
        ),
    ensures
        pixels(final(dst)@) == cdef_rows(
            pixels(old(dst)@),
            base as int,
            stride as int,
            tmp@,
            block_taps(
                directions@,
                pri_strength as int,
                sec_strength as int,
                dir as int,
                damping as int,
            ),
            pri_strength != 0 && sec_strength != 0,
            w as nat,
            h as nat,
        ),
        final(dst)@.len() == old(dst)@.len(),
{
    let ghost data = pixels(dst@);
    if h == 0 {
        return ;
    }
    let taps: Vec<CdefTap> = cdef_taps(directions, pri_strength, sec_strength, dir, damping);
    let both: bool = pri_strength != 0 && sec_strength != 0;
    let mut y: usize = 0;
    while y < h
        invariant
            y <= h,
            w == 4 || w == 8,
            dst@.len() == old(dst)@.len(),
            rows_inside(dst@.len() as int, base as int, stride as int, w as int, h as int),
            tmp_row(h as int) <= usize::MAX,
            taps_in_tmp(taps@, h as int),
            pixels(dst@) == cdef_rows(
                data,
                base as int,
                stride as int,
                tmp@,
                taps@,
                both,
                w as nat,
                y as nat,
            ),
        decreases h - y,
    {
        proof {
            lemma_rows_inside(
                dst@.len() as int,
                base as int,
                stride as int,
                w as int,
                h as int,
                y as int,
            );
            assert(dst.len() == dst@.len());
            assert forall|n: int| 0 <= n < taps@.len() implies 0 <= tmp_row(y as int) + (
            #[trigger] taps@[n]).off && tmp_row(y as int) + taps@[n].off + 8 <= TMP_SIZE by {
            }
        }
        let tmp_at: usize = y * TMP_STRIDE + 2 * TMP_STRIDE + 2;
        let at: usize = offset_by(base, y as isize, stride);
        let px: I16x8 = if w == 8 {
            u16x8_load8(dst, at)
        } else {
            u16x8_load4(dst, at)
        };
        let packed: [u8; 16] = filter_row(&taps, both, tmp, tmp_at, px);
        let ghost before = dst@;
        store_row(dst, at, &packed, w);
        proof {
            assert(Seq::new(w as nat, |x: int| packed@[x] as int) =~= Seq::new(
                w as nat,
                |x: int|
                    cdef_pixel(taps@, both, tmp@, tmp_row(y as int) + x, pixels(before)[at + x]),
            ));
        }
        y += 1;
    }
}

/// Stores the first `w` bytes of `packed`.
fn store_row(dst: &mut [u8], at: usize, packed: &[u8; 16], w: usize)
    requires
        w <= 16,
        at + w <= old(dst)@.len(),
    ensures
        pixels(final(dst)@) == put_row(
            pixels(old(dst)@),
            at as int,
            Seq::new(w as nat, |x: int| packed@[x] as int),
        ),
        final(dst)@.len() == old(dst)@.len(),
{
    let mut x: usize = 0;
    while x < w
        invariant
            x <= w <= 16,
            at + w <= dst@.len(),
            dst@.len() == old(dst)@.len(),
            forall|i: int|
                0 <= i < dst@.len() ==> #[trigger] dst@[i] == if at <= i < at + x {
                    packed@[i - at]
                } else {
                    old(dst)@[i]
                },
        decreases w - x,
    {
        assert(dst.len() == dst@.len());
        dst[at + x] = packed[x];
        x += 1;
    }
    assert(pixels(dst@) =~= put_row(
        pixels(old(dst)@),
        at as int,
        Seq::new(w as nat, |x: int| packed@[x] as int),
    ));
}

} // verus!
