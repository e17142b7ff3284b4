//! The directional enhancement filter in unbounded arithmetic, and its agreement with the lanes.
use crate::arith::{abs, clip, lemma_shr_values, max, min, shr, wrap16};
use crate::bitdepth::bit_length;
use crate::cdef::wasm::{
    block_taps, cdef_pixel, cdef_rows, constrain_lane, ilog2, lane_high, lane_low, lane_total,
    lemma_shr_bounds, pri_taps, sec_taps, taps_in_tmp, tmp_row, CdefTap,
};
use crate::picture::{block_position, lemma_rows_inside, put_row, rows_inside};
use vstd::arithmetic::power2::{lemma2_to64, lemma_pow2_adds, lemma_pow2_pos, lemma_pow2_unfold, pow2};
use vstd::prelude::*;

verus! {

/// The mark of a pixel that is not available.
pub open spec fn marker() -> int {
    -0x8000
}

/// What a difference contributes: the difference itself, limited to what is left of the strength once a
/// part of the difference is taken off it.
pub open spec fn constrain(diff: int, strength: int, shift: nat) -> int {
    let m = min(abs(diff), max(0, strength - shr(abs(diff), shift)));
    if diff < 0 {
        -m
    } else {
        m
    }
}

/// What the first `n` taps contribute to the pixel `px`.
pub open spec fn total(taps: Seq<CdefTap>, tmp: Seq<i16>, at: int, px: int, n: nat) -> int
    decreases n,
{
    if n == 0 {
        0
    } else {
        let tap = taps[n - 1];
        total(taps, tmp, at, px, (n - 1) as nat) + tap.weight * constrain(
            tmp[at + tap.off] - px,
            tap.strength as int,
            tap.shift as nat,
        )
    }
}

/// The smallest of the pixel and the available ones among the first `n` taps.
pub open spec fn low(taps: Seq<CdefTap>, tmp: Seq<i16>, at: int, px: int, n: nat) -> int
    decreases n,
{
    if n == 0 {
        px
    } else {
        let rest = low(taps, tmp, at, px, (n - 1) as nat);
        let p = tmp[at + taps[n - 1].off] as int;
        if p == marker() {
            rest
        } else {
            min(rest, p)
        }
    }
}

/// The largest of the pixel and the available ones among the first `n` taps.
pub open spec fn high(taps: Seq<CdefTap>, tmp: Seq<i16>, at: int, px: int, n: nat) -> int
    decreases n,
{
    if n == 0 {
        px
    } else {
        let rest = high(taps, tmp, at, px, (n - 1) as nat);
        let p = tmp[at + taps[n - 1].off] as int;
        if p == marker() {
            rest
        } else {
            max(rest, p)
        }
    }
}

/// The filtered pixel: `px` moved by a sixteenth of what the taps contribute, rounded to the nearest, and,
/// where both kinds of taps take part, limited to the range of the available taps.
pub open spec fn filtered(taps: Seq<CdefTap>, both: bool, tmp: Seq<i16>, at: int, px: int) -> int {
    let n = taps.len();
    let sum = total(taps, tmp, at, px, n);
    let moved = px + correction(sum);
    if both {
        clip(moved, low(taps, tmp, at, px, n), high(taps, tmp, at, px, n))
    } else {
        moved
    }
}

/// Whether a tap reaches a pixel or a marker.
pub open spec fn pixel_or_marker(v: int) -> bool {
    0 <= v <= 255 || v == marker()
}

/// Whether each of the taps reaches a pixel or a marker.
pub open spec fn taps_available(taps: Seq<CdefTap>, tmp: Seq<i16>, at: int) -> bool {
    forall|n: int| 0 <= n < taps.len() ==> pixel_or_marker(tmp[at + (#[trigger] taps[n]).off] as int)
}

/// Whether the strength of a tap does not reach as far as a marker.
pub open spec fn short_of_marker(tap: CdefTap) -> bool {
    &&& 0 <= tap.strength
    &&& tap.shift < 16
    &&& tap.strength * pow2(tap.shift as nat) <= 0x8000
    &&& 0 <= tap.weight <= 4
}

proof fn lemma_shr_at_least(x: int, strength: int, s: nat)
    requires
        0 <= strength,
        strength * pow2(s) <= x,
    ensures
        strength <= shr(x, s),
{
    lemma_pow2_pos(s);
    let d = pow2(s) as int;
    vstd::arithmetic::div_mod::lemma_div_is_ordered(strength * d, x, d);
    vstd::arithmetic::div_mod::lemma_div_by_multiple(strength, d);
}

/// A marker contributes nothing.
pub proof fn marker_contributes_nothing(px: int, tap: CdefTap)
    requires
        0 <= px <= 255,
        short_of_marker(tap),
    ensures
        constrain(marker() - px, tap.strength as int, tap.shift as nat) == 0,
        constrain_lane(marker(), px, tap.strength as int, (tap.shift % 16) as nat) == 0,
{
    lemma_shr_at_least(0x8000, tap.strength as int, tap.shift as nat);
    lemma_shr_at_least(0x8000 + px, tap.strength as int, tap.shift as nat);
    lemma_shr_bounds(0x8000, tap.shift as nat);
}

/// A contribution has the sign of the difference and is no larger than it nor than the strength.
pub proof fn contribution_is_bounded(diff: int, strength: int, shift: nat)
    requires
        0 <= strength,
    ensures
        min(0, diff) <= constrain(diff, strength, shift) <= max(0, diff),
        -strength <= constrain(diff, strength, shift) <= strength,
{
    lemma_shr_bounds(abs(diff), shift);
}

/// In a lane a tap contributes what it contributes in unbounded arithmetic.
pub proof fn lane_contribution_is_exact(p: int, px: int, tap: CdefTap)
    requires
        0 <= px <= 255,
        pixel_or_marker(p),
        short_of_marker(tap),
    ensures
        constrain_lane(p, px, tap.strength as int, (tap.shift % 16) as nat) == constrain(
            p - px,
            tap.strength as int,
            tap.shift as nat,
        ),
{
    if p == marker() {
        marker_contributes_nothing(px, tap);
    } else {
        lemma_shr_bounds(abs(p - px), tap.shift as nat);
    }
}

/// The sum of the weights of the first `n` taps.
pub open spec fn weights(taps: Seq<CdefTap>, n: nat) -> int
    decreases n,
{
    if n == 0 {
        0
    } else {
        weights(taps, (n - 1) as nat) + taps[n - 1].weight
    }
}

proof fn lemma_weighted(weight: int, c: int, px: int)
    requires
        0 <= weight <= 4,
        -px <= c <= 255 - px,
        0 <= px <= 255,
    ensures
        -(weight * px) <= weight * c <= weight * (255 - px),
        -1020 <= weight * c <= 1020,
{
    assert(-(weight * px) <= weight * c <= weight * (255 - px)) by (nonlinear_arith)
        requires
            0 <= weight,
            -px <= c <= 255 - px,
    ;
    assert(-1020 <= weight * c <= 1020) by (nonlinear_arith)
        requires
            0 <= weight <= 4,
            -255 <= c <= 255,
    ;
}

proof fn lemma_totals_agree(taps: Seq<CdefTap>, tmp: Seq<i16>, at: int, px: int, n: nat)
    requires
        n <= taps.len(),
        0 <= px <= 255,
        taps_available(taps, tmp, at),
        forall|k: int| 0 <= k < taps.len() ==> short_of_marker(#[trigger] taps[k]),
    ensures
        lane_total(taps, tmp, at, px, n) == total(taps, tmp, at, px, n),
        -1020 * n <= total(taps, tmp, at, px, n) <= 1020 * n,
        -(weights(taps, n) * px) <= total(taps, tmp, at, px, n) <= weights(taps, n) * (255 - px),
        lane_low(taps, tmp, at, px, n) == low(taps, tmp, at, px, n),
        lane_high(taps, tmp, at, px, n) == high(taps, tmp, at, px, n),
        0 <= low(taps, tmp, at, px, n) <= px <= high(taps, tmp, at, px, n) <= 255,
    decreases n,
{
    if n > 0 {
        let m = (n - 1) as nat;
        lemma_totals_agree(taps, tmp, at, px, m);
        let tap = taps[n - 1];
        let p = tmp[at + tap.off] as int;
        assert(pixel_or_marker(p));
        assert(short_of_marker(tap));
        lane_contribution_is_exact(p, px, tap);
        let c = constrain(p - px, tap.strength as int, tap.shift as nat);
        if p == marker() {
            marker_contributes_nothing(px, tap);
        } else {
            contribution_is_bounded(p - px, tap.strength as int, tap.shift as nat);
        }
        assert(-px <= c <= 255 - px);
        lemma_weighted(tap.weight as int, c, px);
        let w = weights(taps, m);
        let v = tap.weight as int;
        assert((w + v) * px == w * px + v * px) by (nonlinear_arith);
        assert((w + v) * (255 - px) == w * (255 - px) + v * (255 - px)) by (nonlinear_arith);
    }
}

/// The correction of a pixel by a sixteenth of `sum`, rounded to the nearest.
pub open spec fn correction(sum: int) -> int {
    (sum - (if sum < 0 {
        1int
    } else {
        0
    }) + 8) / 16
}

/// A correction that weighs no more than twelve differences leads to a pixel.
proof fn lemma_correction(sum: int, px: int)
    requires
        0 <= px <= 255,
        -(12 * px) <= sum <= 12 * (255 - px),
    ensures
        0 <= px + correction(sum) <= 255,
{
}

/// In the range of the sums of a block no lane wraps.
pub proof fn lemma_correction_in_lanes(sum: int, px: int)
    requires
        0 <= px <= 255,
        -12240 <= sum <= 12240,
    ensures
        wrap16(sum) == sum,
        wrap16(
            px + shr(
                wrap16(
                    sum - (if sum < 0 {
                        1int
                    } else {
                        0
                    }) + 8,
                ),
                4,
            ),
        ) == px + correction(sum),
{
    let rounded = sum - (if sum < 0 {
        1int
    } else {
        0
    }) + 8;
    lemma_shr_values(rounded);
    assert(wrap16(rounded) == rounded);
}

/// In lanes a pixel is filtered as in unbounded arithmetic, and the result is a pixel. The taps are at most
/// twelve, and their weights add up to at most twelve where the result is not limited.
proof fn lemma_pixels_agree(taps: Seq<CdefTap>, both: bool, tmp: Seq<i16>, at: int, px: int)
    requires
        taps.len() <= 12,
        !both ==> 0 <= weights(taps, taps.len()) <= 12,
        0 <= px <= 255,
        taps_available(taps, tmp, at),
        forall|k: int| 0 <= k < taps.len() ==> short_of_marker(#[trigger] taps[k]),
    ensures
        cdef_pixel(taps, both, tmp, at, px) == filtered(taps, both, tmp, at, px),
        0 <= filtered(taps, both, tmp, at, px) <= 255,
{
    let n = taps.len();
    lemma_totals_agree(taps, tmp, at, px, n);
    let sum = total(taps, tmp, at, px, n);
    lemma_correction_in_lanes(sum, px);
    if !both {
        let w = weights(taps, n);
        assert(w * px <= 12 * px) by (nonlinear_arith)
            requires
                w <= 12,
                0 <= px,
        ;
        assert(w * (255 - px) <= 12 * (255 - px)) by (nonlinear_arith)
            requires
                w <= 12,
                px <= 255,
        ;
        lemma_correction(sum, px);
    }
}

proof fn lemma_below_pow2(x: nat)
    ensures
        x < pow2(bit_length(x)),
    decreases x,
{
    if x == 0 {
        lemma2_to64();
    } else {
        lemma_below_pow2(x / 2);
        lemma_pow2_unfold(bit_length(x));
    }
}

proof fn lemma_short_of_marker(strength: int, damping: int)
    requires
        0 < strength <= 0x7fff,
        ilog2(strength) <= damping <= 14,
    ensures
        0 <= damping - ilog2(strength) < 16,
        strength * pow2((damping - ilog2(strength)) as nat) <= 0x8000,
{
    let b = bit_length(strength as nat);
    let d = (damping - ilog2(strength)) as nat;
    lemma_below_pow2(strength as nat);
    assert(b >= 1);
    lemma_pow2_adds(b, d);
    lemma_pow2_pos(d);
    assert(strength * pow2(d) <= pow2(b) * pow2(d)) by (nonlinear_arith)
        requires
            strength <= pow2(b),
            pow2(d) >= 0,
    ;
    lemma2_to64();
    if b + d < 15 {
        vstd::arithmetic::power2::lemma_pow2_strictly_increases(b + d, 15);
    }
}

/// Whether the strengths and the damping are such that no tap reaches as far as a marker.
pub open spec fn strengths_in_range(pri_strength: int, sec_strength: int, damping: int) -> bool {
    &&& 0 <= pri_strength <= 0x7fff
    &&& 0 <= sec_strength <= 0x7fff
    &&& damping <= 14
    &&& sec_strength > 0 ==> ilog2(sec_strength) <= damping
}

/// The taps of a block are at most twelve, and none reaches as far as a marker.
pub proof fn lemma_block_taps(
    directions: Seq<[i8; 2]>,
    pri_strength: int,
    sec_strength: int,
    dir: int,
    damping: int,
)
    requires
        strengths_in_range(pri_strength, sec_strength, damping),
    ensures
        ({
            let taps = block_taps(directions, pri_strength, sec_strength, dir, damping);
            &&& taps.len() <= 12
            &&& forall|k: int| 0 <= k < taps.len() ==> short_of_marker(#[trigger] taps[k])
            &&& pri_strength == 0 || sec_strength == 0 ==> 0 <= weights(taps, taps.len()) <= 12
        }),
{
    let taps = block_taps(directions, pri_strength, sec_strength, dir, damping);
    let pri = pri_taps(directions, pri_strength, dir, damping);
    let sec = sec_taps(directions, sec_strength, dir, damping);
    lemma2_to64();
    if pri_strength > 0 {
        if damping >= ilog2(pri_strength) {
            lemma_short_of_marker(pri_strength, damping);
        }
        assert(pri.len() == 4);
    }
    if sec_strength > 0 {
        lemma_short_of_marker(sec_strength, damping);
        assert(sec.len() == 8);
    }
    assert forall|k: int| 0 <= k < pri.len() implies short_of_marker(#[trigger] pri[k]) by {
        assert(k == 0 || k == 1 || k == 2 || k == 3);
        assert(pri_strength * 1 <= 0x8000);
    }
    assert forall|k: int| 0 <= k < sec.len() implies short_of_marker(#[trigger] sec[k]) by {
        assert(k == 0 || k == 1 || k == 2 || k == 3 || k == 4 || k == 5 || k == 6 || k == 7);
    }
    assert forall|k: int| 0 <= k < taps.len() implies short_of_marker(#[trigger] taps[k]) by {
        if k < pri.len() {
            assert(taps[k] == pri[k]);
        } else {
            assert(taps[k] == sec[k - pri.len()]);
        }
    }
    if pri_strength == 0 || sec_strength == 0 {
        reveal_with_fuel(weights, 9);
        if sec_strength == 0 {
            assert(taps =~= pri);
        } else {
            assert(taps =~= sec);
        }
    }
}

/// Each pixel is filtered in 16-bit lanes exactly as in unbounded arithmetic, and the result is a pixel.
pub proof fn lanes_are_exact(
    directions: Seq<[i8; 2]>,
    pri_strength: int,
    sec_strength: int,
    dir: int,
    damping: int,
    tmp: Seq<i16>,
    at: int,
    px: int,
)
    requires
        strengths_in_range(pri_strength, sec_strength, damping),
        0 <= px <= 255,
        taps_available(block_taps(directions, pri_strength, sec_strength, dir, damping), tmp, at),
    ensures
        cdef_pixel(
            block_taps(directions, pri_strength, sec_strength, dir, damping),
            pri_strength != 0 && sec_strength != 0,
            tmp,
            at,
            px,
        ) == filtered(
            block_taps(directions, pri_strength, sec_strength, dir, damping),
            pri_strength != 0 && sec_strength != 0,
            tmp,
            at,
            px,
        ),
        0 <= filtered(
            block_taps(directions, pri_strength, sec_strength, dir, damping),
            pri_strength != 0 && sec_strength != 0,
            tmp,
            at,
            px,
        ) <= 255,
{
    lemma_block_taps(directions, pri_strength, sec_strength, dir, damping);
    lemma_pixels_agree(
        block_taps(directions, pri_strength, sec_strength, dir, damping),
        pri_strength != 0 && sec_strength != 0,
        tmp,
        at,
        px,
    );
}

/// Without strength the filter changes nothing.
pub proof fn no_strength_no_change(
    data: Seq<int>,
    base: int,
    stride: int,
    tmp: Seq<i16>,
    directions: Seq<[i8; 2]>,
    dir: int,
    damping: int,
    w: nat,
    h: nat,
)
    requires
        rows_inside(data.len() as int, base, stride, w as int, h as int),
        forall|i: int| 0 <= i < data.len() ==> 0 <= #[trigger] data[i] <= 255,
    ensures
        cdef_rows(
            data,
            base,
            stride,
            tmp,
            block_taps(directions, 0, 0, dir, damping),
            false,
            w,
            h,
        ) == data,
    decreases h,
{
    let taps = block_taps(directions, 0, 0, dir, damping);
    if h > 0 {
        let y = h - 1;
        lemma_rows_inside(data.len() as int, base, stride, w as int, h as int, y);
        if h > 1 {
            lemma_rows_inside(data.len() as int, base, stride, w as int, h as int, y - 1);
        }
        no_strength_no_change(
            data,
            base,
            stride,
            tmp,
            directions,
            dir,
            damping,
            w,
            (h - 1) as nat,
        );
        let at = base + y * stride;
        let row = Seq::new(w, |x: int| cdef_pixel(taps, false, tmp, tmp_row(y) + x, data[at + x]));
        assert forall|x: int| 0 <= x < w implies #[trigger] row[x] == data[at + x] by {
            lemma_correction_in_lanes(0, data[at + x]);
            assert(taps.len() == 0);
            assert(lane_total(taps, tmp, tmp_row(y) + x, data[at + x], 0) == 0);
        }
        assert(put_row(data, at, row) =~= data);
    }
}

/// Offsets of at most two rows and two columns stay in the padded block, for blocks of up to eight rows.
pub proof fn near_taps_stay_in_tmp(taps: Seq<CdefTap>, h: int)
    requires
        h <= 8,
        forall|n: int| 0 <= n < taps.len() ==> -26 <= (#[trigger] taps[n]).off <= 26,
    ensures
        taps_in_tmp(taps, h),
{
}

/// Where the rows of the block do not overlap, each pixel is filtered on its own, and the rest of the plane
/// stays as it is.
pub proof fn rows_are_independent(
    data: Seq<int>,
    base: int,
    stride: int,
    tmp: Seq<i16>,
    taps: Seq<CdefTap>,
    both: bool,
    w: nat,
    h: nat,
)
    requires
        rows_inside(data.len() as int, base, stride, w as int, h as int),
        stride >= w || stride <= -w,
    ensures
        cdef_rows(data, base, stride, tmp, taps, both, w, h).len() == data.len(),
        forall|x: int, y: int|
            0 <= x < w && 0 <= y < h ==> cdef_rows(data, base, stride, tmp, taps, both, w, h)[
                #[trigger] block_position(base, stride, x, y)
            ] == cdef_pixel(
                taps,
                both,
                tmp,
                tmp_row(y) + x,
                data[block_position(base, stride, x, y)],
            ),
        forall|i: int|
            0 <= i < data.len() && (forall|x: int, y: int|
                0 <= x < w && 0 <= y < h ==> i != #[trigger] block_position(base, stride, x, y))
                ==> #[trigger] cdef_rows(data, base, stride, tmp, taps, both, w, h)[i] == data[i],
    decreases h,
{
    if h > 0 {
        let m = h - 1;
        let len = data.len() as int;
        if m > 0 {
            lemma_rows_inside(len, base, stride, w as int, h as int, m - 1);
        }
        lemma_rows_inside(len, base, stride, w as int, h as int, m);
        rows_are_independent(data, base, stride, tmp, taps, both, w, m as nat);
        let before = cdef_rows(data, base, stride, tmp, taps, both, w, m as nat);
        let after = cdef_rows(data, base, stride, tmp, taps, both, w, h);
        let at = base + m * stride;
        let row = Seq::new(
            w,
            |x: int| cdef_pixel(taps, both, tmp, tmp_row(m) + x, before[at + x]),
        );
        assert(after == put_row(before, at, row));
        assert forall|x: int, y: int| 0 <= x < w && 0 <= y < m implies !(at
            <= #[trigger] block_position(base, stride, x, y) < at + w) by {
            assert(stride >= w ==> (m - y) * stride >= w) by (nonlinear_arith)
                requires
                    m - y >= 1,
                    w >= 0,
            ;
            assert(stride <= -w ==> (m - y) * stride <= -w) by (nonlinear_arith)
                requires
                    m - y >= 1,
                    w >= 0,
            ;
            assert((m - y) * stride == m * stride - y * stride) by (nonlinear_arith);
        }
        assert forall|x: int, y: int| 0 <= x < w && 0 <= y < h implies after[
            #[trigger] block_position(base, stride, x, y)
        ] == cdef_pixel(
            taps,
            both,
            tmp,
            tmp_row(y) + x,
            data[block_position(base, stride, x, y)],
        ) by {
            let i = block_position(base, stride, x, y);
            lemma_rows_inside(len, base, stride, w as int, h as int, y);
            if y == m {
                assert(i == at + x);
                assert(before[i] == data[i]) by {
                    assert forall|u: int, v: int| 0 <= u < w && 0 <= v < m implies i
                        != #[trigger] block_position(base, stride, u, v) by {
                    }
                }
                assert(after[i] == row[x]);
            }
        }
        assert forall|i: int|
            0 <= i < data.len() && (forall|x: int, y: int|
                0 <= x < w && 0 <= y < h ==> i != #[trigger] block_position(base, stride, x, y))
            implies #[trigger] after[i] == data[i] by {
            if at <= i < at + w {
                assert(i == block_position(base, stride, i - at, m));
            }
        }
    }
}

} // verus!
