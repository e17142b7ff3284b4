//! What the directional enhancement filter keeps: the range of its inputs, its indifference to pixels that are
//! not available, and its symmetry between dark and bright.
use crate::arith::{max, min};
use crate::cdef::scalar::{
    correction, high, lemma_block_taps, lemma_correction_in_lanes, low, marker,
    marker_contributes_nothing, pixel_or_marker, rows_are_independent, short_of_marker,
    strengths_in_range, taps_available, weights,
};
use crate::cdef::wasm::{
    block_taps, cdef_pixel, cdef_rows, constrain_lane, lane_high, lane_low, lane_total, pri_taps,
    sec_taps, tmp_row, CdefTap,
};
use crate::picture::{block_position, rows_inside};
use vstd::prelude::*;

verus! {

/// Whether each of the taps reaches a pixel.
pub open spec fn no_markers(taps: Seq<CdefTap>, tmp: Seq<i16>, at: int) -> bool {
    forall|n: int| 0 <= n < taps.len() ==> tmp[at + (#[trigger] taps[n]).off] != marker()
}

/// What tap `tap` contributes to the pixel `px`, before it is weighted.
spec fn contribution(tap: CdefTap, tmp: Seq<i16>, at: int, px: int) -> int {
    constrain_lane(tmp[at + tap.off] as int, px, tap.strength as int, (tap.shift % 16) as nat)
}

/// Whether the taps that reach a marker contribute nothing.
spec fn silent(taps: Seq<CdefTap>, tmp: Seq<i16>, at: int, px: int) -> bool {
    forall|n: int|
        0 <= n < taps.len() && tmp[at + (#[trigger] taps[n]).off] == marker() ==> contribution(
            taps[n],
            tmp,
            at,
            px,
        ) == 0
}

/// Whether the weights of the taps are those of a block.
spec fn weights_fit(taps: Seq<CdefTap>, both: bool) -> bool {
    &&& taps.len() <= 12
    &&& forall|n: int| 0 <= n < taps.len() ==> 0 <= (#[trigger] taps[n]).weight <= 4
    &&& !both ==> weights(taps, taps.len()) <= 12
}

proof fn lemma_weights_fit(
    directions: Seq<[i8; 2]>,
    pri_strength: int,
    sec_strength: int,
    dir: int,
    damping: int,
)
    ensures
        weights_fit(
            block_taps(directions, pri_strength, sec_strength, dir, damping),
            pri_strength != 0 && sec_strength != 0,
        ),
{
    let taps = block_taps(directions, pri_strength, sec_strength, dir, damping);
    let pri = pri_taps(directions, pri_strength, dir, damping);
    let sec = sec_taps(directions, sec_strength, dir, damping);
    assert forall|n: int| 0 <= n < taps.len() implies 0 <= (#[trigger] taps[n]).weight <= 4 by {
        if n < pri.len() {
            assert(n == 0 || n == 1 || n == 2 || n == 3);
            assert(taps[n] == pri[n]);
        } else {
            let m = n - pri.len();
            assert(m == 0 || m == 1 || m == 2 || m == 3 || m == 4 || m == 5 || m == 6 || m == 7);
            assert(taps[n] == sec[m]);
        }
    }
    if pri_strength == 0 || sec_strength == 0 {
        reveal_with_fuel(weights, 9);
        if sec_strength == 0 {
            assert(taps =~= pri);
        } else {
            assert(taps =~= sec);
        }
    }
}

proof fn lemma_silent(
    directions: Seq<[i8; 2]>,
    pri_strength: int,
    sec_strength: int,
    dir: int,
    damping: int,
    tmp: Seq<i16>,
    at: int,
    px: int,
)
    requires
        0 <= px <= 255,
        strengths_in_range(pri_strength, sec_strength, damping) || no_markers(
            block_taps(directions, pri_strength, sec_strength, dir, damping),
            tmp,
            at,
        ),
    ensures
        silent(block_taps(directions, pri_strength, sec_strength, dir, damping), tmp, at, px),
{
    let taps = block_taps(directions, pri_strength, sec_strength, dir, damping);
    if strengths_in_range(pri_strength, sec_strength, damping) {
        lemma_block_taps(directions, pri_strength, sec_strength, dir, damping);
        assert forall|n: int|
            0 <= n < taps.len() && tmp[at + (#[trigger] taps[n]).off] == marker() implies contribution(
            taps[n],
            tmp,
            at,
            px,
        ) == 0 by {
            assert(short_of_marker(taps[n]));
            marker_contributes_nothing(px, taps[n]);
        }
    }
}

/// The range of the lanes is that of the available taps.
proof fn lemma_range(taps: Seq<CdefTap>, tmp: Seq<i16>, at: int, px: int, n: nat)
    requires
        n <= taps.len(),
        0 <= px <= 255,
        taps_available(taps, tmp, at),
    ensures
        lane_low(taps, tmp, at, px, n) == low(taps, tmp, at, px, n),
        lane_high(taps, tmp, at, px, n) == high(taps, tmp, at, px, n),
        0 <= low(taps, tmp, at, px, n) <= px <= high(taps, tmp, at, px, n) <= 255,
    decreases n,
{
    if n > 0 {
        lemma_range(taps, tmp, at, px, (n - 1) as nat);
        assert(pixel_or_marker(tmp[at + taps[n - 1].off] as int));
    }
}

/// What the taps contribute does not lead out of their range.
proof fn lemma_total_range(taps: Seq<CdefTap>, both: bool, tmp: Seq<i16>, at: int, px: int, n: nat)
    requires
        n <= taps.len(),
        0 <= px <= 255,
        weights_fit(taps, both),
        taps_available(taps, tmp, at),
        silent(taps, tmp, at, px),
    ensures
        0 <= weights(taps, n) <= 4 * n,
        weights(taps, n) * (low(taps, tmp, at, px, n) - px) <= lane_total(taps, tmp, at, px, n)
            <= weights(taps, n) * (high(taps, tmp, at, px, n) - px),
        -1020 * n <= lane_total(taps, tmp, at, px, n) <= 1020 * n,
    decreases n,
{
    if n > 0 {
        let m = (n - 1) as nat;
        lemma_total_range(taps, both, tmp, at, px, m);
        lemma_range(taps, tmp, at, px, m);
        lemma_range(taps, tmp, at, px, n);
        let tap = taps[n - 1];
        let p = tmp[at + tap.off] as int;
        assert(pixel_or_marker(p));
        let c = contribution(tap, tmp, at, px);
        let w = weights(taps, m);
        let v = tap.weight as int;
        let lo = low(taps, tmp, at, px, n) - px;
        let hi = high(taps, tmp, at, px, n) - px;
        let lo_before = low(taps, tmp, at, px, m) - px;
        let hi_before = high(taps, tmp, at, px, m) - px;
        assert(lo <= c <= hi);
        assert(w * lo <= w * lo_before && w * hi_before <= w * hi) by (nonlinear_arith)
            requires
                0 <= w,
                lo <= lo_before,
                hi_before <= hi,
        ;
        assert(v * lo <= v * c <= v * hi) by (nonlinear_arith)
            requires
                0 <= v,
                lo <= c <= hi,
        ;
        assert((w + v) * lo == w * lo + v * lo && (w + v) * hi == w * hi + v * hi)
            by (nonlinear_arith);
        assert(-1020 <= v * c <= 1020) by (nonlinear_arith)
            requires
                0 <= v <= 4,
                -255 <= c <= 255,
        ;
    } else {
        assert(0 * (low(taps, tmp, at, px, n) - px) == 0 && 0 * (high(taps, tmp, at, px, n) - px) == 0)
            by (nonlinear_arith);
    }
}

/// A correction by what weighs no more than twelve differences stays in their range.
proof fn lemma_correction_range(sum: int, w: int, lo: int, hi: int)
    requires
        0 <= w <= 12,
        lo <= 0 <= hi,
        w * lo <= sum <= w * hi,
    ensures
        lo <= correction(sum) <= hi,
{
    assert(12 * lo <= w * lo && w * hi <= 12 * hi) by (nonlinear_arith)
        requires
            0 <= w <= 12,
            lo <= 0 <= hi,
    ;
}

/// The filtered pixel, where no lane wraps.
spec fn moved_and_limited(taps: Seq<CdefTap>, both: bool, tmp: Seq<i16>, at: int, px: int) -> int {
    let n = taps.len();
    let moved = px + correction(lane_total(taps, tmp, at, px, n));
    if both {
        min(max(moved, low(taps, tmp, at, px, n)), high(taps, tmp, at, px, n))
    } else {
        moved
    }
}

proof fn lemma_no_lane_wraps(taps: Seq<CdefTap>, both: bool, tmp: Seq<i16>, at: int, px: int)
    requires
        0 <= px <= 255,
        weights_fit(taps, both),
        taps_available(taps, tmp, at),
        silent(taps, tmp, at, px),
    ensures
        cdef_pixel(taps, both, tmp, at, px) == moved_and_limited(taps, both, tmp, at, px),
        low(taps, tmp, at, px, taps.len()) <= cdef_pixel(taps, both, tmp, at, px) <= high(
            taps,
            tmp,
            at,
            px,
            taps.len(),
        ),
{
    let n = taps.len();
    let sum = lane_total(taps, tmp, at, px, n);
    lemma_range(taps, tmp, at, px, n);
    lemma_total_range(taps, both, tmp, at, px, n);
    lemma_correction_in_lanes(sum, px);
    if !both {
        lemma_correction_range(
            sum,
            weights(taps, n),
            low(taps, tmp, at, px, n) - px,
            high(taps, tmp, at, px, n) - px,
        );
    }
}

/// The result lies in the range of the pixel and its available neighbours, with one strength as with both. With
/// one alone that wants strengths that do not reach a marker, or no marker.
pub proof fn limited_to_neighbours(
    directions: Seq<[i8; 2]>,
    pri_strength: int,
    sec_strength: int,
    dir: int,
    damping: int,
    tmp: Seq<i16>,
    at: int,
    px: int,
)
    requires
        0 <= px <= 255,
        taps_available(block_taps(directions, pri_strength, sec_strength, dir, damping), tmp, at),
        ({
            ||| pri_strength != 0 && sec_strength != 0
            ||| strengths_in_range(pri_strength, sec_strength, damping)
            ||| no_markers(block_taps(directions, pri_strength, sec_strength, dir, damping), tmp, at)
        }),
    ensures
        ({
            let taps = block_taps(directions, pri_strength, sec_strength, dir, damping);
            low(taps, tmp, at, px, taps.len()) <= cdef_pixel(
                taps,
                pri_strength != 0 && sec_strength != 0,
                tmp,
                at,
                px,
            ) <= high(taps, tmp, at, px, taps.len())
        }),
{
    let taps = block_taps(directions, pri_strength, sec_strength, dir, damping);
    lemma_range(taps, tmp, at, px, taps.len());
    if !(pri_strength != 0 && sec_strength != 0) {
        lemma_weights_fit(directions, pri_strength, sec_strength, dir, damping);
        lemma_silent(directions, pri_strength, sec_strength, dir, damping, tmp, at, px);
        lemma_no_lane_wraps(taps, false, tmp, at, px);
    }
}

proof fn lemma_markers_replaced(
    taps: Seq<CdefTap>,
    tmp: Seq<i16>,
    other: Seq<i16>,
    at: int,
    px: int,
    n: nat,
)
    requires
        n <= taps.len(),
        0 <= px <= 255,
        taps_available(taps, tmp, at),
        silent(taps, tmp, at, px),
        markers_replaced(taps, tmp, other, at, px),
    ensures
        lane_total(taps, other, at, px, n) == lane_total(taps, tmp, at, px, n),
        lane_low(taps, other, at, px, n) == lane_low(taps, tmp, at, px, n),
        lane_high(taps, other, at, px, n) == lane_high(taps, tmp, at, px, n),
    decreases n,
{
    if n > 0 {
        let m = (n - 1) as nat;
        lemma_markers_replaced(taps, tmp, other, at, px, m);
        lemma_range(taps, tmp, at, px, m);
        let tap = taps[n - 1];
        assert(pixel_or_marker(tmp[at + tap.off] as int));
        if tmp[at + tap.off] == marker() {
            assert(contribution(tap, tmp, at, px) == 0);
            assert(other[at + tap.off] == px);
            assert(contribution(tap, other, at, px) == 0);
        }
    }
}

/// Whether the taps reach in `other` what they reach in `tmp`, but `px` in place of a marker.
pub open spec fn markers_replaced(
    taps: Seq<CdefTap>,
    tmp: Seq<i16>,
    other: Seq<i16>,
    at: int,
    px: int,
) -> bool {
    forall|n: int|
        0 <= n < taps.len() ==> other[at + (#[trigger] taps[n]).off] == if tmp[at + taps[n].off]
            == marker() {
            px
        } else {
            tmp[at + taps[n].off] as int
        }
}

/// A marker stands for the pixel itself: replacing it so changes nothing.
pub proof fn markers_stand_for_the_pixel(
    directions: Seq<[i8; 2]>,
    pri_strength: int,
    sec_strength: int,
    dir: int,
    damping: int,
    tmp: Seq<i16>,
    other: Seq<i16>,
    at: int,
    px: int,
)
    requires
        strengths_in_range(pri_strength, sec_strength, damping),
        0 <= px <= 255,
        taps_available(block_taps(directions, pri_strength, sec_strength, dir, damping), tmp, at),
        markers_replaced(
            block_taps(directions, pri_strength, sec_strength, dir, damping),
            tmp,
            other,
            at,
            px,
        ),
    ensures
        ({
            let taps = block_taps(directions, pri_strength, sec_strength, dir, damping);
            let both = pri_strength != 0 && sec_strength != 0;
            cdef_pixel(taps, both, other, at, px) == cdef_pixel(taps, both, tmp, at, px)
        }),
{
    let taps = block_taps(directions, pri_strength, sec_strength, dir, damping);
    lemma_silent(directions, pri_strength, sec_strength, dir, damping, tmp, at, px);
    lemma_markers_replaced(taps, tmp, other, at, px, taps.len());
}

/// Where no tap is available, the pixel stays as it is.
pub proof fn markers_alone_change_nothing(
    directions: Seq<[i8; 2]>,
    pri_strength: int,
    sec_strength: int,
    dir: int,
    damping: int,
    tmp: Seq<i16>,
    at: int,
    px: int,
)
    requires
        strengths_in_range(pri_strength, sec_strength, damping),
        0 <= px <= 255,
        ({
            let taps = block_taps(directions, pri_strength, sec_strength, dir, damping);
            forall|n: int| 0 <= n < taps.len() ==> tmp[at + (#[trigger] taps[n]).off] == marker()
        }),
    ensures
        cdef_pixel(
            block_taps(directions, pri_strength, sec_strength, dir, damping),
            pri_strength != 0 && sec_strength != 0,
            tmp,
            at,
            px,
        ) == px,
{
    let taps = block_taps(directions, pri_strength, sec_strength, dir, damping);
    limited_to_neighbours(directions, pri_strength, sec_strength, dir, damping, tmp, at, px);
    lemma_only_markers(taps, tmp, at, px, taps.len());
}

proof fn lemma_only_markers(taps: Seq<CdefTap>, tmp: Seq<i16>, at: int, px: int, n: nat)
    requires
        n <= taps.len(),
        forall|n: int| 0 <= n < taps.len() ==> tmp[at + (#[trigger] taps[n]).off] == marker(),
    ensures
        low(taps, tmp, at, px, n) == px,
        high(taps, tmp, at, px, n) == px,
    decreases n,
{
    if n > 0 {
        lemma_only_markers(taps, tmp, at, px, (n - 1) as nat);
        assert(tmp[at + taps[n - 1].off] == marker());
    }
}

/// What a tap reaches with dark and bright exchanged. A marker stays one.
pub open spec fn inverted(v: int) -> int {
    if v == marker() {
        v
    } else {
        255 - v
    }
}

/// Whether the taps reach in `other` what they reach in `tmp` with dark and bright exchanged.
pub open spec fn taps_inverted(taps: Seq<CdefTap>, tmp: Seq<i16>, other: Seq<i16>, at: int) -> bool {
    forall|n: int|
        0 <= n < taps.len() ==> other[at + (#[trigger] taps[n]).off] == inverted(
            tmp[at + taps[n].off] as int,
        )
}

proof fn lemma_inverted(
    taps: Seq<CdefTap>,
    tmp: Seq<i16>,
    other: Seq<i16>,
    at: int,
    px: int,
    n: nat,
)
    requires
        n <= taps.len(),
        0 <= px <= 255,
        taps_available(taps, tmp, at),
        silent(taps, tmp, at, px),
        silent(taps, other, at, 255 - px),
        taps_inverted(taps, tmp, other, at),
    ensures
        lane_total(taps, other, at, 255 - px, n) == -lane_total(taps, tmp, at, px, n),
        low(taps, other, at, 255 - px, n) == 255 - high(taps, tmp, at, px, n),
        high(taps, other, at, 255 - px, n) == 255 - low(taps, tmp, at, px, n),
    decreases n,
{
    if n > 0 {
        let m = (n - 1) as nat;
        lemma_inverted(taps, tmp, other, at, px, m);
        let tap = taps[n - 1];
        assert(pixel_or_marker(tmp[at + tap.off] as int));
        assert(other[at + tap.off] == inverted(tmp[at + tap.off] as int));
        let c = contribution(tap, tmp, at, px);
        let d = contribution(tap, other, at, 255 - px);
        assert(d == -c);
        assert(tap.weight * d == -(tap.weight * c)) by (nonlinear_arith)
            requires
                d == -c,
        ;
    }
}

/// Exchanging dark and bright exchanges them in the result. That wants strengths that do not reach a marker, or
/// no marker.
pub proof fn dark_and_bright_are_alike(
    directions: Seq<[i8; 2]>,
    pri_strength: int,
    sec_strength: int,
    dir: int,
    damping: int,
    tmp: Seq<i16>,
    other: Seq<i16>,
    at: int,
    px: int,
)
    requires
        0 <= px <= 255,
        taps_available(block_taps(directions, pri_strength, sec_strength, dir, damping), tmp, at),
        strengths_in_range(pri_strength, sec_strength, damping) || no_markers(
            block_taps(directions, pri_strength, sec_strength, dir, damping),
            tmp,
            at,
        ),
        taps_inverted(
            block_taps(directions, pri_strength, sec_strength, dir, damping),
            tmp,
            other,
            at,
        ),
    ensures
        ({
            let taps = block_taps(directions, pri_strength, sec_strength, dir, damping);
            let both = pri_strength != 0 && sec_strength != 0;
            cdef_pixel(taps, both, other, at, 255 - px) == 255 - cdef_pixel(taps, both, tmp, at, px)
        }),
{
    let taps = block_taps(directions, pri_strength, sec_strength, dir, damping);
    let both = pri_strength != 0 && sec_strength != 0;
    assert forall|n: int| 0 <= n < taps.len() implies pixel_or_marker(
        other[at + (#[trigger] taps[n]).off] as int,
    ) && (other[at + taps[n].off] == marker() ==> tmp[at + taps[n].off] == marker()) by {
        assert(pixel_or_marker(tmp[at + taps[n].off] as int));
    }
    lemma_weights_fit(directions, pri_strength, sec_strength, dir, damping);
    lemma_silent(directions, pri_strength, sec_strength, dir, damping, tmp, at, px);
    lemma_silent(directions, pri_strength, sec_strength, dir, damping, other, at, 255 - px);
    lemma_no_lane_wraps(taps, both, tmp, at, px);
    lemma_no_lane_wraps(taps, both, other, at, 255 - px);
    lemma_inverted(taps, tmp, other, at, px, taps.len());
    lemma_range(taps, tmp, at, px, taps.len());
}

/// A filtered block lies pixel by pixel in the range of the pixel and its available neighbours, where its rows do
/// not overlap.
pub proof fn block_is_limited_to_neighbours(
    data: Seq<int>,
    base: int,
    stride: int,
    tmp: Seq<i16>,
    directions: Seq<[i8; 2]>,
    pri_strength: int,
    sec_strength: int,
    dir: int,
    damping: int,
    w: nat,
    h: nat,
    x: int,
    y: int,
)
    requires
        rows_inside(data.len() as int, base, stride, w as int, h as int),
        stride >= w || stride <= -w,
        0 <= x < w,
        0 <= y < h,
        0 <= data[block_position(base, stride, x, y)] <= 255,
        taps_available(
            block_taps(directions, pri_strength, sec_strength, dir, damping),
            tmp,
            tmp_row(y) + x,
        ),
        ({
            ||| pri_strength != 0 && sec_strength != 0
            ||| strengths_in_range(pri_strength, sec_strength, damping)
            ||| no_markers(
                block_taps(directions, pri_strength, sec_strength, dir, damping),
                tmp,
                tmp_row(y) + x,
            )
        }),
    ensures
        ({
            let taps = block_taps(directions, pri_strength, sec_strength, dir, damping);
            let both = pri_strength != 0 && sec_strength != 0;
            let i = block_position(base, stride, x, y);
            low(taps, tmp, tmp_row(y) + x, data[i], taps.len()) <= cdef_rows(
                data,
                base,
                stride,
                tmp,
                taps,
                both,
                w,
                h,
            )[i] <= high(taps, tmp, tmp_row(y) + x, data[i], taps.len())
        }),
{
    let taps = block_taps(directions, pri_strength, sec_strength, dir, damping);
    let both = pri_strength != 0 && sec_strength != 0;
    let px = data[block_position(base, stride, x, y)];
    rows_are_independent(data, base, stride, tmp, taps, both, w, h);
    limited_to_neighbours(
        directions,
        pri_strength,
        sec_strength,
        dir,
        damping,
        tmp,
        tmp_row(y) + x,
        px,
    );
}

/// In a block whose rows do not overlap, the markers that a pixel meets stand for the pixel itself.
pub proof fn block_markers_stand_for_the_pixel(
    data: Seq<int>,
    base: int,
    stride: int,
    tmp: Seq<i16>,
    other: Seq<i16>,
    directions: Seq<[i8; 2]>,
    pri_strength: int,
    sec_strength: int,
    dir: int,
    damping: int,
    w: nat,
    h: nat,
    x: int,
    y: int,
)
    requires
        rows_inside(data.len() as int, base, stride, w as int, h as int),
        stride >= w || stride <= -w,
        0 <= x < w,
        0 <= y < h,
        strengths_in_range(pri_strength, sec_strength, damping),
        0 <= data[block_position(base, stride, x, y)] <= 255,
        taps_available(
            block_taps(directions, pri_strength, sec_strength, dir, damping),
            tmp,
            tmp_row(y) + x,
        ),
        markers_replaced(
            block_taps(directions, pri_strength, sec_strength, dir, damping),
            tmp,
            other,
            tmp_row(y) + x,
            data[block_position(base, stride, x, y)],
        ),
    ensures
        ({
            let taps = block_taps(directions, pri_strength, sec_strength, dir, damping);
            let both = pri_strength != 0 && sec_strength != 0;
            let i = block_position(base, stride, x, y);
            cdef_rows(data, base, stride, other, taps, both, w, h)[i] == cdef_rows(
                data,
                base,
                stride,
                tmp,
                taps,
                both,
                w,
                h,
            )[i]
        }),
{
    let taps = block_taps(directions, pri_strength, sec_strength, dir, damping);
    let both = pri_strength != 0 && sec_strength != 0;
    rows_are_independent(data, base, stride, tmp, taps, both, w, h);
    rows_are_independent(data, base, stride, other, taps, both, w, h);
    markers_stand_for_the_pixel(
        directions,
        pri_strength,
        sec_strength,
        dir,
        damping,
        tmp,
        other,
        tmp_row(y) + x,
        data[block_position(base, stride, x, y)],
    );
}

/// Exchanging dark and bright in a block whose rows do not overlap, and in what its taps reach, exchanges them in
/// the filtered block.
pub proof fn dark_and_bright_blocks_are_alike(
    data: Seq<int>,
    inverse: Seq<int>,
    base: int,
    stride: int,
    tmp: Seq<i16>,
    other: Seq<i16>,
    directions: Seq<[i8; 2]>,
    pri_strength: int,
    sec_strength: int,
    dir: int,
    damping: int,
    w: nat,
    h: nat,
    x: int,
    y: int,
)
    requires
        rows_inside(data.len() as int, base, stride, w as int, h as int),
        rows_inside(inverse.len() as int, base, stride, w as int, h as int),
        stride >= w || stride <= -w,
        0 <= x < w,
        0 <= y < h,
        0 <= data[block_position(base, stride, x, y)] <= 255,
        inverse[block_position(base, stride, x, y)] == 255 - data[block_position(base, stride, x, y)],
        taps_available(
            block_taps(directions, pri_strength, sec_strength, dir, damping),
            tmp,
            tmp_row(y) + x,
        ),
        strengths_in_range(pri_strength, sec_strength, damping) || no_markers(
            block_taps(directions, pri_strength, sec_strength, dir, damping),
            tmp,
            tmp_row(y) + x,
        ),
        taps_inverted(
            block_taps(directions, pri_strength, sec_strength, dir, damping),
            tmp,
            other,
            tmp_row(y) + x,
        ),
    ensures
        ({
            let taps = block_taps(directions, pri_strength, sec_strength, dir, damping);
            let both = pri_strength != 0 && sec_strength != 0;
            let i = block_position(base, stride, x, y);
            cdef_rows(inverse, base, stride, other, taps, both, w, h)[i] == 255 - cdef_rows(
                data,
                base,
                stride,
                tmp,
                taps,
                both,
                w,
                h,
            )[i]
        }),
{
    let taps = block_taps(directions, pri_strength, sec_strength, dir, damping);
    let both = pri_strength != 0 && sec_strength != 0;
    rows_are_independent(data, base, stride, tmp, taps, both, w, h);
    rows_are_independent(inverse, base, stride, other, taps, both, w, h);
    dark_and_bright_are_alike(
        directions,
        pri_strength,
        sec_strength,
        dir,
        damping,
        tmp,
        other,
        tmp_row(y) + x,
        data[block_position(base, stride, x, y)],
    );
}

} // verus!
