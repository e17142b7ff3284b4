//! What the directional enhancement filter computes for a pixel, in terms of the cells of the padded block that it
//! reaches.
use crate::arith::{lemma_pow2_values, wrap16};
use crate::bitdepth::bit_length;
use crate::cdef::scalar::{
    constrain, correction, filtered, high, lanes_are_exact, lemma_correction_in_lanes, low, marker,
    pixel_or_marker, rows_are_independent, taps_available, total,
};
use crate::cdef::wasm::{
    block_taps, cdef_pixel, cdef_rows, constrain_lane, lane_high, lane_low, lane_total,
    lemma_shr_bounds, pri_taps, sec_taps, tmp_row, CdefTap,
};
use crate::picture::block_position;
use vstd::arithmetic::power2::{lemma2_to64, lemma_pow2_pos, lemma_pow2_unfold, pow2};
use vstd::prelude::*;

verus! {

/// The length of a number is the number of halvings after which nothing is left of it.
pub proof fn bit_length_is_between_powers(x: nat, log: nat)
    requires
        pow2(log) <= x < pow2(log + 1),
    ensures
        bit_length(x) == log + 1,
    decreases log,
{
    lemma2_to64();
    lemma_pow2_unfold(log + 1);
    lemma_pow2_pos(log);
    if log == 0 {
        assert(x == 1);
        reveal_with_fuel(bit_length, 3);
    } else {
        lemma_pow2_unfold(log);
        bit_length_is_between_powers(x / 2, (log - 1) as nat);
    }
}

/// What a cell contributes to a pixel: its difference to the pixel, limited to what is left of the strength once
/// the difference, divided by a power of two, is taken off it.
#[verifier::opaque]
pub open spec fn contribution(p: int, px: int, strength: int, shift: nat) -> int {
    let d = if p < px {
        px - p
    } else {
        p - px
    };
    let room = strength - d / (pow2(shift) as int);
    let m = if room < 0 {
        0
    } else if d < room {
        d
    } else {
        room
    };
    if p < px {
        -m
    } else {
        m
    }
}

/// A contribution moves towards the cell, no further than it is away nor than the strength allows; it is the whole
/// difference where the strength has that much room left, and nothing where it has none.
pub proof fn contribution_moves_towards_the_cell(p: int, px: int, strength: int, shift: nat)
    requires
        0 <= strength,
    ensures
        p >= px ==> 0 <= contribution(p, px, strength, shift) <= p - px,
        p <= px ==> p - px <= contribution(p, px, strength, shift) <= 0,
        contribution(px - (p - px), px, strength, shift) == -contribution(p, px, strength, shift),
        p >= px && strength * pow2(shift) >= (p - px) * (pow2(shift) + 1) ==> contribution(
            p,
            px,
            strength,
            shift,
        ) == p - px,
        p >= px && strength * pow2(shift) <= p - px ==> contribution(p, px, strength, shift) == 0,
{
    reveal(contribution);
    lemma_pow2_pos(shift);
    let d = p - px;
    let n = pow2(shift) as int;
    if d >= 0 {
        vstd::arithmetic::div_mod::lemma_fundamental_div_mod(d, n);
        vstd::arithmetic::div_mod::lemma_mod_bound(d, n);
        let q = d / n;
        if strength * n <= d {
            assert(strength <= q) by (nonlinear_arith)
                requires
                    strength * n <= n * q + d % n,
                    0 <= d % n < n,
                    n > 0,
            ;
        }
        if strength * n >= d * (n + 1) {
            assert(strength - q >= d) by (nonlinear_arith)
                requires
                    strength * n >= d * (n + 1),
                    d == n * q + d % n,
                    0 <= d % n,
                    n > 0,
            ;
        }
        assert(q >= 0) by (nonlinear_arith)
            requires
                d == n * q + d % n,
                d % n < n,
                d >= 0,
                n > 0,
        ;
    }
    if d < 0 {
        vstd::arithmetic::div_mod::lemma_div_pos_is_pos(-d, n);
    }
}

proof fn lemma_contribution(p: int, px: int, strength: int, shift: nat)
    ensures
        contribution(p, px, strength, shift) == constrain(p - px, strength, shift),
{
    reveal(contribution);
}

proof fn lemma_times(weight: int, c: int)
    ensures
        weight == 1 ==> weight * c == c,
        weight == 2 ==> weight * c == 2 * c,
        weight == 3 ==> weight * c == 3 * c,
        weight == 4 ==> weight * c == 4 * c,
{
    assert(weight == 1 ==> weight * c == c) by (nonlinear_arith);
    assert(weight == 2 ==> weight * c == 2 * c) by (nonlinear_arith);
    assert(weight == 3 ==> weight * c == 3 * c) by (nonlinear_arith);
    assert(weight == 4 ==> weight * c == 4 * c) by (nonlinear_arith);
}

/// Adds tap `n` to the sum of the taps before it.
proof fn lemma_next(
    taps: Seq<CdefTap>,
    tmp: Seq<i16>,
    at: int,
    px: int,
    n: nat,
    off: int,
    weight: int,
    strength: int,
    shift: int,
)
    requires
        n < taps.len(),
        taps[n as int].off == off,
        taps[n as int].weight == weight,
        taps[n as int].strength == strength,
        taps[n as int].shift == shift,
        1 <= weight <= 4,
        0 <= shift,
    ensures
        ({
            let c = contribution(tmp[at + off] as int, px, strength, shift as nat);
            &&& weight == 1 ==> total(taps, tmp, at, px, n + 1) == total(taps, tmp, at, px, n) + c
            &&& weight == 2 ==> total(taps, tmp, at, px, n + 1) == total(taps, tmp, at, px, n) + 2 * c
            &&& weight == 3 ==> total(taps, tmp, at, px, n + 1) == total(taps, tmp, at, px, n) + 3 * c
            &&& weight == 4 ==> total(taps, tmp, at, px, n + 1) == total(taps, tmp, at, px, n) + 4 * c
        }),
{
    lemma_contribution(tmp[at + off] as int, px, strength, shift as nat);
    lemma_times(weight, contribution(tmp[at + off] as int, px, strength, shift as nat));
}

proof fn lemma_pixel_of_block(
    data: Seq<int>,
    base: int,
    stride: int,
    tmp: Seq<i16>,
    taps: Seq<CdefTap>,
    both: bool,
    w: nat,
    h: nat,
    x: int,
    y: int,
)
    requires
        0 <= base,
        base + w <= data.len(),
        0 <= base + (h - 1) * stride,
        base + (h - 1) * stride + w <= data.len(),
        stride >= w || stride <= -w,
        0 <= x < w,
        0 <= y < h,
    ensures
        cdef_rows(data, base, stride, tmp, taps, both, w, h)[base + y * stride + x] == cdef_pixel(
            taps,
            both,
            tmp,
            12 * (y + 2) + 2 + x,
            data[base + y * stride + x],
        ),
{
    rows_are_independent(data, base, stride, tmp, taps, both, w, h);
    assert(cdef_rows(data, base, stride, tmp, taps, both, w, h)[block_position(base, stride, x, y)]
        == cdef_pixel(taps, both, tmp, tmp_row(y) + x, data[block_position(base, stride, x, y)]));
}

/// What the two cells `off` to either side of the pixel contribute.
#[verifier::opaque]
pub open spec fn pair(tmp: Seq<i16>, at: int, off: int, px: int, strength: int, shift: nat) -> int {
    contribution(tmp[at + off] as int, px, strength, shift) + contribution(
        tmp[at - off] as int,
        px,
        strength,
        shift,
    )
}

/// Whether a cell holds a pixel, or the mark of a pixel that is not available.
pub open spec fn usable(v: int) -> bool {
    0 <= v <= 255 || v == -0x8000
}

/// Whether the four cells on the line of the direction `d` are usable.
pub open spec fn usable_along(tmp: Seq<i16>, at: int, d: Seq<i8>) -> bool {
    usable(tmp[at + d[0]] as int) && usable(tmp[at - d[0]] as int) && usable(tmp[at + d[1]] as int)
        && usable(tmp[at - d[1]] as int)
}

/// Whether `v` is in one of the four cells on the line of the direction `d`.
pub open spec fn found_along(tmp: Seq<i16>, at: int, d: Seq<i8>, v: int) -> bool {
    v == tmp[at + d[0]] || v == tmp[at - d[0]] || v == tmp[at + d[1]] || v == tmp[at - d[1]]
}

/// A sixteenth, rounded to the nearest, with halves rounded away from zero.
pub open spec fn sixteenth(sum: int) -> int {
    if sum < 0 {
        -((8 - sum) / 16)
    } else {
        (sum + 8) / 16
    }
}

/// What the shift of a strength is, whose logarithm is `log`: what is left of the damping.
pub open spec fn left_of(damping: int, log: nat) -> nat {
    if damping > log {
        (damping - log) as nat
    } else {
        0
    }
}

proof fn lemma_pair(
    taps: Seq<CdefTap>,
    tmp: Seq<i16>,
    at: int,
    px: int,
    n: nat,
    off: int,
    weight: int,
    strength: int,
    shift: nat,
)
    requires
        n + 1 < taps.len(),
        taps[n as int].off == off,
        taps[n as int + 1].off == -off,
        taps[n as int].weight == weight,
        taps[n as int + 1].weight == weight,
        taps[n as int].strength == strength,
        taps[n as int + 1].strength == strength,
        taps[n as int].shift == shift,
        taps[n as int + 1].shift == shift,
        1 <= weight <= 4,
    ensures
        ({
            let c = pair(tmp, at, off, px, strength, shift);
            let t = total(taps, tmp, at, px, n);
            &&& weight == 1 ==> total(taps, tmp, at, px, n + 2) == t + c
            &&& weight == 2 ==> total(taps, tmp, at, px, n + 2) == t + 2 * c
            &&& weight == 3 ==> total(taps, tmp, at, px, n + 2) == t + 3 * c
            &&& weight == 4 ==> total(taps, tmp, at, px, n + 2) == t + 4 * c
        }),
{
    reveal(pair);
    lemma_next(taps, tmp, at, px, n, off, weight, strength, shift as int);
    lemma_next(taps, tmp, at, px, n + 1, -off, weight, strength, shift as int);
}

proof fn lemma_same_strength(a: i16, b: int)
    requires
        (a - b) % 0x1_0000 == 0,
        0 <= b <= 0x7fff,
    ensures
        a == b,
{
}

proof fn lemma_same_shift(a: u32, b: int)
    requires
        (a - b) % 0x1_0000_0000 == 0,
        0 <= b <= 0x7fff,
    ensures
        a == b,
{
}

/// The taps with numbers `2 * k` and `2 * k + 1` of the primary ones.
proof fn lemma_primary_pair(
    directions: Seq<[i8; 2]>,
    pri_strength: int,
    pri_log: nat,
    sec_strength: int,
    sec_log: nat,
    dir: int,
    damping: int,
    k: int,
)
    requires
        0 < pri_strength <= 0x7fff,
        pow2(pri_log) <= pri_strength < pow2(pri_log + 1),
        0 <= sec_strength <= 0x7fff,
        sec_strength > 0 ==> pow2(sec_log) <= sec_strength < pow2(sec_log + 1),
        damping <= 14,
        0 <= k < 2,
    ensures
        ({
            let taps = block_taps(directions, pri_strength, sec_strength, dir, damping);
            let (a, b) = (taps[2 * k], taps[2 * k + 1]);
            let weight = if pri_strength % 2 == 1 {
                3int
            } else {
                4 - 2 * k
            };
            &&& taps.len() == if sec_strength > 0 {
                12int
            } else {
                4int
            }
            &&& a.off == directions[dir + 2]@[k]
            &&& b.off == -a.off
            &&& a.weight == weight && b.weight == weight
            &&& a.strength == pri_strength && b.strength == pri_strength
            &&& a.shift == left_of(damping, pri_log) && b.shift == left_of(damping, pri_log)
        }),
{
    if k == 0 {
        taps_carry_offset_weight_strength_and_shift(
            directions,
            pri_strength,
            pri_log,
            sec_strength,
            sec_log,
            dir,
            damping,
            0,
        );
        taps_carry_offset_weight_strength_and_shift(
            directions,
            pri_strength,
            pri_log,
            sec_strength,
            sec_log,
            dir,
            damping,
            1,
        );
    } else {
        taps_carry_offset_weight_strength_and_shift(
            directions,
            pri_strength,
            pri_log,
            sec_strength,
            sec_log,
            dir,
            damping,
            2,
        );
        taps_carry_offset_weight_strength_and_shift(
            directions,
            pri_strength,
            pri_log,
            sec_strength,
            sec_log,
            dir,
            damping,
            3,
        );
    }
    let taps = block_taps(directions, pri_strength, sec_strength, dir, damping);
    lemma_same_strength(taps[2 * k].strength, pri_strength);
    lemma_same_strength(taps[2 * k + 1].strength, pri_strength);
}

/// The taps with numbers `2 * k` and `2 * k + 1` of the secondary ones.
proof fn lemma_secondary_pair(
    directions: Seq<[i8; 2]>,
    pri_strength: int,
    pri_log: nat,
    sec_strength: int,
    sec_log: nat,
    dir: int,
    damping: int,
    k: int,
)
    requires
        0 <= pri_strength <= 0x7fff,
        pri_strength > 0 ==> pow2(pri_log) <= pri_strength < pow2(pri_log + 1),
        0 < sec_strength <= 0x7fff,
        pow2(sec_log) <= sec_strength < pow2(sec_log + 1),
        sec_log <= damping <= 14,
        0 <= k < 4,
    ensures
        ({
            let taps = block_taps(directions, pri_strength, sec_strength, dir, damping);
            let n = if pri_strength > 0 {
                4int
            } else {
                0int
            };
            let (a, b) = (taps[n + 2 * k], taps[n + 2 * k + 1]);
            let side = if k % 2 == 0 {
                directions[dir + 4]@
            } else {
                directions[dir]@
            };
            &&& taps.len() == n + 8
            &&& a.off == side[k / 2]
            &&& b.off == -a.off
            &&& a.weight == 2 - k / 2 && b.weight == 2 - k / 2
            &&& a.strength == sec_strength && b.strength == sec_strength
            &&& a.shift == left_of(damping, sec_log) && b.shift == left_of(damping, sec_log)
        }),
{
    if k == 0 {
        taps_carry_offset_weight_strength_and_shift(
            directions,
            pri_strength,
            pri_log,
            sec_strength,
            sec_log,
            dir,
            damping,
            0,
        );
        taps_carry_offset_weight_strength_and_shift(
            directions,
            pri_strength,
            pri_log,
            sec_strength,
            sec_log,
            dir,
            damping,
            1,
        );
    } else if k == 1 {
        taps_carry_offset_weight_strength_and_shift(
            directions,
            pri_strength,
            pri_log,
            sec_strength,
            sec_log,
            dir,
            damping,
            2,
        );
        taps_carry_offset_weight_strength_and_shift(
            directions,
            pri_strength,
            pri_log,
            sec_strength,
            sec_log,
            dir,
            damping,
            3,
        );
    } else if k == 2 {
        taps_carry_offset_weight_strength_and_shift(
            directions,
            pri_strength,
            pri_log,
            sec_strength,
            sec_log,
            dir,
            damping,
            4,
        );
        taps_carry_offset_weight_strength_and_shift(
            directions,
            pri_strength,
            pri_log,
            sec_strength,
            sec_log,
            dir,
            damping,
            5,
        );
    } else {
        taps_carry_offset_weight_strength_and_shift(
            directions,
            pri_strength,
            pri_log,
            sec_strength,
            sec_log,
            dir,
            damping,
            6,
        );
        taps_carry_offset_weight_strength_and_shift(
            directions,
            pri_strength,
            pri_log,
            sec_strength,
            sec_log,
            dir,
            damping,
            7,
        );
    }
    let taps = block_taps(directions, pri_strength, sec_strength, dir, damping);
    let n = if pri_strength > 0 {
        4int
    } else {
        0int
    };
    lemma_same_strength(taps[n + 2 * k].strength, sec_strength);
    lemma_same_strength(taps[n + 2 * k + 1].strength, sec_strength);
    lemma_same_shift(taps[n + 2 * k].shift, damping - sec_log);
    lemma_same_shift(taps[n + 2 * k + 1].shift, damping - sec_log);
}

/// What the primary taps contribute, where the first pair contributes `inner` and the second `outer`.
pub open spec fn primary_sum(strength: int, inner: int, outer: int) -> int {
    if strength % 2 == 1 {
        3 * inner + 3 * outer
    } else {
        4 * inner + 2 * outer
    }
}

proof fn lemma_primary_sum(
    directions: Seq<[i8; 2]>,
    pri_strength: int,
    pri_log: nat,
    sec_strength: int,
    sec_log: nat,
    dir: int,
    damping: int,
    tmp: Seq<i16>,
    at: int,
    px: int,
)
    requires
        0 < pri_strength <= 0x7fff,
        pow2(pri_log) <= pri_strength < pow2(pri_log + 1),
        0 <= sec_strength <= 0x7fff,
        sec_strength > 0 ==> pow2(sec_log) <= sec_strength < pow2(sec_log + 1),
        damping <= 14,
    ensures
        ({
            let d = directions[dir + 2]@;
            let shift = left_of(damping, pri_log);
            total(block_taps(directions, pri_strength, sec_strength, dir, damping), tmp, at, px, 4)
                == primary_sum(
                pri_strength,
                pair(tmp, at, d[0] as int, px, pri_strength, shift),
                pair(tmp, at, d[1] as int, px, pri_strength, shift),
            )
        }),
{
    let taps = block_taps(directions, pri_strength, sec_strength, dir, damping);
    let d = directions[dir + 2]@;
    let shift = left_of(damping, pri_log);
    let (near, far) = if pri_strength % 2 == 1 {
        (3int, 3int)
    } else {
        (4int, 2int)
    };
    lemma_primary_pair(directions, pri_strength, pri_log, sec_strength, sec_log, dir, damping, 0);
    lemma_primary_pair(directions, pri_strength, pri_log, sec_strength, sec_log, dir, damping, 1);
    lemma_pair(taps, tmp, at, px, 0, d[0] as int, near, pri_strength, shift);
    lemma_pair(taps, tmp, at, px, 2, d[1] as int, far, pri_strength, shift);
    assert(total(taps, tmp, at, px, 0) == 0);
}

proof fn lemma_secondary_sum(
    directions: Seq<[i8; 2]>,
    pri_strength: int,
    pri_log: nat,
    sec_strength: int,
    sec_log: nat,
    dir: int,
    damping: int,
    tmp: Seq<i16>,
    at: int,
    px: int,
)
    requires
        0 <= pri_strength <= 0x7fff,
        pri_strength > 0 ==> pow2(pri_log) <= pri_strength < pow2(pri_log + 1),
        0 < sec_strength <= 0x7fff,
        pow2(sec_log) <= sec_strength < pow2(sec_log + 1),
        sec_log <= damping <= 14,
    ensures
        ({
            let taps = block_taps(directions, pri_strength, sec_strength, dir, damping);
            let n = if pri_strength > 0 {
                4nat
            } else {
                0nat
            };
            let (d, e) = (directions[dir + 4]@, directions[dir]@);
            let shift = left_of(damping, sec_log);
            let inner = pair(tmp, at, d[0] as int, px, sec_strength, shift) + pair(
                tmp,
                at,
                e[0] as int,
                px,
                sec_strength,
                shift,
            );
            let outer = pair(tmp, at, d[1] as int, px, sec_strength, shift) + pair(
                tmp,
                at,
                e[1] as int,
                px,
                sec_strength,
                shift,
            );
            total(taps, tmp, at, px, n + 8) == total(taps, tmp, at, px, n) + 2 * inner + outer
        }),
{
    let taps = block_taps(directions, pri_strength, sec_strength, dir, damping);
    let n = if pri_strength > 0 {
        4nat
    } else {
        0nat
    };
    let (d, e) = (directions[dir + 4]@, directions[dir]@);
    let shift = left_of(damping, sec_log);
    lemma_secondary_pair(directions, pri_strength, pri_log, sec_strength, sec_log, dir, damping, 0);
    lemma_secondary_pair(directions, pri_strength, pri_log, sec_strength, sec_log, dir, damping, 1);
    lemma_secondary_pair(directions, pri_strength, pri_log, sec_strength, sec_log, dir, damping, 2);
    lemma_secondary_pair(directions, pri_strength, pri_log, sec_strength, sec_log, dir, damping, 3);
    lemma_pair(taps, tmp, at, px, n, d[0] as int, 2, sec_strength, shift);
    lemma_pair(taps, tmp, at, px, n + 2, e[0] as int, 2, sec_strength, shift);
    lemma_pair(taps, tmp, at, px, n + 4, d[1] as int, 1, sec_strength, shift);
    lemma_pair(taps, tmp, at, px, n + 6, e[1] as int, 1, sec_strength, shift);
}

/// The offsets of the taps, whatever the strengths.
proof fn lemma_offsets(
    directions: Seq<[i8; 2]>,
    pri_strength: int,
    sec_strength: int,
    dir: int,
    damping: int,
    k: int,
)
    requires
        0 <= k < block_taps(directions, pri_strength, sec_strength, dir, damping).len(),
    ensures
        ({
            let taps = block_taps(directions, pri_strength, sec_strength, dir, damping);
            let off = taps[k].off as int;
            ||| pri_strength != 0 && lies_along(directions[dir + 2]@, off)
            ||| sec_strength != 0 && lies_along(directions[dir + 4]@, off)
            ||| sec_strength != 0 && lies_along(directions[dir]@, off)
        }),
{
    let pri = pri_taps(directions, pri_strength, dir, damping);
    if k < pri.len() {
        assert(k == 0 || k == 1 || k == 2 || k == 3);
    } else {
        let m = k - pri.len();
        assert(m == 0 || m == 1 || m == 2 || m == 3 || m == 4 || m == 5 || m == 6 || m == 7);
    }
}

/// Whether a cell `off` away from the pixel lies on the line of the direction `d`.
pub open spec fn lies_along(d: Seq<i8>, off: int) -> bool {
    off == d[0] || off == -d[0] || off == d[1] || off == -d[1]
}

/// Each direction that takes part has a tap in each of its four cells.
proof fn lemma_cell_has_a_tap(
    directions: Seq<[i8; 2]>,
    pri_strength: int,
    sec_strength: int,
    dir: int,
    damping: int,
    off: int,
) -> (k: int)
    requires
        pri_strength > 0,
        sec_strength > 0,
        lies_along(directions[dir + 2]@, off) || lies_along(directions[dir + 4]@, off) || lies_along(
            directions[dir]@,
            off,
        ),
    ensures
        ({
            let taps = block_taps(directions, pri_strength, sec_strength, dir, damping);
            0 <= k < 12 && taps.len() == 12 && taps[k].off == off
        }),
{
    let taps = block_taps(directions, pri_strength, sec_strength, dir, damping);
    let (p, d, e) = (directions[dir + 2]@, directions[dir + 4]@, directions[dir]@);
    let pri = pri_taps(directions, pri_strength, dir, damping);
    assert(pri.len() == 4);
    assert(taps[0].off == p[0] && taps[1].off == -p[0] && taps[2].off == p[1] && taps[3].off == -p[1]);
    assert(taps[4].off == d[0] && taps[5].off == -d[0] && taps[6].off == e[0] && taps[7].off == -e[0]);
    assert(taps[8].off == d[1] && taps[9].off == -d[1] && taps[10].off == e[1] && taps[11].off == -e[1]);
    if off == p[0] {
        0
    } else if off == -p[0] {
        1
    } else if off == p[1] {
        2
    } else if off == -p[1] {
        3
    } else if off == d[0] {
        4
    } else if off == -d[0] {
        5
    } else if off == e[0] {
        6
    } else if off == -e[0] {
        7
    } else if off == d[1] {
        8
    } else if off == -d[1] {
        9
    } else if off == e[1] {
        10
    } else {
        11
    }
}

proof fn lemma_available(
    directions: Seq<[i8; 2]>,
    pri_strength: int,
    sec_strength: int,
    dir: int,
    damping: int,
    tmp: Seq<i16>,
    at: int,
)
    requires
        pri_strength != 0 ==> usable_along(tmp, at, directions[dir + 2]@),
        sec_strength != 0 ==> usable_along(tmp, at, directions[dir + 4]@),
        sec_strength != 0 ==> usable_along(tmp, at, directions[dir]@),
    ensures
        taps_available(block_taps(directions, pri_strength, sec_strength, dir, damping), tmp, at),
{
    let taps = block_taps(directions, pri_strength, sec_strength, dir, damping);
    assert forall|n: int| 0 <= n < taps.len() implies pixel_or_marker(
        tmp[at + (#[trigger] taps[n]).off] as int,
    ) by {
        lemma_offsets(directions, pri_strength, sec_strength, dir, damping, n);
        lemma_usable(tmp, at, directions[dir + 2]@, taps[n].off as int);
        lemma_usable(tmp, at, directions[dir + 4]@, taps[n].off as int);
        lemma_usable(tmp, at, directions[dir]@, taps[n].off as int);
    }
}

proof fn lemma_usable(tmp: Seq<i16>, at: int, d: Seq<i8>, off: int)
    ensures
        usable_along(tmp, at, d) && lies_along(d, off) ==> pixel_or_marker(tmp[at + off] as int),
{
}

/// With the primary strength alone, a pixel moves by a sixteenth, rounded to the nearest, of what the four cells on
/// the line of the direction contribute: those one step away with weight four, or three where the strength is
/// odd, and those two steps away with weight two, or three. A cell contributes its difference to the pixel,
/// limited to what is left of the strength once a part of the difference is taken off it.
pub proof fn primary_taps_lie_along_the_direction(
    data: Seq<int>,
    base: int,
    stride: int,
    tmp: Seq<i16>,
    directions: Seq<[i8; 2]>,
    strength: int,
    log: nat,
    dir: int,
    damping: int,
    w: nat,
    h: nat,
    x: int,
    y: int,
)
    requires
        0 <= base,
        base + w <= data.len(),
        0 <= base + (h - 1) * stride,
        base + (h - 1) * stride + w <= data.len(),
        stride >= w || stride <= -w,
        0 <= x < w,
        0 <= y < h,
        0 <= data[base + y * stride + x] <= 255,
        0 < strength <= 0x7fff,
        pow2(log) <= strength < pow2(log + 1),
        damping <= 14,
        usable_along(tmp, 12 * (y + 2) + 2 + x, directions[dir + 2]@),
    ensures
        ({
            let at = 12 * (y + 2) + 2 + x;
            let px = data[base + y * stride + x];
            let d = directions[dir + 2]@;
            let shift = if damping > log {
                (damping - log) as nat
            } else {
                0
            };
            let inner = pair(tmp, at, d[0] as int, px, strength, shift);
            let outer = pair(tmp, at, d[1] as int, px, strength, shift);
            let sum = if strength % 2 == 1 {
                3 * inner + 3 * outer
            } else {
                4 * inner + 2 * outer
            };
            let taps = block_taps(directions, strength, 0, dir, damping);
            cdef_rows(data, base, stride, tmp, taps, false, w, h)[base + y * stride + x] == px + sixteenth(
                sum,
            )
        }),
{
    let taps = block_taps(directions, strength, 0, dir, damping);
    let at = 12 * (y + 2) + 2 + x;
    let px = data[base + y * stride + x];
    lemma_pixel_of_block(data, base, stride, tmp, taps, false, w, h, x, y);
    lemma_primary_pixel(directions, strength, log, dir, damping, tmp, at, px);
}

proof fn lemma_primary_pixel(
    directions: Seq<[i8; 2]>,
    strength: int,
    log: nat,
    dir: int,
    damping: int,
    tmp: Seq<i16>,
    at: int,
    px: int,
)
    requires
        0 <= px <= 255,
        0 < strength <= 0x7fff,
        pow2(log) <= strength < pow2(log + 1),
        damping <= 14,
        usable_along(tmp, at, directions[dir + 2]@),
    ensures
        ({
            let d = directions[dir + 2]@;
            let shift = left_of(damping, log);
            cdef_pixel(block_taps(directions, strength, 0, dir, damping), false, tmp, at, px) == px
                + sixteenth(
                primary_sum(
                    strength,
                    pair(tmp, at, d[0] as int, px, strength, shift),
                    pair(tmp, at, d[1] as int, px, strength, shift),
                ),
            )
        }),
{
    lemma_primary_pair(directions, strength, log, 0, 0, dir, damping, 0);
    lemma_primary_sum(directions, strength, log, 0, 0, dir, damping, tmp, at, px);
    lemma_available(directions, strength, 0, dir, damping, tmp, at);
    lanes_are_exact(directions, strength, 0, dir, damping, tmp, at, px);
    lemma_sixteenth(total(block_taps(directions, strength, 0, dir, damping), tmp, at, px, 4));
}

proof fn lemma_sixteenth(sum: int)
    ensures
        correction(sum) == sixteenth(sum),
{
}

/// With the secondary strength alone, a pixel moves by a sixteenth, rounded to the nearest, of what the eight cells
/// on the two lines across the direction contribute: those one step away with weight two, and those two steps
/// away with weight one.
pub proof fn secondary_taps_lie_across_the_direction(
    data: Seq<int>,
    base: int,
    stride: int,
    tmp: Seq<i16>,
    directions: Seq<[i8; 2]>,
    strength: int,
    log: nat,
    dir: int,
    damping: int,
    w: nat,
    h: nat,
    x: int,
    y: int,
)
    requires
        0 <= base,
        base + w <= data.len(),
        0 <= base + (h - 1) * stride,
        base + (h - 1) * stride + w <= data.len(),
        stride >= w || stride <= -w,
        0 <= x < w,
        0 <= y < h,
        0 <= data[base + y * stride + x] <= 255,
        0 < strength <= 0x7fff,
        pow2(log) <= strength < pow2(log + 1),
        log <= damping <= 14,
        usable_along(tmp, 12 * (y + 2) + 2 + x, directions[dir + 4]@),
        usable_along(tmp, 12 * (y + 2) + 2 + x, directions[dir]@),
    ensures
        ({
            let at = 12 * (y + 2) + 2 + x;
            let px = data[base + y * stride + x];
            let (d, e) = (directions[dir + 4]@, directions[dir]@);
            let shift = (damping - log) as nat;
            let inner = pair(tmp, at, d[0] as int, px, strength, shift) + pair(
                tmp,
                at,
                e[0] as int,
                px,
                strength,
                shift,
            );
            let outer = pair(tmp, at, d[1] as int, px, strength, shift) + pair(
                tmp,
                at,
                e[1] as int,
                px,
                strength,
                shift,
            );
            let taps = block_taps(directions, 0, strength, dir, damping);
            cdef_rows(data, base, stride, tmp, taps, false, w, h)[base + y * stride + x] == px + sixteenth(
                2 * inner + outer,
            )
        }),
{
    let taps = block_taps(directions, 0, strength, dir, damping);
    let at = 12 * (y + 2) + 2 + x;
    let px = data[base + y * stride + x];
    lemma_pixel_of_block(data, base, stride, tmp, taps, false, w, h, x, y);
    lemma_secondary_pixel(directions, strength, log, dir, damping, tmp, at, px);
}

proof fn lemma_secondary_pixel(
    directions: Seq<[i8; 2]>,
    strength: int,
    log: nat,
    dir: int,
    damping: int,
    tmp: Seq<i16>,
    at: int,
    px: int,
)
    requires
        0 <= px <= 255,
        0 < strength <= 0x7fff,
        pow2(log) <= strength < pow2(log + 1),
        log <= damping <= 14,
        usable_along(tmp, at, directions[dir + 4]@),
        usable_along(tmp, at, directions[dir]@),
    ensures
        ({
            let (d, e) = (directions[dir + 4]@, directions[dir]@);
            let shift = left_of(damping, log);
            let inner = pair(tmp, at, d[0] as int, px, strength, shift) + pair(
                tmp,
                at,
                e[0] as int,
                px,
                strength,
                shift,
            );
            let outer = pair(tmp, at, d[1] as int, px, strength, shift) + pair(
                tmp,
                at,
                e[1] as int,
                px,
                strength,
                shift,
            );
            cdef_pixel(block_taps(directions, 0, strength, dir, damping), false, tmp, at, px) == px
                + sixteenth(2 * inner + outer)
        }),
{
    let taps = block_taps(directions, 0, strength, dir, damping);
    bit_length_is_between_powers(strength as nat, log);
    lemma_secondary_pair(directions, 0, 0, strength, log, dir, damping, 0);
    lemma_secondary_sum(directions, 0, 0, strength, log, dir, damping, tmp, at, px);
    lemma_available(directions, 0, strength, dir, damping, tmp, at);
    lanes_are_exact(directions, 0, strength, dir, damping, tmp, at, px);
    assert(total(taps, tmp, at, px, 0) == 0);
    lemma_sixteenth(total(taps, tmp, at, px, 8));
}

/// Whether `v` is the pixel or in one of the cells that the twelve taps reach and that are available.
pub open spec fn reached(directions: Seq<[i8; 2]>, dir: int, tmp: Seq<i16>, at: int, px: int, v: int) -> bool {
    v == px || v != -0x8000 && (found_along(tmp, at, directions[dir + 2]@, v) || found_along(
        tmp,
        at,
        directions[dir + 4]@,
        v,
    ) || found_along(tmp, at, directions[dir]@, v))
}

/// Whether `lo` and `hi` are the smallest and the largest that is reached.
pub open spec fn ends_of_reach(
    directions: Seq<[i8; 2]>,
    dir: int,
    tmp: Seq<i16>,
    at: int,
    px: int,
    lo: int,
    hi: int,
) -> bool {
    &&& reached(directions, dir, tmp, at, px, lo)
    &&& reached(directions, dir, tmp, at, px, hi)
    &&& forall|v: int| #[trigger] reached(directions, dir, tmp, at, px, v) ==> lo <= v <= hi
}

proof fn lemma_found(tmp: Seq<i16>, at: int, d: Seq<i8>, off: int)
    ensures
        lies_along(d, off) ==> found_along(tmp, at, d, tmp[at + off] as int),
{
}

proof fn lemma_found_at(tmp: Seq<i16>, at: int, d: Seq<i8>, v: int) -> (off: int)
    requires
        found_along(tmp, at, d, v),
    ensures
        lies_along(d, off),
        tmp[at + off] == v,
{
    if v == tmp[at + d[0]] {
        d[0] as int
    } else if v == tmp[at - d[0]] {
        -d[0]
    } else if v == tmp[at + d[1]] {
        d[1] as int
    } else {
        -d[1]
    }
}

proof fn lemma_tap_is_reached(
    directions: Seq<[i8; 2]>,
    pri_strength: int,
    sec_strength: int,
    dir: int,
    damping: int,
    tmp: Seq<i16>,
    at: int,
    px: int,
    k: int,
)
    requires
        0 <= k < block_taps(directions, pri_strength, sec_strength, dir, damping).len(),
    ensures
        ({
            let off = block_taps(directions, pri_strength, sec_strength, dir, damping)[k].off;
            tmp[at + off] != -0x8000 ==> reached(directions, dir, tmp, at, px, tmp[at + off] as int)
        }),
{
    let off = block_taps(directions, pri_strength, sec_strength, dir, damping)[k].off as int;
    lemma_offsets(directions, pri_strength, sec_strength, dir, damping, k);
    lemma_found(tmp, at, directions[dir + 2]@, off);
    lemma_found(tmp, at, directions[dir + 4]@, off);
    lemma_found(tmp, at, directions[dir]@, off);
}

proof fn lemma_reached_lies_between(
    directions: Seq<[i8; 2]>,
    pri_strength: int,
    sec_strength: int,
    dir: int,
    damping: int,
    tmp: Seq<i16>,
    at: int,
    px: int,
    v: int,
)
    requires
        pri_strength > 0,
        sec_strength > 0,
        reached(directions, dir, tmp, at, px, v),
    ensures
        ({
            let taps = block_taps(directions, pri_strength, sec_strength, dir, damping);
            low(taps, tmp, at, px, taps.len()) <= v <= high(taps, tmp, at, px, taps.len())
        }),
{
    let taps = block_taps(directions, pri_strength, sec_strength, dir, damping);
    lemma_range_is_reached(taps, tmp, at, px, taps.len());
    if v != px {
        let off = if found_along(tmp, at, directions[dir + 2]@, v) {
            lemma_found_at(tmp, at, directions[dir + 2]@, v)
        } else if found_along(tmp, at, directions[dir + 4]@, v) {
            lemma_found_at(tmp, at, directions[dir + 4]@, v)
        } else {
            lemma_found_at(tmp, at, directions[dir]@, v)
        };
        let k = lemma_cell_has_a_tap(directions, pri_strength, sec_strength, dir, damping, off);
        assert(tmp[at + taps[k].off] == v);
    }
}

proof fn lemma_ends_of_reach(
    directions: Seq<[i8; 2]>,
    pri_strength: int,
    sec_strength: int,
    dir: int,
    damping: int,
    tmp: Seq<i16>,
    at: int,
    px: int,
)
    requires
        pri_strength > 0,
        sec_strength > 0,
    ensures
        ({
            let taps = block_taps(directions, pri_strength, sec_strength, dir, damping);
            ends_of_reach(
                directions,
                dir,
                tmp,
                at,
                px,
                low(taps, tmp, at, px, taps.len()),
                high(taps, tmp, at, px, taps.len()),
            )
        }),
{
    let taps = block_taps(directions, pri_strength, sec_strength, dir, damping);
    let n = taps.len();
    let lo = low(taps, tmp, at, px, n);
    let hi = high(taps, tmp, at, px, n);
    lemma_range_is_reached(taps, tmp, at, px, n);
    if lo != px {
        let k = choose|k: int| 0 <= k < n && tmp[at + (#[trigger] taps[k]).off] == lo && lo != marker();
        lemma_tap_is_reached(directions, pri_strength, sec_strength, dir, damping, tmp, at, px, k);
    }
    if hi != px {
        let k = choose|k: int| 0 <= k < n && tmp[at + (#[trigger] taps[k]).off] == hi && hi != marker();
        lemma_tap_is_reached(directions, pri_strength, sec_strength, dir, damping, tmp, at, px, k);
    }
    assert forall|v: int| #[trigger] reached(directions, dir, tmp, at, px, v) implies lo <= v <= hi by {
        lemma_reached_lies_between(directions, pri_strength, sec_strength, dir, damping, tmp, at, px, v);
    }
}

proof fn lemma_both_pixel(
    directions: Seq<[i8; 2]>,
    pri_strength: int,
    pri_log: nat,
    sec_strength: int,
    sec_log: nat,
    dir: int,
    damping: int,
    tmp: Seq<i16>,
    at: int,
    px: int,
)
    requires
        0 <= px <= 255,
        0 < pri_strength <= 0x7fff,
        pow2(pri_log) <= pri_strength < pow2(pri_log + 1),
        0 < sec_strength <= 0x7fff,
        pow2(sec_log) <= sec_strength < pow2(sec_log + 1),
        sec_log <= damping <= 14,
        usable_along(tmp, at, directions[dir + 2]@),
        usable_along(tmp, at, directions[dir + 4]@),
        usable_along(tmp, at, directions[dir]@),
    ensures
        ({
            let taps = block_taps(directions, pri_strength, sec_strength, dir, damping);
            let moved = px + sixteenth(total(taps, tmp, at, px, 12));
            let lo = low(taps, tmp, at, px, 12);
            let hi = high(taps, tmp, at, px, 12);
            &&& ends_of_reach(directions, dir, tmp, at, px, lo, hi)
            &&& cdef_pixel(taps, true, tmp, at, px) == if moved < lo {
                lo
            } else if moved > hi {
                hi
            } else {
                moved
            }
        }),
{
    let taps = block_taps(directions, pri_strength, sec_strength, dir, damping);
    bit_length_is_between_powers(sec_strength as nat, sec_log);
    lemma_primary_pair(directions, pri_strength, pri_log, sec_strength, sec_log, dir, damping, 0);
    lemma_available(directions, pri_strength, sec_strength, dir, damping, tmp, at);
    lemma_ends_of_reach(directions, pri_strength, sec_strength, dir, damping, tmp, at, px);
    lanes_are_exact(directions, pri_strength, sec_strength, dir, damping, tmp, at, px);
    lemma_sixteenth(total(taps, tmp, at, px, 12));
}

/// With both strengths, a pixel moves by a sixteenth, rounded to the nearest, of what all twelve cells contribute,
/// but not out of the range of the pixel and the available ones among them.
pub proof fn both_kinds_of_taps_are_added_and_limited(
    data: Seq<int>,
    base: int,
    stride: int,
    tmp: Seq<i16>,
    directions: Seq<[i8; 2]>,
    pri_strength: int,
    pri_log: nat,
    sec_strength: int,
    sec_log: nat,
    dir: int,
    damping: int,
    w: nat,
    h: nat,
    x: int,
    y: int,
    lo: int,
    hi: int,
)
    requires
        0 <= base,
        base + w <= data.len(),
        0 <= base + (h - 1) * stride,
        base + (h - 1) * stride + w <= data.len(),
        stride >= w || stride <= -w,
        0 <= x < w,
        0 <= y < h,
        0 <= data[base + y * stride + x] <= 255,
        0 < pri_strength <= 0x7fff,
        pow2(pri_log) <= pri_strength < pow2(pri_log + 1),
        0 < sec_strength <= 0x7fff,
        pow2(sec_log) <= sec_strength < pow2(sec_log + 1),
        sec_log <= damping <= 14,
        usable_along(tmp, 12 * (y + 2) + 2 + x, directions[dir + 2]@),
        usable_along(tmp, 12 * (y + 2) + 2 + x, directions[dir + 4]@),
        usable_along(tmp, 12 * (y + 2) + 2 + x, directions[dir]@),
        ends_of_reach(directions, dir, tmp, 12 * (y + 2) + 2 + x, data[base + y * stride + x], lo, hi),
    ensures
        ({
            let at = 12 * (y + 2) + 2 + x;
            let px = data[base + y * stride + x];
            let p = directions[dir + 2]@;
            let pri_shift = if damping > pri_log {
                (damping - pri_log) as nat
            } else {
                0
            };
            let pri_inner = pair(tmp, at, p[0] as int, px, pri_strength, pri_shift);
            let pri_outer = pair(tmp, at, p[1] as int, px, pri_strength, pri_shift);
            let along = if pri_strength % 2 == 1 {
                3 * pri_inner + 3 * pri_outer
            } else {
                4 * pri_inner + 2 * pri_outer
            };
            let (d, e) = (directions[dir + 4]@, directions[dir]@);
            let sec_shift = (damping - sec_log) as nat;
            let sec_inner = pair(tmp, at, d[0] as int, px, sec_strength, sec_shift) + pair(
                tmp,
                at,
                e[0] as int,
                px,
                sec_strength,
                sec_shift,
            );
            let sec_outer = pair(tmp, at, d[1] as int, px, sec_strength, sec_shift) + pair(
                tmp,
                at,
                e[1] as int,
                px,
                sec_strength,
                sec_shift,
            );
            let moved = px + sixteenth(along + 2 * sec_inner + sec_outer);
            let taps = block_taps(directions, pri_strength, sec_strength, dir, damping);
            cdef_rows(data, base, stride, tmp, taps, true, w, h)[base + y * stride + x] == if moved < lo {
                lo
            } else if moved > hi {
                hi
            } else {
                moved
            }
        }),
{
    let taps = block_taps(directions, pri_strength, sec_strength, dir, damping);
    let at = 12 * (y + 2) + 2 + x;
    let px = data[base + y * stride + x];
    lemma_pixel_of_block(data, base, stride, tmp, taps, true, w, h, x, y);
    lemma_both_pixel(
        directions,
        pri_strength,
        pri_log,
        sec_strength,
        sec_log,
        dir,
        damping,
        tmp,
        at,
        px,
    );
    lemma_primary_sum(
        directions,
        pri_strength,
        pri_log,
        sec_strength,
        sec_log,
        dir,
        damping,
        tmp,
        at,
        px,
    );
    lemma_secondary_sum(
        directions,
        pri_strength,
        pri_log,
        sec_strength,
        sec_log,
        dir,
        damping,
        tmp,
        at,
        px,
    );
    let (l, g) = (low(taps, tmp, at, px, 12), high(taps, tmp, at, px, 12));
    assert(reached(directions, dir, tmp, at, px, l) && reached(directions, dir, tmp, at, px, g));
    assert(reached(directions, dir, tmp, at, px, lo) && reached(directions, dir, tmp, at, px, hi));
}

/// The ends of the range of the pixel and the available taps are among them.
proof fn lemma_range_is_reached(taps: Seq<CdefTap>, tmp: Seq<i16>, at: int, px: int, n: nat)
    requires
        n <= taps.len(),
    ensures
        ({
            let lo = low(taps, tmp, at, px, n);
            let hi = high(taps, tmp, at, px, n);
            &&& lo == px || exists|k: int|
                0 <= k < n && tmp[at + (#[trigger] taps[k]).off] == lo && lo != marker()
            &&& hi == px || exists|k: int|
                0 <= k < n && tmp[at + (#[trigger] taps[k]).off] == hi && hi != marker()
            &&& lo <= px <= hi
            &&& forall|k: int|
                0 <= k < n && tmp[at + (#[trigger] taps[k]).off] != marker() ==> lo <= tmp[at
                    + taps[k].off] <= hi
        }),
    decreases n,
{
    if n > 0 {
        let m = (n - 1) as nat;
        lemma_range_is_reached(taps, tmp, at, px, m);
        let p = tmp[at + taps[m as int].off] as int;
        let lo = low(taps, tmp, at, px, n);
        let hi = high(taps, tmp, at, px, n);
        if lo != px && lo == low(taps, tmp, at, px, m) {
            let k = choose|k: int| 0 <= k < m && tmp[at + (#[trigger] taps[k]).off] == lo && lo != marker();
            assert(0 <= k < n && tmp[at + taps[k].off] == lo);
        }
        if hi != px && hi == high(taps, tmp, at, px, m) {
            let k = choose|k: int| 0 <= k < m && tmp[at + (#[trigger] taps[k]).off] == hi && hi != marker();
            assert(0 <= k < n && tmp[at + taps[k].off] == hi);
        }
    }
}

proof fn lemma_depends_on_taps(
    taps: Seq<CdefTap>,
    both: bool,
    tmp: Seq<i16>,
    other: Seq<i16>,
    at: int,
    px: int,
    n: nat,
)
    requires
        n <= taps.len(),
        forall|k: int|
            0 <= k < taps.len() ==> other[at + (#[trigger] taps[k]).off] == tmp[at + taps[k].off],
    ensures
        lane_total(taps, other, at, px, n) == lane_total(taps, tmp, at, px, n),
        lane_low(taps, other, at, px, n) == lane_low(taps, tmp, at, px, n),
        lane_high(taps, other, at, px, n) == lane_high(taps, tmp, at, px, n),
    decreases n,
{
    if n > 0 {
        lemma_depends_on_taps(taps, both, tmp, other, at, px, (n - 1) as nat);
        assert(other[at + taps[n - 1].off] == tmp[at + taps[n - 1].off]);
    }
}

proof fn lemma_flat_taps(taps: Seq<CdefTap>, tmp: Seq<i16>, at: int, px: int, n: nat)
    requires
        n <= taps.len(),
        0 <= px <= 255,
        forall|k: int| 0 <= k < taps.len() ==> tmp[at + (#[trigger] taps[k]).off] == px,
    ensures
        lane_total(taps, tmp, at, px, n) == 0,
        lane_low(taps, tmp, at, px, n) == px,
        lane_high(taps, tmp, at, px, n) == px,
    decreases n,
{
    if n > 0 {
        lemma_flat_taps(taps, tmp, at, px, (n - 1) as nat);
        assert(tmp[at + taps[n - 1].off] == px);
        let tap = taps[n - 1];
        assert(constrain_lane(px, px, tap.strength as int, (tap.shift % 16) as nat) == 0);
        assert(tap.weight * 0 == 0) by (nonlinear_arith);
    }
}

/// Whether two padded blocks agree in the four cells on the line of the direction `d`.
pub open spec fn same_along(tmp: Seq<i16>, other: Seq<i16>, at: int, d: Seq<i8>) -> bool {
    other[at + d[0]] == tmp[at + d[0]] && other[at - d[0]] == tmp[at - d[0]] && other[at + d[1]] == tmp[at
        + d[1]] && other[at - d[1]] == tmp[at - d[1]]
}

proof fn lemma_same(tmp: Seq<i16>, other: Seq<i16>, at: int, d: Seq<i8>, off: int)
    ensures
        same_along(tmp, other, at, d) && lies_along(d, off) ==> other[at + off] == tmp[at + off],
{
}

/// A filtered pixel depends on the padded block only in the cells on the line of the direction, for a primary
/// strength, and in those on the two lines across it, for a secondary one.
pub proof fn pixel_depends_on_its_taps_alone(
    other: Seq<i16>,
    data: Seq<int>,
    base: int,
    stride: int,
    tmp: Seq<i16>,
    directions: Seq<[i8; 2]>,
    pri_strength: int,
    sec_strength: int,
    dir: int,
    damping: int,
    w: nat,
    h: nat,
    x: int,
    y: int,
)
    requires
        0 <= base,
        base + w <= data.len(),
        0 <= base + (h - 1) * stride,
        base + (h - 1) * stride + w <= data.len(),
        stride >= w || stride <= -w,
        0 <= x < w,
        0 <= y < h,
        pri_strength != 0 ==> same_along(tmp, other, 12 * (y + 2) + 2 + x, directions[dir + 2]@),
        sec_strength != 0 ==> same_along(tmp, other, 12 * (y + 2) + 2 + x, directions[dir + 4]@),
        sec_strength != 0 ==> same_along(tmp, other, 12 * (y + 2) + 2 + x, directions[dir]@),
    ensures
        ({
            let taps = block_taps(directions, pri_strength, sec_strength, dir, damping);
            let both = pri_strength != 0 && sec_strength != 0;
            cdef_rows(data, base, stride, other, taps, both, w, h)[base + y * stride + x] == cdef_rows(
                data,
                base,
                stride,
                tmp,
                taps,
                both,
                w,
                h,
            )[base + y * stride + x]
        }),
{
    let taps = block_taps(directions, pri_strength, sec_strength, dir, damping);
    let both = pri_strength != 0 && sec_strength != 0;
    let at = 12 * (y + 2) + 2 + x;
    let px = data[base + y * stride + x];
    lemma_pixel_of_block(data, base, stride, tmp, taps, both, w, h, x, y);
    lemma_pixel_of_block(data, base, stride, other, taps, both, w, h, x, y);
    assert forall|k: int| 0 <= k < taps.len() implies other[at + (#[trigger] taps[k]).off] == tmp[at
        + taps[k].off] by {
        lemma_offsets(directions, pri_strength, sec_strength, dir, damping, k);
        lemma_same(tmp, other, at, directions[dir + 2]@, taps[k].off as int);
        lemma_same(tmp, other, at, directions[dir + 4]@, taps[k].off as int);
        lemma_same(tmp, other, at, directions[dir]@, taps[k].off as int);
    }
    lemma_depends_on_taps(taps, both, tmp, other, at, px, taps.len());
}

/// Whether all four cells on the line of the direction `d` hold `v`.
pub open spec fn level_along(tmp: Seq<i16>, at: int, d: Seq<i8>, v: int) -> bool {
    tmp[at + d[0]] == v && tmp[at - d[0]] == v && tmp[at + d[1]] == v && tmp[at - d[1]] == v
}

proof fn lemma_level(tmp: Seq<i16>, at: int, d: Seq<i8>, v: int, off: int)
    ensures
        level_along(tmp, at, d, v) && lies_along(d, off) ==> tmp[at + off] == v,
{
}

/// A pixel that equals the cells on the line of the direction, where there is a primary strength, and those on the
/// two lines across it, where there is a secondary one, stays as it is.
pub proof fn pixel_like_its_taps_is_kept(
    data: Seq<int>,
    base: int,
    stride: int,
    tmp: Seq<i16>,
    directions: Seq<[i8; 2]>,
    pri_strength: int,
    sec_strength: int,
    dir: int,
    damping: int,
    w: nat,
    h: nat,
    x: int,
    y: int,
)
    requires
        0 <= base,
        base + w <= data.len(),
        0 <= base + (h - 1) * stride,
        base + (h - 1) * stride + w <= data.len(),
        stride >= w || stride <= -w,
        0 <= x < w,
        0 <= y < h,
        0 <= data[base + y * stride + x] <= 255,
        pri_strength != 0 ==> level_along(
            tmp,
            12 * (y + 2) + 2 + x,
            directions[dir + 2]@,
            data[base + y * stride + x],
        ),
        sec_strength != 0 ==> level_along(
            tmp,
            12 * (y + 2) + 2 + x,
            directions[dir + 4]@,
            data[base + y * stride + x],
        ),
        sec_strength != 0 ==> level_along(
            tmp,
            12 * (y + 2) + 2 + x,
            directions[dir]@,
            data[base + y * stride + x],
        ),
    ensures
        cdef_rows(
            data,
            base,
            stride,
            tmp,
            block_taps(directions, pri_strength, sec_strength, dir, damping),
            pri_strength != 0 && sec_strength != 0,
            w,
            h,
        )[base + y * stride + x] == data[base + y * stride + x],
{
    let taps = block_taps(directions, pri_strength, sec_strength, dir, damping);
    let both = pri_strength != 0 && sec_strength != 0;
    let at = 12 * (y + 2) + 2 + x;
    let px = data[base + y * stride + x];
    lemma_pixel_of_block(data, base, stride, tmp, taps, both, w, h, x, y);
    assert forall|k: int| 0 <= k < taps.len() implies tmp[at + (#[trigger] taps[k]).off] == px by {
        lemma_offsets(directions, pri_strength, sec_strength, dir, damping, k);
        lemma_level(tmp, at, directions[dir + 2]@, px, taps[k].off as int);
        lemma_level(tmp, at, directions[dir + 4]@, px, taps[k].off as int);
        lemma_level(tmp, at, directions[dir]@, px, taps[k].off as int);
    }
    lemma_flat_taps(taps, tmp, at, px, taps.len());
    lemma_correction_in_lanes(0, px);
}

/// In a lane a cell contributes its difference, limited to what is left of the strength once a part of the
/// difference is taken off it. The difference itself is limited to a lane.
pub proof fn lane_contribution_is_the_limited_difference(p: int, px: int, strength: int, shift: nat)
    requires
        -0x8000 <= p <= 0x7fff,
        -0x8000 <= px <= 0x7fff,
        0 <= strength <= 0x7fff,
    ensures
        -0x8000 <= p - px <= 0x7fff ==> constrain_lane(p, px, strength, shift) == contribution(
            p,
            px,
            strength,
            shift,
        ),
        p - px < -0x8000 ==> constrain_lane(p, px, strength, shift) == contribution(
            px - 0x8000,
            px,
            strength,
            shift,
        ),
        p - px > 0x7fff ==> constrain_lane(p, px, strength, shift) == contribution(
            px + 0x7fff,
            px,
            strength,
            shift,
        ),
{
    let d = if p - px < -0x8000 {
        -0x8000
    } else if p - px > 0x7fff {
        0x7fff
    } else {
        p - px
    };
    let away = if d < 0 {
        -d
    } else {
        d
    };
    lemma_shr_bounds(away, shift);
    reveal(contribution);
}

/// What is left of any strength is counted modulo 2^16, also of one that is negative in a lane.
pub proof fn lane_contribution_counts_modulo_the_lane(p: int, px: int, strength: int, shift: nat, room: int)
    requires
        -0x8000 <= room <= 0x7fff,
        -0x8000 <= p - px <= 0x7fff,
        p >= px ==> (room - (strength - (p - px) / (pow2(shift) as int))) % 0x1_0000 == 0,
        p < px ==> (room - (strength - (px - p) / (pow2(shift) as int))) % 0x1_0000 == 0,
    ensures
        room <= 0 ==> constrain_lane(p, px, strength, shift) == 0,
        p >= px && room > 0 && room <= p - px ==> constrain_lane(p, px, strength, shift) == room,
        p >= px && room > p - px ==> constrain_lane(p, px, strength, shift) == p - px,
        p < px && room > 0 && room <= px - p ==> constrain_lane(p, px, strength, shift) == -room,
        p < px && room > px - p ==> constrain_lane(p, px, strength, shift) == p - px,
{
    let away = if p < px {
        px - p
    } else {
        p - px
    };
    let left = strength - away / (pow2(shift) as int);
    assert(wrap16(left) == room);
}

/// What the taps of a block are, for every pair of strengths: a primary strength has four taps on either side of the
/// pixel along the direction, with weights four and two, or three and three where it is odd; a secondary one has
/// eight along the two directions beside it, with weights two and one. A tap carries its strength modulo 2^16 and
/// the shift that is left of the damping once the logarithm of the strength is taken off it.
pub proof fn taps_carry_offset_weight_strength_and_shift(
    directions: Seq<[i8; 2]>,
    pri_strength: int,
    pri_log: nat,
    sec_strength: int,
    sec_log: nat,
    dir: int,
    damping: int,
    k: int,
)
    requires
        0 <= pri_strength <= 0x7fff_ffff,
        0 <= sec_strength <= 0x7fff_ffff,
        pri_strength > 0 ==> pow2(pri_log) <= pri_strength < pow2(pri_log + 1),
        sec_strength > 0 ==> pow2(sec_log) <= sec_strength < pow2(sec_log + 1),
        damping <= 0x7fff_ffff,
        0 <= k,
    ensures
        ({
            let taps = block_taps(directions, pri_strength, sec_strength, dir, damping);
            let n = if pri_strength > 0 {
                4int
            } else {
                0int
            };
            let m = if sec_strength > 0 {
                8int
            } else {
                0int
            };
            let opposite = k % 2 == 1;
            &&& taps.len() == n + m
            &&& k < n ==> {
                &&& taps[k].off == if opposite {
                    -directions[dir + 2]@[k / 2]
                } else {
                    directions[dir + 2]@[k / 2] as int
                }
                &&& pri_strength % 2 == 1 ==> taps[k].weight == 3
                &&& pri_strength % 2 == 0 ==> taps[k].weight == 4 - k / 2 * 2
                &&& (taps[k].strength - pri_strength) % 0x1_0000 == 0
                &&& damping >= pri_log ==> taps[k].shift == damping - pri_log
                &&& damping < pri_log ==> taps[k].shift == 0
            }
            &&& k < m ==> {
                let tap = taps[n + k];
                let side = if k / 2 % 2 == 0 {
                    directions[dir + 4]@
                } else {
                    directions[dir]@
                };
                &&& tap.off == if opposite {
                    -side[k / 4]
                } else {
                    side[k / 4] as int
                }
                &&& tap.weight == 2 - k / 4
                &&& (tap.strength - sec_strength) % 0x1_0000 == 0
                &&& (tap.shift - (damping - sec_log)) % 0x1_0000_0000 == 0
            }
        }),
{
    let pri = pri_taps(directions, pri_strength, dir, damping);
    let sec = sec_taps(directions, sec_strength, dir, damping);
    let taps = block_taps(directions, pri_strength, sec_strength, dir, damping);
    if pri_strength > 0 {
        bit_length_is_between_powers(pri_strength as nat, pri_log);
        if k < 4 {
            assert(k == 0 || k == 1 || k == 2 || k == 3);
            assert(taps[k] == pri[k]);
        }
    }
    if sec_strength > 0 {
        bit_length_is_between_powers(sec_strength as nat, sec_log);
        if k < 8 {
            assert(k == 0 || k == 1 || k == 2 || k == 3 || k == 4 || k == 5 || k == 6 || k == 7);
            assert(taps[pri.len() + k] == sec[k]);
        }
    }
}

/// A pixel, whatever the cells hold, moves by a sixteenth, rounded to the nearest with halves away from zero, of what
/// the taps contribute, counted modulo 2^16; with both kinds of taps it stays between the smallest and the largest cell; and it stays a
/// pixel.
pub proof fn lanes_move_by_a_sixteenth(
    taps: Seq<CdefTap>,
    both: bool,
    tmp: Seq<i16>,
    at: int,
    px: int,
    sum: int,
)
    requires
        0 <= px <= 255,
        -0x8000 <= sum < 0x8000 - 8,
        (sum - lane_total(taps, tmp, at, px, taps.len())) % 0x1_0000 == 0,
    ensures
        ({
            let lo = lane_low(taps, tmp, at, px, taps.len());
            let hi = lane_high(taps, tmp, at, px, taps.len());
            let moved = px + sixteenth(sum);
            let limited = if !both {
                moved
            } else if moved < lo {
                lo
            } else if moved > hi {
                hi
            } else {
                moved
            };
            cdef_pixel(taps, both, tmp, at, px) == if limited < 0 {
                0
            } else if limited > 255 {
                255
            } else {
                limited
            }
        }),
{
    lemma_pow2_values();
    lemma_range_holds_the_pixel(taps, tmp, at, px, taps.len());
    assert(wrap16(lane_total(taps, tmp, at, px, taps.len())) == sum);
}

proof fn lemma_range_holds_the_pixel(taps: Seq<CdefTap>, tmp: Seq<i16>, at: int, px: int, n: nat)
    requires
        0 <= px <= 255,
    ensures
        0 <= lane_low(taps, tmp, at, px, n) <= px <= lane_high(taps, tmp, at, px, n) <= 0x7fff,
    decreases n,
{
    if n > 0 {
        lemma_range_holds_the_pixel(taps, tmp, at, px, (n - 1) as nat);
    }
}

/// Each tap adds its weighted contribution to the sum, and its cell, read as unsigned for the smallest and as signed
/// for the largest, to the range. A cell that is marked as not available is thereby neither.
pub proof fn taps_are_counted_in_turn(taps: Seq<CdefTap>, tmp: Seq<i16>, at: int, px: int, n: nat)
    ensures
        lane_total(taps, tmp, at, px, 0) == 0,
        lane_low(taps, tmp, at, px, 0) == px,
        lane_high(taps, tmp, at, px, 0) == px,
        ({
            let tap = taps[n as int];
            let cell = tmp[at + tap.off];
            let unsigned = if cell < 0 {
                cell + 0x1_0000
            } else {
                cell as int
            };
            let (lo, hi) = (lane_low(taps, tmp, at, px, n), lane_high(taps, tmp, at, px, n));
            &&& lane_total(taps, tmp, at, px, n + 1) == lane_total(taps, tmp, at, px, n) + tap.weight
                * constrain_lane(cell as int, px, tap.strength as int, (tap.shift % 16) as nat)
            &&& lane_low(taps, tmp, at, px, n + 1) == if unsigned < lo {
                unsigned
            } else {
                lo
            }
            &&& lane_high(taps, tmp, at, px, n + 1) == if cell > hi {
                cell as int
            } else {
                hi
            }
        }),
{
}

/// The rows of a block are filtered one after the other, each against the row of the padded block two rows and two
/// columns further in, also where rows overlap.
pub proof fn last_row_is_filtered_on_top(
    data: Seq<int>,
    base: int,
    stride: int,
    tmp: Seq<i16>,
    taps: Seq<CdefTap>,
    both: bool,
    w: nat,
    h: nat,
    i: int,
)
    requires
        0 <= i < data.len(),
    ensures
        ({
            let before = cdef_rows(data, base, stride, tmp, taps, both, w, h);
            let x = i - (base + h * stride);
            &&& cdef_rows(data, base, stride, tmp, taps, both, w, 0) == data
            &&& before.len() == data.len()
            &&& cdef_rows(data, base, stride, tmp, taps, both, w, h + 1)[i] == if 0 <= x < w {
                cdef_pixel(taps, both, tmp, 12 * (h + 2) + 2 + x, before[i])
            } else {
                before[i]
            }
        }),
    decreases h,
{
    if h > 0 {
        last_row_is_filtered_on_top(data, base, stride, tmp, taps, both, w, (h - 1) as nat, i);
    }
}

} // verus!
