//! The deblocking loop filter for 8-bit pixels, four lines at a time.
//!
//! The four lines along an edge are the low four lanes of a vector, and the choice between the
//! filters becomes masks and selections per lane. There are two orientations, decided by the strides:
//! taps in rows and lines along a row, or taps along a row and lines in rows.
use crate::arith::{abs, clip, clip8, lemma_pow2_values, lemma_shr_values, min, shr, wrap16};
use crate::bitdepth::pixels;
use crate::loopfilter::edge::{
    edge_filter, edge_params, filter_mask, filtered_tap, filtered_taps_are_pixels, flat_in,
    flat_out, held, high_variance, lemma_edge_params_8bit, lemma_mask_local, lemma_new_taps_local,
    lemma_taps_inside, narrow_outer, narrow_p, narrow_q, narrow_step, narrow_taps, taps_at,
    taps_inside, wide16, wide6, wide8, EdgeParams,
};
use crate::picture::{offset_by, put_row};
use crate::simd::{
    i16x8, i16x8_abs, i16x8_add, i16x8_gt, i16x8_le, i16x8_max, i16x8_min, i16x8_mul, i16x8_shl,
    i16x8_shr, i16x8_splat, i16x8_sub, mask, u16x8_load4, u8x16_narrow_i16x8, v128_and, v128_andnot,
    v128_any_true, v128_bitselect, v128_or, I16x8,
};
use vstd::arithmetic::power2::pow2;
use vstd::prelude::*;

verus! {

/// The fourteen taps p6..p0, q0..q6, indexed 0..14 (p6 = 0, p0 = 6, q0 = 7, q6 = 13), with one line
/// per lane. Only the taps that a filter needs are loaded.
#[derive(Clone, Copy)]
pub struct Taps {
    pub v: [I16x8; 14],
}

/// The index of p0.
pub const P: usize = 6;

/// The index of q0.
pub const Q: usize = 7;

impl Taps {
    /// The line in lane `l`.
    pub open spec fn line(&self, l: int) -> Seq<int> {
        Seq::new(14, |j: int| self.v@[j]@[l] as int)
    }

    /// Whether each lane of each tap is an 8-bit pixel.
    pub open spec fn all_pixels(&self) -> bool {
        forall|j: int, l: int| 0 <= j < 14 && 0 <= l < 8 ==> 0 <= #[trigger] self.v@[j]@[l] <= 255
    }

    /// The tap `k` steps before the edge.
    pub fn p(&self, k: usize) -> (r: I16x8)
        requires
            k <= P,
        ensures
            r == self.v@[P - k],
    {
        self.v[P - k]
    }

    /// The tap `k` steps behind the edge.
    pub fn q(&self, k: usize) -> (r: I16x8)
        requires
            Q + k < 14,
        ensures
            r == self.v@[Q + k],
    {
        self.v[Q + k]
    }

    /// The tap at index `j`, with the taps at `lo` and `hi` repeated beyond them.
    fn held(&self, j: isize, lo: isize, hi: isize) -> (r: I16x8)
        requires
            self.all_pixels(),
            0 <= lo <= hi < 14,
        ensures
            forall|l: int|
                0 <= l < 8 ==> 0 <= #[trigger] r@[l] == held(
                    self.line(l),
                    j as int,
                    lo as int,
                    hi as int,
                ) <= 255,
    {
        reveal(held);
        if j < lo {
            self.v[lo as usize]
        } else if j > hi {
            self.v[hi as usize]
        } else {
            self.v[j as usize]
        }
    }
}

/// Lines along a row, taps down the rows, which are `strideb` apart.
pub fn load_rows(dst: &[u8], base: usize, strideb: isize, half: usize) -> (r: Taps)
    requires
        half <= 7,
        taps_inside(dst@.len() - 3, base as int, strideb as int, half as int),
    ensures
        r.all_pixels(),
        forall|j: int, l: int|
            7 - half <= j < 7 + half && 0 <= l < 4 ==> #[trigger] r.v@[j]@[l] == dst@[base + (j - 7)
                * strideb + l],
        forall|j: int, l: int|
            (0 <= j < 7 - half || 7 + half <= j < 14) && 0 <= l < 8 ==> #[trigger] r.v@[j]@[l] == 0,
        forall|j: int, l: int| 0 <= j < 14 && 4 <= l < 8 ==> #[trigger] r.v@[j]@[l] == 0,
{
    let mut v: [I16x8; 14] = [i16x8_splat(0); 14];
    let mut j: usize = 7 - half;
    while j < 7 + half
        invariant
            half <= 7,
            7 - half <= j <= 7 + half,
            taps_inside(dst@.len() - 3, base as int, strideb as int, half as int),
            forall|m: int, l: int|
                7 - half <= m < j && 0 <= l < 4 ==> #[trigger] v@[m]@[l] == dst@[base + (m - 7)
                    * strideb + l],
            forall|m: int, l: int|
                (0 <= m < 7 - half || j <= m < 14) && 0 <= l < 8 ==> #[trigger] v@[m]@[l] == 0,
            forall|m: int, l: int| 0 <= m < 14 && 4 <= l < 8 ==> #[trigger] v@[m]@[l] == 0,
        decreases 7 + half - j,
    {
        let k: isize = j as isize - 7;
        proof {
            lemma_taps_inside(dst@.len() - 3, base as int, strideb as int, half as int, k as int);
            assert(dst.len() == dst@.len());
        }
        let at: usize = offset_by(base, k, strideb);
        v[j] = u16x8_load4(dst, at);
        j += 1;
    }
    Taps { v }
}

/// Whether the rows that hold `half` taps on each side of the four lines lie in a plane of `len`
/// pixels.
pub open spec fn cols_inside(len: int, base: int, stridea: int, half: int) -> bool {
    &&& half <= base
    &&& base + half <= len
    &&& half <= base + 3 * stridea
    &&& base + 3 * stridea + half <= len
}

pub proof fn lemma_cols_inside(len: int, base: int, stridea: int, half: int, n: int)
    requires
        cols_inside(len, base, stridea, half),
        0 <= n < 4,
    ensures
        half <= base + n * stridea,
        base + n * stridea + half <= len,
{
    assert(n == 0 || n == 1 || n == 2 || n == 3);
}

/// Lines down the rows, which are `stridea` apart, taps along a row.
pub fn load_cols(dst: &[u8], base: usize, stridea: isize, half: usize) -> (r: Taps)
    requires
        half <= 7,
        cols_inside(dst@.len() as int, base as int, stridea as int, half as int),
    ensures
        r.all_pixels(),
        forall|j: int, l: int|
            7 - half <= j < 7 + half && 0 <= l < 4 ==> #[trigger] r.v@[j]@[l] == dst@[base + l
                * stridea + j - 7],
        forall|j: int, l: int|
            (0 <= j < 7 - half || 7 + half <= j < 14) && 0 <= l < 8 ==> #[trigger] r.v@[j]@[l] == 0,
        forall|j: int, l: int| 0 <= j < 14 && 4 <= l < 8 ==> #[trigger] r.v@[j]@[l] == 0,
{
    let mut v: [I16x8; 14] = [i16x8_splat(0); 14];
    assert(dst.len() == dst@.len());
    let a0: usize = base - half;
    let a1: usize = offset_by(base, 1, stridea) - half;
    let a2: usize = offset_by(base, 2, stridea) - half;
    let a3: usize = offset_by(base, 3, stridea) - half;
    let mut k: usize = 0;
    while k < 2 * half
        invariant
            half <= 7,
            k <= 2 * half,
            a0 == base - half,
            a1 == base + stridea - half,
            a2 == base + 2 * stridea - half,
            a3 == base + 3 * stridea - half,
            cols_inside(dst@.len() as int, base as int, stridea as int, half as int),
            forall|m: int, l: int|
                7 - half <= m < 7 - half + k && 0 <= l < 4 ==> #[trigger] v@[m]@[l] == dst@[base + l
                    * stridea + m - 7],
            forall|m: int, l: int|
                (0 <= m < 7 - half || 7 - half + k <= m < 14) && 0 <= l < 8
                    ==> #[trigger] v@[m]@[l] == 0,
            forall|m: int, l: int| 0 <= m < 14 && 4 <= l < 8 ==> #[trigger] v@[m]@[l] == 0,
        decreases 2 * half - k,
    {
        assert(dst.len() == dst@.len());
        let x: I16x8 = i16x8(
            dst[a0 + k] as i16,
            dst[a1 + k] as i16,
            dst[a2 + k] as i16,
            dst[a3 + k] as i16,
            0,
            0,
            0,
            0,
        );
        proof {
            assert forall|l: int| 0 <= l < 4 implies #[trigger] x@[l] == dst@[base + l * stridea + k
                - half] by {
                assert(l == 0 || l == 1 || l == 2 || l == 3);
            }
        }
        v[Q - half + k] = x;
        k += 1;
    }
    Taps { v }
}

/// The distances between the lanes.
pub fn absdiff(a: I16x8, b: I16x8) -> (r: I16x8)
    ensures
        forall|l: int| 0 <= l < 8 ==> #[trigger] r@[l] == wrap16(abs(wrap16(a@[l] - b@[l]))),
        forall|l: int|
            #![trigger r@[l]]
            0 <= l < 8 && 0 <= a@[l] <= 255 && 0 <= b@[l] <= 255 ==> r@[l] == abs(a@[l] - b@[l]),
{
    i16x8_abs(i16x8_sub(a, b))
}

/// The mask of the lanes in which `a` and `b` are at most `t` apart.
pub fn le_thresh(a: I16x8, b: I16x8, t: I16x8) -> (r: I16x8)
    ensures
        forall|l: int|
            0 <= l < 8 ==> #[trigger] r@[l] == mask(wrap16(abs(wrap16(a@[l] - b@[l]))) <= t@[l]),
        forall|l: int|
            #![trigger r@[l]]
            0 <= l < 8 && 0 <= a@[l] <= 255 && 0 <= b@[l] <= 255 ==> r@[l] == mask(
                abs(a@[l] - b@[l]) <= t@[l],
            ),
{
    i16x8_le(absdiff(a, b), t)
}

/// `(sum + add) >> sh` per lane.
pub fn shr_rnd(sum: I16x8, add: i16, sh: u32) -> (r: I16x8)
    ensures
        forall|l: int|
            0 <= l < 8 ==> #[trigger] r@[l] == shr(wrap16(sum@[l] + add), (sh % 16) as nat),
{
    i16x8_shr(i16x8_add(sum, i16x8_splat(add)), sh)
}

/// The sum of lane `l` over the first `n` terms.
pub open spec fn lane_sum(terms: Seq<I16x8>, l: int, n: nat) -> int
    decreases n,
{
    if n == 0 {
        0
    } else {
        lane_sum(terms, l, (n - 1) as nat) + terms[n - 1]@[l]
    }
}

/// The sum of a list of taps, modulo 2^16.
pub fn sum(terms: &[I16x8]) -> (r: I16x8)
    requires
        terms@.len() > 0,
    ensures
        forall|l: int|
            0 <= l < 8 ==> #[trigger] r@[l] == wrap16(lane_sum(terms@, l, terms@.len())),
{
    let mut acc: I16x8 = terms[0];
    let mut n: usize = 1;
    proof {
        assert forall|l: int| 0 <= l < 8 implies #[trigger] acc@[l] == wrap16(
            lane_sum(terms@, l, 1),
        ) by {
            reveal_with_fuel(lane_sum, 2);
        }
    }
    while n < terms.len()
        invariant
            1 <= n <= terms@.len(),
            forall|l: int| 0 <= l < 8 ==> #[trigger] acc@[l] == wrap16(lane_sum(terms@, l, n as nat)),
        decreases terms@.len() - n,
    {
        acc = i16x8_add(acc, terms[n]);
        n += 1;
    }
    acc
}

/// Twice the lanes.
fn two(v: I16x8) -> (r: I16x8)
    ensures
        forall|l: int| 0 <= l < 8 ==> #[trigger] r@[l] == wrap16(2 * v@[l]),
{
    let r: I16x8 = i16x8_shl(v, 1);
    proof {
        lemma_pow2_values();
        assert forall|l: int| 0 <= l < 8 implies #[trigger] r@[l] == wrap16(2 * v@[l]) by {
            assert(v@[l] * pow2(1) == 2 * v@[l]) by (nonlinear_arith)
                requires
                    pow2(1) == 2,
            ;
        }
    }
    r
}

proof fn lemma_lane_sum_13(terms: Seq<I16x8>, l: int)
    ensures
        lane_sum(terms, l, 13) == terms[0]@[l] + terms[1]@[l] + terms[2]@[l] + terms[3]@[l] + terms[4]@[l] + terms[5]@[l] + terms[6]@[l] + terms[7]@[l] + terms[8]@[l] + terms[9]@[l] + terms[10]@[l] + terms[11]@[l] + terms[12]@[l],
{
    reveal_with_fuel(lane_sum, 14);
}

proof fn lemma_lane_sum_7(terms: Seq<I16x8>, l: int)
    ensures
        lane_sum(terms, l, 7) == terms[0]@[l] + terms[1]@[l] + terms[2]@[l] + terms[3]@[l] + terms[4]@[l] + terms[5]@[l] + terms[6]@[l],
{
    reveal_with_fuel(lane_sum, 8);
}

proof fn lemma_lane_sum_5(terms: Seq<I16x8>, l: int)
    ensures
        lane_sum(terms, l, 5) == terms[0]@[l] + terms[1]@[l] + terms[2]@[l] + terms[3]@[l] + terms[4]@[l],
{
    reveal_with_fuel(lane_sum, 6);
}

/// The sum of the terms of a tap, and the average that it gives.
proof fn lemma_wide16_sum(x: Seq<int>, j: int, terms: Seq<I16x8>, l: int)
    requires
        terms[0]@[l] == held(x, j - 6, 0, 13),
        0 <= held(x, j - 6, 0, 13) <= 255,
        terms[1]@[l] == held(x, j - 5, 0, 13),
        0 <= held(x, j - 5, 0, 13) <= 255,
        terms[2]@[l] == held(x, j - 4, 0, 13),
        0 <= held(x, j - 4, 0, 13) <= 255,
        terms[3]@[l] == held(x, j - 3, 0, 13),
        0 <= held(x, j - 3, 0, 13) <= 255,
        terms[4]@[l] == held(x, j - 2, 0, 13),
        0 <= held(x, j - 2, 0, 13) <= 255,
        terms[5]@[l] == 2 * held(x, j - 1, 0, 13),
        0 <= held(x, j - 1, 0, 13) <= 255,
        terms[6]@[l] == 2 * held(x, j, 0, 13),
        0 <= held(x, j, 0, 13) <= 255,
        terms[7]@[l] == 2 * held(x, j + 1, 0, 13),
        0 <= held(x, j + 1, 0, 13) <= 255,
        terms[8]@[l] == held(x, j + 2, 0, 13),
        0 <= held(x, j + 2, 0, 13) <= 255,
        terms[9]@[l] == held(x, j + 3, 0, 13),
        0 <= held(x, j + 3, 0, 13) <= 255,
        terms[10]@[l] == held(x, j + 4, 0, 13),
        0 <= held(x, j + 4, 0, 13) <= 255,
        terms[11]@[l] == held(x, j + 5, 0, 13),
        0 <= held(x, j + 5, 0, 13) <= 255,
        terms[12]@[l] == held(x, j + 6, 0, 13),
        0 <= held(x, j + 6, 0, 13) <= 255,
    ensures
        0 <= lane_sum(terms, l, 13) <= 4080,
        (lane_sum(terms, l, 13) + 8) / 16 == wide16(x, j),
{
    lemma_lane_sum_13(terms, l);
    reveal(wide16);
}

/// One new tap of the widest filter.
fn wide16_tap(t: &Taps, j: isize) -> (r: I16x8)
    requires
        t.all_pixels(),
        1 <= j < 13,
    ensures
        forall|l: int| 0 <= l < 8 ==> #[trigger] r@[l] == wide16(t.line(l), j as int),
{
    let terms: [I16x8; 13] = [
        t.held(j - 6, 0, 13),
        t.held(j - 5, 0, 13),
        t.held(j - 4, 0, 13),
        t.held(j - 3, 0, 13),
        t.held(j - 2, 0, 13),
        two(t.held(j - 1, 0, 13)),
        two(t.held(j, 0, 13)),
        two(t.held(j + 1, 0, 13)),
        t.held(j + 2, 0, 13),
        t.held(j + 3, 0, 13),
        t.held(j + 4, 0, 13),
        t.held(j + 5, 0, 13),
        t.held(j + 6, 0, 13),
    ];
    let total: I16x8 = sum(&terms);
    let r: I16x8 = shr_rnd(total, 8, 4);
    proof {
        assert forall|l: int| 0 <= l < 8 implies #[trigger] r@[l] == wide16(t.line(l), j as int) by {
            let x = t.line(l);
            assert(terms@[0]@[l] == held(x, j - 6, 0, 13));
            assert(terms@[1]@[l] == held(x, j - 5, 0, 13));
            assert(terms@[2]@[l] == held(x, j - 4, 0, 13));
            assert(terms@[3]@[l] == held(x, j - 3, 0, 13));
            assert(terms@[4]@[l] == held(x, j - 2, 0, 13));
            assert(terms@[5]@[l] == 2 * held(x, j - 1, 0, 13));
            assert(terms@[6]@[l] == 2 * held(x, j as int, 0, 13));
            assert(terms@[7]@[l] == 2 * held(x, j + 1, 0, 13));
            assert(terms@[8]@[l] == held(x, j + 2, 0, 13));
            assert(terms@[9]@[l] == held(x, j + 3, 0, 13));
            assert(terms@[10]@[l] == held(x, j + 4, 0, 13));
            assert(terms@[11]@[l] == held(x, j + 5, 0, 13));
            assert(terms@[12]@[l] == held(x, j + 6, 0, 13));
            lemma_wide16_sum(x, j as int, terms@, l);
            lemma_shr_values(total@[l] + 8);
        }
    }
    r
}

/// The sum of the terms of a tap, and the average that it gives.
proof fn lemma_wide8_sum(x: Seq<int>, j: int, terms: Seq<I16x8>, l: int)
    requires
        terms[0]@[l] == held(x, j - 3, 3, 10),
        0 <= held(x, j - 3, 3, 10) <= 255,
        terms[1]@[l] == held(x, j - 2, 3, 10),
        0 <= held(x, j - 2, 3, 10) <= 255,
        terms[2]@[l] == held(x, j - 1, 3, 10),
        0 <= held(x, j - 1, 3, 10) <= 255,
        terms[3]@[l] == 2 * held(x, j, 3, 10),
        0 <= held(x, j, 3, 10) <= 255,
        terms[4]@[l] == held(x, j + 1, 3, 10),
        0 <= held(x, j + 1, 3, 10) <= 255,
        terms[5]@[l] == held(x, j + 2, 3, 10),
        0 <= held(x, j + 2, 3, 10) <= 255,
        terms[6]@[l] == held(x, j + 3, 3, 10),
        0 <= held(x, j + 3, 3, 10) <= 255,
    ensures
        0 <= lane_sum(terms, l, 7) <= 2040,
        (lane_sum(terms, l, 7) + 4) / 8 == wide8(x, j),
{
    lemma_lane_sum_7(terms, l);
    reveal(wide8);
}

/// One new tap of the filter of width eight.
fn wide8_tap(t: &Taps, j: isize) -> (r: I16x8)
    requires
        t.all_pixels(),
        4 <= j < 10,
    ensures
        forall|l: int| 0 <= l < 8 ==> #[trigger] r@[l] == wide8(t.line(l), j as int),
{
    let terms: [I16x8; 7] = [
        t.held(j - 3, 3, 10),
        t.held(j - 2, 3, 10),
        t.held(j - 1, 3, 10),
        two(t.held(j, 3, 10)),
        t.held(j + 1, 3, 10),
        t.held(j + 2, 3, 10),
        t.held(j + 3, 3, 10),
    ];
    let total: I16x8 = sum(&terms);
    let r: I16x8 = shr_rnd(total, 4, 3);
    proof {
        assert forall|l: int| 0 <= l < 8 implies #[trigger] r@[l] == wide8(t.line(l), j as int) by {
            let x = t.line(l);
            assert(terms@[0]@[l] == held(x, j - 3, 3, 10));
            assert(terms@[1]@[l] == held(x, j - 2, 3, 10));
            assert(terms@[2]@[l] == held(x, j - 1, 3, 10));
            assert(terms@[3]@[l] == 2 * held(x, j as int, 3, 10));
            assert(terms@[4]@[l] == held(x, j + 1, 3, 10));
            assert(terms@[5]@[l] == held(x, j + 2, 3, 10));
            assert(terms@[6]@[l] == held(x, j + 3, 3, 10));
            lemma_wide8_sum(x, j as int, terms@, l);
            lemma_shr_values(total@[l] + 4);
        }
    }
    r
}

/// The sum of the terms of a tap, and the average that it gives.
proof fn lemma_wide6_sum(x: Seq<int>, j: int, terms: Seq<I16x8>, l: int)
    requires
        terms[0]@[l] == held(x, j - 2, 4, 9),
        0 <= held(x, j - 2, 4, 9) <= 255,
        terms[1]@[l] == 2 * held(x, j - 1, 4, 9),
        0 <= held(x, j - 1, 4, 9) <= 255,
        terms[2]@[l] == 2 * held(x, j, 4, 9),
        0 <= held(x, j, 4, 9) <= 255,
        terms[3]@[l] == 2 * held(x, j + 1, 4, 9),
        0 <= held(x, j + 1, 4, 9) <= 255,
        terms[4]@[l] == held(x, j + 2, 4, 9),
        0 <= held(x, j + 2, 4, 9) <= 255,
    ensures
        0 <= lane_sum(terms, l, 5) <= 2040,
        (lane_sum(terms, l, 5) + 4) / 8 == wide6(x, j),
{
    lemma_lane_sum_5(terms, l);
    reveal(wide6);
}

/// One new tap of the filter of width six.
fn wide6_tap(t: &Taps, j: isize) -> (r: I16x8)
    requires
        t.all_pixels(),
        5 <= j < 9,
    ensures
        forall|l: int| 0 <= l < 8 ==> #[trigger] r@[l] == wide6(t.line(l), j as int),
{
    let terms: [I16x8; 5] = [
        t.held(j - 2, 4, 9),
        two(t.held(j - 1, 4, 9)),
        two(t.held(j, 4, 9)),
        two(t.held(j + 1, 4, 9)),
        t.held(j + 2, 4, 9),
    ];
    let total: I16x8 = sum(&terms);
    let r: I16x8 = shr_rnd(total, 4, 3);
    proof {
        assert forall|l: int| 0 <= l < 8 implies #[trigger] r@[l] == wide6(t.line(l), j as int) by {
            let x = t.line(l);
            assert(terms@[0]@[l] == held(x, j - 2, 4, 9));
            assert(terms@[1]@[l] == 2 * held(x, j - 1, 4, 9));
            assert(terms@[2]@[l] == 2 * held(x, j as int, 4, 9));
            assert(terms@[3]@[l] == 2 * held(x, j + 1, 4, 9));
            assert(terms@[4]@[l] == held(x, j + 2, 4, 9));
            lemma_wide6_sum(x, j as int, terms@, l);
            lemma_shr_values(total@[l] + 4);
        }
    }
    r
}

/// The mask of the lines that are filtered at all.
fn filter_mask_lanes(t: &Taps, wd: i32, ve: I16x8, vi: I16x8, Ghost(ep): Ghost<EdgeParams>) -> (r:
    I16x8)
    requires
        t.all_pixels(),
        ep.wd == wd,
        forall|l: int| 0 <= l < 8 ==> #[trigger] ve@[l] == ep.e,
        forall|l: int| 0 <= l < 8 ==> #[trigger] vi@[l] == ep.i,
    ensures
        forall|l: int| 0 <= l < 8 ==> #[trigger] r@[l] == mask(filter_mask(t.line(l), ep)),
{
    let p1: I16x8 = t.p(1);
    let p0: I16x8 = t.p(0);
    let q0: I16x8 = t.q(0);
    let q1: I16x8 = t.q(1);
    let across: I16x8 = two(absdiff(p0, q0));
    let outer: I16x8 = i16x8_shr(absdiff(p1, q1), 1);
    let step: I16x8 = i16x8_add(across, outer);
    let beside: I16x8 = v128_and(le_thresh(p1, p0, vi), le_thresh(q1, q0, vi));
    let fm4: I16x8 = v128_and(beside, i16x8_le(step, ve));
    let fm6: I16x8 = if wd > 4 {
        v128_and(fm4, v128_and(le_thresh(t.p(2), p1, vi), le_thresh(t.q(2), q1, vi)))
    } else {
        fm4
    };
    let fm: I16x8 = if wd > 6 {
        v128_and(fm6, v128_and(le_thresh(t.p(3), t.p(2), vi), le_thresh(t.q(3), t.q(2), vi)))
    } else {
        fm6
    };
    proof {
        assert forall|l: int| 0 <= l < 8 implies #[trigger] fm@[l] == mask(
            filter_mask(t.line(l), ep),
        ) by {
            let x = t.line(l);
            assert(x[5] == p1@[l] && x[6] == p0@[l] && x[7] == q0@[l] && x[8] == q1@[l]);
            lemma_shr_values(abs(p1@[l] - q1@[l]));
            assert(step@[l] == abs(x[6] - x[7]) * 2 + abs(x[5] - x[8]) / 2);
            let b4 = abs(x[5] - x[6]) <= ep.i && abs(x[8] - x[7]) <= ep.i && abs(x[6] - x[7]) * 2
                + abs(x[5] - x[8]) / 2 <= ep.e;
            assert(fm4@[l] == mask(b4));
            let b6 = abs(x[4] - x[5]) <= ep.i && abs(x[9] - x[8]) <= ep.i;
            assert(wd > 4 ==> fm6@[l] == mask(b4 && b6));
            let b8 = abs(x[3] - x[4]) <= ep.i && abs(x[10] - x[9]) <= ep.i;
            assert(wd > 6 ==> fm@[l] == mask(b4 && b6 && b8));
        }
    }
    fm
}

/// The mask of the lines whose inner taps are flat.
fn flat_in_lanes(t: &Taps, wd: i32, vf: I16x8, Ghost(ep): Ghost<EdgeParams>) -> (r: I16x8)
    requires
        t.all_pixels(),
        ep.wd == wd,
        forall|l: int| 0 <= l < 8 ==> #[trigger] vf@[l] == ep.unit,
    ensures
        forall|l: int| 0 <= l < 8 ==> #[trigger] r@[l] == mask(flat_in(t.line(l), ep)),
{
    if wd < 6 {
        return i16x8_splat(0);
    }
    let p0: I16x8 = t.p(0);
    let q0: I16x8 = t.q(0);
    let flat6: I16x8 = v128_and(
        v128_and(le_thresh(t.p(2), p0, vf), le_thresh(t.p(1), p0, vf)),
        v128_and(le_thresh(t.q(1), q0, vf), le_thresh(t.q(2), q0, vf)),
    );
    let flat: I16x8 = if wd >= 8 {
        v128_and(flat6, v128_and(le_thresh(t.p(3), p0, vf), le_thresh(t.q(3), q0, vf)))
    } else {
        flat6
    };
    proof {
        assert forall|l: int| 0 <= l < 8 implies #[trigger] flat@[l] == mask(
            flat_in(t.line(l), ep),
        ) by {
            let x = t.line(l);
            let b6 = abs(x[4] - x[6]) <= ep.unit && abs(x[5] - x[6]) <= ep.unit && abs(x[8] - x[7])
                <= ep.unit && abs(x[9] - x[7]) <= ep.unit;
            assert(flat6@[l] == mask(b6));
        }
    }
    flat
}

/// The mask of the lines whose outer taps are flat.
fn flat_out_lanes(t: &Taps, wd: i32, vf: I16x8, Ghost(ep): Ghost<EdgeParams>) -> (r: I16x8)
    requires
        t.all_pixels(),
        ep.wd == wd,
        forall|l: int| 0 <= l < 8 ==> #[trigger] vf@[l] == ep.unit,
    ensures
        forall|l: int| 0 <= l < 8 ==> #[trigger] r@[l] == mask(flat_out(t.line(l), ep)),
{
    if wd < 16 {
        return i16x8_splat(0);
    }
    let p0: I16x8 = t.p(0);
    let q0: I16x8 = t.q(0);
    let before: I16x8 = v128_and(
        v128_and(le_thresh(t.p(6), p0, vf), le_thresh(t.p(5), p0, vf)),
        le_thresh(t.p(4), p0, vf),
    );
    let behind: I16x8 = v128_and(
        v128_and(le_thresh(t.q(4), q0, vf), le_thresh(t.q(5), q0, vf)),
        le_thresh(t.q(6), q0, vf),
    );
    let flat: I16x8 = v128_and(before, behind);
    proof {
        assert forall|l: int| 0 <= l < 8 implies #[trigger] flat@[l] == mask(
            flat_out(t.line(l), ep),
        ) by {
            let x = t.line(l);
            let b = abs(x[0] - x[6]) <= ep.unit && abs(x[1] - x[6]) <= ep.unit && abs(x[2] - x[6])
                <= ep.unit;
            assert(before@[l] == mask(b));
            let c = abs(x[11] - x[7]) <= ep.unit && abs(x[12] - x[7]) <= ep.unit && abs(x[13] - x[7])
                <= ep.unit;
            assert(behind@[l] == mask(c));
        }
    }
    flat
}

/// Whether each lane of `m` is a mask.
pub open spec fn is_mask(m: I16x8) -> bool {
    forall|l: int| 0 <= l < 8 ==> #[trigger] m@[l] == mask(true) || m@[l] == mask(false)
}

/// Puts the taps of the widest filter into the lanes that `m` marks.
fn overlay16(t: &Taps, m: I16x8, out: &mut [I16x8; 14])
    requires
        t.all_pixels(),
        is_mask(m),
    ensures
        forall|j: int, l: int|
            0 <= j < 14 && 0 <= l < 8 ==> #[trigger] final(out)@[j]@[l] == if 1 <= j < 13 && m@[l]
                == mask(true) {
                wide16(t.line(l), j)
            } else {
                old(out)@[j]@[l] as int
            },
{
    let mut j: usize = 1;
    while j < 13
        invariant
            1 <= j <= 13,
            t.all_pixels(),
            is_mask(m),
            forall|k: int, l: int|
                0 <= k < 14 && 0 <= l < 8 ==> #[trigger] out@[k]@[l] == if 1 <= k < j && m@[l]
                    == mask(true) {
                    wide16(t.line(l), k)
                } else {
                    old(out)@[k]@[l] as int
                },
        decreases 13 - j,
    {
        out[j] = v128_bitselect(wide16_tap(t, j as isize), out[j], m);
        j += 1;
    }
}

/// Puts the taps of the filter of width eight into the lanes that `m` marks.
fn overlay8(t: &Taps, m: I16x8, out: &mut [I16x8; 14])
    requires
        t.all_pixels(),
        is_mask(m),
    ensures
        forall|j: int, l: int|
            0 <= j < 14 && 0 <= l < 8 ==> #[trigger] final(out)@[j]@[l] == if 4 <= j < 10 && m@[l]
                == mask(true) {
                wide8(t.line(l), j)
            } else {
                old(out)@[j]@[l] as int
            },
{
    let mut j: usize = 4;
    while j < 10
        invariant
            4 <= j <= 10,
            t.all_pixels(),
            is_mask(m),
            forall|k: int, l: int|
                0 <= k < 14 && 0 <= l < 8 ==> #[trigger] out@[k]@[l] == if 4 <= k < j && m@[l]
                    == mask(true) {
                    wide8(t.line(l), k)
                } else {
                    old(out)@[k]@[l] as int
                },
        decreases 10 - j,
    {
        out[j] = v128_bitselect(wide8_tap(t, j as isize), out[j], m);
        j += 1;
    }
}

/// Puts the taps of the filter of width six into the lanes that `m` marks.
fn overlay6(t: &Taps, m: I16x8, out: &mut [I16x8; 14])
    requires
        t.all_pixels(),
        is_mask(m),
    ensures
        forall|j: int, l: int|
            0 <= j < 14 && 0 <= l < 8 ==> #[trigger] final(out)@[j]@[l] == if 5 <= j < 9 && m@[l]
                == mask(true) {
                wide6(t.line(l), j)
            } else {
                old(out)@[j]@[l] as int
            },
{
    let mut j: usize = 5;
    while j < 9
        invariant
            5 <= j <= 9,
            t.all_pixels(),
            is_mask(m),
            forall|k: int, l: int|
                0 <= k < 14 && 0 <= l < 8 ==> #[trigger] out@[k]@[l] == if 5 <= k < j && m@[l]
                    == mask(true) {
                    wide6(t.line(l), k)
                } else {
                    old(out)@[k]@[l] as int
                },
        decreases 9 - j,
    {
        out[j] = v128_bitselect(wide6_tap(t, j as isize), out[j], m);
        j += 1;
    }
}

/// Limits the lanes to the range of a signed pixel.
fn clip_diff_lanes(v: I16x8) -> (r: I16x8)
    ensures
        forall|l: int| 0 <= l < 8 ==> #[trigger] r@[l] == clip(v@[l] as int, -128, 127),
{
    i16x8_min(i16x8_max(v, i16x8_splat(-128)), i16x8_splat(127))
}

/// Limits the lanes to the range of a pixel.
fn clip_px_lanes(v: I16x8) -> (r: I16x8)
    ensures
        forall|l: int| 0 <= l < 8 ==> #[trigger] r@[l] == clip(v@[l] as int, 0, 255),
{
    i16x8_min(i16x8_max(v, i16x8_splat(0)), i16x8_splat(255))
}

/// The correction of the narrow filter, in eighths.
fn narrow_step_lanes(t: &Taps, hev: I16x8, Ghost(ep): Ghost<EdgeParams>) -> (r: I16x8)
    requires
        t.all_pixels(),
        ep.unit == 1,
        forall|l: int| 0 <= l < 8 ==> #[trigger] hev@[l] == mask(high_variance(t.line(l), ep)),
    ensures
        forall|l: int| 0 <= l < 8 ==> -128 <= #[trigger] r@[l] == narrow_step(t.line(l), ep) <= 127,
{
    let f_in: I16x8 = v128_and(clip_diff_lanes(i16x8_sub(t.p(1), t.q(1))), hev);
    let across: I16x8 = i16x8_sub(t.q(0), t.p(0));
    let three: I16x8 = i16x8_splat(3);
    let tripled: I16x8 = i16x8_mul(three, across);
    let r: I16x8 = clip_diff_lanes(i16x8_add(tripled, f_in));
    proof {
        assert forall|l: int| 0 <= l < 8 implies -128 <= #[trigger] r@[l] == narrow_step(
            t.line(l),
            ep,
        ) <= 127 by {
            let x = t.line(l);
            assert(x[5] == t.v@[5]@[l] && x[6] == t.v@[6]@[l] && x[7] == t.v@[7]@[l] && x[8]
                == t.v@[8]@[l]);
            assert(across@[l] == x[7] - x[6]);
            assert(three@[l] * across@[l] == 3 * across@[l]) by (nonlinear_arith)
                requires
                    three@[l] == 3,
            ;
            assert(tripled@[l] == 3 * (x[7] - x[6]));
        }
    }
    r
}

/// The tap at index `j` after the narrow filter.
pub open spec fn narrow_tap(t: Seq<int>, ep: EdgeParams, j: int) -> int {
    let (first, values) = narrow_taps(t, ep);
    if first <= j < first + values.len() {
        values[j - first]
    } else {
        t[j]
    }
}

/// The pixels of `px`, each moved up by its correction.
fn raised(px: I16x8, f: I16x8) -> (r: I16x8)
    requires
        forall|l: int| 0 <= l < 8 ==> 0 <= #[trigger] px@[l] <= 255,
        forall|l: int| 0 <= l < 8 ==> -16 <= #[trigger] f@[l] <= 15,
    ensures
        forall|l: int| 0 <= l < 8 ==> #[trigger] r@[l] == clip(px@[l] + f@[l], 0, 255),
{
    clip_px_lanes(i16x8_add(px, f))
}

/// The pixels of `px`, each moved down by its correction.
fn lowered(px: I16x8, f: I16x8) -> (r: I16x8)
    requires
        forall|l: int| 0 <= l < 8 ==> 0 <= #[trigger] px@[l] <= 255,
        forall|l: int| 0 <= l < 8 ==> -16 <= #[trigger] f@[l] <= 15,
    ensures
        forall|l: int| 0 <= l < 8 ==> #[trigger] r@[l] == clip(px@[l] - f@[l], 0, 255),
{
    clip_px_lanes(i16x8_sub(px, f))
}

/// The corrections at q0, at p0 and at the taps next to them.
fn narrow_corrections(t: &Taps, f: I16x8, Ghost(ep): Ghost<EdgeParams>) -> (r: (I16x8, I16x8, I16x8))
    requires
        ep.unit == 1,
        forall|l: int| 0 <= l < 8 ==> -128 <= #[trigger] f@[l] == narrow_step(t.line(l), ep) <= 127,
    ensures
        forall|l: int| 0 <= l < 8 ==> -16 <= #[trigger] r.0@[l] == narrow_q(t.line(l), ep) <= 15,
        forall|l: int| 0 <= l < 8 ==> -16 <= #[trigger] r.1@[l] == narrow_p(t.line(l), ep) <= 15,
        forall|l: int| 0 <= l < 8 ==> -8 <= #[trigger] r.2@[l] == narrow_outer(t.line(l), ep) <= 8,
{
    let hi: I16x8 = i16x8_splat(127);
    let f1: I16x8 = i16x8_shr(i16x8_min(i16x8_add(f, i16x8_splat(4)), hi), 3);
    let f2: I16x8 = i16x8_shr(i16x8_min(i16x8_add(f, i16x8_splat(3)), hi), 3);
    let f3: I16x8 = i16x8_shr(i16x8_add(f1, i16x8_splat(1)), 1);
    proof {
        reveal(narrow_p);
        reveal(narrow_q);
        reveal(narrow_outer);
        assert forall|l: int| 0 <= l < 8 implies -16 <= #[trigger] f1@[l] == narrow_q(t.line(l), ep)
            <= 15 by {
            lemma_shr_values(min(f@[l] + 4, 127));
        }
        assert forall|l: int| 0 <= l < 8 implies -16 <= #[trigger] f2@[l] == narrow_p(t.line(l), ep)
            <= 15 by {
            lemma_shr_values(min(f@[l] + 3, 127));
        }
        assert forall|l: int| 0 <= l < 8 implies -8 <= #[trigger] f3@[l] == narrow_outer(
            t.line(l),
            ep,
        ) <= 8 by {
            lemma_shr_values(f1@[l] + 1);
        }
    }
    (f1, f2, f3)
}

/// The taps p1 to q1 after the narrow filter.
fn narrow_lanes(t: &Taps, vh: I16x8, Ghost(ep): Ghost<EdgeParams>) -> (r: [I16x8; 4])
    requires
        t.all_pixels(),
        ep.unit == 1,
        ep.max_pixel == 255,
        forall|l: int| 0 <= l < 8 ==> #[trigger] vh@[l] == ep.h,
    ensures
        forall|l: int| 0 <= l < 8 ==> #[trigger] r@[0]@[l] == narrow_tap(t.line(l), ep, 5),
        forall|l: int| 0 <= l < 8 ==> #[trigger] r@[1]@[l] == narrow_tap(t.line(l), ep, 6),
        forall|l: int| 0 <= l < 8 ==> #[trigger] r@[2]@[l] == narrow_tap(t.line(l), ep, 7),
        forall|l: int| 0 <= l < 8 ==> #[trigger] r@[3]@[l] == narrow_tap(t.line(l), ep, 8),
{
    let p1: I16x8 = t.p(1);
    let p0: I16x8 = t.p(0);
    let q0: I16x8 = t.q(0);
    let q1: I16x8 = t.q(1);
    let hev: I16x8 = v128_or(i16x8_gt(absdiff(p1, p0), vh), i16x8_gt(absdiff(q1, q0), vh));
    proof {
        assert forall|l: int| 0 <= l < 8 implies #[trigger] hev@[l] == mask(
            high_variance(t.line(l), ep),
        ) by {
            let x = t.line(l);
            assert(x[5] == p1@[l] && x[6] == p0@[l] && x[7] == q0@[l] && x[8] == q1@[l]);
        }
    }
    let f: I16x8 = narrow_step_lanes(t, hev, Ghost(ep));
    let (f1, f2, f3): (I16x8, I16x8, I16x8) = narrow_corrections(t, f, Ghost(ep));
    let n_p0: I16x8 = raised(p0, f2);
    let n_q0: I16x8 = lowered(q0, f1);
    let n_p1: I16x8 = v128_bitselect(p1, raised(p1, f3), hev);
    let n_q1: I16x8 = v128_bitselect(q1, lowered(q1, f3), hev);
    proof {
        assert forall|l: int| 0 <= l < 8 implies #[trigger] n_p1@[l] == narrow_tap(t.line(l), ep, 5)
            && n_p0@[l] == narrow_tap(t.line(l), ep, 6) && n_q0@[l] == narrow_tap(t.line(l), ep, 7)
            && n_q1@[l] == narrow_tap(t.line(l), ep, 8) by {
            let x = t.line(l);
            assert(x[5] == p1@[l] && x[6] == p0@[l] && x[7] == q0@[l] && x[8] == q1@[l]);
            assert(0 <= x[5] <= 255 && 0 <= x[6] <= 255 && 0 <= x[7] <= 255 && 0 <= x[8] <= 255);
            assert(f1@[l] == narrow_q(x, ep) && f2@[l] == narrow_p(x, ep) && f3@[l] == narrow_outer(
                x,
                ep,
            ));
            assert(hev@[l] == mask(high_variance(x, ep)));
        }
    }
    [n_p1, n_p0, n_q0, n_q1]
}

/// Puts the taps of the narrow filter into the lanes that `m` marks.
fn overlay_narrow(
    t: &Taps,
    vh: I16x8,
    m: I16x8,
    out: &mut [I16x8; 14],
    Ghost(ep): Ghost<EdgeParams>,
)
    requires
        t.all_pixels(),
        is_mask(m),
        ep.unit == 1,
        ep.max_pixel == 255,
        forall|l: int| 0 <= l < 8 ==> #[trigger] vh@[l] == ep.h,
        old(out)@ == t.v@,
    ensures
        forall|j: int, l: int|
            0 <= j < 14 && 0 <= l < 8 ==> #[trigger] final(out)@[j]@[l] == if m@[l] == mask(true) {
                narrow_tap(t.line(l), ep, j)
            } else {
                t.line(l)[j]
            },
{
    let n: [I16x8; 4] = narrow_lanes(t, vh, Ghost(ep));
    out[P - 1] = v128_bitselect(n[0], out[P - 1], m);
    out[P] = v128_bitselect(n[1], out[P], m);
    out[Q] = v128_bitselect(n[2], out[Q], m);
    out[Q + 1] = v128_bitselect(n[3], out[Q + 1], m);
    proof {
        assert forall|j: int, l: int| 0 <= j < 14 && 0 <= l < 8 implies #[trigger] out@[j]@[l] == (
        if m@[l] == mask(true) {
            narrow_tap(t.line(l), ep, j)
        } else {
            t.line(l)[j]
        }) by {
            assert(m@[l] == mask(true) || m@[l] == mask(false));
            if j < 5 || j > 8 {
                assert(out@[j] == t.v@[j]);
                assert(narrow_tap(t.line(l), ep, j) == t.line(l)[j]);
            } else {
                assert(n@[j - 5]@[l] == narrow_tap(t.line(l), ep, j)) by {
                    assert(j == 5 || j == 6 || j == 7 || j == 8);
                }
            }
        }
    }
}

/// Filters all lines at once. Nothing is returned where none of the low four lines is filtered.
fn filter_lanes(t: &Taps, e: u8, i: u8, h: u8, wd: i32) -> (r: Option<[I16x8; 14]>)
    requires
        t.all_pixels(),
    ensures
        r matches Some(out) ==> forall|j: int, l: int|
            0 <= j < 14 && 0 <= l < 8 ==> #[trigger] out@[j]@[l] == filtered_tap(
                t.line(l),
                edge_params(wd as int, e, i, h, 8, 255),
                j,
            ),
        r is None ==> forall|l: int|
            0 <= l < 4 ==> !filter_mask(
                #[trigger] t.line(l),
                edge_params(wd as int, e, i, h, 8, 255),
            ),
{
    let ghost ep = edge_params(wd as int, e, i, h, 8, 255);
    proof {
        lemma_edge_params_8bit(wd as int, e, i, h);
    }
    let ve: I16x8 = i16x8_splat(e as i16);
    let vi: I16x8 = i16x8_splat(i as i16);
    let vh: I16x8 = i16x8_splat(h as i16);
    let vf: I16x8 = i16x8_splat(1);
    let fm: I16x8 = filter_mask_lanes(t, wd, ve, vi, Ghost(ep));
    let low: I16x8 = v128_and(fm, i16x8(-1, -1, -1, -1, 0, 0, 0, 0));
    if !v128_any_true(low) {
        proof {
            assert forall|l: int| 0 <= l < 4 implies !filter_mask(#[trigger] t.line(l), ep) by {
                assert(low@[l] == fm@[l]);
            }
        }
        return None;
    }
    let flat8in: I16x8 = flat_in_lanes(t, wd, vf, Ghost(ep));
    let flat8out: I16x8 = flat_out_lanes(t, wd, vf, Ghost(ep));
    let m16: I16x8 = v128_and(fm, v128_and(flat8out, flat8in));
    let m8: I16x8 = if wd >= 8 {
        v128_andnot(v128_and(fm, flat8in), m16)
    } else {
        i16x8_splat(0)
    };
    let m6: I16x8 = if wd == 6 {
        v128_and(fm, flat8in)
    } else {
        i16x8_splat(0)
    };
    let m_narrow: I16x8 = v128_andnot(fm, v128_or(m16, v128_or(m8, m6)));
    proof {
        assert forall|l: int| 0 <= l < 8 implies #[trigger] m16@[l] == mask(
            edge_filter(t.line(l), ep) is Wide16,
        ) && m8@[l] == mask(edge_filter(t.line(l), ep) is Wide8) && m6@[l] == mask(
            edge_filter(t.line(l), ep) is Wide6,
        ) && m_narrow@[l] == mask(edge_filter(t.line(l), ep) is Narrow) by {
            let x = t.line(l);
            assert(fm@[l] == mask(filter_mask(x, ep)));
            assert(flat8in@[l] == mask(flat_in(x, ep)));
            assert(flat8out@[l] == mask(flat_out(x, ep)));
        }
    }
    let mut out: [I16x8; 14] = t.v;
    overlay_narrow(t, vh, m_narrow, &mut out, Ghost(ep));
    if wd == 6 {
        overlay6(t, m6, &mut out);
    }
    if wd >= 8 {
        overlay8(t, m8, &mut out);
    }
    if wd >= 16 {
        overlay16(t, m16, &mut out);
    }
    proof {
        assert forall|j: int, l: int| 0 <= j < 14 && 0 <= l < 8 implies #[trigger] out@[j]@[l]
            == filtered_tap(t.line(l), ep, j) by {
            assert(m16@[l] == mask(edge_filter(t.line(l), ep) is Wide16));
        }
    }
    Some(out)
}

/// The index of the first tap that is written back.
pub open spec fn first_written(wd: int) -> int {
    if wd >= 16 {
        1
    } else if wd >= 8 {
        4
    } else {
        5
    }
}

/// The distance of the taps: the given one for lines along a row, one pixel for lines down the rows.
pub open spec fn tap_stride(stridea: int, strideb: int) -> int {
    if stridea == 1 {
        strideb
    } else {
        1
    }
}

/// The tap at index `j` of line `l`, filtered.
pub open spec fn line_tap(
    data: Seq<int>,
    base: int,
    stridea: int,
    strideb: int,
    ep: EdgeParams,
    l: int,
    j: int,
) -> int {
    filtered_tap(taps_at(data, base + l * stridea, tap_stride(stridea, strideb)), ep, j)
}

/// `data` after the filtered taps from `first_written` up to index `end` have been stored, four pixels
/// of a row at a time.
pub open spec fn rows_stored(
    data: Seq<int>,
    base: int,
    strideb: int,
    ep: EdgeParams,
    end: int,
) -> Seq<int>
    decreases end - first_written(ep.wd),
{
    if end <= first_written(ep.wd) {
        data
    } else {
        put_row(
            rows_stored(data, base, strideb, ep, end - 1),
            base + (end - 1 - 7) * strideb,
            Seq::new(4, |l: int| line_tap(data, base, 1, strideb, ep, l, end - 1)),
        )
    }
}

/// `data` after the filtered taps of the first `n` lines have been stored, one row after the other.
pub open spec fn cols_stored(data: Seq<int>, base: int, stridea: int, ep: EdgeParams, n: nat) -> Seq<
    int,
>
    decreases n,
{
    if n == 0 {
        data
    } else {
        put_row(
            cols_stored(data, base, stridea, ep, (n - 1) as nat),
            base + (n - 1) * stridea + first_written(ep.wd) - 7,
            Seq::new(
                (14 - 2 * first_written(ep.wd)) as nat,
                |m: int|
                    filtered_tap(
                        taps_at(data, base + (n - 1) * stridea, 1),
                        ep,
                        first_written(ep.wd) + m,
                    ),
            ),
        )
    }
}

/// The plane after the four lines along one edge have been filtered at once.
pub open spec fn edge_filtered_at_once(
    data: Seq<int>,
    base: int,
    stridea: int,
    strideb: int,
    ep: EdgeParams,
) -> Seq<int> {
    if stridea == 1 {
        rows_stored(data, base, strideb, ep, 14 - first_written(ep.wd))
    } else {
        cols_stored(data, base, stridea, ep, 4)
    }
}

/// How many taps on each side of the edge are loaded.
pub open spec fn loaded_taps(wd: int) -> int {
    min(wd / 2, 7)
}

/// Whether the pixels that are loaded lie in a plane of `len` pixels.
pub open spec fn block_inside(len: int, base: int, stridea: int, strideb: int, wd: int) -> bool {
    if stridea == 1 {
        taps_inside(len - 3, base, strideb, loaded_taps(wd))
    } else {
        cols_inside(len, base, stridea, loaded_taps(wd))
    }
}

/// Stores the low four lanes, each limited to the range of a byte.
fn store4(dst: &mut [u8], at: usize, v: I16x8)
    requires
        at + 4 <= old(dst)@.len(),
    ensures
        pixels(final(dst)@) == put_row(
            pixels(old(dst)@),
            at as int,
            Seq::new(4, |l: int| clip8(v@[l] as int)),
        ),
        final(dst)@.len() == old(dst)@.len(),
{
    let packed: [u8; 16] = u8x16_narrow_i16x8(v, v);
    assert(dst.len() == dst@.len());
    dst[at] = packed[0];
    dst[at + 1] = packed[1];
    dst[at + 2] = packed[2];
    dst[at + 3] = packed[3];
    proof {
        assert(pixels(dst@) =~= put_row(
            pixels(old(dst)@),
            at as int,
            Seq::new(4, |l: int| clip8(v@[l] as int)),
        ));
    }
}

/// Stores the taps from index `lo` up to `hi` of the line in lane `l`, each limited to the range of a
/// byte; q0 is at `at`.
fn store_line(dst: &mut [u8], at: usize, out: &[I16x8; 14], l: usize, lo: usize, hi: usize)
    requires
        lo <= 7 <= hi <= 14,
        l < 8,
        7 - lo <= at,
        at + hi - 7 <= old(dst)@.len(),
    ensures
        pixels(final(dst)@) == put_row(
            pixels(old(dst)@),
            at + lo - 7,
            Seq::new((hi - lo) as nat, |m: int| clip8(out@[lo + m]@[l as int] as int)),
        ),
        final(dst)@.len() == old(dst)@.len(),
{
    let mut j: usize = lo;
    while j < hi
        invariant
            lo <= j <= hi,
            lo <= 7 <= hi <= 14,
            l < 8,
            7 - lo <= at,
            at + hi - 7 <= dst@.len(),
            dst@.len() == old(dst)@.len(),
            forall|x: int|
                0 <= x < dst@.len() ==> #[trigger] dst@[x] == if at + lo - 7 <= x < at + j - 7 {
                    clip8(out@[x - at + 7]@[l as int] as int)
                } else {
                    old(dst)@[x] as int
                },
        decreases hi - j,
    {
        let packed: [u8; 16] = u8x16_narrow_i16x8(out[j], out[j]);
        assert(dst.len() == dst@.len());
        let x: usize = at - (7 - lo) + (j - lo);
        dst[x] = packed[l];
        j += 1;
    }
    proof {
        assert(pixels(dst@) =~= put_row(
            pixels(old(dst)@),
            at + lo - 7,
            Seq::new((hi - lo) as nat, |m: int| clip8(out@[lo + m]@[l as int] as int)),
        ));
    }
}

/// Where no line is filtered, storing the taps changes nothing.
proof fn lemma_rows_stored_off(data: Seq<int>, base: int, strideb: int, ep: EdgeParams, end: int)
    requires
        first_written(ep.wd) <= end <= 14 - first_written(ep.wd),
        ep.wd == 4 || ep.wd == 6 || ep.wd == 8 || ep.wd == 16,
        taps_inside(data.len() - 3, base, strideb, loaded_taps(ep.wd)),
        forall|l: int| 0 <= l < 4 ==> !filter_mask(#[trigger] taps_at(data, base + l, strideb), ep),
    ensures
        rows_stored(data, base, strideb, ep, end) == data,
    decreases end,
{
    if end > first_written(ep.wd) {
        lemma_rows_stored_off(data, base, strideb, ep, end - 1);
        let at = base + (end - 1 - 7) * strideb;
        lemma_taps_inside(data.len() - 3, base, strideb, loaded_taps(ep.wd), end - 1 - 7);
        let row = Seq::new(4, |l: int| line_tap(data, base, 1, strideb, ep, l, end - 1));
        assert forall|l: int| 0 <= l < 4 implies #[trigger] row[l] == data[at + l] by {
            let t = taps_at(data, base + l, strideb);
            assert(!filter_mask(t, ep));
            assert(base + l * 1 == base + l);
            assert(row[l] == t[end - 1]);
        }
        assert(put_row(data, at, row) =~= data);
    }
}

proof fn lemma_cols_stored_off(data: Seq<int>, base: int, stridea: int, ep: EdgeParams, n: nat)
    requires
        n <= 4,
        ep.wd == 4 || ep.wd == 6 || ep.wd == 8 || ep.wd == 16,
        cols_inside(data.len() as int, base, stridea, loaded_taps(ep.wd)),
        forall|l: int|
            0 <= l < 4 ==> !filter_mask(#[trigger] taps_at(data, base + l * stridea, 1), ep),
    ensures
        cols_stored(data, base, stridea, ep, n) == data,
    decreases n,
{
    if n > 0 {
        lemma_cols_stored_off(data, base, stridea, ep, (n - 1) as nat);
        let at = base + (n - 1) * stridea;
        lemma_cols_inside(data.len() as int, base, stridea, loaded_taps(ep.wd), n - 1);
        let t = taps_at(data, at, 1);
        assert(!filter_mask(t, ep));
        assert(cols_stored(data, base, stridea, ep, n) =~= data);
    }
}

/// A line that agrees with the taps of the plane where they are loaded is filtered in the same way.
pub proof fn lemma_loaded_line(x: Seq<int>, u: Seq<int>, ep: EdgeParams)
    requires
        ep.wd == 4 || ep.wd == 6 || ep.wd == 8 || ep.wd == 16,
        x.len() == 14,
        u.len() == 14,
        forall|j: int|
            7 - loaded_taps(ep.wd) <= j < 7 + loaded_taps(ep.wd) ==> #[trigger] x[j] == u[j],
    ensures
        filter_mask(x, ep) == filter_mask(u, ep),
        forall|j: int|
            first_written(ep.wd) <= j < 14 - first_written(ep.wd) ==> #[trigger] filtered_tap(x, ep, j)
                == filtered_tap(u, ep, j),
{
    if ep.wd == 16 {
        assert(x =~= u);
    }
    lemma_mask_local(x, u, ep);
    lemma_new_taps_local(x, u, ep);
}

/// Filters the four lines along one edge of an 8-bit picture. The width `wd` is 4, 6, 8 or 16. Lines
/// that are one pixel apart run along a row, and their taps are `strideb` apart; others run down the
/// rows, and their taps lie side by side.
pub fn loop_filter(
    dst: &mut [u8],
    base: usize,
    e: u8,
    i: u8,
    h: u8,
    stridea: isize,
    strideb: isize,
    wd: i32,
)
    requires
        wd == 4 || wd == 6 || wd == 8 || wd == 16,
        block_inside(old(dst)@.len() as int, base as int, stridea as int, strideb as int, wd as int),
    ensures
        pixels(final(dst)@) == edge_filtered_at_once(
            pixels(old(dst)@),
            base as int,
            stridea as int,
            strideb as int,
            edge_params(wd as int, e, i, h, 8, 255),
        ),
        final(dst)@.len() == old(dst)@.len(),
{
    let ghost ep = edge_params(wd as int, e, i, h, 8, 255);
    let ghost data = pixels(dst@);
    let ghost sb = tap_stride(stridea as int, strideb as int);
    proof {
        lemma_edge_params_8bit(wd as int, e, i, h);
        assert(dst.len() == dst@.len());
    }
    let half: usize = if wd >= 14 {
        7
    } else {
        (wd / 2) as usize
    };
    let by_rows: bool = stridea == 1;
    let t: Taps = if by_rows {
        load_rows(dst, base, strideb, half)
    } else {
        load_cols(dst, base, stridea, half)
    };
    proof {
        assert forall|l: int| 0 <= l < 4 implies filter_mask(#[trigger] t.line(l), ep) == filter_mask(
            taps_at(data, base + l * stridea, sb),
            ep,
        ) && forall|j: int|
            first_written(wd as int) <= j < 14 - first_written(wd as int) ==> #[trigger] filtered_tap(
                t.line(l),
                ep,
                j,
            ) == line_tap(data, base as int, stridea as int, strideb as int, ep, l, j) by {
            let u = taps_at(data, base + l * stridea, sb);
            assert forall|j: int| 7 - half <= j < 7 + half implies #[trigger] t.line(l)[j] == u[j] by {
                if by_rows {
                    assert(l * 1 == l);
                    lemma_taps_inside(
                        dst@.len() - 3,
                        base as int,
                        strideb as int,
                        half as int,
                        j - 7,
                    );
                } else {
                    lemma_cols_inside(dst@.len() as int, base as int, stridea as int, half as int, l);
                }
                assert(t.line(l)[j] == t.v@[j]@[l]);
            }
            lemma_loaded_line(t.line(l), u, ep);
        }
    }
    let out: [I16x8; 14] = match filter_lanes(&t, e, i, h, wd) {
        Some(out) => out,
        None => {
            proof {
                if by_rows {
                    assert forall|l: int| 0 <= l < 4 implies !filter_mask(
                        #[trigger] taps_at(data, base + l, strideb as int),
                        ep,
                    ) by {
                        assert(!filter_mask(t.line(l), ep));
                        assert(base + l * 1 == base + l);
                    }
                    lemma_rows_stored_off(
                        data,
                        base as int,
                        strideb as int,
                        ep,
                        14 - first_written(wd as int),
                    );
                } else {
                    assert forall|l: int| 0 <= l < 4 implies !filter_mask(
                        #[trigger] taps_at(data, base + l * stridea, 1),
                        ep,
                    ) by {
                        assert(!filter_mask(t.line(l), ep));
                    }
                    lemma_cols_stored_off(data, base as int, stridea as int, ep, 4);
                }
            }
            return ;
        },
    };
    let lo: usize = if wd >= 16 {
        1
    } else if wd >= 8 {
        4
    } else {
        5
    };
    let hi: usize = 14 - lo;
    proof {
        assert forall|j: int, l: int| lo <= j < hi && 0 <= l < 4 implies clip8(
            (#[trigger] out@[j]@[l]) as int,
        ) == line_tap(data, base as int, stridea as int, strideb as int, ep, l, j) by {
            let x = t.line(l);
            assert forall|k: int| 0 <= k < 14 implies 0 <= #[trigger] x[k] <= ep.max_pixel by {
                assert(x[k] == t.v@[k]@[l]);
            }
            filtered_taps_are_pixels(x, ep, j);
            assert(out@[j]@[l] == filtered_tap(x, ep, j));
        }
    }
    if by_rows {
        let mut j: usize = lo;
        while j < hi
            invariant
                lo <= j <= hi,
                lo == first_written(wd as int),
                hi == 14 - lo,
                7 - half <= lo,
                half <= 7,
                ep.wd == wd,
                stridea == 1,
                dst@.len() == old(dst)@.len(),
                taps_inside(dst@.len() - 3, base as int, strideb as int, half as int),
                pixels(dst@) == rows_stored(data, base as int, strideb as int, ep, j as int),
                forall|j: int, l: int|
                    lo <= j < hi && 0 <= l < 4 ==> clip8((#[trigger] out@[j]@[l]) as int) == line_tap(
                        data,
                        base as int,
                        stridea as int,
                        strideb as int,
                        ep,
                        l,
                        j,
                    ),
            decreases hi - j,
        {
            let k: isize = j as isize - 7;
            proof {
                lemma_taps_inside(dst@.len() - 3, base as int, strideb as int, half as int, k as int);
                assert(dst.len() == dst@.len());
                assert(Seq::new(4, |l: int| clip8(out@[j as int]@[l] as int)) =~= Seq::new(
                    4,
                    |l: int| line_tap(data, base as int, 1, strideb as int, ep, l, j as int),
                ));
            }
            let at: usize = offset_by(base, k, strideb);
            store4(dst, at, out[j]);
            j += 1;
        }
    } else {
        let mut l: usize = 0;
        while l < 4
            invariant
                l <= 4,
                lo == first_written(wd as int),
                hi == 14 - lo,
                1 <= lo <= 5,
                7 - half <= lo,
                half <= 7,
                ep.wd == wd,
                stridea != 1,
                dst@.len() == old(dst)@.len(),
                cols_inside(dst@.len() as int, base as int, stridea as int, half as int),
                pixels(dst@) == cols_stored(data, base as int, stridea as int, ep, l as nat),
                forall|j: int, l: int|
                    lo <= j < hi && 0 <= l < 4 ==> clip8((#[trigger] out@[j]@[l]) as int) == line_tap(
                        data,
                        base as int,
                        stridea as int,
                        strideb as int,
                        ep,
                        l,
                        j,
                    ),
            decreases 4 - l,
        {
            proof {
                lemma_cols_inside(
                    dst@.len() as int,
                    base as int,
                    stridea as int,
                    half as int,
                    l as int,
                );
                assert(dst.len() == dst@.len());
                assert(Seq::new(
                    (hi - lo) as nat,
                    |m: int| clip8(out@[lo + m]@[l as int] as int),
                ) =~= Seq::new(
                    (14 - 2 * first_written(ep.wd)) as nat,
                    |m: int|
                        filtered_tap(
                            taps_at(data, base + l * stridea, 1),
                            ep,
                            first_written(ep.wd) + m,
                        ),
                ));
            }
            let at: usize = offset_by(base, l as isize, stridea);
            store_line(dst, at, &out, l, lo, hi);
            l += 1;
        }
    }
}

/// The sum of a list of taps counts each term once, whichever comes last.
pub proof fn lane_sum_counts_each_term(terms: Seq<I16x8>, l: int, term: I16x8)
    ensures
        lane_sum(Seq::<I16x8>::empty(), l, 0) == 0,
        lane_sum(terms.push(term), l, terms.len() + 1) == lane_sum(terms, l, terms.len()) + term@[l],
{
    lemma_lane_sum_of_prefix(terms, l, term, terms.len());
}

proof fn lemma_lane_sum_of_prefix(terms: Seq<I16x8>, l: int, term: I16x8, n: nat)
    requires
        n <= terms.len(),
    ensures
        lane_sum(terms.push(term), l, n) == lane_sum(terms, l, n),
    decreases n,
{
    if n > 0 {
        lemma_lane_sum_of_prefix(terms, l, term, (n - 1) as nat);
    }
}

/// Lines along a row are stored one after the other, each computed from the plane as it was before: four lines,
/// `stridea` apart, whose taps follow each other.
pub proof fn columns_are_stored_line_by_line(
    data: Seq<int>,
    base: int,
    stridea: int,
    strideb: int,
    ep: EdgeParams,
    n: nat,
    x: int,
)
    requires
        stridea != 1,
        n < 4,
        0 <= x < data.len(),
    ensures
        ({
            let first = if ep.wd >= 16 {
                1int
            } else if ep.wd >= 8 {
                4int
            } else {
                5int
            };
            let j = x - (base + n * stridea) + 7;
            &&& edge_filtered_at_once(data, base, stridea, strideb, ep) == cols_stored(
                data,
                base,
                stridea,
                ep,
                4,
            )
            &&& cols_stored(data, base, stridea, ep, 0) == data
            &&& cols_stored(data, base, stridea, ep, n).len() == data.len()
            &&& cols_stored(data, base, stridea, ep, n + 1)[x] == if first <= j < 14 - first {
                filtered_tap(taps_at(data, base + n * stridea, 1), ep, j)
            } else {
                cols_stored(data, base, stridea, ep, n)[x]
            }
        }),
{
    reveal_with_fuel(cols_stored, 5);
}

/// Lines down the rows are stored a row of four taps after the other, each computed from the plane as it was before.
pub proof fn rows_are_stored_tap_by_tap(
    data: Seq<int>,
    base: int,
    strideb: int,
    ep: EdgeParams,
    j: int,
    x: int,
)
    requires
        0 <= x < data.len(),
    ensures
        ({
            let first = if ep.wd >= 16 {
                1int
            } else if ep.wd >= 8 {
                4int
            } else {
                5int
            };
            let l = x - (base + (j - 7) * strideb);
            &&& edge_filtered_at_once(data, base, 1, strideb, ep) == rows_stored(
                data,
                base,
                strideb,
                ep,
                14 - first,
            )
            &&& rows_stored(data, base, strideb, ep, first) == data
            &&& first <= j < 14 - first ==> rows_stored(data, base, strideb, ep, j + 1)[x] == if 0 <= l < 4 {
                filtered_tap(taps_at(data, base + l, strideb), ep, j)
            } else {
                rows_stored(data, base, strideb, ep, j)[x]
            }
        }),
{
    lemma_rows_stored_len(data, base, strideb, ep, j);
    lemma_rows_stored_len(data, base, strideb, ep, j + 1);
}

proof fn lemma_rows_stored_len(data: Seq<int>, base: int, strideb: int, ep: EdgeParams, end: int)
    ensures
        rows_stored(data, base, strideb, ep, end).len() == data.len(),
    decreases end - first_written(ep.wd),
{
    if end > first_written(ep.wd) {
        lemma_rows_stored_len(data, base, strideb, ep, end - 1);
    }
}

} // verus!
