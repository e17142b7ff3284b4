//! Warped motion compensation of blocks of 8 by 8 pixels.
use crate::arith::{clip8, lemma_shr_values, sat16, wrap32};
use crate::bitdepth::pixels;
use crate::mc::wasm::{
    along_row, dot, lemma_dot_bound, lemma_dot_same, round_pack_i16, store8_i16, store8_u8, sum_at,
    values, Sums,
};
use crate::picture::{advance, lemma_rows_inside, offset_by, rows_inside, rows_put};
use crate::simd::{
    i16x8_extend_i8, i16x8_load, i16x8_shuffle, i16x8_shuffle_pairs, i16x8_shuffle_quads, i16x8_splat,
    i32x4_add, i32x4_dot_i16x8, i32x4_shuffle, u16x8_load8, I16x8, I32x4,
};
use vstd::prelude::*;

verus! {

/// The low halves of `a` and `b`, lane by lane in turn.
fn zip_low(a: I16x8, b: I16x8) -> (r: I16x8)
    ensures
        r@ == seq![a@[0], b@[0], a@[1], b@[1], a@[2], b@[2], a@[3], b@[3]],
{
    let r: I16x8 = i16x8_shuffle::<0, 8, 1, 9, 2, 10, 3, 11>(a, b);
    assert(r@ =~= seq![a@[0], b@[0], a@[1], b@[1], a@[2], b@[2], a@[3], b@[3]]);
    r
}

/// The high halves of `a` and `b`, lane by lane in turn.
fn zip_high(a: I16x8, b: I16x8) -> (r: I16x8)
    ensures
        r@ == seq![a@[4], b@[4], a@[5], b@[5], a@[6], b@[6], a@[7], b@[7]],
{
    let r: I16x8 = i16x8_shuffle::<4, 12, 5, 13, 6, 14, 7, 15>(a, b);
    assert(r@ =~= seq![a@[4], b@[4], a@[5], b@[5], a@[6], b@[6], a@[7], b@[7]]);
    r
}

/// The low halves of `a` and `b`, two lanes at a time in turn.
fn zip_pairs_low(a: I16x8, b: I16x8) -> (r: I16x8)
    ensures
        r@ == seq![a@[0], a@[1], b@[0], b@[1], a@[2], a@[3], b@[2], b@[3]],
{
    let r: I16x8 = i16x8_shuffle_pairs::<0, 4, 1, 5>(a, b);
    assert(r@ =~= seq![a@[0], a@[1], b@[0], b@[1], a@[2], a@[3], b@[2], b@[3]]);
    r
}

/// The high halves of `a` and `b`, two lanes at a time in turn.
fn zip_pairs_high(a: I16x8, b: I16x8) -> (r: I16x8)
    ensures
        r@ == seq![a@[4], a@[5], b@[4], b@[5], a@[6], a@[7], b@[6], b@[7]],
{
    let r: I16x8 = i16x8_shuffle_pairs::<2, 6, 3, 7>(a, b);
    assert(r@ =~= seq![a@[4], a@[5], b@[4], b@[5], a@[6], a@[7], b@[6], b@[7]]);
    r
}

/// The low halves of `a` and `b`.
fn join_low(a: I16x8, b: I16x8) -> (r: I16x8)
    ensures
        r@ == seq![a@[0], a@[1], a@[2], a@[3], b@[0], b@[1], b@[2], b@[3]],
{
    let r: I16x8 = i16x8_shuffle_quads::<0, 2>(a, b);
    assert(r@ =~= seq![a@[0], a@[1], a@[2], a@[3], b@[0], b@[1], b@[2], b@[3]]);
    r
}

/// The high halves of `a` and `b`.
fn join_high(a: I16x8, b: I16x8) -> (r: I16x8)
    ensures
        r@ == seq![a@[4], a@[5], a@[6], a@[7], b@[4], b@[5], b@[6], b@[7]],
{
    let r: I16x8 = i16x8_shuffle_quads::<1, 3>(a, b);
    assert(r@ =~= seq![a@[4], a@[5], a@[6], a@[7], b@[4], b@[5], b@[6], b@[7]]);
    r
}

/// Whether `t` is the transpose of `r`.
pub open spec fn transposed(r: Seq<I16x8>, t: Seq<I16x8>) -> bool {
    forall|i: int, j: int| 0 <= i < 8 && 0 <= j < 8 ==> #[trigger] t[i]@[j] == r[j]@[i]
}

/// Transposes eight rows of eight lanes.
pub fn transpose8x8_i16(r: [I16x8; 8]) -> (t: [I16x8; 8])
    ensures
        transposed(r@, t@),
{
    let a0: I16x8 = zip_low(r[0], r[1]);
    let a1: I16x8 = zip_high(r[0], r[1]);
    let a2: I16x8 = zip_low(r[2], r[3]);
    let a3: I16x8 = zip_high(r[2], r[3]);
    let a4: I16x8 = zip_low(r[4], r[5]);
    let a5: I16x8 = zip_high(r[4], r[5]);
    let a6: I16x8 = zip_low(r[6], r[7]);
    let a7: I16x8 = zip_high(r[6], r[7]);
    let b0: I16x8 = zip_pairs_low(a0, a2);
    let b1: I16x8 = zip_pairs_high(a0, a2);
    let b2: I16x8 = zip_pairs_low(a1, a3);
    let b3: I16x8 = zip_pairs_high(a1, a3);
    let b4: I16x8 = zip_pairs_low(a4, a6);
    let b5: I16x8 = zip_pairs_high(a4, a6);
    let b6: I16x8 = zip_pairs_low(a5, a7);
    let b7: I16x8 = zip_pairs_high(a5, a7);
    let t: [I16x8; 8] = [
        join_low(b0, b4),
        join_high(b0, b4),
        join_low(b1, b5),
        join_high(b1, b5),
        join_low(b2, b6),
        join_high(b2, b6),
        join_low(b3, b7),
        join_high(b3, b7),
    ];
    proof {
        assert(column(r@, 0) =~= t@[0]@);
        assert(column(r@, 1) =~= t@[1]@);
        assert(column(r@, 2) =~= t@[2]@);
        assert(column(r@, 3) =~= t@[3]@);
        assert(column(r@, 4) =~= t@[4]@);
        assert(column(r@, 5) =~= t@[5]@);
        assert(column(r@, 6) =~= t@[6]@);
        assert(column(r@, 7) =~= t@[7]@);
        assert forall|i: int, j: int| 0 <= i < 8 && 0 <= j < 8 implies #[trigger] t@[i]@[j]
            == r@[j]@[i] by {
            assert(t@[i]@ == column(r@, i)) by {
                assert(i == 0 || i == 1 || i == 2 || i == 3 || i == 4 || i == 5 || i == 6 || i == 7);
            }
            assert(column(r@, i)[j] == r@[j]@[i]) by {
                assert(j == 0 || j == 1 || j == 2 || j == 3 || j == 4 || j == 5 || j == 6 || j == 7);
            }
        }
    }
    t
}

/// Lane `i` of each of eight rows.
spec fn column(r: Seq<I16x8>, i: int) -> Seq<i16> {
    seq![
        r[0]@[i],
        r[1]@[i],
        r[2]@[i],
        r[3]@[i],
        r[4]@[i],
        r[5]@[i],
        r[6]@[i],
        r[7]@[i],
    ]
}

/// Transposing twice gives back the rows.
pub proof fn transposing_twice_is_nothing(r: Seq<I16x8>, t: Seq<I16x8>, u: Seq<I16x8>)
    requires
        transposed(r, t),
        transposed(t, u),
    ensures
        forall|i: int, j: int| 0 <= i < 8 && 0 <= j < 8 ==> #[trigger] u[i]@[j] == r[i]@[j],
{
    assert forall|i: int, j: int| 0 <= i < 8 && 0 <= j < 8 implies #[trigger] u[i]@[j] == r[i]@[j] by {
        assert(t[j]@[i] == r[i]@[j]);
    }
}

/// The sum of the products of the eight lanes of `a` and `f`.
pub open spec fn lane_dot(a: I16x8, f: I16x8) -> int {
    a@[0] * f@[0] + a@[1] * f@[1] + a@[2] * f@[2] + a@[3] * f@[3] + a@[4] * f@[4] + a@[5] * f@[5]
        + a@[6] * f@[6] + a@[7] * f@[7]
}

/// The sums of the products of the lanes of four pairs, modulo 2^32.
pub fn dot4(a: [I16x8; 4], f: [I16x8; 4]) -> (r: I32x4)
    ensures
        forall|j: int| 0 <= j < 4 ==> #[trigger] r@[j] == wrap32(lane_dot(a@[j], f@[j])),
{
    let d0: I32x4 = i32x4_dot_i16x8(a[0], f[0]);
    let d1: I32x4 = i32x4_dot_i16x8(a[1], f[1]);
    let d2: I32x4 = i32x4_dot_i16x8(a[2], f[2]);
    let d3: I32x4 = i32x4_dot_i16x8(a[3], f[3]);
    let t0: I32x4 = fold(d0, d1);
    let t1: I32x4 = fold(d2, d3);
    let even: I32x4 = i32x4_shuffle::<0, 2, 4, 6>(t0, t1);
    let odd: I32x4 = i32x4_shuffle::<1, 3, 5, 7>(t0, t1);
    let r: I32x4 = i32x4_add(even, odd);
    proof {
        lemma_dot_lanes(d0, a@[0], f@[0]);
        lemma_dot_lanes(d1, a@[1], f@[1]);
        lemma_dot_lanes(d2, a@[2], f@[2]);
        lemma_dot_lanes(d3, a@[3], f@[3]);
        assert(r@[0] == wrap32(t0@[0] + t0@[1]));
        assert(r@[1] == wrap32(t0@[2] + t0@[3]));
        assert(r@[2] == wrap32(t1@[0] + t1@[1]));
        assert(r@[3] == wrap32(t1@[2] + t1@[3]));
        lemma_wrap32_four(d0@[0] as int, d0@[1] as int, d0@[2] as int, d0@[3] as int);
        lemma_wrap32_four(d1@[0] as int, d1@[1] as int, d1@[2] as int, d1@[3] as int);
        lemma_wrap32_four(d2@[0] as int, d2@[1] as int, d2@[2] as int, d2@[3] as int);
        lemma_wrap32_four(d3@[0] as int, d3@[1] as int, d3@[2] as int, d3@[3] as int);
        assert forall|j: int| 0 <= j < 4 implies #[trigger] r@[j] == wrap32(
            lane_dot(a@[j], f@[j]),
        ) by {
            assert(j == 0 || j == 1 || j == 2 || j == 3);
        }
    }
    r
}

/// The sums of the low and the high halves of `a`, then of `b`.
fn fold(a: I32x4, b: I32x4) -> (r: I32x4)
    ensures
        r@[0] == wrap32(a@[0] + a@[2]),
        r@[1] == wrap32(a@[1] + a@[3]),
        r@[2] == wrap32(b@[0] + b@[2]),
        r@[3] == wrap32(b@[1] + b@[3]),
{
    i32x4_add(i32x4_shuffle::<0, 1, 4, 5>(a, b), i32x4_shuffle::<2, 3, 6, 7>(a, b))
}

#[verifier::spinoff_prover]
proof fn lemma_wrap32_four(a: int, b: int, c: int, d: int)
    ensures
        wrap32(wrap32(a + c) + wrap32(b + d)) == wrap32(a + b + c + d),
{
}

proof fn lemma_dot_lanes(d: I32x4, a: I16x8, f: I16x8)
    requires
        forall|l: int|
            0 <= l < 4 ==> #[trigger] d@[l] == wrap32(
                a@[2 * l] * f@[2 * l] + a@[2 * l + 1] * f@[2 * l + 1],
            ),
    ensures
        wrap32(d@[0] + d@[1] + d@[2] + d@[3]) == wrap32(lane_dot(a, f)),
{
    assert(d@[0] == wrap32(a@[0] * f@[0] + a@[1] * f@[1]));
    assert(d@[1] == wrap32(a@[2] * f@[2] + a@[3] * f@[3]));
    assert(d@[2] == wrap32(a@[4] * f@[4] + a@[5] * f@[5]));
    assert(d@[3] == wrap32(a@[6] * f@[6] + a@[7] * f@[7]));
}

/// The number of filters for warped motion.
pub const WARP_FILTERS: usize = 193;

/// The number of the filter for the pixel in column `x` of row `y`. The position starts at `m` and moves on by
/// `dx` with each column and by `dy` with each row; a filter stands for 1024 positions.
pub open spec fn warp_index(m: int, dx: int, dy: int, x: int, y: int) -> int {
    64 + (m + y * dy + x * dx + 512) / 1024
}

/// Whether there is a filter for each pixel of `rows` rows of eight.
pub open spec fn warp_in_range(m: int, dx: int, dy: int, rows: int) -> bool {
    forall|x: int, y: int|
        0 <= x < 8 && 0 <= y < rows ==> 0 <= #[trigger] warp_index(m, dx, dy, x, y) < WARP_FILTERS
}

/// The eight taps of filter `idx`.
fn warp_taps(table: &[[i8; 8]; 193], idx: i32) -> (r: I16x8)
    requires
        0 <= idx < WARP_FILTERS,
    ensures
        forall|l: int| 0 <= l < 8 ==> #[trigger] r@[l] == table@[idx as int]@[l],
{
    i16x8_extend_i8(&table[idx as usize])
}

/// The taps of the filter for the pixel in column `x` of the row whose position starts at `m`.
fn taps_for(
    table: &[[i8; 8]; 193],
    m: i32,
    dx: i16,
    x: i32,
    Ghost(start): Ghost<int>,
    Ghost(dy): Ghost<int>,
    Ghost(y): Ghost<int>,
) -> (r: I16x8)
    requires
        0 <= x < 8,
        m == start + y * dy,
        -0x10_0000 <= m <= 0x10_0000,
        0 <= warp_index(start, dx as int, dy, x as int, y) < WARP_FILTERS,
    ensures
        forall|l: int|
            0 <= l < 8 ==> #[trigger] r@[l] == table@[warp_index(start, dx as int, dy, x as int, y)]@[l],
{
    proof {
        assert(-7 * 0x8000 <= x * dx <= 7 * 0x8000) by (nonlinear_arith)
            requires
                0 <= x <= 7,
                -0x8000 <= dx <= 0x7fff,
        ;
    }
    let at: i32 = m + x * dx as i32 + 512;
    proof {
        crate::arith::lemma_i32_shr(at, 10);
        lemma_shr_values(at as int);
    }
    warp_taps(table, 64 + (at >> 10))
}

/// The position of the row `y` of eight is small where there is a filter for its first pixel.
proof fn lemma_row_position(m: int, dx: int, dy: int, y: int, rows: int)
    requires
        warp_in_range(m, dx, dy, rows),
        0 <= y < rows,
    ensures
        -0x10_0000 <= m + y * dy <= 0x10_0000,
{
    assert(0 <= warp_index(m, dx, dy, 0, y) < WARP_FILTERS);
    assert(0 * dx == 0) by (nonlinear_arith);
}

/// A sum of products of lanes is the filtered sum.
proof fn lemma_lane_dot(a: I16x8, f: I16x8, taps: Seq<i8>, v: spec_fn(int) -> int)
    requires
        taps.len() == 8,
        forall|l: int| 0 <= l < 8 ==> #[trigger] f@[l] == taps[l],
        forall|l: int| 0 <= l < 8 ==> #[trigger] a@[l] == v(l),
    ensures
        lane_dot(a, f) == dot(taps, v, 8),
        wrap32(lane_dot(a, f)) == lane_dot(a, f),
        -0x200_0000 <= lane_dot(a, f) <= 0x200_0000,
{
    reveal_with_fuel(dot, 9);
    assert forall|l: int| 0 <= l < 8 implies #[trigger] a@[l] * f@[l] == taps[l] * v(l) by {
        assert(a@[l] * f@[l] == taps[l] * v(l)) by (nonlinear_arith)
            requires
                a@[l] == v(l),
                f@[l] == taps[l],
        ;
    }
    assert forall|k: int| 0 <= k < 8 implies -0x8000 <= #[trigger] v(k) <= 0x7fff by {
        assert(a@[k] == v(k));
    }
    lemma_dot_bound(taps, v, 8);
    assert(a@[0] * f@[0] == taps[0] * v(0));
    assert(a@[1] * f@[1] == taps[1] * v(1));
    assert(a@[2] * f@[2] == taps[2] * v(2));
    assert(a@[3] * f@[3] == taps[3] * v(3));
    assert(a@[4] * f@[4] == taps[4] * v(4));
    assert(a@[5] * f@[5] == taps[5] * v(5));
    assert(a@[6] * f@[6] == taps[6] * v(6));
    assert(a@[7] * f@[7] == taps[7] * v(7));
}

/// The sums of eight pixels, each with taps of its own.
fn dot8(a: &[I16x8; 8], f: &[I16x8; 8]) -> (r: Sums)
    ensures
        forall|x: int| 0 <= x < 8 ==> #[trigger] sum_at(r, x) == wrap32(lane_dot(a@[x], f@[x])),
{
    let a0: [I16x8; 4] = [a[0], a[1], a[2], a[3]];
    let f0: [I16x8; 4] = [f[0], f[1], f[2], f[3]];
    let a1: [I16x8; 4] = [a[4], a[5], a[6], a[7]];
    let f1: [I16x8; 4] = [f[4], f[5], f[6], f[7]];
    let r: Sums = (dot4(a0, f0), dot4(a1, f1));
    proof {
        assert forall|x: int| 0 <= x < 8 implies #[trigger] sum_at(r, x) == wrap32(
            lane_dot(a@[x], f@[x]),
        ) by {
            if x < 4 {
                assert(a0@[x] == a@[x] && f0@[x] == f@[x]);
            } else {
                assert(a1@[x - 4] == a@[x] && f1@[x - 4] == f@[x]);
            }
        }
    }
    r
}

/// The taps of the filters for the eight pixels of a row.
fn row_taps(
    table: &[[i8; 8]; 193],
    m: i32,
    dx: i16,
    Ghost(start): Ghost<int>,
    Ghost(dy): Ghost<int>,
    Ghost(y): Ghost<int>,
    Ghost(rows): Ghost<int>,
) -> (r: [I16x8; 8])
    requires
        warp_in_range(start, dx as int, dy, rows),
        0 <= y < rows,
        m == start + y * dy,
    ensures
        forall|x: int, l: int|
            0 <= x < 8 && 0 <= l < 8 ==> #[trigger] r@[x]@[l] == table@[warp_index(
                start,
                dx as int,
                dy,
                x,
                y,
            )]@[l],
{
    let mut r: [I16x8; 8] = [i16x8_splat(0); 8];
    let mut x: usize = 0;
    while x < 8
        invariant
            x <= 8,
            warp_in_range(start, dx as int, dy, rows),
            0 <= y < rows,
            m == start + y * dy,
            forall|u: int, l: int|
                0 <= u < x && 0 <= l < 8 ==> #[trigger] r@[u]@[l] == table@[warp_index(
                    start,
                    dx as int,
                    dy,
                    u,
                    y,
                )]@[l],
        decreases 8 - x,
    {
        proof {
            lemma_row_position(start, dx as int, dy, y, rows);
            assert(0 <= warp_index(start, dx as int, dy, x as int, y) < WARP_FILTERS);
        }
        r[x] = taps_for(table, m, dx, x as i32, Ghost(start), Ghost(dy), Ghost(y));
        x += 1;
    }
    r
}

/// The intermediate value in column `x` of row `y` of the fifteen rows that a warped block needs; the first is
/// three rows above it.
pub open spec fn warp_mid(
    src: Seq<u8>,
    at: int,
    stride: int,
    table: Seq<[i8; 8]>,
    abcd: Seq<i16>,
    mx: int,
    x: int,
    y: int,
) -> int {
    sat16(
        (dot(
            table[warp_index(mx, abcd[0] as int, abcd[1] as int, x, y)]@,
            along_row(src, at + (y - 3) * stride - 3 + x),
            8,
        ) + 4) / 8,
    )
}

/// Eight windows of eight pixels, each one pixel behind the one before it.
fn windows8(src: &[u8], start: usize) -> (r: [I16x8; 8])
    requires
        start + 15 <= src@.len(),
    ensures
        forall|x: int, l: int|
            0 <= x < 8 && 0 <= l < 8 ==> #[trigger] r@[x]@[l] == src@[start + x + l],
{
    let mut r: [I16x8; 8] = [i16x8_splat(0); 8];
    let mut x: usize = 0;
    while x < 8
        invariant
            x <= 8,
            start + 15 <= src@.len(),
            forall|u: int, l: int|
                0 <= u < x && 0 <= l < 8 ==> #[trigger] r@[u]@[l] == src@[start + u + l],
        decreases 8 - x,
    {
        assert(src.len() == src@.len());
        r[x] = u16x8_load8(src, start + x);
        x += 1;
    }
    r
}

/// Eight intermediate values of row `y`.
fn warp_mid8(
    src: &[u8],
    start: usize,
    table: &[[i8; 8]; 193],
    abcd: &[i16; 4],
    mx: i32,
    y: usize,
    Ghost(at): Ghost<int>,
    Ghost(stride): Ghost<int>,
) -> (r: I16x8)
    requires
        y < 15,
        start == at + (y - 3) * stride - 3,
        start + 15 <= src@.len(),
        warp_in_range(mx as int, abcd@[0] as int, abcd@[1] as int, 15),
    ensures
        forall|x: int|
            0 <= x < 8 ==> #[trigger] r@[x] == warp_mid(
                src@,
                at,
                stride,
                table@,
                abcd@,
                mx as int,
                x,
                y as int,
            ),
{
    proof {
        lemma_row_position(mx as int, abcd@[0] as int, abcd@[1] as int, y as int, 15);
        assert(-14 * 0x8000 <= y * abcd@[1] <= 14 * 0x8000) by (nonlinear_arith)
            requires
                0 <= y <= 14,
                -0x8000 <= abcd@[1] <= 0x7fff,
        ;
        assert(src.len() == src@.len());
    }
    let m: i32 = mx + y as i32 * abcd[1] as i32;
    let f: [I16x8; 8] = row_taps(
        table,
        m,
        abcd[0],
        Ghost(mx as int),
        Ghost(abcd@[1] as int),
        Ghost(y as int),
        Ghost(15int),
    );
    let px: [I16x8; 8] = windows8(src, start);
    let acc: Sums = dot8(&px, &f);
    let r: I16x8 = round_pack_i16(acc, 4, 3);
    proof {
        assert forall|x: int| 0 <= x < 8 implies #[trigger] r@[x] == warp_mid(
            src@,
            at,
            stride,
            table@,
            abcd@,
            mx as int,
            x,
            y as int,
        ) by {
            let taps = table@[warp_index(mx as int, abcd@[0] as int, abcd@[1] as int, x, y as int)]@;
            let v = along_row(src@, at + (y - 3) * stride - 3 + x);
            assert forall|l: int| 0 <= l < 8 implies #[trigger] px@[x]@[l] == v(l) by {
                assert(start + x + l == at + (y - 3) * stride - 3 + x + l);
            }
            lemma_lane_dot(px@[x], f@[x], taps, v);
            assert(sum_at(acc, x) == wrap32(lane_dot(px@[x], f@[x])));
            lemma_shr_values(sum_at(acc, x) + 4);
        }
    }
    r
}

/// The sixteen values of one column of the intermediate block.
fn column_of(lo: I16x8, hi: I16x8) -> (r: [i16; 16])
    ensures
        r@ == lo@ + hi@,
{
    let r: [i16; 16] = [
        lo.lanes[0],
        lo.lanes[1],
        lo.lanes[2],
        lo.lanes[3],
        lo.lanes[4],
        lo.lanes[5],
        lo.lanes[6],
        lo.lanes[7],
        hi.lanes[0],
        hi.lanes[1],
        hi.lanes[2],
        hi.lanes[3],
        hi.lanes[4],
        hi.lanes[5],
        hi.lanes[6],
        hi.lanes[7],
    ];
    assert(r@ =~= lo@ + hi@);
    r
}

/// The pass along the rows of a warped block: fifteen rows of eight values, each with a filter of its own, by
/// column. A sixteenth row holds zeros.
fn warp_h_pass(
    src: &[u8],
    src_at: usize,
    src_stride: isize,
    table: &[[i8; 8]; 193],
    abcd: &[i16; 4],
    mx: i32,
) -> (r: [[i16; 16]; 8])
    requires
        rows_inside(src@.len() as int, src_at - 3 * src_stride - 3, src_stride as int, 15, 15),
        warp_in_range(mx as int, abcd@[0] as int, abcd@[1] as int, 15),
    ensures
        forall|x: int, y: int|
            0 <= x < 8 && 0 <= y < 15 ==> #[trigger] r@[x]@[y] == warp_mid(
                src@,
                src_at as int,
                src_stride as int,
                table@,
                abcd@,
                mx as int,
                x,
                y,
            ),
        forall|x: int| 0 <= x < 8 ==> (#[trigger] r@[x])@[15] == 0,
{
    let mut mid: [I16x8; 16] = [i16x8_splat(0); 16];
    let mut y: usize = 0;
    while y < 15
        invariant
            y <= 15,
            rows_inside(src@.len() as int, src_at - 3 * src_stride - 3, src_stride as int, 15, 15),
            warp_in_range(mx as int, abcd@[0] as int, abcd@[1] as int, 15),
            forall|v: int, x: int|
                0 <= v < y && 0 <= x < 8 ==> #[trigger] mid@[v]@[x] == warp_mid(
                    src@,
                    src_at as int,
                    src_stride as int,
                    table@,
                    abcd@,
                    mx as int,
                    x,
                    v,
                ),
            forall|x: int| 0 <= x < 8 ==> #[trigger] mid@[15]@[x] == 0,
        decreases 15 - y,
    {
        let row: isize = y as isize - 3;
        proof {
            lemma_rows_inside(
                src@.len() as int,
                src_at - 3 * src_stride - 3,
                src_stride as int,
                15,
                15,
                y as int,
            );
            assert(row * src_stride == y * src_stride - 3 * src_stride) by (nonlinear_arith)
                requires
                    row == y - 3,
            ;
            assert(src.len() == src@.len());
        }
        let start: usize = offset_by(src_at, row, src_stride) - 3;
        mid[y] = warp_mid8(
            src,
            start,
            table,
            abcd,
            mx,
            y,
            Ghost(src_at as int),
            Ghost(src_stride as int),
        );
        y += 1;
    }
    let upper: [I16x8; 8] = [mid[0], mid[1], mid[2], mid[3], mid[4], mid[5], mid[6], mid[7]];
    let lower: [I16x8; 8] = [mid[8], mid[9], mid[10], mid[11], mid[12], mid[13], mid[14], mid[15]];
    let t0: [I16x8; 8] = transpose8x8_i16(upper);
    let t1: [I16x8; 8] = transpose8x8_i16(lower);
    let out: [[i16; 16]; 8] = [
        column_of(t0[0], t1[0]),
        column_of(t0[1], t1[1]),
        column_of(t0[2], t1[2]),
        column_of(t0[3], t1[3]),
        column_of(t0[4], t1[4]),
        column_of(t0[5], t1[5]),
        column_of(t0[6], t1[6]),
        column_of(t0[7], t1[7]),
    ];
    proof {
        assert forall|x: int, y: int| 0 <= x < 8 && 0 <= y < 16 implies #[trigger] out@[x]@[y]
            == mid@[y]@[x] by {
            assert(out@[x]@ == t0@[x]@ + t1@[x]@) by {
                assert(x == 0 || x == 1 || x == 2 || x == 3 || x == 4 || x == 5 || x == 6 || x == 7);
            }
            if y < 8 {
                assert(t0@[x]@[y] == upper@[y]@[x]);
                assert(upper@[y] == mid@[y]) by {
                    assert(y == 0 || y == 1 || y == 2 || y == 3 || y == 4 || y == 5 || y == 6 || y
                        == 7);
                }
            } else {
                assert(t1@[x]@[y - 8] == lower@[y - 8]@[x]);
                assert(lower@[y - 8] == mid@[y]) by {
                    assert(y == 8 || y == 9 || y == 10 || y == 11 || y == 12 || y == 13 || y == 14
                        || y == 15);
                }
            }
        }
    }
    out
}

/// The filtered sum down the columns for the pixel in column `x` of row `y` of a warped block.
pub open spec fn warp_sum(
    src: Seq<u8>,
    at: int,
    stride: int,
    table: Seq<[i8; 8]>,
    abcd: Seq<i16>,
    mx: int,
    my: int,
    x: int,
    y: int,
) -> int {
    dot(
        table[warp_index(my, abcd[2] as int, abcd[3] as int, x, y)]@,
        |k: int| warp_mid(src, at, stride, table, abcd, mx, x, y + k),
        8,
    )
}

/// Eight values of each column of the intermediate block, from row `y` on.
fn columns8(mid_t: &[[i16; 16]; 8], y: usize) -> (r: [I16x8; 8])
    requires
        y <= 8,
    ensures
        forall|x: int, l: int|
            0 <= x < 8 && 0 <= l < 8 ==> #[trigger] r@[x]@[l] == mid_t@[x]@[y + l],
{
    let mut r: [I16x8; 8] = [i16x8_splat(0); 8];
    let mut x: usize = 0;
    while x < 8
        invariant
            x <= 8,
            y <= 8,
            forall|u: int, l: int|
                0 <= u < x && 0 <= l < 8 ==> #[trigger] r@[u]@[l] == mid_t@[u]@[y + l],
        decreases 8 - x,
    {
        r[x] = i16x8_load(&mid_t[x], y);
        x += 1;
    }
    r
}

/// One row of the pass down the columns: the sums of eight pixels.
fn warp_v_row(
    mid_t: &[[i16; 16]; 8],
    y: usize,
    table: &[[i8; 8]; 193],
    abcd: &[i16; 4],
    my: i32,
) -> (r: Sums)
    requires
        y < 8,
        warp_in_range(my as int, abcd@[2] as int, abcd@[3] as int, 8),
    ensures
        forall|x: int|
            0 <= x < 8 ==> #[trigger] sum_at(r, x) == dot(
                table@[warp_index(my as int, abcd@[2] as int, abcd@[3] as int, x, y as int)]@,
                down(mid_t@[x]@, y as int),
                8,
            ) && -0x200_0000 <= sum_at(r, x) <= 0x200_0000,
{
    proof {
        lemma_row_position(my as int, abcd@[2] as int, abcd@[3] as int, y as int, 8);
        assert(-7 * 0x8000 <= y * abcd@[3] <= 7 * 0x8000) by (nonlinear_arith)
            requires
                0 <= y <= 7,
                -0x8000 <= abcd@[3] <= 0x7fff,
        ;
    }
    let m: i32 = my + y as i32 * abcd[3] as i32;
    let f: [I16x8; 8] = row_taps(
        table,
        m,
        abcd[2],
        Ghost(my as int),
        Ghost(abcd@[3] as int),
        Ghost(y as int),
        Ghost(8int),
    );
    let col: [I16x8; 8] = columns8(mid_t, y);
    let r: Sums = dot8(&col, &f);
    proof {
        assert forall|x: int| 0 <= x < 8 implies #[trigger] sum_at(r, x) == dot(
            table@[warp_index(my as int, abcd@[2] as int, abcd@[3] as int, x, y as int)]@,
            down(mid_t@[x]@, y as int),
            8,
        ) && -0x200_0000 <= sum_at(r, x) <= 0x200_0000 by {
            let taps = table@[warp_index(my as int, abcd@[2] as int, abcd@[3] as int, x, y as int)]@;
            let v = down(mid_t@[x]@, y as int);
            lemma_lane_dot(col@[x], f@[x], taps, v);
        }
    }
    r
}

/// The value that tap `k` meets in a column of the intermediate block, from row `y` on.
pub open spec fn down(column: Seq<i16>, y: int) -> spec_fn(int) -> int {
    |k: int| column[y + k] as int
}

/// The sums of eight pixels of row `y` of a warped block, from the intermediate block.
fn warp_sums8(
    mid_t: &[[i16; 16]; 8],
    y: usize,
    table: &[[i8; 8]; 193],
    abcd: &[i16; 4],
    my: i32,
    Ghost(src): Ghost<Seq<u8>>,
    Ghost(at): Ghost<int>,
    Ghost(stride): Ghost<int>,
    Ghost(mx): Ghost<int>,
) -> (r: Sums)
    requires
        y < 8,
        warp_in_range(my as int, abcd@[2] as int, abcd@[3] as int, 8),
        forall|x: int, y: int|
            0 <= x < 8 && 0 <= y < 15 ==> #[trigger] mid_t@[x]@[y] == warp_mid(
                src,
                at,
                stride,
                table@,
                abcd@,
                mx,
                x,
                y,
            ),
    ensures
        forall|x: int|
            0 <= x < 8 ==> #[trigger] sum_at(r, x) == warp_sum(
                src,
                at,
                stride,
                table@,
                abcd@,
                mx,
                my as int,
                x,
                y as int,
            ) && -0x200_0000 <= sum_at(r, x) <= 0x200_0000,
{
    let r: Sums = warp_v_row(mid_t, y, table, abcd, my);
    proof {
        assert forall|x: int| 0 <= x < 8 implies #[trigger] sum_at(r, x) == warp_sum(
            src,
            at,
            stride,
            table@,
            abcd@,
            mx,
            my as int,
            x,
            y as int,
        ) && -0x200_0000 <= sum_at(r, x) <= 0x200_0000 by {
            let a = down(mid_t@[x]@, y as int);
            let b = |k: int| warp_mid(src, at, stride, table@, abcd@, mx, x, y + k);
            assert forall|k: int| 0 <= k < 8 implies #[trigger] a(k) == b(k) by {
                assert(mid_t@[x]@[y + k] == warp_mid(src, at, stride, table@, abcd@, mx, x, y + k));
            }
            lemma_dot_same(
                table@[warp_index(my as int, abcd@[2] as int, abcd@[3] as int, x, y as int)]@,
                a,
                b,
                8,
            );
        }
    }
    r
}

/// Whether the pixels that warping a block looks at lie in the source plane, and whether there is a filter for
/// each of them.
pub open spec fn warp_readable(
    len: int,
    at: int,
    stride: int,
    abcd: Seq<i16>,
    mx: int,
    my: int,
) -> bool {
    &&& rows_inside(len, at - 3 * stride - 3, stride, 15, 15)
    &&& warp_in_range(mx, abcd[0] as int, abcd[1] as int, 15)
    &&& warp_in_range(my, abcd[2] as int, abcd[3] as int, 8)
}

/// Row `y` of the warped block.
pub open spec fn warp_rows(
    src: Seq<u8>,
    at: int,
    stride: int,
    table: Seq<[i8; 8]>,
    abcd: Seq<i16>,
    mx: int,
    my: int,
) -> spec_fn(int) -> Seq<int> {
    |y: int|
        Seq::new(
            8,
            |x: int|
                clip8((warp_sum(src, at, stride, table, abcd, mx, my, x, y) + 1024) / 2048),
        )
}

/// Predicts a block of 8 by 8 pixels by warping the source plane around `src_at`. The parameters `abcd` are how
/// much the position in the filter table moves per column and per row, in the pass along the rows and in the
/// pass down the columns.
pub fn warp_affine_8x8(
    dst: &mut [u8],
    dst_at: usize,
    dst_stride: isize,
    src: &[u8],
    src_at: usize,
    src_stride: isize,
    abcd: &[i16; 4],
    mx: i32,
    my: i32,
    table: &[[i8; 8]; 193],
)
    requires
        warp_readable(
            src@.len() as int,
            src_at as int,
            src_stride as int,
            abcd@,
            mx as int,
            my as int,
        ),
        rows_inside(old(dst)@.len() as int, dst_at as int, dst_stride as int, 8, 8),
    ensures
        pixels(final(dst)@) == rows_put(
            pixels(old(dst)@),
            dst_at as int,
            dst_stride as int,
            warp_rows(
                src@,
                src_at as int,
                src_stride as int,
                table@,
                abcd@,
                mx as int,
                my as int,
            ),
            8,
        ),
        final(dst)@.len() == old(dst)@.len(),
{
    let ghost data = pixels(dst@);
    let ghost row = warp_rows(
        src@,
        src_at as int,
        src_stride as int,
        table@,
        abcd@,
        mx as int,
        my as int,
    );
    let mid_t: [[i16; 16]; 8] = warp_h_pass(src, src_at, src_stride, table, abcd, mx);
    let mut y: usize = 0;
    while y < 8
        invariant
            y <= 8,
            warp_in_range(my as int, abcd@[2] as int, abcd@[3] as int, 8),
            forall|x: int, y: int|
                0 <= x < 8 && 0 <= y < 15 ==> #[trigger] mid_t@[x]@[y] == warp_mid(
                    src@,
                    src_at as int,
                    src_stride as int,
                    table@,
                    abcd@,
                    mx as int,
                    x,
                    y,
                ),
            dst@.len() == old(dst)@.len(),
            rows_inside(dst@.len() as int, dst_at as int, dst_stride as int, 8, 8),
            row == warp_rows(
                src@,
                src_at as int,
                src_stride as int,
                table@,
                abcd@,
                mx as int,
                my as int,
            ),
            pixels(dst@) == rows_put(data, dst_at as int, dst_stride as int, row, y as nat),
        decreases 8 - y,
    {
        let acc: Sums = warp_sums8(
            &mid_t,
            y,
            table,
            abcd,
            my,
            Ghost(src@),
            Ghost(src_at as int),
            Ghost(src_stride as int),
            Ghost(mx as int),
        );
        let v: I16x8 = round_pack_i16(acc, 1024, 11);
        proof {
            lemma_rows_inside(dst@.len() as int, dst_at as int, dst_stride as int, 8, 8, y as int);
            assert(dst.len() == dst@.len());
            assert forall|x: int| 0 <= x < 8 implies clip8((#[trigger] v@[x]) as int) == row(
                y as int,
            )[x] by {
                lemma_shr_values(sum_at(acc, x) + 1024);
            }
            assert(Seq::new(8, |l: int| clip8(v@[l] as int)) =~= row(y as int));
        }
        let at: usize = offset_by(dst_at, y as isize, dst_stride);
        store8_u8(dst, at, v);
        y += 1;
    }
}

/// Row `y` of the warped block, with four bits more than a pixel.
pub open spec fn warp_rows_t(
    src: Seq<u8>,
    at: int,
    stride: int,
    table: Seq<[i8; 8]>,
    abcd: Seq<i16>,
    mx: int,
    my: int,
) -> spec_fn(int) -> Seq<int> {
    |y: int|
        Seq::new(
            8,
            |x: int| sat16((warp_sum(src, at, stride, table, abcd, mx, my, x, y) + 64) / 128),
        )
}

/// Predicts a block of 8 by 8 pixels as `warp_affine_8x8` does, but keeps four bits more of each pixel; the rows
/// are `tmp_stride` apart.
pub fn warp_affine_8x8t(
    tmp: &mut [i16],
    tmp_stride: usize,
    src: &[u8],
    src_at: usize,
    src_stride: isize,
    abcd: &[i16; 4],
    mx: i32,
    my: i32,
    table: &[[i8; 8]; 193],
)
    requires
        warp_readable(
            src@.len() as int,
            src_at as int,
            src_stride as int,
            abcd@,
            mx as int,
            my as int,
        ),
        rows_inside(old(tmp)@.len() as int, 0, tmp_stride as int, 8, 8),
    ensures
        values(final(tmp)@) == rows_put(
            values(old(tmp)@),
            0,
            tmp_stride as int,
            warp_rows_t(
                src@,
                src_at as int,
                src_stride as int,
                table@,
                abcd@,
                mx as int,
                my as int,
            ),
            8,
        ),
        final(tmp)@.len() == old(tmp)@.len(),
{
    let ghost data = values(tmp@);
    let ghost row = warp_rows_t(
        src@,
        src_at as int,
        src_stride as int,
        table@,
        abcd@,
        mx as int,
        my as int,
    );
    let mid_t: [[i16; 16]; 8] = warp_h_pass(src, src_at, src_stride, table, abcd, mx);
    let mut y: usize = 0;
    while y < 8
        invariant
            y <= 8,
            warp_in_range(my as int, abcd@[2] as int, abcd@[3] as int, 8),
            forall|x: int, y: int|
                0 <= x < 8 && 0 <= y < 15 ==> #[trigger] mid_t@[x]@[y] == warp_mid(
                    src@,
                    src_at as int,
                    src_stride as int,
                    table@,
                    abcd@,
                    mx as int,
                    x,
                    y,
                ),
            tmp@.len() == old(tmp)@.len(),
            rows_inside(tmp@.len() as int, 0, tmp_stride as int, 8, 8),
            row == warp_rows_t(
                src@,
                src_at as int,
                src_stride as int,
                table@,
                abcd@,
                mx as int,
                my as int,
            ),
            values(tmp@) == rows_put(data, 0, tmp_stride as int, row, y as nat),
        decreases 8 - y,
    {
        let acc: Sums = warp_sums8(
            &mid_t,
            y,
            table,
            abcd,
            my,
            Ghost(src@),
            Ghost(src_at as int),
            Ghost(src_stride as int),
            Ghost(mx as int),
        );
        let v: I16x8 = round_pack_i16(acc, 64, 7);
        proof {
            lemma_rows_inside(tmp@.len() as int, 0, tmp_stride as int, 8, 8, y as int);
            assert(tmp.len() == tmp@.len());
            assert forall|x: int| 0 <= x < 8 implies #[trigger] v@[x] == row(y as int)[x] by {
                lemma_shr_values(sum_at(acc, x) + 64);
            }
            assert(Seq::new(8, |l: int| v@[l] as int) =~= row(y as int));
        }
        let at: usize = advance(0, y, tmp_stride);
        store8_i16(tmp, at, v);
        y += 1;
    }
}

/// A block and its transpose hold the same lanes, with rows and columns exchanged, and each determines the other.
pub proof fn transpose_exchanges_rows_and_columns(r: Seq<I16x8>, t: Seq<I16x8>, i: int, j: int)
    requires
        transposed(r, t),
        0 <= i < 8,
        0 <= j < 8,
    ensures
        r[i]@[j] == t[j]@[i],
        t[i]@[j] == r[j]@[i],
{
    assert(t[j]@[i] == r[i]@[j]);
}

/// The sum of the products of the lanes is symmetric, and it counts each lane once.
pub proof fn lane_products_are_added_up(a: I16x8, f: I16x8)
    ensures
        lane_dot(a, f) == f@[0] * a@[0] + f@[1] * a@[1] + f@[2] * a@[2] + f@[3] * a@[3] + f@[4] * a@[4]
            + f@[5] * a@[5] + f@[6] * a@[6] + f@[7] * a@[7],
        lane_dot(a, f) == lane_dot(f, a),
{
    assert forall|l: int| #[trigger] a@[l] * f@[l] == f@[l] * a@[l] by {
        vstd::arithmetic::mul::lemma_mul_is_commutative(a@[l] as int, f@[l] as int);
    }
}

} // verus!
