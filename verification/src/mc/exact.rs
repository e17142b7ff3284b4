//! What the filters of motion compensation compute in unbounded arithmetic.
use crate::arith::{abs, clip8, sat16};
use crate::mc::warp::{warp_index, warp_mid, warp_rows, warp_rows_t};
use crate::mc::wasm::{
    along_column, along_row, dot, filter_sum, h_sum, lemma_dot_same, mid_value, prep_rows,
    prep_value, put_divisor, put_pixel, put_rounding, put_rows, Filters,
};
use crate::picture::{block_position, rows_inside, rows_put, rows_put_are_independent};
use vstd::prelude::*;

verus! {

/// The sum of the sizes of the first `n` taps.
pub open spec fn tap_sizes(f: Seq<i8>, n: nat) -> int
    decreases n,
{
    if n == 0 {
        0
    } else {
        tap_sizes(f, (n - 1) as nat) + abs(f[n - 1] as int)
    }
}

/// The sum of the first `n` taps.
pub open spec fn tap_sum(f: Seq<i8>, n: nat) -> int
    decreases n,
{
    if n == 0 {
        0
    } else {
        tap_sum(f, (n - 1) as nat) + f[n - 1]
    }
}

/// Whether `f` is a filter of eight taps whose sizes add up to at most `limit`.
pub open spec fn moderate(f: Seq<i8>, limit: int) -> bool {
    f.len() == 8 && tap_sizes(f, 8) <= limit
}

/// Whether the filters of a block are moderate enough for 16 bits.
pub open spec fn moderate_filters(f: Filters) -> bool {
    &&& f.h matches Some(g) ==> moderate(g, 128)
    &&& f.v matches Some(g) ==> moderate(g, 128)
}

/// The intermediate value without a limit.
pub open spec fn exact_mid(src: Seq<u8>, at: int, stride: int, f: Seq<i8>, x: int, y: int) -> int {
    (h_sum(src, at, stride, f, x, y) + 2) / 4
}

/// The filtered sum without a limit on the intermediate values.
pub open spec fn exact_sum(src: Seq<u8>, at: int, stride: int, f: Filters, x: int, y: int) -> int {
    match (f.h, f.v) {
        (Some(fh), Some(fv)) => dot(fv, |k: int| exact_mid(src, at, stride, fh, x, y + k - 3), 8),
        _ => filter_sum(src, at, stride, f, x, y),
    }
}

/// The prediction without a limit.
pub open spec fn exact_prep(src: Seq<u8>, at: int, stride: int, f: Filters, x: int, y: int) -> int {
    let sum = exact_sum(src, at, stride, f, x, y);
    match (f.h, f.v) {
        (Some(_), Some(_)) => (sum + 32) / 64,
        (None, None) => 16 * sum,
        _ => (sum + 2) / 4,
    }
}

proof fn lemma_dot_size(f: Seq<i8>, v: spec_fn(int) -> int, n: nat, size: int)
    requires
        0 <= size,
        forall|k: int| 0 <= k < n ==> -size <= #[trigger] v(k) <= size,
    ensures
        0 <= tap_sizes(f, n),
        -(size * tap_sizes(f, n)) <= dot(f, v, n) <= size * tap_sizes(f, n),
    decreases n,
{
    if n > 0 {
        lemma_dot_size(f, v, (n - 1) as nat, size);
        let a = f[n - 1] as int;
        let b = v(n - 1);
        let s = tap_sizes(f, (n - 1) as nat);
        assert(-(size * abs(a)) <= a * b <= size * abs(a)) by (nonlinear_arith)
            requires
                -size <= b <= size,
                0 <= size,
                abs(a) == if a < 0 {
                    -a
                } else {
                    a
                },
        ;
        assert(size * (s + abs(a)) == size * s + size * abs(a)) by (nonlinear_arith);
    } else {
        assert(size * 0 == 0) by (nonlinear_arith);
    }
}

/// A filter that is moderate keeps its sum small.
proof fn lemma_moderate(f: Seq<i8>, v: spec_fn(int) -> int, limit: int, size: int)
    requires
        moderate(f, limit),
        0 <= size,
        forall|k: int| 0 <= k < 8 ==> -size <= #[trigger] v(k) <= size,
    ensures
        -(size * limit) <= dot(f, v, 8) <= size * limit,
{
    lemma_dot_size(f, v, 8, size);
    let s = tap_sizes(f, 8);
    assert(size * s <= size * limit) by (nonlinear_arith)
        requires
            s <= limit,
            0 <= size,
    ;
}

/// With a moderate filter no intermediate value is limited.
pub proof fn mid_is_exact(src: Seq<u8>, at: int, stride: int, f: Seq<i8>, x: int, y: int)
    requires
        moderate(f, 128),
    ensures
        mid_value(src, at, stride, f, x, y) == exact_mid(src, at, stride, f, x, y),
        -8160 <= mid_value(src, at, stride, f, x, y) <= 8160,
{
    lemma_moderate(f, along_row(src, at + y * stride - 3 + x), 128, 255);
}

/// Whether a value fits 16 bits.
pub open spec fn fits16(v: int) -> bool {
    -0x8000 <= v <= 0x7fff
}

/// Whether the intermediate values of the pixel in column `x` of row `y` fit 16 bits.
pub open spec fn mids_fit(src: Seq<u8>, at: int, stride: int, f: Filters, x: int, y: int) -> bool {
    f.h is Some && f.v is Some ==> forall|v: int|
        y - 3 <= v <= y + 4 ==> fits16(#[trigger] exact_mid(src, at, stride, f.h->0, x, v))
}

/// Where the intermediate values fit 16 bits, the prediction is that of unbounded arithmetic, limited to the
/// range of a pixel or of 16 bits at its end alone.
pub proof fn prediction_is_exact(src: Seq<u8>, at: int, stride: int, f: Filters, x: int, y: int)
    requires
        mids_fit(src, at, stride, f, x, y),
    ensures
        filter_sum(src, at, stride, f, x, y) == exact_sum(src, at, stride, f, x, y),
        put_pixel(src, at, stride, f, x, y) == clip8(
            (exact_sum(src, at, stride, f, x, y) + put_rounding(f)) / put_divisor(f),
        ),
        prep_value(src, at, stride, f, x, y) == sat16(exact_prep(src, at, stride, f, x, y)),
{
    match (f.h, f.v) {
        (Some(fh), Some(fv)) => {
            let a = |k: int| mid_value(src, at, stride, fh, x, y + k - 3);
            let b = |k: int| exact_mid(src, at, stride, fh, x, y + k - 3);
            assert forall|k: int| 0 <= k < 8 implies #[trigger] a(k) == b(k) by {
                assert(fits16(exact_mid(src, at, stride, fh, x, y + k - 3)));
            }
            lemma_dot_same(fv, a, b, 8);
        },
        _ => {},
    }
}

/// With moderate filters everything but the pixels fits 16 bits.
pub proof fn moderate_filters_fit(src: Seq<u8>, at: int, stride: int, f: Filters, x: int, y: int)
    requires
        moderate_filters(f),
    ensures
        mids_fit(src, at, stride, f, x, y),
        fits16(exact_prep(src, at, stride, f, x, y)),
{
    match (f.h, f.v) {
        (Some(fh), Some(fv)) => {
            let b = |k: int| exact_mid(src, at, stride, fh, x, y + k - 3);
            assert forall|v: int| y - 3 <= v <= y + 4 implies -8160 <= #[trigger] exact_mid(
                src,
                at,
                stride,
                fh,
                x,
                v,
            ) <= 8160 by {
                mid_is_exact(src, at, stride, fh, x, v);
            }
            assert(forall|k: int| 0 <= k < 8 ==> -8160 <= #[trigger] b(k) <= 8160);
            lemma_moderate(fv, b, 128, 8160);
        },
        (Some(fh), None) => {
            lemma_moderate(fh, along_row(src, at + y * stride - 3 + x), 128, 255);
        },
        (None, Some(fv)) => {
            lemma_moderate(fv, along_column(src, at + (y - 3) * stride + x, stride), 128, 255);
        },
        (None, None) => {},
    }
}

/// The filter that leaves pixels as they are: one tap, at the pixel itself.
pub open spec fn identity_filter() -> Seq<i8> {
    seq![0i8, 0, 0, 64, 0, 0, 0, 0]
}

proof fn lemma_identity_dot(v: spec_fn(int) -> int)
    ensures
        dot(identity_filter(), v, 8) == 64 * v(3),
{
    reveal_with_fuel(dot, 9);
    assert(forall|b: int| #[trigger] (0 * b) == 0) by (nonlinear_arith);
}

/// To filter in one direction alone is to filter in the other one with the filter that leaves pixels as they are:
/// one pass rounds as the two that it stands for.
#[verifier::spinoff_prover]
pub proof fn one_pass_is_two(src: Seq<u8>, at: int, stride: int, f: Filters, x: int, y: int)
    requires
        f.h is Some != f.v is Some,
    ensures
        ({
            let g = Filters {
                h: if f.h is Some {
                    f.h
                } else {
                    Some(identity_filter())
                },
                v: if f.v is Some {
                    f.v
                } else {
                    Some(identity_filter())
                },
            };
            &&& put_pixel(src, at, stride, f, x, y) == put_pixel(src, at, stride, g, x, y)
            &&& prep_value(src, at, stride, f, x, y) == prep_value(src, at, stride, g, x, y)
        }),
{
    match (f.h, f.v) {
        (Some(fh), None) => {
            let a = |k: int| mid_value(src, at, stride, fh, x, y + k - 3);
            lemma_identity_dot(a);
            let s = h_sum(src, at, stride, fh, x, y);
            assert(a(3) == sat16((s + 2) / 4));
            assert((64 * ((s + 2) / 4) + 512) / 1024 == (s + 34) / 64);
        },
        (None, Some(fv)) => {
            let a = |k: int| mid_value(src, at, stride, identity_filter(), x, y + k - 3);
            let b = along_column(src, at + (y - 3) * stride + x, stride);
            assert forall|k: int| 0 <= k < 8 implies #[trigger] a(k) == 16 * b(k) by {
                let r = along_row(src, at + (y + k - 3) * stride - 3 + x);
                lemma_identity_dot(r);
                assert((y + k - 3) * stride == (y - 3) * stride + k * stride) by (nonlinear_arith);
                assert(r(3) == b(k));
            }
            lemma_dot_scaled(fv, a, b, 16, 8);
        },
        _ => {},
    }
}

/// To predict along the rows alone is to prepare along the rows, and then to round the four bits away.
pub proof fn put_along_rows_is_rounded_prep(
    src: Seq<u8>,
    at: int,
    stride: int,
    f: Filters,
    x: int,
    y: int,
)
    requires
        f.h is Some,
        f.v is None,
    ensures
        put_pixel(src, at, stride, f, x, y) == clip8(
            (prep_value(src, at, stride, f, x, y) + 8) / 16,
        ),
{
    let s = h_sum(src, at, stride, f.h->0, x, y);
    assert(((s + 2) / 4 + 8) / 16 == (s + 34) / 64);
}

/// A block that is predicted along the rows alone is the one that is prepared so, with the four bits rounded
/// away, where the rows of the destination do not overlap.
pub proof fn put_block_is_rounded_prep(
    dst: Seq<int>,
    dst_at: int,
    dst_stride: int,
    tmp: Seq<int>,
    src: Seq<u8>,
    at: int,
    stride: int,
    f: Filters,
    w: nat,
    h: nat,
    x: int,
    y: int,
)
    requires
        f.h is Some,
        f.v is None,
        rows_inside(dst.len() as int, dst_at, dst_stride, w as int, h as int),
        dst_stride >= w || dst_stride <= -w,
        rows_inside(tmp.len() as int, 0, w as int, w as int, h as int),
        0 <= x < w,
        0 <= y < h,
    ensures
        rows_put(dst, dst_at, dst_stride, put_rows(src, at, stride, f, w), h)[block_position(
            dst_at,
            dst_stride,
            x,
            y,
        )] == clip8(
            (rows_put(tmp, 0, w as int, prep_rows(src, at, stride, f, w), h)[y * w + x] + 8) / 16,
        ),
{
    rows_put_are_independent(dst, dst_at, dst_stride, put_rows(src, at, stride, f, w), w, h);
    rows_put_are_independent(tmp, 0, w as int, prep_rows(src, at, stride, f, w), w, h);
    assert(block_position(0, w as int, x, y) == y * w + x);
    put_along_rows_is_rounded_prep(src, at, stride, f, x, y);
}

proof fn lemma_dot_scaled(f: Seq<i8>, a: spec_fn(int) -> int, b: spec_fn(int) -> int, c: int, n: nat)
    requires
        forall|k: int| 0 <= k < n ==> #[trigger] a(k) == c * b(k),
    ensures
        dot(f, a, n) == c * dot(f, b, n),
    decreases n,
{
    if n > 0 {
        lemma_dot_scaled(f, a, b, c, (n - 1) as nat);
        let s = dot(f, b, (n - 1) as nat);
        let t = f[n - 1] as int;
        let u = b(n - 1);
        assert(a(n - 1) == c * u);
        assert(c * s + t * (c * u) == c * (s + t * u)) by (nonlinear_arith);
    } else {
        assert(c * 0 == 0) by (nonlinear_arith);
    }
}

proof fn lemma_dot_flat(f: Seq<i8>, v: spec_fn(int) -> int, c: int, n: nat)
    requires
        forall|k: int| 0 <= k < n ==> #[trigger] v(k) == c,
    ensures
        dot(f, v, n) == c * tap_sum(f, n),
    decreases n,
{
    if n > 0 {
        lemma_dot_flat(f, v, c, (n - 1) as nat);
        let s = tap_sum(f, (n - 1) as nat);
        let t = f[n - 1] as int;
        assert(v(n - 1) == c);
        assert(c * s + t * c == c * (s + t)) by (nonlinear_arith);
    } else {
        assert(c * 0 == 0) by (nonlinear_arith);
    }
}

/// Whether the pixels in the columns from `left` to `right` of the rows from `top` to `bottom` are all `c`.
pub open spec fn flat_area(
    src: Seq<u8>,
    at: int,
    stride: int,
    left: int,
    right: int,
    top: int,
    bottom: int,
    c: u8,
) -> bool {
    forall|u: int, v: int|
        left <= u <= right && top <= v <= bottom ==> src[#[trigger] block_position(at, stride, u, v)] == c
}

/// Whether the pixels that the filters meet for the pixel in column `x` of row `y` are all `c`.
pub open spec fn flat_around(
    src: Seq<u8>,
    at: int,
    stride: int,
    f: Filters,
    x: int,
    y: int,
    c: u8,
) -> bool {
    let (left, right) = if f.h is Some {
        (x - 3, x + 4)
    } else {
        (x, x)
    };
    let (top, bottom) = if f.v is Some {
        (y - 3, y + 4)
    } else {
        (y, y)
    };
    flat_area(src, at, stride, left, right, top, bottom, c)
}

/// Whether the filters of a block keep the brightness: their taps add up to 64.
pub open spec fn keeps_brightness(f: Filters) -> bool {
    &&& f.h matches Some(g) ==> tap_sum(g, 8) == 64
    &&& f.v matches Some(g) ==> tap_sum(g, 8) == 64
}

/// Filters that keep the brightness leave a flat area as it is.
pub proof fn flat_area_is_kept(src: Seq<u8>, at: int, stride: int, f: Filters, x: int, y: int, c: u8)
    requires
        keeps_brightness(f),
        flat_around(src, at, stride, f, x, y, c),
    ensures
        f.h is Some || f.v is Some ==> put_pixel(src, at, stride, f, x, y) == c,
        prep_value(src, at, stride, f, x, y) == 16 * c,
{
    match (f.h, f.v) {
        (Some(fh), Some(fv)) => {
            let a = |k: int| mid_value(src, at, stride, fh, x, y + k - 3);
            assert forall|k: int| 0 <= k < 8 implies #[trigger] a(k) == 16 * c by {
                lemma_flat_row(src, at, stride, fh, x, y + k - 3, c);
            }
            lemma_dot_flat(fv, a, 16 * c, 8);
        },
        (Some(fh), None) => {
            lemma_flat_row(src, at, stride, fh, x, y, c);
        },
        (None, Some(fv)) => {
            let b = along_column(src, at + (y - 3) * stride + x, stride);
            assert forall|k: int| 0 <= k < 8 implies #[trigger] b(k) == c by {
                assert((y + k - 3) * stride == (y - 3) * stride + k * stride) by (nonlinear_arith);
                assert(src[block_position(at, stride, x, y + k - 3)] == c);
            }
            lemma_dot_flat(fv, b, c as int, 8);
        },
        (None, None) => {
            assert(src[block_position(at, stride, x, y)] == c);
        },
    }
}

proof fn lemma_flat_row(src: Seq<u8>, at: int, stride: int, f: Seq<i8>, x: int, y: int, c: u8)
    requires
        tap_sum(f, 8) == 64,
        flat_area(src, at, stride, x - 3, x + 4, y, y, c),
    ensures
        h_sum(src, at, stride, f, x, y) == 64 * c,
        mid_value(src, at, stride, f, x, y) == 16 * c,
{
    let r = along_row(src, at + y * stride - 3 + x);
    assert forall|k: int| 0 <= k < 8 implies #[trigger] r(k) == c by {
        assert(src[block_position(at, stride, x + k - 3, y)] == c);
    }
    lemma_dot_flat(f, r, c as int, 8);
}

/// The filter that warping uses along row `y` for the pixel in column `x`.
pub open spec fn row_filter(table: Seq<[i8; 8]>, abcd: Seq<i16>, mx: int, x: int, y: int) -> Seq<i8> {
    table[warp_index(mx, abcd[0] as int, abcd[1] as int, x, y)]@
}

/// The filter that warping uses down the column for the pixel in column `x` of row `y`.
pub open spec fn column_filter(table: Seq<[i8; 8]>, abcd: Seq<i16>, my: int, x: int, y: int) -> Seq<i8> {
    table[warp_index(my, abcd[2] as int, abcd[3] as int, x, y)]@
}

/// Warping leaves a flat area as it is where the taps of the filters that it uses add up to 128.
pub proof fn warp_keeps_flat_area(
    src: Seq<u8>,
    at: int,
    stride: int,
    table: Seq<[i8; 8]>,
    abcd: Seq<i16>,
    mx: int,
    my: int,
    x: int,
    y: int,
    c: u8,
)
    requires
        0 <= x < 8,
        0 <= y < 8,
        forall|v: int|
            y <= v < y + 8 ==> tap_sum(#[trigger] row_filter(table, abcd, mx, x, v), 8) == 128,
        tap_sum(column_filter(table, abcd, my, x, y), 8) == 128,
        flat_area(src, at, stride, x - 3, x + 4, y - 3, y + 4, c),
    ensures
        warp_rows(src, at, stride, table, abcd, mx, my)(y)[x] == c,
        warp_rows_t(src, at, stride, table, abcd, mx, my)(y)[x] == 16 * c,
{
    let a = |k: int| warp_mid(src, at, stride, table, abcd, mx, x, y + k);
    assert forall|k: int| 0 <= k < 8 implies #[trigger] a(k) == 16 * c by {
        let r = along_row(src, at + (y + k - 3) * stride - 3 + x);
        assert forall|l: int| 0 <= l < 8 implies #[trigger] r(l) == c by {
            assert(src[block_position(at, stride, x + l - 3, y + k - 3)] == c);
        }
        lemma_dot_flat(row_filter(table, abcd, mx, x, y + k), r, c as int, 8);
    }
    lemma_dot_flat(column_filter(table, abcd, my, x, y), a, 16 * c, 8);
}

/// Warping without a limit on the intermediate value.
pub open spec fn exact_warp_mid(
    src: Seq<u8>,
    at: int,
    stride: int,
    table: Seq<[i8; 8]>,
    abcd: Seq<i16>,
    mx: int,
    x: int,
    y: int,
) -> int {
    (dot(
        row_filter(table, abcd, mx, x, y),
        along_row(src, at + (y - 3) * stride - 3 + x),
        8,
    ) + 4) / 8
}

/// The filtered sum of a warped pixel without a limit on the intermediate values.
pub open spec fn exact_warp_sum(
    src: Seq<u8>,
    at: int,
    stride: int,
    table: Seq<[i8; 8]>,
    abcd: Seq<i16>,
    mx: int,
    my: int,
    x: int,
    y: int,
) -> int {
    dot(
        column_filter(table, abcd, my, x, y),
        |k: int| exact_warp_mid(src, at, stride, table, abcd, mx, x, y + k),
        8,
    )
}

/// Whether the intermediate values of the warped pixel in column `x` of row `y` fit 16 bits.
pub open spec fn warp_mids_fit(
    src: Seq<u8>,
    at: int,
    stride: int,
    table: Seq<[i8; 8]>,
    abcd: Seq<i16>,
    mx: int,
    x: int,
    y: int,
) -> bool {
    forall|v: int|
        y <= v < y + 8 ==> fits16(#[trigger] exact_warp_mid(src, at, stride, table, abcd, mx, x, v))
}

/// Where the intermediate values fit 16 bits, warping is that of unbounded arithmetic, limited to the range
/// of a pixel or of 16 bits at its end alone.
pub proof fn warp_is_exact(
    src: Seq<u8>,
    at: int,
    stride: int,
    table: Seq<[i8; 8]>,
    abcd: Seq<i16>,
    mx: int,
    my: int,
    x: int,
    y: int,
)
    requires
        0 <= x < 8,
        0 <= y < 8,
        warp_mids_fit(src, at, stride, table, abcd, mx, x, y),
    ensures
        warp_rows(src, at, stride, table, abcd, mx, my)(y)[x] == clip8(
            (exact_warp_sum(src, at, stride, table, abcd, mx, my, x, y) + 1024) / 2048,
        ),
        warp_rows_t(src, at, stride, table, abcd, mx, my)(y)[x] == sat16(
            (exact_warp_sum(src, at, stride, table, abcd, mx, my, x, y) + 64) / 128,
        ),
{
    let a = |k: int| warp_mid(src, at, stride, table, abcd, mx, x, y + k);
    let b = |k: int| exact_warp_mid(src, at, stride, table, abcd, mx, x, y + k);
    assert forall|k: int| 0 <= k < 8 implies #[trigger] a(k) == b(k) by {
        assert(fits16(exact_warp_mid(src, at, stride, table, abcd, mx, x, y + k)));
    }
    lemma_dot_same(column_filter(table, abcd, my, x, y), a, b, 8);
}

/// With moderate filters everything that warping computes but the pixels fits 16 bits.
pub proof fn moderate_warp_fits(
    src: Seq<u8>,
    at: int,
    stride: int,
    table: Seq<[i8; 8]>,
    abcd: Seq<i16>,
    mx: int,
    my: int,
    x: int,
    y: int,
)
    requires
        0 <= x < 8,
        0 <= y < 8,
        forall|v: int| y <= v < y + 8 ==> moderate(#[trigger] row_filter(table, abcd, mx, x, v), 256),
        moderate(column_filter(table, abcd, my, x, y), 256),
    ensures
        warp_mids_fit(src, at, stride, table, abcd, mx, x, y),
        fits16((exact_warp_sum(src, at, stride, table, abcd, mx, my, x, y) + 64) / 128),
{
    let b = |k: int| exact_warp_mid(src, at, stride, table, abcd, mx, x, y + k);
    assert forall|v: int| y <= v < y + 8 implies -8160 <= #[trigger] exact_warp_mid(
        src,
        at,
        stride,
        table,
        abcd,
        mx,
        x,
        v,
    ) <= 8160 by {
        lemma_moderate(
            row_filter(table, abcd, mx, x, v),
            along_row(src, at + (v - 3) * stride - 3 + x),
            256,
            255,
        );
    }
    assert(forall|k: int| 0 <= k < 8 ==> -8160 <= #[trigger] b(k) <= 8160);
    lemma_moderate(column_filter(table, abcd, my, x, y), b, 256, 8160);
}

} // verus!
