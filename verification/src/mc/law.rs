//! What the predictions of motion compensation are, pixel by pixel of the source, and how they relate to each
//! other.
use crate::mc::warp::{warp_index, warp_mid, warp_rows, warp_rows_t, warp_sum};
use crate::mc::wasm::{
    along_cells, along_column, along_row, along_rows, dot, filters, lemma_dot_same, mid_value, prep_rows,
    prep_value, put_rows, stored8, Filters,
};
use crate::picture::{block_position, rows_inside, rows_put, rows_put_are_independent};
use crate::simd::I16x8;
use vstd::prelude::*;

verus! {

/// A filter adds up the products of its eight taps with the eight values that they meet.
pub proof fn filter_is_a_sum_of_eight_products(f: Seq<i8>, v: spec_fn(int) -> int)
    ensures
        dot(f, v, 8) == f[0] * v(0) + f[1] * v(1) + f[2] * v(2) + f[3] * v(3) + f[4] * v(4)
            + f[5] * v(5) + f[6] * v(6) + f[7] * v(7),
{
    reveal_with_fuel(dot, 9);
}

/// The values that a filter meets: along a row those one behind the other, down a column those a stride apart, and
/// across a list of rows those in one column of them.
pub proof fn filters_meet_neighbouring_pixels(src: Seq<u8>, rows: Seq<usize>, at: int, stride: int, k: int)
    ensures
        along_row(src, at)(k) == src[at + k],
        along_column(src, at, stride)(k) == src[at + k * stride],
        along_rows(src, rows, at)(k) == src[rows[k] + at],
{
}

/// Eight values that are stored in a row of intermediate values are the eight cells from there on, and down a column
/// of cells a filter meets those of the rows below each other.
pub proof fn stored_values_are_met_again(v: I16x8, y: int, x: int, l: int, cells: Map<(int, int), int>, k: int)
    ensures
        stored8(y, x, v).dom().contains((y, x + l)) <==> 0 <= l < 8,
        0 <= l < 8 ==> stored8(y, x, v)[(y, x + l)] == v@[l],
        k != 0 ==> !stored8(y, x, v).dom().contains((y + k, x + l)),
        along_cells(cells, y, x)(k) == cells[(y + k, x)],
{
}

proof fn lemma_rows_one_behind_the_other(
    tmp: Seq<int>,
    rows: spec_fn(int) -> Seq<int>,
    w: nat,
    h: nat,
    x: int,
    y: int,
)
    requires
        h * w <= tmp.len(),
        0 <= x < w,
        0 <= y < h,
        forall|y: int| 0 <= y < h ==> (#[trigger] rows(y)).len() == w,
    ensures
        rows_put(tmp, 0, w as int, rows, h)[y * w + x] == rows(y)[x],
{
    assert(h * w == (h - 1) * w + w && (h - 1) * w >= 0) by (nonlinear_arith)
        requires
            h >= 1,
            w >= 0,
    ;
    rows_put_are_independent(tmp, 0, w as int, rows, w, h);
    assert(block_position(0, w as int, x, y) == y * w + x);
}

/// A pixel that is predicted along its row is the weighted sum of eight source pixels, from three before it to
/// four behind it, whatever the size of the block.
pub proof fn put_along_rows_weighs_eight_columns(
    dst: Seq<int>,
    dst_at: int,
    dst_stride: int,
    src: Seq<u8>,
    src_at: int,
    stride: int,
    fh: [i8; 8],
    w: nat,
    h: nat,
    x: int,
    y: int,
)
    requires
        0 <= dst_at,
        dst_at + w <= dst.len(),
        0 <= dst_at + (h - 1) * dst_stride,
        dst_at + (h - 1) * dst_stride + w <= dst.len(),
        dst_stride >= w || dst_stride <= -w,
        0 <= x < w,
        0 <= y < h,
    ensures
        ({
            let q = src_at + y * stride + x;
            let sum = fh@[0] * src[q - 3] + fh@[1] * src[q - 2] + fh@[2] * src[q - 1] + fh@[3] * src[q]
                + fh@[4] * src[q + 1] + fh@[5] * src[q + 2] + fh@[6] * src[q + 3] + fh@[7] * src[q + 4];
            let v = (sum + 34) / 64;
            rows_put(dst, dst_at, dst_stride, put_rows(src, src_at, stride, filters(Some(&fh), None), w), h)[dst_at
                + y * dst_stride + x] == if v < 0 {
                0
            } else if v > 255 {
                255
            } else {
                v
            }
        }),
{
    let f = filters(Some(&fh), None);
    let rows = put_rows(src, src_at, stride, f, w);
    rows_put_are_independent(dst, dst_at, dst_stride, rows, w, h);
    assert(rows_put(dst, dst_at, dst_stride, rows, h)[block_position(dst_at, dst_stride, x, y)] == rows(
        y,
    )[x]);
    let v = along_row(src, src_at + y * stride - 3 + x);
    filter_is_a_sum_of_eight_products(fh@, v);
    let q = src_at + y * stride + x;
    assert(v(0) == src[q - 3] && v(1) == src[q - 2] && v(2) == src[q - 1] && v(3) == src[q] && v(4) == src[q
        + 1] && v(5) == src[q + 2] && v(6) == src[q + 3] && v(7) == src[q + 4]);
}

/// A pixel that is predicted down its column is the weighted sum of eight source pixels, from three above it to
/// four below it, whatever the size of the block.
pub proof fn put_down_columns_weighs_eight_rows(
    dst: Seq<int>,
    dst_at: int,
    dst_stride: int,
    src: Seq<u8>,
    src_at: int,
    stride: int,
    fv: [i8; 8],
    w: nat,
    h: nat,
    x: int,
    y: int,
)
    requires
        0 <= dst_at,
        dst_at + w <= dst.len(),
        0 <= dst_at + (h - 1) * dst_stride,
        dst_at + (h - 1) * dst_stride + w <= dst.len(),
        dst_stride >= w || dst_stride <= -w,
        0 <= x < w,
        0 <= y < h,
    ensures
        ({
            let q = src_at + y * stride + x;
            let sum = fv@[0] * src[q - 3 * stride] + fv@[1] * src[q - 2 * stride]
                + fv@[2] * src[q - 1 * stride] + fv@[3] * src[q + 0 * stride] + fv@[4] * src[q
                + 1 * stride] + fv@[5] * src[q + 2 * stride] + fv@[6] * src[q + 3 * stride]
                + fv@[7] * src[q + 4 * stride];
            let v = (sum + 32) / 64;
            rows_put(dst, dst_at, dst_stride, put_rows(src, src_at, stride, filters(None, Some(&fv)), w), h)[dst_at
                + y * dst_stride + x] == if v < 0 {
                0
            } else if v > 255 {
                255
            } else {
                v
            }
        }),
{
    let f = filters(None, Some(&fv));
    let rows = put_rows(src, src_at, stride, f, w);
    rows_put_are_independent(dst, dst_at, dst_stride, rows, w, h);
    assert(rows_put(dst, dst_at, dst_stride, rows, h)[block_position(dst_at, dst_stride, x, y)] == rows(
        y,
    )[x]);
    let v = along_column(src, src_at + (y - 3) * stride + x, stride);
    filter_is_a_sum_of_eight_products(fv@, v);
    let q = src_at + y * stride + x;
    assert((y - 3) * stride == y * stride - 3 * stride) by (nonlinear_arith);
    assert(v(0) == src[q - 3 * stride] && v(1) == src[q - 2 * stride] && v(2) == src[q - 1 * stride] && v(3)
        == src[q + 0 * stride] && v(4) == src[q + 1 * stride] && v(5) == src[q + 2 * stride] && v(6)
        == src[q + 3 * stride] && v(7) == src[q + 4 * stride]);
}

/// A pixel that is predicted both ways is the weighted sum, down its column, of eight sums along the rows, each
/// rounded to four bits more than a pixel, whatever the size of the block.
pub proof fn put_both_ways_weighs_eight_rows_of_sums(
    dst: Seq<int>,
    dst_at: int,
    dst_stride: int,
    src: Seq<u8>,
    src_at: int,
    stride: int,
    fh: [i8; 8],
    fv: [i8; 8],
    w: nat,
    h: nat,
    x: int,
    y: int,
)
    requires
        0 <= dst_at,
        dst_at + w <= dst.len(),
        0 <= dst_at + (h - 1) * dst_stride,
        dst_at + (h - 1) * dst_stride + w <= dst.len(),
        dst_stride >= w || dst_stride <= -w,
        0 <= x < w,
        0 <= y < h,
    ensures
        ({
            let m = |v: int|
                {
                    let s = (fh@[0] * src[src_at + v * stride + x - 3] + fh@[1] * src[src_at
                        + v * stride + x - 2] + fh@[2] * src[src_at + v * stride + x - 1]
                        + fh@[3] * src[src_at + v * stride + x] + fh@[4] * src[src_at + v * stride + x
                        + 1] + fh@[5] * src[src_at + v * stride + x + 2] + fh@[6] * src[src_at
                        + v * stride + x + 3] + fh@[7] * src[src_at + v * stride + x + 4] + 2) / 4;
                    if s < -0x8000 {
                        -0x8000
                    } else if s > 0x7fff {
                        0x7fff
                    } else {
                        s
                    }
                };
            let sum = fv@[0] * m(y - 3) + fv@[1] * m(y - 2) + fv@[2] * m(y - 1) + fv@[3] * m(y)
                + fv@[4] * m(y + 1) + fv@[5] * m(y + 2) + fv@[6] * m(y + 3) + fv@[7] * m(y + 4);
            let v = (sum + 512) / 1024;
            rows_put(dst, dst_at, dst_stride, put_rows(src, src_at, stride, filters(Some(&fh), Some(&fv)), w), h)[dst_at
                + y * dst_stride + x] == if v < 0 {
                0
            } else if v > 255 {
                255
            } else {
                v
            }
        }),
{
    let f = filters(Some(&fh), Some(&fv));
    let rows = put_rows(src, src_at, stride, f, w);
    rows_put_are_independent(dst, dst_at, dst_stride, rows, w, h);
    assert(rows_put(dst, dst_at, dst_stride, rows, h)[block_position(dst_at, dst_stride, x, y)] == rows(
        y,
    )[x]);
    let m = |v: int|
        {
            let s = (fh@[0] * src[src_at + v * stride + x - 3] + fh@[1] * src[src_at + v * stride
                + x - 2] + fh@[2] * src[src_at + v * stride + x - 1] + fh@[3] * src[src_at + v * stride
                + x] + fh@[4] * src[src_at + v * stride + x + 1] + fh@[5] * src[src_at + v * stride + x
                + 2] + fh@[6] * src[src_at + v * stride + x + 3] + fh@[7] * src[src_at + v * stride + x
                + 4] + 2) / 4;
            if s < -0x8000 {
                -0x8000
            } else if s > 0x7fff {
                0x7fff
            } else {
                s
            }
        };
    assert forall|v: int| #[trigger] m(v) == mid_value(src, src_at, stride, fh@, x, v) by {
        filter_is_a_sum_of_eight_products(fh@, along_row(src, src_at + v * stride - 3 + x));
    }
    filter_is_a_sum_of_eight_products(
        fv@,
        |k: int| mid_value(src, src_at, stride, fh@, x, y + k - 3),
    );
    assert(m(y - 3) == mid_value(src, src_at, stride, fh@, x, y + 0 - 3));
    assert(m(y - 2) == mid_value(src, src_at, stride, fh@, x, y + 1 - 3));
    assert(m(y - 1) == mid_value(src, src_at, stride, fh@, x, y + 2 - 3));
    assert(m(y) == mid_value(src, src_at, stride, fh@, x, y + 3 - 3));
    assert(m(y + 1) == mid_value(src, src_at, stride, fh@, x, y + 4 - 3));
    assert(m(y + 2) == mid_value(src, src_at, stride, fh@, x, y + 5 - 3));
    assert(m(y + 3) == mid_value(src, src_at, stride, fh@, x, y + 6 - 3));
    assert(m(y + 4) == mid_value(src, src_at, stride, fh@, x, y + 7 - 3));
}

/// An intermediate value that is predicted along its row is the weighted sum of eight source pixels, with four bits
/// more than a pixel, whatever the size of the block.
pub proof fn prep_along_rows_weighs_eight_columns(
    tmp: Seq<int>,
    src: Seq<u8>,
    src_at: int,
    stride: int,
    fh: [i8; 8],
    w: nat,
    h: nat,
    x: int,
    y: int,
)
    requires
        h * w <= tmp.len(),
        0 <= x < w,
        0 <= y < h,
    ensures
        ({
            let q = src_at + y * stride + x;
            let sum = fh@[0] * src[q - 3] + fh@[1] * src[q - 2] + fh@[2] * src[q - 1] + fh@[3] * src[q]
                + fh@[4] * src[q + 1] + fh@[5] * src[q + 2] + fh@[6] * src[q + 3] + fh@[7] * src[q + 4];
            let v = (sum + 2) / 4;
            rows_put(tmp, 0, w as int, prep_rows(src, src_at, stride, filters(Some(&fh), None), w), h)[y * w
                + x]
                == if v < -0x8000 {
                -0x8000
            } else if v > 0x7fff {
                0x7fff
            } else {
                v
            }
        }),
{
    let f = filters(Some(&fh), None);
    let rows = prep_rows(src, src_at, stride, f, w);
    lemma_rows_one_behind_the_other(tmp, rows, w, h, x, y);
    let v = along_row(src, src_at + y * stride - 3 + x);
    filter_is_a_sum_of_eight_products(fh@, v);
    let q = src_at + y * stride + x;
    assert(v(0) == src[q - 3] && v(1) == src[q - 2] && v(2) == src[q - 1] && v(3) == src[q] && v(4) == src[q
        + 1] && v(5) == src[q + 2] && v(6) == src[q + 3] && v(7) == src[q + 4]);
}

/// An intermediate value that is predicted down its column is the weighted sum of eight source pixels, with four bits
/// more than a pixel, whatever the size of the block.
pub proof fn prep_down_columns_weighs_eight_rows(
    tmp: Seq<int>,
    src: Seq<u8>,
    src_at: int,
    stride: int,
    fv: [i8; 8],
    w: nat,
    h: nat,
    x: int,
    y: int,
)
    requires
        h * w <= tmp.len(),
        0 <= x < w,
        0 <= y < h,
    ensures
        ({
            let q = src_at + y * stride + x;
            let sum = fv@[0] * src[q - 3 * stride] + fv@[1] * src[q - 2 * stride]
                + fv@[2] * src[q - 1 * stride] + fv@[3] * src[q + 0 * stride] + fv@[4] * src[q
                + 1 * stride] + fv@[5] * src[q + 2 * stride] + fv@[6] * src[q + 3 * stride]
                + fv@[7] * src[q + 4 * stride];
            let v = (sum + 2) / 4;
            rows_put(tmp, 0, w as int, prep_rows(src, src_at, stride, filters(None, Some(&fv)), w), h)[y * w
                + x]
                == if v < -0x8000 {
                -0x8000
            } else if v > 0x7fff {
                0x7fff
            } else {
                v
            }
        }),
{
    let f = filters(None, Some(&fv));
    let rows = prep_rows(src, src_at, stride, f, w);
    lemma_rows_one_behind_the_other(tmp, rows, w, h, x, y);
    let v = along_column(src, src_at + (y - 3) * stride + x, stride);
    filter_is_a_sum_of_eight_products(fv@, v);
    let q = src_at + y * stride + x;
    assert((y - 3) * stride == y * stride - 3 * stride) by (nonlinear_arith);
    assert(v(0) == src[q - 3 * stride] && v(1) == src[q - 2 * stride] && v(2) == src[q - 1 * stride] && v(3)
        == src[q + 0 * stride] && v(4) == src[q + 1 * stride] && v(5) == src[q + 2 * stride] && v(6)
        == src[q + 3 * stride] && v(7) == src[q + 4 * stride]);
}

/// An intermediate value that is predicted both ways is the weighted sum, down its column, of eight sums along the
/// rows, with four bits more than a pixel, whatever the size of the block.
pub proof fn prep_both_ways_weighs_eight_rows_of_sums(
    tmp: Seq<int>,
    src: Seq<u8>,
    src_at: int,
    stride: int,
    fh: [i8; 8],
    fv: [i8; 8],
    w: nat,
    h: nat,
    x: int,
    y: int,
)
    requires
        h * w <= tmp.len(),
        0 <= x < w,
        0 <= y < h,
    ensures
        ({
            let m = |v: int|
                {
                    let s = (fh@[0] * src[src_at + v * stride + x - 3] + fh@[1] * src[src_at
                        + v * stride + x - 2] + fh@[2] * src[src_at + v * stride + x - 1]
                        + fh@[3] * src[src_at + v * stride + x] + fh@[4] * src[src_at + v * stride + x
                        + 1] + fh@[5] * src[src_at + v * stride + x + 2] + fh@[6] * src[src_at
                        + v * stride + x + 3] + fh@[7] * src[src_at + v * stride + x + 4] + 2) / 4;
                    if s < -0x8000 {
                        -0x8000
                    } else if s > 0x7fff {
                        0x7fff
                    } else {
                        s
                    }
                };
            let sum = fv@[0] * m(y - 3) + fv@[1] * m(y - 2) + fv@[2] * m(y - 1) + fv@[3] * m(y)
                + fv@[4] * m(y + 1) + fv@[5] * m(y + 2) + fv@[6] * m(y + 3) + fv@[7] * m(y + 4);
            let v = (sum + 32) / 64;
            rows_put(tmp, 0, w as int, prep_rows(src, src_at, stride, filters(Some(&fh), Some(&fv)), w), h)[y * w
                + x]
                == if v < -0x8000 {
                -0x8000
            } else if v > 0x7fff {
                0x7fff
            } else {
                v
            }
        }),
{
    let f = filters(Some(&fh), Some(&fv));
    let rows = prep_rows(src, src_at, stride, f, w);
    lemma_rows_one_behind_the_other(tmp, rows, w, h, x, y);
    let m = |v: int|
        {
            let s = (fh@[0] * src[src_at + v * stride + x - 3] + fh@[1] * src[src_at + v * stride
                + x - 2] + fh@[2] * src[src_at + v * stride + x - 1] + fh@[3] * src[src_at + v * stride
                + x] + fh@[4] * src[src_at + v * stride + x + 1] + fh@[5] * src[src_at + v * stride + x
                + 2] + fh@[6] * src[src_at + v * stride + x + 3] + fh@[7] * src[src_at + v * stride + x
                + 4] + 2) / 4;
            if s < -0x8000 {
                -0x8000
            } else if s > 0x7fff {
                0x7fff
            } else {
                s
            }
        };
    assert forall|v: int| #[trigger] m(v) == mid_value(src, src_at, stride, fh@, x, v) by {
        filter_is_a_sum_of_eight_products(fh@, along_row(src, src_at + v * stride - 3 + x));
    }
    filter_is_a_sum_of_eight_products(
        fv@,
        |k: int| mid_value(src, src_at, stride, fh@, x, y + k - 3),
    );
    assert(m(y - 3) == mid_value(src, src_at, stride, fh@, x, y + 0 - 3));
    assert(m(y - 2) == mid_value(src, src_at, stride, fh@, x, y + 1 - 3));
    assert(m(y - 1) == mid_value(src, src_at, stride, fh@, x, y + 2 - 3));
    assert(m(y) == mid_value(src, src_at, stride, fh@, x, y + 3 - 3));
    assert(m(y + 1) == mid_value(src, src_at, stride, fh@, x, y + 4 - 3));
    assert(m(y + 2) == mid_value(src, src_at, stride, fh@, x, y + 5 - 3));
    assert(m(y + 3) == mid_value(src, src_at, stride, fh@, x, y + 6 - 3));
    assert(m(y + 4) == mid_value(src, src_at, stride, fh@, x, y + 7 - 3));
}

/// A block that is copied with four bits more holds sixteen times each source pixel.
pub proof fn prep_copies_sixteenfold(
    tmp: Seq<int>,
    src: Seq<u8>,
    src_at: int,
    stride: int,
    w: nat,
    h: nat,
    x: int,
    y: int,
)
    requires
        h * w <= tmp.len(),
        0 <= x < w,
        0 <= y < h,
    ensures
        rows_put(tmp, 0, w as int, prep_rows(src, src_at, stride, filters(None, None), w), h)[y * w + x]
            == 16 * src[src_at + y * stride + x],
{
    let f = filters(None, None);
    let rows = prep_rows(src, src_at, stride, f, w);
    lemma_rows_one_behind_the_other(tmp, rows, w, h, x, y);
}

/// A prediction does not depend on the size of the block: two blocks that start at one source pixel agree where
/// both have a pixel.
pub proof fn blocks_of_different_sizes_agree(
    dst: Seq<int>,
    dst_at: int,
    dst_stride: int,
    other: Seq<int>,
    other_at: int,
    other_stride: int,
    src: Seq<u8>,
    src_at: int,
    stride: int,
    f: Filters,
    w: nat,
    h: nat,
    other_w: nat,
    other_h: nat,
    x: int,
    y: int,
)
    requires
        rows_inside(dst.len() as int, dst_at, dst_stride, w as int, h as int),
        dst_stride >= w || dst_stride <= -w,
        rows_inside(other.len() as int, other_at, other_stride, other_w as int, other_h as int),
        other_stride >= other_w || other_stride <= -other_w,
        0 <= x < w,
        x < other_w,
        0 <= y < h,
        y < other_h,
    ensures
        rows_put(dst, dst_at, dst_stride, put_rows(src, src_at, stride, f, w), h)[dst_at + y * dst_stride
           
                + x] == rows_put(other, other_at, other_stride, put_rows(src, src_at, stride, f, other_w), other_h)[
            other_at + y * other_stride + x
        ],
        rows_put(dst, dst_at, dst_stride, prep_rows(src, src_at, stride, f, w), h)[dst_at + y * dst_stride
           
                + x] == rows_put(other, other_at, other_stride, prep_rows(src, src_at, stride, f, other_w), other_h)[
            other_at + y * other_stride + x
        ],
{
    let i = block_position(dst_at, dst_stride, x, y);
    let j = block_position(other_at, other_stride, x, y);
    rows_put_are_independent(dst, dst_at, dst_stride, put_rows(src, src_at, stride, f, w), w, h);
    rows_put_are_independent(
        other,
        other_at,
        other_stride,
        put_rows(src, src_at, stride, f, other_w),
        other_w,
        other_h,
    );
    assert(rows_put(dst, dst_at, dst_stride, put_rows(src, src_at, stride, f, w), h)[i] == put_rows(
        src,
        src_at,
        stride,
        f,
        w,
    )(y)[x]);
    assert(rows_put(other, other_at, other_stride, put_rows(src, src_at, stride, f, other_w), other_h)[j]
        == put_rows(src, src_at, stride, f, other_w)(y)[x]);
    rows_put_are_independent(dst, dst_at, dst_stride, prep_rows(src, src_at, stride, f, w), w, h);
    rows_put_are_independent(
        other,
        other_at,
        other_stride,
        prep_rows(src, src_at, stride, f, other_w),
        other_w,
        other_h,
    );
    assert(rows_put(dst, dst_at, dst_stride, prep_rows(src, src_at, stride, f, w), h)[i] == prep_rows(
        src,
        src_at,
        stride,
        f,
        w,
    )(y)[x]);
    assert(rows_put(other, other_at, other_stride, prep_rows(src, src_at, stride, f, other_w), other_h)[j]
        == prep_rows(src, src_at, stride, f, other_w)(y)[x]);
}

/// Moving the source moves the prediction: the pixel in column `x + u` of row `y + v` is the one in column `x` of
/// row `y` of the block that starts `u` columns and `v` rows further on. So a block is put together from blocks
/// of any size.
pub proof fn predictions_move_with_the_source(
    src: Seq<u8>,
    src_at: int,
    stride: int,
    f: Filters,
    w: nat,
    other_w: nat,
    x: int,
    y: int,
    u: int,
    v: int,
)
    requires
        0 <= x < other_w,
        0 <= x + u < w,
    ensures
        put_rows(src, src_at, stride, f, w)(y + v)[x + u] == put_rows(
            src,
            src_at + v * stride + u,
            stride,
            f,
            other_w,
        )(y)[x],
        prep_rows(src, src_at, stride, f, w)(y + v)[x + u] == prep_rows(
            src,
            src_at + v * stride + u,
            stride,
            f,
            other_w,
        )(y)[x],
{
    let to = src_at + v * stride + u;
    assert((y + v) * stride == y * stride + v * stride) by (nonlinear_arith);
    assert((y + v - 3) * stride == (y - 3) * stride + v * stride) by (nonlinear_arith);
    match (f.h, f.v) {
        (Some(fh), Some(fv)) => {
            let a = |k: int| mid_value(src, src_at, stride, fh, x + u, y + v + k - 3);
            let b = |k: int| mid_value(src, to, stride, fh, x, y + k - 3);
            assert forall|k: int| 0 <= k < 8 implies #[trigger] a(k) == b(k) by {
                assert((y + v + k - 3) * stride == (y + k - 3) * stride + v * stride) by (nonlinear_arith);
                assert(src_at + (y + v + k - 3) * stride - 3 + (x + u) == to + (y + k - 3) * stride - 3
                    + x);
            }
            lemma_dot_same(fv, a, b, 8);
        },
        (Some(fh), None) => {
            assert(src_at + (y + v) * stride - 3 + (x + u) == to + y * stride - 3 + x);
        },
        (None, Some(fv)) => {
            assert(src_at + (y + v - 3) * stride + (x + u) == to + (y - 3) * stride + x);
        },
        (None, None) => {},
    }
}

/// Filtering down the columns is filtering along the rows of the source with rows and columns exchanged.
pub proof fn columns_are_rows_of_the_transposed_source(
    src: Seq<u8>,
    src_at: int,
    stride: int,
    transposed: Seq<u8>,
    transposed_at: int,
    transposed_stride: int,
    f: Seq<i8>,
    x: int,
    y: int,
)
    requires
        forall|k: int|
            -3 <= k <= 4 ==> #[trigger] src[src_at + (y + k) * stride + x] == transposed[transposed_at + x
                * transposed_stride + y + k],
    ensures
        prep_value(src, src_at, stride, Filters { h: None, v: Some(f) }, x, y) == prep_value(
            transposed,
            transposed_at,
            transposed_stride,
            Filters { h: Some(f), v: None },
            y,
            x,
        ),
{
    let a = along_column(src, src_at + (y - 3) * stride + x, stride);
    let b = along_row(transposed, transposed_at + x * transposed_stride - 3 + y);
    assert forall|k: int| 0 <= k < 8 implies #[trigger] a(k) == b(k) by {
        let l = k - 3;
        assert((y + l) * stride == (y - 3) * stride + k * stride) by (nonlinear_arith)
            requires
                l == k - 3,
        ;
        assert(src[src_at + (y + l) * stride + x] == transposed[transposed_at + x * transposed_stride + y
            + l]);
    }
    lemma_dot_same(f, a, b, 8);
}

/// The number of the filter that warping uses is an affine function of the position, in units of 1024 rounded to
/// the nearest: it is 64 around zero, one more for every 1024, and a column or a row further on it is what it is
/// where the first pixel starts that much later.
pub proof fn warp_filter_follows_the_position(m: int, dx: int, dy: int, x: int, y: int)
    ensures
        warp_index(m + 1024, dx, dy, x, y) == warp_index(m, dx, dy, x, y) + 1,
        -512 <= m < 512 ==> warp_index(m, 0, 0, x, y) == 64,
        -512 <= m < 512 ==> warp_index(m, dx, dy, 0, 0) == 64,
        warp_index(m, dx, dy, x + 1, y) == warp_index(m + dx, dx, dy, x, y),
        warp_index(m, dx, dy, x, y + 1) == warp_index(m + dy, dx, dy, x, y),
        warp_index(m, dx, dy, x, y) == warp_index(m + y * dy + x * dx, 0, 0, 0, 0),
        1024 * (warp_index(m, dx, dy, x, y) - 64) - 512 <= m + y * dy + x * dx < 1024 * (warp_index(
            m,
            dx,
            dy,
            x,
            y,
        ) - 64) + 512,
{
    assert((x + 1) * dx == x * dx + dx) by (nonlinear_arith);
    assert((y + 1) * dy == y * dy + dy) by (nonlinear_arith);
    assert(0 * dx == 0 && 0 * dy == 0 && x * 0 == 0 && y * 0 == 0) by (nonlinear_arith);
}

/// A warped pixel of a block is the first one of the block that starts there, in the source and in the positions
/// of the filters.
pub proof fn warp_moves_with_the_position(
    src: Seq<u8>,
    src_at: int,
    stride: int,
    table: Seq<[i8; 8]>,
    abcd: Seq<i16>,
    mx: int,
    my: int,
    x: int,
    y: int,
)
    requires
        0 <= x < 8,
        0 <= y < 8,
    ensures
        ({
            let at = src_at + y * stride + x;
            let from_x = mx + x * abcd[0] + y * abcd[1];
            let from_y = my + x * abcd[2] + y * abcd[3];
            &&& warp_rows(src, src_at, stride, table, abcd, mx, my)(y)[x] == warp_rows(
                src,
                at,
                stride,
                table,
                abcd,
                from_x,
                from_y,
            )(0)[0]
            &&& warp_rows_t(src, src_at, stride, table, abcd, mx, my)(y)[x] == warp_rows_t(
                src,
                at,
                stride,
                table,
                abcd,
                from_x,
                from_y,
            )(0)[0]
        }),
{
    let at = src_at + y * stride + x;
    let from_x = mx + x * abcd[0] + y * abcd[1];
    let from_y = my + x * abcd[2] + y * abcd[3];
    let a = |k: int| warp_mid(src, src_at, stride, table, abcd, mx, x, y + k);
    let b = |k: int| warp_mid(src, at, stride, table, abcd, from_x, 0, 0 + k);
    assert forall|k: int| 0 <= k < 8 implies #[trigger] a(k) == b(k) by {
        let d = abcd[1] as int;
        assert((y + k) * d == y * d + k * d) by (nonlinear_arith);
        assert((y + k - 3) * stride == y * stride + (k - 3) * stride) by (nonlinear_arith);
        assert(0 * (abcd[0] as int) == 0) by (nonlinear_arith);
        assert(src_at + (y + k - 3) * stride - 3 + x == at + (0 + k - 3) * stride - 3 + 0);
    }
    let i = warp_index(my, abcd[2] as int, abcd[3] as int, x, y);
    assert(0 * (abcd[2] as int) == 0 && 0 * (abcd[3] as int) == 0) by (nonlinear_arith);
    lemma_dot_same(table[i]@, a, b, 8);
}

/// A warped pixel is the weighted sum, down its column, of eight sums along the rows, each with the filter of its
/// own position and rounded to four bits more than a pixel.
pub proof fn warp_weighs_eight_rows_of_sums(
    dst: Seq<int>,
    dst_at: int,
    dst_stride: int,
    tmp: Seq<int>,
    tmp_stride: int,
    src: Seq<u8>,
    src_at: int,
    stride: int,
    table: Seq<[i8; 8]>,
    abcd: Seq<i16>,
    mx: int,
    my: int,
    x: int,
    y: int,
)
    requires
        0 <= dst_at,
        dst_at + 8 <= dst.len(),
        0 <= dst_at + 7 * dst_stride,
        dst_at + 7 * dst_stride + 8 <= dst.len(),
        dst_stride >= 8 || dst_stride <= -8,
        tmp_stride >= 8,
        7 * tmp_stride + 8 <= tmp.len(),
        0 <= x < 8,
        0 <= y < 8,
    ensures
        ({
            let m = |v: int|
                {
                    let f = table[64 + (mx + x * abcd[0] + (v + 3) * abcd[1] + 512) / 1024]@;
                    let s = (f[0] * src[src_at + v * stride + x - 3] + f[1] * src[src_at + v * stride
                        + x - 2] + f[2] * src[src_at + v * stride + x - 1] + f[3] * src[src_at
                        + v * stride + x] + f[4] * src[src_at + v * stride + x + 1] + f[5] * src[src_at
                        + v * stride + x + 2] + f[6] * src[src_at + v * stride + x + 3]
                        + f[7] * src[src_at + v * stride + x + 4] + 4) / 8;
                    if s < -0x8000 {
                        -0x8000
                    } else if s > 0x7fff {
                        0x7fff
                    } else {
                        s
                    }
                };
            let g = table[64 + (my + x * abcd[2] + y * abcd[3] + 512) / 1024]@;
            let sum = g[0] * m(y - 3) + g[1] * m(y - 2) + g[2] * m(y - 1) + g[3] * m(y) + g[4] * m(y
                + 1) + g[5] * m(y + 2) + g[6] * m(y + 3) + g[7] * m(y + 4);
            let v = (sum + 1024) / 2048;
            let t = (sum + 64) / 128;
            &&& rows_put(dst, dst_at, dst_stride, warp_rows(src, src_at, stride, table, abcd, mx, my), 8)[
                dst_at + y * dst_stride + x
            ] == if v < 0 {
                0
            } else if v > 255 {
                255
            } else {
                v
            }
            &&& rows_put(tmp, 0, tmp_stride, warp_rows_t(src, src_at, stride, table, abcd, mx, my), 8)[y
                * tmp_stride + x] == if t < -0x8000 {
                -0x8000
            } else if t > 0x7fff {
                0x7fff
            } else {
                t
            }
        }),
{
    let m = |v: int|
        {
            let f = table[64 + (mx + x * abcd[0] + (v + 3) * abcd[1] + 512) / 1024]@;
            let s = (f[0] * src[src_at + v * stride + x - 3] + f[1] * src[src_at + v * stride + x - 2]
                + f[2] * src[src_at + v * stride + x - 1] + f[3] * src[src_at + v * stride + x]
                + f[4] * src[src_at + v * stride + x + 1] + f[5] * src[src_at + v * stride + x + 2]
                + f[6] * src[src_at + v * stride + x + 3] + f[7] * src[src_at + v * stride + x + 4]
                + 4) / 8;
            if s < -0x8000 {
                -0x8000
            } else if s > 0x7fff {
                0x7fff
            } else {
                s
            }
        };
    let g = table[64 + (my + x * abcd[2] + y * abcd[3] + 512) / 1024]@;
    let sum = g[0] * m(y - 3) + g[1] * m(y - 2) + g[2] * m(y - 1) + g[3] * m(y) + g[4] * m(y + 1)
        + g[5] * m(y + 2) + g[6] * m(y + 3) + g[7] * m(y + 4);
    assert forall|v: int| #[trigger] m(v) == warp_mid(src, src_at, stride, table, abcd, mx, x, v + 3) by {
        let f = table[64 + (mx + x * abcd[0] + (v + 3) * abcd[1] + 512) / 1024]@;
        filter_is_a_sum_of_eight_products(f, along_row(src, src_at + (v + 3 - 3) * stride - 3 + x));
    }
    filter_is_a_sum_of_eight_products(
        g,
        |k: int| warp_mid(src, src_at, stride, table, abcd, mx, x, y + k),
    );
    assert(m(y - 3) == warp_mid(src, src_at, stride, table, abcd, mx, x, y + 0));
    assert(m(y - 2) == warp_mid(src, src_at, stride, table, abcd, mx, x, y + 1));
    assert(m(y - 1) == warp_mid(src, src_at, stride, table, abcd, mx, x, y + 2));
    assert(m(y) == warp_mid(src, src_at, stride, table, abcd, mx, x, y + 3));
    assert(m(y + 1) == warp_mid(src, src_at, stride, table, abcd, mx, x, y + 4));
    assert(m(y + 2) == warp_mid(src, src_at, stride, table, abcd, mx, x, y + 5));
    assert(m(y + 3) == warp_mid(src, src_at, stride, table, abcd, mx, x, y + 6));
    assert(m(y + 4) == warp_mid(src, src_at, stride, table, abcd, mx, x, y + 7));
    let rows = warp_rows(src, src_at, stride, table, abcd, mx, my);
    let rows_t = warp_rows_t(src, src_at, stride, table, abcd, mx, my);
    rows_put_are_independent(dst, dst_at, dst_stride, rows, 8, 8);
    rows_put_are_independent(tmp, 0, tmp_stride, rows_t, 8, 8);
    assert(rows_put(dst, dst_at, dst_stride, rows, 8)[block_position(dst_at, dst_stride, x, y)] == rows(
        y,
    )[x]);
    assert(rows_put(tmp, 0, tmp_stride, rows_t, 8)[block_position(0, tmp_stride, x, y)] == rows_t(y)[x]);
    assert(warp_sum(src, src_at, stride, table, abcd, mx, my, x, y) == sum);
}

} // verus!
