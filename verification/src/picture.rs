//! Positions in a plane of pixels.
//!
//! A plane is a sequence of pixels, row after row. A block in it is given by the position of its
//! first pixel and the distance between its rows, the stride, which can be negative.
use vstd::prelude::*;

verus! {

/// The position `steps` strides away from `base`.
pub fn offset_by(base: usize, steps: isize, stride: isize) -> (r: usize)
    requires
        0 <= base + steps * stride <= usize::MAX,
    ensures
        r == base + steps * stride,
{
    proof {
        assert(-0x4000_0000_0000_0000_0000_0000_0000_0000 <= steps * stride
            <= 0x4000_0000_0000_0000_0000_0000_0000_0000) by (nonlinear_arith)
            requires
                -0x8000_0000_0000_0000 <= steps <= 0x7fff_ffff_ffff_ffff,
                -0x8000_0000_0000_0000 <= stride <= 0x7fff_ffff_ffff_ffff,
        ;
    }
    (base as i128 + steps as i128 * stride as i128) as usize
}

/// The position `steps` strides behind `base`.
pub fn advance(base: usize, steps: usize, stride: usize) -> (r: usize)
    requires
        base + steps * stride <= usize::MAX,
    ensures
        r == base + steps * stride,
{
    proof {
        assert(0 <= steps * stride <= 0xffff_ffff_ffff_ffff * 0xffff_ffff_ffff_ffff)
            by (nonlinear_arith)
            requires
                0 <= steps <= 0xffff_ffff_ffff_ffff,
                0 <= stride <= 0xffff_ffff_ffff_ffff,
        ;
    }
    (base as u128 + steps as u128 * stride as u128) as usize
}

/// `data` with `row` in place of the pixels from `at` on.
pub open spec fn put_row<T>(data: Seq<T>, at: int, row: Seq<T>) -> Seq<T> {
    Seq::new(
        data.len(),
        |i: int|
            if at <= i < at + row.len() {
                row[i - at]
            } else {
                data[i]
            },
    )
}

/// Whether `h` rows of `w` pixels lie in a plane of `len` pixels.
pub open spec fn rows_inside(len: int, base: int, stride: int, w: int, h: int) -> bool {
    h > 0 ==> {
        &&& 0 <= base
        &&& base + w <= len
        &&& 0 <= base + (h - 1) * stride
        &&& base + (h - 1) * stride + w <= len
    }
}

/// Between rows that lie in the plane, every row does.
pub proof fn lemma_rows_inside(len: int, base: int, stride: int, w: int, h: int, y: int)
    requires
        rows_inside(len, base, stride, w, h),
        0 <= y < h,
    ensures
        0 <= base + y * stride,
        base + y * stride + w <= len,
{
    assert(stride >= 0 ==> 0 <= y * stride <= (h - 1) * stride) by (nonlinear_arith)
        requires
            0 <= y <= h - 1,
    ;
    assert(stride < 0 ==> (h - 1) * stride <= y * stride <= 0) by (nonlinear_arith)
        requires
            0 <= y <= h - 1,
    ;
}

/// `data` after the first `n` rows of a block have been put in their places, one after the other.
pub open spec fn rows_put(
    data: Seq<int>,
    base: int,
    stride: int,
    row: spec_fn(int) -> Seq<int>,
    n: nat,
) -> Seq<int>
    decreases n,
{
    if n == 0 {
        data
    } else {
        put_row(
            rows_put(data, base, stride, row, (n - 1) as nat),
            base + (n - 1) * stride,
            row(n - 1),
        )
    }
}

/// A row that is put in its place piece by piece is in its place.
pub proof fn lemma_put_row_extend(data: Seq<int>, at: int, row: Seq<int>, x: int, y: int)
    requires
        0 <= x <= y <= row.len(),
    ensures
        put_row(put_row(data, at, row.take(x)), at + x, row.subrange(x, y)) == put_row(
            data,
            at,
            row.take(y),
        ),
{
    assert(put_row(put_row(data, at, row.take(x)), at + x, row.subrange(x, y)) =~= put_row(
        data,
        at,
        row.take(y),
    ));
}

/// The position of the pixel in column `x` of row `y` of a block.
pub open spec fn block_position(base: int, stride: int, x: int, y: int) -> int {
    base + y * stride + x
}

/// Where the rows of a block do not overlap, each pixel of it is the one that was put there, and the rest of
/// the plane stays as it is.
pub proof fn rows_put_are_independent(
    data: Seq<int>,
    base: int,
    stride: int,
    row: spec_fn(int) -> Seq<int>,
    w: nat,
    h: nat,
)
    requires
        rows_inside(data.len() as int, base, stride, w as int, h as int),
        stride >= w || stride <= -w,
        forall|y: int| 0 <= y < h ==> (#[trigger] row(y)).len() == w,
    ensures
        rows_put(data, base, stride, row, h).len() == data.len(),
        forall|x: int, y: int|
            0 <= x < w && 0 <= y < h ==> rows_put(data, base, stride, row, h)[
                #[trigger] block_position(base, stride, x, y)
            ] == row(y)[x],
        forall|i: int|
            0 <= i < data.len() && (forall|x: int, y: int|
                0 <= x < w && 0 <= y < h ==> i != #[trigger] block_position(base, stride, x, y))
                ==> #[trigger] rows_put(data, base, stride, row, h)[i] == data[i],
    decreases h,
{
    if h > 0 {
        let m = h - 1;
        let len = data.len() as int;
        if m > 0 {
            lemma_rows_inside(len, base, stride, w as int, h as int, m - 1);
        }
        lemma_rows_inside(len, base, stride, w as int, h as int, m);
        rows_put_are_independent(data, base, stride, row, w, m as nat);
        let before = rows_put(data, base, stride, row, m as nat);
        let after = rows_put(data, base, stride, row, h);
        let at = base + m * stride;
        assert(after == put_row(before, at, row(m)));
        assert forall|x: int, y: int| 0 <= x < w && 0 <= y < m implies !(at
            <= #[trigger] block_position(base, stride, x, y) < at + w) by {
            assert(stride >= w ==> (m - y) * stride >= w) by (nonlinear_arith)
                requires
                    m - y >= 1,
                    w >= 0,
            ;
            assert(stride <= -w ==> (m - y) * stride <= -w) by (nonlinear_arith)
                requires
                    m - y >= 1,
                    w >= 0,
            ;
            assert((m - y) * stride == m * stride - y * stride) by (nonlinear_arith);
        }
        assert forall|x: int, y: int| 0 <= x < w && 0 <= y < h implies after[
            #[trigger] block_position(base, stride, x, y)
        ] == row(y)[x] by {
            let i = block_position(base, stride, x, y);
            lemma_rows_inside(len, base, stride, w as int, h as int, y);
            if y == m {
                assert(i == at + x);
            }
        }
        assert forall|i: int|
            0 <= i < data.len() && (forall|x: int, y: int|
                0 <= x < w && 0 <= y < h ==> i != #[trigger] block_position(base, stride, x, y))
            implies #[trigger] after[i] == data[i] by {
            if at <= i < at + w {
                assert(i == block_position(base, stride, i - at, m));
            }
        }
    }
}

/// The last row of a block lies over what was there before it, and the rest of the plane is what the rows before it
/// left, also where rows overlap.
pub proof fn last_row_lies_on_top(
    data: Seq<int>,
    base: int,
    stride: int,
    row: spec_fn(int) -> Seq<int>,
    h: nat,
    i: int,
)
    requires
        0 <= i < data.len(),
    ensures
        rows_put(data, base, stride, row, 0) == data,
        rows_put(data, base, stride, row, h).len() == data.len(),
        rows_put(data, base, stride, row, h + 1)[i] == if base + h * stride <= i < base + h * stride + row(
            h as int,
        ).len() {
            row(h as int)[i - (base + h * stride)]
        } else {
            rows_put(data, base, stride, row, h)[i]
        },
    decreases h,
{
    if h > 0 {
        last_row_lies_on_top(data, base, stride, row, (h - 1) as nat, i);
    }
}

} // verus!
