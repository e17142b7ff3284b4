//! The eight-tap filters of motion compensation for 8-bit pixels, eight pixels at a time.
//!
//! Blocks are a multiple of eight pixels wide.
use crate::arith::{clip8, lemma_pow2_values, lemma_shr_values, sat16, shr, wrap32};
use crate::bitdepth::pixels;
use crate::picture::{
    advance, lemma_put_row_extend, lemma_rows_inside, offset_by, put_row, rows_inside, rows_put,
};
use crate::simd::{
    i16x8_load, i16x8_narrow_i32x4, i16x8_shl, i16x8_splat, i32x4_add, i32x4_extmul_high_i16x8,
    i32x4_extmul_low_i16x8, i32x4_shr, i32x4_splat, u16x8_load8, u8x16_narrow_i16x8, I16x8, I32x4,
};
use vstd::arithmetic::power2::pow2;
use vstd::prelude::*;

verus! {

/// The bits of precision that the first of two passes keeps.
pub const INTERMEDIATE_BITS: u32 = 4;

/// The distance of the rows of the intermediate block.
pub const MID_STRIDE: usize = 128;

/// The number of rows of the intermediate block: the tallest block and seven more.
pub const MID_ROWS: usize = 135;

/// The eight taps of a filter, each in all lanes.
pub struct Taps {
    pub v: [I16x8; 8],
}

impl View for Taps {
    type V = Seq<i8>;

    /// The taps of the filter.
    open spec fn view(&self) -> Seq<i8> {
        Seq::new(8, |k: int| self.v@[k]@[0] as i8)
    }
}

impl Taps {
    /// Whether each tap is in all lanes.
    pub open spec fn wf(&self) -> bool {
        forall|k: int, l: int| 0 <= k < 8 && 0 <= l < 8 ==> #[trigger] self.v@[k]@[l] == self@[k]
    }

    /// The taps of the filter `f`.
    pub fn new(f: &[i8; 8]) -> (r: Self)
        ensures
            r.wf(),
            r@ == f@,
    {
        let r: Taps = Taps {
            v: [
                i16x8_splat(f[0] as i16),
                i16x8_splat(f[1] as i16),
                i16x8_splat(f[2] as i16),
                i16x8_splat(f[3] as i16),
                i16x8_splat(f[4] as i16),
                i16x8_splat(f[5] as i16),
                i16x8_splat(f[6] as i16),
                i16x8_splat(f[7] as i16),
            ],
        };
        assert(r@ =~= f@);
        r
    }
}

/// Eight 32-bit sums: the low four and the high four.
pub type Sums = (I32x4, I32x4);

/// Sum `l` of the eight.
pub open spec fn sum_at(acc: Sums, l: int) -> int {
    if l < 4 {
        acc.0@[l] as int
    } else {
        acc.1@[l - 4] as int
    }
}

/// Adds the products of the lanes of `s` and `tap` to the sums.
pub fn mac(acc: Sums, s: I16x8, tap: I16x8) -> (r: Sums)
    ensures
        forall|l: int|
            0 <= l < 8 ==> #[trigger] sum_at(r, l) == wrap32(sum_at(acc, l) + s@[l] * tap@[l]),
{
    let r: Sums = (
        i32x4_add(acc.0, i32x4_extmul_low_i16x8(s, tap)),
        i32x4_add(acc.1, i32x4_extmul_high_i16x8(s, tap)),
    );
    r
}

/// `(sum + rnd) >> sh`, limited to the range of `i16`.
pub fn round_pack_i16(acc: Sums, rnd: i32, sh: u32) -> (r: I16x8)
    ensures
        forall|l: int|
            0 <= l < 8 ==> #[trigger] r@[l] == sat16(
                shr(wrap32(sum_at(acc, l) + rnd), (sh % 32) as nat),
            ),
{
    let rounding: I32x4 = i32x4_splat(rnd);
    i16x8_narrow_i32x4(
        i32x4_shr(i32x4_add(acc.0, rounding), sh),
        i32x4_shr(i32x4_add(acc.1, rounding), sh),
    )
}

/// The sum of the products of the first `n` taps of `f` with the values that they meet.
pub open spec fn dot(f: Seq<i8>, v: spec_fn(int) -> int, n: nat) -> int
    decreases n,
{
    if n == 0 {
        0
    } else {
        dot(f, v, (n - 1) as nat) + f[n - 1] * v(n - 1)
    }
}

/// A sum of `n` products of taps and 16-bit values is small.
pub proof fn lemma_dot_bound(f: Seq<i8>, v: spec_fn(int) -> int, n: nat)
    requires
        n <= f.len(),
        forall|k: int| 0 <= k < n ==> -0x8000 <= #[trigger] v(k) <= 0x7fff,
    ensures
        -0x40_0000 * n <= dot(f, v, n) <= 0x40_0000 * n,
    decreases n,
{
    if n > 0 {
        lemma_dot_bound(f, v, (n - 1) as nat);
        let a = f[n - 1] as int;
        let b = v(n - 1);
        assert(-0x40_0000 <= a * b <= 0x40_0000) by (nonlinear_arith)
            requires
                -128 <= a <= 127,
                -0x8000 <= b <= 0x7fff,
        ;
    }
}

/// The sums with which a filter starts.
fn no_sums() -> (r: Sums)
    ensures
        forall|l: int| 0 <= l < 8 ==> #[trigger] sum_at(r, l) == 0,
{
    (i32x4_splat(0), i32x4_splat(0))
}

/// The value that tap `k` meets for pixel `x` of a row that starts at `at`.
pub open spec fn along_row(src: Seq<u8>, at: int) -> spec_fn(int) -> int {
    |k: int| src[at + k] as int
}

/// Eight pixels filtered along a row: sum `l` is that of the eight pixels from `at + l` on.
pub fn h8(src: &[u8], at: usize, taps: &Taps) -> (r: Sums)
    requires
        at + 15 <= src@.len(),
        taps.wf(),
    ensures
        forall|l: int|
            0 <= l < 8 ==> #[trigger] sum_at(r, l) == dot(taps@, along_row(src@, at + l), 8),
{
    let ghost f = taps@;
    let mut acc: Sums = no_sums();
    let mut k: usize = 0;
    while k < 8
        invariant
            k <= 8,
            at + 15 <= src@.len(),
            f == taps@,
            taps.wf(),
            forall|l: int|
                0 <= l < 8 ==> #[trigger] sum_at(acc, l) == dot(f, along_row(src@, at + l), k as nat),
        decreases 8 - k,
    {
        assert(src.len() == src@.len());
        let s: I16x8 = u16x8_load8(src, at + k);
        let ghost before = acc;
        acc = mac(acc, s, taps.v[k]);
        proof {
            assert forall|l: int| 0 <= l < 8 implies #[trigger] sum_at(acc, l) == dot(
                f,
                along_row(src@, at + l),
                (k + 1) as nat,
            ) by {
                assert(sum_at(before, l) == dot(f, along_row(src@, at + l), k as nat));
                lemma_dot_bound(f, along_row(src@, at + l), (k + 1) as nat);
                assert(s@[l] * taps.v@[k as int]@[l] == f[k as int] * src@[at + l + k])
                    by (nonlinear_arith)
                    requires
                        s@[l] == src@[at + l + k],
                        taps.v@[k as int]@[l] == f[k as int],
                ;
            }
        }
        k += 1;
    }
    acc
}

/// The value that tap `k` meets in a column whose pixels are `stride` apart and start at `at`.
pub open spec fn along_column(src: Seq<u8>, at: int, stride: int) -> spec_fn(int) -> int {
    |k: int| src[at + k * stride] as int
}

/// The value that tap `k` meets in column `x` of the rows that start at the positions `rows`.
pub open spec fn along_rows(src: Seq<u8>, rows: Seq<usize>, x: int) -> spec_fn(int) -> int {
    |k: int| src[rows[k] + x] as int
}

/// Eight pixels filtered down the rows that start at the positions `rows`: sum `l` is that of column
/// `x + l`.
pub fn v8_u8(src: &[u8], rows: &[usize; 8], x: usize, taps: &Taps) -> (r: Sums)
    requires
        forall|k: int| 0 <= k < 8 ==> (#[trigger] rows@[k]) + x + 8 <= src@.len(),
        taps.wf(),
    ensures
        forall|l: int|
            0 <= l < 8 ==> #[trigger] sum_at(r, l) == dot(taps@, along_rows(src@, rows@, x + l), 8),
{
    let ghost f = taps@;
    let mut acc: Sums = no_sums();
    let mut k: usize = 0;
    while k < 8
        invariant
            k <= 8,
            forall|k: int| 0 <= k < 8 ==> (#[trigger] rows@[k]) + x + 8 <= src@.len(),
            f == taps@,
            taps.wf(),
            forall|l: int|
                0 <= l < 8 ==> #[trigger] sum_at(acc, l) == dot(
                    f,
                    along_rows(src@, rows@, x + l),
                    k as nat,
                ),
        decreases 8 - k,
    {
        assert(src.len() == src@.len());
        let s: I16x8 = u16x8_load8(src, rows[k] + x);
        let ghost before = acc;
        acc = mac(acc, s, taps.v[k]);
        proof {
            assert forall|l: int| 0 <= l < 8 implies #[trigger] sum_at(acc, l) == dot(
                f,
                along_rows(src@, rows@, x + l),
                (k + 1) as nat,
            ) by {
                let v = along_rows(src@, rows@, x + l);
                assert(sum_at(before, l) == dot(f, v, k as nat));
                lemma_dot_bound(f, v, (k + 1) as nat);
                assert(s@[l] == v(k as int));
                assert(s@[l] * taps.v@[k as int]@[l] == f[k as int] * v(k as int))
                    by (nonlinear_arith)
                    requires
                        s@[l] == v(k as int),
                        taps.v@[k as int]@[l] == f[k as int],
                ;
            }
        }
        k += 1;
    }
    acc
}

/// The intermediate block between the two passes of a two-dimensional filter. Only cells that have been
/// stored can be read.
pub struct Mid {
    cells: Vec<i16>,
    stored: Ghost<Set<(int, int)>>,
}

impl View for Mid {
    type V = Map<(int, int), int>;

    /// The cells that have been stored, by row and column.
    closed spec fn view(&self) -> Map<(int, int), int> {
        Map::new(
            |c: (int, int)| self.stored@.contains(c),
            |c: (int, int)| self.cells@[c.0 * MID_STRIDE + c.1] as int,
        )
    }
}

impl Mid {
    /// Whether the block has all its cells, and only cells in it have been stored.
    pub closed spec fn wf(&self) -> bool {
        &&& self.cells@.len() == MID_ROWS * MID_STRIDE
        &&& forall|c: (int, int)| #[trigger]
            self.stored@.contains(c) ==> 0 <= c.0 < MID_ROWS && 0 <= c.1 < MID_STRIDE
    }

    /// A block in which nothing has been stored.
    pub fn new() -> (r: Self)
        ensures
            r.wf(),
            r@ == Map::<(int, int), int>::empty(),
    {
        let mut cells: Vec<i16> = Vec::new();
        let mut n: usize = 0;
        while n < MID_ROWS * MID_STRIDE
            invariant
                n <= MID_ROWS * MID_STRIDE,
                cells@.len() == n,
            decreases MID_ROWS * MID_STRIDE - n,
        {
            cells.push(0);
            n += 1;
        }
        let r: Mid = Mid { cells, stored: Ghost(Set::empty()) };
        assert(r@ =~= Map::<(int, int), int>::empty());
        r
    }

    /// Stores eight cells of row `y` from column `x` on.
    pub fn store8(&mut self, y: usize, x: usize, v: I16x8)
        requires
            old(self).wf(),
            y < MID_ROWS,
            x + 8 <= MID_STRIDE,
        ensures
            final(self).wf(),
            final(self)@ == old(self)@.union_prefer_right(stored8(y as int, x as int, v)),
    {
        let at: usize = y * MID_STRIDE + x;
        let mut l: usize = 0;
        while l < 8
            invariant
                l <= 8,
                y < MID_ROWS,
                x + 8 <= MID_STRIDE,
                at == y * MID_STRIDE + x,
                self.cells@.len() == MID_ROWS * MID_STRIDE,
                self.stored == old(self).stored,
                forall|i: int|
                    0 <= i < self.cells@.len() ==> #[trigger] self.cells@[i] == if at <= i < at + l {
                        v@[i - at]
                    } else {
                        old(self).cells@[i]
                    },
            decreases 8 - l,
        {
            self.cells.set(at + l, v.lanes[l]);
            l += 1;
        }
        proof {
            let new_cells = Set::new(|c: (int, int)| c.0 == y && x <= c.1 < x + 8);
            self.stored = Ghost(old(self).stored@.union(new_cells));
            assert(self@ =~= old(self)@.union_prefer_right(stored8(y as int, x as int, v)));
        }
    }

    /// Eight pixels filtered down the rows from row `y` on: sum `l` is that of column `x + l`.
    pub fn v8(&self, y: usize, x: usize, taps: &Taps) -> (r: Sums)
        requires
            self.wf(),
            y + 8 <= MID_ROWS,
            x + 8 <= MID_STRIDE,
            taps.wf(),
            forall|k: int, l: int|
                0 <= k < 8 && 0 <= l < 8 ==> #[trigger] self@.dom().contains((y + k, x + l)),
        ensures
            forall|l: int|
                0 <= l < 8 ==> #[trigger] sum_at(r, l) == dot(
                    taps@,
                    along_cells(self@, y as int, x + l),
                    8,
                ),
    {
        let ghost f = taps@;
        let mut acc: Sums = no_sums();
        let mut k: usize = 0;
        while k < 8
            invariant
                k <= 8,
                self.wf(),
                y + 8 <= MID_ROWS,
                x + 8 <= MID_STRIDE,
                f == taps@,
                taps.wf(),
                forall|k: int, l: int|
                    0 <= k < 8 && 0 <= l < 8 ==> #[trigger] self@.dom().contains((y + k, x + l)),
                forall|l: int|
                    0 <= l < 8 ==> #[trigger] sum_at(acc, l) == dot(
                        f,
                        along_cells(self@, y as int, x + l),
                        k as nat,
                    ),
            decreases 8 - k,
        {
            let s: I16x8 = i16x8_load(self.cells.as_slice(), (y + k) * MID_STRIDE + x);
            let ghost before = acc;
            acc = mac(acc, s, taps.v[k]);
            proof {
                assert forall|l: int| 0 <= l < 8 implies #[trigger] sum_at(acc, l) == dot(
                    f,
                    along_cells(self@, y as int, x + l),
                    (k + 1) as nat,
                ) by {
                    let v = along_cells(self@, y as int, x + l);
                    assert(sum_at(before, l) == dot(f, v, k as nat));
                    assert forall|m: int| 0 <= m < k + 1 implies -0x8000 <= #[trigger] v(m)
                        <= 0x7fff by {
                        assert(self@.dom().contains((y + m, x + l)));
                    }
                    lemma_dot_bound(f, v, (k + 1) as nat);
                    assert(self@.dom().contains((y + k, x + l)));
                    assert(s@[l] == v(k as int));
                    assert(s@[l] * taps.v@[k as int]@[l] == f[k as int] * v(k as int))
                        by (nonlinear_arith)
                        requires
                            s@[l] == v(k as int),
                            taps.v@[k as int]@[l] == f[k as int],
                    ;
                }
            }
            k += 1;
        }
        acc
    }
}

/// Eight cells of row `y` from column `x` on.
pub open spec fn stored8(y: int, x: int, v: I16x8) -> Map<(int, int), int> {
    Map::new(
        |c: (int, int)| c.0 == y && x <= c.1 < x + 8,
        |c: (int, int)| v@[c.1 - x] as int,
    )
}

/// The value that tap `k` meets in column `x` of the intermediate block, from row `y` on.
pub open spec fn along_cells(mid: Map<(int, int), int>, y: int, x: int) -> spec_fn(int) -> int {
    |k: int| mid[(y + k, x)]
}

/// The sum of the filter `f` along the row, for the pixel in column `x` of row `y`. The filter starts three
/// pixels before it.
pub open spec fn h_sum(src: Seq<u8>, at: int, stride: int, f: Seq<i8>, x: int, y: int) -> int {
    dot(f, along_row(src, at + y * stride - 3 + x), 8)
}

/// The sum of the filter `f` down the column, for the pixel in column `x` of row `y`. The filter starts three
/// rows above it.
pub open spec fn v_sum(src: Seq<u8>, at: int, stride: int, f: Seq<i8>, x: int, y: int) -> int {
    dot(f, along_column(src, at + (y - 3) * stride + x, stride), 8)
}

/// The intermediate value in column `x` of row `y` of the block and the rows around it: the sum along the row
/// with four bits more than a pixel.
pub open spec fn mid_value(src: Seq<u8>, at: int, stride: int, f: Seq<i8>, x: int, y: int) -> int {
    sat16((h_sum(src, at, stride, f, x, y) + 2) / 4)
}

/// The sum of the filter `fv` down a column of the intermediate values, for the pixel in column `x` of row `y`.
pub open spec fn hv_sum(
    src: Seq<u8>,
    at: int,
    stride: int,
    fh: Seq<i8>,
    fv: Seq<i8>,
    x: int,
    y: int,
) -> int {
    dot(fv, |k: int| mid_value(src, at, stride, fh, x, y + k - 3), 8)
}

proof fn lemma_h_sum_bound(src: Seq<u8>, at: int, stride: int, f: Seq<i8>, x: int, y: int)
    requires
        f.len() == 8,
    ensures
        -0x200_0000 <= h_sum(src, at, stride, f, x, y) <= 0x200_0000,
{
    lemma_dot_bound(f, along_row(src, at + y * stride - 3 + x), 8);
}

/// The pass along the rows: eight intermediate values of row `y` from column `x` on.
fn h_mid8(
    src: &[u8],
    start: usize,
    x: usize,
    taps: &Taps,
    Ghost(f): Ghost<Seq<i8>>,
    Ghost(at): Ghost<int>,
    Ghost(stride): Ghost<int>,
    Ghost(y): Ghost<int>,
) -> (r: I16x8)
    requires
        start == at + y * stride - 3,
        start + x + 15 <= src@.len(),
        taps.wf(),
        taps@ == f,
    ensures
        forall|l: int|
            0 <= l < 8 ==> #[trigger] r@[l] == mid_value(src@, at, stride, f, x + l, y),
{
    assert(src.len() == src@.len());
    let acc: Sums = h8(src, start + x, taps);
    let r: I16x8 = round_pack_i16(acc, 2, 2);
    proof {
        assert forall|l: int| 0 <= l < 8 implies #[trigger] r@[l] == mid_value(
            src@,
            at,
            stride,
            f,
            x + l,
            y,
        ) by {
            lemma_h_sum_bound(src@, at, stride, f, x + l, y);
            assert(start + x + l == at + y * stride - 3 + (x + l));
            assert(sum_at(acc, l) == h_sum(src@, at, stride, f, x + l, y));
            lemma_shr_values(sum_at(acc, l) + 2);
        }
    }
    r
}

/// The first pass of a two-dimensional filter: the intermediate values of the block, of the three rows above
/// it and of the four rows below it.
fn h_pass(
    src: &[u8],
    src_at: usize,
    src_stride: isize,
    w: usize,
    h: usize,
    fh: &[i8; 8],
) -> (mid: Mid)
    requires
        8 <= w <= MID_STRIDE,
        w % 8 == 0,
        h + 7 <= MID_ROWS,
        rows_inside(
            src@.len() as int,
            src_at - 3 * src_stride - 3,
            src_stride as int,
            w + 7,
            h + 7,
        ),
    ensures
        mid.wf(),
        forall|y: int, x: int|
            0 <= y < h + 7 && 0 <= x < w ==> #[trigger] mid@.dom().contains((y, x)) && mid@[(y, x)]
                == mid_value(src@, src_at as int, src_stride as int, fh@, x, y - 3),
{
    let th: Taps = Taps::new(fh);
    let mut mid: Mid = Mid::new();
    let mut y: usize = 0;
    while y < h + 7
        invariant
            y <= h + 7,
            8 <= w <= MID_STRIDE,
            w % 8 == 0,
            h + 7 <= MID_ROWS,
            rows_inside(
                src@.len() as int,
                src_at - 3 * src_stride - 3,
                src_stride as int,
                w + 7,
                h + 7,
            ),
            th.wf(),
            th@ == fh@,
            mid.wf(),
            forall|v: int, u: int|
                0 <= v < y && 0 <= u < w ==> #[trigger] mid@.dom().contains((v, u)) && mid@[(v, u)]
                    == mid_value(src@, src_at as int, src_stride as int, fh@, u, v - 3),
        decreases h + 7 - y,
    {
        let row: isize = y as isize - 3;
        proof {
            lemma_rows_inside(
                src@.len() as int,
                src_at - 3 * src_stride - 3,
                src_stride as int,
                w + 7,
                h + 7,
                y as int,
            );
            assert(row * src_stride == y * src_stride - 3 * src_stride) by (nonlinear_arith)
                requires
                    row == y - 3,
            ;
            assert(src.len() == src@.len());
        }
        let start: usize = offset_by(src_at, row, src_stride) - 3;
        let mut x: usize = 0;
        while x < w
            invariant
                x <= w,
                x % 8 == 0,
                y < h + 7,
                row == y - 3,
                8 <= w <= MID_STRIDE,
                w % 8 == 0,
                h + 7 <= MID_ROWS,
                start == src_at + row * src_stride - 3,
                start + w + 7 <= src@.len(),
                th.wf(),
                th@ == fh@,
                mid.wf(),
                forall|v: int, u: int|
                    (0 <= v < y && 0 <= u < w) || (v == y && 0 <= u < x)
                        ==> #[trigger] mid@.dom().contains((v, u)) && mid@[(v, u)] == mid_value(
                        src@,
                        src_at as int,
                        src_stride as int,
                        fh@,
                        u,
                        v - 3,
                    ),
            decreases w - x,
        {
            let v: I16x8 = h_mid8(
                src,
                start,
                x,
                &th,
                Ghost(fh@),
                Ghost(src_at as int),
                Ghost(src_stride as int),
                Ghost(row as int),
            );
            mid.store8(y, x, v);
            x += 8;
        }
        y += 1;
    }
    proof {
        assert forall|v: int, u: int| 0 <= v < h + 7 && 0 <= u < w implies #[trigger] mid@.dom().contains(
            (v, u),
        ) && mid@[(v, u)] == mid_value(src@, src_at as int, src_stride as int, fh@, u, v - 3) by {
            assert(v < y);
        }
    }
    mid
}

/// Eight pixels of the second pass of a two-dimensional filter.
fn hv_sums(
    mid: &Mid,
    y: usize,
    x: usize,
    tv: &Taps,
    Ghost(fv): Ghost<Seq<i8>>,
    Ghost(fh): Ghost<Seq<i8>>,
    Ghost(src): Ghost<Seq<u8>>,
    Ghost(at): Ghost<int>,
    Ghost(stride): Ghost<int>,
    Ghost(w): Ghost<int>,
    Ghost(h): Ghost<int>,
) -> (r: Sums)
    requires
        mid.wf(),
        h + 7 <= MID_ROWS,
        w <= MID_STRIDE,
        y < h,
        x + 8 <= w,
        tv.wf(),
        tv@ == fv,
        forall|y: int, x: int|
            0 <= y < h + 7 && 0 <= x < w ==> #[trigger] mid@.dom().contains((y, x)) && mid@[(y, x)]
                == mid_value(src, at, stride, fh, x, y - 3),
    ensures
        forall|l: int|
            0 <= l < 8 ==> #[trigger] sum_at(r, l) == hv_sum(
                src,
                at,
                stride,
                fh,
                fv,
                x + l,
                y as int,
            ) && -0x200_0000 <= sum_at(r, l) <= 0x200_0000,
{
    let r: Sums = mid.v8(y, x, tv);
    proof {
        assert forall|l: int| 0 <= l < 8 implies #[trigger] sum_at(r, l) == hv_sum(
            src,
            at,
            stride,
            fh,
            fv,
            x + l,
            y as int,
        ) && -0x200_0000 <= sum_at(r, l) <= 0x200_0000 by {
            let a = along_cells(mid@, y as int, x + l);
            let b = |k: int| mid_value(src, at, stride, fh, x + l, y + k - 3);
            assert forall|k: int| 0 <= k < 8 implies #[trigger] a(k) == b(k) by {
                assert(mid@.dom().contains((y + k, x + l)));
            }
            lemma_dot_same(fv, a, b, 8);
            lemma_dot_bound(fv, b, 8);
        }
    }
    r
}

/// A sum depends on the values that the taps meet alone.
pub proof fn lemma_dot_same(f: Seq<i8>, a: spec_fn(int) -> int, b: spec_fn(int) -> int, n: nat)
    requires
        forall|k: int| 0 <= k < n ==> #[trigger] a(k) == b(k),
    ensures
        dot(f, a, n) == dot(f, b, n),
    decreases n,
{
    if n > 0 {
        lemma_dot_same(f, a, b, (n - 1) as nat);
    }
}

/// The filters of a block: along the rows and down the columns, where there is one.
pub struct Filters {
    pub h: Option<Seq<i8>>,
    pub v: Option<Seq<i8>>,
}

/// The filters that the arguments of a function give.
pub open spec fn filters(fh: Option<&[i8; 8]>, fv: Option<&[i8; 8]>) -> Filters {
    Filters {
        h: match fh {
            Some(f) => Some(f@),
            None => None,
        },
        v: match fv {
            Some(f) => Some(f@),
            None => None,
        },
    }
}

/// The filtered sum for the pixel in column `x` of row `y`, before it is rounded.
pub open spec fn filter_sum(src: Seq<u8>, at: int, stride: int, f: Filters, x: int, y: int) -> int {
    match (f.h, f.v) {
        (Some(fh), Some(fv)) => hv_sum(src, at, stride, fh, fv, x, y),
        (Some(fh), None) => h_sum(src, at, stride, fh, x, y),
        (None, Some(fv)) => v_sum(src, at, stride, fv, x, y),
        (None, None) => src[at + y * stride + x] as int,
    }
}

/// Whether the pixels that filtering a block looks at lie in the source plane.
pub open spec fn source_inside(len: int, at: int, stride: int, f: Filters, w: int, h: int) -> bool {
    match (f.h, f.v) {
        (Some(_), Some(_)) => rows_inside(len, at - 3 * stride - 3, stride, w + 7, h + 7),
        (Some(_), None) => rows_inside(len, at - 3, stride, w + 7, h),
        (None, Some(_)) => h > 0 ==> rows_inside(len, at - 3 * stride, stride, w, h + 7),
        (None, None) => rows_inside(len, at, stride, w, h),
    }
}

/// Whether a block fits the intermediate block, where one is needed.
pub open spec fn fits_mid(f: Filters, w: int, h: int) -> bool {
    f.h is Some && f.v is Some ==> w <= MID_STRIDE && h + 7 <= MID_ROWS
}

/// What is needed to filter a block eight pixels at a time.
enum Pass {
    Both(Mid, Taps),
    Row(Taps),
    Column(Taps),
}

impl Pass {
    /// Whether the pass filters a block of `w` by `h` pixels with the filters `f`.
    spec fn ready(
        &self,
        src: Seq<u8>,
        at: int,
        stride: int,
        f: Filters,
        w: int,
        h: int,
    ) -> bool {
        match (*self, f.h, f.v) {
            (Pass::Both(mid, tv), Some(fh), Some(fv)) => {
                &&& mid.wf()
                &&& w <= MID_STRIDE
                &&& h + 7 <= MID_ROWS
                &&& tv.wf()
                &&& tv@ == fv
                &&& forall|y: int, x: int|
                    0 <= y < h + 7 && 0 <= x < w ==> #[trigger] mid@.dom().contains((y, x)) && mid@[(
                        y,
                        x,
                    )] == mid_value(src, at, stride, fh, x, y - 3)
            },
            (Pass::Row(th), Some(fh), None) => {
                &&& th.wf()
                &&& th@ == fh
                &&& source_inside(src.len() as int, at, stride, f, w, h)
            },
            (Pass::Column(tv), None, Some(fv)) => {
                &&& tv.wf()
                &&& tv@ == fv
                &&& source_inside(src.len() as int, at, stride, f, w, h)
            },
            _ => false,
        }
    }

    /// The sums of eight pixels of row `y` from column `x` on.
    fn sums8(
        &self,
        src: &[u8],
        src_at: usize,
        src_stride: isize,
        x: usize,
        y: usize,
        Ghost(f): Ghost<Filters>,
        Ghost(w): Ghost<int>,
        Ghost(h): Ghost<int>,
    ) -> (r: Sums)
        requires
            self.ready(src@, src_at as int, src_stride as int, f, w, h),
            x + 8 <= w,
            y < h,
            y <= isize::MAX - 8,
        ensures
            forall|l: int|
                0 <= l < 8 ==> #[trigger] sum_at(r, l) == filter_sum(
                    src@,
                    src_at as int,
                    src_stride as int,
                    f,
                    x + l,
                    y as int,
                ) && -0x200_0000 <= sum_at(r, l) <= 0x200_0000,
    {
        assert(src.len() == src@.len());
        match self {
            Pass::Both(mid, tv) => hv_sums(
                mid,
                y,
                x,
                tv,
                Ghost(f.v->0),
                Ghost(f.h->0),
                Ghost(src@),
                Ghost(src_at as int),
                Ghost(src_stride as int),
                Ghost(w),
                Ghost(h),
            ),
            Pass::Row(th) => {
                proof {
                    lemma_rows_inside(
                        src@.len() as int,
                        src_at - 3,
                        src_stride as int,
                        w + 7,
                        h,
                        y as int,
                    );
                }
                let start: usize = offset_by(src_at, y as isize, src_stride) - 3;
                let r: Sums = h8(src, start + x, th);
                proof {
                    assert forall|l: int| 0 <= l < 8 implies #[trigger] sum_at(r, l) == filter_sum(
                        src@,
                        src_at as int,
                        src_stride as int,
                        f,
                        x + l,
                        y as int,
                    ) && -0x200_0000 <= sum_at(r, l) <= 0x200_0000 by {
                        assert(start + x + l == src_at + y * src_stride - 3 + (x + l));
                        lemma_h_sum_bound(
                            src@,
                            src_at as int,
                            src_stride as int,
                            f.h->0,
                            x + l,
                            y as int,
                        );
                    }
                }
                r
            },
            Pass::Column(tv) => {
                let rows: [usize; 8] = eight_rows(
                    src_at,
                    src_stride,
                    y,
                    Ghost(src@.len() as int),
                    Ghost(w),
                    Ghost(h),
                );
                let ghost at = src_at + (y - 3) * src_stride;
                let r: Sums = v8_u8(src, &rows, x, tv);
                proof {
                    assert forall|l: int| 0 <= l < 8 implies #[trigger] sum_at(r, l) == filter_sum(
                        src@,
                        src_at as int,
                        src_stride as int,
                        f,
                        x + l,
                        y as int,
                    ) && -0x200_0000 <= sum_at(r, l) <= 0x200_0000 by {
                        let a = along_rows(src@, rows@, x + l);
                        let b = along_column(src@, at + (x + l), src_stride as int);
                        assert forall|k: int| 0 <= k < 8 implies #[trigger] a(k) == b(k) by {
                            assert(rows@[k] == at + k * src_stride);
                        }
                        lemma_dot_same(f.v->0, a, b, 8);
                        lemma_dot_bound(f.v->0, b, 8);
                    }
                }
                r
            },
        }
    }
}

/// The positions of the eight rows that the filter down the columns meets for row `y`.
fn eight_rows(
    src_at: usize,
    src_stride: isize,
    y: usize,
    Ghost(len): Ghost<int>,
    Ghost(w): Ghost<int>,
    Ghost(h): Ghost<int>,
) -> (r: [usize; 8])
    requires
        y < h,
        y <= isize::MAX - 8,
        0 <= w,
        len <= usize::MAX,
        rows_inside(len, src_at - 3 * src_stride, src_stride as int, w, h + 7),
    ensures
        forall|k: int|
            0 <= k < 8 ==> (#[trigger] r@[k]) + w <= len && r@[k] == src_at + (y - 3) * src_stride + k
                * src_stride,
{
    let mut r: [usize; 8] = [0; 8];
    let mut k: usize = 0;
    while k < 8
        invariant
            k <= 8,
            y < h,
            y <= isize::MAX - 8,
            0 <= w,
            len <= usize::MAX,
            rows_inside(len, src_at - 3 * src_stride, src_stride as int, w, h + 7),
            forall|m: int|
                0 <= m < k ==> (#[trigger] r@[m]) + w <= len && r@[m] == src_at + (y - 3) * src_stride
                    + m * src_stride,
        decreases 8 - k,
    {
        let row: isize = y as isize + k as isize - 3;
        proof {
            lemma_rows_inside(len, src_at - 3 * src_stride, src_stride as int, w, h + 7, y + k);
            assert(row * src_stride == (y + k) * src_stride - 3 * src_stride) by (nonlinear_arith)
                requires
                    row == y + k - 3,
            ;
            assert(row * src_stride == (y - 3) * src_stride + k * src_stride) by (nonlinear_arith)
                requires
                    row == y + k - 3,
            ;
        }
        r[k] = offset_by(src_at, row, src_stride);
        k += 1;
    }
    r
}

/// Prepares the filters of a block, if there are any.
fn prepare(
    src: &[u8],
    src_at: usize,
    src_stride: isize,
    w: usize,
    h: usize,
    fh: Option<&[i8; 8]>,
    fv: Option<&[i8; 8]>,
) -> (r: Option<Pass>)
    requires
        8 <= w,
        w % 8 == 0,
        fits_mid(filters(fh, fv), w as int, h as int),
        source_inside(
            src@.len() as int,
            src_at as int,
            src_stride as int,
            filters(fh, fv),
            w as int,
            h as int,
        ),
    ensures
        r is None == (fh is None && fv is None),
        r matches Some(pass) ==> pass.ready(
            src@,
            src_at as int,
            src_stride as int,
            filters(fh, fv),
            w as int,
            h as int,
        ),
{
    match (fh, fv) {
        (Some(fh), Some(fv)) => {
            let mid: Mid = h_pass(src, src_at, src_stride, w, h, fh);
            Some(Pass::Both(mid, Taps::new(fv)))
        },
        (Some(fh), None) => Some(Pass::Row(Taps::new(fh))),
        (None, Some(fv)) => Some(Pass::Column(Taps::new(fv))),
        (None, None) => None,
    }
}

/// What is added to a sum of `put_8tap` before it is shifted. A pass along the rows alone is rounded as the two
/// passes that it stands for would be.
pub open spec fn put_rounding(f: Filters) -> int {
    match (f.h, f.v) {
        (Some(_), Some(_)) => 512,
        (Some(_), None) => 34,
        _ => 32,
    }
}

/// What a sum of `put_8tap` is divided by.
pub open spec fn put_divisor(f: Filters) -> int {
    if f.h is Some && f.v is Some {
        1024
    } else {
        64
    }
}

/// The predicted pixel in column `x` of row `y`.
pub open spec fn put_pixel(src: Seq<u8>, at: int, stride: int, f: Filters, x: int, y: int) -> int {
    clip8((filter_sum(src, at, stride, f, x, y) + put_rounding(f)) / put_divisor(f))
}

/// Row `y` of the predicted block.
pub open spec fn put_rows(src: Seq<u8>, at: int, stride: int, f: Filters, w: nat) -> spec_fn(
    int,
) -> Seq<int> {
    |y: int| Seq::new(w, |x: int| put_pixel(src, at, stride, f, x, y))
}

/// Stores eight lanes as pixels, each limited to the range of a pixel.
pub fn store8_u8(dst: &mut [u8], at: usize, v: I16x8)
    requires
        at + 8 <= old(dst)@.len(),
    ensures
        pixels(final(dst)@) == put_row(
            pixels(old(dst)@),
            at as int,
            Seq::new(8, |l: int| clip8(v@[l] as int)),
        ),
        final(dst)@.len() == old(dst)@.len(),
{
    let packed: [u8; 16] = u8x16_narrow_i16x8(v, v);
    assert(dst.len() == dst@.len());
    dst[at] = packed[0];
    dst[at + 1] = packed[1];
    dst[at + 2] = packed[2];
    dst[at + 3] = packed[3];
    dst[at + 4] = packed[4];
    dst[at + 5] = packed[5];
    dst[at + 6] = packed[6];
    dst[at + 7] = packed[7];
    assert(pixels(dst@) =~= put_row(
        pixels(old(dst)@),
        at as int,
        Seq::new(8, |l: int| clip8(v@[l] as int)),
    ));
}

/// The elements as integers.
pub open spec fn values(s: Seq<i16>) -> Seq<int> {
    Seq::new(s.len(), |i: int| s[i] as int)
}

/// Stores eight lanes.
pub fn store8_i16(dst: &mut [i16], at: usize, v: I16x8)
    requires
        at + 8 <= old(dst)@.len(),
    ensures
        values(final(dst)@) == put_row(values(old(dst)@), at as int, Seq::new(8, |l: int| v@[l] as int)),
        final(dst)@.len() == old(dst)@.len(),
{
    assert(dst.len() == dst@.len());
    dst[at] = v.lanes[0];
    dst[at + 1] = v.lanes[1];
    dst[at + 2] = v.lanes[2];
    dst[at + 3] = v.lanes[3];
    dst[at + 4] = v.lanes[4];
    dst[at + 5] = v.lanes[5];
    dst[at + 6] = v.lanes[6];
    dst[at + 7] = v.lanes[7];
    assert(values(dst@) =~= put_row(
        values(old(dst)@),
        at as int,
        Seq::new(8, |l: int| v@[l] as int),
    ));
}

/// Eight predicted pixels, before they are limited to the range of a pixel.
fn put8(acc: Sums, both: bool, row_only: bool, Ghost(f): Ghost<Filters>) -> (r: I16x8)
    requires
        both == (f.h is Some && f.v is Some),
        row_only == (f.h is Some && f.v is None),
        f.h is Some || f.v is Some,
        forall|l: int| 0 <= l < 8 ==> -0x200_0000 <= #[trigger] sum_at(acc, l) <= 0x200_0000,
    ensures
        forall|l: int|
            0 <= l < 8 ==> clip8((#[trigger] r@[l]) as int) == clip8(
                (sum_at(acc, l) + put_rounding(f)) / put_divisor(f),
            ),
{
    let r: I16x8 = if both {
        round_pack_i16(acc, 512, 10)
    } else if row_only {
        round_pack_i16(acc, 34, 6)
    } else {
        round_pack_i16(acc, 32, 6)
    };
    proof {
        assert forall|l: int| 0 <= l < 8 implies clip8((#[trigger] r@[l]) as int) == clip8(
            (sum_at(acc, l) + put_rounding(f)) / put_divisor(f),
        ) by {
            let z = sum_at(acc, l) + put_rounding(f);
            lemma_shr_values(z);
            assert(wrap32(z) == z);
        }
    }
    r
}

/// Predicts a block of `w` by `h` pixels: the block of the source plane at `src_at`, filtered with `fh` along
/// the rows and with `fv` down the columns. Returns `false`, having done nothing, where there is no filter;
/// the caller copies the block.
pub fn put_8tap(
    dst: &mut [u8],
    dst_at: usize,
    dst_stride: isize,
    src: &[u8],
    src_at: usize,
    src_stride: isize,
    w: usize,
    h: usize,
    fh: Option<&[i8; 8]>,
    fv: Option<&[i8; 8]>,
) -> (filtered: bool)
    requires
        8 <= w,
        w % 8 == 0,
        h <= isize::MAX - 8,
        fh is Some || fv is Some ==> {
            &&& fits_mid(filters(fh, fv), w as int, h as int)
            &&& source_inside(
                src@.len() as int,
                src_at as int,
                src_stride as int,
                filters(fh, fv),
                w as int,
                h as int,
            )
            &&& rows_inside(
                old(dst)@.len() as int,
                dst_at as int,
                dst_stride as int,
                w as int,
                h as int,
            )
        },
    ensures
        filtered == (fh is Some || fv is Some),
        !filtered ==> final(dst)@ == old(dst)@,
        filtered ==> pixels(final(dst)@) == rows_put(
            pixels(old(dst)@),
            dst_at as int,
            dst_stride as int,
            put_rows(src@, src_at as int, src_stride as int, filters(fh, fv), w as nat),
            h as nat,
        ),
        final(dst)@.len() == old(dst)@.len(),
{
    let both: bool = fh.is_some() && fv.is_some();
    let row_only: bool = fh.is_some() && fv.is_none();
    if fh.is_none() && fv.is_none() {
        return false;
    }
    let ghost f = filters(fh, fv);
    let ghost data = pixels(dst@);
    let ghost row = put_rows(src@, src_at as int, src_stride as int, f, w as nat);
    let pass: Pass = match prepare(src, src_at, src_stride, w, h, fh, fv) {
        Some(pass) => pass,
        None => {
            return false;
        },
    };
    let mut y: usize = 0;
    while y < h
        invariant
            y <= h,
            8 <= w,
            w % 8 == 0,
            h <= isize::MAX - 8,
            f == filters(fh, fv),
            both == (f.h is Some && f.v is Some),
            row_only == (f.h is Some && f.v is None),
            f.h is Some || f.v is Some,
            pass.ready(src@, src_at as int, src_stride as int, f, w as int, h as int),
            dst@.len() == old(dst)@.len(),
            rows_inside(dst@.len() as int, dst_at as int, dst_stride as int, w as int, h as int),
            row == put_rows(src@, src_at as int, src_stride as int, f, w as nat),
            pixels(dst@) == rows_put(data, dst_at as int, dst_stride as int, row, y as nat),
        decreases h - y,
    {
        proof {
            lemma_rows_inside(
                dst@.len() as int,
                dst_at as int,
                dst_stride as int,
                w as int,
                h as int,
                y as int,
            );
            assert(dst.len() == dst@.len());
        }
        let at: usize = offset_by(dst_at, y as isize, dst_stride);
        let ghost before = pixels(dst@);
        let ghost this = row(y as int);
        let mut x: usize = 0;
        assert(pixels(dst@) =~= put_row(before, at as int, this.take(0)));
        while x < w
            invariant
                x <= w,
                x % 8 == 0,
                y < h,
                8 <= w,
                w % 8 == 0,
                h <= isize::MAX - 8,
                both == (f.h is Some && f.v is Some),
                row_only == (f.h is Some && f.v is None),
                f.h is Some || f.v is Some,
                pass.ready(src@, src_at as int, src_stride as int, f, w as int, h as int),
                dst@.len() == old(dst)@.len(),
                at + w <= dst@.len(),
                this == Seq::new(
                    w as nat,
                    |x: int| put_pixel(src@, src_at as int, src_stride as int, f, x, y as int),
                ),
                pixels(dst@) == put_row(before, at as int, this.take(x as int)),
            decreases w - x,
        {
            let acc: Sums = pass.sums8(
                src,
                src_at,
                src_stride,
                x,
                y,
                Ghost(f),
                Ghost(w as int),
                Ghost(h as int),
            );
            let v: I16x8 = put8(acc, both, row_only, Ghost(f));
            assert(dst.len() == dst@.len());
            store8_u8(dst, at + x, v);
            proof {
                assert(Seq::new(8, |l: int| clip8(v@[l] as int)) =~= this.subrange(
                    x as int,
                    x + 8,
                )) by {
                    assert forall|l: int| 0 <= l < 8 implies clip8((#[trigger] v@[l]) as int)
                        == this[x + l] by {
                        assert(sum_at(acc, l) == filter_sum(
                            src@,
                            src_at as int,
                            src_stride as int,
                            f,
                            x + l,
                            y as int,
                        ));
                    }
                }
                lemma_put_row_extend(before, at as int, this, x as int, x + 8);
            }
            x += 8;
        }
        assert(this.take(w as int) =~= this);
        y += 1;
    }
    true
}

/// The prediction in column `x` of row `y`, with four bits more than a pixel. Without a filter it is the pixel
/// itself.
pub open spec fn prep_value(src: Seq<u8>, at: int, stride: int, f: Filters, x: int, y: int) -> int {
    let sum = filter_sum(src, at, stride, f, x, y);
    match (f.h, f.v) {
        (Some(_), Some(_)) => sat16((sum + 32) / 64),
        (None, None) => 16 * sum,
        _ => sat16((sum + 2) / 4),
    }
}

/// Row `y` of the prediction.
pub open spec fn prep_rows(src: Seq<u8>, at: int, stride: int, f: Filters, w: nat) -> spec_fn(
    int,
) -> Seq<int> {
    |y: int| Seq::new(w, |x: int| prep_value(src, at, stride, f, x, y))
}

/// Eight filtered values of the prediction.
fn prep8(acc: Sums, both: bool) -> (r: I16x8)
    requires
        forall|l: int| 0 <= l < 8 ==> -0x200_0000 <= #[trigger] sum_at(acc, l) <= 0x200_0000,
    ensures
        both ==> forall|l: int|
            0 <= l < 8 ==> #[trigger] r@[l] == sat16((sum_at(acc, l) + 32) / 64),
        !both ==> forall|l: int|
            0 <= l < 8 ==> #[trigger] r@[l] == sat16((sum_at(acc, l) + 2) / 4),
{
    let r: I16x8 = if both {
        round_pack_i16(acc, 32, 6)
    } else {
        round_pack_i16(acc, 2, 2)
    };
    proof {
        assert forall|l: int| 0 <= l < 8 implies #[trigger] r@[l] == if both {
            sat16((sum_at(acc, l) + 32) / 64)
        } else {
            sat16((sum_at(acc, l) + 2) / 4)
        } by {
            lemma_shr_values(sum_at(acc, l) + 32);
            lemma_shr_values(sum_at(acc, l) + 2);
        }
    }
    r
}

/// Eight pixels of row `y` from column `x` on, with four bits more.
fn widen8(
    src: &[u8],
    src_at: usize,
    src_stride: isize,
    x: usize,
    y: usize,
    Ghost(w): Ghost<int>,
    Ghost(h): Ghost<int>,
) -> (r: I16x8)
    requires
        x + 8 <= w,
        y < h,
        y <= isize::MAX - 8,
        rows_inside(src@.len() as int, src_at as int, src_stride as int, w, h),
    ensures
        forall|l: int|
            0 <= l < 8 ==> #[trigger] r@[l] == 16 * src@[src_at + y * src_stride + (x + l)],
{
    proof {
        lemma_rows_inside(
            src@.len() as int,
            src_at as int,
            src_stride as int,
            w,
            h,
            y as int,
        );
        assert(src.len() == src@.len());
    }
    let start: usize = offset_by(src_at, y as isize, src_stride);
    let s: I16x8 = u16x8_load8(src, start + x);
    let r: I16x8 = i16x8_shl(s, INTERMEDIATE_BITS);
    proof {
        lemma_pow2_values();
        assert forall|l: int| 0 <= l < 8 implies #[trigger] r@[l] == 16 * src@[src_at + y * src_stride
            + (x + l)] by {
            assert(s@[l] * pow2(4) == 16 * s@[l]) by (nonlinear_arith)
                requires
                    pow2(4) == 16,
            ;
            assert(s@[l] == src@[src_at + y * src_stride + (x + l)]);
        }
    }
    r
}

/// Predicts a block of `w` by `h` pixels as `put_8tap` does, but keeps four bits more of each pixel, and puts
/// the rows one behind the other. Returns `false`, having done nothing, where there is no filter; the caller
/// copies the block with [`prep`].
pub fn prep_8tap(
    tmp: &mut [i16],
    src: &[u8],
    src_at: usize,
    src_stride: isize,
    w: usize,
    h: usize,
    fh: Option<&[i8; 8]>,
    fv: Option<&[i8; 8]>,
) -> (filtered: bool)
    requires
        8 <= w,
        w % 8 == 0,
        h <= isize::MAX - 8,
        fh is Some || fv is Some ==> {
            &&& fits_mid(filters(fh, fv), w as int, h as int)
            &&& source_inside(
                src@.len() as int,
                src_at as int,
                src_stride as int,
                filters(fh, fv),
                w as int,
                h as int,
            )
            &&& rows_inside(old(tmp)@.len() as int, 0, w as int, w as int, h as int)
        },
    ensures
        filtered == (fh is Some || fv is Some),
        !filtered ==> final(tmp)@ == old(tmp)@,
        filtered ==> values(final(tmp)@) == rows_put(
            values(old(tmp)@),
            0,
            w as int,
            prep_rows(src@, src_at as int, src_stride as int, filters(fh, fv), w as nat),
            h as nat,
        ),
        final(tmp)@.len() == old(tmp)@.len(),
{
    let both: bool = fh.is_some() && fv.is_some();
    if fh.is_none() && fv.is_none() {
        return false;
    }
    let ghost f = filters(fh, fv);
    let ghost data = values(tmp@);
    let ghost row = prep_rows(src@, src_at as int, src_stride as int, f, w as nat);
    let pass: Pass = match prepare(src, src_at, src_stride, w, h, fh, fv) {
        Some(pass) => pass,
        None => {
            return false;
        },
    };
    let mut y: usize = 0;
    while y < h
        invariant
            y <= h,
            8 <= w,
            w % 8 == 0,
            h <= isize::MAX - 8,
            f == filters(fh, fv),
            both == (f.h is Some && f.v is Some),
            f.h is Some || f.v is Some,
            pass.ready(src@, src_at as int, src_stride as int, f, w as int, h as int),
            tmp@.len() == old(tmp)@.len(),
            rows_inside(tmp@.len() as int, 0, w as int, w as int, h as int),
            row == prep_rows(src@, src_at as int, src_stride as int, f, w as nat),
            values(tmp@) == rows_put(data, 0, w as int, row, y as nat),
        decreases h - y,
    {
        proof {
            lemma_rows_inside(tmp@.len() as int, 0, w as int, w as int, h as int, y as int);
            assert(tmp.len() == tmp@.len());
        }
        let at: usize = advance(0, y, w);
        let ghost before = values(tmp@);
        let ghost this = row(y as int);
        let mut x: usize = 0;
        assert(values(tmp@) =~= put_row(before, at as int, this.take(0)));
        while x < w
            invariant
                x <= w,
                x % 8 == 0,
                y < h,
                8 <= w,
                w % 8 == 0,
                h <= isize::MAX - 8,
                both == (f.h is Some && f.v is Some),
                f.h is Some || f.v is Some,
                pass.ready(src@, src_at as int, src_stride as int, f, w as int, h as int),
                tmp@.len() == old(tmp)@.len(),
                at + w <= tmp@.len(),
                this == Seq::new(
                    w as nat,
                    |x: int| prep_value(src@, src_at as int, src_stride as int, f, x, y as int),
                ),
                values(tmp@) == put_row(before, at as int, this.take(x as int)),
            decreases w - x,
        {
            let acc: Sums = pass.sums8(
                src,
                src_at,
                src_stride,
                x,
                y,
                Ghost(f),
                Ghost(w as int),
                Ghost(h as int),
            );
            let v: I16x8 = prep8(acc, both);
            assert(tmp.len() == tmp@.len());
            store8_i16(tmp, at + x, v);
            proof {
                assert forall|l: int| 0 <= l < 8 implies #[trigger] v@[l] == this[x + l] by {
                    assert(sum_at(acc, l) == filter_sum(
                        src@,
                        src_at as int,
                        src_stride as int,
                        f,
                        x + l,
                        y as int,
                    ));
                }
                assert(Seq::new(8, |l: int| v@[l] as int) =~= this.subrange(x as int, x + 8));
                lemma_put_row_extend(before, at as int, this, x as int, x + 8);
            }
            x += 8;
        }
        assert(this.take(w as int) =~= this);
        y += 1;
    }
    true
}

/// Copies a block of `w` by `h` pixels with four bits more of each pixel, and puts the rows one behind the
/// other: the prediction where `prep_8tap` has no filter.
pub fn prep(tmp: &mut [i16], src: &[u8], src_at: usize, src_stride: isize, w: usize, h: usize)
    requires
        8 <= w,
        w % 8 == 0,
        h <= isize::MAX - 8,
        rows_inside(src@.len() as int, src_at as int, src_stride as int, w as int, h as int),
        rows_inside(old(tmp)@.len() as int, 0, w as int, w as int, h as int),
    ensures
        values(final(tmp)@) == rows_put(
            values(old(tmp)@),
            0,
            w as int,
            prep_rows(src@, src_at as int, src_stride as int, filters(None, None), w as nat),
            h as nat,
        ),
        final(tmp)@.len() == old(tmp)@.len(),
{
    let ghost f = filters(None, None);
    let ghost data = values(tmp@);
    let ghost row = prep_rows(src@, src_at as int, src_stride as int, f, w as nat);
    let mut y: usize = 0;
    while y < h
        invariant
            y <= h,
            8 <= w,
            w % 8 == 0,
            h <= isize::MAX - 8,
            f == filters(None, None),
            rows_inside(src@.len() as int, src_at as int, src_stride as int, w as int, h as int),
            tmp@.len() == old(tmp)@.len(),
            rows_inside(tmp@.len() as int, 0, w as int, w as int, h as int),
            row == prep_rows(src@, src_at as int, src_stride as int, f, w as nat),
            values(tmp@) == rows_put(data, 0, w as int, row, y as nat),
        decreases h - y,
    {
        proof {
            lemma_rows_inside(tmp@.len() as int, 0, w as int, w as int, h as int, y as int);
            assert(tmp.len() == tmp@.len());
        }
        let at: usize = advance(0, y, w);
        let ghost before = values(tmp@);
        let ghost this = row(y as int);
        let mut x: usize = 0;
        assert(values(tmp@) =~= put_row(before, at as int, this.take(0)));
        while x < w
            invariant
                x <= w,
                x % 8 == 0,
                y < h,
                8 <= w,
                w % 8 == 0,
                h <= isize::MAX - 8,
                f == filters(None, None),
                rows_inside(src@.len() as int, src_at as int, src_stride as int, w as int, h as int),
                tmp@.len() == old(tmp)@.len(),
                at + w <= tmp@.len(),
                this == Seq::new(
                    w as nat,
                    |x: int| prep_value(src@, src_at as int, src_stride as int, f, x, y as int),
                ),
                values(tmp@) == put_row(before, at as int, this.take(x as int)),
            decreases w - x,
        {
            let v: I16x8 = widen8(src, src_at, src_stride, x, y, Ghost(w as int), Ghost(h as int));
            assert(tmp.len() == tmp@.len());
            store8_i16(tmp, at + x, v);
            proof {
                assert forall|l: int| 0 <= l < 8 implies #[trigger] v@[l] == this[x + l] by {
                }
                assert(Seq::new(8, |l: int| v@[l] as int) =~= this.subrange(x as int, x + 8));
                lemma_put_row_extend(before, at as int, this, x as int, x + 8);
            }
            x += 8;
        }
        assert(this.take(w as int) =~= this);
        y += 1;
    }
}

/// Intermediate values are the stored numbers.
pub proof fn values_are_the_stored_numbers(s: Seq<i16>, i: int)
    ensures
        values(s).len() == s.len(),
        0 <= i < s.len() ==> values(s)[i] == s[i],
{
}

/// The eight sums are the four lanes of the first half and the four lanes of the second.
pub proof fn sums_are_the_lanes_of_both_halves(acc: Sums, l: int)
    requires
        0 <= l < 4,
    ensures
        sum_at(acc, l) == acc.0@[l],
        sum_at(acc, l + 4) == acc.1@[l],
{
}

/// The filters of a block are the ones that are given, those along the rows and those down the columns.
pub proof fn filters_are_the_given_ones(fh: Option<&[i8; 8]>, fv: Option<&[i8; 8]>)
    ensures
        filters(fh, fv).h is Some <==> fh is Some,
        filters(fh, fv).v is Some <==> fv is Some,
        fh matches Some(f) ==> filters(fh, fv).h == Some(f@),
        fv matches Some(f) ==> filters(fh, fv).v == Some(f@),
{
}

} // verus!
