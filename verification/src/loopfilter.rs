//! The deblocking loop filter.
use crate::arith::{abs, clip, lemma_i32_shr, lemma_pow2_values, min};
use crate::bitdepth::{lemma_pixels_update, pixels, BitDepth, Pixel};
use crate::c_types::{c_int, ptrdiff_t};
use crate::loopfilter::edge::{
    deciding_taps, edge_filtered, edge_params, edge_readable, filter_mask, flat_in, flat_out, held,
    lemma_mask_local, lemma_new_taps_local, lemma_taps_inside, line_filtered, line_readable,
    lines_filtered, narrow_outer, narrow_p, narrow_q, narrow_taps, new_taps, put_taps, set_at,
    taps_at, taps_inside, wide16, wide6, wide8, EdgeParams,
};
use crate::picture::offset_by;
use vstd::arithmetic::power2::pow2;
use vstd::prelude::*;

pub mod agree;
pub mod dsp;
pub mod edge;
pub mod effect;
pub mod law;
pub mod readable;
pub mod superblock;
pub mod wasm;

verus! {

/// A threshold of an 8-bit picture at a bit depth that is `bitdepth_min_8` bits larger.
fn scaled(n: u8, bitdepth_min_8: u8) -> (r: i32)
    requires
        bitdepth_min_8 <= 8,
    ensures
        r == n * pow2(bitdepth_min_8 as nat),
        0 <= r <= 255 * 256,
        1 <= pow2(bitdepth_min_8 as nat) <= 256,
{
    proof {
        lemma_pow2_values();
        if bitdepth_min_8 < 8 {
            vstd::arithmetic::power2::lemma_pow2_strictly_increases(bitdepth_min_8 as nat, 8);
        }
        vstd::arithmetic::power2::lemma_pow2_pos(bitdepth_min_8 as nat);
        assert(0 <= n * pow2(bitdepth_min_8 as nat) <= 255 * 256) by (nonlinear_arith)
            requires
                0 <= n <= 255,
                1 <= pow2(bitdepth_min_8 as nat) <= 256,
        ;
        vstd::bits::lemma_u32_shl_is_mul(n as u32, bitdepth_min_8 as u32);
    }
    ((n as u32) << (bitdepth_min_8 as u32)) as i32
}

/// `v` limited to the range of a signed pixel, whose unit is `unit`.
fn iclip_diff(v: i32, unit: i32) -> (r: i32)
    requires
        1 <= unit <= 256,
    ensures
        r == clip(v as int, -128 * unit, 128 * unit - 1),
{
    let lo: i32 = -128 * unit;
    let hi: i32 = 128 * unit - 1;
    if v < lo {
        lo
    } else if v > hi {
        hi
    } else {
        v
    }
}

fn absdiff(a: i32, b: i32) -> (r: i32)
    requires
        -0x10_0000 <= a <= 0x10_0000,
        -0x10_0000 <= b <= 0x10_0000,
    ensures
        r == abs(a - b),
{
    if a < b {
        b - a
    } else {
        a - b
    }
}

fn smaller(a: i32, b: i32) -> (r: i32)
    ensures
        r == min(a as int, b as int),
{
    if a <= b {
        a
    } else {
        b
    }
}

/// `x >> 1`.
fn shr1(x: i32) -> (r: i32)
    ensures
        r == x as int / 2,
{
    proof {
        lemma_i32_shr(x, 1);
        lemma_pow2_values();
    }
    x >> 1
}

/// `x >> 3`.
fn shr3(x: i32) -> (r: i32)
    ensures
        r == x as int / 8,
{
    proof {
        lemma_i32_shr(x, 3);
        lemma_pow2_values();
    }
    x >> 3
}

/// `x >> 4`.
fn shr4(x: i32) -> (r: i32)
    ensures
        r == x as int / 16,
{
    proof {
        lemma_i32_shr(x, 4);
        lemma_pow2_values();
    }
    x >> 4
}

/// The tap `k` steps behind the edge.
fn get_tap<P: Pixel>(dst: &[P], base: usize, strideb: isize, k: isize) -> (r: i32)
    requires
        0 <= base + k * strideb < dst@.len(),
    ensures
        r == pixels(dst@)[base + k * strideb],
        0 <= r <= P::limit() <= 0xffff,
{
    assert(dst.len() == dst@.len());
    let at: usize = offset_by(base, k, strideb);
    proof {
        dst@[at as int].value_in_range();
    }
    dst[at].as_i32()
}

/// Rewrites the taps from `first` steps behind the edge on.
fn set_taps<P: Pixel>(
    dst: &mut [P],
    base: usize,
    strideb: isize,
    first: isize,
    values: &[i32],
    Ghost(half): Ghost<int>,
)
    requires
        -7 <= -half <= first,
        first + values@.len() <= half <= 7,
        taps_inside(old(dst)@.len() as int, base as int, strideb as int, half),
        forall|n: int| 0 <= n < values@.len() ==> 0 <= #[trigger] values@[n] <= P::limit(),
    ensures
        pixels(final(dst)@) == put_taps(
            pixels(old(dst)@),
            base as int,
            strideb as int,
            first + 7,
            values@.map_values(|v: i32| v as int),
        ),
        final(dst)@.len() == old(dst)@.len(),
{
    let mut n: usize = 0;
    let ghost all: Seq<int> = values@.map_values(|v: i32| v as int);
    assert(all.take(0) =~= Seq::<int>::empty());
    while n < values.len()
        invariant
            n <= values@.len(),
            -7 <= -half <= first,
            first + values@.len() <= half <= 7,
            taps_inside(old(dst)@.len() as int, base as int, strideb as int, half),
            all == values@.map_values(|v: i32| v as int),
            dst@.len() == old(dst)@.len(),
            pixels(dst@) == put_taps(
                pixels(old(dst)@),
                base as int,
                strideb as int,
                first + 7,
                all.take(n as int),
            ),
            forall|n: int| 0 <= n < values@.len() ==> 0 <= #[trigger] values@[n] <= P::limit(),
        decreases values@.len() - n,
    {
        let k: isize = first + n as isize;
        proof {
            lemma_taps_inside(dst@.len() as int, base as int, strideb as int, half, k as int);
        }
        assert(dst.len() == dst@.len());
        let at: usize = offset_by(base, k, strideb);
        let ghost before = dst@;
        let px: P = P::from_i32(values[n]);
        proof {
            lemma_pixels_update(before, at as int, px);
            assert(all.take(n + 1).drop_last() =~= all.take(n as int));
            assert(pixels(before).update(at as int, px.value()) =~= set_at(
                pixels(before),
                at as int,
                px.value(),
            ));
            assert(all.take(n + 1).last() == values@[n as int]);
        }
        dst[at] = px;
        n += 1;
    }
    assert(all.take(values@.len() as int) =~= all);
}

/// Fetches `half` taps on each side of the edge.
fn load_taps<P: Pixel>(dst: &[P], base: usize, strideb: isize, half: usize, v: &mut [i32; 14])
    requires
        half <= 7,
        taps_inside(dst@.len() as int, base as int, strideb as int, half as int),
        forall|j: int| 0 <= j < 14 ==> 0 <= #[trigger] old(v)@[j] <= P::limit(),
    ensures
        forall|j: int|
            7 - half <= j < 7 + half ==> #[trigger] final(v)@[j] == taps_at(
                pixels(dst@),
                base as int,
                strideb as int,
            )[j],
        forall|j: int|
            0 <= j < 7 - half || 7 + half <= j < 14 ==> #[trigger] final(v)@[j] == old(v)@[j],
        forall|j: int| 0 <= j < 14 ==> 0 <= #[trigger] final(v)@[j] <= P::limit(),
{
    let mut j: usize = 7 - half;
    while j < 7 + half
        invariant
            half <= 7,
            7 - half <= j <= 7 + half,
            taps_inside(dst@.len() as int, base as int, strideb as int, half as int),
            forall|m: int|
                7 - half <= m < j ==> #[trigger] v@[m] == taps_at(
                    pixels(dst@),
                    base as int,
                    strideb as int,
                )[m],
            forall|m: int| 0 <= m < 7 - half || j <= m < 14 ==> #[trigger] v@[m] == old(v)@[m],
            forall|m: int| 0 <= m < 14 ==> 0 <= #[trigger] v@[m] <= P::limit(),
        decreases 7 + half - j,
    {
        let k: isize = j as isize - 7;
        proof {
            lemma_taps_inside(dst@.len() as int, base as int, strideb as int, half as int, k as int);
        }
        v[j] = get_tap(dst, base, strideb, k);
        j += 1;
    }
}

/// The taps as integers.
pub open spec fn line_of(v: Seq<i32>) -> Seq<int> {
    v.map_values(|x: i32| x as int)
}

/// Whether each tap is a pixel.
pub open spec fn all_pixels(v: Seq<i32>) -> bool {
    forall|j: int| 0 <= j < v.len() ==> 0 <= #[trigger] v[j] <= 0xffff
}

fn passes_mask(v: &[i32; 14], wd: i32, e: i32, i: i32, Ghost(ep): Ghost<EdgeParams>) -> (r: bool)
    requires
        all_pixels(v@),
        ep.wd == wd,
        ep.e == e,
        ep.i == i,
    ensures
        r == filter_mask(line_of(v@), ep),
{
    let fm: bool = absdiff(v[5], v[6]) <= i && absdiff(v[8], v[7]) <= i && absdiff(v[6], v[7]) * 2
        + shr1(absdiff(v[5], v[8])) <= e;
    fm && (wd <= 4 || absdiff(v[4], v[5]) <= i && absdiff(v[9], v[8]) <= i) && (wd <= 6 || absdiff(
        v[3],
        v[4],
    ) <= i && absdiff(v[10], v[9]) <= i)
}

fn is_flat_out(v: &[i32; 14], wd: i32, f: i32, Ghost(ep): Ghost<EdgeParams>) -> (r: bool)
    requires
        all_pixels(v@),
        ep.wd == wd,
        ep.unit == f,
    ensures
        r == flat_out(line_of(v@), ep),
{
    wd >= 16 && absdiff(v[0], v[6]) <= f && absdiff(v[1], v[6]) <= f && absdiff(v[2], v[6]) <= f
        && absdiff(v[11], v[7]) <= f && absdiff(v[12], v[7]) <= f && absdiff(v[13], v[7]) <= f
}

fn is_flat_in(v: &[i32; 14], wd: i32, f: i32, Ghost(ep): Ghost<EdgeParams>) -> (r: bool)
    requires
        all_pixels(v@),
        ep.wd == wd,
        ep.unit == f,
    ensures
        r == flat_in(line_of(v@), ep),
{
    wd >= 6 && absdiff(v[4], v[6]) <= f && absdiff(v[5], v[6]) <= f && absdiff(v[8], v[7]) <= f
        && absdiff(v[9], v[7]) <= f && (wd < 8 || absdiff(v[3], v[6]) <= f && absdiff(v[10], v[7])
        <= f)
}

/// The tap at index `j`, with the taps at `lo` and `hi` repeated beyond them.
fn held_tap(v: &[i32; 14], j: isize, lo: isize, hi: isize, Ghost(limit): Ghost<int>) -> (r: i32)
    requires
        0 <= lo <= hi < 14,
        forall|k: int| 0 <= k < 14 ==> 0 <= #[trigger] v@[k] <= limit,
    ensures
        r == held(line_of(v@), j as int, lo as int, hi as int),
        0 <= r <= limit,
{
    reveal(held);
    if j < lo {
        v[lo as usize]
    } else if j > hi {
        v[hi as usize]
    } else {
        v[j as usize]
    }
}

/// One new tap of the widest filter.
fn wide16_tap(v: &[i32; 14], j: isize, Ghost(limit): Ghost<int>) -> (r: i32)
    requires
        1 <= j < 13,
        limit <= 0xffff,
        forall|k: int| 0 <= k < 14 ==> 0 <= #[trigger] v@[k] <= limit,
    ensures
        r == wide16(line_of(v@), j as int),
        0 <= r <= limit,
{
    reveal(wide16);
    let h0: i32 = held_tap(v, j - 6, 0, 13, Ghost(limit));
    let h1: i32 = held_tap(v, j - 5, 0, 13, Ghost(limit));
    let h2: i32 = held_tap(v, j - 4, 0, 13, Ghost(limit));
    let h3: i32 = held_tap(v, j - 3, 0, 13, Ghost(limit));
    let h4: i32 = held_tap(v, j - 2, 0, 13, Ghost(limit));
    let h5: i32 = held_tap(v, j - 1, 0, 13, Ghost(limit));
    let h6: i32 = held_tap(v, j, 0, 13, Ghost(limit));
    let h7: i32 = held_tap(v, j + 1, 0, 13, Ghost(limit));
    let h8: i32 = held_tap(v, j + 2, 0, 13, Ghost(limit));
    let h9: i32 = held_tap(v, j + 3, 0, 13, Ghost(limit));
    let h10: i32 = held_tap(v, j + 4, 0, 13, Ghost(limit));
    let h11: i32 = held_tap(v, j + 5, 0, 13, Ghost(limit));
    let h12: i32 = held_tap(v, j + 6, 0, 13, Ghost(limit));
    shr4(h0 + h1 + h2 + h3 + h4 + 2 * h5 + 2 * h6 + 2 * h7 + h8 + h9 + h10 + h11 + h12 + 8)
}

/// The new taps of that filter.
fn wide16_taps(v: &[i32; 14], Ghost(limit): Ghost<int>) -> (r: [i32; 12])
    requires
        limit <= 0xffff,
        forall|k: int| 0 <= k < 14 ==> 0 <= #[trigger] v@[k] <= limit,
    ensures
        forall|n: int|
            0 <= n < 12 ==> #[trigger] r@[n] == wide16(line_of(v@), 1 + n) && 0 <= r@[n] <= limit,
{
    let mut r: [i32; 12] = [0; 12];
    let mut n: usize = 0;
    while n < 12
        invariant
            n <= 12,
            limit <= 0xffff,
            forall|k: int| 0 <= k < 14 ==> 0 <= #[trigger] v@[k] <= limit,
            forall|m: int|
                0 <= m < n ==> #[trigger] r@[m] == wide16(line_of(v@), 1 + m) && 0 <= r@[m] <= limit,
        decreases 12 - n,
    {
        r[n] = wide16_tap(v, n as isize + 1, Ghost(limit));
        n += 1;
    }
    r
}

/// One new tap of the filter of width eight.
fn wide8_tap(v: &[i32; 14], j: isize, Ghost(limit): Ghost<int>) -> (r: i32)
    requires
        4 <= j < 10,
        limit <= 0xffff,
        forall|k: int| 0 <= k < 14 ==> 0 <= #[trigger] v@[k] <= limit,
    ensures
        r == wide8(line_of(v@), j as int),
        0 <= r <= limit,
{
    reveal(wide8);
    let h0: i32 = held_tap(v, j - 3, 3, 10, Ghost(limit));
    let h1: i32 = held_tap(v, j - 2, 3, 10, Ghost(limit));
    let h2: i32 = held_tap(v, j - 1, 3, 10, Ghost(limit));
    let h3: i32 = held_tap(v, j, 3, 10, Ghost(limit));
    let h4: i32 = held_tap(v, j + 1, 3, 10, Ghost(limit));
    let h5: i32 = held_tap(v, j + 2, 3, 10, Ghost(limit));
    let h6: i32 = held_tap(v, j + 3, 3, 10, Ghost(limit));
    shr3(h0 + h1 + h2 + 2 * h3 + h4 + h5 + h6 + 4)
}

/// The new taps of that filter.
fn wide8_taps(v: &[i32; 14], Ghost(limit): Ghost<int>) -> (r: [i32; 6])
    requires
        limit <= 0xffff,
        forall|k: int| 0 <= k < 14 ==> 0 <= #[trigger] v@[k] <= limit,
    ensures
        forall|n: int|
            0 <= n < 6 ==> #[trigger] r@[n] == wide8(line_of(v@), 4 + n) && 0 <= r@[n] <= limit,
{
    let mut r: [i32; 6] = [0; 6];
    let mut n: usize = 0;
    while n < 6
        invariant
            n <= 6,
            limit <= 0xffff,
            forall|k: int| 0 <= k < 14 ==> 0 <= #[trigger] v@[k] <= limit,
            forall|m: int|
                0 <= m < n ==> #[trigger] r@[m] == wide8(line_of(v@), 4 + m) && 0 <= r@[m] <= limit,
        decreases 6 - n,
    {
        r[n] = wide8_tap(v, n as isize + 4, Ghost(limit));
        n += 1;
    }
    r
}

/// One new tap of the filter of width six.
fn wide6_tap(v: &[i32; 14], j: isize, Ghost(limit): Ghost<int>) -> (r: i32)
    requires
        5 <= j < 9,
        limit <= 0xffff,
        forall|k: int| 0 <= k < 14 ==> 0 <= #[trigger] v@[k] <= limit,
    ensures
        r == wide6(line_of(v@), j as int),
        0 <= r <= limit,
{
    reveal(wide6);
    let h0: i32 = held_tap(v, j - 2, 4, 9, Ghost(limit));
    let h1: i32 = held_tap(v, j - 1, 4, 9, Ghost(limit));
    let h2: i32 = held_tap(v, j, 4, 9, Ghost(limit));
    let h3: i32 = held_tap(v, j + 1, 4, 9, Ghost(limit));
    let h4: i32 = held_tap(v, j + 2, 4, 9, Ghost(limit));
    shr3(h0 + 2 * h1 + 2 * h2 + 2 * h3 + h4 + 4)
}

/// The new taps of that filter.
fn wide6_taps(v: &[i32; 14], Ghost(limit): Ghost<int>) -> (r: [i32; 4])
    requires
        limit <= 0xffff,
        forall|k: int| 0 <= k < 14 ==> 0 <= #[trigger] v@[k] <= limit,
    ensures
        forall|n: int|
            0 <= n < 4 ==> #[trigger] r@[n] == wide6(line_of(v@), 5 + n) && 0 <= r@[n] <= limit,
{
    let mut r: [i32; 4] = [0; 4];
    let mut n: usize = 0;
    while n < 4
        invariant
            n <= 4,
            limit <= 0xffff,
            forall|k: int| 0 <= k < 14 ==> 0 <= #[trigger] v@[k] <= limit,
            forall|m: int|
                0 <= m < n ==> #[trigger] r@[m] == wide6(line_of(v@), 5 + m) && 0 <= r@[m] <= limit,
        decreases 4 - n,
    {
        r[n] = wide6_tap(v, n as isize + 5, Ghost(limit));
        n += 1;
    }
    r
}

/// Rewrites the taps beside the edge with the narrow filter.
fn set_narrow_taps<BD: BitDepth>(
    dst: &mut [BD::Pixel],
    base: usize,
    strideb: isize,
    v: &[i32; 14],
    h: i32,
    unit: i32,
    bd: BD,
    Ghost(half): Ghost<int>,
    Ghost(ep): Ghost<EdgeParams>,
)
    requires
        2 <= half <= 7,
        taps_inside(old(dst)@.len() as int, base as int, strideb as int, half),
        all_pixels(v@),
        1 <= unit <= 256,
        ep.unit == unit,
        ep.h == h,
        ep.max_pixel == bd.max_pixel(),
    ensures
        pixels(final(dst)@) == put_taps(
            pixels(old(dst)@),
            base as int,
            strideb as int,
            narrow_taps(line_of(v@), ep).0,
            narrow_taps(line_of(v@), ep).1,
        ),
        final(dst)@.len() == old(dst)@.len(),
{
    proof {
        bd.depth_in_range();
        reveal(narrow_p);
        reveal(narrow_q);
        reveal(narrow_outer);
    }
    let ghost t = line_of(v@);
    let p1: i32 = v[5];
    let p0: i32 = v[6];
    let q0: i32 = v[7];
    let q1: i32 = v[8];
    let hev: bool = absdiff(p1, p0) > h || absdiff(q1, q0) > h;
    let outer: i32 = if hev {
        iclip_diff(p1 - q1, unit)
    } else {
        0
    };
    let f: i32 = iclip_diff(3 * (q0 - p0) + outer, unit);
    let f1: i32 = shr3(smaller(f + 4, 128 * unit - 1));
    let f2: i32 = shr3(smaller(f + 3, 128 * unit - 1));
    assert(f1 == narrow_q(t, ep) && f2 == narrow_p(t, ep));
    let n_p0: i32 = bd.iclip_pixel(p0 + f2).as_i32();
    let n_q0: i32 = bd.iclip_pixel(q0 - f1).as_i32();
    if hev {
        let r: [i32; 2] = [n_p0, n_q0];
        assert(line_of(r@) =~= narrow_taps(t, ep).1);
        set_taps(dst, base, strideb, -1, &r, Ghost(half));
    } else {
        let f3: i32 = shr1(f1 + 1);
        let n_p1: i32 = bd.iclip_pixel(p1 + f3).as_i32();
        let n_q1: i32 = bd.iclip_pixel(q1 - f3).as_i32();
        let r: [i32; 4] = [n_p1, n_p0, n_q0, n_q1];
        assert(line_of(r@) =~= narrow_taps(t, ep).1);
        set_taps(dst, base, strideb, -2, &r, Ghost(half));
    }
}

/// Filters one line across the edge whose q0 is at `base`.
fn filter_line<BD: BitDepth>(
    dst: &mut [BD::Pixel],
    base: usize,
    e: u8,
    i: u8,
    h: u8,
    strideb: isize,
    wd: i32,
    bd: BD,
)
    requires
        bd.bits() >= 8,
        line_readable(
            pixels(old(dst)@),
            base as int,
            strideb as int,
            edge_params(wd as int, e, i, h, bd.bits(), bd.max_pixel()),
        ),
    ensures
        pixels(final(dst)@) == line_filtered(
            pixels(old(dst)@),
            base as int,
            strideb as int,
            edge_params(wd as int, e, i, h, bd.bits(), bd.max_pixel()),
        ),
        final(dst)@.len() == old(dst)@.len(),
{
    let ghost ep = edge_params(wd as int, e, i, h, bd.bits(), bd.max_pixel());
    let ghost data = pixels(dst@);
    let ghost t = taps_at(data, base as int, strideb as int);
    let ghost limit = <BD::Pixel as Pixel>::limit();
    let bitdepth: u8 = bd.bitdepth();
    proof {
        bd.depth_in_range();
    }
    let bitdepth_min_8: u8 = bitdepth - 8;
    let unit: i32 = scaled(1, bitdepth_min_8);
    let e: i32 = scaled(e, bitdepth_min_8);
    let i: i32 = scaled(i, bitdepth_min_8);
    let h: i32 = scaled(h, bitdepth_min_8);

    let mut v: [i32; 14] = [0; 14];
    let near_half: usize = if wd > 6 {
        4
    } else if wd > 4 {
        3
    } else {
        2
    };
    proof {
        assert(0 <= limit <= 0xffff);
    }
    load_taps(dst, base, strideb, near_half, &mut v);
    let fm: bool = passes_mask(&v, wd, e, i, Ghost(ep));
    if !fm {
        proof {
            lemma_new_taps_local(line_of(v@), t, ep);
        }
        return;
    }
    if wd >= 16 {
        proof {
            lemma_mask_local(t, line_of(v@), ep);
        }
        load_taps(dst, base, strideb, 7, &mut v);
        assert(line_of(v@) =~= t);
    }
    proof {
        lemma_new_taps_local(line_of(v@), t, ep);
    }
    let flat8out: bool = is_flat_out(&v, wd, unit, Ghost(ep));
    let flat8in: bool = is_flat_in(&v, wd, unit, Ghost(ep));
    if flat8out && flat8in {
        let r: [i32; 12] = wide16_taps(&v, Ghost(limit));
        assert(line_of(r@) =~= new_taps(line_of(v@), ep).1);
        set_taps(dst, base, strideb, -6, &r, Ghost(7int));
    } else if wd >= 8 && flat8in {
        let r: [i32; 6] = wide8_taps(&v, Ghost(limit));
        assert(line_of(r@) =~= new_taps(line_of(v@), ep).1);
        set_taps(dst, base, strideb, -3, &r, Ghost(4int));
    } else if wd == 6 && flat8in {
        let r: [i32; 4] = wide6_taps(&v, Ghost(limit));
        assert(line_of(r@) =~= new_taps(line_of(v@), ep).1);
        set_taps(dst, base, strideb, -2, &r, Ghost(3int));
    } else {
        set_narrow_taps(dst, base, strideb, &v, h, unit, bd, Ghost(near_half as int), Ghost(ep));
    }
}

/// Filters the four lines along one edge, `stridea` apart, whose taps are `strideb` apart; `base` is
/// the position of q0 on the first line.
pub fn loop_filter<BD: BitDepth>(
    dst: &mut [BD::Pixel],
    base: usize,
    e: u8,
    i: u8,
    h: u8,
    stridea: ptrdiff_t,
    strideb: ptrdiff_t,
    wd: c_int,
    bd: BD,
)
    requires
        bd.bits() >= 8,
        edge_readable(
            pixels(old(dst)@),
            base as int,
            stridea as int,
            strideb as int,
            edge_params(wd as int, e, i, h, bd.bits(), bd.max_pixel()),
        ),
    ensures
        pixels(final(dst)@) == edge_filtered(
            pixels(old(dst)@),
            base as int,
            stridea as int,
            strideb as int,
            edge_params(wd as int, e, i, h, bd.bits(), bd.max_pixel()),
        ),
        final(dst)@.len() == old(dst)@.len(),
{
    let ghost ep = edge_params(wd as int, e, i, h, bd.bits(), bd.max_pixel());
    let ghost data = pixels(dst@);
    let mut idx: usize = 0;
    while idx < 4
        invariant
            idx <= 4,
            bd.bits() >= 8,
            data == pixels(old(dst)@),
            dst@.len() == old(dst)@.len(),
            ep == edge_params(wd as int, e, i, h, bd.bits(), bd.max_pixel()),
            pixels(dst@) == lines_filtered(
                data,
                base as int,
                stridea as int,
                strideb as int,
                ep,
                idx as nat,
            ),
            edge_readable(data, base as int, stridea as int, strideb as int, ep),
        decreases 4 - idx,
    {
        proof {
            let at = base + idx * stridea;
            let len = dst@.len() as int;
            assert(line_readable(pixels(dst@), at, strideb as int, ep));
            lemma_taps_inside(len, at, strideb as int, deciding_taps(wd as int), 0);
            assert(dst.len() == dst@.len());
        }
        let at: usize = offset_by(base, idx as isize, stridea);
        filter_line(dst, at, e, i, h, strideb, wd, bd);
        idx += 1;
    }
}

} // verus!
