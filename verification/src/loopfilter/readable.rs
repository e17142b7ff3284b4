//! A test of whether the loop filter finds everything that it looks at.
//!
//! Which taps the widest filter looks at depends on the pixels, and these on the edges that have been filtered
//! before. So the test filters a copy of the plane.
use crate::bitdepth::{pixels, BitDepth, Pixel};
use crate::loopfilter::edge::{
    deciding_taps, edge_filtered, edge_params, edge_readable, lemma_mask_local, lemma_taps_inside,
    line_readable, lines_filtered, taps_at, taps_inside,
};
use crate::loopfilter::superblock::{lemma_bit_test, sb_edges, Av1FilterLUT, SbEdges, HV, YUV};
use crate::loopfilter::{filter_line, line_of, load_taps, passes_mask, scaled};
use vstd::prelude::*;

verus! {

/// Whether `half` taps on each side of the edge lie in a plane of `len` pixels.
fn are_taps_inside(len: usize, base: i128, strideb: isize, half: usize) -> (r: bool)
    requires
        half <= 7,
        -0x1000_0000_0000_0000_0000_0000 <= base <= 0x1000_0000_0000_0000_0000_0000,
    ensures
        r == taps_inside(len as int, base as int, strideb as int, half as int),
{
    proof {
        assert(-8 * 0x8000_0000_0000_0000 <= half * strideb <= 8 * 0x8000_0000_0000_0000)
            by (nonlinear_arith)
            requires
                0 <= half <= 7,
                -0x8000_0000_0000_0000 <= strideb <= 0x7fff_ffff_ffff_ffff,
        ;
        assert(half * strideb - strideb == (half - 1) * strideb) by (nonlinear_arith);
    }
    let span: i128 = half as i128 * strideb as i128;
    let first: i128 = base - span;
    let last: i128 = base + span - strideb as i128;
    0 <= first && first < len as i128 && 0 <= last && last < len as i128
}

/// Whether a line can be filtered.
fn is_line_readable<BD: BitDepth>(
    dst: &[BD::Pixel],
    base: i128,
    e: u8,
    i: u8,
    h: u8,
    strideb: isize,
    wd: i32,
    bd: BD,
) -> (r: bool)
    requires
        bd.bits() >= 8,
        -0x1000_0000_0000_0000_0000_0000 <= base <= 0x1000_0000_0000_0000_0000_0000,
    ensures
        r == line_readable(
            pixels(dst@),
            base as int,
            strideb as int,
            edge_params(wd as int, e, i, h, bd.bits(), bd.max_pixel()),
        ),
{
    let ghost ep = edge_params(wd as int, e, i, h, bd.bits(), bd.max_pixel());
    let near_half: usize = if wd > 6 {
        4
    } else if wd > 4 {
        3
    } else {
        2
    };
    assert(dst.len() == dst@.len());
    if !are_taps_inside(dst.len(), base, strideb, near_half) {
        return false;
    }
    if wd < 16 || are_taps_inside(dst.len(), base, strideb, 7) {
        return true;
    }
    proof {
        lemma_taps_inside(dst@.len() as int, base as int, strideb as int, near_half as int, 0);
        bd.depth_in_range();
    }
    let bitdepth_min_8: u8 = bd.bitdepth() - 8;
    let e: i32 = scaled(e, bitdepth_min_8);
    let i: i32 = scaled(i, bitdepth_min_8);
    let mut v: [i32; 14] = [0; 14];
    load_taps(dst, base as usize, strideb, near_half, &mut v);
    let fm: bool = passes_mask(&v, wd, e, i, Ghost(ep));
    proof {
        lemma_mask_local(line_of(v@), taps_at(pixels(dst@), base as int, strideb as int), ep);
    }
    !fm
}

/// Filters the four lines along an edge as `loop_filter` does, and tells whether the plane held everything that
/// it looks at. Where it does not, the lines before the first that cannot be filtered have been.
fn filter_if_readable<BD: BitDepth>(
    dst: &mut [BD::Pixel],
    base: i128,
    e: u8,
    i: u8,
    h: u8,
    stridea: isize,
    strideb: isize,
    wd: i32,
    bd: BD,
) -> (r: bool)
    requires
        bd.bits() >= 8,
        -0x100_0000_0000_0000_0000 <= base <= 0x100_0000_0000_0000_0000,
    ensures
        r == edge_readable(
            pixels(old(dst)@),
            base as int,
            stridea as int,
            strideb as int,
            edge_params(wd as int, e, i, h, bd.bits(), bd.max_pixel()),
        ),
        r ==> pixels(final(dst)@) == edge_filtered(
            pixels(old(dst)@),
            base as int,
            stridea as int,
            strideb as int,
            edge_params(wd as int, e, i, h, bd.bits(), bd.max_pixel()),
        ),
        !r ==> exists|n: nat|
            n < 4 && pixels(final(dst)@) == #[trigger] lines_filtered(
                pixels(old(dst)@),
                base as int,
                stridea as int,
                strideb as int,
                edge_params(wd as int, e, i, h, bd.bits(), bd.max_pixel()),
                n,
            ) && !line_readable(
                pixels(final(dst)@),
                base + n * stridea,
                strideb as int,
                edge_params(wd as int, e, i, h, bd.bits(), bd.max_pixel()),
            ),
        final(dst)@.len() == old(dst)@.len(),
{
    let ghost ep = edge_params(wd as int, e, i, h, bd.bits(), bd.max_pixel());
    let ghost data = pixels(dst@);
    let mut idx: u32 = 0;
    while idx < 4
        invariant
            idx <= 4,
            bd.bits() >= 8,
            -0x100_0000_0000_0000_0000 <= base <= 0x100_0000_0000_0000_0000,
            data == pixels(old(dst)@),
            dst@.len() == old(dst)@.len(),
            ep == edge_params(wd as int, e, i, h, bd.bits(), bd.max_pixel()),
            pixels(dst@) == lines_filtered(
                data,
                base as int,
                stridea as int,
                strideb as int,
                ep,
                idx as nat,
            ),
            forall|n: nat|
                n < idx ==> line_readable(
                    #[trigger] lines_filtered(
                        data,
                        base as int,
                        stridea as int,
                        strideb as int,
                        ep,
                        n,
                    ),
                    base + n * stridea,
                    strideb as int,
                    ep,
                ),
        decreases 4 - idx,
    {
        proof {
            assert(-4 * 0x8000_0000_0000_0000 <= idx * stridea <= 4 * 0x8000_0000_0000_0000)
                by (nonlinear_arith)
                requires
                    0 <= idx < 4,
                    -0x8000_0000_0000_0000 <= stridea <= 0x7fff_ffff_ffff_ffff,
            ;
        }
        let at: i128 = base + idx as i128 * stridea as i128;
        if !is_line_readable(dst, at, e, i, h, strideb, wd, bd) {
            assert(!line_readable(
                lines_filtered(
                    data,
                    base as int,
                    stridea as int,
                    strideb as int,
                    ep,
                    idx as nat,
                ),
                base + (idx as nat) * stridea,
                strideb as int,
                ep,
            ));
            return false;
        }
        proof {
            lemma_taps_inside(
                dst@.len() as int,
                at as int,
                strideb as int,
                deciding_taps(wd as int),
                0,
            );
            assert(dst.len() == dst@.len());
        }
        filter_line(dst, at as usize, e, i, h, strideb, wd, bd);
        idx += 1;
    }
    true
}

/// The level at edge `n`, where it can be looked up.
fn readable_level(
    n: u32,
    lvl: &[u8],
    lvl_at: usize,
    b4_stridea: usize,
    b4_strideb: usize,
    Ghost(s): Ghost<SbEdges>,
) -> (r: Option<u8>)
    requires
        n < 32,
        s.lvl == lvl@,
        s.lvl_at == lvl_at,
        s.b4_stridea() == b4_stridea,
        s.b4_strideb() == b4_strideb,
    ensures
        r is Some == s.level_readable(n as int),
        r matches Some(l) ==> l == s.level(n as int),
{
    assert(lvl.len() == lvl@.len());
    proof {
        assert(0 <= (4 * n) * b4_stridea <= 128 * 0xffff_ffff_ffff_ffff) by (nonlinear_arith)
            requires
                0 <= n < 32,
                0 <= b4_stridea <= 0xffff_ffff_ffff_ffff,
        ;
    }
    let at: i128 = lvl_at as i128 + (4 * n) as i128 * b4_stridea as i128;
    assert(at == s.level_at(n as int));
    if at >= lvl.len() as i128 {
        return None;
    }
    let before: i128 = at - 4 * b4_strideb as i128;
    let behind: u8 = lvl[at as usize];
    if behind == 0 && before < 0 {
        return None;
    }
    let l: u8 = if behind != 0 {
        behind
    } else {
        lvl[before as usize]
    };
    if l < 64 {
        Some(l)
    } else {
        None
    }
}

/// Whether [`loop_filter_sb128_rust`](crate::loopfilter::superblock::loop_filter_sb128_rust) finds everything
/// that it looks at. The plane stays as it is.
pub fn superblock_readable<BD: BitDepth>(
    hv: HV,
    yuv: YUV,
    dst: &[BD::Pixel],
    base: usize,
    stride: isize,
    vmask: &[u32; 3],
    lvl: &[u8],
    lvl_at: usize,
    b4_stride: usize,
    lut: &Av1FilterLUT,
    bd: BD,
) -> (r: bool)
    requires
        bd.bits() >= 8,
    ensures
        r == sb_edges(hv, yuv, base, stride, vmask, lvl@, lvl_at, b4_stride, lut, bd).readable(
            pixels(dst@),
        ),
{
    let ghost s = sb_edges(hv, yuv, base, stride, vmask, lvl@, lvl_at, b4_stride, lut, bd);
    let ghost data = pixels(dst@);
    let (stridea, strideb): (isize, isize) = match hv {
        HV::H => (stride, 1),
        HV::V => (1, stride),
    };
    let (b4_stridea, b4_strideb): (usize, usize) = match hv {
        HV::H => (b4_stride, 1),
        HV::V => (1, b4_stride),
    };
    let mut copy: Vec<BD::Pixel> = vstd::slice::slice_to_vec(dst);
    let mut n: u32 = 0;
    while n < 32
        invariant
            n <= 32,
            bd.bits() >= 8,
            s == sb_edges(hv, yuv, base, stride, vmask, lvl@, lvl_at, b4_stride, lut, bd),
            stridea == s.stridea(),
            strideb == s.strideb(),
            b4_stridea == s.b4_stridea(),
            b4_strideb == s.b4_strideb(),
            data == pixels(dst@),
            pixels(copy@) == s.filtered(data, n as nat),
            forall|m: int| 0 <= m < n && #[trigger] s.selected(m) ==> s.level_readable(m),
            forall|m: nat|
                m < n && s.selected(m as int) && s.level(m as int) != 0 ==> edge_readable(
                    #[trigger] s.filtered(data, m),
                    s.edge_at(m as int),
                    s.stridea(),
                    s.strideb(),
                    s.params(m as int),
                ),
        decreases 32 - n,
    {
        let xy: u32 = 1u32 << n;
        proof {
            lemma_bit_test(vmask[0], n, xy);
            lemma_bit_test(vmask[1], n, xy);
            lemma_bit_test(vmask[2], n, xy);
        }
        let wide: bool = match yuv {
            YUV::Y => vmask[2] & xy != 0,
            YUV::UV => false,
        };
        let middle: bool = vmask[1] & xy != 0;
        if vmask[0] & xy != 0 || middle || wide {
            assert(s.selected(n as int));
            let ghost before = s.filtered(data, n as nat);
            let l: u8 = match readable_level(n, lvl, lvl_at, b4_stridea, b4_strideb, Ghost(s)) {
                Some(l) => l,
                None => {
                    assert(!s.level_readable(n as int));
                    return false;
                },
            };
            if l != 0 {
                let wd: i32 = match yuv {
                    YUV::Y => if wide {
                        16
                    } else if middle {
                        8
                    } else {
                        4
                    },
                    YUV::UV => if middle {
                        6
                    } else {
                        4
                    },
                };
                let e: u8 = lut.e[l as usize];
                let i: u8 = lut.i[l as usize];
                let h: u8 = l / 16;
                proof {
                    assert(-128 * 0x8000_0000_0000_0000 <= (4 * n) * stridea <= 128
                        * 0x8000_0000_0000_0000) by (nonlinear_arith)
                        requires
                            0 <= n < 32,
                            -0x8000_0000_0000_0000 <= stridea <= 0x7fff_ffff_ffff_ffff,
                    ;
                    assert(edge_params(wd as int, e, i, h, bd.bits(), bd.max_pixel()) == s.params(
                        n as int,
                    ));
                }
                let edge: i128 = base as i128 + (4 * n) as i128 * stridea as i128;
                assert(edge == s.edge_at(n as int));
                if !filter_if_readable(
                    copy.as_mut_slice(),
                    edge,
                    e,
                    i,
                    h,
                    stridea,
                    strideb,
                    wd,
                    bd,
                ) {
                    assert(!edge_readable(
                        before,
                        s.edge_at(n as int),
                        s.stridea(),
                        s.strideb(),
                        s.params(n as int),
                    ));
                    return false;
                }
            }
        }
        n += 1;
    }
    true
}

} // verus!
