//! The deblocking of all edges of one direction in a row or column of a superblock.
use crate::bitdepth::{pixels, BitDepth};
use crate::c_types::{c_int, ptrdiff_t};
use crate::loopfilter::edge::{
    deciding_taps, edge_filtered, edge_inside, edge_params, edge_readable, inside_edge_is_readable,
    lemma_lines_filtered_len, lemma_taps_inside, line_readable, lines_filtered, EdgeParams,
};
use crate::loopfilter::loop_filter;
use crate::picture::{advance, offset_by};
use vstd::prelude::*;

verus! {

/// The direction of the filter: across vertical edges, or across horizontal ones.
#[derive(Clone, Copy, Debug, PartialEq, Eq, Structural)]
pub enum HV {
    H,
    V,
}

/// The plane: luma or chroma.
#[derive(Clone, Copy, Debug, PartialEq, Eq, Structural)]
pub enum YUV {
    Y,
    UV,
}

impl HV {
    /// The direction with the number `repr`.
    pub fn from_repr(repr: usize) -> (r: Option<HV>)
        ensures
            r == (if repr == 0 {
                Some(HV::H)
            } else if repr == 1 {
                Some(HV::V)
            } else {
                None
            }),
    {
        match repr {
            0 => Some(HV::H),
            1 => Some(HV::V),
            _ => None,
        }
    }
}

impl YUV {
    /// The plane with the number `repr`.
    pub fn from_repr(repr: usize) -> (r: Option<YUV>)
        ensures
            r == (if repr == 0 {
                Some(YUV::Y)
            } else if repr == 1 {
                Some(YUV::UV)
            } else {
                None
            }),
    {
        match repr {
            0 => Some(YUV::Y),
            1 => Some(YUV::UV),
            _ => None,
        }
    }
}

/// The thresholds for each filter level.
pub struct Av1FilterLUT {
    pub e: [u8; 64],
    pub i: [u8; 64],
}

/// Everything but the pixels that deblocking a superblock depends on.
pub struct SbEdges {
    pub hv: HV,
    pub yuv: YUV,
    /// The position of the first pixel behind the first edge.
    pub base: int,
    /// The distance of the rows.
    pub stride: int,
    /// For each filter width the edges, 4 pixels long each, that have it.
    pub vmask: Seq<u32>,
    /// The filter levels, four bytes for each block of 4x4 pixels.
    pub lvl: Seq<u8>,
    /// The position of the level of the block behind the first edge.
    pub lvl_at: int,
    /// The number of blocks in a row of levels.
    pub b4_stride: int,
    pub lut: Av1FilterLUT,
    pub bits: nat,
    pub max_pixel: int,
}

/// Whether bit `n` of `m` is set.
pub open spec fn bit(m: u32, n: int) -> bool {
    (m >> (n as u32)) & 1 == 1
}

impl SbEdges {
    /// The distance of the lines along an edge.
    pub open spec fn stridea(&self) -> int {
        match self.hv {
            HV::H => self.stride,
            HV::V => 1,
        }
    }

    /// The distance of the taps across an edge.
    pub open spec fn strideb(&self) -> int {
        match self.hv {
            HV::H => 1,
            HV::V => self.stride,
        }
    }

    /// The distance of the blocks along the edges.
    pub open spec fn b4_stridea(&self) -> int {
        match self.hv {
            HV::H => self.b4_stride,
            HV::V => 1,
        }
    }

    /// The distance of the blocks across the edges.
    pub open spec fn b4_strideb(&self) -> int {
        match self.hv {
            HV::H => 1,
            HV::V => self.b4_stride,
        }
    }

    /// Whether edge `n` is to be filtered, with any width.
    pub open spec fn selected(&self, n: int) -> bool {
        match self.yuv {
            YUV::Y => bit(self.vmask[0], n) || bit(self.vmask[1], n) || bit(self.vmask[2], n),
            YUV::UV => bit(self.vmask[0], n) || bit(self.vmask[1], n),
        }
    }

    /// The width of the filter at edge `n`.
    pub open spec fn width(&self, n: int) -> int {
        match self.yuv {
            YUV::Y => if bit(self.vmask[2], n) {
                16
            } else if bit(self.vmask[1], n) {
                8
            } else {
                4
            },
            YUV::UV => if bit(self.vmask[1], n) {
                6
            } else {
                4
            },
        }
    }

    /// The position of the level of the block behind edge `n`.
    pub open spec fn level_at(&self, n: int) -> int {
        self.lvl_at + (4 * n) * self.b4_stridea()
    }

    /// The level at edge `n`: that of the block behind it, or, where that is zero, of the block before
    /// it.
    pub open spec fn level(&self, n: int) -> u8 {
        if self.lvl[self.level_at(n)] != 0 {
            self.lvl[self.level_at(n)]
        } else {
            self.lvl[self.level_at(n) - 4 * self.b4_strideb()]
        }
    }

    /// The thresholds at edge `n`.
    pub open spec fn params(&self, n: int) -> EdgeParams {
        let l = self.level(n);
        edge_params(
            self.width(n),
            self.lut.e@[l as int],
            self.lut.i@[l as int],
            (l / 16) as u8,
            self.bits,
            self.max_pixel,
        )
    }

    /// The position of the first pixel behind edge `n`.
    pub open spec fn edge_at(&self, n: int) -> int {
        self.base + (4 * n) * self.stridea()
    }

    /// Whether edge `n` is filtered.
    pub open spec fn active(&self, n: int) -> bool {
        self.selected(n) && self.level(n) != 0
    }

    /// The plane after the first `n` edges.
    pub open spec fn filtered(&self, data: Seq<int>, n: nat) -> Seq<int>
        decreases n,
    {
        if n == 0 {
            data
        } else {
            let before = self.filtered(data, (n - 1) as nat);
            if self.active(n - 1) {
                edge_filtered(
                    before,
                    self.edge_at(n - 1),
                    self.stridea(),
                    self.strideb(),
                    self.params(n - 1),
                )
            } else {
                before
            }
        }
    }

    /// Whether the level of edge `n` can be looked up.
    pub open spec fn level_readable(&self, n: int) -> bool {
        &&& 0 <= self.level_at(n) < self.lvl.len()
        &&& self.lvl[self.level_at(n)] == 0 ==> 0 <= self.level_at(n) - 4 * self.b4_strideb()
        &&& self.level(n) < 64
    }

    /// Whether everything that deblocking looks at can be looked up.
    pub open spec fn readable(&self, data: Seq<int>) -> bool {
        forall|n: nat|
            n < 32 && self.selected(n as int) ==> self.level_readable(n as int) && (self.level(n as int)
                != 0 ==> edge_readable(
                #[trigger] self.filtered(data, n),
                self.edge_at(n as int),
                self.stridea(),
                self.strideb(),
                self.params(n as int),
            ))
    }
}

impl SbEdges {
    /// Whether edge `n` can be filtered in a plane of `len` pixels, whatever these are.
    pub open spec fn selected_inside(&self, len: int, n: int) -> bool {
        self.selected(n) ==> self.level_readable(n) && (self.level(n) != 0 ==> edge_inside(
            len,
            self.edge_at(n),
            self.stridea(),
            self.strideb(),
            self.width(n),
        ))
    }

    /// Whether all edges can be filtered in a plane of `len` pixels, whatever these are.
    pub open spec fn inside(&self, len: int) -> bool {
        forall|n: int| 0 <= n < 32 ==> #[trigger] self.selected_inside(len, n)
    }
}

/// Where all edges of a superblock lie inside the plane, everything that deblocking looks at can be looked
/// up.
pub proof fn inside_is_readable(s: SbEdges, data: Seq<int>)
    requires
        s.inside(data.len() as int),
    ensures
        s.readable(data),
{
    assert forall|n: int| 0 <= n < 32 && s.selected(n) implies #[trigger] s.level_readable(n) by {
        assert(s.selected_inside(data.len() as int, n));
    }
    assert forall|n: nat| n < 32 && s.selected(n as int) && s.level(n as int) != 0 implies edge_readable(
        #[trigger] s.filtered(data, n),
        s.edge_at(n as int),
        s.stridea(),
        s.strideb(),
        s.params(n as int),
    ) by {
        assert(s.selected_inside(data.len() as int, n as int));
        lemma_filtered_len(s, data, n);
        inside_edge_is_readable(
            s.filtered(data, n),
            s.edge_at(n as int),
            s.stridea(),
            s.strideb(),
            s.params(n as int),
        );
    }
}

proof fn lemma_filtered_len(s: SbEdges, data: Seq<int>, n: nat)
    ensures
        s.filtered(data, n).len() == data.len(),
    decreases n,
{
    if n > 0 {
        let m = (n - 1) as nat;
        lemma_filtered_len(s, data, m);
        lemma_lines_filtered_len(
            s.filtered(data, m),
            s.edge_at(n - 1),
            s.stridea(),
            s.strideb(),
            s.params(n - 1),
            4,
        );
    }
}

/// Edges that are not selected leave the plane as it is.
proof fn lemma_rest_unselected(s: SbEdges, data: Seq<int>, n: nat, m: nat)
    requires
        n <= m,
        forall|k: int| n <= k < m ==> !#[trigger] s.selected(k),
    ensures
        s.filtered(data, m) == s.filtered(data, n),
    decreases m,
{
    if n < m {
        lemma_rest_unselected(s, data, n, (m - 1) as nat);
        assert(!s.selected(m - 1));
    }
}

/// A bit is set where the mask of that bit meets it.
pub proof fn lemma_bit_test(m: u32, n: u32, xy: u32)
    requires
        n < 32,
        xy == 1u32 << n,
    ensures
        (m & xy != 0) == bit(m, n as int),
{
    assert((m & xy != 0) == ((m >> n) & 1 == 1)) by (bit_vector)
        requires
            n < 32,
            xy == 1u32 << n,
    ;
}

proof fn lemma_bit_or(a: u32, b: u32, n: u32)
    requires
        n < 32,
    ensures
        bit(a | b, n as int) == (bit(a, n as int) || bit(b, n as int)),
{
    assert((((a | b) >> n) & 1 == 1) == (((a >> n) & 1 == 1) || ((b >> n) & 1 == 1))) by (bit_vector)
        requires
            n < 32,
    ;
}

/// Once no bit from `n` on is set, none of them is.
proof fn lemma_bits_end(m: u32, n: u32, xy: u32)
    requires
        n <= 32,
        n < 32 ==> xy == 1u32 << n,
        n == 32 ==> xy == 0,
        m & !(if xy == 0 {
            0xffff_ffffu32
        } else {
            (xy - 1) as u32
        }) == 0,
    ensures
        forall|k: int| n <= k < 32 ==> !bit(m, k),
{
    assert forall|k: int| n <= k < 32 implies !bit(m, k) by {
        let k32 = k as u32;
        let low: u32 = (xy - 1) as u32;
        assert(xy != 0) by (bit_vector)
            requires
                n < 32,
                xy == 1u32 << n,
        ;
        assert((m >> k32) & 1 != 1) by (bit_vector)
            requires
                n <= k32 < 32,
                xy == 1u32 << n,
                low == xy - 1,
                m & !low == 0,
        ;
    }
}

/// Deblocks the edges that `vmask` selects. The levels in `lvl` start at `lvl_at` for the first edge.
pub fn loop_filter_sb128_rust<BD: BitDepth>(
    hv: HV,
    yuv: YUV,
    dst: &mut [BD::Pixel],
    base: usize,
    stride: isize,
    vmask: &[u32; 3],
    lvl: &[u8],
    lvl_at: usize,
    b4_stride: usize,
    lut: &Av1FilterLUT,
    bd: BD,
)
    requires
        bd.bits() >= 8,
        sb_edges(hv, yuv, base, stride, vmask, lvl@, lvl_at, b4_stride, lut, bd).readable(
            pixels(old(dst)@),
        ),
    ensures
        pixels(final(dst)@) == sb_edges(
            hv,
            yuv,
            base,
            stride,
            vmask,
            lvl@,
            lvl_at,
            b4_stride,
            lut,
            bd,
        ).filtered(pixels(old(dst)@), 32),
        final(dst)@.len() == old(dst)@.len(),
{
    let ghost s = sb_edges(hv, yuv, base, stride, vmask, lvl@, lvl_at, b4_stride, lut, bd);
    let ghost data = pixels(dst@);
    let (stridea, strideb): (isize, isize) = match hv {
        HV::H => (stride, 1),
        HV::V => (1, stride),
    };
    let (b4_stridea, b4_strideb): (usize, usize) = match hv {
        HV::H => (b4_stride, 1),
        HV::V => (1, b4_stride),
    };
    let vm: u32 = match yuv {
        YUV::Y => vmask[0] | vmask[1] | vmask[2],
        YUV::UV => vmask[0] | vmask[1],
    };
    proof {
        assert forall|n: int| 0 <= n < 32 implies bit(vm, n) == #[trigger] s.selected(n) by {
            lemma_bit_or(vmask[0], vmask[1], n as u32);
            lemma_bit_or(vmask[0] | vmask[1], vmask[2], n as u32);
        }
        assert(1u32 << 0u32 == 1) by (bit_vector);
    }
    let mut n: u32 = 0;
    let mut xy: u32 = 1;
    while vm & !xy.wrapping_sub(1) != 0
        invariant
            n <= 32,
            n < 32 ==> xy == 1u32 << n,
            n == 32 ==> xy == 0,
            bd.bits() >= 8,
            s == sb_edges(hv, yuv, base, stride, vmask, lvl@, lvl_at, b4_stride, lut, bd),
            s.readable(data),
            stridea == s.stridea(),
            strideb == s.strideb(),
            b4_stridea == s.b4_stridea(),
            b4_strideb == s.b4_strideb(),
            data == pixels(old(dst)@),
            dst@.len() == old(dst)@.len(),
            pixels(dst@) == s.filtered(data, n as nat),
            forall|n: int| 0 <= n < 32 ==> bit(vm, n) == #[trigger] s.selected(n),
        decreases 32 - n,
    {
        proof {
            if n == 32 {
                assert(vm & !0xffff_ffffu32 == 0) by (bit_vector);
            }
            lemma_bit_test(vm, n, xy);
            lemma_bit_test(vmask[1], n, xy);
            lemma_bit_test(vmask[2], n, xy);
        }
        if vm & xy != 0 {
            proof {
                let before = s.filtered(data, n as nat);
                assert(s.selected(n as int));
                assert(s.level_readable(n as int));
                assert(lvl.len() == lvl@.len());
            }
            let at: usize = advance(lvl_at, 4 * n as usize, b4_stridea);
            let l: u8 = if lvl[at] != 0 {
                lvl[at]
            } else {
                lvl[at - 4 * b4_strideb]
            };
            assert(l == s.level(n as int));
            if l != 0 {
                let h: u8 = l / 16;
                let e: u8 = lut.e[l as usize];
                let i: u8 = lut.i[l as usize];
                let wd: i32 = match yuv {
                    YUV::Y => if vmask[2] & xy != 0 {
                        16
                    } else if vmask[1] & xy != 0 {
                        8
                    } else {
                        4
                    },
                    YUV::UV => if vmask[1] & xy != 0 {
                        6
                    } else {
                        4
                    },
                };
                proof {
                    assert(edge_params(wd as int, e, i, h, bd.bits(), bd.max_pixel()) == s.params(
                        n as int,
                    ));
                    lemma_edge_start(
                        pixels(dst@),
                        s.edge_at(n as int),
                        stridea as int,
                        strideb as int,
                        s.params(n as int),
                    );
                    assert(dst.len() == dst@.len());
                }
                let edge: usize = offset_by(base, 4 * n as isize, stridea);
                loop_filter(dst, edge, e, i, h, stridea, strideb, wd, bd);
            }
        }
        proof {
            if n < 31 {
                assert(xy << 1u32 == 1u32 << ((n + 1) as u32)) by (bit_vector)
                    requires
                        n < 31,
                        xy == 1u32 << n,
                ;
            } else {
                assert(xy << 1u32 == 0) by (bit_vector)
                    requires
                        n == 31,
                        xy == 1u32 << n,
                ;
            }
        }
        xy = xy << 1;
        n += 1;
    }
    proof {
        lemma_bits_end(vm, n, xy);
        lemma_rest_unselected(s, data, n as nat, 32);
    }
}

/// Deblocks the edges that `vmask` selects, at the bit depth whose largest pixel is `bitdepth_max`.
pub fn loop_filter_sb128_c_erased<BD: BitDepth>(
    hv: HV,
    yuv: YUV,
    dst: &mut [BD::Pixel],
    base: usize,
    stride: ptrdiff_t,
    vmask: &[u32; 3],
    lvl: &[u8],
    lvl_at: usize,
    b4_stride: ptrdiff_t,
    lut: &Av1FilterLUT,
    bitdepth_max: c_int,
)
    requires
        BD::bpc() is BPC16 ==> 0 <= bitdepth_max <= 0xffff,
        BD::with_max(bitdepth_max as int).bits() >= 8,
        sb_edges(
            hv,
            yuv,
            base,
            stride,
            vmask,
            lvl@,
            lvl_at,
            b4_stride as usize,
            lut,
            BD::with_max(bitdepth_max as int),
        ).readable(pixels(old(dst)@)),
    ensures
        pixels(final(dst)@) == sb_edges(
            hv,
            yuv,
            base,
            stride,
            vmask,
            lvl@,
            lvl_at,
            b4_stride as usize,
            lut,
            BD::with_max(bitdepth_max as int),
        ).filtered(pixels(old(dst)@), 32),
        final(dst)@.len() == old(dst)@.len(),
{
    let b4_stride: usize = #[verifier::truncate] (b4_stride as usize);
    let bd: BD = BD::from_c(bitdepth_max);
    loop_filter_sb128_rust(hv, yuv, dst, base, stride, vmask, lvl, lvl_at, b4_stride, lut, bd)
}

/// The first pixel behind an edge that can be filtered lies in the plane.
proof fn lemma_edge_start(data: Seq<int>, base: int, stridea: int, strideb: int, ep: EdgeParams)
    requires
        edge_readable(data, base, stridea, strideb, ep),
    ensures
        0 <= base < data.len(),
{
    let first = lines_filtered(data, base, stridea, strideb, ep, 0);
    assert(line_readable(first, base + 0 * stridea, strideb, ep));
    lemma_taps_inside(data.len() as int, base, strideb, deciding_taps(ep.wd), 0);
}

/// The superblock that the arguments of the filter describe.
pub open spec fn sb_edges<BD: BitDepth>(
    hv: HV,
    yuv: YUV,
    base: usize,
    stride: isize,
    vmask: &[u32; 3],
    lvl: Seq<u8>,
    lvl_at: usize,
    b4_stride: usize,
    lut: &Av1FilterLUT,
    bd: BD,
) -> SbEdges {
    SbEdges {
        hv,
        yuv,
        base: base as int,
        stride: stride as int,
        vmask: vmask@,
        lvl,
        lvl_at: lvl_at as int,
        b4_stride: b4_stride as int,
        lut: *lut,
        bits: bd.bits(),
        max_pixel: bd.max_pixel(),
    }
}

} // verus!
