//! What deblocking does, in terms of the pixels, masks, levels and thresholds that it is given.
use crate::bitdepth::BitDepth;
use crate::loopfilter::edge::{
    edge_filter, edge_filtered, edge_params, edge_readable, filter_mask, filtered_tap, flat_in, flat_out,
    held, high_variance, lemma_put_taps_len, lemma_put_taps_miss, lemma_taps_inside, lemma_wide6_values,
    lemma_wide8_values, line_filtered, line_readable, lines_filtered, narrow_outer, narrow_p, narrow_q,
    narrow_step, narrow_taps, new_taps, place, taps_at, taps_inside, wide16, wide6, wide8, EdgeFilter,
    EdgeParams,
};
use crate::loopfilter::effect::{idle_superblock_is_kept, line_holds_filtered_taps};
use crate::loopfilter::superblock::{bit, sb_edges, Av1FilterLUT, SbEdges, HV, YUV};
use vstd::arithmetic::power2::{lemma_pow2_pos, pow2};
use vstd::prelude::*;

verus! {

/// Whether the mask `m` holds edge `n`: whether 2^n is among the powers of two that add up to `m`.
pub open spec fn holds(m: u32, n: int) -> bool {
    (m as int / pow2(n as nat) as int) % 2 == 1
}

proof fn lemma_holds(m: u32, n: int)
    requires
        0 <= n < 32,
    ensures
        holds(m, n) == bit(m, n),
{
    let k = n as u32;
    vstd::bits::lemma_u32_shr_is_div(m, k);
    lemma_pow2_pos(n as nat);
    let x = m >> k;
    assert((x & 1 == 1) == (x % 2 == 1)) by (bit_vector);
    assert(x as int == m as int / pow2(n as nat) as int);
}

/// A mask of 2^n holds edge `n` alone, and an empty mask holds none.
pub proof fn power_of_two_holds_one_edge(m: u32, n: int, j: int)
    requires
        0 <= n < 32,
        0 <= j < 32,
    ensures
        m as int == pow2(n as nat) ==> holds(m, j) == (j == n),
        m == 0 ==> !holds(m, j),
{
    lemma_holds(m, j);
    let (k, i) = (n as u32, j as u32);
    assert((0u32 >> i) & 1 == 0) by (bit_vector);
    if m as int == pow2(n as nat) {
        vstd::arithmetic::power2::lemma2_to64();
        vstd::arithmetic::power2::lemma2_to64_rest();
        vstd::bits::lemma_u32_shl_is_mul(1, k);
        assert(m == 1u32 << k);
        assert((((1u32 << k) >> i) & 1 == 1) == (i == k)) by (bit_vector)
            requires
                i < 32,
                k < 32,
        ;
    }
}

/// The level at edge `n`: that of the block behind the edge, and where that is zero, of the block before it.
pub open spec fn level_of(lvl: Seq<u8>, lvl_at: int, b4_along: int, b4_across: int, n: int) -> u8 {
    let behind = lvl[lvl_at + 4 * n * b4_along];
    if behind != 0 {
        behind
    } else {
        lvl[lvl_at + 4 * n * b4_along - 4 * b4_across]
    }
}

/// The edges are filtered from the first to the last. Edge `n` is filtered where one of the masks that count holds
/// it, all three in luma and the first two in chroma, and its level is not zero. The last mask that holds it
/// decides the width: 4, 8 and 16 in luma, 4 and 6 in chroma. The edge starts four lines behind the one before it,
/// its lines follow each other along the edge, and its thresholds are those of its level.
pub proof fn edges_follow_their_masks_and_levels<BD: BitDepth>(
    hv: HV,
    yuv: YUV,
    base: usize,
    stride: isize,
    vmask: &[u32; 3],
    lvl: Seq<u8>,
    lvl_at: usize,
    b4_stride: usize,
    lut: &Av1FilterLUT,
    bd: BD,
    data: Seq<int>,
    n: nat,
)
    requires
        n < 32,
    ensures
        ({
            let s = sb_edges(hv, yuv, base, stride, vmask, lvl, lvl_at, b4_stride, lut, bd);
            let (along, across, b4_along, b4_across) = if hv is H {
                (stride as int, 1int, b4_stride as int, 1int)
            } else {
                (1int, stride as int, 1int, b4_stride as int)
            };
            let l = level_of(lvl, lvl_at as int, b4_along, b4_across, n as int);
            let first = holds(vmask@[0], n as int);
            let second = holds(vmask@[1], n as int);
            let third = yuv is Y && holds(vmask@[2], n as int);
            let wd = if third {
                16int
            } else if second && yuv is Y {
                8int
            } else if second {
                6int
            } else {
                4int
            };
            let before = s.filtered(data, n);
            &&& s.filtered(data, 0) == data
            &&& s.filtered(data, n + 1) == if (first || second || third) && l != 0 {
                edge_filtered(
                    before,
                    base + 4 * n * along,
                    along,
                    across,
                    edge_params(
                        wd,
                        lut.e@[l as int],
                        lut.i@[l as int],
                        (l / 16) as u8,
                        bd.bits(),
                        bd.max_pixel(),
                    ),
                )
            } else {
                before
            }
        }),
{
    lemma_holds(vmask@[0], n as int);
    lemma_holds(vmask@[1], n as int);
    lemma_holds(vmask@[2], n as int);
}

proof fn lemma_rest_is_idle(s: SbEdges, data: Seq<int>, n: nat, m: nat)
    requires
        n <= m,
        forall|k: int| n <= k < m ==> !#[trigger] s.active(k),
    ensures
        s.filtered(data, m) == s.filtered(data, n),
    decreases m,
{
    if n < m {
        lemma_rest_is_idle(s, data, n, (m - 1) as nat);
        assert(!s.active(m - 1));
    }
}

/// Where the masks that count hold no edge but `n`, the plane is that after edge `n` alone, with the width of the
/// last mask that holds it: 4, 8 and 16 in luma, 4 and 6 in chroma. The edge starts `4 * n` lines behind the first
/// one.
pub proof fn lone_edge_is_filtered_with_its_width<BD: BitDepth>(
    hv: HV,
    yuv: YUV,
    base: usize,
    stride: isize,
    vmask: &[u32; 3],
    lvl: Seq<u8>,
    lvl_at: usize,
    b4_stride: usize,
    lut: &Av1FilterLUT,
    bd: BD,
    data: Seq<int>,
    n: int,
    k: int,
)
    requires
        0 <= n < 32,
        0 <= k < 3,
        yuv is UV ==> k < 2,
        forall|m: int, j: int|
            0 <= m < 3 && (yuv is UV ==> m < 2) && 0 <= j < 32 ==> #[trigger] holds(vmask@[m], j) == (m
                == k && j == n),
    ensures
        ({
            let (along, across, b4_along, b4_across) = if hv is H {
                (stride as int, 1int, b4_stride as int, 1int)
            } else {
                (1int, stride as int, 1int, b4_stride as int)
            };
            let l = level_of(lvl, lvl_at as int, b4_along, b4_across, n);
            let wd = if k == 0 {
                4int
            } else if k == 1 && yuv is UV {
                6int
            } else if k == 1 {
                8int
            } else {
                16int
            };
            sb_edges(hv, yuv, base, stride, vmask, lvl, lvl_at, b4_stride, lut, bd).filtered(data, 32)
                == if l != 0 {
                edge_filtered(
                    data,
                    base + 4 * n * along,
                    along,
                    across,
                    edge_params(
                        wd,
                        lut.e@[l as int],
                        lut.i@[l as int],
                        (l / 16) as u8,
                        bd.bits(),
                        bd.max_pixel(),
                    ),
                )
            } else {
                data
            }
        }),
{
    let s = sb_edges(hv, yuv, base, stride, vmask, lvl, lvl_at, b4_stride, lut, bd);
    assert forall|j: int| 0 <= j < 32 && j != n implies !#[trigger] s.active(j) by {
        lemma_holds(vmask@[0], j);
        lemma_holds(vmask@[1], j);
        lemma_holds(vmask@[2], j);
        assert(!holds(vmask@[0], j));
        assert(!holds(vmask@[1], j));
        assert(yuv is Y ==> !holds(vmask@[2], j));
    }
    idle_superblock_is_kept(s, data, n as nat);
    edges_follow_their_masks_and_levels(
        hv, yuv, base, stride, vmask, lvl, lvl_at, b4_stride, lut, bd, data, n as nat,
    );
    assert(holds(vmask@[0], n) == (k == 0));
    assert(holds(vmask@[1], n) == (k == 1));
    assert(yuv is Y ==> holds(vmask@[2], n) == (k == 2));
    lemma_rest_is_idle(s, data, (n + 1) as nat, 32);
}

proof fn lemma_low_edges(s: SbEdges, low: SbEdges, data: Seq<int>, m: nat, n: nat)
    requires
        low == (SbEdges { vmask: low.vmask, ..s }),
        forall|k: int| 0 <= k < m ==> #[trigger] low.selected(k) == s.selected(k),
        forall|k: int| 0 <= k < m ==> #[trigger] low.width(k) == s.width(k),
        n <= m,
    ensures
        low.filtered(data, n) == s.filtered(data, n),
    decreases n,
{
    if n > 0 {
        lemma_low_edges(s, low, data, m, (n - 1) as nat);
        assert(low.selected(n - 1) == s.selected(n - 1));
        assert(low.width(n - 1) == s.width(n - 1));
    }
}

proof fn lemma_high_edges(s: SbEdges, high: SbEdges, data: Seq<int>, mid: Seq<int>, m: nat, n: nat)
    requires
        high == (SbEdges { vmask: high.vmask, ..s }),
        mid == s.filtered(data, m),
        forall|k: int| 0 <= k < m ==> !#[trigger] high.selected(k),
        forall|k: int| m <= k < 32 ==> #[trigger] high.selected(k) == s.selected(k),
        forall|k: int| m <= k < 32 ==> #[trigger] high.width(k) == s.width(k),
        m <= n <= 32,
    ensures
        high.filtered(mid, n) == s.filtered(data, n),
    decreases n,
{
    if n > m {
        lemma_high_edges(s, high, data, mid, m, (n - 1) as nat);
        assert(high.selected(n - 1) == s.selected(n - 1));
        assert(high.width(n - 1) == s.width(n - 1));
    } else {
        assert forall|k: int| 0 <= k < m implies !#[trigger] high.active(k) by {
            assert(!high.selected(k));
        }
        idle_superblock_is_kept(high, mid, m);
    }
}

/// The edges of a superblock can be filtered in two calls: first those below `m`, with the edges from `m` on taken
/// out of the masks, and after that the rest.
pub proof fn edges_can_be_filtered_in_two_calls<BD: BitDepth>(
    hv: HV,
    yuv: YUV,
    base: usize,
    stride: isize,
    vmask: &[u32; 3],
    low: &[u32; 3],
    high: &[u32; 3],
    lvl: Seq<u8>,
    lvl_at: usize,
    b4_stride: usize,
    lut: &Av1FilterLUT,
    bd: BD,
    data: Seq<int>,
    m: int,
)
    requires
        0 <= m <= 32,
        forall|k: int, j: int|
            0 <= k < 3 && 0 <= j < 32 ==> #[trigger] holds(low@[k], j) == (holds(vmask@[k], j) && j < m),
        forall|k: int, j: int|
            0 <= k < 3 && 0 <= j < 32 ==> #[trigger] holds(high@[k], j) == (holds(vmask@[k], j) && j
                >= m),
    ensures
        sb_edges(hv, yuv, base, stride, high, lvl, lvl_at, b4_stride, lut, bd).filtered(
            sb_edges(hv, yuv, base, stride, low, lvl, lvl_at, b4_stride, lut, bd).filtered(data, 32),
            32,
        ) == sb_edges(hv, yuv, base, stride, vmask, lvl, lvl_at, b4_stride, lut, bd).filtered(data, 32),
{
    let s = sb_edges(hv, yuv, base, stride, vmask, lvl, lvl_at, b4_stride, lut, bd);
    let a = sb_edges(hv, yuv, base, stride, low, lvl, lvl_at, b4_stride, lut, bd);
    let b = sb_edges(hv, yuv, base, stride, high, lvl, lvl_at, b4_stride, lut, bd);
    assert forall|j: int| 0 <= j < 32 implies (#[trigger] a.selected(j)) == (s.selected(j) && j < m) && (
    j < m ==> a.width(j) == s.width(j)) && b.selected(j) == (s.selected(j) && j >= m) && (j >= m
        ==> b.width(j) == s.width(j)) by {
        assert forall|k: int| 0 <= k < 3 implies #[trigger] bit(low@[k], j) == (bit(vmask@[k], j) && j
            < m) && bit(high@[k], j) == (bit(vmask@[k], j) && j >= m) by {
            lemma_holds(low@[k], j);
            lemma_holds(high@[k], j);
            lemma_holds(vmask@[k], j);
        }
        assert(bit(low@[0], j) == (bit(vmask@[0], j) && j < m));
        assert(bit(low@[1], j) == (bit(vmask@[1], j) && j < m));
        assert(bit(low@[2], j) == (bit(vmask@[2], j) && j < m));
    }
    assert forall|k: int| 0 <= k < m implies #[trigger] a.width(k) == s.width(k) by {
        assert(a.selected(k) == (s.selected(k) && k < m));
    }
    assert forall|k: int| m <= k < 32 implies #[trigger] b.width(k) == s.width(k) by {
        assert(a.selected(k) == (s.selected(k) && k < m));
    }
    assert forall|k: int| m <= k < 32 implies #[trigger] b.selected(k) == s.selected(k) by {
        assert(a.selected(k) == (s.selected(k) && k < m));
    }
    assert forall|k: int| 0 <= k < m implies !#[trigger] b.selected(k) by {
        assert(a.selected(k) == (s.selected(k) && k < m));
    }
    assert forall|k: int| m <= k < 32 implies !#[trigger] a.active(k) by {
        assert(a.selected(k) == (s.selected(k) && k < m));
    }
    lemma_low_edges(s, a, data, m as nat, m as nat);
    lemma_rest_is_idle(a, data, m as nat, 32);
    lemma_high_edges(s, b, data, s.filtered(data, m as nat), m as nat, 32);
}

/// The distance of two pixels.
pub open spec fn gap(a: int, b: int) -> int {
    if a <= b {
        b - a
    } else {
        a - b
    }
}

/// `v`, or the nearest number from `lo` to `hi`.
pub open spec fn limited(v: int, lo: int, hi: int) -> int {
    if v < lo {
        lo
    } else if v > hi {
        hi
    } else {
        v
    }
}

/// Whether the `k`-th neighbours on either side of the edge, counted from the edge, are no more than `i` away from
/// the ones before them.
pub open spec fn small_steps(t: Seq<int>, i: int, k: int) -> bool {
    gap(t[6 - k], t[7 - k]) <= i && gap(t[7 + k], t[6 + k]) <= i
}

/// Whether the step across the edge, and the steps beside it as far as the width looks, stay within the
/// thresholds.
pub open spec fn within_thresholds(t: Seq<int>, wd: int, e: int, i: int) -> bool {
    &&& 2 * gap(t[6], t[7]) + gap(t[5], t[8]) / 2 <= e
    &&& small_steps(t, i, 1)
    &&& wd > 4 ==> small_steps(t, i, 2)
    &&& wd > 6 ==> small_steps(t, i, 3)
}

/// Whether the `k`-th neighbours on either side of the edge are no more than `unit` away from the pixels at the
/// edge.
pub open spec fn level_at_distance(t: Seq<int>, unit: int, k: int) -> bool {
    gap(t[6 - k], t[6]) <= unit && gap(t[7 + k], t[7]) <= unit
}

/// Whether `n` neighbours on either side of the edge are level with the pixels at the edge.
pub open spec fn level_for(t: Seq<int>, unit: int, n: int) -> bool {
    forall|k: int| 1 <= k <= n ==> #[trigger] level_at_distance(t, unit, k)
}

proof fn lemma_level_for(t: Seq<int>, unit: int)
    ensures
        level_for(t, unit, 2) == (level_at_distance(t, unit, 1) && level_at_distance(t, unit, 2)),
        level_for(t, unit, 3) == (level_for(t, unit, 2) && level_at_distance(t, unit, 3)),
        level_for(t, unit, 6) == (level_for(t, unit, 3) && level_at_distance(t, unit, 4)
            && level_at_distance(t, unit, 5) && level_at_distance(t, unit, 6)),
{
    if level_at_distance(t, unit, 1) && level_at_distance(t, unit, 2) {
        assert(level_for(t, unit, 2)) by {
            assert forall|k: int| 1 <= k <= 2 implies #[trigger] level_at_distance(t, unit, k) by {
                assert(k == 1 || k == 2);
            }
        }
    }
    if level_for(t, unit, 2) && level_at_distance(t, unit, 3) {
        assert forall|k: int| 1 <= k <= 3 implies #[trigger] level_at_distance(t, unit, k) by {
            assert(k <= 2 || k == 3);
        }
    }
    if level_for(t, unit, 3) && level_at_distance(t, unit, 4) && level_at_distance(t, unit, 5)
        && level_at_distance(t, unit, 6) {
        assert forall|k: int| 1 <= k <= 6 implies #[trigger] level_at_distance(t, unit, k) by {
            assert(k <= 3 || k == 4 || k == 5 || k == 6);
        }
    }
}

proof fn lemma_filter(t: Seq<int>, wd: int, e: u8, i: u8, h: u8, bits: nat, max_pixel: int)
    requires
        bits >= 8,
    ensures
        ({
            let unit = pow2((bits - 8) as nat) as int;
            edge_filter(t, edge_params(wd, e, i, h, bits, max_pixel)) == if !within_thresholds(
                t,
                wd,
                e * unit,
                i * unit,
            ) {
                EdgeFilter::Off
            } else if wd >= 16 && level_for(t, unit, 6) {
                EdgeFilter::Wide16
            } else if wd >= 8 && level_for(t, unit, 3) {
                EdgeFilter::Wide8
            } else if wd == 6 && level_for(t, unit, 2) {
                EdgeFilter::Wide6
            } else {
                EdgeFilter::Narrow
            }
        }),
{
    let unit = pow2((bits - 8) as nat) as int;
    let ep = edge_params(wd, e, i, h, bits, max_pixel);
    lemma_level_for(t, unit);
    assert(filter_mask(t, ep) == within_thresholds(t, wd, e * unit, i * unit));
    assert(wd >= 8 ==> flat_in(t, ep) == level_for(t, unit, 3));
    assert(wd == 6 ==> flat_in(t, ep) == level_for(t, unit, 2));
    assert(wd >= 16 ==> (flat_in(t, ep) && flat_out(t, ep)) == level_for(t, unit, 6));
}

/// A line whose step across the edge, or one of whose steps beside it, goes beyond its threshold keeps its pixels.
/// The thresholds of eight bits are scaled to the bit depth.
pub proof fn line_beyond_thresholds_is_kept(
    t: Seq<int>,
    wd: int,
    e: u8,
    i: u8,
    h: u8,
    bits: nat,
    max_pixel: int,
    j: int,
)
    requires
        bits >= 8,
        !within_thresholds(t, wd, e * pow2((bits - 8) as nat), i * pow2((bits - 8) as nat)),
    ensures
        filtered_tap(t, edge_params(wd, e, i, h, bits, max_pixel), j) == t[j],
{
    lemma_filter(t, wd, e, i, h, bits, max_pixel);
}

proof fn lemma_wide16_values(t: Seq<int>)
    ensures
        wide16(t, 1) == (7 * t[0] + 2 * t[1] + 2 * t[2] + t[3] + t[4] + t[5] + t[6] + t[7] + 8) / 16,
        wide16(t, 2) == (5 * t[0] + 2 * t[1] + 2 * t[2] + 2 * t[3] + t[4] + t[5] + t[6] + t[7] + t[8]
            + 8) / 16,
        wide16(t, 3) == (4 * t[0] + t[1] + 2 * t[2] + 2 * t[3] + 2 * t[4] + t[5] + t[6] + t[7] + t[8]
            + t[9] + 8) / 16,
        wide16(t, 4) == (3 * t[0] + t[1] + t[2] + 2 * t[3] + 2 * t[4] + 2 * t[5] + t[6] + t[7] + t[8]
            + t[9] + t[10] + 8) / 16,
        wide16(t, 5) == (2 * t[0] + t[1] + t[2] + t[3] + 2 * t[4] + 2 * t[5] + 2 * t[6] + t[7] + t[8]
            + t[9] + t[10] + t[11] + 8) / 16,
        wide16(t, 6) == (t[0] + t[1] + t[2] + t[3] + t[4] + 2 * t[5] + 2 * t[6] + 2 * t[7] + t[8] + t[9]
            + t[10] + t[11] + t[12] + 8) / 16,
        wide16(t, 7) == (t[1] + t[2] + t[3] + t[4] + t[5] + 2 * t[6] + 2 * t[7] + 2 * t[8] + t[9]
            + t[10] + t[11] + t[12] + t[13] + 8) / 16,
        wide16(t, 8) == (t[2] + t[3] + t[4] + t[5] + t[6] + 2 * t[7] + 2 * t[8] + 2 * t[9] + t[10]
            + t[11] + t[12] + 2 * t[13] + 8) / 16,
        wide16(t, 9) == (t[3] + t[4] + t[5] + t[6] + t[7] + 2 * t[8] + 2 * t[9] + 2 * t[10] + t[11]
            + t[12] + 3 * t[13] + 8) / 16,
        wide16(t, 10) == (t[4] + t[5] + t[6] + t[7] + t[8] + 2 * t[9] + 2 * t[10] + 2 * t[11] + t[12]
            + 4 * t[13] + 8) / 16,
        wide16(t, 11) == (t[5] + t[6] + t[7] + t[8] + t[9] + 2 * t[10] + 2 * t[11] + 2 * t[12]
            + 5 * t[13] + 8) / 16,
        wide16(t, 12) == (t[6] + t[7] + t[8] + t[9] + t[10] + 2 * t[11] + 2 * t[12] + 7 * t[13] + 8) / 16,
{
    reveal(wide16);
    reveal(held);
}

/// Where the width is 16 and six neighbours on either side are level, each of the twelve pixels around the edge
/// becomes the average of the thirteen around it, the nearest three counted twice. Beyond the seventh pixel from
/// the edge that one is repeated.
pub proof fn level_line_is_averaged_over_thirteen(
    t: Seq<int>,
    wd: int,
    e: u8,
    i: u8,
    h: u8,
    bits: nat,
    max_pixel: int,
)
    requires
        bits >= 8,
        within_thresholds(t, wd, e * pow2((bits - 8) as nat), i * pow2((bits - 8) as nat)),
        wd >= 16,
        level_for(t, pow2((bits - 8) as nat) as int, 6),
    ensures
        ({
            let ep = edge_params(wd, e, i, h, bits, max_pixel);
            &&& forall|j: int| !(1 <= j <= 12) ==> #[trigger] filtered_tap(t, ep, j) == t[j]
            &&& filtered_tap(t, ep, 1) == (7 * t[0] + 2 * t[1] + 2 * t[2] + t[3] + t[4] + t[5] + t[6]
                + t[7] + 8) / 16
            &&& filtered_tap(t, ep, 2) == (5 * t[0] + 2 * t[1] + 2 * t[2] + 2 * t[3] + t[4] + t[5]
                + t[6] + t[7] + t[8] + 8) / 16
            &&& filtered_tap(t, ep, 3) == (4 * t[0] + t[1] + 2 * t[2] + 2 * t[3] + 2 * t[4] + t[5]
                + t[6] + t[7] + t[8] + t[9] + 8) / 16
            &&& filtered_tap(t, ep, 4) == (3 * t[0] + t[1] + t[2] + 2 * t[3] + 2 * t[4] + 2 * t[5]
                + t[6] + t[7] + t[8] + t[9] + t[10] + 8) / 16
            &&& filtered_tap(t, ep, 5) == (2 * t[0] + t[1] + t[2] + t[3] + 2 * t[4] + 2 * t[5]
                + 2 * t[6] + t[7] + t[8] + t[9] + t[10] + t[11] + 8) / 16
            &&& filtered_tap(t, ep, 6) == (t[0] + t[1] + t[2] + t[3] + t[4] + 2 * t[5] + 2 * t[6]
                + 2 * t[7] + t[8] + t[9] + t[10] + t[11] + t[12] + 8) / 16
            &&& filtered_tap(t, ep, 7) == (t[1] + t[2] + t[3] + t[4] + t[5] + 2 * t[6] + 2 * t[7]
                + 2 * t[8] + t[9] + t[10] + t[11] + t[12] + t[13] + 8) / 16
            &&& filtered_tap(t, ep, 8) == (t[2] + t[3] + t[4] + t[5] + t[6] + 2 * t[7] + 2 * t[8]
                + 2 * t[9] + t[10] + t[11] + t[12] + 2 * t[13] + 8) / 16
            &&& filtered_tap(t, ep, 9) == (t[3] + t[4] + t[5] + t[6] + t[7] + 2 * t[8] + 2 * t[9]
                + 2 * t[10] + t[11] + t[12] + 3 * t[13] + 8) / 16
            &&& filtered_tap(t, ep, 10) == (t[4] + t[5] + t[6] + t[7] + t[8] + 2 * t[9] + 2 * t[10]
                + 2 * t[11] + t[12] + 4 * t[13] + 8) / 16
            &&& filtered_tap(t, ep, 11) == (t[5] + t[6] + t[7] + t[8] + t[9] + 2 * t[10] + 2 * t[11]
                + 2 * t[12] + 5 * t[13] + 8) / 16
            &&& filtered_tap(t, ep, 12) == (t[6] + t[7] + t[8] + t[9] + t[10] + 2 * t[11] + 2 * t[12]
                + 7 * t[13] + 8) / 16
        }),
{
    lemma_filter(t, wd, e, i, h, bits, max_pixel);
    lemma_wide16_values(t);
}

/// Where the width is 8, or it is 16 and only the inner three neighbours on either side are level, each of the six
/// pixels around the edge becomes the average of the seven around it, itself counted twice. Beyond the fourth
/// pixel from the edge that one is repeated.
pub proof fn level_line_is_averaged_over_seven(
    t: Seq<int>,
    wd: int,
    e: u8,
    i: u8,
    h: u8,
    bits: nat,
    max_pixel: int,
)
    requires
        bits >= 8,
        within_thresholds(t, wd, e * pow2((bits - 8) as nat), i * pow2((bits - 8) as nat)),
        wd >= 8,
        level_for(t, pow2((bits - 8) as nat) as int, 3),
        !(wd >= 16 && level_for(t, pow2((bits - 8) as nat) as int, 6)),
    ensures
        ({
            let ep = edge_params(wd, e, i, h, bits, max_pixel);
            &&& forall|j: int| !(4 <= j <= 9) ==> #[trigger] filtered_tap(t, ep, j) == t[j]
            &&& filtered_tap(t, ep, 4) == (3 * t[3] + 2 * t[4] + t[5] + t[6] + t[7] + 4) / 8
            &&& filtered_tap(t, ep, 5) == (2 * t[3] + t[4] + 2 * t[5] + t[6] + t[7] + t[8] + 4) / 8
            &&& filtered_tap(t, ep, 6) == (t[3] + t[4] + t[5] + 2 * t[6] + t[7] + t[8] + t[9] + 4) / 8
            &&& filtered_tap(t, ep, 7) == (t[4] + t[5] + t[6] + 2 * t[7] + t[8] + t[9] + t[10] + 4) / 8
            &&& filtered_tap(t, ep, 8) == (t[5] + t[6] + t[7] + 2 * t[8] + t[9] + 2 * t[10] + 4) / 8
            &&& filtered_tap(t, ep, 9) == (t[6] + t[7] + t[8] + 2 * t[9] + 3 * t[10] + 4) / 8
        }),
{
    lemma_filter(t, wd, e, i, h, bits, max_pixel);
    lemma_wide8_values(t);
}

/// Where the width is 6 and two neighbours on either side are level, each of the four pixels around the edge
/// becomes the average of the five around it, the nearest three counted twice. Beyond the third pixel from the
/// edge that one is repeated.
pub proof fn level_line_is_averaged_over_five(
    t: Seq<int>,
    wd: int,
    e: u8,
    i: u8,
    h: u8,
    bits: nat,
    max_pixel: int,
)
    requires
        bits >= 8,
        within_thresholds(t, wd, e * pow2((bits - 8) as nat), i * pow2((bits - 8) as nat)),
        wd == 6,
        level_for(t, pow2((bits - 8) as nat) as int, 2),
    ensures
        ({
            let ep = edge_params(wd, e, i, h, bits, max_pixel);
            &&& forall|j: int| !(5 <= j <= 8) ==> #[trigger] filtered_tap(t, ep, j) == t[j]
            &&& filtered_tap(t, ep, 5) == (3 * t[4] + 2 * t[5] + 2 * t[6] + t[7] + 4) / 8
            &&& filtered_tap(t, ep, 6) == (t[4] + 2 * t[5] + 2 * t[6] + 2 * t[7] + t[8] + 4) / 8
            &&& filtered_tap(t, ep, 7) == (t[5] + 2 * t[6] + 2 * t[7] + 2 * t[8] + t[9] + 4) / 8
            &&& filtered_tap(t, ep, 8) == (t[6] + 2 * t[7] + 2 * t[8] + 3 * t[9] + 4) / 8
        }),
{
    lemma_filter(t, wd, e, i, h, bits, max_pixel);
    lemma_wide6_values(t);
}

/// Any other line within the thresholds is corrected right at the edge. The correction is three times the step across
/// the edge, in eighths, limited to a signed pixel; the step between the second pixels is added where a step
/// beside the edge goes beyond its threshold. Where none does, the second pixels move by half of it too.
pub proof fn uneven_line_is_corrected_at_the_edge(
    t: Seq<int>,
    wd: int,
    e: u8,
    i: u8,
    h: u8,
    bits: nat,
    max_pixel: int,
)
    requires
        bits >= 8,
        within_thresholds(t, wd, e * pow2((bits - 8) as nat), i * pow2((bits - 8) as nat)),
        !(wd >= 8 && level_for(t, pow2((bits - 8) as nat) as int, 3)),
        !(wd == 6 && level_for(t, pow2((bits - 8) as nat) as int, 2)),
    ensures
        ({
            let ep = edge_params(wd, e, i, h, bits, max_pixel);
            let unit = pow2((bits - 8) as nat) as int;
            let (lo, hi) = (-128 * unit, 128 * unit - 1);
            let uneven = gap(t[5], t[6]) > h * unit || gap(t[8], t[7]) > h * unit;
            let outer = if uneven {
                limited(t[5] - t[8], lo, hi)
            } else {
                0
            };
            let step = limited(3 * (t[7] - t[6]) + outer, lo, hi);
            let up = limited(step + 3, lo, hi) / 8;
            let down = limited(step + 4, lo, hi) / 8;
            let half = (down + 1) / 2;
            &&& filtered_tap(t, ep, 6) == limited(t[6] + up, 0, max_pixel)
            &&& filtered_tap(t, ep, 7) == limited(t[7] - down, 0, max_pixel)
            &&& filtered_tap(t, ep, 5) == if uneven {
                t[5]
            } else {
                limited(t[5] + half, 0, max_pixel)
            }
            &&& filtered_tap(t, ep, 8) == if uneven {
                t[8]
            } else {
                limited(t[8] - half, 0, max_pixel)
            }
            &&& forall|j: int| !(5 <= j <= 8) ==> #[trigger] filtered_tap(t, ep, j) == t[j]
        }),
{
    let ep = edge_params(wd, e, i, h, bits, max_pixel);
    let unit = pow2((bits - 8) as nat) as int;
    lemma_pow2_pos((bits - 8) as nat);
    assert(edge_filter(t, ep) is Narrow) by {
        lemma_filter(t, wd, e, i, h, bits, max_pixel);
        lemma_level_for(t, unit);
    }
    lemma_narrow(t, ep);
}

proof fn lemma_narrow(t: Seq<int>, ep: EdgeParams)
    requires
        edge_filter(t, ep) is Narrow,
        ep.unit > 0,
    ensures
        ({
            let (lo, hi) = (-128 * ep.unit, 128 * ep.unit - 1);
            let uneven = gap(t[5], t[6]) > ep.h || gap(t[8], t[7]) > ep.h;
            let outer = if uneven {
                limited(t[5] - t[8], lo, hi)
            } else {
                0
            };
            let step = limited(3 * (t[7] - t[6]) + outer, lo, hi);
            let up = limited(step + 3, lo, hi) / 8;
            let down = limited(step + 4, lo, hi) / 8;
            let half = (down + 1) / 2;
            &&& filtered_tap(t, ep, 6) == limited(t[6] + up, 0, ep.max_pixel)
            &&& filtered_tap(t, ep, 7) == limited(t[7] - down, 0, ep.max_pixel)
            &&& filtered_tap(t, ep, 5) == if uneven {
                t[5]
            } else {
                limited(t[5] + half, 0, ep.max_pixel)
            }
            &&& filtered_tap(t, ep, 8) == if uneven {
                t[8]
            } else {
                limited(t[8] - half, 0, ep.max_pixel)
            }
            &&& forall|j: int| !(5 <= j <= 8) ==> #[trigger] filtered_tap(t, ep, j) == t[j]
        }),
{
    let (lo, hi) = (-128 * ep.unit, 128 * ep.unit - 1);
    let uneven = gap(t[5], t[6]) > ep.h || gap(t[8], t[7]) > ep.h;
    let outer = if uneven {
        limited(t[5] - t[8], lo, hi)
    } else {
        0
    };
    let step = limited(3 * (t[7] - t[6]) + outer, lo, hi);
    assert(high_variance(t, ep) == uneven);
    assert(narrow_step(t, ep) == step);
    assert(narrow_p(t, ep) == limited(step + 3, lo, hi) / 8) by {
        reveal(narrow_p);
    }
    assert(narrow_q(t, ep) == limited(step + 4, lo, hi) / 8) by {
        reveal(narrow_q);
    }
    assert(narrow_outer(t, ep) == (narrow_q(t, ep) + 1) / 2) by {
        reveal(narrow_outer);
    }
    assert(new_taps(t, ep) == narrow_taps(t, ep));
}

proof fn lemma_raised_wide(t: Seq<int>, u: Seq<int>, c: int)
    requires
        forall|k: int| 0 <= k < 14 ==> #[trigger] u[k] == t[k] + c,
    ensures
        forall|j: int| 0 <= j < 14 ==> #[trigger] wide16(u, j) == wide16(t, j) + c,
        forall|j: int| 0 <= j < 14 ==> #[trigger] wide8(u, j) == wide8(t, j) + c,
        forall|j: int| 0 <= j < 14 ==> #[trigger] wide6(u, j) == wide6(t, j) + c,
{
    assert forall|j: int, lo: int, hi: int| 0 <= lo <= hi < 14 implies #[trigger] held(u, j, lo, hi)
        == held(t, j, lo, hi) + c by {
        reveal(held);
    }
    assert forall|j: int| 0 <= j < 14 implies #[trigger] wide16(u, j) == wide16(t, j) + c by {
        reveal(wide16);
    }
    assert forall|j: int| 0 <= j < 14 implies #[trigger] wide8(u, j) == wide8(t, j) + c by {
        reveal(wide8);
    }
    assert forall|j: int| 0 <= j < 14 implies #[trigger] wide6(u, j) == wide6(t, j) + c by {
        reveal(wide6);
    }
}

/// Raising all pixels of a line by `c` does not change which filter it gets, and the wide filters raise what they
/// write by `c`.
pub proof fn raised_line_is_filtered_raised(
    t: Seq<int>,
    u: Seq<int>,
    c: int,
    wd: int,
    e: u8,
    i: u8,
    h: u8,
    bits: nat,
    max_pixel: int,
    j: int,
)
    requires
        bits >= 8,
        0 <= j < 14,
        forall|k: int| 0 <= k < 14 ==> #[trigger] u[k] == t[k] + c,
    ensures
        ({
            let ep = edge_params(wd, e, i, h, bits, max_pixel);
            &&& edge_filter(u, ep) == edge_filter(t, ep)
            &&& edge_filter(t, ep) !is Narrow ==> filtered_tap(u, ep, j) == filtered_tap(t, ep, j) + c
        }),
{
    let ep = edge_params(wd, e, i, h, bits, max_pixel);
    assert(filter_mask(u, ep) == filter_mask(t, ep));
    assert(flat_in(u, ep) == flat_in(t, ep));
    assert(flat_out(u, ep) == flat_out(t, ep));
    lemma_raised_wide(t, u, c);
}

/// An edge is four lines, filtered one after the other, each `stridea` behind the one before it.
pub proof fn edge_is_four_lines_in_turn(
    data: Seq<int>,
    base: int,
    stridea: int,
    strideb: int,
    wd: int,
    e: u8,
    i: u8,
    h: u8,
    bits: nat,
    max_pixel: int,
)
    ensures
        ({
            let ep = edge_params(wd, e, i, h, bits, max_pixel);
            let one = line_filtered(data, base, strideb, ep);
            let two = line_filtered(one, base + stridea, strideb, ep);
            let three = line_filtered(two, base + 2 * stridea, strideb, ep);
            edge_filtered(data, base, stridea, strideb, ep) == line_filtered(
                three,
                base + 3 * stridea,
                strideb,
                ep,
            )
        }),
{
    let ep = edge_params(wd, e, i, h, bits, max_pixel);
    let one = lines_filtered(data, base, stridea, strideb, ep, 1);
    let two = lines_filtered(data, base, stridea, strideb, ep, 2);
    let three = lines_filtered(data, base, stridea, strideb, ep, 3);
    assert(lines_filtered(data, base, stridea, strideb, ep, 0) == data);
    assert(base + 0 * stridea == base);
    assert(base + 1 * stridea == base + stridea);
    assert(one == line_filtered(data, base, strideb, ep));
    assert(two == line_filtered(one, base + stridea, strideb, ep));
    assert(three == line_filtered(two, base + 2 * stridea, strideb, ep));
}

/// The pixel `k` steps of `strideb` behind the first one behind the edge.
pub open spec fn across(base: int, strideb: int, k: int) -> int {
    base + k * strideb
}

/// The fourteen pixels across the edge, seven on either side.
pub open spec fn pixels_across(data: Seq<int>, base: int, strideb: int) -> Seq<int> {
    seq![
        data[base - 7 * strideb],
        data[base - 6 * strideb],
        data[base - 5 * strideb],
        data[base - 4 * strideb],
        data[base - 3 * strideb],
        data[base - 2 * strideb],
        data[base - strideb],
        data[base],
        data[base + strideb],
        data[base + 2 * strideb],
        data[base + 3 * strideb],
        data[base + 4 * strideb],
        data[base + 5 * strideb],
        data[base + 6 * strideb],
    ]
}

proof fn lemma_pixels_across(data: Seq<int>, base: int, strideb: int)
    ensures
        taps_at(data, base, strideb) == pixels_across(data, base, strideb),
{
    let t = taps_at(data, base, strideb);
    let u = pixels_across(data, base, strideb);
    assert forall|j: int| 0 <= j < 14 implies t[j] == u[j] by {
        assert((j - 7) * strideb == j * strideb - 7 * strideb) by (nonlinear_arith);
        assert(j == 0 || j == 1 || j == 2 || j == 3 || j == 4 || j == 5 || j == 6 || j == 7 || j == 8 || j
            == 9 || j == 10 || j == 11 || j == 12 || j == 13);
    }
    assert(t =~= u);
}

/// Filtering a line rewrites the pixels across the edge with the filtered ones and leaves the rest of the plane as
/// it is.
pub proof fn line_rewrites_its_pixels_alone(
    data: Seq<int>,
    base: int,
    strideb: int,
    wd: int,
    e: u8,
    i: u8,
    h: u8,
    bits: nat,
    max_pixel: int,
    x: int,
)
    requires
        strideb != 0,
        0 <= x < data.len(),
    ensures
        ({
            let ep = edge_params(wd, e, i, h, bits, max_pixel);
            let after = line_filtered(data, base, strideb, ep);
            &&& after.len() == data.len()
            &&& forall|k: int|
                -7 <= k < 7 && x == #[trigger] across(base, strideb, k) ==> after[x] == filtered_tap(
                    pixels_across(data, base, strideb),
                    ep,
                    k + 7,
                )
            &&& (forall|k: int| -7 <= k < 7 ==> x != #[trigger] across(base, strideb, k)) ==> after[x]
                == data[x]
        }),
{
    let ep = edge_params(wd, e, i, h, bits, max_pixel);
    let after = line_filtered(data, base, strideb, ep);
    let (first, values) = new_taps(taps_at(data, base, strideb), ep);
    lemma_put_taps_len(data, base, strideb, first, values);
    lemma_pixels_across(data, base, strideb);
    assert forall|k: int| -7 <= k < 7 && x == #[trigger] across(base, strideb, k) implies after[x]
        == filtered_tap(pixels_across(data, base, strideb), ep, k + 7) by {
        assert(place(base, strideb, k + 7) == across(base, strideb, k));
        line_holds_filtered_taps(data, base, strideb, ep, k + 7);
    }
    if forall|k: int| -7 <= k < 7 ==> x != #[trigger] across(base, strideb, k) {
        assert forall|j: int| first <= j < first + values.len() implies x != base + #[trigger] ((j - 7)
            * strideb) by {
            assert(x != across(base, strideb, j - 7));
        }
        lemma_put_taps_miss(data, base, strideb, first, values, x);
    }
}

/// Whether `n` pixels on either side of the edge lie in a plane of `len` pixels.
pub open spec fn lies_inside(len: int, base: int, strideb: int, n: int) -> bool {
    forall|k: int| -n <= k < n ==> 0 <= #[trigger] across(base, strideb, k) < len
}

proof fn lemma_lies_inside(len: int, base: int, strideb: int, n: int)
    requires
        n >= 1,
    ensures
        lies_inside(len, base, strideb, n) == taps_inside(len, base, strideb, n),
{
    assert(across(base, strideb, -n) == base - n * strideb) by {
        assert(-n * strideb == -(n * strideb)) by (nonlinear_arith);
    }
    assert(across(base, strideb, n - 1) == base + (n - 1) * strideb);
    if taps_inside(len, base, strideb, n) {
        assert forall|k: int| -n <= k < n implies 0 <= #[trigger] across(base, strideb, k) < len by {
            lemma_taps_inside(len, base, strideb, n, k);
        }
    }
}

/// A line can be filtered where the pixels that decide on it lie in the plane, two on either side for a width of 4,
/// three for 6 and four beyond; and with a width of 16 and a line within the thresholds, seven.
pub proof fn line_is_readable_where_its_pixels_are(
    data: Seq<int>,
    base: int,
    strideb: int,
    wd: int,
    e: u8,
    i: u8,
    h: u8,
    bits: nat,
    max_pixel: int,
)
    requires
        bits >= 8,
    ensures
        ({
            let unit = pow2((bits - 8) as nat);
            let len = data.len() as int;
            let deciding = if wd > 6 {
                4int
            } else if wd > 4 {
                3int
            } else {
                2int
            };
            let passes = within_thresholds(pixels_across(data, base, strideb), wd, e * unit, i * unit);
            line_readable(data, base, strideb, edge_params(wd, e, i, h, bits, max_pixel)) == (lies_inside(
                len,
                base,
                strideb,
                deciding,
            ) && (wd >= 16 && passes ==> lies_inside(len, base, strideb, 7)))
        }),
{
    let len = data.len() as int;
    lemma_filter(taps_at(data, base, strideb), wd, e, i, h, bits, max_pixel);
    lemma_pixels_across(data, base, strideb);
    lemma_lies_inside(len, base, strideb, 2);
    lemma_lies_inside(len, base, strideb, 3);
    lemma_lies_inside(len, base, strideb, 4);
    lemma_lies_inside(len, base, strideb, 7);
}

/// Whether edge `n` can be filtered once the edges before it have been: its level can be looked up and has
/// thresholds, and where it is not zero, each of the four lines can be filtered after the ones before it.
pub open spec fn edge_can_be_filtered(s: SbEdges, data: Seq<int>, n: nat) -> bool {
    let (b4_along, b4_across) = if s.hv is H {
        (s.b4_stride, 1int)
    } else {
        (1int, s.b4_stride)
    };
    let (along, across) = if s.hv is H {
        (s.stride, 1int)
    } else {
        (1int, s.stride)
    };
    let at = s.lvl_at + 4 * n * b4_along;
    let l = level_of(s.lvl, s.lvl_at, b4_along, b4_across, n as int);
    let third = s.yuv is Y && holds(s.vmask[2], n as int);
    let second = holds(s.vmask[1], n as int);
    let wd = if third {
        16int
    } else if second && s.yuv is Y {
        8int
    } else if second {
        6int
    } else {
        4int
    };
    let ep = edge_params(wd, s.lut.e@[l as int], s.lut.i@[l as int], (l / 16) as u8, s.bits, s.max_pixel);
    let first = s.base + 4 * n * along;
    let line1 = line_filtered(data, first, across, ep);
    let line2 = line_filtered(line1, first + along, across, ep);
    let line3 = line_filtered(line2, first + 2 * along, across, ep);
    &&& 0 <= at < s.lvl.len()
    &&& s.lvl[at] == 0 ==> 0 <= at - 4 * b4_across
    &&& l < 64
    &&& l != 0 ==> line_readable(data, first, across, ep) && line_readable(line1, first + along, across, ep)
        && line_readable(line2, first + 2 * along, across, ep) && line_readable(
        line3,
        first + 3 * along,
        across,
        ep,
    )
}

/// A superblock can be filtered exactly where each edge that a mask that counts holds can be, after the ones before
/// it.
pub proof fn superblock_is_readable_where_its_edges_are(s: SbEdges, data: Seq<int>)
    ensures
        s.readable(data) == forall|n: nat|
            n < 32 && (holds(s.vmask[0], n as int) || holds(s.vmask[1], n as int) || (s.yuv is Y && holds(
                s.vmask[2],
                n as int,
            ))) ==> edge_can_be_filtered(s, #[trigger] s.filtered(data, n), n),
{
    if s.readable(data) {
        assert forall|n: nat|
            n < 32 && (holds(s.vmask[0], n as int) || holds(s.vmask[1], n as int) || (s.yuv is Y && holds(
                s.vmask[2],
                n as int,
            ))) implies edge_can_be_filtered(s, #[trigger] s.filtered(data, n), n) by {
            lemma_edge_can_be_filtered(s, s.filtered(data, n), n);
        }
    }
    if forall|n: nat|
        n < 32 && (holds(s.vmask[0], n as int) || holds(s.vmask[1], n as int) || (s.yuv is Y && holds(
            s.vmask[2],
            n as int,
        ))) ==> edge_can_be_filtered(s, #[trigger] s.filtered(data, n), n) {
        assert forall|n: int| 0 <= n < 32 && s.selected(n) implies #[trigger] s.level_readable(n) by {
            lemma_edge_can_be_filtered(s, s.filtered(data, n as nat), n as nat);
        }
        assert forall|n: nat| n < 32 && s.selected(n as int) && s.level(n as int) != 0 implies edge_readable(
            #[trigger] s.filtered(data, n),
            s.edge_at(n as int),
            s.stridea(),
            s.strideb(),
            s.params(n as int),
        ) by {
            lemma_edge_can_be_filtered(s, s.filtered(data, n), n);
        }
        assert(s.readable(data));
    }
}

proof fn lemma_edge_can_be_filtered(s: SbEdges, data: Seq<int>, n: nat)
    requires
        n < 32,
    ensures
        s.selected(n as int) == (holds(s.vmask[0], n as int) || holds(s.vmask[1], n as int) || (s.yuv is Y
            && holds(s.vmask[2], n as int))),
        edge_can_be_filtered(s, data, n) == (s.level_readable(n as int) && (s.level(n as int) != 0
            ==> edge_readable(
            data,
            s.edge_at(n as int),
            s.stridea(),
            s.strideb(),
            s.params(n as int),
        ))),
{
    lemma_holds(s.vmask[0], n as int);
    lemma_holds(s.vmask[1], n as int);
    lemma_holds(s.vmask[2], n as int);
    lemma_edge_readable(
        data,
        s.edge_at(n as int),
        s.stridea(),
        s.strideb(),
        s.params(n as int),
    );
}

proof fn lemma_edge_readable(data: Seq<int>, base: int, stridea: int, strideb: int, ep: EdgeParams)
    ensures
        ({
            let one = line_filtered(data, base, strideb, ep);
            let two = line_filtered(one, base + stridea, strideb, ep);
            let three = line_filtered(two, base + 2 * stridea, strideb, ep);
            edge_readable(data, base, stridea, strideb, ep) == (line_readable(data, base, strideb, ep)
                && line_readable(one, base + stridea, strideb, ep) && line_readable(
                two,
                base + 2 * stridea,
                strideb,
                ep,
            ) && line_readable(three, base + 3 * stridea, strideb, ep))
        }),
{
    let zero = lines_filtered(data, base, stridea, strideb, ep, 0);
    let one = lines_filtered(data, base, stridea, strideb, ep, 1);
    let two = lines_filtered(data, base, stridea, strideb, ep, 2);
    let three = lines_filtered(data, base, stridea, strideb, ep, 3);
    assert(zero == data);
    assert(base + 0 * stridea == base);
    assert(base + 1 * stridea == base + stridea);
    assert(one == line_filtered(data, base, strideb, ep));
    assert(two == line_filtered(one, base + stridea, strideb, ep));
    assert(three == line_filtered(two, base + 2 * stridea, strideb, ep));
    if line_readable(zero, base, strideb, ep) && line_readable(one, base + stridea, strideb, ep)
        && line_readable(two, base + 2 * stridea, strideb, ep) && line_readable(
        three,
        base + 3 * stridea,
        strideb,
        ep,
    ) {
        assert forall|n: nat| n < 4 implies line_readable(
            #[trigger] lines_filtered(data, base, stridea, strideb, ep, n),
            base + n * stridea,
            strideb,
            ep,
        ) by {
            assert(n == 0 || n == 1 || n == 2 || n == 3);
        }
    }
}

} // verus!
