use rav1d_dsp::bitdepth::{BitDepth, BitDepth16, BitDepth8, Pixel, BPC};
use rav1d_dsp::loopfilter::dsp::{
    any_of_four, Arch, AsmCall, CpuFlags, FrameFilter, Isa, LoopFilterSbFn, Rav1dLoopFilterDSPContext, Target,
};
use rav1d_dsp::loopfilter::loop_filter;
use rav1d_dsp::loopfilter::readable::superblock_readable;
use rav1d_dsp::loopfilter::superblock::{
    loop_filter_sb128_c_erased, loop_filter_sb128_rust, Av1FilterLUT, HV, YUV,
};
use rav1d_dsp::loopfilter::wasm;
use rav1d_dsp::simd::{i16x8, i16x8_splat};

struct Noise(u32);

impl Noise {
    fn next(&mut self, n: u32) -> u32 {
        self.0 = self.0.wrapping_mul(1664525).wrapping_add(1013904223);
        (self.0 >> 8) % n
    }
}

fn iclip(v: i32, lo: i32, hi: i32) -> i32 {
    if v < lo {
        lo
    } else if v > hi {
        hi
    } else {
        v
    }
}

fn line(t: &[i32; 14], wd: i32, e: u8, i: u8, h: u8, bits: u32) -> [i32; 14] {
    let sh = bits - 8;
    let max = (1 << bits) - 1;
    let (f, e, i, h) = (1 << sh, (e as i32) << sh, (i as i32) << sh, (h as i32) << sh);
    let [p6, p5, p4, p3, p2, p1, p0, q0, q1, q2, q3, q4, q5, q6] = *t;
    let near = |a: i32, b: i32, t: i32| (a - b).abs() <= t;
    let mut fm = near(p1, p0, i)
        && near(q1, q0, i)
        && (p0 - q0).abs() * 2 + ((p1 - q1).abs() >> 1) <= e;
    if wd > 4 {
        fm &= near(p2, p1, i) && near(q2, q1, i);
    }
    if wd > 6 {
        fm &= near(p3, p2, i) && near(q3, q2, i);
    }
    let mut r = *t;
    if !fm {
        return r;
    }
    let mut flat_in =
        wd >= 6 && near(p2, p0, f) && near(p1, p0, f) && near(q1, q0, f) && near(q2, q0, f);
    if wd >= 8 {
        flat_in &= near(p3, p0, f) && near(q3, q0, f);
    }
    let flat_out = wd >= 16
        && near(p6, p0, f)
        && near(p5, p0, f)
        && near(p4, p0, f)
        && near(q4, q0, f)
        && near(q5, q0, f)
        && near(q6, q0, f);
    if flat_out && flat_in {
        r[1] = (7 * p6 + 2 * p5 + 2 * p4 + p3 + p2 + p1 + p0 + q0 + 8) >> 4;
        r[2] = (5 * p6 + 2 * p5 + 2 * p4 + 2 * p3 + p2 + p1 + p0 + q0 + q1 + 8) >> 4;
        r[3] = (4 * p6 + p5 + 2 * p4 + 2 * p3 + 2 * p2 + p1 + p0 + q0 + q1 + q2 + 8) >> 4;
        r[4] = (3 * p6 + p5 + p4 + 2 * p3 + 2 * p2 + 2 * p1 + p0 + q0 + q1 + q2 + q3 + 8) >> 4;
        r[5] = (2 * p6 + p5 + p4 + p3 + 2 * p2 + 2 * p1 + 2 * p0 + q0 + q1 + q2 + q3 + q4 + 8) >> 4;
        r[6] = (p6 + p5 + p4 + p3 + p2 + 2 * p1 + 2 * p0 + 2 * q0 + q1 + q2 + q3 + q4 + q5 + 8) >> 4;
        r[7] = (p5 + p4 + p3 + p2 + p1 + 2 * p0 + 2 * q0 + 2 * q1 + q2 + q3 + q4 + q5 + q6 + 8) >> 4;
        r[8] = (p4 + p3 + p2 + p1 + p0 + 2 * q0 + 2 * q1 + 2 * q2 + q3 + q4 + q5 + 2 * q6 + 8) >> 4;
        r[9] = (p3 + p2 + p1 + p0 + q0 + 2 * q1 + 2 * q2 + 2 * q3 + q4 + q5 + 3 * q6 + 8) >> 4;
        r[10] = (p2 + p1 + p0 + q0 + q1 + 2 * q2 + 2 * q3 + 2 * q4 + q5 + 4 * q6 + 8) >> 4;
        r[11] = (p1 + p0 + q0 + q1 + q2 + 2 * q3 + 2 * q4 + 2 * q5 + 5 * q6 + 8) >> 4;
        r[12] = (p0 + q0 + q1 + q2 + q3 + 2 * q4 + 2 * q5 + 7 * q6 + 8) >> 4;
    } else if wd >= 8 && flat_in {
        r[4] = (3 * p3 + 2 * p2 + p1 + p0 + q0 + 4) >> 3;
        r[5] = (2 * p3 + p2 + 2 * p1 + p0 + q0 + q1 + 4) >> 3;
        r[6] = (p3 + p2 + p1 + 2 * p0 + q0 + q1 + q2 + 4) >> 3;
        r[7] = (p2 + p1 + p0 + 2 * q0 + q1 + q2 + q3 + 4) >> 3;
        r[8] = (p1 + p0 + q0 + 2 * q1 + q2 + 2 * q3 + 4) >> 3;
        r[9] = (p0 + q0 + q1 + 2 * q2 + 3 * q3 + 4) >> 3;
    } else if wd == 6 && flat_in {
        r[5] = (3 * p2 + 2 * p1 + 2 * p0 + q0 + 4) >> 3;
        r[6] = (p2 + 2 * p1 + 2 * p0 + 2 * q0 + q1 + 4) >> 3;
        r[7] = (p1 + 2 * p0 + 2 * q0 + 2 * q1 + q2 + 4) >> 3;
        r[8] = (p0 + 2 * q0 + 2 * q1 + 3 * q2 + 4) >> 3;
    } else {
        let (lo, hi) = (-128 << sh, (128 << sh) - 1);
        let hev = (p1 - p0).abs() > h || (q1 - q0).abs() > h;
        let f = if hev { iclip(p1 - q1, lo, hi) } else { 0 };
        let f = iclip(3 * (q0 - p0) + f, lo, hi);
        let f1 = (f + 4).min(hi) >> 3;
        let f2 = (f + 3).min(hi) >> 3;
        r[6] = iclip(p0 + f2, 0, max);
        r[7] = iclip(q0 - f1, 0, max);
        if !hev {
            let f = (f1 + 1) >> 1;
            r[5] = iclip(p1 + f, 0, max);
            r[8] = iclip(q1 - f, 0, max);
        }
    }
    r
}

/// A plane with four copies of a line of fourteen taps, one under the other, and the line after the
/// filter.
fn filter_one<BD: BitDepth>(t: [i32; 14], wd: i32, e: u8, i: u8, h: u8, bd: BD) -> Vec<i32> {
    let mut plane: Vec<BD::Pixel> = Vec::new();
    for _ in 0..4 {
        for v in t {
            plane.push(<BD::Pixel as Pixel>::from_i32(v));
        }
    }
    loop_filter(&mut plane, 7, e, i, h, 14, 1, wd, bd);
    let all: Vec<i32> = plane.iter().map(|v| v.as_i32()).collect();
    for l in 1..4 {
        assert_eq!(all[..14], all[14 * l..14 * l + 14]);
    }
    all[..14].to_vec()
}

fn step(p: i32, q: i32) -> [i32; 14] {
    [p, p, p, p, p, p, p, q, q, q, q, q, q, q]
}

#[test]
fn narrow_filter_smooths_four_pixels() {
    let r = filter_one(step(10, 20), 4, 40, 10, 0, BitDepth8);
    assert_eq!(r, [10, 10, 10, 10, 10, 12, 14, 16, 18, 20, 20, 20, 20, 20]);
}

#[test]
fn narrow_filter_changes_two_pixels_where_the_variance_is_high() {
    let t = [10, 10, 10, 10, 10, 12, 10, 20, 22, 20, 20, 20, 20, 20];
    // clip(12 - 22 + 30) = 20; (20 + 4) >> 3 = 3; (20 + 3) >> 3 = 2.
    let r = filter_one(t, 4, 40, 10, 1, BitDepth8);
    assert_eq!(r, [10, 10, 10, 10, 10, 12, 12, 17, 22, 20, 20, 20, 20, 20]);
}

#[test]
fn width_six_averages_five_neighbours() {
    let r = filter_one(step(100, 110), 6, 100, 1, 0, BitDepth8);
    assert_eq!(
        r,
        [100, 100, 100, 100, 100, 101, 104, 106, 109, 110, 110, 110, 110, 110]
    );
}

#[test]
fn width_eight_averages_seven_neighbours() {
    let r = filter_one(step(100, 110), 8, 100, 1, 0, BitDepth8);
    assert_eq!(
        r,
        [100, 100, 100, 100, 101, 103, 104, 106, 108, 109, 110, 110, 110, 110]
    );
}

#[test]
fn width_sixteen_averages_thirteen_neighbours() {
    let r = filter_one(step(100, 110), 16, 100, 1, 0, BitDepth8);
    assert_eq!(
        r,
        [100, 101, 101, 102, 103, 103, 104, 106, 107, 108, 108, 109, 109, 110]
    );
}

#[test]
fn thresholds_grow_with_the_bit_depth() {
    let bd = BitDepth16 { bitdepth_max: 1023 };
    let r = filter_one(step(400, 440), 16, 25, 1, 0, bd);
    assert_eq!(
        r,
        [400, 403, 405, 408, 410, 413, 418, 423, 428, 430, 433, 435, 438, 440]
    );
    assert_eq!(filter_one(step(400, 440), 16, 24, 1, 0, bd), step(400, 440));
}

#[test]
fn sharp_step_is_kept() {
    for wd in [4, 6, 8, 16] {
        assert_eq!(filter_one(step(10, 60), wd, 99, 255, 255, BitDepth8), step(10, 60));
    }
}

#[test]
fn flat_line_is_kept() {
    for wd in [4, 6, 8, 16] {
        for c in [0, 1, 128, 255] {
            assert_eq!(filter_one(step(c, c), wd, 0, 0, 0, BitDepth8), step(c, c));
        }
    }
}

#[test]
fn narrow_filter_limits_pixels() {
    let mut noise = Noise(3);
    for _ in 0..500 {
        let mut t = [0; 14];
        for v in &mut t {
            *v = if noise.next(2) == 0 { 0 } else { 255 };
        }
        let r = filter_one(t, 4, 255, 255, 255, BitDepth8);
        assert!(r.iter().all(|v| (0..=255).contains(v)));
    }
}

#[test]
fn scalar_filter_follows_the_formulas() {
    let mut noise = Noise(1);
    for round in 0..4000 {
        let bits = [8, 10, 12][round % 3];
        let spread = 1 + noise.next(if round % 2 == 0 { 3 } else { 40 });
        let base = noise.next((1 << bits) - spread - 60);
        let jump = noise.next(60);
        let mut t = [0i32; 14];
        for (j, v) in t.iter_mut().enumerate() {
            *v = (base + noise.next(spread) + if j >= 7 { jump } else { 0 }) as i32;
        }
        let (e, i, h) = (noise.next(256) as u8, noise.next(64) as u8, noise.next(16) as u8);
        for wd in [4, 5, 6, 7, 8, 12, 16] {
            let want = line(&t, wd, e, i, h, bits);
            let got = match bits {
                8 => filter_one(t, wd, e, i, h, BitDepth8),
                10 => filter_one(t, wd, e, i, h, BitDepth16 { bitdepth_max: 1023 }),
                _ => filter_one(t, wd, e, i, h, BitDepth16 { bitdepth_max: 4095 }),
            };
            assert_eq!(got, want, "wd {wd} e {e} i {i} h {h} bits {bits} {t:?}");
        }
    }
}

#[test]
fn lanes_agree_with_the_scalar_filter() {
    let mut noise = Noise(2);
    const STRIDE: usize = 20;
    for round in 0..3000 {
        let spread = 1 + noise.next(if round % 2 == 0 { 3 } else { 60 });
        let base = noise.next(180);
        let jump = noise.next(20);
        let mut plane = vec![0u8; STRIDE * 20];
        for (x, v) in plane.iter_mut().enumerate() {
            let behind = x % STRIDE >= 8 && x / STRIDE >= 8;
            *v = (base + noise.next(spread)).min(255) as u8;
            if behind {
                *v = v.saturating_add(jump as u8);
            }
        }
        let at = 8 * STRIDE + 8;
        let (e, i, h) = (noise.next(256) as u8, noise.next(64) as u8, noise.next(16) as u8);
        for wd in [4, 6, 8, 16] {
            for (stridea, strideb) in [(1, STRIDE as isize), (STRIDE as isize, 1)] {
                let mut one_by_one = plane.clone();
                let mut at_once = plane.clone();
                loop_filter(&mut one_by_one, at, e, i, h, stridea, strideb, wd, BitDepth8);
                wasm::loop_filter(&mut at_once, at, e, i, h, stridea, strideb, wd);
                assert_eq!(one_by_one, at_once);
            }
        }
    }
}

#[test]
fn edge_changes_only_near_taps() {
    const STRIDE: usize = 20;
    let mut noise = Noise(4);
    let plane: Vec<u8> = (0..STRIDE * 20)
        .map(|x| (if x % STRIDE < 8 { 100 } else { 110 }) + noise.next(2) as u8)
        .collect();
    let at = 8 * STRIDE + 8;
    for (wd, reach) in [(4, 2), (6, 2), (8, 3), (16, 6)] {
        let mut after = plane.clone();
        loop_filter(&mut after, at, 255, 255, 0, STRIDE as isize, 1, wd, BitDepth8);
        assert_ne!(plane, after);
        for x in 0..plane.len() {
            let (col, row) = (x % STRIDE, x / STRIDE);
            let near = (8..12).contains(&row) && col + reach >= 8 && col < 8 + reach;
            if !near {
                assert_eq!(plane[x], after[x]);
            }
        }
    }
}

#[test]
fn lanes_leave_a_plane_that_is_not_filtered() {
    let mut plane: Vec<u8> = (0..400).map(|x| if x % 20 < 8 { 0 } else { 200 }).collect();
    let before = plane.clone();
    wasm::loop_filter(&mut plane, 8 * 20 + 8, 10, 10, 10, 20, 1, 16);
    assert_eq!(plane, before);
}

#[test]
fn taps_are_loaded_in_both_orientations() {
    let plane: Vec<u8> = (0..=255).collect();
    let rows = wasm::load_rows(&plane, 7 * 16, 16, 7);
    let cols = wasm::load_cols(&plane, 7, 16, 7);
    for j in 0..14 {
        let r: Vec<i16> = (0..4).map(|l| (j * 16 + l) as i16).collect();
        let c: Vec<i16> = (0..4).map(|l| (l * 16 + j) as i16).collect();
        assert_eq!(rows.v[j].lanes[..4], r[..]);
        assert_eq!(cols.v[j].lanes[..4], c[..]);
    }
    assert_eq!(rows.p(6).lanes, rows.v[0].lanes);
    assert_eq!(rows.p(0).lanes, rows.v[6].lanes);
    assert_eq!(rows.q(0).lanes, rows.v[7].lanes);
    assert_eq!(rows.q(6).lanes, rows.v[13].lanes);
    let few = wasm::load_cols(&plane, 40, 16, 2);
    assert_eq!(few.p(1).lanes, [38, 54, 70, 86, 0, 0, 0, 0]);
    assert_eq!(few.p(2).lanes, [0; 8]);
}

#[test]
fn lane_helpers_have_exact_values() {
    let a = i16x8(0, 10, 255, 3, 0, 0, 0, 0);
    let b = i16x8(5, 4, 0, 3, 1, 2, 3, 4);
    assert_eq!(wasm::absdiff(a, b).lanes, [5, 6, 255, 0, 1, 2, 3, 4]);
    assert_eq!(
        wasm::le_thresh(a, b, i16x8_splat(5)).lanes,
        [-1, 0, 0, -1, -1, -1, -1, -1]
    );
    assert_eq!(wasm::shr_rnd(a, 4, 3).lanes, [0, 1, 32, 0, 0, 0, 0, 0]);
    assert_eq!(wasm::sum(&[a, b, b]).lanes, [10, 18, 255, 9, 2, 4, 6, 8]);
    assert_eq!(wasm::sum(&[b]).lanes, b.lanes);
}

fn lut() -> Av1FilterLUT {
    let mut lut = Av1FilterLUT { e: [0; 64], i: [0; 64] };
    for l in 0..64 {
        lut.e[l] = (3 * l) as u8 + 20;
        lut.i[l] = l as u8;
    }
    lut
}

const SB_STRIDE: usize = 160;

fn sb_plane() -> Vec<u8> {
    let mut noise = Noise(7);
    (0..SB_STRIDE * 150)
        .map(|x| {
            let (col, row) = (x % SB_STRIDE, x / SB_STRIDE);
            (100 + 5 * ((col / 8 + row / 8) % 2) as u32 + noise.next(2)) as u8
        })
        .collect()
}

#[test]
fn superblock_filters_the_selected_edges() {
    let lut = lut();
    let base = 16 * SB_STRIDE + 16;
    let b4 = 40usize;
    let mut lvl = vec![0u8; 4 * b4 * 40];
    let lvl_at = 4 * (b4 + 1);
    for n in 0..32 {
        lvl[lvl_at + 4 * n] = 20 + n as u8;
        lvl[lvl_at + 4 * n * b4] = 20 + n as u8;
    }
    // The level of the block before the edge counts where that of the block behind it is zero.
    lvl[lvl_at + 4 * 4] = 0;
    lvl[lvl_at + 4 * 4 - 4 * b4] = 33;
    lvl[lvl_at + 4 * 4 * b4] = 0;
    lvl[lvl_at + 4 * 4 * b4 - 4] = 33;
    // Both are zero: the edge is left alone.
    lvl[lvl_at + 4 * 6] = 0;
    lvl[lvl_at + 4 * 6 * b4] = 0;
    let vmask = [0x8000_0055, 0x0000_0014, 0x0000_0004];
    for (hv, yuv, widths) in [
        (HV::H, YUV::Y, [4, 16, 8, 4]),
        (HV::V, YUV::Y, [4, 16, 8, 4]),
        (HV::H, YUV::UV, [4, 6, 6, 4]),
        (HV::V, YUV::UV, [4, 6, 6, 4]),
    ] {
        let mut got = sb_plane();
        let mut want = sb_plane();
        let stride = SB_STRIDE as isize;
        let (stridea, strideb) = match hv {
            HV::H => (stride, 1),
            HV::V => (1, stride),
        };
        for (n, level, wd) in [
            (0usize, 20u8, widths[0]),
            (2, 22, widths[1]),
            (4, 33, widths[2]),
            (31, 51, widths[3]),
        ] {
            let at = base + 4 * n * stridea as usize;
            let (e, i, h) = (lut.e[level as usize], lut.i[level as usize], level >> 4);
            loop_filter(&mut want, at, e, i, h, stridea, strideb, wd, BitDepth8);
        }
        loop_filter_sb128_rust(
            hv, yuv, &mut got, base, stride, &vmask, &lvl, lvl_at, b4, &lut, BitDepth8,
        );
        assert_eq!(got, want);
        assert_ne!(got, sb_plane());
    }
}

#[test]
fn superblock_ignores_the_third_mask_in_chroma() {
    let lut = lut();
    let mut plane = sb_plane();
    let lvl = vec![30u8; 4 * 40 * 40];
    loop_filter_sb128_rust(
        HV::V,
        YUV::UV,
        &mut plane,
        16 * SB_STRIDE + 16,
        SB_STRIDE as isize,
        &[0, 0, u32::MAX],
        &lvl,
        400,
        40,
        &lut,
        BitDepth8,
    );
    assert_eq!(plane, sb_plane());
}

#[test]
fn idle_superblock_is_kept() {
    let lut = lut();
    let base = 16 * SB_STRIDE + 16;
    let stride = SB_STRIDE as isize;
    let lvl = vec![0u8; 4 * 40 * 40];
    for vmask in [[0, 0, 0], [u32::MAX; 3]] {
        for hv in [HV::H, HV::V] {
            let mut plane = sb_plane();
            loop_filter_sb128_rust(
                hv, YUV::Y, &mut plane, base, stride, &vmask, &lvl, 400, 40, &lut, BitDepth8,
            );
            assert_eq!(plane, sb_plane());
        }
    }
}

#[test]
fn bit_depth_comes_from_the_largest_pixel() {
    let lut = lut();
    let base = 16 * SB_STRIDE + 16;
    let stride = SB_STRIDE as isize;
    let lvl = vec![40u8; 4 * 40 * 40];
    let wide: Vec<u16> = sb_plane().into_iter().map(|v| 4 * v as u16).collect();
    let mut a = wide.clone();
    let mut b = wide.clone();
    loop_filter_sb128_c_erased::<BitDepth16>(
        HV::H, YUV::Y, &mut a, base, stride, &[!0, 0, 0], &lvl, 400, 40, &lut, 1023,
    );
    let bd = BitDepth16 { bitdepth_max: 1023 };
    loop_filter_sb128_rust(
        HV::H, YUV::Y, &mut b, base, stride, &[!0, 0, 0], &lvl, 400, 40, &lut, bd,
    );
    assert_eq!(bd.bitdepth(), 10);
    assert_eq!(a, b);
    assert_ne!(a, wide);
}

#[test]
fn numbers_of_directions_and_planes() {
    assert_eq!(HV::from_repr(0), Some(HV::H));
    assert_eq!(HV::from_repr(1), Some(HV::V));
    assert_eq!(HV::from_repr(2), None);
    assert_eq!(YUV::from_repr(0), Some(YUV::Y));
    assert_eq!(YUV::from_repr(1), Some(YUV::UV));
    assert_eq!(YUV::from_repr(2), None);
}

#[test]
fn bit_depths_clip_to_their_pixels() {
    assert_eq!(BitDepth8.bitdepth(), 8);
    assert_eq!(BitDepth8.iclip_pixel(-1), 0);
    assert_eq!(BitDepth8.iclip_pixel(256), 255);
    let bd = BitDepth16::from_c(4095);
    assert_eq!(bd.bitdepth(), 12);
    assert_eq!(bd.iclip_pixel(-1), 0);
    assert_eq!(bd.iclip_pixel(4096), 4095);
    assert_eq!(bd.iclip_pixel(17), 17);
    assert_eq!(BitDepth8::pixel_bpc(), BPC::BPC8);
    assert_eq!(BitDepth16::pixel_bpc(), BPC::BPC16);
}

const NONE: CpuFlags = CpuFlags {
    ssse3: false,
    avx2: false,
    avx512icl: false,
    slow_gather: false,
    neon: false,
};

fn isas(bpc: BPC, flags: CpuFlags, assembly: bool, arch: Arch) -> [Option<Isa>; 4] {
    let (dsp, kind) = Rav1dLoopFilterDSPContext::new(bpc, flags, Target { assembly, arch });
    assert!(dsp.debug_assert_kind(bpc, kind));
    let sb = dsp.loop_filter_sb();
    let slots = [
        (&sb.y.h, HV::H, YUV::Y),
        (&sb.y.v, HV::V, YUV::Y),
        (&sb.uv.h, HV::H, YUV::UV),
        (&sb.uv.v, HV::V, YUV::UV),
    ];
    slots.map(|(slot, hv, yuv)| {
        assert!(dsp.contains(slot));
        assert!(std::ptr::eq(slot, sb.get(hv, yuv)));
        match *slot {
            LoopFilterSbFn::Rust { bpc: b, hv: d, yuv: p } => {
                assert_eq!((b, d, p), (bpc, hv, yuv));
                None
            }
            LoopFilterSbFn::Asm { bpc: b, hv: d, yuv: p, isa } => {
                assert_eq!((b, d, p), (bpc, hv, yuv));
                Some(isa)
            }
        }
    })
}

#[test]
fn slots_follow_the_processor() {
    let ssse3 = CpuFlags { ssse3: true, ..NONE };
    let avx2 = CpuFlags { avx2: true, ..ssse3 };
    let avx512 = CpuFlags { avx512icl: true, ..avx2 };
    let slow = CpuFlags { slow_gather: true, ..avx512 };
    let neon = CpuFlags { neon: true, ..NONE };
    for bpc in [BPC::BPC8, BPC::BPC16] {
        assert_eq!(isas(bpc, NONE, true, Arch::X86_64), [None; 4]);
        assert_eq!(isas(bpc, ssse3, true, Arch::X86_64), [Some(Isa::Ssse3); 4]);
        assert_eq!(isas(bpc, avx2, true, Arch::X86_64), [Some(Isa::Avx2); 4]);
        assert_eq!(isas(bpc, avx512, true, Arch::X86_64), [Some(Isa::Avx512Icl); 4]);
        assert_eq!(
            isas(bpc, slow, true, Arch::X86_64),
            [
                Some(Isa::Avx2),
                Some(Isa::Avx512Icl),
                Some(Isa::Avx2),
                Some(Isa::Avx512Icl)
            ]
        );
        assert_eq!(isas(bpc, avx512, true, Arch::X86), [Some(Isa::Ssse3); 4]);
        let no_ssse3 = CpuFlags { ssse3: false, ..avx512 };
        assert_eq!(isas(bpc, no_ssse3, true, Arch::X86_64), [None; 4]);
        assert_eq!(isas(bpc, neon, true, Arch::Arm), [Some(Isa::Neon); 4]);
        assert_eq!(isas(bpc, neon, true, Arch::Aarch64), [Some(Isa::Neon); 4]);
        assert_eq!(isas(bpc, avx512, true, Arch::Aarch64), [None; 4]);
        assert_eq!(isas(bpc, neon, true, Arch::X86_64), [None; 4]);
        assert_eq!(isas(bpc, avx512, false, Arch::X86_64), [None; 4]);
        assert_eq!(isas(bpc, neon, true, Arch::Other), [None; 4]);
    }
}

#[test]
fn check_of_the_kind_sees_foreign_slots() {
    let ssse3 = CpuFlags { ssse3: true, ..NONE };
    let target = Target { assembly: true, arch: Arch::X86 };
    let (portable, rust) = Rav1dLoopFilterDSPContext::new(BPC::BPC8, NONE, target);
    let (fast, tuned) = Rav1dLoopFilterDSPContext::new(BPC::BPC8, ssse3, target);
    assert!(portable.debug_assert_kind(BPC::BPC8, rust));
    assert!(fast.debug_assert_kind(BPC::BPC8, tuned));
    assert!(!portable.debug_assert_kind(BPC::BPC8, tuned));
    assert!(!fast.debug_assert_kind(BPC::BPC8, rust));
    assert!(!portable.debug_assert_kind(BPC::BPC16, rust));
}

#[test]
fn slots_are_told_by_their_addresses() {
    let target = Target { assembly: false, arch: Arch::Other };
    let (dsp, _) = Rav1dLoopFilterDSPContext::new(BPC::BPC8, NONE, target);
    let (twin, _) = Rav1dLoopFilterDSPContext::new(BPC::BPC8, NONE, target);
    for yuv in [YUV::Y, YUV::UV] {
        for hv in [HV::H, HV::V] {
            let slot = dsp.loop_filter_sb().get(hv, yuv);
            assert!(dsp.contains(slot));
            let copy = *slot;
            assert_eq!(copy, *slot);
            assert!(!dsp.contains(&copy));
            assert_eq!(slot, twin.loop_filter_sb().get(hv, yuv));
            assert!(!twin.contains(slot));
        }
    }
}

#[test]
fn any_answer_of_four_counts() {
    assert!(!any_of_four([false; 4]));
    for i in 0..4 {
        let mut answers = [false; 4];
        answers[i] = true;
        assert!(any_of_four(answers));
    }
    assert!(any_of_four([true; 4]));
}

#[test]
fn call_runs_the_portable_filter() {
    let lut = lut();
    let target = Target { assembly: false, arch: Arch::Other };
    let (dsp, kind) = Rav1dLoopFilterDSPContext::new(BPC::BPC8, NONE, target);
    let f = FrameFilter { dsp: &dsp, kind, b4_stride: 40, lim_lut: &lut, bitdepth_max: 255 };
    let base = 16 * SB_STRIDE + 16;
    let stride = SB_STRIDE as isize;
    let lvl = vec![40u8; 4 * 40 * 40];
    let mask = [0xffff_ffff, 0x00ff_0000, 0x0f00_0000];
    let mut got = sb_plane();
    let rest = LoopFilterSbFn::call::<BitDepth8>(
        &f, HV::V, YUV::Y, &mut got, base, stride, &mask, &lvl, 400, 32,
    );
    assert_eq!(rest, None);
    let mut want = sb_plane();
    loop_filter_sb128_rust(
        HV::V, YUV::Y, &mut want, base, stride, &mask, &lvl, 400, 40, &lut, BitDepth8,
    );
    assert_eq!(got, want);
    assert_ne!(got, sb_plane());
}

#[test]
fn call_leaves_assembly_to_the_caller() {
    let lut = lut();
    let target = Target { assembly: true, arch: Arch::Aarch64 };
    let flags = CpuFlags { neon: true, ..NONE };
    let mut plane: Vec<u16> = vec![7; 64];
    let (dsp, kind) = Rav1dLoopFilterDSPContext::new(BPC::BPC16, flags, target);
    let f = FrameFilter { dsp: &dsp, kind, b4_stride: -40, lim_lut: &lut, bitdepth_max: 1023 };
    let rest = LoopFilterSbFn::call::<BitDepth16>(
        &f, HV::H, YUV::UV, &mut plane, 0, 8, &[1, 2, 3], &[0; 4], 4, 32,
    );
    assert_eq!(
        rest,
        Some(AsmCall {
            hv: HV::H,
            yuv: YUV::UV,
            isa: Isa::Neon,
            b4_stride: -40,
            w: 32,
            bitdepth_max: Some(1023)
        })
    );
    assert_eq!(plane, vec![7; 64]);
    let mut plane: Vec<u8> = vec![7; 64];
    let (dsp, kind) = Rav1dLoopFilterDSPContext::new(BPC::BPC8, flags, target);
    let f = FrameFilter { dsp: &dsp, kind, b4_stride: 40, lim_lut: &lut, bitdepth_max: 255 };
    let rest = LoopFilterSbFn::call::<BitDepth8>(
        &f, HV::V, YUV::Y, &mut plane, 0, 8, &[1, 2, 3], &[0; 4], 0, 16,
    );
    assert_eq!(rest.map(|c| (c.w, c.bitdepth_max)), Some((16, None)));
}

#[test]
fn edges_must_lie_inside_the_plane() {
    let lut = lut();
    let readable = |plane: &[u8], base: usize, vmask: [u32; 3], lvl: &[u8], lvl_at: usize| {
        let (hv, yuv) = (HV::H, YUV::Y);
        superblock_readable(hv, yuv, plane, base, 20, &vmask, lvl, lvl_at, 10, &lut, BitDepth8)
    };
    let lvl = [5u8; 400];
    let flat = [50u8; 1000];
    // Four lines of two taps on each side.
    assert!(readable(&flat[..64], 2, [1, 0, 0], &lvl, 4));
    assert!(!readable(&flat[..63], 2, [1, 0, 0], &lvl, 4));
    assert!(!readable(&flat[..64], 1, [1, 0, 0], &lvl, 4));
    // Seven on each side where the wide filter may apply.
    assert!(readable(&flat[..74], 7, [0, 0, 1], &lvl, 4));
    assert!(!readable(&flat[..73], 7, [0, 0, 1], &lvl, 4));
    assert!(!readable(&flat[..74], 6, [0, 0, 1], &lvl, 4));
    // Four where no line is filtered.
    let steep: Vec<u8> = (0..71).map(|x| if x % 2 == 0 { 0 } else { 255 }).collect();
    assert!(readable(&steep[..68], 4, [0, 0, 1], &lvl, 4));
    assert!(!readable(&steep[..67], 4, [0, 0, 1], &lvl, 4));
    assert!(!readable(&steep[..68], 3, [0, 0, 1], &lvl, 4));
    // Nothing is asked of edges that are not selected or have no level.
    assert!(readable(&[], 0, [0, 0, 0], &[], 0));
    assert!(readable(&[], 0, [1, 0, 0], &[0; 8], 4));
    // The levels must be there, and known to the thresholds.
    assert!(!readable(&flat, 100, [1, 0, 0], &[0; 8], 3));
    assert!(!readable(&flat, 100, [2, 0, 0], &lvl[..44], 4));
    assert!(readable(&flat, 100, [2, 0, 0], &lvl[..45], 4));
    assert!(!readable(&flat, 100, [1, 0, 0], &[64; 8], 4));
}

#[test]
fn largest_pixel_does_not_matter_at_eight_bits() {
    let lut = lut();
    let lvl = vec![40u8; 4 * 40 * 40];
    let run = |bitdepth_max: i32| {
        let mut plane = sb_plane();
        loop_filter_sb128_c_erased::<BitDepth8>(
            HV::H,
            YUV::Y,
            &mut plane,
            16 * SB_STRIDE + 16,
            SB_STRIDE as isize,
            &[!0, 0, 0],
            &lvl,
            400,
            40,
            &lut,
            bitdepth_max,
        );
        plane
    };
    assert_ne!(run(255), sb_plane());
    assert_eq!(run(-1), run(255));
    assert_eq!(run(i32::MAX), run(255));
}

#[test]
fn lanes_agree_where_lines_share_taps_that_stay() {
    let mut noise = Noise(5);
    for (wd, span) in [(4, 4), (6, 5), (8, 7), (16, 13)] {
        for stridea in [span, -span] {
            for _ in 0..300 {
                let plane: Vec<u8> = (0..100).map(|_| 100 + noise.next(3) as u8).collect();
                let mut one_by_one = plane.clone();
                let mut at_once = plane.clone();
                loop_filter(&mut one_by_one, 50, 60, 20, 1, stridea, 1, wd, BitDepth8);
                wasm::loop_filter(&mut at_once, 50, 60, 20, 1, stridea, 1, wd);
                assert_eq!(one_by_one, at_once);
            }
        }
    }
}

#[test]
fn flat_line_of_an_edge_is_kept() {
    let mut noise = Noise(6);
    for (wd, read) in [(4, 2usize), (6, 3), (8, 4), (16, 7)] {
        for _ in 0..100 {
            let mut plane: Vec<u8> = (0..4 * 20).map(|_| 100 + noise.next(30) as u8).collect();
            for x in 10 - read..10 + read {
                plane[2 * 20 + x] = 117;
            }
            let before = plane.clone();
            loop_filter(&mut plane, 10, 255, 255, 0, 20, 1, wd, BitDepth8);
            assert_eq!(plane[40..60], before[40..60]);
        }
    }
}

#[test]
fn wide_filters_are_symmetric() {
    let mut noise = Noise(8);
    for wd in [6, 8, 16] {
        for _ in 0..200 {
            let mut t = [0i32; 14];
            for (j, v) in t.iter_mut().enumerate() {
                *v = if j < 7 { 90 } else { 110 };
                if j != 6 && j != 7 {
                    *v += noise.next(2) as i32;
                }
            }
            let mut u = t;
            u.reverse();
            let a = filter_one(t, wd, 255, 255, 0, BitDepth8);
            let mut b = filter_one(u, wd, 255, 255, 0, BitDepth8);
            b.reverse();
            assert_eq!(a, b);
            assert_ne!(a, t);
        }
    }
}
