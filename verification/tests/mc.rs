use rav1d_dsp::mc::warp::{dot4, transpose8x8_i16, warp_affine_8x8, warp_affine_8x8t};
use rav1d_dsp::mc::wasm::{
    h8, mac, prep, prep_8tap, put_8tap, round_pack_i16, store8_i16, store8_u8, v8_u8, Mid, Taps,
};
use rav1d_dsp::simd::{i16x8, i16x8_splat, i32x4_splat, I16x8, I32x4};

struct Noise(u32);

impl Noise {
    fn next(&mut self, n: u32) -> u32 {
        self.0 = self.0.wrapping_mul(1664525).wrapping_add(1013904223);
        (self.0 >> 8) % n
    }
}

const SHARP: [i8; 8] = [-2, 6, -12, 36, 46, -12, 4, -2];
const HALF: [i8; 8] = [0, 2, -14, 44, 44, -14, 2, 0];
const ITSELF: [i8; 8] = [0, 0, 0, 64, 0, 0, 0, 0];

fn noisy(noise: &mut Noise, n: usize) -> Vec<u8> {
    (0..n).map(|_| noise.next(256) as u8).collect()
}

fn dot(f: &[i8; 8], v: impl Fn(usize) -> i32) -> i32 {
    (0..8).map(|k| f[k] as i32 * v(k)).sum()
}

struct Source<'a> {
    src: &'a [u8],
    at: usize,
    stride: isize,
}

impl Source<'_> {
    fn px(&self, x: isize, y: isize) -> i32 {
        self.src[(self.at as isize + y * self.stride + x) as usize] as i32
    }

    fn row_sum(&self, f: &[i8; 8], x: isize, y: isize) -> i32 {
        dot(f, |k| self.px(x + k as isize - 3, y))
    }

    fn mid(&self, f: &[i8; 8], x: isize, y: isize) -> i32 {
        (self.row_sum(f, x, y) + 2) >> 2
    }

    fn put(&self, fh: Option<&[i8; 8]>, fv: Option<&[i8; 8]>, x: isize, y: isize) -> u8 {
        let v = match (fh, fv) {
            (Some(fh), Some(fv)) => {
                (dot(fv, |k| self.mid(fh, x, y + k as isize - 3)) + 512) >> 10
            }
            (Some(fh), None) => (self.row_sum(fh, x, y) + 34) >> 6,
            (None, Some(fv)) => (dot(fv, |k| self.px(x, y + k as isize - 3)) + 32) >> 6,
            (None, None) => self.px(x, y),
        };
        v.clamp(0, 255) as u8
    }

    fn prep(&self, fh: Option<&[i8; 8]>, fv: Option<&[i8; 8]>, x: isize, y: isize) -> i16 {
        let v = match (fh, fv) {
            (Some(fh), Some(fv)) => {
                (dot(fv, |k| self.mid(fh, x, y + k as isize - 3)) + 32) >> 6
            }
            (Some(fh), None) => (self.row_sum(fh, x, y) + 2) >> 2,
            (None, Some(fv)) => (dot(fv, |k| self.px(x, y + k as isize - 3)) + 2) >> 2,
            (None, None) => self.px(x, y) << 4,
        };
        v as i16
    }
}

#[test]
fn predictions_follow_the_formulas() {
    let mut noise = Noise(21);
    let src = noisy(&mut noise, 160 * 160);
    let source = Source { src: &src, at: 8 * 160 + 8, stride: 160 };
    for (w, h) in [(8, 4), (16, 8), (64, 16), (128, 128)] {
        for fh in [None, Some(&SHARP), Some(&HALF)] {
            for fv in [None, Some(&SHARP), Some(&HALF)] {
                let mut dst = vec![1u8; 140 * 130];
                let done = put_8tap(&mut dst, 3, 140, &src, source.at, 160, w, h, fh, fv);
                assert_eq!(done, fh.is_some() || fv.is_some());
                for (i, v) in dst.iter().enumerate() {
                    let inside = i >= 3 && (i - 3) % 140 < w && (i - 3) / 140 < h;
                    let want = if done && inside {
                        source.put(fh, fv, ((i - 3) % 140) as isize, ((i - 3) / 140) as isize)
                    } else {
                        1
                    };
                    assert_eq!(*v, want);
                }
                let mut tmp = vec![-1i16; w * h + 8];
                let done = prep_8tap(&mut tmp, &src, source.at, 160, w, h, fh, fv);
                assert_eq!(done, fh.is_some() || fv.is_some());
                for (i, v) in tmp.iter().enumerate() {
                    let want = if done && i < w * h {
                        source.prep(fh, fv, (i % w) as isize, (i / w) as isize)
                    } else {
                        -1
                    };
                    assert_eq!(*v, want);
                }
            }
        }
    }
}

#[test]
fn rows_may_run_upwards() {
    let mut noise = Noise(22);
    let src = noisy(&mut noise, 40 * 40);
    let source = Source { src: &src, at: 20 * 40 + 8, stride: -40 };
    let mut dst = vec![0u8; 8 * 8];
    assert!(put_8tap(&mut dst, 56, -8, &src, source.at, -40, 8, 8, Some(&SHARP), Some(&HALF)));
    for y in 0..8 {
        for x in 0..8 {
            let want = source.put(Some(&SHARP), Some(&HALF), x as isize, y as isize);
            assert_eq!(dst[56 - 8 * y + x], want);
        }
    }
}

#[test]
fn copy_is_left_to_the_caller() {
    let src = vec![200u8; 64];
    let mut dst = vec![3u8; 64];
    assert!(!put_8tap(&mut dst, 0, 8, &src, 0, 8, 8, 8, None, None));
    assert_eq!(dst, vec![3u8; 64]);
    let mut tmp = vec![3i16; 64];
    assert!(!prep_8tap(&mut tmp, &src, 0, 8, 8, 8, None, None));
    assert_eq!(tmp, vec![3i16; 64]);
    // Nothing is asked of the planes either.
    assert!(!prep_8tap(&mut [], &[], 0, 8, 8, 8, None, None));
}

#[test]
fn copied_block_has_four_bits_more() {
    let mut noise = Noise(26);
    let src = noisy(&mut noise, 40 * 20);
    let source = Source { src: &src, at: 3 * 40 + 5, stride: 40 };
    for (w, h) in [(8, 4), (32, 16)] {
        let mut tmp = vec![-1i16; w * h + 8];
        prep(&mut tmp, &src, source.at, 40, w, h);
        for (i, v) in tmp.iter().enumerate() {
            let want = if i < w * h {
                source.prep(None, None, (i % w) as isize, (i / w) as isize)
            } else {
                -1
            };
            assert_eq!(*v, want);
        }
    }
    let mut tmp = vec![0i16; 8];
    prep(&mut tmp, &[0, 1, 2, 3, 100, 200, 254, 255], 0, 8, 8, 1);
    assert_eq!(tmp, [0, 16, 32, 48, 1600, 3200, 4064, 4080]);
}

#[test]
fn put_along_rows_is_rounded_prep() {
    let mut noise = Noise(27);
    let src = noisy(&mut noise, 64 * 32);
    for f in [&SHARP, &HALF, &[127; 8], &[-128; 8]] {
        let mut dst = vec![0u8; 256];
        let mut tmp = vec![0i16; 256];
        assert!(put_8tap(&mut dst, 0, 16, &src, 3 * 64 + 8, 64, 16, 16, Some(f), None));
        assert!(prep_8tap(&mut tmp, &src, 3 * 64 + 8, 64, 16, 16, Some(f), None));
        for (d, t) in dst.iter().zip(&tmp) {
            assert_eq!(*d as i32, ((*t as i32 + 8) >> 4).clamp(0, 255));
        }
    }
}

#[test]
fn one_pass_is_two() {
    let mut noise = Noise(23);
    let src = noisy(&mut noise, 64 * 64);
    let run = |fh: Option<&[i8; 8]>, fv: Option<&[i8; 8]>| {
        let mut dst = vec![0u8; 256];
        let mut tmp = vec![0i16; 256];
        assert!(put_8tap(&mut dst, 0, 16, &src, 8 * 64 + 8, 64, 16, 16, fh, fv));
        assert!(prep_8tap(&mut tmp, &src, 8 * 64 + 8, 64, 16, 16, fh, fv));
        (dst, tmp)
    };
    assert_eq!(run(Some(&SHARP), None), run(Some(&SHARP), Some(&ITSELF)));
    assert_eq!(run(None, Some(&SHARP)), run(Some(&ITSELF), Some(&SHARP)));
}

#[test]
fn flat_area_is_kept() {
    for c in [0u8, 1, 100, 255] {
        let src = vec![c; 32 * 32];
        for (fh, fv) in [
            (Some(&SHARP), Some(&HALF)),
            (Some(&SHARP), None),
            (None, Some(&SHARP)),
            (None, None),
        ] {
            let mut dst = vec![7u8; 64];
            let done = put_8tap(&mut dst, 0, 8, &src, 8 * 32 + 8, 32, 8, 8, fh, fv);
            assert_eq!(dst, vec![if done { c } else { 7 }; 64]);
            let mut tmp = vec![7i16; 64];
            let done = prep_8tap(&mut tmp, &src, 8 * 32 + 8, 32, 8, 8, fh, fv);
            assert_eq!(tmp, vec![if done { 16 * c as i16 } else { 7 }; 64]);
        }
        let mut tmp = vec![7i16; 64];
        prep(&mut tmp, &src, 8 * 32 + 8, 32, 8, 8);
        assert_eq!(tmp, vec![16 * c as i16; 64]);
    }
}

#[test]
fn ramp_has_exact_values() {
    // A ramp of 4 in each column: half a step further is 2 more.
    let src: Vec<u8> = (0..32 * 32).map(|i| (4 * (i % 32)) as u8).collect();
    let mut tmp = vec![0i16; 64];
    assert!(prep_8tap(&mut tmp, &src, 8 * 32 + 8, 32, 8, 8, Some(&HALF), None));
    assert_eq!(tmp[..8], [544, 608, 672, 736, 800, 864, 928, 992]);
    let mut dst = vec![0u8; 64];
    assert!(put_8tap(&mut dst, 0, 8, &src, 8 * 32 + 8, 32, 8, 8, Some(&HALF), None));
    assert_eq!(dst[..8], [34, 38, 42, 46, 50, 54, 58, 62]);
    let mut dst = vec![0u8; 64];
    assert!(put_8tap(&mut dst, 0, 8, &src, 8 * 32 + 8, 32, 8, 8, None, Some(&HALF)));
    assert_eq!(dst[..8], [32, 36, 40, 44, 48, 52, 56, 60]);
}

#[test]
fn sums_are_rounded_and_limited() {
    let acc = (
        I32x4 { lanes: [5, 6, -6, -7] },
        I32x4 { lanes: [200000, -200000, 0, 131069] },
    );
    assert_eq!(
        round_pack_i16(acc, 2, 2).lanes,
        [1, 2, -1, -2, 32767, -32768, 0, 32767]
    );
    let zero = (i32x4_splat(0), i32x4_splat(10));
    let s = i16x8(1, -2, 3, -4, 5, -6, 7, -8);
    let r = mac(zero, s, i16x8_splat(-100));
    assert_eq!(r.0.lanes, [-100, 200, -300, 400]);
    assert_eq!(r.1.lanes, [-490, 610, -690, 810]);
}

#[test]
fn intermediate_block_gives_back_what_was_stored() {
    let taps = Taps::new(&[0, 0, 0, 64, 0, 0, 0, 0]);
    assert_eq!(taps.v[3].lanes, [64; 8]);
    let mut mid = Mid::new();
    for y in 0..8 {
        mid.store8(127 + y, 120, i16x8_splat(y as i16));
    }
    let r = mid.v8(127, 120, &taps);
    assert_eq!(r.0.lanes, [192; 4]);
    assert_eq!(r.1.lanes, [192; 4]);
}

#[test]
fn stored_pixels_are_limited() {
    let mut dst = vec![9u8; 10];
    store8_u8(&mut dst, 1, i16x8(-1, 0, 1, 254, 255, 256, 32767, -32768));
    assert_eq!(dst, [9, 0, 0, 1, 254, 255, 255, 255, 0, 9]);
}

fn square() -> [I16x8; 8] {
    let row = |y: i16| i16x8(y, y + 1, y + 2, y + 3, y + 4, y + 5, y + 6, y + 7);
    [row(0), row(10), row(20), row(30), row(40), row(50), row(60), row(70)]
}

#[test]
fn transposing_swaps_rows_and_columns() {
    let t = transpose8x8_i16(square());
    for i in 0..8 {
        for j in 0..8 {
            assert_eq!(t[i].lanes[j], (10 * j + i) as i16);
        }
    }
}

#[test]
fn transposing_twice_is_nothing() {
    let t = transpose8x8_i16(transpose8x8_i16(square()));
    for i in 0..8 {
        assert_eq!(t[i].lanes, square()[i].lanes);
    }
}

#[test]
fn dot_products_have_exact_values() {
    let s = square();
    let r = dot4(
        [s[0], s[1], s[2], s[3]],
        [i16x8_splat(1), i16x8_splat(-1), i16x8_splat(2), i16x8(1, 0, 0, 0, 0, 0, 0, 1)],
    );
    assert_eq!(r.lanes, [28, -108, 376, 67]);
}

fn table(noise: &mut Noise) -> [[i8; 8]; 193] {
    let mut table = [[0i8; 8]; 193];
    for f in &mut table {
        let mut left = 128;
        for k in [0, 1, 2, 5, 6, 7] {
            f[k] = noise.next(21) as i8 - 10;
            left -= f[k] as i32;
        }
        f[3] = noise.next(60) as i8 + 10;
        f[4] = (left - f[3] as i32).clamp(-128, 127) as i8;
    }
    table
}

#[test]
fn warping_follows_the_formulas() {
    let mut noise = Noise(24);
    let src = noisy(&mut noise, 32 * 32);
    let table = table(&mut noise);
    let source = Source { src: &src, at: 9 * 32 + 11, stride: 32 };
    for _ in 0..300 {
        let mut abcd = [0i16; 4];
        for v in &mut abcd {
            *v = noise.next(4000) as i16 - 2000;
        }
        let mx = noise.next(20000) as i32 - 10000;
        let my = noise.next(20000) as i32 - 10000;
        let index = |m: i32, dx: i16, dy: i16, x: i32, y: i32| {
            (64 + ((m + y * dy as i32 + x * dx as i32 + 512) >> 10)) as usize
        };
        let mid = |x: usize, y: usize| {
            let f = &table[index(mx, abcd[0], abcd[1], x as i32, y as i32)];
            let sum = source.row_sum(f, x as isize, y as isize - 3);
            ((sum + 4) >> 3).clamp(-32768, 32767)
        };
        let mut dst = vec![5u8; 8 * 20];
        let mut tmp = vec![5i16; 8 * 12];
        warp_affine_8x8(&mut dst, 2, 20, &src, source.at, 32, &abcd, mx, my, &table);
        warp_affine_8x8t(&mut tmp, 12, &src, source.at, 32, &abcd, mx, my, &table);
        for y in 0..8 {
            for x in 0..8 {
                let f = &table[index(my, abcd[2], abcd[3], x as i32, y as i32)];
                let sum = dot(f, |k| mid(x, y + k));
                assert_eq!(dst[20 * y + 2 + x], ((sum + 1024) >> 11).clamp(0, 255) as u8);
                assert_eq!(tmp[12 * y + x], ((sum + 64) >> 7).clamp(-32768, 32767) as i16);
            }
            for x in 8..12 {
                assert_eq!(tmp[12 * y + x], 5);
                assert_eq!(dst[20 * y + 2 + x], 5);
            }
        }
    }
}

#[test]
fn warping_keeps_a_flat_area() {
    let mut noise = Noise(25);
    let mut filters = table(&mut noise);
    for f in &mut filters {
        *f = [0, -4, 10, 58, 58, 10, -4, 0];
    }
    for c in [0u8, 77, 255] {
        let src = vec![c; 32 * 32];
        let abcd = [300, -200, 100, 50];
        let mut dst = vec![1u8; 64];
        let mut tmp = vec![1i16; 64];
        warp_affine_8x8(&mut dst, 0, 8, &src, 300, 32, &abcd, 100, -100, &filters);
        warp_affine_8x8t(&mut tmp, 8, &src, 300, 32, &abcd, 100, -100, &filters);
        assert_eq!(dst, vec![c; 64]);
        assert_eq!(tmp, vec![16 * c as i16; 64]);
    }
}

#[test]
fn helpers_sum_along_rows_and_columns() {
    let src: Vec<u8> = (0..=255).collect();
    let taps = Taps::new(&[1, 0, 0, 0, 0, 0, 0, 2]);
    let r = h8(&src, 16, &taps);
    assert_eq!(r.0.lanes, [62, 65, 68, 71]);
    assert_eq!(r.1.lanes, [74, 77, 80, 83]);
    let rows = [0, 20, 40, 60, 80, 100, 120, 140];
    let r = v8_u8(&src, &rows, 3, &taps);
    assert_eq!(r.0.lanes, [289, 292, 295, 298]);
    assert_eq!(r.1.lanes, [301, 304, 307, 310]);
    let mut out = vec![0i16; 9];
    store8_i16(&mut out, 1, i16x8(1, 2, 3, 4, 5, 6, 7, -8));
    assert_eq!(out, [0, 1, 2, 3, 4, 5, 6, 7, -8]);
}
