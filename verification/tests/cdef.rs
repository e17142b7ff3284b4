use rav1d_dsp::cdef::wasm::{cdef_filter_block, constrain8};
use rav1d_dsp::simd::{i16x8, i16x8_splat};

struct Noise(u32);

impl Noise {
    fn next(&mut self, n: u32) -> u32 {
        self.0 = self.0.wrapping_mul(1664525).wrapping_add(1013904223);
        (self.0 >> 8) % n
    }
}

/// The distances of the two taps of each direction in a block with rows of twelve.
const DIRECTIONS: [[i8; 2]; 12] = [
    [12, 24],
    [12, 23],
    [-11, -22],
    [1, -10],
    [1, 2],
    [1, 14],
    [13, 26],
    [12, 25],
    [12, 24],
    [12, 23],
    [-11, -22],
    [1, -10],
];

const MARK: i16 = i16::MIN;

fn constrain(diff: i32, strength: i32, shift: u32) -> i32 {
    let a = diff.abs();
    let m = a.min((strength - (a >> shift)).max(0));
    if diff < 0 {
        -m
    } else {
        m
    }
}

fn pixel(tmp: &[i16; 144], at: usize, px: i32, pri: i32, sec: i32, dir: usize, damping: i32) -> i32 {
    let tap = |off: i8, sign: isize| tmp[(at as isize + sign * off as isize) as usize] as i32;
    let pri_shift = if pri != 0 { (damping - pri.ilog2() as i32).max(0) as u32 } else { 0 };
    let sec_shift = if sec != 0 { (damping - sec.ilog2() as i32) as u32 } else { 0 };
    let (mut sum, mut min, mut max) = (0, px as u32, px);
    let mut see = |p: i32| {
        min = min.min(p as u32);
        max = max.max(p);
    };
    for k in 0..2 {
        if pri != 0 {
            let weight = if k == 0 { 4 - (pri & 1) } else { (4 - (pri & 1)) & 3 | 2 };
            for sign in [1, -1] {
                let p = tap(DIRECTIONS[dir + 2][k], sign);
                sum += weight * constrain(p - px, pri, pri_shift);
                see(p);
            }
        }
        if sec != 0 {
            let weight = 2 - k as i32;
            for d in [dir + 4, dir] {
                for sign in [1, -1] {
                    let s = tap(DIRECTIONS[d][k], sign);
                    sum += weight * constrain(s - px, sec, sec_shift);
                    see(s);
                }
            }
        }
    }
    let out = px + ((sum - (sum < 0) as i32 + 8) >> 4);
    if pri != 0 && sec != 0 {
        out.max(min as i32).min(max)
    } else {
        out
    }
}

fn block(noise: &mut Noise, spread: u32, marks: bool) -> ([i16; 144], Vec<u8>) {
    let base = noise.next(256 - spread);
    let mut tmp = [0i16; 144];
    for v in &mut tmp {
        *v = (base + noise.next(spread)) as i16;
    }
    if marks {
        for (x, v) in tmp.iter_mut().enumerate() {
            if x % 12 < 2 || x / 12 < 2 {
                *v = MARK;
            }
        }
    }
    let mut dst = vec![9u8; 16 * 10];
    for y in 0..8 {
        for x in 0..8 {
            dst[16 * y + 16 + 3 + x] = tmp[12 * (y + 2) + 2 + x] as u8;
        }
    }
    (tmp, dst)
}

#[test]
fn block_follows_the_formulas() {
    let mut noise = Noise(11);
    for round in 0..2000u32 {
        let spread = 1 + noise.next(if round % 2 == 0 { 20 } else { 250 });
        let (tmp, before) = block(&mut noise, spread, round % 3 == 0);
        let pri = [0, 1, 2, 3, 5, 8, 12, 15][noise.next(8) as usize];
        let sec = [0, 1, 2, 4][noise.next(4) as usize];
        let dir = noise.next(8) as usize;
        let damping = 2 + noise.next(4) as i32;
        for (w, h) in [(8, 8), (4, 8), (4, 4)] {
            let mut dst = before.clone();
            cdef_filter_block(&mut dst, 19, 16, &tmp, pri, sec, dir, damping, w, h, &DIRECTIONS);
            for (x, v) in dst.iter().enumerate() {
                let (col, row) = (x % 16, x / 16);
                let want = if (3..3 + w).contains(&col) && (1..1 + h).contains(&row) {
                    let at = 12 * (row + 1) + col - 1;
                    pixel(&tmp, at, before[x] as i32, pri, sec, dir, damping)
                } else {
                    before[x] as i32
                };
                assert_eq!(*v as i32, want, "{round} {pri} {sec} {dir} {damping} {w} {h}");
            }
        }
    }
}

#[test]
fn no_strength_changes_nothing() {
    let mut noise = Noise(12);
    let (tmp, before) = block(&mut noise, 200, true);
    let mut dst = before.clone();
    cdef_filter_block(&mut dst, 19, 16, &tmp, 0, 0, 3, 3, 8, 8, &DIRECTIONS);
    assert_eq!(dst, before);
}

#[test]
fn one_bright_pixel_is_pulled_to_its_neighbours() {
    let mut tmp = [100i16; 144];
    let at = 12 * 4 + 5;
    tmp[at] = 116;
    let mut dst = vec![100u8; 64];
    dst[8 * 2 + 3] = 116;
    // Four differences of -16 at strength 8 and shift 3: min(16, 8 - 2) = 6 each.
    // -(6 + 6) * 4 - (6 + 6) * 2 = -72; (-72 - 1 + 8) >> 4 = -5.
    cdef_filter_block(&mut dst, 0, 8, &tmp, 8, 0, 2, 6, 8, 8, &DIRECTIONS);
    assert_eq!(dst[8 * 2 + 3], 111);
    // Its neighbours in the direction of the filter are pulled towards it: 6 * 4 and 6 * 2.
    assert_eq!(dst[8 * 2 + 4], 102);
    assert_eq!(dst[8 * 2 + 5], 101);
    assert_eq!(dst[8 * 2 + 6], 100);
}

#[test]
fn contribution_has_exact_values() {
    let px = i16x8_splat(100);
    let p = i16x8(100, 103, 97, 110, 90, 255, 0, MARK);
    let r = constrain8(p, px, i16x8_splat(4), 2);
    // min(|d|, max(0, 4 - |d| / 4)) with the sign of d.
    assert_eq!(r.lanes, [0, 3, -3, 2, -2, 0, 0, 0]);
}

#[test]
fn marker_contributes_nothing() {
    for strength in [1, 4, 15, 63] {
        for shift in 0..6 {
            for px in [0, 1, 128, 255] {
                let r = constrain8(
                    i16x8_splat(MARK),
                    i16x8_splat(px),
                    i16x8_splat(strength),
                    shift,
                );
                assert_eq!(r.lanes, [0; 8]);
            }
        }
    }
}

#[test]
fn result_stays_between_its_neighbours() {
    let mut noise = Noise(13);
    for round in 0..300 {
        let (tmp, before) = block(&mut noise, 100, round % 2 == 0);
        let lo = *tmp.iter().filter(|v| **v != MARK).min().unwrap();
        let hi = *tmp.iter().max().unwrap();
        for (pri, sec) in [(15, 4), (15, 0), (0, 4)] {
            let mut dst = before.clone();
            cdef_filter_block(&mut dst, 19, 16, &tmp, pri, sec, 5, 6, 8, 8, &DIRECTIONS);
            for y in 0..8 {
                for x in 0..8 {
                    let v = dst[16 * y + 19 + x] as i16;
                    assert!(lo <= v && v <= hi);
                }
            }
        }
    }
}

#[test]
fn marker_stands_for_the_pixel() {
    let mut noise = Noise(14);
    for _ in 0..100 {
        let (tmp, before) = block(&mut noise, 200, true);
        for (pri, sec) in [(15, 4), (15, 0), (0, 4)] {
            let mut with_markers = before.clone();
            cdef_filter_block(&mut with_markers, 19, 16, &tmp, pri, sec, 6, 5, 8, 8, &DIRECTIONS);
            for i in [19, 22, 16 * 3 + 19, 16 * 7 + 26] {
                let other = tmp.map(|v| if v == MARK { before[i] as i16 } else { v });
                let mut dst = before.clone();
                cdef_filter_block(&mut dst, 19, 16, &other, pri, sec, 6, 5, 8, 8, &DIRECTIONS);
                assert_eq!(dst[i], with_markers[i]);
            }
        }
    }
}

#[test]
fn markers_alone_change_nothing() {
    let mut noise = Noise(15);
    let (_, before) = block(&mut noise, 200, false);
    for (pri, sec) in [(15, 4), (15, 0), (0, 4)] {
        let mut dst = before.clone();
        cdef_filter_block(&mut dst, 19, 16, &[MARK; 144], pri, sec, 1, 6, 8, 8, &DIRECTIONS);
        assert_eq!(dst, before);
    }
}

#[test]
fn dark_and_bright_are_alike() {
    let mut noise = Noise(16);
    for round in 0..300 {
        let (tmp, before) = block(&mut noise, 200, round % 2 == 0);
        let other = tmp.map(|v| if v == MARK { v } else { 255 - v });
        for (pri, sec) in [(15, 4), (15, 0), (0, 4), (6, 1)] {
            let mut dst = before.clone();
            let mut inverse: Vec<u8> = before.iter().map(|v| 255 - v).collect();
            cdef_filter_block(&mut dst, 19, 16, &tmp, pri, sec, 2, 4, 8, 8, &DIRECTIONS);
            cdef_filter_block(&mut inverse, 19, 16, &other, pri, sec, 2, 4, 8, 8, &DIRECTIONS);
            for (a, b) in dst.iter().zip(&inverse) {
                assert_eq!(*a, 255 - b);
            }
        }
    }
}
