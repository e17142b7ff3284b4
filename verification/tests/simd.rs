use rav1d_dsp::simd::{
    i16x8, i16x8_abs, i16x8_add, i16x8_extend_i8, i16x8_gt, i16x8_le, i16x8_load, i16x8_max,
    i16x8_min, i16x8_mul, i16x8_narrow_i32x4, i16x8_shl, i16x8_shr, i16x8_shuffle,
    i16x8_shuffle_pairs, i16x8_shuffle_quads, i16x8_splat, i16x8_sub, i16x8_sub_sat, i32x4_add,
    i32x4_dot_i16x8, i32x4_extmul_high_i16x8, i32x4_extmul_low_i16x8, i32x4_shr, i32x4_shuffle,
    i32x4_splat, u16x8_load4, u16x8_load8, u16x8_min, u16x8_shr, u8x16_narrow_i16x8, v128_and,
    v128_andnot, v128_any_true, v128_bitselect, v128_or, v128_xor, I16x8, I32x4,
};

fn lanes(v: [i16; 8]) -> I16x8 {
    i16x8(v[0], v[1], v[2], v[3], v[4], v[5], v[6], v[7])
}

const A: [i16; 8] = [0, 1, -1, 32767, -32768, 300, -300, 77];
const B: [i16; 8] = [5, -1, -1, 1, 1, 300, 40, -32768];

#[test]
fn sums_and_products_wrap() {
    let (a, b) = (lanes(A), lanes(B));
    assert_eq!(i16x8_add(a, b).lanes, [5, 0, -2, -32768, -32767, 600, -260, -32691]);
    assert_eq!(i16x8_sub(a, b).lanes, [-5, 2, 0, 32766, 32767, 0, -340, -32691]);
    assert_eq!(i16x8_mul(a, b).lanes, [0, -1, 1, 32767, -32768, 24464, -12000, -32768]);
}

#[test]
fn saturating_difference_stops_at_the_limits() {
    let (a, b) = (lanes(A), lanes(B));
    assert_eq!(
        i16x8_sub_sat(a, b).lanes,
        [-5, 2, 0, 32766, -32768, 0, -340, 32767]
    );
}

#[test]
fn absolute_value_of_the_smallest_lane_is_itself() {
    assert_eq!(i16x8_abs(lanes(A)).lanes, [0, 1, 1, 32767, -32768, 300, 300, 77]);
}

#[test]
fn signed_and_unsigned_comparisons_differ() {
    let (a, b) = (lanes(A), lanes(B));
    assert_eq!(i16x8_min(a, b).lanes, [0, -1, -1, 1, -32768, 300, -300, -32768]);
    assert_eq!(i16x8_max(a, b).lanes, [5, 1, -1, 32767, 1, 300, 40, 77]);
    assert_eq!(u16x8_min(a, b).lanes, [0, 1, -1, 1, 1, 300, 40, 77]);
    assert_eq!(i16x8_le(a, b).lanes, [-1, 0, -1, 0, -1, -1, -1, 0]);
    assert_eq!(i16x8_gt(a, b).lanes, [0, -1, 0, -1, 0, 0, 0, -1]);
}

#[test]
fn shifts_take_their_count_modulo_the_lane_width() {
    let a = lanes(A);
    assert_eq!(i16x8_shr(a, 1).lanes, [0, 0, -1, 16383, -16384, 150, -150, 38]);
    assert_eq!(i16x8_shr(a, 17).lanes, i16x8_shr(a, 1).lanes);
    assert_eq!(i16x8_shr(a, 15).lanes, [0, 0, -1, 0, -1, 0, -1, 0]);
    assert_eq!(u16x8_shr(a, 1).lanes, [0, 0, 32767, 16383, 16384, 150, 32618, 38]);
    assert_eq!(u16x8_shr(a, 16).lanes, A);
    assert_eq!(i16x8_shl(a, 4).lanes, [0, 16, -16, -16, 0, 4800, -4800, 1232]);
    assert_eq!(i16x8_shl(a, 20).lanes, i16x8_shl(a, 4).lanes);
}

#[test]
fn masks_select_lanes() {
    let (a, b) = (lanes(A), lanes(B));
    let m = lanes([-1, 0, -1, 0, -1, 0, -1, 0]);
    assert_eq!(v128_bitselect(a, b, m).lanes, [0, -1, -1, 1, -32768, 300, -300, -32768]);
    assert_eq!(v128_and(a, m).lanes, [0, 0, -1, 0, -32768, 0, -300, 0]);
    assert_eq!(v128_andnot(a, m).lanes, [0, 1, 0, 32767, 0, 300, 0, 77]);
    assert_eq!(v128_or(a, m).lanes, [-1, 1, -1, 32767, -1, 300, -1, 77]);
    assert_eq!(v128_xor(a, m).lanes, [-1, 1, 0, 32767, 32767, 300, 299, 77]);
    assert!(v128_any_true(m));
    assert!(!v128_any_true(i16x8_splat(0)));
}

#[test]
fn loads_widen_bytes() {
    let bytes: Vec<u8> = (250..=255).chain(0..=10).collect();
    assert_eq!(u16x8_load8(&bytes, 2).lanes, [252, 253, 254, 255, 0, 1, 2, 3]);
    assert_eq!(u16x8_load4(&bytes, 2).lanes, [252, 253, 254, 255, 0, 0, 0, 0]);
    let words: Vec<i16> = (-5..10).collect();
    assert_eq!(i16x8_load(&words, 7).lanes, [2, 3, 4, 5, 6, 7, 8, 9]);
    assert_eq!(
        i16x8_extend_i8(&[-128, 127, 0, 1, -1, 64, -64, 3]).lanes,
        [-128, 127, 0, 1, -1, 64, -64, 3]
    );
}

#[test]
fn narrowing_saturates() {
    let r = u8x16_narrow_i16x8(lanes(A), lanes([255, 256, 0, -1, 1, 2, 3, 4]));
    assert_eq!(r, [0, 1, 0, 255, 0, 255, 0, 77, 255, 255, 0, 0, 1, 2, 3, 4]);
    let a = I32x4 { lanes: [32768, -32769, 5, -5] };
    let b = I32x4 { lanes: [i32::MAX, i32::MIN, 0, 1] };
    assert_eq!(
        i16x8_narrow_i32x4(a, b).lanes,
        [32767, -32768, 5, -5, 32767, -32768, 0, 1]
    );
}

#[test]
fn products_of_lanes_widen() {
    let (a, b) = (lanes(A), lanes(B));
    assert_eq!(i32x4_extmul_low_i16x8(a, b).lanes, [0, -1, 1, 32767]);
    assert_eq!(i32x4_extmul_high_i16x8(a, b).lanes, [-32768, 90000, -12000, -2523136]);
    assert_eq!(i32x4_dot_i16x8(a, b).lanes, [-1, 32768, 57232, -2535136]);
    let least = i16x8_splat(-32768);
    assert_eq!(i32x4_dot_i16x8(least, least).lanes, [i32::MIN; 4]);
}

#[test]
fn wide_lanes_wrap_and_shift() {
    let a = I32x4 { lanes: [i32::MAX, -7, 8, 0] };
    assert_eq!(i32x4_add(a, i32x4_splat(1)).lanes, [i32::MIN, -6, 9, 1]);
    assert_eq!(i32x4_shr(a, 2).lanes, [536870911, -2, 2, 0]);
    assert_eq!(i32x4_shr(a, 34).lanes, [536870911, -2, 2, 0]);
}

#[test]
fn shuffles_pick_from_both_vectors() {
    let a = lanes([0, 1, 2, 3, 4, 5, 6, 7]);
    let b = lanes([8, 9, 10, 11, 12, 13, 14, 15]);
    assert_eq!(
        i16x8_shuffle::<0, 8, 1, 9, 2, 10, 3, 11>(a, b).lanes,
        [0, 8, 1, 9, 2, 10, 3, 11]
    );
    assert_eq!(
        i16x8_shuffle_pairs::<0, 4, 1, 5>(a, b).lanes,
        [0, 1, 8, 9, 2, 3, 10, 11]
    );
    assert_eq!(
        i16x8_shuffle_quads::<1, 3>(a, b).lanes,
        [4, 5, 6, 7, 12, 13, 14, 15]
    );
    let c = I32x4 { lanes: [0, 1, 2, 3] };
    let d = I32x4 { lanes: [4, 5, 6, 7] };
    assert_eq!(i32x4_shuffle::<2, 3, 6, 7>(c, d).lanes, [2, 3, 6, 7]);
}
