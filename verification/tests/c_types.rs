use rav1d_dsp::c_types::{
    c_int, intptr_t, off_t, ptrdiff_t, uintptr_t, wasm32_unknown, EAGAIN, EINVAL, ENOENT, ENOMEM,
    ENOPROTOOPT, ERANGE,
};

#[test]
fn errno_values_are_those_of_the_platform() {
    assert_eq!(ENOENT, libc::ENOENT);
    assert_eq!(EAGAIN, libc::EAGAIN);
    assert_eq!(ENOMEM, libc::ENOMEM);
    assert_eq!(EINVAL, libc::EINVAL);
    assert_eq!(ERANGE, libc::ERANGE);
    assert_eq!(ENOPROTOOPT, libc::ENOPROTOOPT);
}

#[test]
fn c_types_are_those_of_the_platform() {
    let a: ptrdiff_t = -1;
    let b: libc::ptrdiff_t = a;
    let c: intptr_t = b;
    let d: libc::intptr_t = c;
    assert_eq!(d, -1isize);
    let e: uintptr_t = 1;
    let f: libc::uintptr_t = e;
    assert_eq!(f, 1usize);
    let g: off_t = libc::off_t::MAX;
    let h: libc::off_t = g;
    assert_eq!(h, libc::off_t::MAX);
    let i: c_int = -1;
    let j: libc::c_int = i;
    assert_eq!(j, -1i32);
}

#[test]
fn errno_values_without_a_c_library_follow_linux() {
    assert_eq!(wasm32_unknown::ENOENT, 2);
    assert_eq!(wasm32_unknown::EAGAIN, 11);
    assert_eq!(wasm32_unknown::ENOMEM, 12);
    assert_eq!(wasm32_unknown::EINVAL, 22);
    assert_eq!(wasm32_unknown::ERANGE, 34);
    assert_eq!(wasm32_unknown::ENOPROTOOPT, 92);
    let a: wasm32_unknown::ptrdiff_t = isize::MIN;
    let b: wasm32_unknown::intptr_t = a;
    assert_eq!(b, isize::MIN);
    let c: wasm32_unknown::uintptr_t = usize::MAX;
    assert_eq!(c, usize::MAX);
    let d: wasm32_unknown::off_t = i64::MAX;
    assert_eq!(d, i64::MAX);
}
