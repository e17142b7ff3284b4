//! Pixels and their bit depth.
use crate::arith::clip;
use vstd::prelude::*;

verus! {

/// A stored pixel: `u8` at a bit depth of eight, `u16` above it.
pub trait Pixel: Copy {
    /// The number that the pixel stands for.
    spec fn value(self) -> int;

    /// The largest number that the representation can hold.
    spec fn limit() -> int;

    proof fn value_in_range(self)
        ensures
            0 <= self.value() <= Self::limit() <= 0xffff,
    ;

    /// Pixels with the same value are the same pixel.
    proof fn value_is_injective(a: Self, b: Self)
        requires
            a.value() == b.value(),
        ensures
            a == b,
    ;

    fn as_i32(self) -> (r: i32)
        ensures
            r == self.value(),
    ;

    fn from_i32(v: i32) -> (r: Self)
        requires
            0 <= v <= Self::limit(),
        ensures
            r.value() == v,
    ;
}

impl Pixel for u8 {
    open spec fn value(self) -> int {
        self as int
    }

    open spec fn limit() -> int {
        255
    }

    proof fn value_in_range(self) {
    }

    proof fn value_is_injective(a: Self, b: Self) {
    }

    fn as_i32(self) -> (r: i32) {
        self as i32
    }

    fn from_i32(v: i32) -> (r: Self) {
        v as u8
    }
}

impl Pixel for u16 {
    open spec fn value(self) -> int {
        self as int
    }

    open spec fn limit() -> int {
        0xffff
    }

    proof fn value_in_range(self) {
    }

    proof fn value_is_injective(a: Self, b: Self) {
    }

    fn as_i32(self) -> (r: i32) {
        self as i32
    }

    fn from_i32(v: i32) -> (r: Self) {
        v as u16
    }
}

/// The two pixel representations: eight bits, or sixteen for the higher bit depths.
#[derive(Clone, Copy, Debug, PartialEq, Eq, Structural)]
pub enum BPC {
    BPC8,
    BPC16,
}

/// The number of bits that it takes to write `x`.
pub open spec fn bit_length(x: nat) -> nat
    decreases x,
{
    if x == 0 {
        0
    } else {
        1 + bit_length(x / 2)
    }
}

/// The bit depth of a picture.
pub trait BitDepth: Copy {
    type Pixel: Pixel;

    spec fn bpc() -> BPC;

    /// The number of bits of a pixel.
    spec fn bits(self) -> nat;

    /// The largest pixel.
    spec fn max_pixel(self) -> int;

    proof fn depth_in_range(self)
        ensures
            self.bits() <= 16,
            0 <= self.max_pixel() <= <Self::Pixel as Pixel>::limit() <= 0xffff,
    ;

    /// The bit depth whose largest pixel is `bitdepth_max`.
    spec fn with_max(bitdepth_max: int) -> Self;

    /// The bit depth whose largest pixel is `bitdepth_max`. Where pixels have eight bits, it is the same
    /// whatever the argument.
    fn from_c(bitdepth_max: i32) -> (r: Self)
        requires
            Self::bpc() is BPC16 ==> 0 <= bitdepth_max <= 0xffff,
        ensures
            r == Self::with_max(bitdepth_max as int),
    ;

    /// The representation of the pixels.
    fn pixel_bpc() -> (r: BPC)
        ensures
            r == Self::bpc(),
    ;

    fn bitdepth(&self) -> (r: u8)
        ensures
            r == self.bits(),
    ;

    /// `v` limited to the range of a pixel.
    fn iclip_pixel(&self, v: i32) -> (r: Self::Pixel)
        ensures
            r.value() == clip(v as int, 0, self.max_pixel()),
    ;
}

/// Eight bits per pixel.
#[derive(Clone, Copy)]
pub struct BitDepth8;

/// More than eight bits per pixel, given by the largest pixel.
#[derive(Clone, Copy)]
pub struct BitDepth16 {
    pub bitdepth_max: u16,
}

impl BitDepth for BitDepth8 {
    type Pixel = u8;

    open spec fn bpc() -> BPC {
        BPC::BPC8
    }

    open spec fn bits(self) -> nat {
        8
    }

    open spec fn max_pixel(self) -> int {
        255
    }

    proof fn depth_in_range(self) {
    }

    open spec fn with_max(bitdepth_max: int) -> Self {
        BitDepth8
    }

    fn from_c(bitdepth_max: i32) -> (r: Self) {
        BitDepth8
    }

    fn pixel_bpc() -> (r: BPC) {
        BPC::BPC8
    }

    fn bitdepth(&self) -> (r: u8) {
        8
    }

    fn iclip_pixel(&self, v: i32) -> (r: u8) {
        if v < 0 {
            0
        } else if v > 255 {
            255
        } else {
            v as u8
        }
    }
}

proof fn lemma_bit_length_bound(x: nat, n: nat)
    requires
        x < vstd::arithmetic::power2::pow2(n),
    ensures
        bit_length(x) <= n,
    decreases n,
{
    vstd::arithmetic::power2::lemma2_to64();
    if x > 0 {
        assert(n > 0);
        vstd::arithmetic::power2::lemma_pow2_unfold(n);
        lemma_bit_length_bound(x / 2, (n - 1) as nat);
    }
}

impl BitDepth for BitDepth16 {
    type Pixel = u16;

    open spec fn bpc() -> BPC {
        BPC::BPC16
    }

    open spec fn bits(self) -> nat {
        bit_length(self.bitdepth_max as nat)
    }

    open spec fn max_pixel(self) -> int {
        self.bitdepth_max as int
    }

    proof fn depth_in_range(self) {
        vstd::arithmetic::power2::lemma2_to64();
        lemma_bit_length_bound(self.bitdepth_max as nat, 16);
    }

    open spec fn with_max(bitdepth_max: int) -> Self {
        BitDepth16 { bitdepth_max: bitdepth_max as u16 }
    }

    fn from_c(bitdepth_max: i32) -> (r: Self) {
        BitDepth16 { bitdepth_max: bitdepth_max as u16 }
    }

    fn pixel_bpc() -> (r: BPC) {
        BPC::BPC16
    }

    fn bitdepth(&self) -> (r: u8) {
        let mut rest: u16 = self.bitdepth_max;
        let mut n: u8 = 0;
        proof {
            self.depth_in_range();
        }
        while rest > 0
            invariant
                n + bit_length(rest as nat) == bit_length(self.bitdepth_max as nat) <= 16,
            decreases rest,
        {
            rest = rest / 2;
            n += 1;
        }
        n
    }

    fn iclip_pixel(&self, v: i32) -> (r: u16) {
        if v < 0 {
            0
        } else if v > self.bitdepth_max as i32 {
            self.bitdepth_max
        } else {
            v as u16
        }
    }
}

/// The values of a sequence of pixels.
pub open spec fn pixels<P: Pixel>(data: Seq<P>) -> Seq<int> {
    Seq::new(data.len(), |i: int| data[i].value())
}

pub proof fn lemma_pixels_update<P: Pixel>(data: Seq<P>, i: int, p: P)
    requires
        0 <= i < data.len(),
    ensures
        pixels(data.update(i, p)) == pixels(data).update(i, p.value()),
{
    assert(pixels(data.update(i, p)) =~= pixels(data).update(i, p.value()));
}

/// The largest pixel of a bit depth takes all its bits: it lies between the power of two of one bit less and that
/// of its bits.
pub proof fn largest_pixel_takes_all_bits(bd: BitDepth16)
    requires
        bd.bitdepth_max > 0,
    ensures
        bd.bits() >= 1,
        vstd::arithmetic::power2::pow2((bd.bits() - 1) as nat) <= bd.max_pixel()
            < vstd::arithmetic::power2::pow2(bd.bits()),
{
    lemma_bit_length_powers(bd.bitdepth_max as nat);
}

proof fn lemma_bit_length_powers(x: nat)
    requires
        x > 0,
    ensures
        bit_length(x) >= 1,
        vstd::arithmetic::power2::pow2((bit_length(x) - 1) as nat) <= x
            < vstd::arithmetic::power2::pow2(bit_length(x)),
    decreases x,
{
    vstd::arithmetic::power2::lemma2_to64();
    let n = bit_length(x);
    if x == 1 {
        reveal_with_fuel(bit_length, 3);
    } else {
        lemma_bit_length_powers(x / 2);
        vstd::arithmetic::power2::lemma_pow2_unfold(n);
        vstd::arithmetic::power2::lemma_pow2_unfold((n - 1) as nat);
    }
}

/// A bit depth is made from its largest pixel and has it; where pixels have eight bits, the largest is 255 whatever
/// is asked for.
pub proof fn bit_depth_has_the_largest_pixel_asked_for(bitdepth_max: int)
    ensures
        0 <= bitdepth_max <= 0xffff ==> <BitDepth16 as BitDepth>::with_max(bitdepth_max).max_pixel()
            == bitdepth_max,
        <BitDepth8 as BitDepth>::with_max(bitdepth_max).max_pixel() == 255,
        <BitDepth8 as BitDepth>::with_max(bitdepth_max).bits() == 8,
        <BitDepth8 as BitDepth>::bpc() is BPC8,
        <BitDepth16 as BitDepth>::bpc() is BPC16,
{
}

/// The value of a pixel is the number that is stored.
pub proof fn pixels_are_the_stored_numbers(bytes: Seq<u8>, words: Seq<u16>, i: int)
    ensures
        pixels(bytes).len() == bytes.len(),
        pixels(words).len() == words.len(),
        0 <= i < bytes.len() ==> pixels(bytes)[i] == bytes[i],
        0 <= i < words.len() ==> pixels(words)[i] == words[i],
        <u8 as Pixel>::limit() == u8::MAX,
        <u16 as Pixel>::limit() == u16::MAX,
{
}

} // verus!
