//! The choice between the implementations of the loop filter.
//!
//! A context has one function slot for each direction and plane. All four are filled together, from
//! one look at the processor: either each holds the portable filter, or each holds an assembly
//! function for the bit depth of the context. Which of the two it is, the [`LoopFilterKind`] that comes
//! with the context says.
use crate::bitdepth::{pixels, BitDepth, BPC};
use crate::c_types::{c_int, ptrdiff_t};
use crate::loopfilter::superblock::{
    loop_filter_sb128_c_erased, sb_edges, Av1FilterLUT, SbEdges, HV, YUV,
};
use vstd::prelude::*;

verus! {

/// The instruction sets that assembly functions are written for.
#[derive(Clone, Copy, Debug, PartialEq, Eq, Structural)]
pub enum Isa {
    Ssse3,
    Avx2,
    Avx512Icl,
    Neon,
}

/// The families of processors that assembly functions exist for, and all others.
#[derive(Clone, Copy, Debug, PartialEq, Eq, Structural)]
pub enum Arch {
    X86,
    X86_64,
    Arm,
    Aarch64,
    Other,
}

/// What the library is built for: the processor family, and whether assembly functions are built in.
#[derive(Clone, Copy, Debug, PartialEq, Eq, Structural)]
pub struct Target {
    pub assembly: bool,
    pub arch: Arch,
}

/// What the processor can do.
#[derive(Clone, Copy, Debug, PartialEq, Eq, Structural)]
pub struct CpuFlags {
    pub ssse3: bool,
    pub avx2: bool,
    pub avx512icl: bool,
    pub slow_gather: bool,
    pub neon: bool,
}

/// One loop-filter function slot: the portable filter, or an assembly function, each for one pixel
/// representation, direction and plane.
#[derive(Clone, Copy, Debug, PartialEq, Eq, Structural)]
pub enum LoopFilterSbFn {
    Rust { bpc: BPC, hv: HV, yuv: YUV },
    Asm { bpc: BPC, hv: HV, yuv: YUV, isa: Isa },
}

#[derive(Clone, Copy, Debug, PartialEq, Eq, Structural)]
enum Kind {
    Rust,
    Asm,
}

/// Which functions every slot of a [`Rav1dLoopFilterDSPContext`] holds. It is only to be had from
/// [`Rav1dLoopFilterDSPContext::new`], together with the slots.
#[derive(Clone, Copy, Debug, PartialEq, Eq, Structural)]
pub struct LoopFilterKind(Kind);

impl LoopFilterKind {
    /// Whether the slots hold assembly functions.
    pub closed spec fn is_asm(self) -> bool {
        self.0 is Asm
    }

    /// What the kind says of the slot for direction `hv` of plane `yuv`, of a context for `bpc`.
    pub open spec fn describes_slot(self, slot: LoopFilterSbFn, bpc: BPC, hv: HV, yuv: YUV) -> bool {
        if self.is_asm() {
            slot matches LoopFilterSbFn::Asm { bpc: b, hv: d, yuv: p, isa: _ } && b == bpc && d == hv
                && p == yuv
        } else {
            slot == (LoopFilterSbFn::Rust { bpc, hv, yuv })
        }
    }

    /// What the kind says of the slots of a context for `bpc`.
    pub open spec fn describes(self, dsp: Rav1dLoopFilterDSPContext, bpc: BPC) -> bool {
        forall|hv: HV, yuv: YUV|
            self.describes_slot(#[trigger] dsp.slots().slot(hv, yuv), bpc, hv, yuv)
    }
}

impl LoopFilterSbFn {
    /// The slot that holds the portable filter.
    pub fn default(bpc: BPC, hv: HV, yuv: YUV) -> (r: Self)
        ensures
            r == (LoopFilterSbFn::Rust { bpc, hv, yuv }),
    {
        LoopFilterSbFn::Rust { bpc, hv, yuv }
    }

    /// The slot that holds an assembly function.
    fn assembly(bpc: BPC, hv: HV, yuv: YUV, isa: Isa) -> (r: Self)
        ensures
            r == (LoopFilterSbFn::Asm { bpc, hv, yuv, isa }),
    {
        LoopFilterSbFn::Asm { bpc, hv, yuv, isa }
    }
}

/// The slots of one plane.
#[derive(Clone, Copy)]
pub struct LoopFilterHVDSPContext {
    pub h: LoopFilterSbFn,
    pub v: LoopFilterSbFn,
}

/// The slots of all planes.
#[derive(Clone, Copy)]
pub struct LoopFilterYUVDSPContext {
    pub y: LoopFilterHVDSPContext,
    pub uv: LoopFilterHVDSPContext,
}

impl LoopFilterYUVDSPContext {
    /// The slot for direction `hv` of plane `yuv`.
    pub open spec fn slot(self, hv: HV, yuv: YUV) -> LoopFilterSbFn {
        let plane = match yuv {
            YUV::Y => self.y,
            YUV::UV => self.uv,
        };
        match hv {
            HV::H => plane.h,
            HV::V => plane.v,
        }
    }

    /// The slot for direction `hv` of plane `yuv`.
    pub fn get(&self, hv: HV, yuv: YUV) -> (r: &LoopFilterSbFn)
        ensures
            *r == self.slot(hv, yuv),
    {
        let plane: &LoopFilterHVDSPContext = match yuv {
            YUV::Y => &self.y,
            YUV::UV => &self.uv,
        };
        match hv {
            HV::H => &plane.h,
            HV::V => &plane.v,
        }
    }
}

/// Whether two references are to one slot, by its address, as `std::ptr::eq` tells. What is claimed of it is that
/// one slot holds one thing at a time. An address is no value, so nothing is said of when the answer is `true`.
#[verifier::external_body]
fn is_same_slot(a: &LoopFilterSbFn, b: &LoopFilterSbFn) -> (r: bool)
    ensures
        r ==> *a == *b,
{
    std::ptr::eq(a, b)
}

/// Whether any of the four answers is yes.
pub fn any_of_four(answers: [bool; 4]) -> (r: bool)
    ensures
        r == exists|i: int| 0 <= i < 4 && #[trigger] answers@[i],
{
    let r: bool = answers[0] || answers[1] || answers[2] || answers[3];
    proof {
        if r {
            assert(answers@[0] || answers@[1] || answers@[2] || answers@[3]);
        } else {
            assert forall|i: int| 0 <= i < 4 implies !#[trigger] answers@[i] by {
                assert(i == 0 || i == 1 || i == 2 || i == 3);
            }
        }
    }
    r
}

/// The function slots of the loop filter. They are handed out for reading only, so that they stay what
/// their [`LoopFilterKind`] says.
pub struct Rav1dLoopFilterDSPContext {
    loop_filter_sb: LoopFilterYUVDSPContext,
}

/// The instruction set that is chosen on x86 for direction `hv`, if any.
pub open spec fn x86_isa(flags: CpuFlags, x86_64: bool, hv: HV) -> Option<Isa> {
    if !flags.ssse3 {
        None
    } else if !x86_64 || !flags.avx2 {
        Some(Isa::Ssse3)
    } else if !flags.avx512icl || (hv is H && flags.slow_gather) {
        Some(Isa::Avx2)
    } else {
        Some(Isa::Avx512Icl)
    }
}

/// The instruction set that is chosen on Arm, if any.
pub open spec fn arm_isa(flags: CpuFlags) -> Option<Isa> {
    if flags.neon {
        Some(Isa::Neon)
    } else {
        None
    }
}

/// The instruction set that is chosen for direction `hv`, if any.
pub open spec fn chosen_isa(flags: CpuFlags, target: Target, hv: HV) -> Option<Isa> {
    if !target.assembly {
        None
    } else {
        match target.arch {
            Arch::X86 => x86_isa(flags, false, hv),
            Arch::X86_64 => x86_isa(flags, true, hv),
            Arch::Arm => arm_isa(flags),
            Arch::Aarch64 => arm_isa(flags),
            Arch::Other => None,
        }
    }
}

/// The slot that holds the function for the instruction set `isa`, or what it held before.
pub open spec fn slot_for(
    isa: Option<Isa>,
    bpc: BPC,
    hv: HV,
    yuv: YUV,
    before: LoopFilterSbFn,
) -> LoopFilterSbFn {
    match isa {
        Some(isa) => LoopFilterSbFn::Asm { bpc, hv, yuv, isa },
        None => before,
    }
}

/// What is left to do to filter a superblock: the assembly function to call, and the arguments that the
/// caller has not given itself.
#[derive(Clone, Copy, Debug, PartialEq, Eq, Structural)]
pub struct AsmCall {
    pub hv: HV,
    pub yuv: YUV,
    pub isa: Isa,
    pub b4_stride: ptrdiff_t,
    pub w: c_int,
    /// The largest pixel, for the functions that take it: those for the higher bit depths.
    pub bitdepth_max: Option<c_int>,
}

/// What the loop filter reads of a frame.
pub struct FrameFilter<'a> {
    pub dsp: &'a Rav1dLoopFilterDSPContext,
    pub kind: LoopFilterKind,
    pub b4_stride: ptrdiff_t,
    pub lim_lut: &'a Av1FilterLUT,
    pub bitdepth_max: c_int,
}

impl Rav1dLoopFilterDSPContext {
    /// The slots of all planes.
    pub closed spec fn slots(self) -> LoopFilterYUVDSPContext {
        self.loop_filter_sb
    }

    /// Whether `slot` is one of the four slots.
    pub open spec fn has_slot(self, slot: LoopFilterSbFn) -> bool {
        exists|hv: HV, yuv: YUV| slot == #[trigger] self.slots().slot(hv, yuv)
    }

    /// The slots, for reading.
    pub fn loop_filter_sb(&self) -> (r: &LoopFilterYUVDSPContext)
        ensures
            *r == self.slots(),
    {
        &self.loop_filter_sb
    }

    /// Whether `slot` is one of this context's own four slots, so that the kind describes it. A copy of a slot is
    /// none of them, nor is a slot of another context. The slots are told by their addresses, which are no
    /// values: what is claimed is that a slot of this context holds what one of the four holds.
    pub fn contains(&self, slot: &LoopFilterSbFn) -> (r: bool)
        ensures
            r ==> self.has_slot(*slot),
    {
        let sb: &LoopFilterYUVDSPContext = &self.loop_filter_sb;
        proof {
            assert(self.slots().slot(HV::H, YUV::Y) == sb.y.h);
            assert(self.slots().slot(HV::V, YUV::Y) == sb.y.v);
            assert(self.slots().slot(HV::H, YUV::UV) == sb.uv.h);
            assert(self.slots().slot(HV::V, YUV::UV) == sb.uv.v);
        }
        let answers: [bool; 4] = [
            is_same_slot(&sb.y.h, slot),
            is_same_slot(&sb.y.v, slot),
            is_same_slot(&sb.uv.h, slot),
            is_same_slot(&sb.uv.v, slot),
        ];
        any_of_four(answers)
    }

    /// Whether `kind` describes what was written into the slots: an assembly kind wants all four
    /// portable filters overwritten, the other one wants none overwritten.
    pub fn debug_assert_kind(&self, bpc: BPC, kind: LoopFilterKind) -> (r: bool)
        ensures
            r == forall|hv: HV, yuv: YUV|
                (#[trigger] self.slots().slot(hv, yuv) == LoopFilterSbFn::Rust { bpc, hv, yuv })
                    == !kind.is_asm(),
    {
        let fallback: Self = Self::default(bpc);
        let sb: &LoopFilterYUVDSPContext = &self.loop_filter_sb;
        let fb: &LoopFilterYUVDSPContext = &fallback.loop_filter_sb;
        proof {
            assert(self.slots().slot(HV::H, YUV::Y) == sb.y.h);
            assert(self.slots().slot(HV::V, YUV::Y) == sb.y.v);
            assert(self.slots().slot(HV::H, YUV::UV) == sb.uv.h);
            assert(self.slots().slot(HV::V, YUV::UV) == sb.uv.v);
            assert(fallback.slots().slot(HV::H, YUV::Y) == fb.y.h);
            assert(fallback.slots().slot(HV::V, YUV::Y) == fb.y.v);
            assert(fallback.slots().slot(HV::H, YUV::UV) == fb.uv.h);
            assert(fallback.slots().slot(HV::V, YUV::UV) == fb.uv.v);
        }
        match kind.0 {
            Kind::Rust => sb.y.h == fb.y.h && sb.y.v == fb.y.v && sb.uv.h == fb.uv.h && sb.uv.v
                == fb.uv.v,
            Kind::Asm => sb.y.h != fb.y.h && sb.y.v != fb.y.v && sb.uv.h != fb.uv.h && sb.uv.v
                != fb.uv.v,
        }
    }

    fn default(bpc: BPC) -> (r: Self)
        ensures
            forall|hv: HV, yuv: YUV|
                #[trigger] r.slots().slot(hv, yuv) == (LoopFilterSbFn::Rust { bpc, hv, yuv }),
    {
        Rav1dLoopFilterDSPContext {
            loop_filter_sb: LoopFilterYUVDSPContext {
                y: LoopFilterHVDSPContext {
                    h: LoopFilterSbFn::default(bpc, HV::H, YUV::Y),
                    v: LoopFilterSbFn::default(bpc, HV::V, YUV::Y),
                },
                uv: LoopFilterHVDSPContext {
                    h: LoopFilterSbFn::default(bpc, HV::H, YUV::UV),
                    v: LoopFilterSbFn::default(bpc, HV::V, YUV::UV),
                },
            },
        }
    }

    /// Fills the slots on x86. The kind comes from the same branch that fills them.
    fn init_x86(self, bpc: BPC, flags: CpuFlags, x86_64: bool) -> (r: (Self, LoopFilterKind))
        ensures
            forall|hv: HV, yuv: YUV|
                #[trigger] r.0.slots().slot(hv, yuv) == slot_for(
                    x86_isa(flags, x86_64, hv),
                    bpc,
                    hv,
                    yuv,
                    self.slots().slot(hv, yuv),
                ),
            r.1.is_asm() == flags.ssse3,
    {
        if !flags.ssse3 {
            return (self, LoopFilterKind(Kind::Rust));
        }
        let mut sb: LoopFilterYUVDSPContext = self.loop_filter_sb;
        sb.y.h = LoopFilterSbFn::assembly(bpc, HV::H, YUV::Y, Isa::Ssse3);
        sb.y.v = LoopFilterSbFn::assembly(bpc, HV::V, YUV::Y, Isa::Ssse3);
        sb.uv.h = LoopFilterSbFn::assembly(bpc, HV::H, YUV::UV, Isa::Ssse3);
        sb.uv.v = LoopFilterSbFn::assembly(bpc, HV::V, YUV::UV, Isa::Ssse3);

        if x86_64 {
            if !flags.avx2 {
                return (Rav1dLoopFilterDSPContext { loop_filter_sb: sb }, LoopFilterKind(Kind::Asm));
            }
            sb.y.h = LoopFilterSbFn::assembly(bpc, HV::H, YUV::Y, Isa::Avx2);
            sb.y.v = LoopFilterSbFn::assembly(bpc, HV::V, YUV::Y, Isa::Avx2);
            sb.uv.h = LoopFilterSbFn::assembly(bpc, HV::H, YUV::UV, Isa::Avx2);
            sb.uv.v = LoopFilterSbFn::assembly(bpc, HV::V, YUV::UV, Isa::Avx2);

            if !flags.avx512icl {
                return (Rav1dLoopFilterDSPContext { loop_filter_sb: sb }, LoopFilterKind(Kind::Asm));
            }
            sb.y.v = LoopFilterSbFn::assembly(bpc, HV::V, YUV::Y, Isa::Avx512Icl);
            sb.uv.v = LoopFilterSbFn::assembly(bpc, HV::V, YUV::UV, Isa::Avx512Icl);

            if !flags.slow_gather {
                sb.y.h = LoopFilterSbFn::assembly(bpc, HV::H, YUV::Y, Isa::Avx512Icl);
                sb.uv.h = LoopFilterSbFn::assembly(bpc, HV::H, YUV::UV, Isa::Avx512Icl);
            }
        }
        (Rav1dLoopFilterDSPContext { loop_filter_sb: sb }, LoopFilterKind(Kind::Asm))
    }

    /// Fills the slots on Arm. The kind comes from the same branch that fills them.
    fn init_arm(self, bpc: BPC, flags: CpuFlags) -> (r: (Self, LoopFilterKind))
        ensures
            forall|hv: HV, yuv: YUV|
                #[trigger] r.0.slots().slot(hv, yuv) == slot_for(
                    arm_isa(flags),
                    bpc,
                    hv,
                    yuv,
                    self.slots().slot(hv, yuv),
                ),
            r.1.is_asm() == flags.neon,
    {
        if !flags.neon {
            return (self, LoopFilterKind(Kind::Rust));
        }
        let mut sb: LoopFilterYUVDSPContext = self.loop_filter_sb;
        sb.y.h = LoopFilterSbFn::assembly(bpc, HV::H, YUV::Y, Isa::Neon);
        sb.y.v = LoopFilterSbFn::assembly(bpc, HV::V, YUV::Y, Isa::Neon);
        sb.uv.h = LoopFilterSbFn::assembly(bpc, HV::H, YUV::UV, Isa::Neon);
        sb.uv.v = LoopFilterSbFn::assembly(bpc, HV::V, YUV::UV, Isa::Neon);
        (Rav1dLoopFilterDSPContext { loop_filter_sb: sb }, LoopFilterKind(Kind::Asm))
    }

    fn init(self, bpc: BPC, flags: CpuFlags, target: Target) -> (r: (Self, LoopFilterKind))
        ensures
            forall|hv: HV, yuv: YUV|
                #[trigger] r.0.slots().slot(hv, yuv) == slot_for(
                    chosen_isa(flags, target, hv),
                    bpc,
                    hv,
                    yuv,
                    self.slots().slot(hv, yuv),
                ),
            forall|hv: HV|
                r.1.is_asm() == (#[trigger] chosen_isa(flags, target, hv) is Some),
    {
        if target.assembly {
            match target.arch {
                Arch::X86 => self.init_x86(bpc, flags, false),
                Arch::X86_64 => self.init_x86(bpc, flags, true),
                Arch::Arm => self.init_arm(bpc, flags),
                Arch::Aarch64 => self.init_arm(bpc, flags),
                Arch::Other => (self, LoopFilterKind(Kind::Rust)),
            }
        } else {
            (self, LoopFilterKind(Kind::Rust))
        }
    }

    /// Fills the function slots for the pixel representation `bpc`, and tells their kind. The kind
    /// describes the slots.
    pub fn new(bpc: BPC, flags: CpuFlags, target: Target) -> (r: (Self, LoopFilterKind))
        ensures
            forall|hv: HV, yuv: YUV|
                #[trigger] r.0.slots().slot(hv, yuv) == slot_for(
                    chosen_isa(flags, target, hv),
                    bpc,
                    hv,
                    yuv,
                    LoopFilterSbFn::Rust { bpc, hv, yuv },
                ),
            forall|hv: HV|
                r.1.is_asm() == (#[trigger] chosen_isa(flags, target, hv) is Some),
            r.1.describes(r.0, bpc),
    {
        Self::default(bpc).init(bpc, flags, target)
    }
}

impl<'a> FrameFilter<'a> {
    /// The superblock that filtering direction `hv` of plane `yuv` of the frame filters.
    pub open spec fn edges<BD: BitDepth>(
        &self,
        hv: HV,
        yuv: YUV,
        base: usize,
        stride: isize,
        mask: &[u32; 3],
        lvl: Seq<u8>,
        lvl_at: usize,
    ) -> SbEdges {
        sb_edges(
            hv,
            yuv,
            base,
            stride,
            mask,
            lvl,
            lvl_at,
            self.b4_stride as usize,
            self.lim_lut,
            BD::with_max(self.bitdepth_max as int),
        )
    }
}

impl LoopFilterSbFn {
    /// Filters direction `hv` of plane `yuv` in a superblock with the function in the frame's own slot for them.
    /// The portable filter is run; an assembly function is left to the caller, with the arguments to call it
    /// with.
    pub fn call<BD: BitDepth>(
        f: &FrameFilter,
        hv: HV,
        yuv: YUV,
        dst: &mut [BD::Pixel],
        base: usize,
        stride: isize,
        mask: &[u32; 3],
        lvl: &[u8],
        lvl_at: usize,
        w: usize,
    ) -> (r: Option<AsmCall>)
        requires
            f.kind.describes(*f.dsp, BD::bpc()),
            lvl_at <= lvl@.len(),
            !f.kind.is_asm() && BD::bpc() is BPC16 ==> 0 <= f.bitdepth_max <= 0xffff,
            !f.kind.is_asm() ==> BD::with_max(f.bitdepth_max as int).bits() >= 8,
            !f.kind.is_asm() ==> f.edges::<BD>(hv, yuv, base, stride, mask, lvl@, lvl_at).readable(
                pixels(old(dst)@),
            ),
        ensures
            r is Some == f.kind.is_asm(),
            !f.kind.is_asm() ==> pixels(final(dst)@) == f.edges::<BD>(
                hv,
                yuv,
                base,
                stride,
                mask,
                lvl@,
                lvl_at,
            ).filtered(pixels(old(dst)@), 32),
            f.kind.is_asm() ==> final(dst)@ == old(dst)@,
            r == asm_call(f.dsp.slots().slot(hv, yuv), f, w, BD::bpc()),
            final(dst)@.len() == old(dst)@.len(),
    {
        let slot: &LoopFilterSbFn = f.dsp.loop_filter_sb().get(hv, yuv);
        proof {
            assert(f.kind.describes_slot(f.dsp.slots().slot(hv, yuv), BD::bpc(), hv, yuv));
        }
        match *slot {
            LoopFilterSbFn::Rust { bpc: _, hv, yuv } => {
                loop_filter_sb128_c_erased::<BD>(
                    hv,
                    yuv,
                    dst,
                    base,
                    stride,
                    mask,
                    lvl,
                    lvl_at,
                    f.b4_stride,
                    f.lim_lut,
                    f.bitdepth_max,
                );
                None
            },
            LoopFilterSbFn::Asm { bpc: _, hv, yuv, isa } => {
                let bitdepth_max: Option<c_int> = match BD::pixel_bpc() {
                    BPC::BPC8 => None,
                    BPC::BPC16 => Some(f.bitdepth_max),
                };
                let w: c_int = #[verifier::truncate] (w as c_int);
                Some(AsmCall { hv, yuv, isa, b4_stride: f.b4_stride, w, bitdepth_max })
            },
        }
    }
}

/// The call of the assembly function in `slot`, where it holds one, that filters a superblock of frame
/// `f`. Only the functions for the higher bit depths take the largest pixel.
pub open spec fn asm_call(slot: LoopFilterSbFn, f: &FrameFilter, w: usize, bpc: BPC) -> Option<AsmCall> {
    match slot {
        LoopFilterSbFn::Rust { .. } => None,
        LoopFilterSbFn::Asm { bpc: _, hv, yuv, isa } => Some(
            AsmCall {
                hv,
                yuv,
                isa,
                b4_stride: f.b4_stride,
                w: w as c_int,
                bitdepth_max: match bpc {
                    BPC::BPC8 => None,
                    BPC::BPC16 => Some(f.bitdepth_max),
                },
            },
        ),
    }
}

/// A kind that describes the slots passes the check of the kind: all slots were overwritten where it is
/// an assembly kind, and none was where it is not.
pub proof fn described_slots_pass_the_check(
    kind: LoopFilterKind,
    dsp: Rav1dLoopFilterDSPContext,
    bpc: BPC,
)
    requires
        kind.describes(dsp, bpc),
    ensures
        forall|hv: HV, yuv: YUV|
            (#[trigger] dsp.slots().slot(hv, yuv) == LoopFilterSbFn::Rust { bpc, hv, yuv })
                == !kind.is_asm(),
{
    assert forall|hv: HV, yuv: YUV|
        (#[trigger] dsp.slots().slot(hv, yuv) == LoopFilterSbFn::Rust { bpc, hv, yuv })
            == !kind.is_asm() by {
        assert(kind.describes_slot(dsp.slots().slot(hv, yuv), bpc, hv, yuv));
    }
}

/// An instruction set is only chosen where the library is built with assembly for the processor and the processor
/// has it, and the largest of these is chosen: on 64-bit x86 each of SSSE3, AVX2 and AVX-512 needs the ones
/// before it, and AVX-512 is not chosen along rows where gathering is slow; on 32-bit x86 there is SSSE3 alone.
pub proof fn chosen_set_is_the_largest_that_suits(flags: CpuFlags, target: Target, hv: HV)
    ensures
        ({
            let chosen = chosen_isa(flags, target, hv);
            let x86 = target.assembly && (target.arch is X86 || target.arch is X86_64);
            let x86_64 = target.assembly && target.arch is X86_64;
            let arm = target.assembly && (target.arch is Arm || target.arch is Aarch64);
            &&& chosen == Some(Isa::Neon) <==> arm && flags.neon
            &&& chosen == Some(Isa::Avx512Icl) <==> x86_64 && flags.ssse3 && flags.avx2 && flags.avx512icl
                && !(hv is H && flags.slow_gather)
            &&& chosen == Some(Isa::Avx2) || chosen == Some(Isa::Avx512Icl) <==> x86_64 && flags.ssse3
                && flags.avx2
            &&& chosen == Some(Isa::Ssse3) || chosen == Some(Isa::Avx2) || chosen == Some(Isa::Avx512Icl)
                <==> x86 && flags.ssse3
        }),
{
}

/// What a processor of another family could do does not count, nor does slow gathering down columns, nor, on 32-bit
/// x86, what is beyond SSSE3.
pub proof fn other_flags_do_not_count(flags: CpuFlags, other: CpuFlags, target: Target, hv: HV)
    requires
        target.arch is X86 || target.arch is X86_64 ==> flags.ssse3 == other.ssse3,
        target.arch is X86_64 ==> flags.avx2 == other.avx2 && flags.avx512icl == other.avx512icl,
        target.arch is X86_64 && hv is H ==> flags.slow_gather == other.slow_gather,
        target.arch is Arm || target.arch is Aarch64 ==> flags.neon == other.neon,
    ensures
        chosen_isa(flags, target, hv) == chosen_isa(other, target, hv),
{
}

/// Whatever is chosen, the slot for a direction of a plane holds a function for this direction and plane and for the
/// pixels of the context; without a choice it keeps the portable filter.
pub proof fn slot_holds_a_function_for_its_place(isa: Option<Isa>, bpc: BPC, hv: HV, yuv: YUV)
    ensures
        match slot_for(isa, bpc, hv, yuv, LoopFilterSbFn::Rust { bpc, hv, yuv }) {
            LoopFilterSbFn::Rust { bpc: b, hv: d, yuv: p } => isa is None && b == bpc && d == hv && p == yuv,
            LoopFilterSbFn::Asm { bpc: b, hv: d, yuv: p, isa: i } => isa == Some(i) && b == bpc && d == hv
                && p == yuv,
        },
{
}

/// Each of the four slots is found by its plane and direction.
pub proof fn slots_are_found_by_plane_and_direction(slots: LoopFilterYUVDSPContext)
    ensures
        slots.slot(HV::H, YUV::Y) == slots.y.h,
        slots.slot(HV::V, YUV::Y) == slots.y.v,
        slots.slot(HV::H, YUV::UV) == slots.uv.h,
        slots.slot(HV::V, YUV::UV) == slots.uv.v,
{
}

/// The call of an assembly function hands on the stride of the frame's levels, the width and, where pixels have more
/// than eight bits, the frame's largest pixel; there is none for the portable filter.
pub proof fn assembly_gets_what_the_frame_holds(slot: LoopFilterSbFn, f: &FrameFilter, w: usize, bpc: BPC)
    ensures
        asm_call(slot, f, w, bpc) is None <==> slot is Rust,
        asm_call(slot, f, w, bpc) matches Some(call) ==> {
            &&& slot matches LoopFilterSbFn::Asm { bpc: _, hv, yuv, isa } && call.hv == hv && call.yuv == yuv
                && call.isa == isa
            &&& call.b4_stride == f.b4_stride
            &&& w <= 0x7fff_ffff ==> call.w == w
            &&& bpc is BPC8 ==> call.bitdepth_max is None
            &&& bpc is BPC16 ==> call.bitdepth_max == Some(f.bitdepth_max)
        },
{
}

/// Filtering a superblock of a frame is filtering it with the frame's thresholds, stride of levels and largest pixel,
/// and with the masks and levels of the call.
pub proof fn frame_is_filtered_with_its_own_parameters<BD: BitDepth>(
    f: &FrameFilter,
    hv: HV,
    yuv: YUV,
    base: usize,
    stride: isize,
    mask: &[u32; 3],
    lvl: Seq<u8>,
    lvl_at: usize,
)
    ensures
        ({
            let s = f.edges::<BD>(hv, yuv, base, stride, mask, lvl, lvl_at);
            let bd = BD::with_max(f.bitdepth_max as int);
            &&& s.hv == hv
            &&& s.yuv == yuv
            &&& s.base == base
            &&& s.stride == stride
            &&& s.vmask == mask@
            &&& s.lvl == lvl
            &&& s.lvl_at == lvl_at
            &&& f.b4_stride >= 0 ==> s.b4_stride == f.b4_stride
            &&& s.lut == *f.lim_lut
            &&& s.bits == bd.bits()
            &&& s.max_pixel == bd.max_pixel()
        }),
{
}

} // verus!
