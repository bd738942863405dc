//! An x86-64 assembler.
//!
//! One method call assembles exactly one native instruction into the code
//! buffer, so documentation about the x86-64 instruction set applies
//! directly to the assembled code.  All REX prefixing and ModR/M encoding
//! is handled internally, and every method's contract states the exact
//! bytes it emits.  Control-flow instructions take an optional target and
//! return a [`Patch`], through which the 32-bit displacement can be
//! rewritten later, repeatedly if desired.

use vstd::prelude::*;

use crate::buffer::{BufferMode, CodeBuffer};
use crate::code::{Precision, Width};
use crate::x86_64::{cc_num, op_num, reg_num, shift_num, BinaryOp, Condition, Register, ShiftOp};

verus! {

/// The REX.W bit of a [`Precision`].
pub open spec fn w_bit(p: Precision) -> int {
    match p {
        Precision::P32 => 0,
        Precision::P64 => 1,
    }
}

/// A REX prefix with the given W bit and the high bits of the `reg` and
/// `rm` fields.
pub open spec fn rex(w: int, reg_hi: int, rm_hi: int) -> u8 {
    (0x40 + 8 * w + 4 * reg_hi + rm_hi) as u8
}

/// A ModR/M byte.
pub open spec fn modrm(md: int, reg: int, rm: int) -> u8 {
    (64 * md + 8 * reg + rm) as u8
}

/// The high bit of a register number: the REX extension bit.
pub open spec fn hi(r: Register) -> int {
    reg_num(r) / 8
}

/// The low three bits of a register number: the ModR/M field.
pub open spec fn lo(r: Register) -> int {
    reg_num(r) % 8
}

/// The four little-endian bytes of `x`, which must be in `0..2^32`.
pub open spec fn le32n(x: int) -> Seq<u8> {
    seq![
        (x % 256) as u8,
        (x / 256 % 256) as u8,
        (x / 65536 % 256) as u8,
        (x / 16777216 % 256) as u8,
    ]
}

/// The eight little-endian bytes of `x`, which must be in `0..2^64`.
pub open spec fn le64n(x: int) -> Seq<u8> {
    seq![
        (x % 256) as u8,
        (x / 256 % 256) as u8,
        (x / 65536 % 256) as u8,
        (x / 16777216 % 256) as u8,
        (x / 0x100000000 % 256) as u8,
        (x / 0x10000000000 % 256) as u8,
        (x / 0x1000000000000 % 256) as u8,
        (x / 0x100000000000000 % 256) as u8,
    ]
}

/// The unsigned 32-bit representation of a signed value.
pub open spec fn u32_bits(x: int) -> int {
    if x < 0 {
        x + 0x100000000
    } else {
        x
    }
}

/// The unsigned 64-bit representation of a signed value.
pub open spec fn u64_bits(x: int) -> int {
    if x < 0 {
        x + 0x10000000000000000
    } else {
        x
    }
}

/// The unsigned 8-bit representation of a signed value.
pub open spec fn u8_bits(x: int) -> int {
    if x < 0 {
        x + 0x100
    } else {
        x
    }
}

/// A `rel32` value which, if ever used, is likely to crash immediately:
/// used for jumps whose target is not yet known.
pub open spec fn unknown_disp_bits() -> int {
    0x80000000
}

/// The displacement from `from` to `to` fits in 32 bits.
pub open spec fn target_ok(from: int, target: Option<usize>) -> bool {
    match target {
        None => true,
        Some(t) => {
            &&& from <= 0x7FFFFFFFFFFFFFFF
            &&& t <= 0x7FFFFFFFFFFFFFFF
            &&& -0x80000000 <= t - from < 0x80000000
        },
    }
}

/// The 32-bit displacement field for a jump at whose end is `from`:
/// the distance to the target, or the crashing placeholder.
pub open spec fn opt_disp_bits(from: int, target: Option<usize>) -> int {
    match target {
        None => unknown_disp_bits(),
        Some(t) => u32_bits(t - from),
    }
}

/// The bytes at `a` are the start of a patchable control-flow
/// instruction: a conditional jump, an unconditional jump, or a call,
/// each followed by a 32-bit displacement at `a + 2`.
pub open spec fn patch_site_ok(bytes: Seq<u8>, a: int) -> bool {
    &&& 0 <= a
    &&& a + 6 <= bytes.len()
    &&& ((bytes[a] == 0x0F && 0x80 <= bytes[a + 1] < 0x90) || (bytes[a] == 0x40 && bytes[a + 1]
        == 0xE9) || (bytes[a] == 0x40 && bytes[a + 1] == 0xE8))
}

/// The displacement field of the patchable instruction at `a`, decoded.
pub open spec fn disp_at(bytes: Seq<u8>, a: int) -> int {
    bytes[a + 2] + 256 * (bytes[a + 3] as int) + 65536 * (bytes[a + 4] as int) + 16777216 * (bytes[a
        + 5] as int)
}

/// Encoding and decoding a displacement are inverse.
proof fn lemma_le32_decode(b0: u8, b1: u8, b2: u8, b3: u8)
    ensures
        le32n(b0 + 256 * (b1 as int) + 65536 * (b2 as int) + 16777216 * (b3 as int)) =~= seq![
            b0,
            b1,
            b2,
            b3,
        ],
{
    let x = b0 + 256 * (b1 as int) + 65536 * (b2 as int) + 16777216 * (b3 as int);
    assert(x % 256 == b0 as int) by (nonlinear_arith)
        requires
            x == b0 + 256 * (b1 as int) + 65536 * (b2 as int) + 16777216 * (b3 as int),
            0 <= b0 < 256,
            0 <= b1 < 256,
            0 <= b2 < 256,
            0 <= b3 < 256,
    ;
    assert(x / 256 % 256 == b1 as int) by (nonlinear_arith)
        requires
            x == b0 + 256 * (b1 as int) + 65536 * (b2 as int) + 16777216 * (b3 as int),
            0 <= b0 < 256,
            0 <= b1 < 256,
            0 <= b2 < 256,
            0 <= b3 < 256,
    ;
    assert(x / 65536 % 256 == b2 as int) by (nonlinear_arith)
        requires
            x == b0 + 256 * (b1 as int) + 65536 * (b2 as int) + 16777216 * (b3 as int),
            0 <= b0 < 256,
            0 <= b1 < 256,
            0 <= b2 < 256,
            0 <= b3 < 256,
    ;
    assert(x / 16777216 % 256 == b3 as int) by (nonlinear_arith)
        requires
            x == b0 + 256 * (b1 as int) + 65536 * (b2 as int) + 16777216 * (b3 as int),
            0 <= b0 < 256,
            0 <= b1 < 256,
            0 <= b2 < 256,
            0 <= b3 < 256,
    ;
}

/// Patching a displacement to a new target and back restores the bytes
/// exactly: the law of patch round trips.
///
/// `b1` is `b0` with the displacement field at `a + 2` rewritten for
/// target `tb`, and `b2` is `b1` rewritten back for `ta`, which the field
/// originally held.  Then `b2` is `b0`, byte for byte.
pub proof fn lemma_patch_round_trip(
    b0: Seq<u8>,
    b1: Seq<u8>,
    b2: Seq<u8>,
    a: int,
    ta: Option<usize>,
    tb: Option<usize>,
)
    requires
        patch_site_ok(b0, a),
        disp_at(b0, a) == opt_disp_bits(a + 6, ta),
        b1.len() == b0.len(),
        forall|i: int|
            0 <= i < b0.len() ==> #[trigger] b1[i] == if a + 2 <= i < a + 6 {
                le32n(opt_disp_bits(a + 6, tb))[i - (a + 2)]
            } else {
                b0[i]
            },
        b2.len() == b1.len(),
        forall|i: int|
            0 <= i < b1.len() ==> #[trigger] b2[i] == if a + 2 <= i < a + 6 {
                le32n(opt_disp_bits(a + 6, ta))[i - (a + 2)]
            } else {
                b1[i]
            },
    ensures
        b2 =~= b0,
{
    lemma_le32_decode(b0[a + 2], b0[a + 3], b0[a + 4], b0[a + 5]);
    assert forall|i: int| 0 <= i < b0.len() implies b2[i] == b0[i] by {
        if a + 2 <= i < a + 6 {
            assert(le32n(disp_at(b0, a)) =~= seq![b0[a + 2], b0[a + 3], b0[a + 4], b0[a + 5]]);
            assert(b2[i] == le32n(opt_disp_bits(a + 6, ta))[i - (a + 2)]);
        }
    }
}


/// Computes the displacement from `from` to `to`.  Positions above
/// `isize::MAX` are not supported.
pub fn disp(from: usize, to: usize) -> (d: isize)
    requires
        from <= isize::MAX as usize,
        to <= isize::MAX as usize,
    ensures
        d as int == to - from,
{
    ((to as i64) - (from as i64)) as isize
}

/// Computes the 32-bit displacement from `from` to `to`, which must be
/// representable.
pub fn disp32(from: usize, to: usize) -> (d: i32)
    requires
        target_ok(from as int, Some(to)),
    ensures
        d as int == to - from,
{
    ((to as i64) - (from as i64)) as i32
}

/// Like [`disp32`], but yields the crashing placeholder when the target
/// is unknown.
pub fn optional_disp32(from: usize, to: Option<usize>) -> (d: i32)
    requires
        target_ok(from as int, to),
    ensures
        u32_bits(d as int) == opt_disp_bits(from as int, to),
{
    match to {
        None => -0x80000000,
        Some(t) => disp32(from, t),
    }
}

/// The buffer position of an encoded jump or call whose displacement can
/// be rewritten.
#[derive(Debug, Copy, Clone, PartialEq, Eq, Structural)]
pub struct Patch(pub usize);

impl Patch {
    /// Records a patchable instruction assembled at `address`.
    pub fn new(address: usize) -> (p: Patch)
        ensures
            p.0 == address,
    {
        Patch(address)
    }

    /// The buffer position of the instruction.
    pub fn address(self) -> (a: usize)
        ensures
            a == self.0,
    {
        self.0
    }
}

/// A control-flow target that may not be known yet, and the instructions
/// that jump to it.  The target can be changed later by patching.
#[derive(Debug)]
pub struct Label {
    /// The target address, if known.
    target: Option<usize>,
    /// The patchable instructions that jump to this label.
    patches: Vec<Patch>,
}

impl Label {
    /// The target address, if known.
    pub closed spec fn target_spec(self) -> Option<usize> {
        self.target
    }

    /// The patchable instructions that jump to this label.
    pub closed spec fn patches_spec(self) -> Seq<Patch> {
        self.patches@
    }

    /// An unused label with an unknown target.
    pub fn new() -> (l: Label)
        ensures
            l.target_spec() is None,
            l.patches_spec() =~= Seq::<Patch>::empty(),
    {
        Label { target: None, patches: Vec::new() }
    }

    /// Whether the label's target is known.
    pub fn is_defined(&self) -> (r: bool)
        ensures
            r == (self.target_spec() is Some),
    {
        self.target.is_some()
    }

    /// The target address, if known.
    pub fn target(&self) -> (t: Option<usize>)
        ensures
            t == self.target_spec(),
    {
        self.target
    }

    /// Sets the target address.
    pub fn set_target(&mut self, target: Option<usize>)
        ensures
            final(self).target_spec() == target,
            final(self).patches_spec() =~= old(self).patches_spec(),
    {
        self.target = target;
    }

    /// Appends an instruction that jumps to this label.
    pub fn push(&mut self, patch: Patch)
        ensures
            final(self).target_spec() == old(self).target_spec(),
            final(self).patches_spec() =~= old(self).patches_spec().push(patch),
    {
        self.patches.push(patch);
    }

    /// Returns and forgets the instructions that jump to this label.
    pub fn drain(&mut self) -> (r: Vec<Patch>)
        ensures
            final(self).target_spec() == old(self).target_spec(),
            final(self).patches_spec() =~= Seq::<Patch>::empty(),
            r@ =~= old(self).patches_spec(),
    {
        let mut taken: Vec<Patch> = Vec::new();
        core::mem::swap(&mut self.patches, &mut taken);
        taken
    }
}

/// An assembler: a code buffer and, implicitly, the position at its end
/// where the next instruction is emitted.
#[derive(Debug)]
pub struct Assembler {
    buffer: CodeBuffer,
}

impl View for Assembler {
    type V = Seq<u8>;

    closed spec fn view(&self) -> Seq<u8> {
        self.buffer@
    }
}

impl Assembler {
    /// The buffer's current mode.
    pub closed spec fn mode(self) -> BufferMode {
        self.buffer.mode()
    }

    /// Constructs an assembler around `buffer`.
    pub fn new(buffer: CodeBuffer) -> (a: Assembler)
        ensures
            a@ =~= buffer@,
            a.mode() == buffer.mode(),
    {
        Assembler { buffer }
    }

    /// Hands the buffer back, consuming the assembler.
    pub fn into_buffer(self) -> (b: CodeBuffer)
        ensures
            b@ =~= self@,
            b.mode() == self.mode(),
    {
        self.buffer
    }

    /// The position where the next instruction will be assembled.
    pub fn get_pos(&self) -> (p: usize)
        ensures
            p == self@.len(),
    {
        self.buffer.len()
    }

    /// Reads back an assembled byte.
    pub fn read_byte_at(&self, pos: usize) -> (b: u8)
        requires
            pos < self@.len(),
        ensures
            b == self@[pos as int],
    {
        self.buffer.read_byte(pos)
    }

    /// Emits one byte at the end of the buffer.
    fn emit(&mut self, b: u8)
        requires
            old(self).mode() == BufferMode::Writable,
        ensures
            final(self).mode() == BufferMode::Writable,
            final(self)@ =~= old(self)@.push(b),
    {
        let pos = self.buffer.len();
        self.buffer.write_byte_at(pos, b);
    }

    /// Writes an 8-bit signed immediate.
    pub fn write_imm8(&mut self, imm: i8)
        requires
            old(self).mode() == BufferMode::Writable,
        ensures
            final(self).mode() == BufferMode::Writable,
            final(self)@ =~= old(self)@.push(u8_bits(imm as int) as u8),
    {
        let b: u8 = if imm >= 0 {
            imm as u8
        } else {
            255 - ((-(imm + 1)) as u8)
        };
        self.emit(b);
    }

    /// Writes a 32-bit signed immediate, little-endian.
    pub fn write_imm32(&mut self, imm: i32)
        requires
            old(self).mode() == BufferMode::Writable,
        ensures
            final(self).mode() == BufferMode::Writable,
            final(self)@ =~= old(self)@ + le32n(u32_bits(imm as int)),
    {
        let x: u32 = if imm >= 0 {
            imm as u32
        } else {
            0xFFFFFFFFu32 - ((-(imm + 1)) as u32)
        };
        self.emit((x % 256) as u8);
        self.emit((x / 256 % 256) as u8);
        self.emit((x / 65536 % 256) as u8);
        self.emit((x / 16777216 % 256) as u8);
        proof {
            assert(final(self)@ =~= old(self)@ + le32n(u32_bits(imm as int)));
        }
    }

    /// Writes a 64-bit signed immediate, little-endian.
    pub fn write_imm64(&mut self, imm: i64)
        requires
            old(self).mode() == BufferMode::Writable,
        ensures
            final(self).mode() == BufferMode::Writable,
            final(self)@ =~= old(self)@ + le64n(u64_bits(imm as int)),
    {
        let x: u64 = if imm >= 0 {
            imm as u64
        } else {
            0xFFFFFFFFFFFFFFFFu64 - ((-(imm + 1)) as u64)
        };
        self.emit((x % 256) as u8);
        self.emit((x / 256 % 256) as u8);
        self.emit((x / 65536 % 256) as u8);
        self.emit((x / 16777216 % 256) as u8);
        self.emit((x / 0x100000000 % 256) as u8);
        self.emit((x / 0x10000000000 % 256) as u8);
        self.emit((x / 0x1000000000000 % 256) as u8);
        self.emit((x / 0x100000000000000 % 256) as u8);
        proof {
            assert(final(self)@ =~= old(self)@ + le64n(u64_bits(imm as int)));
        }
    }

    /// Emits the SIB byte `0x24` if `rm`, used as a memory base, has the
    /// low three bits `100`: the pattern that would otherwise announce a
    /// SIB byte.  `0x24` selects no index and `rm` itself as the base.
    pub fn write_sib_fix(&mut self, rm: Register)
        requires
            old(self).mode() == BufferMode::Writable,
        ensures
            final(self).mode() == BufferMode::Writable,
            final(self)@ =~= old(self)@ + sib_fix(rm),
    {
        if rm.number() % 8 == 4 {
            self.emit(0x24);
            proof {
                assert(final(self)@ =~= old(self)@ + sib_fix(rm));
            }
        } else {
            proof {
                assert(final(self)@ =~= old(self)@ + sib_fix(rm));
            }
        }
    }

    /// Move register to register.
    pub fn move_(&mut self, prec: Precision, dest: Register, src: Register)
        requires
            old(self).mode() == BufferMode::Writable,
        ensures
            final(self).mode() == BufferMode::Writable,
            final(self)@ =~= old(self)@ + seq![
                rex(w_bit(prec), hi(dest), hi(src)),
                0x8Bu8,
                modrm(3, lo(dest), lo(src)),
            ],
    {
        self.emit(0x40 + 8 * prec_w(prec) + 4 * (dest.number() / 8) + src.number() / 8);
        self.emit(0x8B);
        self.emit(0xC0 + 8 * (dest.number() % 8) + src.number() % 8);
        proof {
            assert(final(self)@ =~= old(self)@ + seq![
                rex(w_bit(prec), hi(dest), hi(src)),
                0x8Bu8,
                modrm(3, lo(dest), lo(src)),
            ]);
        }
    }

    /// Move memory to register.
    pub fn load(&mut self, prec: Precision, dest: Register, src: (Register, i32))
        requires
            old(self).mode() == BufferMode::Writable,
        ensures
            final(self).mode() == BufferMode::Writable,
            final(self)@ =~= old(self)@ + seq![
                rex(w_bit(prec), hi(dest), hi(src.0)),
                0x8Bu8,
                modrm(2, lo(dest), lo(src.0)),
            ] + sib_fix(src.0) + le32n(u32_bits(src.1 as int)),
    {
        self.emit(0x40 + 8 * prec_w(prec) + 4 * (dest.number() / 8) + src.0.number() / 8);
        self.emit(0x8B);
        self.emit(0x80 + 8 * (dest.number() % 8) + src.0.number() % 8);
        self.write_sib_fix(src.0);
        self.write_imm32(src.1);
        proof {
            assert(final(self)@ =~= old(self)@ + seq![
                rex(w_bit(prec), hi(dest), hi(src.0)),
                0x8Bu8,
                modrm(2, lo(dest), lo(src.0)),
            ] + sib_fix(src.0) + le32n(u32_bits(src.1 as int)));
        }
    }

    /// Move register to memory.
    pub fn store(&mut self, prec: Precision, dest: (Register, i32), src: Register)
        requires
            old(self).mode() == BufferMode::Writable,
        ensures
            final(self).mode() == BufferMode::Writable,
            final(self)@ =~= old(self)@ + seq![
                rex(w_bit(prec), hi(src), hi(dest.0)),
                0x89u8,
                modrm(2, lo(src), lo(dest.0)),
            ] + sib_fix(dest.0) + le32n(u32_bits(dest.1 as int)),
    {
        self.emit(0x40 + 8 * prec_w(prec) + 4 * (src.number() / 8) + dest.0.number() / 8);
        self.emit(0x89);
        self.emit(0x80 + 8 * (src.number() % 8) + dest.0.number() % 8);
        self.write_sib_fix(dest.0);
        self.write_imm32(dest.1);
        proof {
            assert(final(self)@ =~= old(self)@ + seq![
                rex(w_bit(prec), hi(src), hi(dest.0)),
                0x89u8,
                modrm(2, lo(src), lo(dest.0)),
            ] + sib_fix(dest.0) + le32n(u32_bits(dest.1 as int)));
        }
    }

    /// Arithmetic, register to register.
    pub fn op(&mut self, op: BinaryOp, prec: Precision, dest: Register, src: Register)
        requires
            old(self).mode() == BufferMode::Writable,
        ensures
            final(self).mode() == BufferMode::Writable,
            final(self)@ =~= old(self)@ + seq![
                rex(w_bit(prec), hi(src), hi(dest)),
                (8 * op_num(op) + 1) as u8,
                modrm(3, lo(src), lo(dest)),
            ],
    {
        self.emit(0x40 + 8 * prec_w(prec) + 4 * (src.number() / 8) + dest.number() / 8);
        self.emit(8 * op.number() + 1);
        self.emit(0xC0 + 8 * (src.number() % 8) + dest.number() % 8);
        proof {
            assert(final(self)@ =~= old(self)@ + seq![
                rex(w_bit(prec), hi(src), hi(dest)),
                (8 * op_num(op) + 1) as u8,
                modrm(3, lo(src), lo(dest)),
            ]);
        }
    }

    /// Arithmetic, constant to register.
    pub fn const_op(&mut self, op: BinaryOp, prec: Precision, dest: Register, imm: i32)
        requires
            old(self).mode() == BufferMode::Writable,
        ensures
            final(self).mode() == BufferMode::Writable,
            final(self)@ =~= old(self)@ + seq![
                rex(w_bit(prec), 0, hi(dest)),
                0x81u8,
                modrm(3, op_num(op), lo(dest)),
            ] + le32n(u32_bits(imm as int)),
    {
        self.emit(0x40 + 8 * prec_w(prec) + dest.number() / 8);
        self.emit(0x81);
        self.emit(0xC0 + 8 * op.number() + dest.number() % 8);
        self.write_imm32(imm);
        proof {
            assert(final(self)@ =~= old(self)@ + seq![
                rex(w_bit(prec), 0, hi(dest)),
                0x81u8,
                modrm(3, op_num(op), lo(dest)),
            ] + le32n(u32_bits(imm as int)));
        }
    }

    /// Move constant to register, preserving the status flags.
    pub fn const_preserving_flags(&mut self, prec: Precision, dest: Register, imm: i64)
        requires
            old(self).mode() == BufferMode::Writable,
        ensures
            final(self).mode() == BufferMode::Writable,
            final(self)@ =~= old(self)@ + const_flags_bytes(prec, dest, imm as int),
    {
        let masked: i64 = if prec == Precision::P32 {
            ((imm % 0x100000000) + 0x100000000) % 0x100000000
        } else {
            imm
        };
        proof {
            assert(masked as int == masked_imm(prec, imm as int));
        }
        if 0 <= masked && masked <= 0xFFFFFFFF {
            // A 32-bit zero-extended constant: `mov r32, imm32`.
            self.emit(0x40 + dest.number() / 8);
            self.emit(0xB8 + dest.number() % 8);
            let lo32: i64 = if masked >= 0x80000000 {
                masked - 0x100000000
            } else {
                masked
            };
            self.write_imm32(lo32 as i32);
        } else if -0x80000000 <= masked && masked < 0x80000000 {
            // A sign-extended 32-bit constant: `mov r/m64, imm32`.
            self.emit(0x48 + dest.number() / 8);
            self.emit(0xC7);
            self.emit(0xC0 + dest.number() % 8);
            self.write_imm32(masked as i32);
        } else {
            // A full 64-bit constant: `mov r64, imm64`.
            self.emit(0x48 + dest.number() / 8);
            self.emit(0xB8 + dest.number() % 8);
            self.write_imm64(masked);
        }
        proof {
            assert(final(self)@ =~= old(self)@ + const_flags_bytes(prec, dest, imm as int));
        }
    }

    /// Move constant to register.  A zero constant is assembled as the
    /// shorter `xor` idiom, which corrupts the status flags; use
    /// [`Assembler::const_preserving_flags`] to avoid that.
    pub fn const_(&mut self, prec: Precision, dest: Register, imm: i64)
        requires
            old(self).mode() == BufferMode::Writable,
        ensures
            final(self).mode() == BufferMode::Writable,
            final(self)@ =~= old(self)@ + const_bytes(prec, dest, imm as int),
    {
        let masked: i64 = if prec == Precision::P32 {
            ((imm % 0x100000000) + 0x100000000) % 0x100000000
        } else {
            imm
        };
        proof {
            assert(masked as int == masked_imm(prec, imm as int));
        }
        if masked == 0 {
            self.op(BinaryOp::Xor, prec, dest, dest);
        } else {
            self.const_preserving_flags(prec, dest, masked);
            proof {
                assert(masked_imm(prec, masked as int) == masked_imm(prec, imm as int));
            }
        }
        proof {
            assert(final(self)@ =~= old(self)@ + const_bytes(prec, dest, imm as int));
        }
    }

    /// Conditional branch to `target`, which may be unknown.  Returns a
    /// [`Patch`] through which the target can be changed.
    pub fn jump_if(&mut self, cc: Condition, target: Option<usize>) -> (p: Patch)
        requires
            old(self).mode() == BufferMode::Writable,
            old(self)@.len() + 6 <= usize::MAX,
            target_ok(old(self)@.len() as int + 6, target),
        ensures
            final(self).mode() == BufferMode::Writable,
            p.0 == old(self)@.len(),
            final(self)@ =~= old(self)@ + seq![0x0Fu8, (0x80 + cc_num(cc)) as u8] + le32n(
                opt_disp_bits(old(self)@.len() as int + 6, target),
            ),
    {
        let p = Patch::new(self.get_pos());
        self.emit(0x0F);
        self.emit(0x80 + cc.number());
        self.write_disp32(target);
        proof {
            assert(final(self)@ =~= old(self)@ + seq![0x0Fu8, (0x80 + cc_num(cc)) as u8] + le32n(
                opt_disp_bits(old(self)@.len() as int + 6, target),
            ));
        }
        p
    }

    /// Unconditional jump to a register.
    pub fn jump(&mut self, target: Register)
        requires
            old(self).mode() == BufferMode::Writable,
        ensures
            final(self).mode() == BufferMode::Writable,
            final(self)@ =~= old(self)@ + seq![
                rex(0, 0, hi(target)),
                0xFFu8,
                modrm(3, 4, lo(target)),
            ],
    {
        self.emit(0x40 + target.number() / 8);
        self.emit(0xFF);
        self.emit(0xE0 + target.number() % 8);
        proof {
            assert(final(self)@ =~= old(self)@ + seq![
                rex(0, 0, hi(target)),
                0xFFu8,
                modrm(3, 4, lo(target)),
            ]);
        }
    }

    /// Unconditional jump to `target`, which may be unknown.  Returns a
    /// [`Patch`].
    pub fn const_jump(&mut self, target: Option<usize>) -> (p: Patch)
        requires
            old(self).mode() == BufferMode::Writable,
            old(self)@.len() + 6 <= usize::MAX,
            target_ok(old(self)@.len() as int + 6, target),
        ensures
            final(self).mode() == BufferMode::Writable,
            p.0 == old(self)@.len(),
            final(self)@ =~= old(self)@ + seq![0x40u8, 0xE9u8] + le32n(
                opt_disp_bits(old(self)@.len() as int + 6, target),
            ),
    {
        let p = Patch::new(self.get_pos());
        self.emit(0x40);
        self.emit(0xE9);
        self.write_disp32(target);
        proof {
            assert(final(self)@ =~= old(self)@ + seq![0x40u8, 0xE9u8] + le32n(
                opt_disp_bits(old(self)@.len() as int + 6, target),
            ));
        }
        p
    }

    /// Unconditional call to a register.
    pub fn call(&mut self, target: Register)
        requires
            old(self).mode() == BufferMode::Writable,
        ensures
            final(self).mode() == BufferMode::Writable,
            final(self)@ =~= old(self)@ + seq![
                rex(0, 0, hi(target)),
                0xFFu8,
                modrm(3, 2, lo(target)),
            ],
    {
        self.emit(0x40 + target.number() / 8);
        self.emit(0xFF);
        self.emit(0xD0 + target.number() % 8);
        proof {
            assert(final(self)@ =~= old(self)@ + seq![
                rex(0, 0, hi(target)),
                0xFFu8,
                modrm(3, 2, lo(target)),
            ]);
        }
    }

    /// Unconditional call to `target`, which may be unknown.  Returns a
    /// [`Patch`].
    pub fn const_call(&mut self, target: Option<usize>) -> (p: Patch)
        requires
            old(self).mode() == BufferMode::Writable,
            old(self)@.len() + 6 <= usize::MAX,
            target_ok(old(self)@.len() as int + 6, target),
        ensures
            final(self).mode() == BufferMode::Writable,
            p.0 == old(self)@.len(),
            final(self)@ =~= old(self)@ + seq![0x40u8, 0xE8u8] + le32n(
                opt_disp_bits(old(self)@.len() as int + 6, target),
            ),
    {
        let p = Patch::new(self.get_pos());
        self.emit(0x40);
        self.emit(0xE8);
        self.write_disp32(target);
        proof {
            assert(final(self)@ =~= old(self)@ + seq![0x40u8, 0xE8u8] + le32n(
                opt_disp_bits(old(self)@.len() as int + 6, target),
            ));
        }
        p
    }

    /// Writes the 32-bit displacement to `target`, measured from the end
    /// of the four bytes written, or the crashing placeholder if the
    /// target is unknown.
    fn write_disp32(&mut self, target: Option<usize>)
        requires
            old(self).mode() == BufferMode::Writable,
            old(self)@.len() + 4 <= usize::MAX,
            target_ok(old(self)@.len() as int + 4, target),
        ensures
            final(self).mode() == BufferMode::Writable,
            final(self)@ =~= old(self)@ + le32n(opt_disp_bits(old(self)@.len() as int + 4, target)),
    {
        match target {
            None => {
                self.emit(0x00);
                self.emit(0x00);
                self.emit(0x00);
                self.emit(0x80);
                proof {
                    assert(le32n(unknown_disp_bits()) =~= seq![0x00u8, 0x00u8, 0x00u8, 0x80u8]);
                    assert(final(self)@ =~= old(self)@ + le32n(
                        opt_disp_bits(old(self)@.len() as int + 4, target),
                    ));
                }
            },
            Some(t) => {
                let from = self.get_pos() + 4;
                let d: i64 = t as i64 - from as i64;
                self.write_imm32(d as i32);
                proof {
                    assert(d as int == t - (old(self)@.len() + 4));
                    assert(final(self)@ =~= old(self)@ + le32n(
                        opt_disp_bits(old(self)@.len() as int + 4, target),
                    ));
                }
            },
        }
    }

    /// Return from a call.
    pub fn ret(&mut self)
        requires
            old(self).mode() == BufferMode::Writable,
        ensures
            final(self).mode() == BufferMode::Writable,
            final(self)@ =~= old(self)@ + seq![0x40u8, 0xC3u8],
    {
        self.emit(0x40);
        self.emit(0xC3);
        proof {
            assert(final(self)@ =~= old(self)@ + seq![0x40u8, 0xC3u8]);
        }
    }

    /// Push a register.
    pub fn push(&mut self, rd: Register)
        requires
            old(self).mode() == BufferMode::Writable,
        ensures
            final(self).mode() == BufferMode::Writable,
            final(self)@ =~= old(self)@ + seq![rex(1, 0, hi(rd)), (0x50 + lo(rd)) as u8],
    {
        self.emit(0x48 + rd.number() / 8);
        self.emit(0x50 + rd.number() % 8);
        proof {
            assert(final(self)@ =~= old(self)@ + seq![rex(1, 0, hi(rd)), (0x50 + lo(rd)) as u8]);
        }
    }

    /// Pop a register.
    pub fn pop(&mut self, rd: Register)
        requires
            old(self).mode() == BufferMode::Writable,
        ensures
            final(self).mode() == BufferMode::Writable,
            final(self)@ =~= old(self)@ + seq![rex(1, 0, hi(rd)), (0x58 + lo(rd)) as u8],
    {
        self.emit(0x48 + rd.number() / 8);
        self.emit(0x58 + rd.number() % 8);
        proof {
            assert(final(self)@ =~= old(self)@ + seq![rex(1, 0, hi(rd)), (0x58 + lo(rd)) as u8]);
        }
    }


    /// Load narrow data, sign- or zero-extending to the given precision.
    /// 32-bit loads zero-extend automatically, so the unsigned 32-bit
    /// form ignores `prec`.
    #[verifier::rlimit(60)]
    pub fn load_narrow(
        &mut self,
        prec: Precision,
        width: Width,
        dest: Register,
        src: (Register, i32),
    )
        requires
            old(self).mode() == BufferMode::Writable,
        ensures
            final(self).mode() == BufferMode::Writable,
            final(self)@ =~= old(self)@ + load_narrow_opcode(prec, width, dest, src.0) + sib_fix(
                src.0,
            ) + le32n(u32_bits(src.1 as int)),
    {
        let w = prec_w(prec);
        let dhi = dest.number() / 8;
        let dlo = dest.number() % 8;
        let shi = src.0.number() / 8;
        let slo = src.0.number() % 8;
        match width {
            Width::U8 => {
                self.emit(0x40 + 8 * w + 4 * dhi + shi);
                self.emit(0x0F);
                self.emit(0xB6);
                self.emit(0x80 + 8 * dlo + slo);
            },
            Width::S8 => {
                self.emit(0x40 + 8 * w + 4 * dhi + shi);
                self.emit(0x0F);
                self.emit(0xBE);
                self.emit(0x80 + 8 * dlo + slo);
            },
            Width::U16 => {
                self.emit(0x40 + 8 * w + 4 * dhi + shi);
                self.emit(0x0F);
                self.emit(0xB7);
                self.emit(0x80 + 8 * dlo + slo);
            },
            Width::S16 => {
                self.emit(0x40 + 8 * w + 4 * dhi + shi);
                self.emit(0x0F);
                self.emit(0xBF);
                self.emit(0x80 + 8 * dlo + slo);
            },
            Width::U32 => {
                self.emit(0x40 + 4 * dhi + shi);
                self.emit(0x8B);
                self.emit(0x80 + 8 * dlo + slo);
            },
            Width::S32 => {
                self.emit(0x40 + 8 * w + 4 * dhi + shi);
                self.emit(0x63);
                self.emit(0x80 + 8 * dlo + slo);
            },
            Width::U64 => {
                self.emit(0x40 + 8 * w + 4 * dhi + shi);
                self.emit(0x8B);
                self.emit(0x80 + 8 * dlo + slo);
            },
            Width::S64 => {
                self.emit(0x40 + 8 * w + 4 * dhi + shi);
                self.emit(0x8B);
                self.emit(0x80 + 8 * dlo + slo);
            },
        }
        self.write_sib_fix(src.0);
        self.write_imm32(src.1);
        proof {
            assert(final(self)@ =~= old(self)@ + load_narrow_opcode(prec, width, dest, src.0)
                + sib_fix(src.0) + le32n(u32_bits(src.1 as int)));
        }
    }

    /// Store narrow data.
    #[verifier::rlimit(60)]
    pub fn store_narrow(&mut self, width: Width, dest: (Register, i32), src: Register)
        requires
            old(self).mode() == BufferMode::Writable,
        ensures
            final(self).mode() == BufferMode::Writable,
            final(self)@ =~= old(self)@ + store_narrow_opcode(width, dest.0, src) + sib_fix(dest.0)
                + le32n(u32_bits(dest.1 as int)),
    {
        let shi = src.number() / 8;
        let slo = src.number() % 8;
        let dhi = dest.0.number() / 8;
        let dlo = dest.0.number() % 8;
        match width {
            Width::U8 | Width::S8 => {
                self.emit(0x40 + 4 * shi + dhi);
                self.emit(0x88);
                self.emit(0x80 + 8 * slo + dlo);
            },
            Width::U16 | Width::S16 => {
                self.emit(0x66);
                self.emit(0x40 + 4 * shi + dhi);
                self.emit(0x89);
                self.emit(0x80 + 8 * slo + dlo);
            },
            Width::U32 | Width::S32 => {
                self.emit(0x40 + 4 * shi + dhi);
                self.emit(0x89);
                self.emit(0x80 + 8 * slo + dlo);
            },
            Width::U64 | Width::S64 => {
                self.emit(0x48 + 4 * shi + dhi);
                self.emit(0x89);
                self.emit(0x80 + 8 * slo + dlo);
            },
        }
        self.write_sib_fix(dest.0);
        self.write_imm32(dest.1);
        proof {
            assert(final(self)@ =~= old(self)@ + store_narrow_opcode(width, dest.0, src)
                + sib_fix(dest.0) + le32n(u32_bits(dest.1 as int)));
        }
    }


    /// Arithmetic, memory to register.
    pub fn load_op(&mut self, op: BinaryOp, prec: Precision, dest: Register, src: (Register, i32))
        requires
            old(self).mode() == BufferMode::Writable,
        ensures
            final(self).mode() == BufferMode::Writable,
            final(self)@ =~= old(self)@ + seq![
                rex(w_bit(prec), hi(dest), hi(src.0)),
                (8 * op_num(op) + 3) as u8,
                modrm(2, lo(dest), lo(src.0)),
            ] + sib_fix(src.0) + le32n(u32_bits(src.1 as int)),
    {
        self.emit(0x40 + 8 * prec_w(prec) + 4 * (dest.number() / 8) + src.0.number() / 8);
        self.emit(8 * op.number() + 3);
        self.emit(0x80 + 8 * (dest.number() % 8) + src.0.number() % 8);
        self.write_sib_fix(src.0);
        self.write_imm32(src.1);
        proof {
            assert(final(self)@ =~= old(self)@ + seq![
                rex(w_bit(prec), hi(dest), hi(src.0)),
                (8 * op_num(op) + 3) as u8,
                modrm(2, lo(dest), lo(src.0)),
            ] + sib_fix(src.0) + le32n(u32_bits(src.1 as int)));
        }
    }

    /// Shift or rotate a register by the count in `RC`.
    pub fn shift(&mut self, op: ShiftOp, prec: Precision, dest: Register)
        requires
            old(self).mode() == BufferMode::Writable,
        ensures
            final(self).mode() == BufferMode::Writable,
            final(self)@ =~= old(self)@ + seq![
                rex(w_bit(prec), 0, hi(dest)),
                0xD3u8,
                modrm(3, shift_num(op), lo(dest)),
            ],
    {
        self.emit(0x40 + 8 * prec_w(prec) + dest.number() / 8);
        self.emit(0xD3);
        self.emit(0xC0 + 8 * op.number() + dest.number() % 8);
        proof {
            assert(final(self)@ =~= old(self)@ + seq![
                rex(w_bit(prec), 0, hi(dest)),
                0xD3u8,
                modrm(3, shift_num(op), lo(dest)),
            ]);
        }
    }

    /// Shift or rotate a register by a constant, which must be smaller
    /// than the operand width.
    pub fn const_shift(&mut self, op: ShiftOp, prec: Precision, dest: Register, imm: u8)
        requires
            old(self).mode() == BufferMode::Writable,
            imm < 32 + 32 * w_bit(prec),
        ensures
            final(self).mode() == BufferMode::Writable,
            final(self)@ =~= old(self)@ + seq![
                rex(w_bit(prec), 0, hi(dest)),
                0xC1u8,
                modrm(3, shift_num(op), lo(dest)),
                imm,
            ],
    {
        self.emit(0x40 + 8 * prec_w(prec) + dest.number() / 8);
        self.emit(0xC1);
        self.emit(0xC0 + 8 * op.number() + dest.number() % 8);
        self.emit(imm);
        proof {
            assert(final(self)@ =~= old(self)@ + seq![
                rex(w_bit(prec), 0, hi(dest)),
                0xC1u8,
                modrm(3, shift_num(op), lo(dest)),
                imm,
            ]);
        }
    }

    /// Multiply register by register.
    pub fn mul(&mut self, prec: Precision, dest: Register, src: Register)
        requires
            old(self).mode() == BufferMode::Writable,
        ensures
            final(self).mode() == BufferMode::Writable,
            final(self)@ =~= old(self)@ + seq![
                rex(w_bit(prec), hi(dest), hi(src)),
                0x0Fu8,
                0xAFu8,
                modrm(3, lo(dest), lo(src)),
            ],
    {
        self.emit(0x40 + 8 * prec_w(prec) + 4 * (dest.number() / 8) + src.number() / 8);
        self.emit(0x0F);
        self.emit(0xAF);
        self.emit(0xC0 + 8 * (dest.number() % 8) + src.number() % 8);
        proof {
            assert(final(self)@ =~= old(self)@ + seq![
                rex(w_bit(prec), hi(dest), hi(src)),
                0x0Fu8,
                0xAFu8,
                modrm(3, lo(dest), lo(src)),
            ]);
        }
    }

    /// Multiply register by constant.
    pub fn const_mul(&mut self, prec: Precision, dest: Register, src: Register, imm: i32)
        requires
            old(self).mode() == BufferMode::Writable,
        ensures
            final(self).mode() == BufferMode::Writable,
            final(self)@ =~= old(self)@ + seq![
                rex(w_bit(prec), hi(dest), hi(src)),
                0x69u8,
                modrm(3, lo(dest), lo(src)),
            ] + le32n(u32_bits(imm as int)),
    {
        self.emit(0x40 + 8 * prec_w(prec) + 4 * (dest.number() / 8) + src.number() / 8);
        self.emit(0x69);
        self.emit(0xC0 + 8 * (dest.number() % 8) + src.number() % 8);
        self.write_imm32(imm);
        proof {
            assert(final(self)@ =~= old(self)@ + seq![
                rex(w_bit(prec), hi(dest), hi(src)),
                0x69u8,
                modrm(3, lo(dest), lo(src)),
            ] + le32n(u32_bits(imm as int)));
        }
    }

    /// Multiply register by memory.
    pub fn load_mul(&mut self, prec: Precision, dest: Register, src: (Register, i32))
        requires
            old(self).mode() == BufferMode::Writable,
        ensures
            final(self).mode() == BufferMode::Writable,
            final(self)@ =~= old(self)@ + seq![
                rex(w_bit(prec), hi(dest), hi(src.0)),
                0x0Fu8,
                0xAFu8,
                modrm(2, lo(dest), lo(src.0)),
            ] + sib_fix(src.0) + le32n(u32_bits(src.1 as int)),
    {
        self.emit(0x40 + 8 * prec_w(prec) + 4 * (dest.number() / 8) + src.0.number() / 8);
        self.emit(0x0F);
        self.emit(0xAF);
        self.emit(0x80 + 8 * (dest.number() % 8) + src.0.number() % 8);
        self.write_sib_fix(src.0);
        self.write_imm32(src.1);
        proof {
            assert(final(self)@ =~= old(self)@ + seq![
                rex(w_bit(prec), hi(dest), hi(src.0)),
                0x0Fu8,
                0xAFu8,
                modrm(2, lo(dest), lo(src.0)),
            ] + sib_fix(src.0) + le32n(u32_bits(src.1 as int)));
        }
    }

    /// Unsigned long divide of the `RD:RA` pair by a register: the
    /// quotient lands in `RA` and the remainder in `RD`.
    pub fn udiv(&mut self, prec: Precision, src: Register)
        requires
            old(self).mode() == BufferMode::Writable,
        ensures
            final(self).mode() == BufferMode::Writable,
            final(self)@ =~= old(self)@ + seq![
                rex(w_bit(prec), 0, hi(src)),
                0xF7u8,
                modrm(3, 6, lo(src)),
            ],
    {
        self.emit(0x40 + 8 * prec_w(prec) + src.number() / 8);
        self.emit(0xF7);
        self.emit(0xF0 + src.number() % 8);
        proof {
            assert(final(self)@ =~= old(self)@ + seq![
                rex(w_bit(prec), 0, hi(src)),
                0xF7u8,
                modrm(3, 6, lo(src)),
            ]);
        }
    }

    /// Unsigned long divide of the `RD:RA` pair by memory.
    pub fn load_udiv(&mut self, prec: Precision, src: (Register, i32))
        requires
            old(self).mode() == BufferMode::Writable,
        ensures
            final(self).mode() == BufferMode::Writable,
            final(self)@ =~= old(self)@ + seq![
                rex(w_bit(prec), 0, hi(src.0)),
                0xF7u8,
                modrm(2, 6, lo(src.0)),
            ] + sib_fix(src.0) + le32n(u32_bits(src.1 as int)),
    {
        self.emit(0x40 + 8 * prec_w(prec) + src.0.number() / 8);
        self.emit(0xF7);
        self.emit(0xB0 + src.0.number() % 8);
        self.write_sib_fix(src.0);
        self.write_imm32(src.1);
        proof {
            assert(final(self)@ =~= old(self)@ + seq![
                rex(w_bit(prec), 0, hi(src.0)),
                0xF7u8,
                modrm(2, 6, lo(src.0)),
            ] + sib_fix(src.0) + le32n(u32_bits(src.1 as int)));
        }
    }

    /// Signed long divide of the `RD:RA` pair by a register.
    pub fn sdiv(&mut self, prec: Precision, src: Register)
        requires
            old(self).mode() == BufferMode::Writable,
        ensures
            final(self).mode() == BufferMode::Writable,
            final(self)@ =~= old(self)@ + seq![
                rex(w_bit(prec), 0, hi(src)),
                0xF7u8,
                modrm(3, 7, lo(src)),
            ],
    {
        self.emit(0x40 + 8 * prec_w(prec) + src.number() / 8);
        self.emit(0xF7);
        self.emit(0xF8 + src.number() % 8);
        proof {
            assert(final(self)@ =~= old(self)@ + seq![
                rex(w_bit(prec), 0, hi(src)),
                0xF7u8,
                modrm(3, 7, lo(src)),
            ]);
        }
    }

    /// Signed long divide of the `RD:RA` pair by memory.
    pub fn load_sdiv(&mut self, prec: Precision, src: (Register, i32))
        requires
            old(self).mode() == BufferMode::Writable,
        ensures
            final(self).mode() == BufferMode::Writable,
            final(self)@ =~= old(self)@ + seq![
                rex(w_bit(prec), 0, hi(src.0)),
                0xF7u8,
                modrm(2, 7, lo(src.0)),
            ] + sib_fix(src.0) + le32n(u32_bits(src.1 as int)),
    {
        self.emit(0x40 + 8 * prec_w(prec) + src.0.number() / 8);
        self.emit(0xF7);
        self.emit(0xB8 + src.0.number() % 8);
        self.write_sib_fix(src.0);
        self.write_imm32(src.1);
        proof {
            assert(final(self)@ =~= old(self)@ + seq![
                rex(w_bit(prec), 0, hi(src.0)),
                0xF7u8,
                modrm(2, 7, lo(src.0)),
            ] + sib_fix(src.0) + le32n(u32_bits(src.1 as int)));
        }
    }

    /// Conditional move.
    pub fn move_if(&mut self, cc: Condition, prec: Precision, dest: Register, src: Register)
        requires
            old(self).mode() == BufferMode::Writable,
        ensures
            final(self).mode() == BufferMode::Writable,
            final(self)@ =~= old(self)@ + seq![
                rex(w_bit(prec), hi(dest), hi(src)),
                0x0Fu8,
                (0x40 + cc_num(cc)) as u8,
                modrm(3, lo(dest), lo(src)),
            ],
    {
        self.emit(0x40 + 8 * prec_w(prec) + 4 * (dest.number() / 8) + src.number() / 8);
        self.emit(0x0F);
        self.emit(0x40 + cc.number());
        self.emit(0xC0 + 8 * (dest.number() % 8) + src.number() % 8);
        proof {
            assert(final(self)@ =~= old(self)@ + seq![
                rex(w_bit(prec), hi(dest), hi(src)),
                0x0Fu8,
                (0x40 + cc_num(cc)) as u8,
                modrm(3, lo(dest), lo(src)),
            ]);
        }
    }

    /// Conditional load.
    pub fn load_if(&mut self, cc: Condition, prec: Precision, dest: Register, src: (Register, i32))
        requires
            old(self).mode() == BufferMode::Writable,
        ensures
            final(self).mode() == BufferMode::Writable,
            final(self)@ =~= old(self)@ + seq![
                rex(w_bit(prec), hi(dest), hi(src.0)),
                0x0Fu8,
                (0x40 + cc_num(cc)) as u8,
                modrm(2, lo(dest), lo(src.0)),
            ] + sib_fix(src.0) + le32n(u32_bits(src.1 as int)),
    {
        self.emit(0x40 + 8 * prec_w(prec) + 4 * (dest.number() / 8) + src.0.number() / 8);
        self.emit(0x0F);
        self.emit(0x40 + cc.number());
        self.emit(0x80 + 8 * (dest.number() % 8) + src.0.number() % 8);
        self.write_sib_fix(src.0);
        self.write_imm32(src.1);
        proof {
            assert(final(self)@ =~= old(self)@ + seq![
                rex(w_bit(prec), hi(dest), hi(src.0)),
                0x0Fu8,
                (0x40 + cc_num(cc)) as u8,
                modrm(2, lo(dest), lo(src.0)),
            ] + sib_fix(src.0) + le32n(u32_bits(src.1 as int)));
        }
    }

    /// Move nearby memory to register, addressed relative to the next
    /// instruction.  No SIB fix is needed: the base field `101` selects
    /// instruction-relative addressing.
    pub fn load_pc_relative(&mut self, prec: Precision, dest: Register, address: usize)
        requires
            old(self).mode() == BufferMode::Writable,
            old(self)@.len() + 7 <= usize::MAX,
            target_ok(old(self)@.len() as int + 7, Some(address)),
        ensures
            final(self).mode() == BufferMode::Writable,
            final(self)@ =~= old(self)@ + seq![
                rex(w_bit(prec), hi(dest), 0),
                0x8Bu8,
                modrm(0, lo(dest), 5),
            ] + le32n(u32_bits(address - (old(self)@.len() as int + 7))),
    {
        self.emit(0x40 + 8 * prec_w(prec) + 4 * (dest.number() / 8));
        self.emit(0x8B);
        self.emit(0x05 + 8 * (dest.number() % 8));
        self.write_disp32(Some(address));
        proof {
            assert(final(self)@ =~= old(self)@ + seq![
                rex(w_bit(prec), hi(dest), 0),
                0x8Bu8,
                modrm(0, lo(dest), 5),
            ] + le32n(u32_bits(address - (old(self)@.len() as int + 7))));
        }
    }

    /// Conditionally move nearby memory to register, addressed relative
    /// to the next instruction.  As with `load_pc_relative`, the base
    /// field `101` with mod `00` selects instruction-relative addressing,
    /// so no SIB fix is needed.
    pub fn load_pc_relative_if(
        &mut self,
        cc: Condition,
        prec: Precision,
        dest: Register,
        address: usize,
    )
        requires
            old(self).mode() == BufferMode::Writable,
            old(self)@.len() + 8 <= usize::MAX,
            target_ok(old(self)@.len() as int + 8, Some(address)),
        ensures
            final(self).mode() == BufferMode::Writable,
            final(self)@ =~= old(self)@ + seq![
                rex(w_bit(prec), hi(dest), 0),
                0x0Fu8,
                (0x40 + cc_num(cc)) as u8,
                modrm(0, lo(dest), 5),
            ] + le32n(u32_bits(address - (old(self)@.len() as int + 8))),
    {
        self.emit(0x40 + 8 * prec_w(prec) + 4 * (dest.number() / 8));
        self.emit(0x0F);
        self.emit(0x40 + cc.number());
        self.emit(0x05 + 8 * (dest.number() % 8));
        self.write_disp32(Some(address));
        proof {
            assert(final(self)@ =~= old(self)@ + seq![
                rex(w_bit(prec), hi(dest), 0),
                0x0Fu8,
                (0x40 + cc_num(cc)) as u8,
                modrm(0, lo(dest), 5),
            ] + le32n(u32_bits(address - (old(self)@.len() as int + 8))));
        }
    }

    /// Changes the displacement of the patchable instruction at `patch`
    /// from the one for `old_target` to the one for `new_target`.  The
    /// four displacement bytes are found from the instruction's opcode;
    /// they must currently hold the displacement for `old_target`.
    /// Patching the same instruction again is permitted.
    pub fn patch(&mut self, patch: Patch, old_target: Option<usize>, new_target: Option<usize>)
        requires
            old(self).mode() == BufferMode::Writable,
            patch_site_ok(old(self)@, patch.0 as int),
            target_ok(patch.0 + 6, old_target),
            target_ok(patch.0 + 6, new_target),
            disp_at(old(self)@, patch.0 as int) == opt_disp_bits(patch.0 + 6, old_target),
        ensures
            final(self).mode() == BufferMode::Writable,
            final(self)@.len() == old(self)@.len(),
            forall|i: int|
                0 <= i < old(self)@.len() ==> #[trigger] final(self)@[i] == if patch.0 + 2 <= i
                    < patch.0 + 6 {
                    le32n(opt_disp_bits(patch.0 + 6, new_target))[i - (patch.0 + 2)]
                } else {
                    old(self)@[i]
                },
    {
        let pos = patch.address();
        let blen = self.buffer.len();
        proof {
            assert(pos + 6 <= blen);
        }
        let b0 = self.buffer.read_byte(pos);
        let b1 = self.buffer.read_byte(pos + 1);
        let at: usize = if b0 == 0x0F && (0x80 <= b1 && b1 < 0x90) {
            // A conditional jump.
            pos + 2
        } else if b0 == 0x40 && b1 == 0xE9 {
            // An unconditional jump.
            pos + 2
        } else if b0 == 0x40 && b1 == 0xE8 {
            // A call.
            pos + 2
        } else {
            proof {
                assert(false);
            }
            pos + 2
        };
        let ghost bits = opt_disp_bits(patch.0 + 6, new_target);
        let x: u32 = match new_target {
            None => 0x80000000,
            Some(t) => {
                let d: i64 = t as i64 - (pos as i64 + 6);
                if d >= 0 {
                    d as u32
                } else {
                    0xFFFFFFFFu32 - ((-(d + 1)) as u32)
                }
            },
        };
        proof {
            assert(x as int == bits);
        }
        self.buffer.write_byte_at(at, (x % 256) as u8);
        self.buffer.write_byte_at(at + 1, (x / 256 % 256) as u8);
        self.buffer.write_byte_at(at + 2, (x / 65536 % 256) as u8);
        self.buffer.write_byte_at(at + 3, (x / 16777216 % 256) as u8);
    }


    /// Modifies every instruction that jumps to `loser` so that it jumps
    /// to `winner` instead, and hands the instructions over to `winner`.
    #[verifier::rlimit(60)]
    #[verifier::spinoff_prover]
    pub fn steal(&mut self, winner: &mut Label, loser: &mut Label)
        requires
            old(self).mode() == BufferMode::Writable,
            label_sites_ok(old(self)@, *old(loser)),
            // The rewritten sites can reach the winner's target, and do
            // not overlap the winner's own sites.
            forall|j: int|
                0 <= j < old(loser).patches_spec().len() ==> target_ok(
                    (#[trigger] old(loser).patches_spec()[j]).0 + 6,
                    old(winner).target_spec(),
                ),
            label_sites_ok(old(self)@, *old(winner)),
            forall|j: int, k: int|
                0 <= j < old(loser).patches_spec().len() && 0 <= k < old(
                    winner,
                ).patches_spec().len() ==> (#[trigger] old(loser).patches_spec()[j]).0 + 6 <= (
                #[trigger] old(winner).patches_spec()[k]).0 || old(winner).patches_spec()[k].0 + 6
                    <= old(loser).patches_spec()[j].0,
        ensures
            final(self).mode() == BufferMode::Writable,
            final(self)@.len() == old(self)@.len(),
            final(loser).target_spec() == old(loser).target_spec(),
            final(loser).patches_spec() =~= Seq::<Patch>::empty(),
            final(winner).target_spec() == old(winner).target_spec(),
            final(winner).patches_spec() =~= old(winner).patches_spec() + old(
                loser,
            ).patches_spec(),
            label_sites_ok(final(self)@, *final(winner)),
    {
        let new_target = winner.target();
        let old_target = loser.target();
        let patches = loser.drain();
        let n = patches.len();
        let mut i: usize = 0;
        while i < n
            invariant
                i <= n,
                n == patches@.len(),
                self.mode() == BufferMode::Writable,
                self@.len() == old(self)@.len(),
                new_target == old(winner).target_spec(),
                winner.target_spec() == old(winner).target_spec(),
                winner.patches_spec() =~= old(winner).patches_spec() + patches@.subrange(
                    0,
                    i as int,
                ),
                forall|j: int, k: int|
                    0 <= j < k < patches@.len() ==> (#[trigger] patches@[j]).0 + 6 <= (
                    #[trigger] patches@[k]).0 || patches@[k].0 + 6 <= patches@[j].0,
                forall|j: int, k: int|
                    0 <= j < patches@.len() && 0 <= k < winner.patches_spec().len() ==> (
                    #[trigger] patches@[j]).0 + 6 <= (#[trigger] old(winner).patches_spec()[k]).0
                        || old(winner).patches_spec()[k].0 + 6 <= patches@[j].0 || !(k < old(
                        winner,
                    ).patches_spec().len()),
                forall|j: int|
                    0 <= j < patches@.len() ==> patch_site_ok(
                        self@,
                        (#[trigger] patches@[j]).0 as int,
                    ) && target_ok(patches@[j].0 + 6, old_target) && target_ok(
                        patches@[j].0 + 6,
                        new_target,
                    ),
                forall|j: int|
                    i <= j < patches@.len() ==> disp_at(self@, (#[trigger] patches@[j]).0 as int)
                        == opt_disp_bits(patches@[j].0 + 6, old_target),
                forall|j: int|
                    0 <= j < i ==> disp_at(self@, (#[trigger] patches@[j]).0 as int)
                        == opt_disp_bits(patches@[j].0 + 6, new_target),
                // The winner's own sites are untouched.
                forall|k: int|
                    0 <= k < old(winner).patches_spec().len() ==> patch_site_ok(
                        self@,
                        (#[trigger] old(winner).patches_spec()[k]).0 as int,
                    ) && target_ok(
                        old(winner).patches_spec()[k].0 + 6,
                        old(winner).target_spec(),
                    ) && disp_at(self@, old(winner).patches_spec()[k].0 as int) == opt_disp_bits(
                        old(winner).patches_spec()[k].0 + 6,
                        old(winner).target_spec(),
                    ),
            decreases n - i,
        {
            let p = patches[i];
            let ghost pre = self@;
            self.patch(p, old_target, new_target);
            winner.push(p);
            proof {
                assert(patches@.subrange(0, i as int + 1) =~= patches@.subrange(0, i as int).push(
                    patches@[i as int],
                ));
                assert forall|j: int|
                    0 <= j < patches@.len() implies patch_site_ok(
                    self@,
                    (#[trigger] patches@[j]).0 as int,
                ) by {
                    lemma_patch_keeps_other_sites(pre, self@, p.0 as int, patches@[j].0 as int);
                }
                assert forall|j: int|
                    i + 1 <= j < patches@.len() implies disp_at(
                    self@,
                    (#[trigger] patches@[j]).0 as int,
                ) == opt_disp_bits(patches@[j].0 + 6, old_target) by {
                    lemma_patch_keeps_other_disps(pre, self@, p.0 as int, patches@[j].0 as int);
                }
                assert forall|j: int|
                    0 <= j < i + 1 implies disp_at(self@, (#[trigger] patches@[j]).0 as int)
                    == opt_disp_bits(patches@[j].0 + 6, new_target) by {
                    if j < i {
                        lemma_patch_keeps_other_disps(pre, self@, p.0 as int, patches@[j].0 as int);
                    }
                }
                assert forall|k: int|
                    0 <= k < old(winner).patches_spec().len() implies patch_site_ok(
                    self@,
                    (#[trigger] old(winner).patches_spec()[k]).0 as int,
                ) && disp_at(self@, old(winner).patches_spec()[k].0 as int) == opt_disp_bits(
                    old(winner).patches_spec()[k].0 + 6,
                    old(winner).target_spec(),
                ) by {
                    lemma_patch_keeps_other_sites(
                        pre,
                        self@,
                        p.0 as int,
                        old(winner).patches_spec()[k].0 as int,
                    );
                    lemma_patch_keeps_other_disps(
                        pre,
                        self@,
                        p.0 as int,
                        old(winner).patches_spec()[k].0 as int,
                    );
                }
            }
            i = i + 1;
        }
        proof {
            assert(patches@.subrange(0, n as int) =~= patches@);
            assert forall|j: int|
                0 <= j < final(winner).patches_spec().len() implies patch_site_ok(
                self@,
                (#[trigger] final(winner).patches_spec()[j]).0 as int,
            ) && target_ok(
                final(winner).patches_spec()[j].0 + 6,
                old(winner).target_spec(),
            ) && disp_at(self@, final(winner).patches_spec()[j].0 as int) == opt_disp_bits(
                final(winner).patches_spec()[j].0 + 6,
                old(winner).target_spec(),
            ) by {
                if j < old(winner).patches_spec().len() {
                } else {
                    assert(final(winner).patches_spec()[j] == patches@[j - old(
                        winner,
                    ).patches_spec().len()]);
                }
            }
        }
    }

    /// Sets the target of `label` to the current position and patches
    /// every instruction that jumps to it.  Returns the old target as a
    /// fresh label, useful to reach the previously assembled code.
    /// `label` may have been defined before: a label may be retargeted
    /// repeatedly.
    pub fn patch_label(&mut self, label: &mut Label) -> (old_label: Label)
        requires
            old(self).mode() == BufferMode::Writable,
            old(self)@.len() < 0x80000000,
            label_sites_ok(old(self)@, *old(label)),
        ensures
            final(self).mode() == BufferMode::Writable,
            final(self)@.len() == old(self)@.len(),
            final(label).target_spec() == Some(old(self)@.len() as usize),
            final(label).patches_spec() =~= old(label).patches_spec(),
            old_label.target_spec() == old(label).target_spec(),
            old_label.patches_spec() =~= Seq::<Patch>::empty(),
            label_sites_ok(final(self)@, *final(label)),
    {
        let here = self.get_pos();
        let old_target = label.target();
        let patches = label.drain();
        label.set_target(Some(here));
        let n = patches.len();
        let mut i: usize = 0;
        while i < n
            invariant
                i <= n,
                n == patches@.len(),
                self.mode() == BufferMode::Writable,
                self@.len() == old(self)@.len(),
                here == old(self)@.len(),
                forall|j: int, k: int|
                    0 <= j < k < patches@.len() ==> (#[trigger] patches@[j]).0 + 6 <= (
                    #[trigger] patches@[k]).0 || patches@[k].0 + 6 <= patches@[j].0,
                here < 0x80000000,
                forall|j: int|
                    0 <= j < patches@.len() ==> patch_site_ok(self@, (#[trigger] patches@[j]).0 as int)
                        && target_ok(patches@[j].0 + 6, old_target) && target_ok(
                        patches@[j].0 + 6,
                        Some(here as usize),
                    ),
                forall|j: int|
                    i <= j < patches@.len() ==> disp_at(self@, (#[trigger] patches@[j]).0 as int)
                        == opt_disp_bits(patches@[j].0 + 6, old_target),
                forall|j: int|
                    0 <= j < i ==> disp_at(self@, (#[trigger] patches@[j]).0 as int)
                        == opt_disp_bits(patches@[j].0 + 6, Some(here as usize)),
            decreases n - i,
        {
            let p = patches[i];
            let ghost pre = self@;
            self.patch(p, old_target, Some(here));
            proof {
                assert forall|j: int|
                    0 <= j < patches@.len() implies patch_site_ok(
                    self@,
                    (#[trigger] patches@[j]).0 as int,
                ) by {
                    lemma_patch_keeps_other_sites(pre, self@, p.0 as int, patches@[j].0 as int);
                }
                assert forall|j: int|
                    i + 1 <= j < patches@.len() implies disp_at(
                    self@,
                    (#[trigger] patches@[j]).0 as int,
                ) == opt_disp_bits(patches@[j].0 + 6, old_target) by {
                    lemma_patch_keeps_other_disps(pre, self@, p.0 as int, patches@[j].0 as int);
                }
                assert forall|j: int|
                    0 <= j < i + 1 implies disp_at(self@, (#[trigger] patches@[j]).0 as int)
                    == opt_disp_bits(patches@[j].0 + 6, Some(here as usize)) by {
                    if j < i {
                        lemma_patch_keeps_other_disps(pre, self@, p.0 as int, patches@[j].0 as int);
                    } else {
                        lemma_patch_sets_disp(pre, self@, p.0 as int, here as int);
                    }
                }
            }
            i = i + 1;
        }
        // Give the patches back to the label, which now targets `here`.
        let n2 = patches.len();
        let mut i2: usize = 0;
        while i2 < n2
            invariant
                i2 <= n2,
                n2 == patches@.len(),
                label.target_spec() == Some(here),
                label.patches_spec() =~= patches@.subrange(0, i2 as int),
            decreases n2 - i2,
        {
            label.push(patches[i2]);
            proof {
                assert(patches@.subrange(0, i2 as int + 1) =~= patches@.subrange(
                    0,
                    i2 as int,
                ).push(patches@[i2 as int]));
            }
            i2 = i2 + 1;
        }
        proof {
            assert(patches@.subrange(0, n2 as int) =~= patches@);
        }
        let mut old_label = Label::new();
        old_label.set_target(old_target);
        old_label
    }

    /// Defines `label`, which must not have been defined before, to be
    /// the current position, and patches every instruction that jumps to
    /// it.
    pub fn define(&mut self, label: &mut Label)
        requires
            old(self).mode() == BufferMode::Writable,
            old(self)@.len() < 0x80000000,
            old(label).target_spec() is None,
            label_sites_ok(old(self)@, *old(label)),
        ensures
            final(self).mode() == BufferMode::Writable,
            final(self)@.len() == old(self)@.len(),
            final(label).target_spec() == Some(old(self)@.len() as usize),
            final(label).patches_spec() =~= old(label).patches_spec(),
            label_sites_ok(final(self)@, *final(label)),
    {
        let _ = self.patch_label(label);
    }
}

/// The bytes of the SIB fix for memory base `rm`: the single byte `0x24`
/// when the low three bits of `rm` are `100`, nothing otherwise.
pub open spec fn sib_fix(rm: Register) -> Seq<u8> {
    if reg_num(rm) % 8 == 4 {
        seq![0x24u8]
    } else {
        Seq::empty()
    }
}

/// The immediate after masking to the operand width: 32-bit moves ignore
/// the upper halves of their constants.
pub open spec fn masked_imm(prec: Precision, imm: int) -> int {
    match prec {
        Precision::P32 => imm % 0x100000000,
        Precision::P64 => imm,
    }
}

/// The bytes of [`Assembler::const_preserving_flags`].
pub open spec fn const_flags_bytes(prec: Precision, dest: Register, imm: int) -> Seq<u8> {
    let m = masked_imm(prec, imm);
    if 0 <= m <= 0xFFFFFFFF {
        seq![rex(0, 0, hi(dest)), (0xB8 + lo(dest)) as u8] + le32n(m)
    } else if -0x80000000 <= m < 0x80000000 {
        seq![rex(1, 0, hi(dest)), 0xC7u8, modrm(3, 0, lo(dest))] + le32n(u32_bits(m))
    } else {
        seq![rex(1, 0, hi(dest)), (0xB8 + lo(dest)) as u8] + le64n(u64_bits(m))
    }
}

/// The bytes of [`Assembler::const_`]: the `xor` idiom for zero, else
/// the flag-preserving move.
pub open spec fn const_bytes(prec: Precision, dest: Register, imm: int) -> Seq<u8> {
    if masked_imm(prec, imm) == 0 {
        seq![
            rex(w_bit(prec), hi(dest), hi(dest)),
            (8 * op_num(BinaryOp::Xor) + 1) as u8,
            modrm(3, lo(dest), lo(dest)),
        ]
    } else {
        const_flags_bytes(prec, dest, imm)
    }
}

/// Every patch of `label` is a patchable site whose displacement is for
/// the label's target, the sites do not overlap, and the target is
/// reachable from each site.
pub open spec fn label_sites_ok(bytes: Seq<u8>, label: Label) -> bool {
    &&& forall|j: int|
        0 <= j < label.patches_spec().len() ==> patch_site_ok(
            bytes,
            (#[trigger] label.patches_spec()[j]).0 as int,
        ) && target_ok(label.patches_spec()[j].0 + 6, label.target_spec()) && disp_at(
            bytes,
            label.patches_spec()[j].0 as int,
        ) == opt_disp_bits(label.patches_spec()[j].0 + 6, label.target_spec())
    &&& forall|j: int, k: int|
        0 <= j < k < label.patches_spec().len() ==> (#[trigger] label.patches_spec()[j]).0 + 6 <= (
        #[trigger] label.patches_spec()[k]).0 || label.patches_spec()[k].0 + 6
            <= label.patches_spec()[j].0
}

/// The W bit of a [`Precision`], as an executable value.
fn prec_w(prec: Precision) -> (w: u8)
    ensures
        w as int == w_bit(prec),
        w < 2,
{
    match prec {
        Precision::P32 => 0,
        Precision::P64 => 1,
    }
}

/// A patch leaves every non-overlapping patch site intact.
proof fn lemma_patch_keeps_other_sites(pre: Seq<u8>, post: Seq<u8>, a: int, b: int)
    requires
        post.len() == pre.len(),
        forall|i: int|
            0 <= i < pre.len() ==> #[trigger] post[i] == pre[i] || (a + 2 <= i < a + 6),
        patch_site_ok(pre, b),
        a == b || a + 6 <= b || b + 6 <= a,
        0 <= a,
        a + 6 <= pre.len(),
        a == b ==> patch_site_ok(post, b),
    ensures
        patch_site_ok(post, b),
{
    if a != b {
        assert(post[b] == pre[b]);
        assert(post[b + 1] == pre[b + 1]);
    }
}

/// A patch leaves the displacement of every non-overlapping site intact.
proof fn lemma_patch_keeps_other_disps(pre: Seq<u8>, post: Seq<u8>, a: int, b: int)
    requires
        post.len() == pre.len(),
        forall|i: int|
            0 <= i < pre.len() ==> #[trigger] post[i] == pre[i] || (a + 2 <= i < a + 6),
        0 <= b,
        b + 6 <= pre.len(),
        a + 6 <= b || b + 6 <= a,
        0 <= a,
        a + 6 <= pre.len(),
    ensures
        disp_at(post, b) == disp_at(pre, b),
{
    assert(post[b + 2] == pre[b + 2]);
    assert(post[b + 3] == pre[b + 3]);
    assert(post[b + 4] == pre[b + 4]);
    assert(post[b + 5] == pre[b + 5]);
}

/// After a patch, the displacement at the patched site is the new one.
proof fn lemma_patch_sets_disp(pre: Seq<u8>, post: Seq<u8>, a: int, here: int)
    requires
        post.len() == pre.len(),
        0 <= a,
        a + 6 <= pre.len(),
        forall|i: int|
            0 <= i < pre.len() ==> #[trigger] post[i] == if a + 2 <= i < a + 6 {
                le32n(u32_bits(here - (a + 6)))[i - (a + 2)]
            } else {
                pre[i]
            },
        -0x80000000 <= here - (a + 6) < 0x80000000,
    ensures
        disp_at(post, a) == u32_bits(here - (a + 6)),
{
    let v = u32_bits(here - (a + 6));
    assert(post[a + 2] == le32n(v)[0]);
    assert(post[a + 3] == le32n(v)[1]);
    assert(post[a + 4] == le32n(v)[2]);
    assert(post[a + 5] == le32n(v)[3]);
    lemma_le32_encode(v);
}

/// Decoding the little-endian bytes of a 32-bit value yields the value.
proof fn lemma_le32_encode(v: int)
    requires
        0 <= v < 0x100000000,
    ensures
        (le32n(v)[0] as int) + 256 * (le32n(v)[1] as int) + 65536 * (le32n(v)[2] as int) + 16777216
            * (le32n(v)[3] as int) == v,
{
    assert((v % 256) + 256 * (v / 256 % 256) + 65536 * (v / 65536 % 256) + 16777216 * (v / 16777216
        % 256) == v) by (nonlinear_arith)
        requires
            0 <= v < 0x100000000,
    ;
}


/// The opcode bytes of [`Assembler::load_narrow`], before the SIB fix
/// and the displacement.
pub open spec fn load_narrow_opcode(
    prec: Precision,
    width: Width,
    dest: Register,
    base: Register,
) -> Seq<u8> {
    match width {
        Width::U8 => seq![
            rex(w_bit(prec), hi(dest), hi(base)),
            0x0Fu8,
            0xB6u8,
            modrm(2, lo(dest), lo(base)),
        ],
        Width::S8 => seq![
            rex(w_bit(prec), hi(dest), hi(base)),
            0x0Fu8,
            0xBEu8,
            modrm(2, lo(dest), lo(base)),
        ],
        Width::U16 => seq![
            rex(w_bit(prec), hi(dest), hi(base)),
            0x0Fu8,
            0xB7u8,
            modrm(2, lo(dest), lo(base)),
        ],
        Width::S16 => seq![
            rex(w_bit(prec), hi(dest), hi(base)),
            0x0Fu8,
            0xBFu8,
            modrm(2, lo(dest), lo(base)),
        ],
        Width::U32 => seq![rex(0, hi(dest), hi(base)), 0x8Bu8, modrm(2, lo(dest), lo(base))],
        Width::S32 => seq![
            rex(w_bit(prec), hi(dest), hi(base)),
            0x63u8,
            modrm(2, lo(dest), lo(base)),
        ],
        Width::U64 => seq![
            rex(w_bit(prec), hi(dest), hi(base)),
            0x8Bu8,
            modrm(2, lo(dest), lo(base)),
        ],
        Width::S64 => seq![
            rex(w_bit(prec), hi(dest), hi(base)),
            0x8Bu8,
            modrm(2, lo(dest), lo(base)),
        ],
    }
}

/// The opcode bytes of [`Assembler::store_narrow`], before the SIB fix
/// and the displacement.
pub open spec fn store_narrow_opcode(width: Width, base: Register, src: Register) -> Seq<u8> {
    match width {
        Width::U8 | Width::S8 => seq![
            rex(0, hi(src), hi(base)),
            0x88u8,
            modrm(2, lo(src), lo(base)),
        ],
        Width::U16 | Width::S16 => seq![
            0x66u8,
            rex(0, hi(src), hi(base)),
            0x89u8,
            modrm(2, lo(src), lo(base)),
        ],
        Width::U32 | Width::S32 => seq![
            rex(0, hi(src), hi(base)),
            0x89u8,
            modrm(2, lo(src), lo(base)),
        ],
        Width::U64 | Width::S64 => seq![
            rex(1, hi(src), hi(base)),
            0x89u8,
            modrm(2, lo(src), lo(base)),
        ],
    }
}

} // verus!
