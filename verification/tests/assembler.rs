//! Tests of the x86-64 assembler: exact encodings, the SIB fix, and
//! displacement patching.

use mijit::assembler::{Assembler, Label};
use mijit::buffer::CodeBuffer;
use mijit::code::Precision::{P32, P64};
use mijit::code::Width;
use mijit::x86_64::Register::{R10, R11, R12, R13, R14, R15, R8, R9};
use mijit::x86_64::{BinaryOp, Condition, ShiftOp};

#[test]
fn const_encoding() {
    // A zero 32-bit constant is the xor idiom.
    let mut a = Assembler::new(CodeBuffer::new());
    a.const_(P32, R8, 0);
    let buf = a.into_buffer();
    assert_eq!(dump(&buf), vec![0x45, 0x31, 0xC0]); // xor r8d, r8d

    // A small constant is a 32-bit move.
    let mut a = Assembler::new(CodeBuffer::new());
    a.const_(P32, R8, 1);
    let buf = a.into_buffer();
    assert_eq!(dump(&buf), vec![0x41, 0xB8, 1, 0, 0, 0]); // mov r8d, 1

    // A full 64-bit constant is a 10-byte move.
    let mut a = Assembler::new(CodeBuffer::new());
    a.const_(P64, R15, 0x76543210FEDCBA98);
    let buf = a.into_buffer();
    assert_eq!(
        dump(&buf),
        vec![0x49, 0xBF, 0x98, 0xBA, 0xDC, 0xFE, 0x10, 0x32, 0x54, 0x76]
    ); // mov r15, 0x76543210FEDCBA98
}

#[test]
fn sib_fix() {
    // A store based on R12 needs the extra SIB byte 0x24.
    let mut a = Assembler::new(CodeBuffer::new());
    a.store(P64, (R12, 0x12345678), R10);
    let buf = a.into_buffer();
    assert_eq!(
        dump(&buf),
        vec![0x4D, 0x89, 0x94, 0x24, 0x78, 0x56, 0x34, 0x12]
    ); // mov [r12+0x12345678], r10

    // A store based on R8 does not.
    let mut a = Assembler::new(CodeBuffer::new());
    a.store(P64, (R8, 0x12345678), R10);
    let buf = a.into_buffer();
    assert_eq!(dump(&buf), vec![0x4D, 0x89, 0x90, 0x78, 0x56, 0x34, 0x12]);
}

#[test]
fn patch_writes_displacement() {
    let mut a = Assembler::new(CodeBuffer::new());
    let p = a.const_jump(None);
    assert_eq!(p.address(), 0);
    a.patch(p, None, Some(0x02461357));
    let buf = a.into_buffer();
    // The displacement is measured from the end of the instruction.
    let disp: u32 = 0x02461357 - 6;
    assert_eq!(
        dump(&buf),
        vec![
            0x40,
            0xE9,
            (disp & 0xFF) as u8,
            ((disp >> 8) & 0xFF) as u8,
            ((disp >> 16) & 0xFF) as u8,
            ((disp >> 24) & 0xFF) as u8,
        ]
    );
}

#[test]
fn patch_round_trip() {
    // Patching to a new target and back restores the bytes exactly.
    let mut a = Assembler::new(CodeBuffer::new());
    a.ret();
    let p = a.const_jump(Some(0x1000));
    let original = dump_asm(&a);
    a.patch(p, Some(0x1000), Some(0x2000));
    let changed = dump_asm(&a);
    assert_ne!(original, changed);
    a.patch(p, Some(0x2000), Some(0x1000));
    let restored = dump_asm(&a);
    assert_eq!(original, restored);
}

#[test]
fn moves_and_stack() {
    let mut a = Assembler::new(CodeBuffer::new());
    a.move_(P32, R10, R9);
    a.move_(P64, R10, R9);
    a.push(R8);
    a.pop(R9);
    a.ret();
    let buf = a.into_buffer();
    assert_eq!(
        dump(&buf),
        vec![
            0x45, 0x8B, 0xD1, // mov r10d, r9d
            0x4D, 0x8B, 0xD1, // mov r10, r9
            0x49, 0x50, // push r8
            0x49, 0x59, // pop r9
            0x40, 0xC3, // ret
        ]
    );
}

#[test]
fn arithmetic() {
    let mut a = Assembler::new(CodeBuffer::new());
    a.op(BinaryOp::Add, P32, R10, R9);
    a.const_op(BinaryOp::Add, P64, R10, 0x76543210);
    let buf = a.into_buffer();
    assert_eq!(
        dump(&buf),
        vec![
            0x45, 0x01, 0xCA, // add r10d, r9d
            0x49, 0x81, 0xC2, 0x10, 0x32, 0x54, 0x76, // add r10, 0x76543210
        ]
    );
}

#[test]
fn conditional_jump() {
    let mut a = Assembler::new(CodeBuffer::new());
    let _ = a.jump_if(Condition::NE, Some(0x28));
    let buf = a.into_buffer();
    let disp: u32 = 0x28 - 6;
    assert_eq!(
        dump(&buf),
        vec![0x0F, 0x85, disp as u8, 0, 0, 0] // jne near 0x28
    );
}

#[test]
fn loads() {
    let mut a = Assembler::new(CodeBuffer::new());
    a.load(P64, R11, (R8, 0x12345678));
    a.load_narrow(P32, Width::U8, R9, (R8, 0x12345678));
    a.store_narrow(Width::U16, (R8, 0x12345678), R9);
    let buf = a.into_buffer();
    assert_eq!(
        dump(&buf),
        vec![
            0x4D, 0x8B, 0x98, 0x78, 0x56, 0x34, 0x12, // mov r11, [r8+0x12345678]
            0x45, 0x0F, 0xB6, 0x88, 0x78, 0x56, 0x34, 0x12, // movzx r9d, byte [r8+...]
            0x66, 0x45, 0x89, 0x88, 0x78, 0x56, 0x34, 0x12, // mov [r8+...], r9w
        ]
    );
}

#[test]
fn labels() {
    // Jumps take a label whose target is defined later; defining the
    // label rewrites their placeholder displacements.
    let mut a = Assembler::new(CodeBuffer::new());
    let mut label = Label::new();
    assert!(!label.is_defined());
    let p1 = a.const_jump(None);
    label.push(p1);
    a.ret();
    let p2 = a.const_jump(None);
    label.push(p2);
    a.define(&mut label);
    assert!(label.is_defined());
    assert_eq!(label.target(), Some(14));
    let here = 14u32;
    let buf = a.into_buffer();
    // Displacements are measured from the end of each jump instruction.
    let d1 = here - 6;
    let d2 = here - 14;
    assert_eq!(
        dump(&buf),
        vec![
            0x40,
            0xE9,
            d1 as u8,
            (d1 >> 8) as u8,
            (d1 >> 16) as u8,
            (d1 >> 24) as u8, // jmp label
            0x40,
            0xC3, // ret
            0x40,
            0xE9,
            d2 as u8,
            (d2 >> 8) as u8,
            (d2 >> 16) as u8,
            (d2 >> 24) as u8, // jmp label
        ]
    );
}

fn dump(buf: &CodeBuffer) -> Vec<u8> {
    let mut v = Vec::new();
    let n = buf.len();
    let mut i = 0;
    while i < n {
        v.push(buf.read_byte(i));
        i += 1;
    }
    v
}

fn dump_asm(a: &Assembler) -> Vec<u8> {
    let mut v = Vec::new();
    let n = a.get_pos();
    let mut i = 0;
    while i < n {
        v.push(a.read_byte_at(i));
        i += 1;
    }
    v
}

#[test]
fn shifts() {
    let mut a = Assembler::new(CodeBuffer::new());
    a.shift(ShiftOp::Shl, P32, R8);
    a.const_shift(ShiftOp::Shl, P64, R8, 7);
    let buf = a.into_buffer();
    assert_eq!(
        dump(&buf),
        vec![
            0x41, 0xD3, 0xE0, // shl r8d, cl
            0x49, 0xC1, 0xE0, 0x07, // shl r8, 7
        ]
    );
}

#[test]
fn multiplies() {
    let mut a = Assembler::new(CodeBuffer::new());
    a.mul(P32, R8, R9);
    a.const_mul(P32, R10, R11, 0x76543210);
    a.load_mul(P32, R13, (R14, 0x12345678));
    let buf = a.into_buffer();
    assert_eq!(
        dump(&buf),
        vec![
            0x45, 0x0F, 0xAF, 0xC1, // imul r8d, r9d
            0x45, 0x69, 0xD3, 0x10, 0x32, 0x54, 0x76, // imul r10d, r11d, imm
            0x45, 0x0F, 0xAF, 0xAE, 0x78, 0x56, 0x34, 0x12, // imul r13d, [r14+disp]
        ]
    );
}

#[test]
fn divides() {
    let mut a = Assembler::new(CodeBuffer::new());
    a.udiv(P32, R8);
    a.sdiv(P64, R8);
    a.load_udiv(P32, (R14, 0x12345678));
    let buf = a.into_buffer();
    assert_eq!(
        dump(&buf),
        vec![
            0x41, 0xF7, 0xF0, // div r8d
            0x49, 0xF7, 0xF8, // idiv r8
            0x41, 0xF7, 0xB6, 0x78, 0x56, 0x34, 0x12, // div dword [r14+disp]
        ]
    );
}

#[test]
fn conditional_moves() {
    let mut a = Assembler::new(CodeBuffer::new());
    a.move_if(Condition::G, P32, R8, R9);
    a.load_op(BinaryOp::Add, P32, R9, (R12, 0x12345678));
    let buf = a.into_buffer();
    assert_eq!(
        dump(&buf),
        vec![
            0x45, 0x0F, 0x4F, 0xC1, // cmovg r8d, r9d
            0x45, 0x03, 0x8C, 0x24, 0x78, 0x56, 0x34, 0x12, // add r9d, [r12+disp]
        ]
    );
}

#[test]
fn pc_relative() {
    let mut a = Assembler::new(CodeBuffer::new());
    a.load_pc_relative(P32, R12, 0x12345678);
    let buf = a.into_buffer();
    assert_eq!(
        dump(&buf),
        vec![0x44, 0x8B, 0x25, 0x71, 0x56, 0x34, 0x12] // mov r12d, [rel 0x12345678]
    );
}

#[test]
fn pc_relative_if() {
    let mut a = Assembler::new(CodeBuffer::new());
    a.load_pc_relative_if(Condition::LE, P32, R12, 0x12345678);
    let buf = a.into_buffer();
    // The displacement is measured from the end of the 8-byte instruction.
    assert_eq!(
        dump(&buf),
        vec![0x44, 0x0F, 0x4E, 0x25, 0x70, 0x56, 0x34, 0x12] // cmovle r12d, [rel 0x12345678]
    );
}

#[test]
fn steal_retargets_jumps() {
    // Stealing a label's jumps re-points them at the winner's target.
    let mut a = Assembler::new(CodeBuffer::new());
    let mut loser = Label::new();
    let p1 = a.const_jump(None);
    loser.push(p1);
    a.ret();
    let mut winner = Label::new();
    a.define(&mut winner);
    assert_eq!(winner.target(), Some(8));
    a.steal(&mut winner, &mut loser);
    let buf = a.into_buffer();
    assert_eq!(
        dump(&buf),
        vec![
            0x40, 0xE9, 0x02, 0x00, 0x00, 0x00, // jmp winner (8 - 6 = 2)
            0x40, 0xC3, // ret
        ]
    );
}
