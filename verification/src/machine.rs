//! A model of the processor for the instructions that the code generator
//! selects: what machine code made of them computes.

use crate::listing::imm64;
use vstd::prelude::*;

verus! {

/// The state of the processor as far as the generated code reads or writes it.
pub struct Machine {
    /// Where execution continues: an offset into machine code, or, in a run
    /// through a listing, the index of a line.
    pub pc: int,
    /// The key the code was called with, as its two limbs. Called with a key
    /// by value, the argument register `edi` holds the low 32 bits of the
    /// first limb; called with a pointer, the sixteen bytes behind `rdi` hold
    /// the two limbs, least significant byte first.
    pub input: (i64, i64),
    pub r8: i64,
    pub r9: i64,
    pub r10: i64,
    pub r11: i64,
    pub rax: i64,
    /// The sixteen bytes of `xmm0`.
    pub xmm0: Seq<u8>,
    /// The sixteen bytes of `xmm1`.
    pub xmm1: Seq<u8>,
    /// The two operands of the last comparison, as signed numbers.
    pub flags: (int, int),
}

/// The sixteen bytes of a vector register whose low half holds `low` and
/// whose high half holds `high`.
pub open spec fn lanes(low: i64, high: i64) -> Seq<u8> {
    imm64(low) + imm64(high)
}

/// Bytewise equality of two vector registers: 0xFF where the bytes are equal,
/// zero where they are not.
pub open spec fn equal_bytes(a: Seq<u8>, b: Seq<u8>) -> Seq<u8> {
    Seq::new(
        16,
        |i: int|
            if a[i] == b[i] {
                0xFFu8
            } else {
                0u8
            },
    )
}

/// The top bit of byte `i` of a vector register.
pub open spec fn top_bit(v: Seq<u8>, i: int) -> int {
    if v[i] >= 0x80 {
        1
    } else {
        0
    }
}

/// The sixteen top bits of the bytes of a vector register, byte 0 lowest.
pub open spec fn byte_mask(v: Seq<u8>) -> int {
    top_bit(v, 0) + 2 * top_bit(v, 1) + 4 * top_bit(v, 2) + 8 * top_bit(v, 3) + 16 * top_bit(v, 4)
        + 32 * top_bit(v, 5) + 64 * top_bit(v, 6) + 128 * top_bit(v, 7) + 256 * top_bit(v, 8) + 512
        * top_bit(v, 9) + 1024 * top_bit(v, 10) + 2048 * top_bit(v, 11) + 4096 * top_bit(v, 12)
        + 8192 * top_bit(v, 13) + 16384 * top_bit(v, 14) + 32768 * top_bit(v, 15)
}

/// An instruction as the processor meets it: a jump holds the place in the
/// code where it continues.
pub enum Insn {
    /// `cmp edi, imm32`
    CompareInput(i32),
    /// `je`
    JumpIfEqual(int),
    /// `jne`
    JumpIfNotEqual(int),
    /// `jl`
    JumpIfLess(int),
    /// `jg`
    JumpIfGreater(int),
    /// `jmp`
    Jump(int),
    /// `mov rax, imm32`
    SetResult(i32),
    /// `ret`
    Return,
    /// `mov r8, [rdi]`
    LoadFirst,
    /// `mov r9, [rdi + 8]`
    LoadSecond,
    /// `mov r10, imm64`
    ConstFirst(i64),
    /// `mov r11, imm64`
    ConstSecond(i64),
    /// `cmp r8, r10`
    CompareFirst,
    /// `cmp r9, r11`
    CompareSecond,
    /// `movups xmm0, [rdi]`
    VectorLoad,
    /// `movq xmm1, r10`
    VectorFromFirst,
    /// `pinsrq xmm1, r11, 1`
    VectorInsertSecond,
    /// `pcmpeqb xmm0, xmm1`
    VectorEqualBytes,
    /// `pmovmskb eax, xmm0`
    VectorMask,
    /// `cmp eax, 0xFFFF`
    CompareMask,
}

/// The machine after an instruction, executed in state `m`; `next` is the
/// place of the instruction behind it. The conditional jumps read the last
/// comparison as a comparison of signed numbers.
pub open spec fn apply(m: Machine, insn: Insn, next: int) -> Machine {
    let on = Machine { pc: next, ..m };
    match insn {
        Insn::CompareInput(k) => Machine { flags: (m.input.0 as i32 as int, k as int), ..on },
        Insn::JumpIfEqual(to) => if m.flags.0 == m.flags.1 {
            Machine { pc: to, ..m }
        } else {
            on
        },
        Insn::JumpIfNotEqual(to) => if m.flags.0 != m.flags.1 {
            Machine { pc: to, ..m }
        } else {
            on
        },
        Insn::JumpIfLess(to) => if m.flags.0 < m.flags.1 {
            Machine { pc: to, ..m }
        } else {
            on
        },
        Insn::JumpIfGreater(to) => if m.flags.0 > m.flags.1 {
            Machine { pc: to, ..m }
        } else {
            on
        },
        Insn::Jump(to) => Machine { pc: to, ..m },
        Insn::SetResult(v) => Machine { rax: v as i64, ..on },
        Insn::Return => m,
        Insn::LoadFirst => Machine { r8: m.input.0, ..on },
        Insn::LoadSecond => Machine { r9: m.input.1, ..on },
        Insn::ConstFirst(v) => Machine { r10: v, ..on },
        Insn::ConstSecond(v) => Machine { r11: v, ..on },
        Insn::CompareFirst => Machine { flags: (m.r8 as int, m.r10 as int), ..on },
        Insn::CompareSecond => Machine { flags: (m.r9 as int, m.r11 as int), ..on },
        Insn::VectorLoad => Machine { xmm0: lanes(m.input.0, m.input.1), ..on },
        Insn::VectorFromFirst => Machine { xmm1: lanes(m.r10, 0), ..on },
        Insn::VectorInsertSecond => Machine { xmm1: m.xmm1.subrange(0, 8) + imm64(m.r11), ..on },
        Insn::VectorEqualBytes => Machine { xmm0: equal_bytes(m.xmm0, m.xmm1), ..on },
        Insn::VectorMask => Machine { rax: byte_mask(m.xmm0) as i64, ..on },
        Insn::CompareMask => Machine { flags: (m.rax as i32 as int, 0xFFFF), ..on },
    }
}

/// The 32-bit number whose bytes, least significant first, stand in `code`
/// from `at` on.
pub open spec fn dword_at(code: Seq<u8>, at: int) -> i32 {
    ((code[at] as u32) | (code[at + 1] as u32) << 8 | (code[at + 2] as u32) << 16 | (code[at
        + 3] as u32) << 24) as i32
}

/// The 64-bit number whose bytes, least significant first, stand in `code`
/// from `at` on.
pub open spec fn qword_at(code: Seq<u8>, at: int) -> i64 {
    ((code[at] as u64) | (code[at + 1] as u64) << 8 | (code[at + 2] as u64) << 16 | (code[at
        + 3] as u64) << 24 | (code[at + 4] as u64) << 32 | (code[at + 5] as u64) << 40 | (code[at
        + 6] as u64) << 48 | (code[at + 7] as u64) << 56) as i64
}

/// The instruction that stands at offset `at` of machine code, and its
/// length. A jump continues at the end of the instruction plus its
/// displacement. `None` where the bytes are none of the instructions that the
/// code generator selects.
pub open spec fn decode(code: Seq<u8>, at: int) -> Option<(Insn, int)> {
    let left = code.len() - at;
    let b0 = code[at];
    let b1 = code[at + 1];
    let b2 = code[at + 2];
    let b3 = code[at + 3];
    let b4 = code[at + 4];
    let b5 = code[at + 5];
    let b6 = code[at + 6];
    if at < 0 || left < 1 {
        None
    } else if b0 == 0xC3 {
        Some((Insn::Return, 1))
    } else if b0 == 0xE9 && left >= 5 {
        Some((Insn::Jump(at + 5 + dword_at(code, at + 1)), 5))
    } else if b0 == 0x3D && left >= 5 && b1 == 0xFF && b2 == 0xFF && b3 == 0 && b4 == 0 {
        Some((Insn::CompareMask, 5))
    } else if b0 == 0x81 && left >= 6 && b1 == 0xFF {
        Some((Insn::CompareInput(dword_at(code, at + 2)), 6))
    } else if b0 == 0x0F && left >= 6 && b1 == 0x84 {
        Some((Insn::JumpIfEqual(at + 6 + dword_at(code, at + 2)), 6))
    } else if b0 == 0x0F && left >= 6 && b1 == 0x85 {
        Some((Insn::JumpIfNotEqual(at + 6 + dword_at(code, at + 2)), 6))
    } else if b0 == 0x0F && left >= 6 && b1 == 0x8C {
        Some((Insn::JumpIfLess(at + 6 + dword_at(code, at + 2)), 6))
    } else if b0 == 0x0F && left >= 6 && b1 == 0x8F {
        Some((Insn::JumpIfGreater(at + 6 + dword_at(code, at + 2)), 6))
    } else if b0 == 0x0F && left >= 3 && b1 == 0x10 && b2 == 0x07 {
        Some((Insn::VectorLoad, 3))
    } else if b0 == 0x48 && left >= 7 && b1 == 0xC7 && b2 == 0xC0 {
        Some((Insn::SetResult(dword_at(code, at + 3)), 7))
    } else if b0 == 0x4C && left >= 3 && b1 == 0x8B && b2 == 0x07 {
        Some((Insn::LoadFirst, 3))
    } else if b0 == 0x4C && left >= 4 && b1 == 0x8B && b2 == 0x4F && b3 == 0x08 {
        Some((Insn::LoadSecond, 4))
    } else if b0 == 0x49 && left >= 10 && b1 == 0xBA {
        Some((Insn::ConstFirst(qword_at(code, at + 2)), 10))
    } else if b0 == 0x49 && left >= 10 && b1 == 0xBB {
        Some((Insn::ConstSecond(qword_at(code, at + 2)), 10))
    } else if b0 == 0x4D && left >= 3 && b1 == 0x3B && b2 == 0xC2 {
        Some((Insn::CompareFirst, 3))
    } else if b0 == 0x4D && left >= 3 && b1 == 0x3B && b2 == 0xCB {
        Some((Insn::CompareSecond, 3))
    } else if b0 == 0x66 && left >= 5 && b1 == 0x49 && b2 == 0x0F && b3 == 0x6E && b4 == 0xCA {
        Some((Insn::VectorFromFirst, 5))
    } else if b0 == 0x66 && left >= 7 && b1 == 0x49 && b2 == 0x0F && b3 == 0x3A && b4 == 0x22 && b5
        == 0xCB && b6 == 0x01 {
        Some((Insn::VectorInsertSecond, 7))
    } else if b0 == 0x66 && left >= 4 && b1 == 0x0F && b2 == 0x74 && b3 == 0xC1 {
        Some((Insn::VectorEqualBytes, 4))
    } else if b0 == 0x66 && left >= 4 && b1 == 0x0F && b2 == 0xD7 && b3 == 0xC0 {
        Some((Insn::VectorMask, 4))
    } else {
        None
    }
}

/// The value machine code returns when started in state `m`, with `m.pc` an
/// offset into the code, if it returns within `fuel` instructions: the low 32
/// bits of `rax` at the `ret`. `None` also where the processor meets bytes
/// that `decode` does not know.
pub open spec fn run_native(code: Seq<u8>, m: Machine, fuel: nat) -> Option<i32>
    decreases fuel,
{
    if fuel == 0 {
        None
    } else {
        match decode(code, m.pc) {
            None => None,
            Some((insn, length)) => if insn == Insn::Return {
                Some(m.rax as i32)
            } else {
                run_native(code, apply(m, insn, m.pc + length), (fuel - 1) as nat)
            },
        }
    }
}

/// The value machine code returns when it is entered at its first byte with
/// the key `input`, whatever the registers hold at that moment. `None` if it
/// has not returned after as many instructions as the code has bytes.
pub open spec fn answer(code: Seq<u8>, input: (i64, i64), registers: Machine) -> Option<i32> {
    run_native(code, Machine { pc: 0, input, ..registers }, code.len())
}

} // verus!
