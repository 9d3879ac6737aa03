//! The machine code of a listing does what the listing does.

use crate::linking::{
    final_bytes, lemma_assemble_is_linked, lemma_linked_at, lemma_offset_next, offset, place,
};
use crate::listing::{
    address, assemble, closed, encoding, imm32, imm64, item_target, jumps,
    lemma_addresses_in_range, raw, target, Item, Op, Tag,
};
use crate::machine::{apply, decode, dword_at, qword_at, run_native, Insn, Machine};
use crate::trace::{landing, position, resolve, run, step};
use vstd::prelude::*;

verus! {

/// A mark of a listing has the address of the line it stands at.
pub proof fn lemma_address_is_offset(listing: Seq<Item>, tag: Tag)
    ensures
        address(listing, tag) == match position(listing, tag) {
            Some(p) => Some(offset(listing, p)),
            None => None,
        },
        position(listing, tag).is_some() ==> 0 <= position(listing, tag).unwrap() < listing.len(),
    decreases listing.len(),
{
    if listing.len() > 0 {
        let front = listing.drop_last();
        lemma_address_is_offset(front, tag);
        match position(front, tag) {
            Some(p) => {
                assert(listing.take(p) =~= front.take(p));
            },
            None => {
                assert(listing.take(listing.len() - 1) =~= front);
            },
        }
    }
}

/// Every jump of a listing is one of its `jumps`.
proof fn lemma_jump_listed(listing: Seq<Item>, i: int) -> (k: int)
    requires
        0 <= i < listing.len(),
        item_target(listing[i]).is_some(),
    ensures
        0 <= k < jumps(listing).len(),
        jumps(listing)[k].1 == item_target(listing[i]).unwrap(),
    decreases listing.len(),
{
    let front = listing.drop_last();
    if i == listing.len() - 1 {
        jumps(front).len() as int
    } else {
        let k = lemma_jump_listed(front, i);
        assert(jumps(listing)[k] == jumps(front)[k]);
        k
    }
}

/// A 32-bit number is read back from its four bytes.
proof fn lemma_dword(code: Seq<u8>, at: int, v: i32)
    requires
        0 <= at,
        at + 4 <= code.len(),
        code.subrange(at, at + 4) == imm32(v),
    ensures
        dword_at(code, at) == v,
{
    let b = code.subrange(at, at + 4);
    assert(code[at] == b[0] && code[at + 1] == b[1] && code[at + 2] == b[2] && code[at + 3]
        == b[3]);
    assert((((v as u8) as u32) | (((v >> 8) as u8) as u32) << 8 | (((v >> 16) as u8) as u32) << 16
        | (((v >> 24) as u8) as u32) << 24) as i32 == v) by (bit_vector);
}

/// A 64-bit number is read back from its eight bytes.
proof fn lemma_qword(code: Seq<u8>, at: int, v: i64)
    requires
        0 <= at,
        at + 8 <= code.len(),
        code.subrange(at, at + 8) == imm64(v),
    ensures
        qword_at(code, at) == v,
{
    let b = code.subrange(at, at + 8);
    assert(code[at] == b[0] && code[at + 1] == b[1] && code[at + 2] == b[2] && code[at + 3]
        == b[3] && code[at + 4] == b[4] && code[at + 5] == b[5] && code[at + 6] == b[6] && code[at
        + 7] == b[7]);
    assert((((v as u8) as u64) | (((v >> 8) as u8) as u64) << 8 | (((v >> 16) as u8) as u64) << 16
        | (((v >> 24) as u8) as u64) << 24 | (((v >> 32) as u8) as u64) << 32 | (((v >> 40) as u8)
        as u64) << 40 | (((v >> 48) as u8) as u64) << 48 | (((v >> 56) as u8) as u64) << 56) as i64
        == v) by (bit_vector);
}

/// The finished bytes of an instruction are decoded as that instruction,
/// with a jump continuing at the address it was linked to.
proof fn lemma_decode(code: Seq<u8>, at: int, op: Op, to: int)
    requires
        0 <= at,
        at + encoding(op).len() <= code.len(),
        code.subrange(at, at + encoding(op).len()) == final_bytes(
            Item::Code(op),
            at + encoding(op).len(),
            to,
        ),
        i32::MIN <= to - (at + encoding(op).len()) <= i32::MAX,
    ensures
        decode(code, at) == Some((resolve(op, to), encoding(op).len() as int)),
{
    let n = encoding(op).len() as int;
    let bytes = final_bytes(Item::Code(op), at + n, to);
    assert forall|k: int| 0 <= k < n implies code[at + k] == bytes[k] by {
        assert(code.subrange(at, at + n)[k] == code[at + k]);
    }
    assert(code[at] == bytes[0]);
    if n > 1 {
        assert(code[at + 1] == bytes[1]);
    }
    if n > 2 {
        assert(code[at + 2] == bytes[2]);
    }
    if n > 3 {
        assert(code[at + 3] == bytes[3]);
    }
    if n > 4 {
        assert(code[at + 4] == bytes[4]);
    }
    if n > 5 {
        assert(code[at + 5] == bytes[5]);
    }
    if n > 6 {
        assert(code[at + 6] == bytes[6]);
    }
    if n > 9 {
        assert(code[at + 7] == bytes[7]);
        assert(code[at + 8] == bytes[8]);
        assert(code[at + 9] == bytes[9]);
    }
    match op {
        Op::CompareInput(k) => {
            assert(code.subrange(at + 2, at + 6) =~= imm32(k));
            lemma_dword(code, at + 2, k);
        },
        Op::SetResult(v) => {
            assert(code.subrange(at + 3, at + 7) =~= imm32(v));
            lemma_dword(code, at + 3, v);
        },
        Op::ConstFirst(v) => {
            assert(code.subrange(at + 2, at + 10) =~= imm64(v));
            lemma_qword(code, at + 2, v);
        },
        Op::ConstSecond(v) => {
            assert(code.subrange(at + 2, at + 10) =~= imm64(v));
            lemma_qword(code, at + 2, v);
        },
        Op::Jump(_) => {
            let d = (to - (at + n)) as i32;
            assert(code.subrange(at + 1, at + 5) =~= imm32(d));
            lemma_dword(code, at + 1, d);
        },
        Op::JumpIfEqual(_) | Op::JumpIfNotEqual(_) | Op::JumpIfLess(_) | Op::JumpIfGreater(_) => {
            let d = (to - (at + n)) as i32;
            assert(code.subrange(at + 2, at + 6) =~= imm32(d));
            lemma_dword(code, at + 2, d);
        },
        _ => {},
    }
}

/// A run that returns a value returns it with more fuel too.
pub proof fn lemma_more_fuel(code: Seq<u8>, m: Machine, fuel: nat, more: nat, v: i32)
    requires
        run_native(code, m, fuel) == Some(v),
        fuel <= more,
    ensures
        run_native(code, m, more) == Some(v),
    decreases fuel,
{
    if fuel > 0 {
        match decode(code, m.pc) {
            None => {},
            Some((insn, length)) => {
                if insn != Insn::Return {
                    lemma_more_fuel(
                        code,
                        apply(m, insn, m.pc + length),
                        (fuel - 1) as nat,
                        (more - 1) as nat,
                        v,
                    );
                }
            },
        }
    }
}

/// The state of the processor that stands for a state of a run through a
/// listing: the same registers, at the address of the line.
pub open spec fn at_address(listing: Seq<Item>, m: Machine) -> Machine {
    Machine { pc: offset(listing, m.pc), ..m }
}

/// One instruction of a listing and of its machine code lead from
/// corresponding states to corresponding states.
proof fn lemma_same_step(listing: Seq<Item>, m: Machine, op: Op)
    requires
        closed(listing),
        raw(listing).len() <= i32::MAX,
        0 <= m.pc < listing.len(),
        listing[m.pc] == Item::Code(op),
    ensures
        decode(assemble(listing), offset(listing, m.pc)) == Some(
            (resolve(op, place(listing, target(op))), encoding(op).len() as int),
        ),
        op != Op::Return ==> apply(
            at_address(listing, m),
            resolve(op, place(listing, target(op))),
            offset(listing, m.pc) + encoding(op).len(),
        ) == at_address(listing, step(listing, m)),
{
    let code = assemble(listing);
    let i = m.pc;
    let to = place(listing, target(op));
    let n = encoding(op).len() as int;
    lemma_assemble_is_linked(listing);
    lemma_offset_next(listing, i);
    lemma_linked_at(listing, listing, i);
    lemma_addresses_in_range(listing);
    match target(op) {
        Some(t) => {
            let k = lemma_jump_listed(listing, i);
            assert(address(listing, jumps(listing)[k].1).is_some());
            lemma_address_is_offset(listing, t);
            assert(to == offset(listing, landing(listing, t)));
        },
        None => {},
    }
    lemma_decode(code, offset(listing, i), op, to);
}

/// What a listing returns, its machine code returns.
pub proof fn lemma_simulation(listing: Seq<Item>, m: Machine, fuel: nat, v: i32)
    requires
        closed(listing),
        raw(listing).len() <= i32::MAX,
        run(listing, m, fuel) == Some(v),
    ensures
        run_native(assemble(listing), at_address(listing, m), fuel) == Some(v),
    decreases fuel,
{
    let code = assemble(listing);
    let next = step(listing, m);
    match listing[m.pc] {
        Item::Mark(_) => {
            lemma_offset_next(listing, m.pc);
            lemma_simulation(listing, next, (fuel - 1) as nat, v);
            assert(at_address(listing, next) == at_address(listing, m));
            lemma_more_fuel(code, at_address(listing, m), (fuel - 1) as nat, fuel, v);
        },
        Item::Code(op) => {
            lemma_same_step(listing, m, op);
            if op != Op::Return {
                lemma_simulation(listing, next, (fuel - 1) as nat, v);
            }
        },
    }
}

} // verus!
