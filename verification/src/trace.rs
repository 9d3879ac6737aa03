//! Running a listing line by line.

use crate::listing::{target, Item, Op, Tag};
use crate::machine::{apply, Insn, Machine};
use vstd::prelude::*;

verus! {

/// The index of the first mark of `tag` in a listing.
pub open spec fn position(listing: Seq<Item>, tag: Tag) -> Option<int>
    decreases listing.len(),
{
    if listing.len() == 0 {
        None
    } else {
        match position(listing.drop_last(), tag) {
            Some(i) => Some(i),
            None => if listing.last() == Item::Mark(tag) {
                Some(listing.len() - 1)
            } else {
                None
            },
        }
    }
}

/// Where a jump to `tag` continues: at the mark of the tag. A jump to a tag
/// that is not marked leaves the listing.
pub open spec fn landing(listing: Seq<Item>, tag: Tag) -> int {
    match position(listing, tag) {
        Some(i) => i,
        None => listing.len() as int,
    }
}

/// The instruction of a listing with its jump, if it is one, continuing at `to`.
pub open spec fn resolve(op: Op, to: int) -> Insn {
    match op {
        Op::CompareInput(k) => Insn::CompareInput(k),
        Op::JumpIfEqual(_) => Insn::JumpIfEqual(to),
        Op::JumpIfNotEqual(_) => Insn::JumpIfNotEqual(to),
        Op::JumpIfLess(_) => Insn::JumpIfLess(to),
        Op::JumpIfGreater(_) => Insn::JumpIfGreater(to),
        Op::Jump(_) => Insn::Jump(to),
        Op::SetResult(v) => Insn::SetResult(v),
        Op::Return => Insn::Return,
        Op::LoadFirst => Insn::LoadFirst,
        Op::LoadSecond => Insn::LoadSecond,
        Op::ConstFirst(v) => Insn::ConstFirst(v),
        Op::ConstSecond(v) => Insn::ConstSecond(v),
        Op::CompareFirst => Insn::CompareFirst,
        Op::CompareSecond => Insn::CompareSecond,
        Op::VectorLoad => Insn::VectorLoad,
        Op::VectorFromFirst => Insn::VectorFromFirst,
        Op::VectorInsertSecond => Insn::VectorInsertSecond,
        Op::VectorEqualBytes => Insn::VectorEqualBytes,
        Op::VectorMask => Insn::VectorMask,
        Op::CompareMask => Insn::CompareMask,
    }
}

/// The line at which a jump of a listing continues; 0 for an instruction
/// that is no jump.
pub open spec fn aim(listing: Seq<Item>, op: Op) -> int {
    match target(op) {
        Some(t) => landing(listing, t),
        None => 0,
    }
}

/// The machine after the line at `m.pc` of a listing. A mark is passed over.
pub open spec fn step(listing: Seq<Item>, m: Machine) -> Machine {
    match listing[m.pc] {
        Item::Mark(_) => Machine { pc: m.pc + 1, ..m },
        Item::Code(op) => apply(m, resolve(op, aim(listing, op)), m.pc + 1),
    }
}

/// The value a listing returns when started in state `m`, if it returns
/// within `fuel` lines: the low 32 bits of `rax` at the `ret`.
pub open spec fn run(listing: Seq<Item>, m: Machine, fuel: nat) -> Option<i32>
    decreases fuel,
{
    if fuel == 0 || !(0 <= m.pc < listing.len()) {
        None
    } else if listing[m.pc] == Item::Code(Op::Return) {
        Some(m.rax as i32)
    } else {
        run(listing, step(listing, m), (fuel - 1) as nat)
    }
}

/// One line of a run.
pub proof fn lemma_step(listing: Seq<Item>, m: Machine, fuel: nat)
    requires
        fuel > 0,
        0 <= m.pc < listing.len(),
        listing[m.pc] != Item::Code(Op::Return),
    ensures
        run(listing, m, fuel) == run(listing, step(listing, m), (fuel - 1) as nat),
{
}

/// A tag that no line of a listing marks has no position in it.
pub proof fn lemma_position_none(listing: Seq<Item>, tag: Tag)
    requires
        forall|j: int| 0 <= j < listing.len() ==> listing[j] != Item::Mark(tag),
    ensures
        position(listing, tag).is_none(),
    decreases listing.len(),
{
    if listing.len() > 0 {
        lemma_position_none(listing.drop_last(), tag);
    }
}

/// The position of a tag is the index of the first line that marks it.
pub proof fn lemma_position_is(listing: Seq<Item>, tag: Tag, i: int)
    requires
        0 <= i < listing.len(),
        listing[i] == Item::Mark(tag),
        forall|j: int| 0 <= j < i ==> listing[j] != Item::Mark(tag),
    ensures
        position(listing, tag) == Some(i),
    decreases listing.len(),
{
    if i == listing.len() - 1 {
        lemma_position_none(listing.drop_last(), tag);
    } else {
        lemma_position_is(listing.drop_last(), tag, i);
    }
}

/// A position is the index of a line that marks the tag.
pub proof fn lemma_position_marks(listing: Seq<Item>, tag: Tag)
    requires
        position(listing, tag).is_some(),
    ensures
        0 <= position(listing, tag).unwrap() < listing.len(),
        listing[position(listing, tag).unwrap()] == Item::Mark(tag),
    decreases listing.len(),
{
    if listing.len() > 0 && position(listing.drop_last(), tag).is_some() {
        lemma_position_marks(listing.drop_last(), tag);
    }
}

/// The position of a tag in two listings joined: its position in the first,
/// or else its position in the second behind the first.
pub proof fn lemma_position_concat(a: Seq<Item>, b: Seq<Item>, tag: Tag)
    ensures
        position(a + b, tag) == match position(a, tag) {
            Some(i) => Some(i),
            None => match position(b, tag) {
                Some(j) => Some(a.len() + j),
                None => None,
            },
        },
    decreases b.len(),
{
    if b.len() == 0 {
        assert(a + b =~= a);
    } else {
        lemma_position_concat(a, b.drop_last(), tag);
        assert((a + b).drop_last() =~= a + b.drop_last());
    }
}

} // verus!
