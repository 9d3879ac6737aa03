//! Symbolic instruction listings and the machine code they stand for.
//!
//! A listing is a sequence of instructions and label marks. Jumps name their
//! target by a tag; the bytes of a listing are its instructions' encodings with
//! every jump displacement resolved against the address of the mark it names.

use vstd::prelude::*;

verus! {

/// Symbolic name of a code position. The integer is the rank of the key of
/// the tree node the position belongs to.
pub enum Tag {
    /// Start of a node's block.
    Entry(int),
    /// A node's value-returning epilogue.
    Found(int),
    /// Start of the limb-by-limb comparison that follows a failed vector test.
    Fallback(int),
    /// A node's jump to its left child.
    GoLeft(int),
    /// A node's jump to its right child.
    GoRight(int),
    /// The shared not-found epilogue.
    Miss,
}

/// Whether the tag names a position in the block of a node whose key ranks
/// strictly between `lo` and `hi`.
pub open spec fn inside(t: Tag, lo: int, hi: int) -> bool {
    match t {
        Tag::Entry(r) => lo < r < hi,
        Tag::Found(r) => lo < r < hi,
        Tag::Fallback(r) => lo < r < hi,
        Tag::GoLeft(r) => lo < r < hi,
        Tag::GoRight(r) => lo < r < hi,
        Tag::Miss => false,
    }
}

/// The instructions the code generator selects from.
pub enum Op {
    /// `cmp edi, imm32`
    CompareInput(i32),
    /// `je rel32`
    JumpIfEqual(Tag),
    /// `jne rel32`
    JumpIfNotEqual(Tag),
    /// `jl rel32`
    JumpIfLess(Tag),
    /// `jg rel32`
    JumpIfGreater(Tag),
    /// `jmp rel32`
    Jump(Tag),
    /// `mov rax, imm32`
    SetResult(i32),
    /// `ret`
    Return,
    /// `mov r8, [rdi]`
    LoadFirst,
    /// `mov r9, [rdi + 8]`
    LoadSecond,
    /// `mov r10, imm64`
    ConstFirst(i64),
    /// `mov r11, imm64`
    ConstSecond(i64),
    /// `cmp r8, r10`
    CompareFirst,
    /// `cmp r9, r11`
    CompareSecond,
    /// `movups xmm0, [rdi]`
    VectorLoad,
    /// `movq xmm1, r10`
    VectorFromFirst,
    /// `pinsrq xmm1, r11, 1`
    VectorInsertSecond,
    /// `pcmpeqb xmm0, xmm1`
    VectorEqualBytes,
    /// `pmovmskb eax, xmm0`
    VectorMask,
    /// `cmp eax, 0xFFFF`
    CompareMask,
}

/// One line of a listing.
pub enum Item {
    /// Binds a tag to the address of the next instruction.
    Mark(Tag),
    /// An instruction.
    Code(Op),
}

/// The four bytes of a 32-bit immediate, least significant first.
pub open spec fn imm32(v: i32) -> Seq<u8> {
    seq![v as u8, (v >> 8) as u8, (v >> 16) as u8, (v >> 24) as u8]
}

/// The eight bytes of a 64-bit immediate, least significant first.
pub open spec fn imm64(v: i64) -> Seq<u8> {
    seq![
        v as u8,
        (v >> 8) as u8,
        (v >> 16) as u8,
        (v >> 24) as u8,
        (v >> 32) as u8,
        (v >> 40) as u8,
        (v >> 48) as u8,
        (v >> 56) as u8,
    ]
}

/// The tag a jump names; `None` for every other instruction.
pub open spec fn target(op: Op) -> Option<Tag> {
    match op {
        Op::JumpIfEqual(t) => Some(t),
        Op::JumpIfNotEqual(t) => Some(t),
        Op::JumpIfLess(t) => Some(t),
        Op::JumpIfGreater(t) => Some(t),
        Op::Jump(t) => Some(t),
        _ => None,
    }
}

/// The encoding of an instruction. A jump ends in a four-byte displacement,
/// which is zero here and filled in when the listing is assembled.
pub open spec fn encoding(op: Op) -> Seq<u8> {
    match op {
        Op::CompareInput(k) => seq![0x81u8, 0xFFu8] + imm32(k),
        Op::JumpIfEqual(_) => seq![0x0Fu8, 0x84u8, 0u8, 0u8, 0u8, 0u8],
        Op::JumpIfNotEqual(_) => seq![0x0Fu8, 0x85u8, 0u8, 0u8, 0u8, 0u8],
        Op::JumpIfLess(_) => seq![0x0Fu8, 0x8Cu8, 0u8, 0u8, 0u8, 0u8],
        Op::JumpIfGreater(_) => seq![0x0Fu8, 0x8Fu8, 0u8, 0u8, 0u8, 0u8],
        Op::Jump(_) => seq![0xE9u8, 0u8, 0u8, 0u8, 0u8],
        Op::SetResult(v) => seq![0x48u8, 0xC7u8, 0xC0u8] + imm32(v),
        Op::Return => seq![0xC3u8],
        Op::LoadFirst => seq![0x4Cu8, 0x8Bu8, 0x07u8],
        Op::LoadSecond => seq![0x4Cu8, 0x8Bu8, 0x4Fu8, 0x08u8],
        Op::ConstFirst(v) => seq![0x49u8, 0xBAu8] + imm64(v),
        Op::ConstSecond(v) => seq![0x49u8, 0xBBu8] + imm64(v),
        Op::CompareFirst => seq![0x4Du8, 0x3Bu8, 0xC2u8],
        Op::CompareSecond => seq![0x4Du8, 0x3Bu8, 0xCBu8],
        Op::VectorLoad => seq![0x0Fu8, 0x10u8, 0x07u8],
        Op::VectorFromFirst => seq![0x66u8, 0x49u8, 0x0Fu8, 0x6Eu8, 0xCAu8],
        Op::VectorInsertSecond => seq![0x66u8, 0x49u8, 0x0Fu8, 0x3Au8, 0x22u8, 0xCBu8, 0x01u8],
        Op::VectorEqualBytes => seq![0x66u8, 0x0Fu8, 0x74u8, 0xC1u8],
        Op::VectorMask => seq![0x66u8, 0x0Fu8, 0xD7u8, 0xC0u8],
        Op::CompareMask => seq![0x3Du8, 0xFFu8, 0xFFu8, 0x00u8, 0x00u8],
    }
}

/// The bytes a line contributes: none for a mark.
pub open spec fn item_bytes(item: Item) -> Seq<u8> {
    match item {
        Item::Mark(_) => Seq::empty(),
        Item::Code(op) => encoding(op),
    }
}

/// The tag a line jumps to, if it is a jump.
pub open spec fn item_target(item: Item) -> Option<Tag> {
    match item {
        Item::Mark(_) => None,
        Item::Code(op) => target(op),
    }
}

/// The bytes of a listing before any displacement is filled in.
pub open spec fn raw(listing: Seq<Item>) -> Seq<u8>
    decreases listing.len(),
{
    if listing.len() == 0 {
        Seq::empty()
    } else {
        raw(listing.drop_last()) + item_bytes(listing.last())
    }
}

/// The address of the first mark of `tag` in a listing.
pub open spec fn address(listing: Seq<Item>, tag: Tag) -> Option<int>
    decreases listing.len(),
{
    if listing.len() == 0 {
        None
    } else {
        match address(listing.drop_last(), tag) {
            Some(a) => Some(a),
            None => if listing.last() == Item::Mark(tag) {
                Some(raw(listing.drop_last()).len() as int)
            } else {
                None
            },
        }
    }
}

/// The jumps of a listing in order: for each, the address just behind it and
/// the tag it names.
pub open spec fn jumps(listing: Seq<Item>) -> Seq<(int, Tag)>
    decreases listing.len(),
{
    if listing.len() == 0 {
        Seq::empty()
    } else {
        match item_target(listing.last()) {
            Some(t) => jumps(listing.drop_last()).push((raw(listing).len() as int, t)),
            None => jumps(listing.drop_last()),
        }
    }
}

/// Every jump of the listing names a tag that the listing marks.
pub open spec fn closed(listing: Seq<Item>) -> bool {
    forall|i: int|
        0 <= i < jumps(listing).len() ==> address(listing, (#[trigger] jumps(listing)[i]).1).is_some()
}

/// The displacement fields of a listing: for each jump, the address just
/// behind it paired with the address of its target.
pub open spec fn sites(listing: Seq<Item>) -> Seq<(int, int)> {
    Seq::new(
        jumps(listing).len(),
        |i: int| (jumps(listing)[i].0, address(listing, jumps(listing)[i].1).unwrap()),
    )
}

/// `code` with the displacement field that ends at `site.0` set to the
/// distance from there to `site.1`.
pub open spec fn patch(code: Seq<u8>, site: (int, int)) -> Seq<u8> {
    code.subrange(0, site.0 - 4) + imm32((site.1 - site.0) as i32) + code.subrange(
        site.0,
        code.len() as int,
    )
}

/// `code` with every displacement field of `sites` set, in order.
pub open spec fn patch_all(code: Seq<u8>, sites: Seq<(int, int)>) -> Seq<u8>
    decreases sites.len(),
{
    if sites.len() == 0 {
        code
    } else {
        patch(patch_all(code, sites.drop_last()), sites.last())
    }
}

/// The machine code of a listing: its encodings, every jump displacement
/// holding the distance from the end of the jump to the mark it names.
pub open spec fn assemble(listing: Seq<Item>) -> Seq<u8> {
    patch_all(raw(listing), sites(listing))
}

/// What appending one line does to the bytes, the marks and the jumps.
pub proof fn lemma_push(listing: Seq<Item>, item: Item)
    ensures
        raw(listing.push(item)) == raw(listing) + item_bytes(item),
        jumps(listing.push(item)) == match item_target(item) {
            Some(t) => jumps(listing).push(((raw(listing).len() + item_bytes(item).len()) as int, t)),
            None => jumps(listing),
        },
        forall|t: Tag| #[trigger]
            address(listing.push(item), t) == match address(listing, t) {
                Some(a) => Some(a),
                None => if item == Item::Mark(t) {
                    Some(raw(listing).len() as int)
                } else {
                    None
                },
            },
{
    assert(listing.push(item).drop_last() =~= listing);
}

/// Marks lie inside the code and jumps end inside it, at least four bytes in.
pub proof fn lemma_addresses_in_range(listing: Seq<Item>)
    ensures
        forall|t: Tag|
            (#[trigger] address(listing, t)).is_some() ==> 0 <= address(listing, t).unwrap() <= raw(
                listing,
            ).len(),
        forall|i: int|
            0 <= i < jumps(listing).len() ==> 4 <= (#[trigger] jumps(listing)[i]).0 <= raw(
                listing,
            ).len(),
    decreases listing.len(),
{
    if listing.len() > 0 {
        let front = listing.drop_last();
        let item = listing.last();
        lemma_addresses_in_range(front);
        assert(raw(listing).len() == raw(front).len() + item_bytes(item).len());
        assert forall|t: Tag| (#[trigger] address(listing, t)).is_some() implies 0 <= address(
            listing,
            t,
        ).unwrap() <= raw(listing).len() by {
            if address(front, t).is_some() {
                assert(address(listing, t) == address(front, t));
            }
        }
        assert forall|i: int| 0 <= i < jumps(listing).len() implies 4 <= (#[trigger] jumps(
            listing,
        )[i]).0 <= raw(listing).len() by {
            if i < jumps(front).len() {
                assert(jumps(listing)[i] == jumps(front)[i]);
            } else {
                assert(item_target(item).is_some());
                assert(item_bytes(item).len() >= 5);
            }
        }
    }
}

} // verus!
