//! The machine code of a listing, line by line.

use crate::listing::{
    address, assemble, imm32, item_bytes, item_target, jumps, lemma_addresses_in_range, patch,
    patch_all, raw, sites, Item, Tag,
};
use vstd::prelude::*;

verus! {

/// The address of `tag` in `whole`, for a tag that `whole` marks.
pub open spec fn place(whole: Seq<Item>, target: Option<Tag>) -> int {
    match target {
        Some(t) => match address(whole, t) {
            Some(a) => a,
            None => 0,
        },
        None => 0,
    }
}

/// The bytes of a line in finished code: its encoding, and for a jump the
/// encoding with the distance from `end`, the address behind the jump, to
/// `to` in its last four bytes.
pub open spec fn final_bytes(item: Item, end: int, to: int) -> Seq<u8> {
    match item_target(item) {
        Some(_) => item_bytes(item).subrange(0, item_bytes(item).len() - 4) + imm32(
            (to - end) as i32,
        ),
        None => item_bytes(item),
    }
}

/// The finished bytes of the lines of `part`, a beginning of `whole`, with
/// every jump leading to the address its tag has in `whole`.
pub open spec fn linked(part: Seq<Item>, whole: Seq<Item>) -> Seq<u8>
    decreases part.len(),
{
    if part.len() == 0 {
        Seq::empty()
    } else {
        linked(part.drop_last(), whole) + final_bytes(
            part.last(),
            raw(part).len() as int,
            place(whole, item_target(part.last())),
        )
    }
}

/// The displacement fields of `part` with the targets that `whole` gives.
pub open spec fn sites_in(part: Seq<Item>, whole: Seq<Item>) -> Seq<(int, int)> {
    Seq::new(jumps(part).len(), |i: int| (jumps(part)[i].0, place(whole, Some(jumps(part)[i].1))))
}

/// The address of line `i` of a listing.
pub open spec fn offset(listing: Seq<Item>, i: int) -> int {
    raw(listing.take(i)).len() as int
}

proof fn lemma_patch_all_len(code: Seq<u8>, fields: Seq<(int, int)>)
    requires
        forall|k: int| 0 <= k < fields.len() ==> 4 <= (#[trigger] fields[k]).0 <= code.len(),
    ensures
        patch_all(code, fields).len() == code.len(),
    decreases fields.len(),
{
    if fields.len() > 0 {
        lemma_patch_all_len(code, fields.drop_last());
        assert(4 <= fields.last().0 <= code.len());
    }
}

/// Bytes behind every field are not touched by filling in the fields.
proof fn lemma_patch_all_append(code: Seq<u8>, more: Seq<u8>, fields: Seq<(int, int)>)
    requires
        forall|k: int| 0 <= k < fields.len() ==> 4 <= (#[trigger] fields[k]).0 <= code.len(),
    ensures
        patch_all(code + more, fields) == patch_all(code, fields) + more,
    decreases fields.len(),
{
    if fields.len() == 0 {
    } else {
        let front = fields.drop_last();
        let last = fields.last();
        lemma_patch_all_append(code, more, front);
        lemma_patch_all_len(code, front);
        assert(4 <= last.0 <= code.len());
        let inner = patch_all(code, front);
        assert(patch(inner + more, last) =~= patch(inner, last) + more);
    }
}

proof fn lemma_linked_len(part: Seq<Item>, whole: Seq<Item>)
    ensures
        linked(part, whole).len() == raw(part).len(),
    decreases part.len(),
{
    if part.len() > 0 {
        lemma_linked_len(part.drop_last(), whole);
        lemma_addresses_in_range(part);
    }
}

/// Filling in the displacement fields of the raw bytes gives the finished
/// bytes of every line.
proof fn lemma_patched_is_linked(part: Seq<Item>, whole: Seq<Item>)
    ensures
        patch_all(raw(part), sites_in(part, whole)) == linked(part, whole),
    decreases part.len(),
{
    if part.len() == 0 {
        assert(sites_in(part, whole) =~= Seq::<(int, int)>::empty());
    } else {
        let front = part.drop_last();
        let item = part.last();
        let bytes = item_bytes(item);
        lemma_patched_is_linked(front, whole);
        lemma_addresses_in_range(front);
        lemma_addresses_in_range(part);
        lemma_linked_len(front, whole);
        let before = sites_in(front, whole);
        assert forall|k: int| 0 <= k < before.len() implies 4 <= (#[trigger] before[k]).0 <= raw(
            front,
        ).len() by {
            assert(before[k].0 == jumps(front)[k].0);
        }
        lemma_patch_all_append(raw(front), bytes, before);
        match item_target(item) {
            None => {
                assert(sites_in(part, whole) =~= before);
            },
            Some(t) => {
                let end = raw(part).len() as int;
                let field = (end, place(whole, Some(t)));
                assert(jumps(part) == jumps(front).push((end, t)));
                assert(sites_in(part, whole) =~= before.push(field));
                assert(sites_in(part, whole).drop_last() =~= before);
                assert(bytes.len() >= 5);
                assert(patch(linked(front, whole) + bytes, field) =~= linked(front, whole)
                    + final_bytes(item, end, place(whole, Some(t))));
            },
        }
    }
}

/// The machine code of a listing is the finished bytes of its lines.
pub proof fn lemma_assemble_is_linked(listing: Seq<Item>)
    requires
        crate::listing::closed(listing),
    ensures
        assemble(listing) == linked(listing, listing),
        assemble(listing).len() == raw(listing).len(),
{
    lemma_patched_is_linked(listing, listing);
    lemma_linked_len(listing, listing);
    assert(sites(listing) =~= sites_in(listing, listing));
}

/// The address of a line and of the line behind it.
pub proof fn lemma_offset_next(listing: Seq<Item>, i: int)
    requires
        0 <= i < listing.len(),
    ensures
        offset(listing, 0) == 0,
        offset(listing, i + 1) == offset(listing, i) + item_bytes(listing[i]).len(),
        0 <= offset(listing, i),
        offset(listing, i + 1) <= raw(listing).len(),
    decreases listing.len() - i,
{
    assert(listing.take(i + 1).drop_last() =~= listing.take(i));
    assert(listing.take(0) =~= Seq::<Item>::empty());
    if i + 1 < listing.len() {
        lemma_offset_next(listing, i + 1);
    } else {
        assert(listing.take(i + 1) =~= listing);
    }
}

/// Where the finished bytes of a line stand in the finished code.
pub proof fn lemma_linked_at(part: Seq<Item>, whole: Seq<Item>, i: int)
    requires
        0 <= i < part.len(),
    ensures
        offset(part, i + 1) <= linked(part, whole).len(),
        linked(part, whole).subrange(offset(part, i), offset(part, i + 1)) == final_bytes(
            part[i],
            offset(part, i + 1),
            place(whole, item_target(part[i])),
        ),
    decreases part.len(),
{
    let front = part.drop_last();
    lemma_linked_len(part, whole);
    lemma_linked_len(front, whole);
    lemma_offset_next(part, i);
    if i == part.len() - 1 {
        assert(part.take(i) =~= front);
        assert(part.take(i + 1) =~= part);
        assert(linked(part, whole).subrange(offset(part, i), offset(part, i + 1)) =~= final_bytes(
            part[i],
            offset(part, i + 1),
            place(whole, item_target(part[i])),
        ));
    } else {
        lemma_linked_at(front, whole, i);
        assert(part.take(i) =~= front.take(i));
        assert(part.take(i + 1) =~= front.take(i + 1));
        assert(linked(part, whole).subrange(offset(part, i), offset(part, i + 1)) =~= linked(
            front,
            whole,
        ).subrange(offset(front, i), offset(front, i + 1)));
    }
}

} // verus!
