//! A run through the listing of a tree is the search of the tree.

use crate::avl::{find, is_search_tree, search_tree, size, Node};
use crate::key::{rank, rank_ceiling, rank_floor, rank_of, rank_properties, Key};
use crate::listing::{imm64, inside, Item, Op, Tag};
use crate::machine::{byte_mask, equal_bytes, lanes, top_bit, Machine};
use crate::program::{
    block, child_tag, dispatch, epilogue, program, subtree, suits, Strategy,
};
use crate::trace::{
    landing, lemma_position_concat, lemma_position_is, lemma_position_marks,
    lemma_position_none, lemma_step, position, run, step,
};
use vstd::prelude::*;

verus! {

/// What the code is to return for the outcome of a search: the value found,
/// or -1.
pub open spec fn outcome(found: Option<i32>) -> i32 {
    match found {
        Some(v) => v,
        None => -1i32,
    }
}

/// A dispatch marks nothing but the branch points of its own node.
proof fn lemma_dispatch_marks(
    strategy: Strategy,
    limbs: (i64, i64),
    r: int,
    left: Tag,
    right: Tag,
    t: Tag,
)
    requires
        t != Tag::GoLeft(r),
        t != Tag::GoRight(r),
        t != Tag::Fallback(r),
    ensures
        position(dispatch(strategy, limbs, r, left, right), t).is_none(),
{
    reveal(dispatch);
    lemma_position_none(dispatch(strategy, limbs, r, left, right), t);
}

/// The block of a node marks only tags of the node's own range of ranks.
proof fn lemma_block_marks<K: Key>(strategy: Strategy, node: Node<K, i32>, lo: int, hi: int, t: Tag)
    requires
        search_tree(Some(Box::new(node)), lo, hi),
        !inside(t, lo, hi),
    ensures
        position(block(strategy, node), t).is_none(),
    decreases node,
{
    let r = rank(node.key);
    let head = seq![Item::Mark(Tag::Entry(r))];
    let d = dispatch(strategy, node.key.limbs(), r, child_tag(node.left), child_tag(node.right));
    let l = subtree(strategy, node.left);
    let rt = subtree(strategy, node.right);
    let e = epilogue(Tag::Found(r), node.value);
    lemma_position_none(head, t);
    lemma_dispatch_marks(strategy, node.key.limbs(), r, child_tag(node.left), child_tag(node.right), t);
    lemma_subtree_marks(strategy, node.left, lo, r, t);
    lemma_subtree_marks(strategy, node.right, r, hi, t);
    lemma_position_none(e, t);
    lemma_position_concat(head, d, t);
    lemma_position_concat(head + d, l, t);
    lemma_position_concat(head + d + l, rt, t);
    lemma_position_concat(head + d + l + rt, e, t);
}

/// The listing of a subtree marks only tags of the subtree's range of ranks.
proof fn lemma_subtree_marks<K: Key>(
    strategy: Strategy,
    link: Option<Box<Node<K, i32>>>,
    lo: int,
    hi: int,
    t: Tag,
)
    requires
        search_tree(link, lo, hi),
        !inside(t, lo, hi),
    ensures
        position(subtree(strategy, link), t).is_none(),
    decreases link,
{
    match link {
        None => {},
        Some(node) => {
            lemma_block_marks(strategy, *node, lo, hi, t);
        },
    }
}

/// Number of lines of a dispatch.
pub open spec fn dispatch_len(strategy: Strategy) -> nat {
    match strategy {
        Strategy::Scalar => 4,
        Strategy::TwoLimb => 15,
        Strategy::VectorEq => 23,
    }
}

proof fn lemma_dispatch_len(strategy: Strategy, limbs: (i64, i64), r: int, left: Tag, right: Tag)
    ensures
        dispatch(strategy, limbs, r, left, right).len() == dispatch_len(strategy),
{
    reveal(dispatch);
}

/// Index in a dispatch of the mark of the left branch point.
pub open spec fn go_left_at(strategy: Strategy) -> int {
    match strategy {
        Strategy::Scalar => 0,
        Strategy::TwoLimb => 11,
        Strategy::VectorEq => 19,
    }
}

/// Index in a dispatch of the mark of the right branch point.
pub open spec fn go_right_at(strategy: Strategy) -> int {
    match strategy {
        Strategy::Scalar => 0,
        Strategy::TwoLimb => 13,
        Strategy::VectorEq => 21,
    }
}

/// Where the tags a block jumps to lie in the block.
proof fn lemma_block_positions<K: Key>(strategy: Strategy, node: Node<K, i32>, lo: int, hi: int)
    requires
        search_tree(Some(Box::new(node)), lo, hi),
    ensures
        ({
            let r = rank(node.key);
            let d = dispatch(
                strategy,
                node.key.limbs(),
                r,
                child_tag(node.left),
                child_tag(node.right),
            );
            let l = subtree(strategy, node.left);
            let rt = subtree(strategy, node.right);
            let b = block(strategy, node);
            &&& b.len() == 1 + d.len() + l.len() + rt.len() + 3
            &&& position(b, Tag::Found(r)) == Some((1 + d.len() + l.len() + rt.len()) as int)
            &&& strategy != Strategy::Scalar ==> position(b, Tag::GoLeft(r)) == Some(
                1 + go_left_at(strategy),
            )
            &&& strategy != Strategy::Scalar ==> position(b, Tag::GoRight(r)) == Some(
                1 + go_right_at(strategy),
            )
            &&& strategy == Strategy::VectorEq ==> position(b, Tag::Fallback(r)) == Some(11int)
            &&& node.left.is_some() ==> position(b, child_tag(node.left)) == Some(
                (1 + d.len()) as int,
            )
            &&& node.right.is_some() ==> position(b, child_tag(node.right)) == Some(
                (1 + d.len() + l.len()) as int,
            )
            &&& position(b, Tag::Miss).is_none()
        }),
{
    let r = rank(node.key);
    let head = seq![Item::Mark(Tag::Entry(r))];
    let d = dispatch(strategy, node.key.limbs(), r, child_tag(node.left), child_tag(node.right));
    let l = subtree(strategy, node.left);
    let rt = subtree(strategy, node.right);
    let e = epilogue(Tag::Found(r), node.value);
    let b = block(strategy, node);
    reveal(dispatch);
    lemma_block_marks(strategy, node, lo, hi, Tag::Miss);
    // the epilogue
    assert(position(b, Tag::Found(r)) == Some((1 + d.len() + l.len() + rt.len()) as int)) by {
        let t = Tag::Found(r);
        lemma_position_none(head, t);
        lemma_dispatch_marks(strategy, node.key.limbs(), r, child_tag(node.left), child_tag(node.right), t);
        lemma_subtree_marks(strategy, node.left, lo, r, t);
        lemma_subtree_marks(strategy, node.right, r, hi, t);
        lemma_position_is(e, t, 0);
        lemma_position_concat(head, d, t);
        lemma_position_concat(head + d, l, t);
        lemma_position_concat(head + d + l, rt, t);
        lemma_position_concat(head + d + l + rt, e, t);
    }
    // the branch points
    if strategy != Strategy::Scalar {
        let t = Tag::GoLeft(r);
        lemma_position_none(head, t);
        lemma_position_is(d, t, go_left_at(strategy));
        lemma_position_concat(head, d, t);
        lemma_position_concat(head + d, l, t);
        lemma_position_concat(head + d + l, rt, t);
        lemma_position_concat(head + d + l + rt, e, t);
        let u = Tag::GoRight(r);
        lemma_position_none(head, u);
        lemma_position_is(d, u, go_right_at(strategy));
        lemma_position_concat(head, d, u);
        lemma_position_concat(head + d, l, u);
        lemma_position_concat(head + d + l, rt, u);
        lemma_position_concat(head + d + l + rt, e, u);
    }
    if strategy == Strategy::VectorEq {
        let t = Tag::Fallback(r);
        lemma_position_none(head, t);
        lemma_position_is(d, t, 10);
        lemma_position_concat(head, d, t);
        lemma_position_concat(head + d, l, t);
        lemma_position_concat(head + d + l, rt, t);
        lemma_position_concat(head + d + l + rt, e, t);
    }
    // the children
    assert(search_tree(node.left, lo, r));
    assert(search_tree(node.right, r, hi));
    if node.left.is_some() {
        let t = child_tag(node.left);
        let child = *node.left.unwrap();
        rank_properties(child.key, node.key);
        lemma_position_none(head, t);
        lemma_dispatch_marks(strategy, node.key.limbs(), r, child_tag(node.left), child_tag(node.right), t);
        assert(l == block(strategy, child));
        assert(l[0] == Item::Mark(t));
        lemma_position_is(l, t, 0);
        lemma_position_concat(head, d, t);
        lemma_position_concat(head + d, l, t);
        lemma_position_concat(head + d + l, rt, t);
        lemma_position_concat(head + d + l + rt, e, t);
    }
    if node.right.is_some() {
        let t = child_tag(node.right);
        let child = *node.right.unwrap();
        rank_properties(child.key, node.key);
        lemma_position_none(head, t);
        lemma_dispatch_marks(strategy, node.key.limbs(), r, child_tag(node.left), child_tag(node.right), t);
        lemma_subtree_marks(strategy, node.left, lo, r, t);
        assert(rt == block(strategy, child));
        assert(rt[0] == Item::Mark(t));
        lemma_position_is(rt, t, 0);
        lemma_position_concat(head, d, t);
        lemma_position_concat(head + d, l, t);
        lemma_position_concat(head + d + l, rt, t);
        lemma_position_concat(head + d + l + rt, e, t);
    }
}

/// Whether the lines of `part` stand in `listing` from index `base` on.
pub open spec fn placed(listing: Seq<Item>, base: int, part: Seq<Item>) -> bool {
    &&& 0 <= base
    &&& base + part.len() <= listing.len()
    &&& forall|k: int| 0 <= k < part.len() ==> listing[base + k] == #[trigger] part[k]
}

/// The tag a dispatch hands control to: the node's epilogue for the node's
/// own key, the left side for a smaller key and the right side for a larger.
pub open spec fn choice(input: (i64, i64), key: (i64, i64), r: int, left: Tag, right: Tag) -> Tag {
    if input == key {
        Tag::Found(r)
    } else if rank_of(input) < rank_of(key) {
        left
    } else {
        right
    }
}

/// A scalar dispatch hands control to the tag of its choice.
proof fn lemma_dispatch_scalar(
    listing: Seq<Item>,
    base: int,
    key: (i64, i64),
    r: int,
    left: Tag,
    right: Tag,
    m: Machine,
    fuel: nat,
) -> (after: (Machine, nat))
    requires
        placed(listing, base, dispatch(Strategy::Scalar, key, r, left, right)),
        m.pc == base,
        suits(Strategy::Scalar, key),
        suits(Strategy::Scalar, m.input),
        fuel >= listing.len() - m.pc,
        landing(listing, Tag::Found(r)) >= base + 4,
        landing(listing, left) >= base + 4,
        landing(listing, right) >= base + 4,
    ensures
        run(listing, m, fuel) == run(listing, after.0, after.1),
        after.0.input == m.input,
        after.0.pc == landing(listing, choice(m.input, key, r, left, right)),
        after.1 >= listing.len() - after.0.pc,
{
    reveal(dispatch);
    let d = dispatch(Strategy::Scalar, key, r, left, right);
    assert(listing[base] == d[0]);
    assert(listing[base + 1] == d[1]);
    assert(listing[base + 2] == d[2]);
    assert(listing[base + 3] == d[3]);
    lemma_step(listing, m, fuel);
    let m1 = step(listing, m);
    lemma_step(listing, m1, (fuel - 1) as nat);
    let m2 = step(listing, m1);
    if m.input.0 == key.0 {
        (m2, (fuel - 2) as nat)
    } else {
        lemma_step(listing, m2, (fuel - 2) as nat);
        let m3 = step(listing, m2);
        if m.input.0 < key.0 {
            (m3, (fuel - 3) as nat)
        } else {
            lemma_step(listing, m3, (fuel - 3) as nat);
            let m4 = step(listing, m3);
            (m4, (fuel - 4) as nat)
        }
    }
}

/// A branch point hands control on to the tag it jumps to.
proof fn lemma_branch_point(listing: Seq<Item>, at: int, mark: Tag, target: Tag, m: Machine, fuel: nat)
    requires
        0 <= at,
        at + 1 < listing.len(),
        listing[at] == Item::Mark(mark),
        listing[at + 1] == Item::Code(Op::Jump(target)),
        m.pc == at,
        fuel >= 2,
    ensures
        run(listing, m, fuel) == run(
            listing,
            Machine { pc: landing(listing, target), ..m },
            (fuel - 2) as nat,
        ),
{
    lemma_step(listing, m, fuel);
    let m1 = step(listing, m);
    lemma_step(listing, m1, (fuel - 1) as nat);
}

/// Whether the first pair of limbs sorts before the second.
pub open spec fn limbs_less(a: (i64, i64), b: (i64, i64)) -> bool {
    a.0 < b.0 || (a.0 == b.0 && a.1 < b.1)
}

/// The limb-by-limb comparison, with the probed limbs in r8 and r9 and the
/// node's in r10 and r11, leads to the left branch point for a smaller key,
/// to the right one for a larger key, and falls through for an equal key.
proof fn lemma_limb_test(listing: Seq<Item>, base: int, r: int, m: Machine, fuel: nat) -> (after: (
    Machine,
    nat,
))
    requires
        0 <= base,
        base + 6 <= listing.len(),
        listing[base] == Item::Code(Op::CompareFirst),
        listing[base + 1] == Item::Code(Op::JumpIfLess(Tag::GoLeft(r))),
        listing[base + 2] == Item::Code(Op::JumpIfGreater(Tag::GoRight(r))),
        listing[base + 3] == Item::Code(Op::CompareSecond),
        listing[base + 4] == Item::Code(Op::JumpIfLess(Tag::GoLeft(r))),
        listing[base + 5] == Item::Code(Op::JumpIfGreater(Tag::GoRight(r))),
        m.pc == base,
        fuel >= 6,
    ensures
        run(listing, m, fuel) == run(listing, after.0, after.1),
        after.0 == (Machine { pc: after.0.pc, flags: after.0.flags, ..m }),
        after.1 + 6 >= fuel,
        after.1 <= fuel,
        after.0.pc == if limbs_less((m.r8, m.r9), (m.r10, m.r11)) {
            landing(listing, Tag::GoLeft(r))
        } else if limbs_less((m.r10, m.r11), (m.r8, m.r9)) {
            landing(listing, Tag::GoRight(r))
        } else {
            base + 6
        },
{
    lemma_step(listing, m, fuel);
    let m1 = step(listing, m);
    lemma_step(listing, m1, (fuel - 1) as nat);
    let m2 = step(listing, m1);
    if m.r8 < m.r10 {
        (m2, (fuel - 2) as nat)
    } else {
        lemma_step(listing, m2, (fuel - 2) as nat);
        let m3 = step(listing, m2);
        if m.r8 > m.r10 {
            (m3, (fuel - 3) as nat)
        } else {
            lemma_step(listing, m3, (fuel - 3) as nat);
            let m4 = step(listing, m3);
            lemma_step(listing, m4, (fuel - 4) as nat);
            let m5 = step(listing, m4);
            if m.r9 < m.r11 {
                (m5, (fuel - 5) as nat)
            } else {
                lemma_step(listing, m5, (fuel - 5) as nat);
                let m6 = step(listing, m5);
                (m6, (fuel - 6) as nat)
            }
        }
    }
}

/// The order of limb pairs is the order of their ranks.
proof fn lemma_limbs_less(a: (i64, i64), b: (i64, i64))
    ensures
        limbs_less(a, b) <==> rank_of(a) < rank_of(b),
        a == b <==> rank_of(a) == rank_of(b),
{
}

/// A two-limb dispatch hands control to the tag of its choice.
proof fn lemma_dispatch_two_limb(
    listing: Seq<Item>,
    base: int,
    key: (i64, i64),
    r: int,
    left: Tag,
    right: Tag,
    m: Machine,
    fuel: nat,
) -> (after: (Machine, nat))
    requires
        placed(listing, base, dispatch(Strategy::TwoLimb, key, r, left, right)),
        m.pc == base,
        fuel >= listing.len() - m.pc,
        position(listing, Tag::GoLeft(r)) == Some(base + 11),
        position(listing, Tag::GoRight(r)) == Some(base + 13),
        landing(listing, Tag::Found(r)) >= base + 15,
        landing(listing, left) >= base + 15,
        landing(listing, right) >= base + 15,
    ensures
        run(listing, m, fuel) == run(listing, after.0, after.1),
        after.0.input == m.input,
        after.0.pc == landing(listing, choice(m.input, key, r, left, right)),
        after.1 >= listing.len() - after.0.pc,
{
    reveal(dispatch);
    let d = dispatch(Strategy::TwoLimb, key, r, left, right);
    assert forall|k: int| 0 <= k < 15 implies listing[base + k] == d[k] by {
        assert(listing[base + k] == d[k]);
    }
    lemma_limbs_less(m.input, key);
    lemma_limbs_less(key, m.input);
    lemma_step(listing, m, fuel);
    let m1 = step(listing, m);
    lemma_step(listing, m1, (fuel - 1) as nat);
    let m2 = step(listing, m1);
    lemma_step(listing, m2, (fuel - 2) as nat);
    let m3 = step(listing, m2);
    lemma_step(listing, m3, (fuel - 3) as nat);
    let m4 = step(listing, m3);
    let (t, f) = lemma_limb_test(listing, base + 4, r, m4, (fuel - 4) as nat);
    if limbs_less(m.input, key) {
        lemma_branch_point(listing, base + 11, Tag::GoLeft(r), left, t, f);
        (Machine { pc: landing(listing, left), ..t }, (f - 2) as nat)
    } else if limbs_less(key, m.input) {
        lemma_branch_point(listing, base + 13, Tag::GoRight(r), right, t, f);
        (Machine { pc: landing(listing, right), ..t }, (f - 2) as nat)
    } else {
        lemma_step(listing, t, f);
        (step(listing, t), (f - 1) as nat)
    }
}

/// The bytes of a 64-bit value determine it.
proof fn lemma_imm64_injective(a: i64, b: i64)
    requires
        imm64(a) == imm64(b),
    ensures
        a == b,
{
    assert(imm64(a)[0] == imm64(b)[0]);
    assert(imm64(a)[1] == imm64(b)[1]);
    assert(imm64(a)[2] == imm64(b)[2]);
    assert(imm64(a)[3] == imm64(b)[3]);
    assert(imm64(a)[4] == imm64(b)[4]);
    assert(imm64(a)[5] == imm64(b)[5]);
    assert(imm64(a)[6] == imm64(b)[6]);
    assert(imm64(a)[7] == imm64(b)[7]);
    assert(a == b) by (bit_vector)
        requires
            a as u8 == b as u8,
            (a >> 8) as u8 == (b >> 8) as u8,
            (a >> 16) as u8 == (b >> 16) as u8,
            (a >> 24) as u8 == (b >> 24) as u8,
            (a >> 32) as u8 == (b >> 32) as u8,
            (a >> 40) as u8 == (b >> 40) as u8,
            (a >> 48) as u8 == (b >> 48) as u8,
            (a >> 56) as u8 == (b >> 56) as u8,
    ;
}

/// Two vector registers hold the same bytes exactly when they hold the same
/// two limbs.
proof fn lemma_lanes_injective(a: (i64, i64), b: (i64, i64))
    ensures
        lanes(a.0, a.1) == lanes(b.0, b.1) <==> a == b,
{
    if lanes(a.0, a.1) == lanes(b.0, b.1) {
        assert(lanes(a.0, a.1).subrange(0, 8) =~= imm64(a.0));
        assert(lanes(b.0, b.1).subrange(0, 8) =~= imm64(b.0));
        assert(lanes(a.0, a.1).subrange(8, 16) =~= imm64(a.1));
        assert(lanes(b.0, b.1).subrange(8, 16) =~= imm64(b.1));
        lemma_imm64_injective(a.0, b.0);
        lemma_imm64_injective(a.1, b.1);
    }
}

/// Sixteen bits weighted by the powers of two add up to 0xFFFF exactly when
/// every bit is set.
proof fn lemma_all_bits(b: Seq<int>)
    requires
        b.len() == 16,
        forall|i: int| 0 <= i < 16 ==> 0 <= #[trigger] b[i] <= 1,
    ensures
        0 <= b[0] + 2 * b[1] + 4 * b[2] + 8 * b[3] + 16 * b[4] + 32 * b[5] + 64 * b[6] + 128 * b[7]
            + 256 * b[8] + 512 * b[9] + 1024 * b[10] + 2048 * b[11] + 4096 * b[12] + 8192 * b[13]
            + 16384 * b[14] + 32768 * b[15] <= 0xFFFF,
        b[0] + 2 * b[1] + 4 * b[2] + 8 * b[3] + 16 * b[4] + 32 * b[5] + 64 * b[6] + 128 * b[7] + 256
            * b[8] + 512 * b[9] + 1024 * b[10] + 2048 * b[11] + 4096 * b[12] + 8192 * b[13] + 16384
            * b[14] + 32768 * b[15] == 0xFFFF ==> forall|i: int| 0 <= i < 16 ==> #[trigger] b[i] == 1,
{
    assert(0 <= b[0] <= 1);
    assert(0 <= b[1] <= 1);
    assert(0 <= b[2] <= 1);
    assert(0 <= b[3] <= 1);
    assert(0 <= b[4] <= 1);
    assert(0 <= b[5] <= 1);
    assert(0 <= b[6] <= 1);
    assert(0 <= b[7] <= 1);
    assert(0 <= b[8] <= 1);
    assert(0 <= b[9] <= 1);
    assert(0 <= b[10] <= 1);
    assert(0 <= b[11] <= 1);
    assert(0 <= b[12] <= 1);
    assert(0 <= b[13] <= 1);
    assert(0 <= b[14] <= 1);
    assert(0 <= b[15] <= 1);
}

/// The mask of a bytewise comparison is all ones exactly when the two
/// registers hold the same bytes.
proof fn lemma_mask_full(a: Seq<u8>, b: Seq<u8>)
    requires
        a.len() == 16,
        b.len() == 16,
    ensures
        0 <= byte_mask(equal_bytes(a, b)) <= 0xFFFF,
        byte_mask(equal_bytes(a, b)) == 0xFFFF <==> a == b,
{
    let e = equal_bytes(a, b);
    let bits = Seq::new(16, |i: int| top_bit(e, i));
    assert forall|i: int| 0 <= i < 16 implies 0 <= #[trigger] bits[i] <= 1 by {}
    lemma_all_bits(bits);
    assert(bits[0] == top_bit(e, 0) && bits[1] == top_bit(e, 1) && bits[2] == top_bit(e, 2)
        && bits[3] == top_bit(e, 3) && bits[4] == top_bit(e, 4) && bits[5] == top_bit(e, 5)
        && bits[6] == top_bit(e, 6) && bits[7] == top_bit(e, 7) && bits[8] == top_bit(e, 8)
        && bits[9] == top_bit(e, 9) && bits[10] == top_bit(e, 10) && bits[11] == top_bit(e, 11)
        && bits[12] == top_bit(e, 12) && bits[13] == top_bit(e, 13) && bits[14] == top_bit(e, 14)
        && bits[15] == top_bit(e, 15));
    if byte_mask(e) == 0xFFFF {
        assert forall|i: int| 0 <= i < 16 implies a[i] == b[i] by {
            assert(bits[i] == 1);
            assert(top_bit(e, i) == 1);
        }
        assert(a =~= b);
    }
    if a == b {
        assert forall|i: int| 0 <= i < 16 implies #[trigger] bits[i] == 1 by {
            assert(e[i] == 0xFFu8);
        }
    }
}

/// The vector test falls through to the next line for the node's own key
/// and leads to the fallback for every other key, with the node's limbs left
/// in r10 and r11.
proof fn lemma_vector_test(
    listing: Seq<Item>,
    base: int,
    key: (i64, i64),
    r: int,
    m: Machine,
    fuel: nat,
) -> (after: (Machine, nat))
    requires
        0 <= base,
        base + 9 <= listing.len(),
        listing[base] == Item::Code(Op::VectorLoad),
        listing[base + 1] == Item::Code(Op::ConstFirst(key.0)),
        listing[base + 2] == Item::Code(Op::ConstSecond(key.1)),
        listing[base + 3] == Item::Code(Op::VectorFromFirst),
        listing[base + 4] == Item::Code(Op::VectorInsertSecond),
        listing[base + 5] == Item::Code(Op::VectorEqualBytes),
        listing[base + 6] == Item::Code(Op::VectorMask),
        listing[base + 7] == Item::Code(Op::CompareMask),
        listing[base + 8] == Item::Code(Op::JumpIfNotEqual(Tag::Fallback(r))),
        m.pc == base,
        fuel >= 9,
    ensures
        run(listing, m, fuel) == run(listing, after.0, after.1),
        after.0.input == m.input,
        after.0.r10 == key.0,
        after.0.r11 == key.1,
        after.1 == fuel - 9,
        after.0.pc == if m.input == key {
            base + 9
        } else {
            landing(listing, Tag::Fallback(r))
        },
{
    lemma_step(listing, m, fuel);
    let m1 = step(listing, m);
    lemma_step(listing, m1, (fuel - 1) as nat);
    let m2 = step(listing, m1);
    lemma_step(listing, m2, (fuel - 2) as nat);
    let m3 = step(listing, m2);
    lemma_step(listing, m3, (fuel - 3) as nat);
    let m4 = step(listing, m3);
    lemma_step(listing, m4, (fuel - 4) as nat);
    let m5 = step(listing, m4);
    assert(m5.pc == base + 5 && m5.input == m.input && m5.r10 == key.0 && m5.r11 == key.1);
    assert(m5.xmm0 == lanes(m.input.0, m.input.1));
    assert(m5.xmm1 == lanes(key.0, key.1)) by {
        assert(m4.xmm1 == lanes(key.0, 0));
        assert(m5.xmm1 == m4.xmm1.subrange(0, 8) + imm64(key.1));
        assert(m5.xmm1 =~= lanes(key.0, key.1));
    }
    lemma_mask_full(m5.xmm0, m5.xmm1);
    lemma_lanes_injective(m.input, key);
    let mask = byte_mask(equal_bytes(m5.xmm0, m5.xmm1));
    lemma_step(listing, m5, (fuel - 5) as nat);
    let m6 = step(listing, m5);
    lemma_step(listing, m6, (fuel - 6) as nat);
    let m7 = step(listing, m6);
    assert(m7.rax == mask);
    lemma_step(listing, m7, (fuel - 7) as nat);
    let m8 = step(listing, m7);
    assert(m8.flags == (mask, 0xFFFFint));
    assert(m8.pc == base + 8 && m8.input == m.input && m8.r10 == key.0 && m8.r11 == key.1);
    lemma_step(listing, m8, (fuel - 8) as nat);
    let m9 = step(listing, m8);
    (m9, (fuel - 9) as nat)
}

/// A vector dispatch hands control to the tag of its choice.
proof fn lemma_dispatch_vector(
    listing: Seq<Item>,
    base: int,
    key: (i64, i64),
    r: int,
    left: Tag,
    right: Tag,
    m: Machine,
    fuel: nat,
) -> (after: (Machine, nat))
    requires
        placed(listing, base, dispatch(Strategy::VectorEq, key, r, left, right)),
        m.pc == base,
        fuel >= listing.len() - m.pc,
        position(listing, Tag::Fallback(r)) == Some(base + 10),
        position(listing, Tag::GoLeft(r)) == Some(base + 19),
        position(listing, Tag::GoRight(r)) == Some(base + 21),
        landing(listing, Tag::Found(r)) >= base + 23,
        landing(listing, left) >= base + 23,
        landing(listing, right) >= base + 23,
    ensures
        run(listing, m, fuel) == run(listing, after.0, after.1),
        after.0.input == m.input,
        after.0.pc == landing(listing, choice(m.input, key, r, left, right)),
        after.1 >= listing.len() - after.0.pc,
{
    reveal(dispatch);
    let d = dispatch(Strategy::VectorEq, key, r, left, right);
    assert forall|k: int| 0 <= k < 23 implies listing[base + k] == d[k] by {
        assert(listing[base + k] == d[k]);
    }
    lemma_limbs_less(m.input, key);
    lemma_limbs_less(key, m.input);
    let (v, g) = lemma_vector_test(listing, base, key, r, m, fuel);
    if m.input == key {
        lemma_step(listing, v, g);
        (step(listing, v), (g - 1) as nat)
    } else {
        lemma_step(listing, v, g);
        let m10 = step(listing, v);
        lemma_step(listing, m10, (g - 1) as nat);
        let m11 = step(listing, m10);
        lemma_step(listing, m11, (g - 2) as nat);
        let m12 = step(listing, m11);
        let (t, f) = lemma_limb_test(listing, base + 13, r, m12, (g - 3) as nat);
        if limbs_less(m.input, key) {
            lemma_branch_point(listing, base + 19, Tag::GoLeft(r), left, t, f);
            (Machine { pc: landing(listing, left), ..t }, (f - 2) as nat)
        } else {
            lemma_branch_point(listing, base + 21, Tag::GoRight(r), right, t, f);
            (Machine { pc: landing(listing, right), ..t }, (f - 2) as nat)
        }
    }
}

/// A dispatch of any strategy hands control to the tag of its choice.
proof fn lemma_dispatch(
    strategy: Strategy,
    listing: Seq<Item>,
    base: int,
    key: (i64, i64),
    r: int,
    left: Tag,
    right: Tag,
    m: Machine,
    fuel: nat,
) -> (after: (Machine, nat))
    requires
        placed(listing, base, dispatch(strategy, key, r, left, right)),
        m.pc == base,
        suits(strategy, key),
        suits(strategy, m.input),
        fuel >= listing.len() - m.pc,
        strategy != Strategy::Scalar ==> position(listing, Tag::GoLeft(r)) == Some(
            base + go_left_at(strategy),
        ),
        strategy != Strategy::Scalar ==> position(listing, Tag::GoRight(r)) == Some(
            base + go_right_at(strategy),
        ),
        strategy == Strategy::VectorEq ==> position(listing, Tag::Fallback(r)) == Some(base + 10),
        landing(listing, Tag::Found(r)) >= base + dispatch_len(strategy),
        landing(listing, left) >= base + dispatch_len(strategy),
        landing(listing, right) >= base + dispatch_len(strategy),
    ensures
        run(listing, m, fuel) == run(listing, after.0, after.1),
        after.0.input == m.input,
        after.0.pc == landing(listing, choice(m.input, key, r, left, right)),
        after.1 >= listing.len() - after.0.pc,
{
    match strategy {
        Strategy::Scalar => lemma_dispatch_scalar(listing, base, key, r, left, right, m, fuel),
        Strategy::TwoLimb => lemma_dispatch_two_limb(listing, base, key, r, left, right, m, fuel),
        Strategy::VectorEq => lemma_dispatch_vector(listing, base, key, r, left, right, m, fuel),
    }
}

/// An epilogue returns its value.
proof fn lemma_epilogue(listing: Seq<Item>, at: int, tag: Tag, value: i32, m: Machine, fuel: nat)
    requires
        0 <= at,
        at + 2 < listing.len(),
        listing[at] == Item::Mark(tag),
        listing[at + 1] == Item::Code(Op::SetResult(value)),
        listing[at + 2] == Item::Code(Op::Return),
        m.pc == at,
        fuel >= 3,
    ensures
        run(listing, m, fuel) == Some(value),
{
    lemma_step(listing, m, fuel);
    let m1 = step(listing, m);
    lemma_step(listing, m1, (fuel - 1) as nat);
    let m2 = step(listing, m1);
    assert(run(listing, m2, (fuel - 2) as nat) == Some(m2.rax as i32));
}

/// The position in `pre + middle + post` of a tag that `pre` does not mark
/// and `middle` does.
proof fn lemma_position_within(pre: Seq<Item>, middle: Seq<Item>, post: Seq<Item>, t: Tag)
    requires
        position(pre, t).is_none(),
    ensures
        position(middle, t).is_some() ==> position(pre + middle + post, t) == Some(
            pre.len() + position(middle, t).unwrap(),
        ),
        position(middle, t).is_none() ==> position(pre + middle + post, t) == match position(
            post,
            t,
        ) {
            Some(j) => Some(pre.len() + middle.len() + j),
            None => None,
        },
{
    lemma_position_concat(pre, middle, t);
    lemma_position_concat(pre + middle, post, t);
}

/// Whether the not-found epilogue stands at line `miss` of the listing, and
/// nowhere before.
pub open spec fn miss_at(listing: Seq<Item>, miss: int) -> bool {
    &&& position(listing, Tag::Miss) == Some(miss)
    &&& miss + 2 < listing.len()
    &&& listing[miss + 1] == Item::Code(Op::SetResult(-1i32))
    &&& listing[miss + 2] == Item::Code(Op::Return)
}

/// How the block of a node lies in a listing `pre + block + post`.
pub open spec fn laid_out<K: Key>(
    strategy: Strategy,
    pre: Seq<Item>,
    node: Node<K, i32>,
    post: Seq<Item>,
) -> bool {
    let r = rank(node.key);
    let listing = pre + block(strategy, node) + post;
    let base = pre.len() as int;
    let d = dispatch_len(strategy) as int;
    let l = subtree(strategy, node.left).len() as int;
    let rt = subtree(strategy, node.right).len() as int;
    let found_at = base + 1 + d + l + rt;
    &&& block(strategy, node).len() == 1 + d + l + rt + 3
    &&& listing[base] == Item::Mark(Tag::Entry(r))
    &&& placed(
        listing,
        base + 1,
        dispatch(
            strategy,
            node.key.limbs(),
            r,
            child_tag(node.left),
            child_tag(node.right),
        ),
    )
    &&& landing(listing, Tag::Found(r)) == found_at
    &&& listing[found_at] == Item::Mark(Tag::Found(r))
    &&& listing[found_at + 1] == Item::Code(Op::SetResult(node.value))
    &&& listing[found_at + 2] == Item::Code(Op::Return)
    &&& strategy != Strategy::Scalar ==> position(listing, Tag::GoLeft(r)) == Some(
        base + 1 + go_left_at(strategy),
    )
    &&& strategy != Strategy::Scalar ==> position(listing, Tag::GoRight(r)) == Some(
        base + 1 + go_right_at(strategy),
    )
    &&& strategy == Strategy::VectorEq ==> position(listing, Tag::Fallback(r)) == Some(base + 11)
    &&& node.left.is_some() ==> landing(listing, child_tag(node.left)) == base + 1 + d
    &&& node.right.is_some() ==> landing(listing, child_tag(node.right)) == base + 1 + d + l
}

/// Where the lines of a block stand in a listing `pre + block + post`.
proof fn lemma_lines_laid_out<K: Key>(
    strategy: Strategy,
    pre: Seq<Item>,
    node: Node<K, i32>,
    post: Seq<Item>,
)
    ensures
        ({
            let r = rank(node.key);
            let listing = pre + block(strategy, node) + post;
            let base = pre.len() as int;
            let d = dispatch_len(strategy) as int;
            let l = subtree(strategy, node.left).len() as int;
            let rt = subtree(strategy, node.right).len() as int;
            let found_at = base + 1 + d + l + rt;
            &&& block(strategy, node).len() == 1 + d + l + rt + 3
            &&& listing[base] == Item::Mark(Tag::Entry(r))
            &&& placed(
                listing,
                base + 1,
                dispatch(
                    strategy,
                    node.key.limbs(),
                    r,
                    child_tag(node.left),
                    child_tag(node.right),
                ),
            )
            &&& listing[found_at] == Item::Mark(Tag::Found(r))
            &&& listing[found_at + 1] == Item::Code(Op::SetResult(node.value))
            &&& listing[found_at + 2] == Item::Code(Op::Return)
        }),
{
    let r = rank(node.key);
    let head = seq![Item::Mark(Tag::Entry(r))];
    let d = dispatch(
        strategy,
        node.key.limbs(),
        r,
        child_tag(node.left),
        child_tag(node.right),
    );
    let l = subtree(strategy, node.left);
    let rt = subtree(strategy, node.right);
    let e = epilogue(Tag::Found(r), node.value);
    let b = block(strategy, node);
    let listing = pre + b + post;
    let base = pre.len() as int;
    lemma_dispatch_len(strategy, node.key.limbs(), r, child_tag(node.left), child_tag(node.right));
    assert(b =~= head + d + l + rt + e);
    assert forall|k: int| 0 <= k < b.len() implies listing[base + k] == b[k] by {}
    assert(placed(listing, base + 1, d)) by {
        assert forall|k: int| 0 <= k < d.len() implies listing[base + 1 + k] == #[trigger] d[k] by {
            assert(b[1 + k] == d[k]);
            assert(listing[base + (1 + k)] == b[1 + k]);
        }
    }
    let found_at = base + 1 + d.len() + l.len() + rt.len();
    assert(listing[base] == b[0]);
    assert(listing[found_at] == e[0]) by {
        assert(b[found_at - base] == e[0]);
        assert(listing[base + (found_at - base)] == b[found_at - base]);
    }
    assert(listing[found_at + 1] == e[1]) by {
        assert(b[found_at - base + 1] == e[1]);
        assert(listing[base + (found_at - base + 1)] == b[found_at - base + 1]);
    }
    assert(listing[found_at + 2] == e[2]) by {
        assert(b[found_at - base + 2] == e[2]);
        assert(listing[base + (found_at - base + 2)] == b[found_at - base + 2]);
    }
}

proof fn lemma_laid_out<K: Key>(
    strategy: Strategy,
    pre: Seq<Item>,
    node: Node<K, i32>,
    post: Seq<Item>,
    lo: int,
    hi: int,
)
    requires
        search_tree(Some(Box::new(node)), lo, hi),
        forall|t: Tag| inside(t, lo, hi) ==> (#[trigger] position(pre, t)).is_none(),
    ensures
        laid_out(strategy, pre, node, post),
{
    let r = rank(node.key);
    let left = child_tag(node.left);
    let right = child_tag(node.right);
    let b = block(strategy, node);
    lemma_lines_laid_out(strategy, pre, node, post);
    lemma_block_positions(strategy, node, lo, hi);
    lemma_dispatch_len(strategy, node.key.limbs(), r, left, right);
    assert(search_tree(node.left, lo, r));
    assert(search_tree(node.right, r, hi));
    lemma_position_within(pre, b, post, Tag::Found(r));
    lemma_position_within(pre, b, post, Tag::GoLeft(r));
    lemma_position_within(pre, b, post, Tag::GoRight(r));
    lemma_position_within(pre, b, post, Tag::Fallback(r));
    if node.left.is_some() {
        rank_properties(node.left.unwrap().key, node.key);
        lemma_position_within(pre, b, post, left);
    }
    if node.right.is_some() {
        rank_properties(node.right.unwrap().key, node.key);
        lemma_position_within(pre, b, post, right);
    }
}

/// Nothing of the range of a left child is marked before that child's block.
proof fn lemma_before_left<K: Key>(
    strategy: Strategy,
    pre: Seq<Item>,
    node: Node<K, i32>,
    lo: int,
    hi: int,
)
    requires
        search_tree(Some(Box::new(node)), lo, hi),
        forall|t: Tag| inside(t, lo, hi) ==> (#[trigger] position(pre, t)).is_none(),
    ensures
        forall|u: Tag|
            inside(u, lo, rank(node.key)) ==> (#[trigger] position(
                pre + seq![Item::Mark(Tag::Entry(rank(node.key)))] + dispatch(
                    strategy,
                    node.key.limbs(),
                    rank(node.key),
                    child_tag(node.left),
                    child_tag(node.right),
                ),
                u,
            )).is_none(),
{
    let r = rank(node.key);
    let head = seq![Item::Mark(Tag::Entry(r))];
    let d = dispatch(strategy, node.key.limbs(), r, child_tag(node.left), child_tag(node.right));
    assert forall|u: Tag| inside(u, lo, r) implies (#[trigger] position(pre + head + d, u)).is_none() by {
        assert(inside(u, lo, hi));
        lemma_position_none(head, u);
        lemma_dispatch_marks(strategy, node.key.limbs(), r, child_tag(node.left), child_tag(node.right), u);
        lemma_position_concat(pre, head, u);
        lemma_position_concat(pre + head, d, u);
    }
}

/// Nothing of the range of a right child is marked before that child's block.
proof fn lemma_before_right<K: Key>(
    strategy: Strategy,
    pre: Seq<Item>,
    node: Node<K, i32>,
    lo: int,
    hi: int,
)
    requires
        search_tree(Some(Box::new(node)), lo, hi),
        forall|t: Tag| inside(t, lo, hi) ==> (#[trigger] position(pre, t)).is_none(),
    ensures
        forall|u: Tag|
            inside(u, rank(node.key), hi) ==> (#[trigger] position(
                pre + seq![Item::Mark(Tag::Entry(rank(node.key)))] + dispatch(
                    strategy,
                    node.key.limbs(),
                    rank(node.key),
                    child_tag(node.left),
                    child_tag(node.right),
                ) + subtree(strategy, node.left),
                u,
            )).is_none(),
{
    let r = rank(node.key);
    let head = seq![Item::Mark(Tag::Entry(r))];
    let d = dispatch(strategy, node.key.limbs(), r, child_tag(node.left), child_tag(node.right));
    let l = subtree(strategy, node.left);
    assert(search_tree(node.left, lo, r));
    assert forall|u: Tag| inside(u, r, hi) implies (#[trigger] position(
        pre + head + d + l,
        u,
    )).is_none() by {
        assert(inside(u, lo, hi));
        lemma_position_none(head, u);
        lemma_dispatch_marks(strategy, node.key.limbs(), r, child_tag(node.left), child_tag(node.right), u);
        lemma_subtree_marks(strategy, node.left, lo, r, u);
        lemma_position_concat(pre, head, u);
        lemma_position_concat(pre + head, d, u);
        lemma_position_concat(pre + head + d, l, u);
    }
}

/// The first lines of a block: for the node's own key the code returns the
/// node's value; for another key it returns -1 where there is no child on
/// the key's side, and else arrives at the block of that child.
proof fn lemma_node_runs<K: Key>(
    strategy: Strategy,
    pre: Seq<Item>,
    node: Node<K, i32>,
    post: Seq<Item>,
    lo: int,
    hi: int,
    miss: int,
    probe: K,
    m: Machine,
    fuel: nat,
) -> (after: (Machine, nat))
    requires
        search_tree(Some(Box::new(node)), lo, hi),
        suits(strategy, node.key.limbs()),
        suits(strategy, probe.limbs()),
        forall|t: Tag| inside(t, lo, hi) ==> (#[trigger] position(pre, t)).is_none(),
        miss_at(pre + block(strategy, node) + post, miss),
        miss >= pre.len() + block(strategy, node).len(),
        m.pc == pre.len(),
        m.input == probe.limbs(),
        fuel >= (pre + block(strategy, node) + post).len() - m.pc,
    ensures
        ({
            let listing = pre + block(strategy, node) + post;
            let next = if rank(probe) < rank(node.key) {
                node.left
            } else {
                node.right
            };
            let at = if rank(probe) < rank(node.key) {
                pre.len() + 1 + dispatch_len(strategy)
            } else {
                pre.len() + 1 + dispatch_len(strategy) + subtree(strategy, node.left).len()
            };
            if probe == node.key {
                run(listing, m, fuel) == Some(node.value)
            } else if next.is_none() {
                run(listing, m, fuel) == Some(-1i32)
            } else {
                &&& run(listing, m, fuel) == run(listing, after.0, after.1)
                &&& after.0.pc == at
                &&& after.0.input == m.input
                &&& after.1 >= listing.len() - after.0.pc
            }
        }),
{
    let r = rank(node.key);
    let key = node.key.limbs();
    let left = child_tag(node.left);
    let right = child_tag(node.right);
    let listing = pre + block(strategy, node) + post;
    let base = pre.len() as int;
    lemma_laid_out(strategy, pre, node, post, lo, hi);
    rank_properties(probe, node.key);
    lemma_position_marks(listing, Tag::Miss);
    assert(landing(listing, Tag::Miss) == miss);
    lemma_step(listing, m, fuel);
    let m1 = step(listing, m);
    let (t, f) = lemma_dispatch(strategy, listing, base + 1, key, r, left, right, m1, (fuel - 1) as nat);
    let found_at = base + 1 + dispatch_len(strategy) + subtree(strategy, node.left).len() + subtree(
        strategy,
        node.right,
    ).len();
    if probe.limbs() == key {
        K::limbs_injective(probe, node.key);
        lemma_epilogue(listing, found_at, Tag::Found(r), node.value, t, f);
    } else if rank(probe) < r {
        if node.left.is_none() {
            lemma_epilogue(listing, miss, Tag::Miss, -1i32, t, f);
        }
    } else {
        if node.right.is_none() {
            lemma_epilogue(listing, miss, Tag::Miss, -1i32, t, f);
        }
    }
    (t, f)
}

/// A listing seen as what lies before the left child's block, that block,
/// and what lies behind it.
proof fn lemma_regroup_left<K: Key>(
    strategy: Strategy,
    pre: Seq<Item>,
    node: Node<K, i32>,
    post: Seq<Item>,
)
    ensures
        ({
            let r = rank(node.key);
            let head = seq![Item::Mark(Tag::Entry(r))];
            let d = dispatch(
                strategy,
                node.key.limbs(),
                r,
                child_tag(node.left),
                child_tag(node.right),
            );
            pre + block(strategy, node) + post == (pre + head + d) + subtree(strategy, node.left)
                + (subtree(strategy, node.right) + epilogue(Tag::Found(r), node.value) + post)
        }),
{
    let r = rank(node.key);
    let head = seq![Item::Mark(Tag::Entry(r))];
    let d = dispatch(strategy, node.key.limbs(), r, child_tag(node.left), child_tag(node.right));
    assert(pre + block(strategy, node) + post =~= (pre + head + d) + subtree(strategy, node.left)
        + (subtree(strategy, node.right) + epilogue(Tag::Found(r), node.value) + post));
}

/// A listing seen as what lies before the right child's block, that block,
/// and what lies behind it.
proof fn lemma_regroup_right<K: Key>(
    strategy: Strategy,
    pre: Seq<Item>,
    node: Node<K, i32>,
    post: Seq<Item>,
)
    ensures
        ({
            let r = rank(node.key);
            let head = seq![Item::Mark(Tag::Entry(r))];
            let d = dispatch(
                strategy,
                node.key.limbs(),
                r,
                child_tag(node.left),
                child_tag(node.right),
            );
            pre + block(strategy, node) + post == (pre + head + d + subtree(strategy, node.left))
                + subtree(strategy, node.right) + (epilogue(Tag::Found(r), node.value) + post)
        }),
{
    let r = rank(node.key);
    let head = seq![Item::Mark(Tag::Entry(r))];
    let d = dispatch(strategy, node.key.limbs(), r, child_tag(node.left), child_tag(node.right));
    assert(pre + block(strategy, node) + post =~= (pre + head + d + subtree(
        strategy,
        node.left,
    )) + subtree(strategy, node.right) + (epilogue(Tag::Found(r), node.value) + post));
}

/// Started at the block of a node, the code returns what the search below
/// that node finds.
proof fn lemma_block_runs<K: Key>(
    strategy: Strategy,
    pre: Seq<Item>,
    node: Node<K, i32>,
    post: Seq<Item>,
    lo: int,
    hi: int,
    miss: int,
    probe: K,
    m: Machine,
    fuel: nat,
)
    requires
        search_tree(Some(Box::new(node)), lo, hi),
        forall|k: K| suits(strategy, #[trigger] k.limbs()),
        forall|t: Tag| inside(t, lo, hi) ==> (#[trigger] position(pre, t)).is_none(),
        miss_at(pre + block(strategy, node) + post, miss),
        miss >= pre.len() + block(strategy, node).len(),
        m.pc == pre.len(),
        m.input == probe.limbs(),
        fuel >= (pre + block(strategy, node) + post).len() - m.pc,
    ensures
        run(pre + block(strategy, node) + post, m, fuel) == Some(
            outcome(find(Some(Box::new(node)), probe)),
        ),
    decreases node,
{
    let r = rank(node.key);
    let head = seq![Item::Mark(Tag::Entry(r))];
    let d = dispatch(strategy, node.key.limbs(), r, child_tag(node.left), child_tag(node.right));
    let l = subtree(strategy, node.left);
    let listing = pre + block(strategy, node) + post;
    assert(suits(strategy, node.key.limbs()));
    assert(suits(strategy, probe.limbs()));
    let (t, f) = lemma_node_runs(strategy, pre, node, post, lo, hi, miss, probe, m, fuel);
    lemma_dispatch_len(strategy, node.key.limbs(), r, child_tag(node.left), child_tag(node.right));
    lemma_laid_out(strategy, pre, node, post, lo, hi);
    let whole: Option<Box<Node<K, i32>>> = Some(Box::new(node));
    assert(find(whole, probe) == if probe == node.key {
        Some(node.value)
    } else if rank(probe) < r {
        find(node.left, probe)
    } else {
        find(node.right, probe)
    });
    if probe == node.key {
        assert(run(listing, m, fuel) == Some(node.value));
    } else if rank(probe) < r {
        match node.left {
            None => {
                assert(find(node.left, probe).is_none());
                assert(run(listing, m, fuel) == Some(-1i32));
            },
            Some(child) => {
                let behind = subtree(strategy, node.right) + epilogue(Tag::Found(r), node.value)
                    + post;
                assert(l == block(strategy, *child));
                assert(t.pc == (pre + head + d).len());
                assert(search_tree(node.left, lo, r));
                lemma_regroup_left(strategy, pre, node, post);
                lemma_before_left(strategy, pre, node, lo, hi);
                lemma_block_runs(strategy, pre + head + d, *child, behind, lo, r, miss, probe, t, f);
            },
        }
    } else {
        match node.right {
            None => {
                assert(find(node.right, probe).is_none());
                assert(run(listing, m, fuel) == Some(-1i32));
            },
            Some(child) => {
                let behind = epilogue(Tag::Found(r), node.value) + post;
                assert(subtree(strategy, node.right) == block(strategy, *child));
                assert(t.pc == (pre + head + d + l).len());
                assert(search_tree(node.right, r, hi));
                lemma_regroup_right(strategy, pre, node, post);
                lemma_before_right(strategy, pre, node, lo, hi);
                lemma_block_runs(strategy, pre + head + d + l, *child, behind, r, hi, miss, probe, t, f);
            },
        }
    }
}

/// Started at its first line, the listing of a search tree returns, for
/// every key, the value that the search of the tree finds for it, and -1
/// where the search finds none.
pub proof fn lemma_program_runs<K: Key>(
    strategy: Strategy,
    root: Option<Box<Node<K, i32>>>,
    probe: K,
    m: Machine,
    fuel: nat,
)
    requires
        is_search_tree(root),
        forall|k: K| suits(strategy, #[trigger] k.limbs()),
        m.pc == 0,
        m.input == probe.limbs(),
        fuel >= program(strategy, root).len(),
    ensures
        run(program(strategy, root), m, fuel) == Some(outcome(find(root, probe))),
{
    let listing = program(strategy, root);
    let tail = epilogue(Tag::Miss, -1i32);
    match root {
        None => {
            assert(listing =~= tail);
            lemma_epilogue(listing, 0, Tag::Miss, -1i32, m, fuel);
        },
        Some(node) => {
            let pre = Seq::<Item>::empty();
            let b = block(strategy, *node);
            assert(listing =~= pre + b + tail);
            lemma_block_positions(strategy, *node, rank_floor(), rank_ceiling());
            lemma_position_is(tail, Tag::Miss, 0);
            lemma_position_within(pre, b, tail, Tag::Miss);
            let miss = b.len() as int;
            assert(listing[miss + 1] == tail[1]);
            assert(listing[miss + 2] == tail[2]);
            lemma_block_runs(
                strategy,
                pre,
                *node,
                tail,
                rank_floor(),
                rank_ceiling(),
                miss,
                probe,
                m,
                fuel,
            );
        },
    }
}

/// The listing of the empty tree returns -1.
pub proof fn lemma_empty_program_runs<K: Key>(strategy: Strategy, m: Machine, fuel: nat)
    requires
        m.pc == 0,
        fuel >= 3,
    ensures
        run(program::<K>(strategy, None), m, fuel) == Some(-1i32),
        program::<K>(strategy, None).len() == 3,
{
    let listing = program::<K>(strategy, None);
    assert(listing =~= epilogue(Tag::Miss, -1i32));
    lemma_epilogue(listing, 0, Tag::Miss, -1i32, m, fuel);
}

/// Number of lines a node takes in a listing, its subtrees not counted.
pub open spec fn node_lines(strategy: Strategy) -> nat {
    dispatch_len(strategy) + 4
}

/// The listing of a subtree has as many lines as the subtree has nodes, times
/// the lines of one node.
pub proof fn lemma_subtree_lines<K: Key>(strategy: Strategy, link: Option<Box<Node<K, i32>>>)
    ensures
        subtree(strategy, link).len() == node_lines(strategy) * size(link),
    decreases link,
{
    match link {
        None => {
            assert(size(link) == 0);
            assert(node_lines(strategy) * size(link) == 0);
        },
        Some(node) => {
            lemma_subtree_lines(strategy, node.left);
            lemma_subtree_lines(strategy, node.right);
            lemma_dispatch_len(
                strategy,
                node.key.limbs(),
                rank(node.key),
                child_tag(node.left),
                child_tag(node.right),
            );
            assert(node_lines(strategy) * size(link) == node_lines(strategy) * size(node.left)
                + node_lines(strategy) * size(node.right) + node_lines(strategy))
                by (nonlinear_arith)
                requires
                    size(link) == 1 + size(node.left) + size(node.right),
            ;
        },
    }
}

} // verus!
