//! How long the code of a tree is.

use crate::avl::{size, Node};
use crate::key::{rank, Key};
use crate::listing::{item_bytes, raw, Item, Op, Tag};
use crate::program::{
    child_tag, code_size, dispatch, epilogue, node_bytes, program, subtree, Strategy,
};
use vstd::prelude::*;

verus! {

/// The raw bytes of two listings joined are their raw bytes joined.
pub proof fn lemma_raw_concat(a: Seq<Item>, b: Seq<Item>)
    ensures
        raw(a + b) == raw(a) + raw(b),
    decreases b.len(),
{
    if b.len() == 0 {
        assert(a + b =~= a);
        assert(raw(a) + raw(b) =~= raw(a));
    } else {
        lemma_raw_concat(a, b.drop_last());
        assert((a + b).drop_last() =~= a + b.drop_last());
        assert(raw(a + b) =~= raw(a) + raw(b));
    }
}

/// Number of raw bytes of a listing.
spec fn raw_len(listing: Seq<Item>) -> nat
    decreases listing.len(),
{
    if listing.len() == 0 {
        0
    } else {
        raw_len(listing.drop_last()) + item_bytes(listing.last()).len()
    }
}

proof fn lemma_raw_len(listing: Seq<Item>)
    ensures
        raw(listing).len() == raw_len(listing),
    decreases listing.len(),
{
    if listing.len() > 0 {
        lemma_raw_len(listing.drop_last());
    }
}

proof fn lemma_raw_len_concat(a: Seq<Item>, b: Seq<Item>)
    ensures
        raw_len(a + b) == raw_len(a) + raw_len(b),
{
    lemma_raw_concat(a, b);
    lemma_raw_len(a);
    lemma_raw_len(b);
    lemma_raw_len(a + b);
}

spec fn load_input_part() -> Seq<Item> {
    seq![Item::Code(Op::LoadFirst), Item::Code(Op::LoadSecond)]
}

spec fn load_key_part(limbs: (i64, i64)) -> Seq<Item> {
    seq![Item::Code(Op::ConstFirst(limbs.0)), Item::Code(Op::ConstSecond(limbs.1))]
}

spec fn limb_test_part(r: int) -> Seq<Item> {
    seq![
        Item::Code(Op::CompareFirst),
        Item::Code(Op::JumpIfLess(Tag::GoLeft(r))),
        Item::Code(Op::JumpIfGreater(Tag::GoRight(r))),
        Item::Code(Op::CompareSecond),
        Item::Code(Op::JumpIfLess(Tag::GoLeft(r))),
        Item::Code(Op::JumpIfGreater(Tag::GoRight(r))),
    ]
}

spec fn branch_points_part(r: int, left: Tag, right: Tag) -> Seq<Item> {
    seq![
        Item::Mark(Tag::GoLeft(r)),
        Item::Code(Op::Jump(left)),
        Item::Mark(Tag::GoRight(r)),
        Item::Code(Op::Jump(right)),
    ]
}

spec fn vector_test_part(r: int) -> Seq<Item> {
    seq![
        Item::Code(Op::VectorFromFirst),
        Item::Code(Op::VectorInsertSecond),
        Item::Code(Op::VectorEqualBytes),
        Item::Code(Op::VectorMask),
        Item::Code(Op::CompareMask),
        Item::Code(Op::JumpIfNotEqual(Tag::Fallback(r))),
        Item::Code(Op::Jump(Tag::Found(r))),
        Item::Mark(Tag::Fallback(r)),
    ]
}

proof fn lemma_part_sizes(limbs: (i64, i64), r: int, left: Tag, right: Tag)
    ensures
        raw_len(load_input_part()) == 7,
        raw_len(load_key_part(limbs)) == 20,
        raw_len(limb_test_part(r)) == 30,
        raw_len(branch_points_part(r, left, right)) == 10,
        raw_len(vector_test_part(r)) == 36,
        raw_len(seq![Item::Code(Op::Jump(Tag::Found(r)))]) == 5,
        raw_len(seq![Item::Code(Op::VectorLoad)]) == 3,
{
    reveal_with_fuel(raw_len, 10);
}

proof fn lemma_scalar_size(limbs: (i64, i64), r: int, left: Tag, right: Tag)
    ensures
        raw_len(dispatch(Strategy::Scalar, limbs, r, left, right)) == 24,
{
    reveal(dispatch);
    reveal_with_fuel(raw_len, 5);
}

proof fn lemma_two_limb_size(limbs: (i64, i64), r: int, left: Tag, right: Tag)
    ensures
        raw_len(dispatch(Strategy::TwoLimb, limbs, r, left, right)) == 72,
{
    let d = dispatch(Strategy::TwoLimb, limbs, r, left, right);
    let found = seq![Item::Code(Op::Jump(Tag::Found(r)))];
    let a = load_input_part() + load_key_part(limbs);
    let b = a + limb_test_part(r);
    let c = b + found;
    lemma_part_sizes(limbs, r, left, right);
    lemma_raw_len_concat(load_input_part(), load_key_part(limbs));
    lemma_raw_len_concat(a, limb_test_part(r));
    lemma_raw_len_concat(b, found);
    lemma_raw_len_concat(c, branch_points_part(r, left, right));
    assert(d =~= c + branch_points_part(r, left, right)) by {
        reveal(dispatch);
    }
}

proof fn lemma_vector_size(limbs: (i64, i64), r: int, left: Tag, right: Tag)
    ensures
        raw_len(dispatch(Strategy::VectorEq, limbs, r, left, right)) == 106,
{
    let d = dispatch(Strategy::VectorEq, limbs, r, left, right);
    let a = seq![Item::Code(Op::VectorLoad)] + load_key_part(limbs);
    let b = a + vector_test_part(r);
    let c = b + load_input_part();
    let e = c + limb_test_part(r);
    lemma_part_sizes(limbs, r, left, right);
    lemma_raw_len_concat(seq![Item::Code(Op::VectorLoad)], load_key_part(limbs));
    lemma_raw_len_concat(a, vector_test_part(r));
    lemma_raw_len_concat(b, load_input_part());
    lemma_raw_len_concat(c, limb_test_part(r));
    lemma_raw_len_concat(e, branch_points_part(r, left, right));
    assert(d =~= e + branch_points_part(r, left, right)) by {
        reveal(dispatch);
    }
}

proof fn lemma_epilogue_size(tag: Tag, value: i32)
    ensures
        raw(epilogue(tag, value)).len() == 8,
        raw(seq![Item::Mark(tag)]).len() == 0,
{
    lemma_raw_len(epilogue(tag, value));
    lemma_raw_len(seq![Item::Mark(tag)]);
    reveal_with_fuel(raw_len, 4);
}

/// Every dispatch has a fixed number of bytes: with the eight bytes of the
/// epilogue, the bytes of one node.
proof fn lemma_dispatch_size(strategy: Strategy, limbs: (i64, i64), r: int, left: Tag, right: Tag)
    ensures
        raw(dispatch(strategy, limbs, r, left, right)).len() + 8 == node_bytes(strategy),
{
    lemma_raw_len(dispatch(strategy, limbs, r, left, right));
    match strategy {
        Strategy::Scalar => lemma_scalar_size(limbs, r, left, right),
        Strategy::TwoLimb => lemma_two_limb_size(limbs, r, left, right),
        Strategy::VectorEq => lemma_vector_size(limbs, r, left, right),
    }
}

/// The length of the code of a subtree is the number of its nodes times the
/// length of one block.
pub proof fn lemma_subtree_size<K: Key>(strategy: Strategy, link: Option<Box<Node<K, i32>>>)
    ensures
        raw(subtree(strategy, link)).len() == node_bytes(strategy) * size(link),
    decreases link,
{
    match link {
        None => {
            assert(size(link) == 0);
            assert(raw(subtree(strategy, link)).len() == 0);
            assert(node_bytes(strategy) * size(link) == 0);
        },
        Some(node) => {
            let r = rank(node.key);
            let head = seq![Item::Mark(Tag::Entry(r))];
            let d = dispatch(
                strategy,
                node.key.limbs(),
                r,
                child_tag(node.left),
                child_tag(node.right),
            );
            let l = subtree(strategy, node.left);
            let rt = subtree(strategy, node.right);
            let e = epilogue(Tag::Found(r), node.value);
            lemma_subtree_size(strategy, node.left);
            lemma_subtree_size(strategy, node.right);
            lemma_dispatch_size(
                strategy,
                node.key.limbs(),
                r,
                child_tag(node.left),
                child_tag(node.right),
            );
            lemma_epilogue_size(Tag::Found(r), node.value);
            lemma_epilogue_size(Tag::Entry(r), node.value);
            lemma_raw_concat(head, d);
            lemma_raw_concat(head + d, l);
            lemma_raw_concat(head + d + l, rt);
            lemma_raw_concat(head + d + l + rt, e);
            assert(raw(e).len() == 8);
            assert(node_bytes(strategy) * size(link) == node_bytes(strategy) * size(node.left)
                + node_bytes(strategy) * size(node.right) + node_bytes(strategy))
                by (nonlinear_arith)
                requires
                    size(link) == 1 + size(node.left) + size(node.right),
            ;
        },
    }
}

/// The length of the machine code of a tree.
pub proof fn lemma_program_size<K: Key>(strategy: Strategy, root: Option<Box<Node<K, i32>>>)
    ensures
        raw(program(strategy, root)).len() == code_size(strategy, root),
{
    lemma_subtree_size(strategy, root);
    lemma_epilogue_size(Tag::Miss, -1i32);
    lemma_raw_concat(subtree(strategy, root), epilogue(Tag::Miss, -1i32));
    assert(raw(epilogue(Tag::Miss, -1i32)).len() == 8);
}

} // verus!
