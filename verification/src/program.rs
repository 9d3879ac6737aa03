//! The listing a tree is compiled to, for each way of comparing keys.

use crate::avl::{size, Node};
use crate::key::{rank, Key};
use crate::listing::{assemble, Item, Op, Tag};
use vstd::prelude::*;

verus! {

/// How the generated code compares the probed key with a node's key.
#[derive(Clone, Copy, Debug, PartialEq, Eq, Structural)]
pub enum Strategy {
    /// The key is one 32-bit integer, passed by value.
    Scalar,
    /// The key is sixteen bytes behind a pointer, compared limb by limb.
    TwoLimb,
    /// The key is sixteen bytes behind a pointer, tested for equality in one
    /// vector comparison and compared limb by limb when that test fails.
    VectorEq,
}

/// Whether a strategy can handle a key with these limbs: the scalar strategy
/// takes keys that are a single 32-bit integer.
pub open spec fn suits(strategy: Strategy, limbs: (i64, i64)) -> bool {
    strategy == Strategy::Scalar ==> limbs.1 == 0 && i32::MIN <= limbs.0 <= i32::MAX
}

/// The tag a branch towards `link` leads to: the child's block, or the
/// not-found epilogue where there is no child.
pub open spec fn child_tag<K: Key>(link: Option<Box<Node<K, i32>>>) -> Tag {
    match link {
        Some(child) => Tag::Entry(rank(child.key)),
        None => Tag::Miss,
    }
}

/// The ranks of the keys of a subtree.
pub open spec fn ranks_of<K: Key>(link: Option<Box<Node<K, i32>>>) -> Set<int>
    decreases link,
{
    match link {
        None => Set::empty(),
        Some(node) => ranks_of(node.left).union(ranks_of(node.right)).insert(rank(node.key)),
    }
}

/// The rank of the key at the root of a subtree, if it has one.
pub open spec fn root_rank<K: Key>(link: Option<Box<Node<K, i32>>>) -> Option<int> {
    match link {
        Some(node) => Some(rank(node.key)),
        None => None,
    }
}

/// The tag of the block of the given rank; the not-found epilogue for none.
pub open spec fn tag_of(root: Option<int>) -> Tag {
    match root {
        Some(r) => Tag::Entry(r),
        None => Tag::Miss,
    }
}

/// The comparison of the probed key with a node's key and the branches that
/// follow from it. `r` is the rank of the node's key.
#[verifier::opaque]
pub open spec fn dispatch(strategy: Strategy, limbs: (i64, i64), r: int, left: Tag, right: Tag) -> Seq<
    Item,
> {
    match strategy {
        Strategy::Scalar => seq![
            Item::Code(Op::CompareInput(limbs.0 as i32)),
            Item::Code(Op::JumpIfEqual(Tag::Found(r))),
            Item::Code(Op::JumpIfLess(left)),
            Item::Code(Op::JumpIfGreater(right)),
        ],
        Strategy::TwoLimb => seq![
            Item::Code(Op::LoadFirst),
            Item::Code(Op::LoadSecond),
            Item::Code(Op::ConstFirst(limbs.0)),
            Item::Code(Op::ConstSecond(limbs.1)),
            Item::Code(Op::CompareFirst),
            Item::Code(Op::JumpIfLess(Tag::GoLeft(r))),
            Item::Code(Op::JumpIfGreater(Tag::GoRight(r))),
            Item::Code(Op::CompareSecond),
            Item::Code(Op::JumpIfLess(Tag::GoLeft(r))),
            Item::Code(Op::JumpIfGreater(Tag::GoRight(r))),
            Item::Code(Op::Jump(Tag::Found(r))),
            Item::Mark(Tag::GoLeft(r)),
            Item::Code(Op::Jump(left)),
            Item::Mark(Tag::GoRight(r)),
            Item::Code(Op::Jump(right)),
        ],
        Strategy::VectorEq => seq![
            Item::Code(Op::VectorLoad),
            Item::Code(Op::ConstFirst(limbs.0)),
            Item::Code(Op::ConstSecond(limbs.1)),
            Item::Code(Op::VectorFromFirst),
            Item::Code(Op::VectorInsertSecond),
            Item::Code(Op::VectorEqualBytes),
            Item::Code(Op::VectorMask),
            Item::Code(Op::CompareMask),
            Item::Code(Op::JumpIfNotEqual(Tag::Fallback(r))),
            Item::Code(Op::Jump(Tag::Found(r))),
            Item::Mark(Tag::Fallback(r)),
            Item::Code(Op::LoadFirst),
            Item::Code(Op::LoadSecond),
            Item::Code(Op::CompareFirst),
            Item::Code(Op::JumpIfLess(Tag::GoLeft(r))),
            Item::Code(Op::JumpIfGreater(Tag::GoRight(r))),
            Item::Code(Op::CompareSecond),
            Item::Code(Op::JumpIfLess(Tag::GoLeft(r))),
            Item::Code(Op::JumpIfGreater(Tag::GoRight(r))),
            Item::Mark(Tag::GoLeft(r)),
            Item::Code(Op::Jump(left)),
            Item::Mark(Tag::GoRight(r)),
            Item::Code(Op::Jump(right)),
        ],
    }
}

/// The epilogue that returns `value`, marked with `tag`.
pub open spec fn epilogue(tag: Tag, value: i32) -> Seq<Item> {
    seq![Item::Mark(tag), Item::Code(Op::SetResult(value)), Item::Code(Op::Return)]
}

/// The listing of a node and everything below it: the node's mark and
/// dispatch, the listing of its left subtree, that of its right subtree, and
/// then the epilogue that returns the node's value.
pub open spec fn block<K: Key>(strategy: Strategy, node: Node<K, i32>) -> Seq<Item>
    decreases node,
{
    seq![Item::Mark(Tag::Entry(rank(node.key)))] + dispatch(
        strategy,
        node.key.limbs(),
        rank(node.key),
        child_tag(node.left),
        child_tag(node.right),
    ) + subtree(strategy, node.left) + subtree(strategy, node.right) + epilogue(
        Tag::Found(rank(node.key)),
        node.value,
    )
}

/// The listing of a subtree: nothing for an empty one.
pub open spec fn subtree<K: Key>(strategy: Strategy, link: Option<Box<Node<K, i32>>>) -> Seq<Item>
    decreases link,
{
    match link {
        None => Seq::empty(),
        Some(node) => block(strategy, *node),
    }
}

/// The listing of a whole tree: the tree's blocks, root first, and behind them
/// the not-found epilogue, which returns -1.
pub open spec fn program<K: Key>(strategy: Strategy, root: Option<Box<Node<K, i32>>>) -> Seq<Item> {
    subtree(strategy, root) + epilogue(Tag::Miss, -1i32)
}

/// The machine code of a tree. Execution starts at its first byte.
pub open spec fn machine_code<K: Key>(strategy: Strategy, root: Option<Box<Node<K, i32>>>) -> Seq<
    u8,
> {
    assemble(program(strategy, root))
}

/// Number of code bytes a node takes, its subtrees not counted.
pub open spec fn node_bytes(strategy: Strategy) -> nat {
    match strategy {
        Strategy::Scalar => 32,
        Strategy::TwoLimb => 80,
        Strategy::VectorEq => 114,
    }
}

/// Number of bytes in the machine code of a tree.
pub open spec fn code_size<K: Key>(strategy: Strategy, root: Option<Box<Node<K, i32>>>) -> nat {
    node_bytes(strategy) * size(root) + 8
}

} // verus!
