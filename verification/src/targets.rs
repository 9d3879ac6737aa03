//! Every jump of a tree's listing leads to a line of that listing.

use crate::avl::{search_tree, Node};
use crate::key::{rank, rank_ceiling, rank_floor, Key};
use crate::listing::{address, closed, item_target, jumps, Item, Tag};
use crate::program::{block, child_tag, dispatch, epilogue, program, subtree, Strategy};
use crate::simulation::lemma_address_is_offset;
use crate::trace::{lemma_position_concat, lemma_position_is, position};
use vstd::prelude::*;

verus! {

/// Whether every jump among the lines of `part` leads to a tag that `part`
/// marks, or to the not-found epilogue.
pub open spec fn self_contained(part: Seq<Item>) -> bool {
    forall|i: int|
        0 <= i < part.len() ==> match item_target(#[trigger] part[i]) {
            Some(t) => t == Tag::Miss || position(part, t).is_some(),
            None => true,
        }
}

/// Every entry of `jumps` stems from a line of the listing.
proof fn lemma_jump_line(listing: Seq<Item>, k: int) -> (i: int)
    requires
        0 <= k < jumps(listing).len(),
    ensures
        0 <= i < listing.len(),
        item_target(listing[i]) == Some(jumps(listing)[k].1),
    decreases listing.len(),
{
    let front = listing.drop_last();
    if k < jumps(front).len() {
        let i = lemma_jump_line(front, k);
        assert(jumps(listing)[k] == jumps(front)[k]);
        i
    } else {
        listing.len() - 1
    }
}

/// The tags a dispatch jumps to: the node's epilogue, its children, and the
/// branch points that the dispatch marks itself.
proof fn lemma_dispatch_targets(
    strategy: Strategy,
    limbs: (i64, i64),
    r: int,
    left: Tag,
    right: Tag,
)
    ensures
        forall|j: int|
            0 <= j < dispatch(strategy, limbs, r, left, right).len() ==> match item_target(
                #[trigger] dispatch(strategy, limbs, r, left, right)[j],
            ) {
                Some(t) => t == Tag::Found(r) || t == left || t == right || position(
                    dispatch(strategy, limbs, r, left, right),
                    t,
                ).is_some(),
                None => true,
            },
{
    reveal(dispatch);
    let d = dispatch(strategy, limbs, r, left, right);
    match strategy {
        Strategy::Scalar => {},
        Strategy::TwoLimb => {
            lemma_position_is(d, Tag::GoLeft(r), 11);
            lemma_position_is(d, Tag::GoRight(r), 13);
        },
        Strategy::VectorEq => {
            lemma_position_is(d, Tag::Fallback(r), 10);
            lemma_position_is(d, Tag::GoLeft(r), 19);
            lemma_position_is(d, Tag::GoRight(r), 21);
        },
    }
}

/// A tag marked in one of two joined listings is marked in both together.
proof fn lemma_marked_in_concat(a: Seq<Item>, b: Seq<Item>, t: Tag)
    ensures
        position(a, t).is_some() || position(b, t).is_some() <==> position(a + b, t).is_some(),
{
    lemma_position_concat(a, b, t);
}

/// The block of a node is self-contained.
proof fn lemma_block_contained<K: Key>(strategy: Strategy, node: Node<K, i32>, lo: int, hi: int)
    requires
        search_tree(Some(Box::new(node)), lo, hi),
    ensures
        self_contained(block(strategy, node)),
        block(strategy, node).len() > 0,
        block(strategy, node)[0] == Item::Mark(Tag::Entry(rank(node.key))),
    decreases node,
{
    let r = rank(node.key);
    let left = child_tag(node.left);
    let right = child_tag(node.right);
    let head = seq![Item::Mark(Tag::Entry(r))];
    let d = dispatch(strategy, node.key.limbs(), r, left, right);
    let l = subtree(strategy, node.left);
    let rt = subtree(strategy, node.right);
    let e = epilogue(Tag::Found(r), node.value);
    let b = block(strategy, node);
    assert(search_tree(node.left, lo, r));
    assert(search_tree(node.right, r, hi));
    lemma_subtree_contained(strategy, node.left, lo, r);
    lemma_subtree_contained(strategy, node.right, r, hi);
    lemma_dispatch_targets(strategy, node.key.limbs(), r, left, right);
    lemma_position_is(e, Tag::Found(r), 0);
    if node.left.is_some() {
        lemma_position_is(l, left, 0);
    }
    if node.right.is_some() {
        lemma_position_is(rt, right, 0);
    }
    assert(b =~= head + d + l + rt + e);
    assert forall|i: int| 0 <= i < b.len() implies match item_target(#[trigger] b[i]) {
        Some(t) => t == Tag::Miss || position(b, t).is_some(),
        None => true,
    } by {
        match item_target(b[i]) {
            Some(t) => {
                lemma_marked_in_concat(head, d, t);
                lemma_marked_in_concat(head + d, l, t);
                lemma_marked_in_concat(head + d + l, rt, t);
                lemma_marked_in_concat(head + d + l + rt, e, t);
                if i < 1 {
                } else if i < 1 + d.len() {
                    assert(b[i] == d[i - 1]);
                } else if i < 1 + d.len() + l.len() {
                    assert(b[i] == l[i - 1 - d.len()]);
                } else if i < 1 + d.len() + l.len() + rt.len() {
                    assert(b[i] == rt[i - 1 - d.len() - l.len()]);
                } else {
                    assert(b[i] == e[i - 1 - d.len() - l.len() - rt.len()]);
                }
            },
            None => {},
        }
    }
}

/// The listing of a subtree is self-contained.
proof fn lemma_subtree_contained<K: Key>(
    strategy: Strategy,
    link: Option<Box<Node<K, i32>>>,
    lo: int,
    hi: int,
)
    requires
        search_tree(link, lo, hi),
    ensures
        self_contained(subtree(strategy, link)),
        link.is_some() ==> subtree(strategy, link).len() > 0 && subtree(strategy, link)[0]
            == Item::Mark(child_tag(link)),
    decreases link,
{
    match link {
        None => {},
        Some(node) => {
            lemma_block_contained(strategy, *node, lo, hi);
        },
    }
}

/// Every jump of the listing of a search tree leads to a tag that the listing
/// marks.
pub proof fn lemma_program_closed<K: Key>(strategy: Strategy, root: Option<Box<Node<K, i32>>>)
    requires
        search_tree(root, rank_floor(), rank_ceiling()),
    ensures
        closed(program(strategy, root)),
{
    let body = subtree(strategy, root);
    let tail = epilogue(Tag::Miss, -1i32);
    let listing = program(strategy, root);
    lemma_subtree_contained(strategy, root, rank_floor(), rank_ceiling());
    lemma_position_is(tail, Tag::Miss, 0);
    assert forall|k: int| 0 <= k < jumps(listing).len() implies address(
        listing,
        (#[trigger] jumps(listing)[k]).1,
    ).is_some() by {
        let t = jumps(listing)[k].1;
        let i = lemma_jump_line(listing, k);
        lemma_marked_in_concat(body, tail, t);
        lemma_address_is_offset(listing, t);
        if i < body.len() {
            assert(listing[i] == body[i]);
        } else {
            assert(listing[i] == tail[i - body.len()]);
        }
    }
}

} // verus!
