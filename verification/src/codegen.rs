//! Code generation: one block of instructions per node, in pre-order.

use crate::assembler::region_bytes;
use crate::avl::{is_search_tree, search_tree, Node};
use crate::emitter::Emitter;
use crate::key::{rank, rank_ceiling, rank_floor, rank_properties, rank_value, Key};
use crate::listing::{address, closed, imm32, imm64, inside, Item, Op, Tag};
use crate::program::{
    block, child_tag, code_size, dispatch, epilogue, machine_code, program, ranks_of, root_rank,
    subtree, tag_of, Strategy,
};
use crate::size::lemma_program_size;
use crate::targets::lemma_program_closed;
use vstd::prelude::*;

verus! {

/// Why a tree could not be compiled.
#[derive(Clone, Copy, Debug, PartialEq, Eq, Structural)]
pub enum CompileError {
    /// No executable memory could be mapped for the assembler.
    Allocation,
    /// The code would be longer than a 32-bit jump can span.
    TooLarge,
    /// No finished region was handed over. An assembler that was driven by
    /// the emitter always hands its region over, so no compilation ends in
    /// this.
    Finalize,
}

fn bytes32(v: i32) -> (b: [u8; 4])
    ensures
        b@ == imm32(v),
{
    let b: [u8; 4] = [v as u8, (v >> 8) as u8, (v >> 16) as u8, (v >> 24) as u8];
    assert(b@ =~= imm32(v));
    b
}

fn bytes64(v: i64) -> (b: [u8; 8])
    ensures
        b@ == imm64(v),
{
    let b: [u8; 8] = [
        v as u8,
        (v >> 8) as u8,
        (v >> 16) as u8,
        (v >> 24) as u8,
        (v >> 32) as u8,
        (v >> 40) as u8,
        (v >> 48) as u8,
        (v >> 56) as u8,
    ];
    assert(b@ =~= imm64(v));
    b
}

/// `mov rax, imm32`, `ret`, marked with `tag`: the epilogue that returns `value`.
fn emit_epilogue(em: &mut Emitter, label: dynasmrt::DynamicLabel, value: i32, Ghost(tag): Ghost<Tag>)
    requires
        old(em).wf(),
        old(em).names_label(tag, label),
        address(old(em).listing@, tag).is_none(),
    ensures
        final(em).wf(),
        final(em).listing@ == old(em).listing@ + epilogue(tag, value),
        final(em).names@ == old(em).names@,
        final(em).labels == old(em).labels,
        final(em).extends(old(em)),
        address(final(em).listing@, tag).is_some(),
        forall|t: Tag|
            t != tag ==> #[trigger] address(final(em).listing@, t) == address(old(em).listing@, t),
{
    em.mark(label, Ghost(tag));
    let v = bytes32(value);
    let set: [u8; 7] = [0x48, 0xC7, 0xC0, v[0], v[1], v[2], v[3]];
    em.plain(set.as_slice(), Ghost(Op::SetResult(value)));
    let ret: [u8; 1] = [0xC3];
    em.plain(ret.as_slice(), Ghost(Op::Return));
    proof {
        assert(em.listing@ =~= old(em).listing@ + epilogue(tag, value));
    }
}

/// The label a branch towards `link` leads to.
fn child_label<K: Key>(
    em: &mut Emitter,
    link: &Option<Box<Node<K, i32>>>,
    not_found: dynasmrt::DynamicLabel,
) -> (label: dynasmrt::DynamicLabel)
    requires
        old(em).wf(),
        old(em).names_label(Tag::Miss, not_found),
    ensures
        final(em).wf(),
        final(em).listing@ == old(em).listing@,
        final(em).names_label(child_tag(*link), label),
        final(em).names@ == if old(em).names@.contains_key(child_tag(*link)) {
            old(em).names@
        } else {
            old(em).names@.insert(child_tag(*link), crate::assembler::label_id(label))
        },
        final(em).extends(old(em)),
{
    match link {
        Some(child) => {
            let key = rank_value(&child.key);
            em.get_or_create(key)
        },
        None => not_found,
    }
}

/// What every dispatch leaves behind: the only new names are those of the
/// node's children and of the node's own branch points, and the only new
/// marks are those of the branch points.
pub open spec fn dispatched<K: Key>(before: &Emitter, after: &Emitter, node: Node<K, i32>) -> bool {
    let r = rank(node.key);
    &&& after.wf()
    &&& after.extends(before)
    &&& forall|t: Tag| #[trigger]
        after.names@.contains_key(t) ==> before.names@.contains_key(t) || t == child_tag(node.left)
            || t == child_tag(node.right) || t == Tag::GoLeft(r) || t == Tag::GoRight(r) || t
            == Tag::Fallback(r)
    &&& forall|t: Tag|
        t != Tag::GoLeft(r) && t != Tag::GoRight(r) && t != Tag::Fallback(r) ==> #[trigger] address(
            after.listing@,
            t,
        ) == address(before.listing@, t)
}

/// Scalar dispatch: one 32-bit comparison of the argument register with the
/// node's key, then a branch for each outcome.
fn dispatch_scalar<K: Key>(
    em: &mut Emitter,
    node: &Node<K, i32>,
    found: dynasmrt::DynamicLabel,
    not_found: dynasmrt::DynamicLabel,
)
    requires
        old(em).wf(),
        old(em).names_label(Tag::Found(rank(node.key)), found),
        old(em).names_label(Tag::Miss, not_found),
    ensures
        final(em).listing@ == old(em).listing@ + dispatch(
            Strategy::Scalar,
            node.key.limbs(),
            rank(node.key),
            child_tag(node.left),
            child_tag(node.right),
        ),
        dispatched(old(em), final(em), *node),
{
    let ghost r = rank(node.key);
    let ghost left_tag = child_tag(node.left);
    let ghost right_tag = child_tag(node.right);
    let limbs = node.key.to_limbs();
    // Compare the input key (in edi) with the node's key
    let key: i32 = limbs.0 as i32;
    let k = bytes32(key);
    let compare: [u8; 6] = [0x81, 0xFF, k[0], k[1], k[2], k[3]];
    em.plain(compare.as_slice(), Ghost(Op::CompareInput(key)));
    let je: [u8; 6] = [0x0F, 0x84, 0, 0, 0, 0];
    em.jump(je.as_slice(), found, Ghost(Op::JumpIfEqual(Tag::Found(r))));
    // Decide which child to go to, or jump to "not_found"
    let left = child_label(em, &node.left, not_found);
    let jl: [u8; 6] = [0x0F, 0x8C, 0, 0, 0, 0];
    em.jump(jl.as_slice(), left, Ghost(Op::JumpIfLess(left_tag)));
    let right = child_label(em, &node.right, not_found);
    let jg: [u8; 6] = [0x0F, 0x8F, 0, 0, 0, 0];
    em.jump(jg.as_slice(), right, Ghost(Op::JumpIfGreater(right_tag)));
    proof {
        reveal(dispatch);
        assert(em.listing@ =~= old(em).listing@ + dispatch(
            Strategy::Scalar,
            node.key.limbs(),
            r,
            left_tag,
            right_tag,
        ));
    }
}

/// The limb-by-limb comparison: first limbs, then second limbs, each with a
/// branch to `go_left` on less and to `go_right` on greater.
fn emit_limb_test(
    em: &mut Emitter,
    go_left: dynasmrt::DynamicLabel,
    go_right: dynasmrt::DynamicLabel,
    Ghost(r): Ghost<int>,
)
    requires
        old(em).wf(),
        old(em).names_label(Tag::GoLeft(r), go_left),
        old(em).names_label(Tag::GoRight(r), go_right),
    ensures
        final(em).wf(),
        final(em).extends(old(em)),
        final(em).names@ == old(em).names@,
        final(em).listing@ == old(em).listing@ + seq![
            Item::Code(Op::CompareFirst),
            Item::Code(Op::JumpIfLess(Tag::GoLeft(r))),
            Item::Code(Op::JumpIfGreater(Tag::GoRight(r))),
            Item::Code(Op::CompareSecond),
            Item::Code(Op::JumpIfLess(Tag::GoLeft(r))),
            Item::Code(Op::JumpIfGreater(Tag::GoRight(r))),
        ],
        forall|t: Tag| #[trigger] address(final(em).listing@, t) == address(old(em).listing@, t),
{
    let jl: [u8; 6] = [0x0F, 0x8C, 0, 0, 0, 0];
    let jg: [u8; 6] = [0x0F, 0x8F, 0, 0, 0, 0];
    // Compare first 8 bytes (r8 vs r10)
    let first: [u8; 3] = [0x4D, 0x3B, 0xC2];
    em.plain(first.as_slice(), Ghost(Op::CompareFirst));
    em.jump(jl.as_slice(), go_left, Ghost(Op::JumpIfLess(Tag::GoLeft(r))));
    em.jump(jg.as_slice(), go_right, Ghost(Op::JumpIfGreater(Tag::GoRight(r))));
    // If first 8 bytes are equal, compare next 8 bytes (r9 vs r11)
    let second: [u8; 3] = [0x4D, 0x3B, 0xCB];
    em.plain(second.as_slice(), Ghost(Op::CompareSecond));
    em.jump(jl.as_slice(), go_left, Ghost(Op::JumpIfLess(Tag::GoLeft(r))));
    em.jump(jg.as_slice(), go_right, Ghost(Op::JumpIfGreater(Tag::GoRight(r))));
    proof {
        assert(em.listing@ =~= old(em).listing@ + seq![
            Item::Code(Op::CompareFirst),
            Item::Code(Op::JumpIfLess(Tag::GoLeft(r))),
            Item::Code(Op::JumpIfGreater(Tag::GoRight(r))),
            Item::Code(Op::CompareSecond),
            Item::Code(Op::JumpIfLess(Tag::GoLeft(r))),
            Item::Code(Op::JumpIfGreater(Tag::GoRight(r))),
        ]);
    }
}

/// The two branch points of a node: each is marked and jumps on to the child
/// on its side, or to the not-found epilogue where there is no child.
fn emit_branch_points<K: Key>(
    em: &mut Emitter,
    node: &Node<K, i32>,
    go_left: dynasmrt::DynamicLabel,
    go_right: dynasmrt::DynamicLabel,
    not_found: dynasmrt::DynamicLabel,
)
    requires
        old(em).wf(),
        old(em).names_label(Tag::GoLeft(rank(node.key)), go_left),
        old(em).names_label(Tag::GoRight(rank(node.key)), go_right),
        old(em).names_label(Tag::Miss, not_found),
        address(old(em).listing@, Tag::GoLeft(rank(node.key))).is_none(),
        address(old(em).listing@, Tag::GoRight(rank(node.key))).is_none(),
    ensures
        final(em).listing@ == old(em).listing@ + seq![
            Item::Mark(Tag::GoLeft(rank(node.key))),
            Item::Code(Op::Jump(child_tag(node.left))),
            Item::Mark(Tag::GoRight(rank(node.key))),
            Item::Code(Op::Jump(child_tag(node.right))),
        ],
        dispatched(old(em), final(em), *node),
{
    let ghost r = rank(node.key);
    let jmp: [u8; 5] = [0xE9, 0, 0, 0, 0];
    em.mark(go_left, Ghost(Tag::GoLeft(r)));
    let left = child_label(em, &node.left, not_found);
    em.jump(jmp.as_slice(), left, Ghost(Op::Jump(child_tag(node.left))));
    em.mark(go_right, Ghost(Tag::GoRight(r)));
    let right = child_label(em, &node.right, not_found);
    em.jump(jmp.as_slice(), right, Ghost(Op::Jump(child_tag(node.right))));
    proof {
        assert(em.listing@ =~= old(em).listing@ + seq![
            Item::Mark(Tag::GoLeft(r)),
            Item::Code(Op::Jump(child_tag(node.left))),
            Item::Mark(Tag::GoRight(r)),
            Item::Code(Op::Jump(child_tag(node.right))),
        ]);
    }
}

/// Loads the two limbs of the probed key into r8 and r9.
fn emit_load_input(em: &mut Emitter)
    requires
        old(em).wf(),
    ensures
        final(em).wf(),
        final(em).extends(old(em)),
        final(em).names@ == old(em).names@,
        final(em).listing@ == old(em).listing@ + seq![
            Item::Code(Op::LoadFirst),
            Item::Code(Op::LoadSecond),
        ],
        forall|t: Tag| #[trigger] address(final(em).listing@, t) == address(old(em).listing@, t),
{
    // Load input key (first 8 bytes) into r8
    let first: [u8; 3] = [0x4C, 0x8B, 0x07];
    em.plain(first.as_slice(), Ghost(Op::LoadFirst));
    // Load input key (next 8 bytes) into r9
    let second: [u8; 4] = [0x4C, 0x8B, 0x4F, 0x08];
    em.plain(second.as_slice(), Ghost(Op::LoadSecond));
    proof {
        assert(em.listing@ =~= old(em).listing@ + seq![
            Item::Code(Op::LoadFirst),
            Item::Code(Op::LoadSecond),
        ]);
    }
}

/// Loads the two limbs of a node's key into r10 and r11.
fn emit_load_key(em: &mut Emitter, limbs: (i64, i64))
    requires
        old(em).wf(),
    ensures
        final(em).wf(),
        final(em).extends(old(em)),
        final(em).names@ == old(em).names@,
        final(em).listing@ == old(em).listing@ + seq![
            Item::Code(Op::ConstFirst(limbs.0)),
            Item::Code(Op::ConstSecond(limbs.1)),
        ],
        forall|t: Tag| #[trigger] address(final(em).listing@, t) == address(old(em).listing@, t),
{
    let a = bytes64(limbs.0);
    let first: [u8; 10] = [0x49, 0xBA, a[0], a[1], a[2], a[3], a[4], a[5], a[6], a[7]];
    em.plain(first.as_slice(), Ghost(Op::ConstFirst(limbs.0)));
    let b = bytes64(limbs.1);
    let second: [u8; 10] = [0x49, 0xBB, b[0], b[1], b[2], b[3], b[4], b[5], b[6], b[7]];
    em.plain(second.as_slice(), Ghost(Op::ConstSecond(limbs.1)));
    proof {
        assert(em.listing@ =~= old(em).listing@ + seq![
            Item::Code(Op::ConstFirst(limbs.0)),
            Item::Code(Op::ConstSecond(limbs.1)),
        ]);
    }
}

/// Two-limb dispatch: both limbs of the probed key and of the node's key are
/// loaded into registers and compared, first limb first.
fn dispatch_two_limb<K: Key>(
    em: &mut Emitter,
    node: &Node<K, i32>,
    found: dynasmrt::DynamicLabel,
    not_found: dynasmrt::DynamicLabel,
)
    requires
        old(em).wf(),
        old(em).names_label(Tag::Found(rank(node.key)), found),
        old(em).names_label(Tag::Miss, not_found),
        !old(em).names@.contains_key(Tag::GoLeft(rank(node.key))),
        !old(em).names@.contains_key(Tag::GoRight(rank(node.key))),
    ensures
        final(em).listing@ == old(em).listing@ + dispatch(
            Strategy::TwoLimb,
            node.key.limbs(),
            rank(node.key),
            child_tag(node.left),
            child_tag(node.right),
        ),
        dispatched(old(em), final(em), *node),
{
    let ghost r = rank(node.key);
    let go_left_path = em.fresh(Ghost(Tag::GoLeft(r)));
    let go_right_path = em.fresh(Ghost(Tag::GoRight(r)));
    let limbs = node.key.to_limbs();
    emit_load_input(em);
    emit_load_key(em, limbs);
    emit_limb_test(em, go_left_path, go_right_path, Ghost(r));
    // If both 8-byte chunks are equal, keys are equal
    let jmp: [u8; 5] = [0xE9, 0, 0, 0, 0];
    em.jump(jmp.as_slice(), found, Ghost(Op::Jump(Tag::Found(r))));
    emit_branch_points(em, node, go_left_path, go_right_path, not_found);
    proof {
        reveal(dispatch);
        assert(em.listing@ =~= old(em).listing@ + dispatch(
            Strategy::TwoLimb,
            node.key.limbs(),
            r,
            child_tag(node.left),
            child_tag(node.right),
        ));
    }
}

/// Vector dispatch: one 16-byte equality test decides "found"; when it fails,
/// the limbs are compared one by one to choose the side.
fn dispatch_vector<K: Key>(
    em: &mut Emitter,
    node: &Node<K, i32>,
    found: dynasmrt::DynamicLabel,
    not_found: dynasmrt::DynamicLabel,
)
    requires
        old(em).wf(),
        old(em).names_label(Tag::Found(rank(node.key)), found),
        old(em).names_label(Tag::Miss, not_found),
        !old(em).names@.contains_key(Tag::GoLeft(rank(node.key))),
        !old(em).names@.contains_key(Tag::GoRight(rank(node.key))),
        !old(em).names@.contains_key(Tag::Fallback(rank(node.key))),
    ensures
        final(em).listing@ == old(em).listing@ + dispatch(
            Strategy::VectorEq,
            node.key.limbs(),
            rank(node.key),
            child_tag(node.left),
            child_tag(node.right),
        ),
        dispatched(old(em), final(em), *node),
{
    let ghost r = rank(node.key);
    let go_left_path = em.fresh(Ghost(Tag::GoLeft(r)));
    let go_right_path = em.fresh(Ghost(Tag::GoRight(r)));
    let check_ordering = em.fresh(Ghost(Tag::Fallback(r)));
    let limbs = node.key.to_limbs();
    // Load input key into xmm0
    let movups: [u8; 3] = [0x0F, 0x10, 0x07];
    em.plain(movups.as_slice(), Ghost(Op::VectorLoad));
    // Load node's key into xmm1
    emit_load_key(em, limbs);
    let movq: [u8; 5] = [0x66, 0x49, 0x0F, 0x6E, 0xCA];
    em.plain(movq.as_slice(), Ghost(Op::VectorFromFirst));
    let pinsrq: [u8; 7] = [0x66, 0x49, 0x0F, 0x3A, 0x22, 0xCB, 0x01];
    em.plain(pinsrq.as_slice(), Ghost(Op::VectorInsertSecond));
    // Compare for equality (byte-wise)
    let equal_bytes: [u8; 4] = [0x66, 0x0F, 0x74, 0xC1];
    em.plain(equal_bytes.as_slice(), Ghost(Op::VectorEqualBytes));
    // Get mask of equal bytes
    let mask: [u8; 4] = [0x66, 0x0F, 0xD7, 0xC0];
    em.plain(mask.as_slice(), Ghost(Op::VectorMask));
    // If mask is not all ones (0xFFFF), keys are not equal
    let test: [u8; 5] = [0x3D, 0xFF, 0xFF, 0x00, 0x00];
    em.plain(test.as_slice(), Ghost(Op::CompareMask));
    let jne: [u8; 6] = [0x0F, 0x85, 0, 0, 0, 0];
    em.jump(jne.as_slice(), check_ordering, Ghost(Op::JumpIfNotEqual(Tag::Fallback(r))));
    // If keys are equal, jump to found_label
    let jmp: [u8; 5] = [0xE9, 0, 0, 0, 0];
    em.jump(jmp.as_slice(), found, Ghost(Op::Jump(Tag::Found(r))));
    // If not equal, fall back to GPR comparison for ordering
    em.mark(check_ordering, Ghost(Tag::Fallback(r)));
    emit_load_input(em);
    emit_limb_test(em, go_left_path, go_right_path, Ghost(r));
    emit_branch_points(em, node, go_left_path, go_right_path, not_found);
    proof {
        reveal(dispatch);
        assert(em.listing@ =~= old(em).listing@ + dispatch(
            Strategy::VectorEq,
            node.key.limbs(),
            r,
            child_tag(node.left),
            child_tag(node.right),
        ));
    }
}

/// The comparison and the branches of one node, by the strategy's choice of
/// instructions.
fn emit_dispatch<K: Key>(
    em: &mut Emitter,
    strategy: Strategy,
    node: &Node<K, i32>,
    found: dynasmrt::DynamicLabel,
    not_found: dynasmrt::DynamicLabel,
)
    requires
        old(em).wf(),
        old(em).names_label(Tag::Found(rank(node.key)), found),
        old(em).names_label(Tag::Miss, not_found),
        !old(em).names@.contains_key(Tag::GoLeft(rank(node.key))),
        !old(em).names@.contains_key(Tag::GoRight(rank(node.key))),
        !old(em).names@.contains_key(Tag::Fallback(rank(node.key))),
    ensures
        final(em).listing@ == old(em).listing@ + dispatch(
            strategy,
            node.key.limbs(),
            rank(node.key),
            child_tag(node.left),
            child_tag(node.right),
        ),
        dispatched(old(em), final(em), *node),
{
    match strategy {
        Strategy::Scalar => dispatch_scalar(em, node, found, not_found),
        Strategy::TwoLimb => dispatch_two_limb(em, node, found, not_found),
        Strategy::VectorEq => dispatch_vector(em, node, found, not_found),
    }
}

/// Whether `t` is one of the tags that the first lines of the block of the
/// node with rank `r` mark.
pub open spec fn marked_at_head(t: Tag, r: int) -> bool {
    t == Tag::Entry(r) || t == Tag::GoLeft(r) || t == Tag::GoRight(r) || t == Tag::Fallback(r)
}

/// The emitter is ready for the block of the node with rank `r`, whose
/// subtree has its ranks between `lo` and `hi`: no tag of that range has a
/// label yet but, possibly, the block itself, which a branch of its parent
/// may have asked for; and the block is not marked.
#[verifier::opaque]
pub open spec fn ready(em: Emitter, r: int, lo: int, hi: int) -> bool {
    &&& forall|t: Tag| #[trigger] em.names@.contains_key(t) && inside(t, lo, hi) ==> t == Tag::Entry(r)
    &&& address(em.listing@, Tag::Entry(r)).is_none()
}

/// `after` continues `before` by the first lines of the block of the node
/// with rank `r`: the new labels are those of the node and of its children
/// `left` and `right`, the new marks are those of the head, and `found` is
/// the label of the node's epilogue, not yet marked.
#[verifier::opaque]
pub open spec fn opened(
    before: Emitter,
    after: Emitter,
    r: int,
    left: Tag,
    right: Tag,
    found: dynasmrt::DynamicLabel,
) -> bool {
    &&& after.extends(&before)
    &&& after.names_label(Tag::Found(r), found)
    &&& after.names@.contains_key(Tag::Entry(r))
    &&& address(after.listing@, Tag::Found(r)).is_none()
    &&& forall|t: Tag| #[trigger]
        after.names@.contains_key(t) ==> before.names@.contains_key(t) || marked_at_head(t, r) || t
            == Tag::Found(r) || t == left || t == right
    &&& forall|t: Tag|
        !marked_at_head(t, r) ==> #[trigger] address(after.listing@, t) == address(
            before.listing@,
            t,
        )
}

/// `after` continues `before` by the blocks of a subtree whose keys have the
/// ranks `ranks`, all between `lo` and `hi`: every new label and every new
/// mark belongs to that range, and the blocks that have a label now are
/// those that had one before and those of the subtree.
#[verifier::opaque]
pub open spec fn grown(before: Emitter, after: Emitter, lo: int, hi: int, ranks: Set<int>) -> bool {
    &&& after.extends(&before)
    &&& forall|t: Tag| #[trigger]
        after.names@.contains_key(t) ==> before.names@.contains_key(t) || inside(t, lo, hi)
    &&& forall|t: Tag|
        !inside(t, lo, hi) ==> #[trigger] address(after.listing@, t) == address(before.listing@, t)
    &&& forall|x: int| #[trigger]
        after.names@.contains_key(Tag::Entry(x)) ==> before.names@.contains_key(Tag::Entry(x))
            || ranks.contains(x)
    &&& forall|x: int| #[trigger] ranks.contains(x) ==> after.names@.contains_key(Tag::Entry(x))
}

/// Appends the first lines of the block of `node`: its mark and its dispatch.
/// Returns the label of the node's epilogue, which is still to be marked.
fn open_block<K: Key>(
    em: &mut Emitter,
    strategy: Strategy,
    node: &Node<K, i32>,
    not_found: dynasmrt::DynamicLabel,
    Ghost(lo): Ghost<int>,
    Ghost(hi): Ghost<int>,
) -> (found: dynasmrt::DynamicLabel)
    requires
        old(em).wf(),
        lo < rank(node.key) < hi,
        old(em).names_label(Tag::Miss, not_found),
        ready(*old(em), rank(node.key), lo, hi),
    ensures
        final(em).wf(),
        final(em).listing@ == old(em).listing@ + seq![Item::Mark(Tag::Entry(rank(node.key)))]
            + dispatch(
            strategy,
            node.key.limbs(),
            rank(node.key),
            child_tag(node.left),
            child_tag(node.right),
        ),
        opened(
            *old(em),
            *final(em),
            rank(node.key),
            child_tag(node.left),
            child_tag(node.right),
            found,
        ),
{
    let ghost r = rank(node.key);
    proof {
        reveal(ready);
        old(em).lemma_unnamed_unmarked(Tag::Found(r));
    }
    // Get or create a label for the current node
    let self_label = em.get_or_create(rank_value(&node.key));
    let found_label = em.fresh(Ghost(Tag::Found(r)));

    // Define the entry point for this node's logic
    em.mark(self_label, Ghost(Tag::Entry(r)));
    let ghost e1 = *em;
    proof {
        assert(e1.names_label(Tag::Found(r), found_label));
        assert(e1.names_label(Tag::Miss, not_found));
        assert(e1.names@.contains_key(Tag::Entry(r)));
    }
    emit_dispatch(em, strategy, node, found_label, not_found);
    proof {
        reveal(opened);
        assert(em.names_label(Tag::Found(r), found_label));
        assert(em.names@.contains_key(Tag::Entry(r)));
        assert(em.listing@ =~= old(em).listing@ + seq![Item::Mark(Tag::Entry(r))] + dispatch(
            strategy,
            node.key.limbs(),
            r,
            child_tag(node.left),
            child_tag(node.right),
        ));
    }
    found_label
}

/// After the first lines of a block the emitter is ready for the block of
/// the left child.
proof fn lemma_ready_left(
    e0: Emitter,
    e2: Emitter,
    r: int,
    left: int,
    right: Tag,
    found: dynasmrt::DynamicLabel,
    lo: int,
    hi: int,
)
    requires
        e0.wf(),
        ready(e0, r, lo, hi),
        opened(e0, e2, r, Tag::Entry(left), right, found),
        lo < left < r < hi,
        !inside(right, lo, r),
    ensures
        ready(e2, left, lo, r),
{
    reveal(ready);
    reveal(opened);
    e0.lemma_unnamed_unmarked(Tag::Entry(left));
}

/// After the first lines of a block and the blocks of the left subtree the
/// emitter is ready for the block of the right child.
proof fn lemma_ready_right(
    e0: Emitter,
    e2: Emitter,
    e3: Emitter,
    r: int,
    left: Tag,
    right: int,
    found: dynasmrt::DynamicLabel,
    lo: int,
    hi: int,
    below: Set<int>,
)
    requires
        e0.wf(),
        ready(e0, r, lo, hi),
        opened(e0, e2, r, left, Tag::Entry(right), found),
        e3 == e2 || grown(e2, e3, lo, r, below),
        lo < r < right < hi,
        !inside(left, r, hi),
    ensures
        ready(e3, right, r, hi),
{
    reveal(ready);
    reveal(opened);
    reveal(grown);
    e0.lemma_unnamed_unmarked(Tag::Entry(right));
}

/// After the blocks of both subtrees the epilogue of the node can be marked.
proof fn lemma_ready_to_close(
    e2: Emitter,
    e3: Emitter,
    e4: Emitter,
    r: int,
    not_found: dynasmrt::DynamicLabel,
    found: dynasmrt::DynamicLabel,
    lo: int,
    hi: int,
    below: Set<int>,
    above: Set<int>,
)
    requires
        e2.names_label(Tag::Found(r), found),
        e2.names_label(Tag::Miss, not_found),
        address(e2.listing@, Tag::Found(r)).is_none(),
        e3 == e2 || grown(e2, e3, lo, r, below),
        e4 == e3 || grown(e3, e4, r, hi, above),
    ensures
        e3.names_label(Tag::Miss, not_found),
        e4.names_label(Tag::Miss, not_found),
        e4.names_label(Tag::Found(r), found),
        address(e4.listing@, Tag::Found(r)).is_none(),
{
    reveal(grown);
    assert(e3.names_label(Tag::Found(r), found));
}

/// A whole block continues the emitter by labels and marks of its own range,
/// and gives a label to the blocks of its subtree and to no other.
proof fn lemma_block_grown(
    e0: Emitter,
    e2: Emitter,
    e3: Emitter,
    e4: Emitter,
    e5: Emitter,
    r: int,
    left: Option<int>,
    right: Option<int>,
    found: dynasmrt::DynamicLabel,
    lo: int,
    hi: int,
    below: Set<int>,
    above: Set<int>,
)
    requires
        lo < r < hi,
        left.is_some() ==> lo < left.unwrap() < r && below.contains(left.unwrap()),
        right.is_some() ==> r < right.unwrap() < hi && above.contains(right.unwrap()),
        e0.names@.contains_key(Tag::Miss),
        opened(e0, e2, r, tag_of(left), tag_of(right), found),
        if left.is_some() {
            grown(e2, e3, lo, r, below)
        } else {
            e3 == e2 && below == Set::<int>::empty()
        },
        if right.is_some() {
            grown(e3, e4, r, hi, above)
        } else {
            e4 == e3 && above == Set::<int>::empty()
        },
        e5.names@ == e4.names@,
        e5.labels == e4.labels,
        forall|t: Tag|
            t != Tag::Found(r) ==> #[trigger] address(e5.listing@, t) == address(e4.listing@, t),
    ensures
        grown(e0, e5, lo, hi, below.union(above).insert(r)),
{
    reveal(opened);
    reveal(grown);
    let ranks = below.union(above).insert(r);
    assert forall|t: Tag| #[trigger] e5.names@.contains_key(t) implies e0.names@.contains_key(t)
        || inside(t, lo, hi) by {
        if e3.names@.contains_key(t) {
            if e2.names@.contains_key(t) {
            }
        }
    }
    assert forall|t: Tag| !inside(t, lo, hi) implies #[trigger] address(e5.listing@, t) == address(
        e0.listing@,
        t,
    ) by {
        assert(address(e4.listing@, t) == address(e3.listing@, t));
        assert(address(e3.listing@, t) == address(e2.listing@, t));
        assert(address(e2.listing@, t) == address(e0.listing@, t));
    }
    assert forall|t: Tag| #[trigger] e0.names@.contains_key(t) implies e5.names@.contains_key(t)
        && e5.names@[t] == e0.names@[t] by {
        assert(e2.names@.contains_key(t));
        assert(e3.names@.contains_key(t));
        assert(e4.names@.contains_key(t));
    }
    assert forall|k: i128| #[trigger] e0.labels.map@.contains_key(k) implies e5.labels.map@
        .contains_key(k) && e5.labels.map@[k] == e0.labels.map@[k] by {
        assert(e2.labels.map@.contains_key(k));
        assert(e3.labels.map@.contains_key(k));
        assert(e4.labels.map@.contains_key(k));
    }
    assert forall|x: int| #[trigger] e5.names@.contains_key(Tag::Entry(x)) implies e0.names@
        .contains_key(Tag::Entry(x)) || ranks.contains(x) by {
        if e3.names@.contains_key(Tag::Entry(x)) {
            if e2.names@.contains_key(Tag::Entry(x)) {
            }
        }
    }
    assert forall|x: int| #[trigger] ranks.contains(x) implies e5.names@.contains_key(
        Tag::Entry(x),
    ) by {
        if x == r {
            assert(e2.names@.contains_key(Tag::Entry(x)));
            assert(e3.names@.contains_key(Tag::Entry(x)));
            assert(e4.names@.contains_key(Tag::Entry(x)));
        } else if below.contains(x) {
            assert(e3.names@.contains_key(Tag::Entry(x)));
            assert(e4.names@.contains_key(Tag::Entry(x)));
        } else {
            assert(above.contains(x));
            assert(e4.names@.contains_key(Tag::Entry(x)));
        }
    }
}

/// Whether the label table of `after` holds, beside the entries of `before`,
/// which it has kept, an entry for each of `ranks` and no other; with the
/// labels of different ranks different, and none of them `not_found`.
pub open spec fn table_grown(
    before: Emitter,
    after: Emitter,
    ranks: Set<int>,
    not_found: dynasmrt::DynamicLabel,
) -> bool {
    &&& forall|k: i128| #[trigger]
        after.labels.map@.contains_key(k) <==> before.labels.map@.contains_key(k) || ranks.contains(
            k as int,
        )
    &&& forall|k: i128| #[trigger]
        before.labels.map@.contains_key(k) ==> after.labels.map@[k] == before.labels.map@[k]
    &&& forall|k: i128, j: i128|
        #![trigger after.labels.map@[k], after.labels.map@[j]]
        after.labels.map@.contains_key(k) && after.labels.map@.contains_key(j) && k != j
            ==> after.labels.map@[k] != after.labels.map@[j]
    &&& forall|k: i128| #[trigger]
        after.labels.map@.contains_key(k) ==> after.labels.map@[k] != not_found
}

/// What the growth of the names means for the label table.
proof fn lemma_table_grown(
    before: Emitter,
    after: Emitter,
    lo: int,
    hi: int,
    ranks: Set<int>,
    not_found: dynasmrt::DynamicLabel,
)
    requires
        before.wf(),
        after.wf(),
        grown(before, after, lo, hi, ranks),
        after.names_label(Tag::Miss, not_found),
    ensures
        table_grown(before, after, ranks, not_found),
{
    reveal(grown);
    before.lemma_table();
    after.lemma_table();
    assert forall|k: i128| #[trigger]
        after.labels.map@.contains_key(k) <==> before.labels.map@.contains_key(k) || ranks.contains(
            k as int,
        ) by {
        assert(after.names@.contains_key(Tag::Entry(k as int)) <==> after.labels.map@.contains_key(
            k,
        ));
        assert(before.names@.contains_key(Tag::Entry(k as int)) <==> before.labels.map@
            .contains_key(k));
    }
    assert forall|k: i128, j: i128|
        #![trigger after.labels.map@[k], after.labels.map@[j]]
        after.labels.map@.contains_key(k) && after.labels.map@.contains_key(j) && k != j
            implies after.labels.map@[k] != after.labels.map@[j] by {
        let t = Tag::Entry(k as int);
        let u = Tag::Entry(j as int);
        assert(after.names@.contains_key(t) && after.names@.contains_key(u));
        assert(t != u);
        assert(after.names@[t] != after.names@[u]);
    }
    assert forall|k: i128| #[trigger] after.labels.map@.contains_key(k) implies after.labels.map@[k]
        != not_found by {
        let t = Tag::Entry(k as int);
        assert(after.names@.contains_key(t));
        assert(after.names@[t] != after.names@[Tag::Miss]);
    }
}

/// Appends the block of `node` and of everything below it.
///
/// `lo` and `hi` bound the ranks of the keys under `node`. Afterwards the
/// label table holds the entries it held, unchanged, and one for each key
/// under `node`.
pub fn build_asm<K: Key>(
    em: &mut Emitter,
    strategy: Strategy,
    node: &Node<K, i32>,
    not_found: dynasmrt::DynamicLabel,
    Ghost(lo): Ghost<int>,
    Ghost(hi): Ghost<int>,
)
    requires
        old(em).wf(),
        search_tree(Some(Box::new(*node)), lo, hi),
        old(em).names_label(Tag::Miss, not_found),
        ready(*old(em), rank(node.key), lo, hi),
    ensures
        final(em).wf(),
        final(em).listing@ == old(em).listing@ + block(strategy, *node),
        grown(*old(em), *final(em), lo, hi, ranks_of(Some(Box::new(*node)))),
        table_grown(*old(em), *final(em), ranks_of(Some(Box::new(*node))), not_found),
    decreases node,
{
    let ghost r = rank(node.key);
    let ghost left = child_tag(node.left);
    let ghost right = child_tag(node.right);
    let ghost below = ranks_of(node.left);
    let ghost above = ranks_of(node.right);
    let ghost e0 = *em;
    proof {
        rank_properties(node.key, node.key);
        assert(search_tree(node.left, lo, r));
        assert(search_tree(node.right, r, hi));
        if node.left.is_some() {
            rank_properties(node.left.unwrap().key, node.key);
        }
        if node.right.is_some() {
            rank_properties(node.right.unwrap().key, node.key);
        }
    }
    let found_label = open_block(em, strategy, node, not_found, Ghost(lo), Ghost(hi));
    let ghost e2 = *em;
    proof {
        assert(e2.names_label(Tag::Miss, not_found) && e2.names_label(Tag::Found(r), found_label)
            && address(e2.listing@, Tag::Found(r)).is_none()) by {
            reveal(opened);
        }
    }

    // Recursively build assembly for children. Pre-order traversal is natural here.
    if let Some(left_child) = &node.left {
        proof {
            lemma_ready_left(e0, e2, r, rank(left_child.key), right, found_label, lo, hi);
        }
        build_asm(em, strategy, left_child, not_found, Ghost(lo), Ghost(r));
    }
    let ghost e3 = *em;
    proof {
        lemma_ready_to_close(e2, e3, e3, r, not_found, found_label, lo, hi, below, above);
        assert(e3.listing@ == e2.listing@ + subtree(strategy, node.left));
    }
    if let Some(right_child) = &node.right {
        proof {
            lemma_ready_right(
                e0,
                e2,
                e3,
                r,
                left,
                rank(right_child.key),
                found_label,
                lo,
                hi,
                below,
            );
        }
        build_asm(em, strategy, right_child, not_found, Ghost(r), Ghost(hi));
    }
    let ghost e4 = *em;
    proof {
        lemma_ready_to_close(e2, e3, e4, r, not_found, found_label, lo, hi, below, above);
        assert(e4.listing@ == e3.listing@ + subtree(strategy, node.right));
    }

    // If we jumped here, it means the key was equal.
    // Move the node's value into the return register and return.
    emit_epilogue(em, found_label, node.value, Ghost(Tag::Found(r)));
    proof {
        lemma_block_grown(
            e0,
            e2,
            e3,
            e4,
            *em,
            r,
            root_rank(node.left),
            root_rank(node.right),
            found_label,
            lo,
            hi,
            below,
            above,
        );
        lemma_table_grown(e0, *em, lo, hi, below.union(above).insert(r), not_found);
        assert(em.listing@ =~= e0.listing@ + block(strategy, *node));
    }
}

/// Appends the code of a whole tree to an empty emitter: the blocks of the
/// tree and, behind them, the not-found epilogue.
pub fn emit_program<K: Key>(em: &mut Emitter, strategy: Strategy, root: &Option<Box<Node<K, i32>>>)
    requires
        old(em).wf(),
        old(em).listing@ == Seq::<Item>::empty(),
        old(em).names@ == Map::<Tag, int>::empty(),
        is_search_tree(*root),
    ensures
        final(em).wf(),
        final(em).listing@ == program(strategy, *root),
        closed(final(em).listing@),
{
    // The label for the "not found" case
    let not_found_label = em.fresh(Ghost(Tag::Miss));
    let ghost e1 = *em;
    proof {
        assert(e1.names_label(Tag::Miss, not_found_label));
    }

    // Recursively build the assembly from the tree structure
    if let Some(node) = root {
        proof {
            reveal(ready);
        }
        build_asm(em, strategy, node, not_found_label, Ghost(rank_floor()), Ghost(rank_ceiling()));
    }
    let ghost e2 = *em;
    proof {
        reveal(grown);
        assert(e2.listing@ =~= subtree(strategy, *root));
        assert(e2.names_label(Tag::Miss, not_found_label));
    }

    // "Not found" block: move -1 into the return register (rax) and return
    emit_epilogue(em, not_found_label, -1, Ghost(Tag::Miss));
    proof {
        lemma_program_closed(strategy, *root);
    }
}

/// The emitter to compile with, if one could be made: no emitter means that
/// no executable memory could be mapped.
pub fn started(made: Option<Emitter>) -> (r: Result<Emitter, CompileError>)
    ensures
        made.is_some() ==> r == Ok::<Emitter, CompileError>(made.unwrap()),
        made.is_none() ==> r == Err::<Emitter, CompileError>(CompileError::Allocation),
{
    match made {
        Some(em) => Ok(em),
        None => Err(CompileError::Allocation),
    }
}

/// Whether code that ends at `end` is short enough for every jump in it to
/// reach its target with a 32-bit displacement.
pub fn check_size(end: dynasmrt::AssemblyOffset) -> (r: Result<(), CompileError>)
    ensures
        end.0 <= i32::MAX ==> r == Ok::<(), CompileError>(()),
        end.0 > i32::MAX ==> r == Err::<(), CompileError>(CompileError::TooLarge),
{
    if end.0 > 0x7FFF_FFFF {
        Err(CompileError::TooLarge)
    } else {
        Ok(())
    }
}

/// The outcome of a compilation whose assembler has been finished: the region
/// it handed out, paired with the offset `start` at which execution is to
/// begin.
pub fn conclude(region: Option<dynasmrt::ExecutableBuffer>, start: dynasmrt::AssemblyOffset) -> (r:
    Result<(dynasmrt::ExecutableBuffer, dynasmrt::AssemblyOffset), CompileError>)
    ensures
        region.is_some() ==> r == Ok::<
            (dynasmrt::ExecutableBuffer, dynasmrt::AssemblyOffset),
            CompileError,
        >((region.unwrap(), start)),
        region.is_none() ==> r == Err::<
            (dynasmrt::ExecutableBuffer, dynasmrt::AssemblyOffset),
            CompileError,
        >(CompileError::Finalize),
{
    match region {
        Some(region) => Ok((region, start)),
        None => Err(CompileError::Finalize),
    }
}

/// What a compilation of `root` may end in: a region that holds exactly the
/// machine code of the tree, entered at its first byte, for a tree whose code
/// a 32-bit displacement can span; `TooLarge` for any other tree; or, for
/// either, `Allocation` where no executable memory could be mapped.
pub open spec fn compiles_to<K: Key>(
    strategy: Strategy,
    root: Option<Box<Node<K, i32>>>,
    r: Result<(dynasmrt::ExecutableBuffer, dynasmrt::AssemblyOffset), CompileError>,
) -> bool {
    match r {
        Ok(pair) => {
            &&& region_bytes(pair.0) == machine_code(strategy, root)
            &&& pair.1.0 == 0
            &&& code_size(strategy, root) <= i32::MAX
        },
        Err(CompileError::TooLarge) => code_size(strategy, root) > i32::MAX,
        Err(CompileError::Finalize) => false,
        Err(CompileError::Allocation) => true,
    }
}

/// Compiles a tree with the emitter that was made for it, if one was made.
///
/// Without an emitter there was no memory: `Allocation`. With one, the tree
/// is compiled whenever its code is short enough for a 32-bit displacement,
/// and refused as `TooLarge` otherwise.
pub fn compile_on<K: Key>(
    made: Option<Emitter>,
    strategy: Strategy,
    root: &Option<Box<Node<K, i32>>>,
) -> (r: Result<(dynasmrt::ExecutableBuffer, dynasmrt::AssemblyOffset), CompileError>)
    requires
        is_search_tree(*root),
        made.is_some() ==> {
            &&& made.unwrap().wf()
            &&& made.unwrap().listing@ == Seq::<Item>::empty()
            &&& made.unwrap().names@ == Map::<Tag, int>::empty()
        },
    ensures
        compiles_to(strategy, *root, r),
        made.is_none() ==> r == Err::<
            (dynasmrt::ExecutableBuffer, dynasmrt::AssemblyOffset),
            CompileError,
        >(CompileError::Allocation),
        made.is_some() ==> (r.is_ok() <==> code_size(strategy, *root) <= i32::MAX),
        made.is_some() && r.is_err() ==> r == Err::<
            (dynasmrt::ExecutableBuffer, dynasmrt::AssemblyOffset),
            CompileError,
        >(CompileError::TooLarge),
{
    let mut em = match started(made) {
        Ok(em) => em,
        Err(e) => {
            return Err(e);
        },
    };
    let start = em.offset();
    emit_program(&mut em, strategy, root);
    proof {
        lemma_program_size(strategy, *root);
    }
    match check_size(em.offset()) {
        Ok(()) => {},
        Err(e) => {
            return Err(e);
        },
    }
    // Finalize the buffer
    conclude(em.finish(), start)
}

/// Compiles a tree into native code that performs the tree's search.
///
/// The region owns the code: the entry point may be called only while the
/// region is alive. The code returns -1 for a key that is not in the tree,
/// which cannot be told from a stored value of -1.
pub fn compile_tree<K: Key>(strategy: Strategy, root: &Option<Box<Node<K, i32>>>) -> (r: Result<
    (dynasmrt::ExecutableBuffer, dynasmrt::AssemblyOffset),
    CompileError,
>)
    requires
        is_search_tree(*root),
    ensures
        compiles_to(strategy, *root, r),
{
    compile_on(Emitter::new(), strategy, root)
}

} // verus!
