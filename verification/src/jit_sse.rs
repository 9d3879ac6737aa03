//! Native lookup code for trees with sixteen-byte keys.

use crate::assembler::region_bytes;
use crate::avl::{find, is_search_tree, Node};
use crate::codegen::{compile_tree, compiles_to, CompileError};
use crate::key::Key;
use crate::laws::{compiled_code_searches, lemma_wide_suits};
use crate::machine::{answer, Machine};
use crate::program::Strategy;
use crate::search::outcome;
use vstd::prelude::*;

verus! {

/// Compiles a tree of sixteen-byte keys into code that compares keys limb by
/// limb in general-purpose registers. The code takes a pointer to the sixteen
/// bytes of the key in the first argument register and returns the value
/// stored for the key, or -1 if the tree does not hold it.
///
/// Returns the region that owns the code and the offset of the entry point
/// in it. The region must outlive every call through the entry point.
pub fn compile_scalar(root: &Option<Box<Node<[u8; 16], i32>>>) -> (r: Result<
    (dynasmrt::ExecutableBuffer, dynasmrt::AssemblyOffset),
    CompileError,
>)
    requires
        is_search_tree(*root),
    ensures
        compiles_to(Strategy::TwoLimb, *root, r),
        r.is_ok() ==> forall|probe: [u8; 16], registers: Machine| #[trigger]
            answer(region_bytes(r.unwrap().0), probe.limbs(), registers) == Some(
                outcome(find(*root, probe)),
            ),
{
    let r = compile_tree(Strategy::TwoLimb, root);
    proof {
        lemma_wide_suits(Strategy::TwoLimb);
        if r.is_ok() {
            assert forall|probe: [u8; 16], registers: Machine| #[trigger]
                answer(region_bytes(r.unwrap().0), probe.limbs(), registers) == Some(
                    outcome(find(*root, probe)),
                ) by {
                compiled_code_searches(Strategy::TwoLimb, *root, r, probe, registers);
            }
        }
    }
    r
}

/// Compiles a tree of sixteen-byte keys into code that tests for equality
/// with one vector comparison and falls back to comparing limb by limb to
/// choose a side. Arguments and result are those of `compile_scalar`.
pub fn compile_sse(root: &Option<Box<Node<[u8; 16], i32>>>) -> (r: Result<
    (dynasmrt::ExecutableBuffer, dynasmrt::AssemblyOffset),
    CompileError,
>)
    requires
        is_search_tree(*root),
    ensures
        compiles_to(Strategy::VectorEq, *root, r),
        r.is_ok() ==> forall|probe: [u8; 16], registers: Machine| #[trigger]
            answer(region_bytes(r.unwrap().0), probe.limbs(), registers) == Some(
                outcome(find(*root, probe)),
            ),
{
    let r = compile_tree(Strategy::VectorEq, root);
    proof {
        lemma_wide_suits(Strategy::VectorEq);
        if r.is_ok() {
            assert forall|probe: [u8; 16], registers: Machine| #[trigger]
                answer(region_bytes(r.unwrap().0), probe.limbs(), registers) == Some(
                    outcome(find(*root, probe)),
                ) by {
                compiled_code_searches(Strategy::VectorEq, *root, r, probe, registers);
            }
        }
    }
    r
}

} // verus!
