//! Native lookup code for trees with 32-bit integer keys.

use crate::assembler::region_bytes;
use crate::avl::{find, is_search_tree, Node};
use crate::codegen::{compile_tree, compiles_to, CompileError};
use crate::key::Key;
use crate::laws::{compiled_code_searches, lemma_scalar_suits};
use crate::machine::{answer, Machine};
use crate::program::Strategy;
use crate::search::outcome;
use vstd::prelude::*;

verus! {

/// Compiles a tree of 32-bit keys. The code takes the key by value in the
/// first integer argument register and returns the value stored for it, or
/// -1 if the tree does not hold the key.
///
/// Returns the region that owns the code and the offset of the entry point
/// in it. The region must outlive every call through the entry point.
pub fn compile(root: &Option<Box<Node<i32, i32>>>) -> (r: Result<
    (dynasmrt::ExecutableBuffer, dynasmrt::AssemblyOffset),
    CompileError,
>)
    requires
        is_search_tree(*root),
    ensures
        compiles_to(Strategy::Scalar, *root, r),
        r.is_ok() ==> forall|probe: i32, registers: Machine| #[trigger]
            answer(region_bytes(r.unwrap().0), probe.limbs(), registers) == Some(
                outcome(find(*root, probe)),
            ),
{
    let r = compile_tree(Strategy::Scalar, root);
    proof {
        lemma_scalar_suits(Strategy::Scalar);
        if r.is_ok() {
            assert forall|probe: i32, registers: Machine| #[trigger]
                answer(region_bytes(r.unwrap().0), probe.limbs(), registers) == Some(
                    outcome(find(*root, probe)),
                ) by {
                compiled_code_searches(Strategy::Scalar, *root, r, probe, registers);
            }
        }
    }
    r
}

} // verus!
