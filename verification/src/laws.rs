//! The generated code performs the search of the tree it was generated from.

use crate::assembler::region_bytes;
use crate::avl::{entries, find, is_search_tree, lemma_find_is_get, size, Node};
use crate::codegen::{compiles_to, CompileError};
use crate::key::{rank_ceiling, rank_floor, Key};
use crate::linking::{lemma_assemble_is_linked, lemma_offset_next};
use crate::machine::{answer, Machine};
use crate::program::{code_size, machine_code, node_bytes, program, suits, Strategy};
use crate::search::{
    lemma_empty_program_runs, lemma_program_runs, lemma_subtree_lines, node_lines, outcome,
};
use crate::simulation::{at_address, lemma_simulation};
use crate::size::lemma_program_size;
use crate::targets::lemma_program_closed;
use vstd::prelude::*;

verus! {

/// The scalar strategy suits every 32-bit key.
pub proof fn lemma_scalar_suits(strategy: Strategy)
    ensures
        forall|k: i32| suits(strategy, #[trigger] k.limbs()),
{
}

/// The two strategies for sixteen-byte keys suit every such key.
pub proof fn lemma_wide_suits(strategy: Strategy)
    requires
        strategy != Strategy::Scalar,
    ensures
        forall|k: [u8; 16]| suits(strategy, #[trigger] k.limbs()),
{
}

/// The machine code of a search tree returns, for every key, the value that
/// the search of the tree finds for it, and -1 where the search finds none;
/// whatever the registers hold when the code is entered.
pub proof fn lookup_equivalence<K: Key>(
    strategy: Strategy,
    root: Option<Box<Node<K, i32>>>,
    probe: K,
    registers: Machine,
)
    requires
        is_search_tree(root),
        forall|k: K| suits(strategy, #[trigger] k.limbs()),
        code_size(strategy, root) <= i32::MAX,
    ensures
        answer(machine_code(strategy, root), probe.limbs(), registers) == Some(
            outcome(find(root, probe)),
        ),
{
    let listing = program(strategy, root);
    let code = machine_code(strategy, root);
    let m = Machine { pc: 0, input: probe.limbs(), ..registers };
    lemma_program_closed(strategy, root);
    lemma_program_size(strategy, root);
    lemma_assemble_is_linked(listing);
    lemma_subtree_lines(strategy, root);
    assert(node_lines(strategy) * size(root) <= node_bytes(strategy) * size(root))
        by (nonlinear_arith)
        requires
            node_lines(strategy) <= node_bytes(strategy),
    ;
    lemma_program_runs(strategy, root, probe, m, code.len());
    lemma_simulation(listing, m, code.len(), outcome(find(root, probe)));
    lemma_offset_next(listing, 0);
    assert(at_address(listing, m) == m);
}

/// For every key that a search tree holds, the machine code of the tree
/// returns the value stored for that key.
pub proof fn present_key_returns_value<K: Key>(
    strategy: Strategy,
    root: Option<Box<Node<K, i32>>>,
    probe: K,
    registers: Machine,
)
    requires
        is_search_tree(root),
        forall|k: K| suits(strategy, #[trigger] k.limbs()),
        code_size(strategy, root) <= i32::MAX,
        entries(root).contains_key(probe),
    ensures
        answer(machine_code(strategy, root), probe.limbs(), registers) == Some(
            entries(root)[probe],
        ),
{
    lookup_equivalence(strategy, root, probe, registers);
    lemma_find_is_get(root, rank_floor(), rank_ceiling(), probe);
}

/// For every key that a search tree does not hold, the machine code of the
/// tree returns -1.
pub proof fn absent_key_returns_sentinel<K: Key>(
    strategy: Strategy,
    root: Option<Box<Node<K, i32>>>,
    probe: K,
    registers: Machine,
)
    requires
        is_search_tree(root),
        forall|k: K| suits(strategy, #[trigger] k.limbs()),
        code_size(strategy, root) <= i32::MAX,
        !entries(root).contains_key(probe),
    ensures
        answer(machine_code(strategy, root), probe.limbs(), registers) == Some(-1i32),
{
    lookup_equivalence(strategy, root, probe, registers);
    lemma_find_is_get(root, rank_floor(), rank_ceiling(), probe);
}

/// The machine code of the empty tree returns -1 for every input.
pub proof fn empty_tree_returns_sentinel<K: Key>(
    strategy: Strategy,
    input: (i64, i64),
    registers: Machine,
)
    ensures
        answer(machine_code::<K>(strategy, None), input, registers) == Some(-1i32),
{
    let listing = program::<K>(strategy, None);
    let code = machine_code::<K>(strategy, None);
    let m = Machine { pc: 0, input, ..registers };
    lemma_program_closed::<K>(strategy, None);
    lemma_program_size::<K>(strategy, None);
    lemma_assemble_is_linked(listing);
    assert(size::<K, i32>(None) == 0);
    lemma_empty_program_runs::<K>(strategy, m, code.len());
    lemma_simulation(listing, m, code.len(), -1i32);
    lemma_offset_next(listing, 0);
    assert(at_address(listing, m) == m);
}

/// For one tree of sixteen-byte keys, the machine code of the two-limb
/// strategy and that of the vector strategy return the same for every key.
pub proof fn strategies_agree(
    root: Option<Box<Node<[u8; 16], i32>>>,
    probe: [u8; 16],
    first: Machine,
    second: Machine,
)
    requires
        is_search_tree(root),
        code_size(Strategy::VectorEq, root) <= i32::MAX,
    ensures
        answer(machine_code(Strategy::TwoLimb, root), probe.limbs(), first) == answer(
            machine_code(Strategy::VectorEq, root),
            probe.limbs(),
            second,
        ),
{
    lemma_wide_suits(Strategy::TwoLimb);
    lemma_wide_suits(Strategy::VectorEq);
    assert(node_bytes(Strategy::TwoLimb) * size(root) <= node_bytes(Strategy::VectorEq) * size(
        root,
    )) by (nonlinear_arith);
    lookup_equivalence(Strategy::TwoLimb, root, probe, first);
    lookup_equivalence(Strategy::VectorEq, root, probe, second);
}

/// Two compilations of one tree that both succeed yield regions that hold
/// the same code, entered at the same offset, and so return the same for
/// every input; and if one finds the tree too large, the other does not
/// succeed.
pub proof fn compilation_is_deterministic<K: Key>(
    strategy: Strategy,
    root: Option<Box<Node<K, i32>>>,
    first: Result<(dynasmrt::ExecutableBuffer, dynasmrt::AssemblyOffset), CompileError>,
    second: Result<(dynasmrt::ExecutableBuffer, dynasmrt::AssemblyOffset), CompileError>,
)
    requires
        compiles_to(strategy, root, first),
        compiles_to(strategy, root, second),
    ensures
        first.is_ok() && second.is_ok() ==> {
            &&& region_bytes(first.unwrap().0) == region_bytes(second.unwrap().0)
            &&& first.unwrap().1 == second.unwrap().1
            &&& forall|input: (i64, i64), registers: Machine|
                answer(region_bytes(first.unwrap().0), input, registers) == answer(
                    region_bytes(second.unwrap().0),
                    input,
                    registers,
                )
        },
        first == Err::<(dynasmrt::ExecutableBuffer, dynasmrt::AssemblyOffset), CompileError>(
            CompileError::TooLarge,
        ) ==> second.is_err(),
{
}

/// What a successful compilation hands out performs the search of the tree:
/// entered at the offset it comes with, the region returns for every key the
/// value that the search of the tree finds for it, and -1 where the search
/// finds none.
pub proof fn compiled_code_searches<K: Key>(
    strategy: Strategy,
    root: Option<Box<Node<K, i32>>>,
    compiled: Result<(dynasmrt::ExecutableBuffer, dynasmrt::AssemblyOffset), CompileError>,
    probe: K,
    registers: Machine,
)
    requires
        is_search_tree(root),
        forall|k: K| suits(strategy, #[trigger] k.limbs()),
        compiles_to(strategy, root, compiled),
        compiled.is_ok(),
    ensures
        compiled.unwrap().1.0 == 0,
        answer(region_bytes(compiled.unwrap().0), probe.limbs(), registers) == Some(
            outcome(find(root, probe)),
        ),
{
    lookup_equivalence(strategy, root, probe, registers);
}

} // verus!
