//! The dynasmrt assembler as the code generator sees it.
//!
//! Nothing in this file is proved. Each function states what one call into
//! dynasmrt does to an assembler, in terms of the bytes pushed into it, its
//! table of dynamic labels and the relocations it has recorded.

use crate::listing::patch_all;
use dynasmrt::{DynasmApi, DynasmLabelApi};
use vstd::prelude::*;

verus! {

/// An x86-64 assembler of dynasmrt while code is pushed into it.
///
/// The assembler is generic over a relocation trait that cannot be declared
/// to the verifier, so it is held behind a struct that the verifier does not
/// look into. The spec functions below say what it holds.
#[verifier::external_body]
pub struct X64Assembler {
    ops: dynasmrt::x64::Assembler,
}

#[verifier::external_type_specification]
#[verifier::external_body]
pub struct ExDynamicLabel(dynasmrt::DynamicLabel);

#[verifier::external_type_specification]
#[verifier::external_body]
pub struct ExExecutableBuffer(dynasmrt::ExecutableBuffer);

#[verifier::external_type_specification]
pub struct ExAssemblyOffset(dynasmrt::AssemblyOffset);

/// The bytes pushed into an assembler so far.
pub uninterp spec fn emitted_code(ops: X64Assembler) -> Seq<u8>;

/// The table of dynamic labels of an assembler: entry `i` belongs to the
/// label with identifier `i` and holds the offset the label was defined at,
/// if it has been defined.
pub uninterp spec fn label_slots(ops: X64Assembler) -> Seq<Option<int>>;

/// The relocations recorded in an assembler and not yet resolved, in the
/// order they were recorded: for each, the offset at which its four-byte
/// field ends and the identifier of the dynamic label it refers to.
pub uninterp spec fn pending_relocs(ops: X64Assembler) -> Seq<(int, int)>;

/// Whether an assembler is as the functions of this file leave it: no error
/// is recorded in it, nothing has been committed, every relocation it holds
/// is one of `pending_relocs`, and no reader of its region has been handed
/// out.
pub uninterp spec fn intact(ops: X64Assembler) -> bool;

/// The identifier of a dynamic label: its index in the table of the
/// assembler that created it.
pub uninterp spec fn label_id(label: dynasmrt::DynamicLabel) -> int;

/// The bytes of a finished executable region.
pub uninterp spec fn region_bytes(region: dynasmrt::ExecutableBuffer) -> Seq<u8>;

/// The fields to fill in when an assembler is finished: each pending
/// relocation with the offset its label was defined at.
pub open spec fn resolved(relocs: Seq<(int, int)>, slots: Seq<Option<int>>) -> Seq<(int, int)> {
    Seq::new(relocs.len(), |i: int| (relocs[i].0, slots[relocs[i].1].unwrap()))
}

/// Whether every pending relocation can be resolved: its field lies inside
/// the code, its label has been defined, and the distance from the end of the
/// field to the label fits in 32 bits.
pub open spec fn resolvable(code: Seq<u8>, relocs: Seq<(int, int)>, slots: Seq<Option<int>>) -> bool {
    forall|i: int|
        0 <= i < relocs.len() ==> {
            let r = #[trigger] relocs[i];
            &&& 4 <= r.0 <= code.len()
            &&& 0 <= r.1 < slots.len()
            &&& slots[r.1].is_some()
            &&& i32::MIN <= slots[r.1].unwrap() - r.0 <= i32::MAX
        }
}

/// `dynasmrt::x64::Assembler::new`: a fresh assembler holds no code, no label
/// and no relocation. `None` when the executable memory cannot be mapped.
#[verifier::external_body]
pub(crate) fn assembler_new() -> (made: Option<X64Assembler>)
    ensures
        made.is_some() ==> {
            &&& intact(made.unwrap())
            &&& emitted_code(made.unwrap()) == Seq::<u8>::empty()
            &&& label_slots(made.unwrap()) == Seq::<Option<int>>::empty()
            &&& pending_relocs(made.unwrap()) == Seq::<(int, int)>::empty()
        },
{
    match dynasmrt::x64::Assembler::new() {
        Ok(ops) => Some(X64Assembler { ops }),
        Err(_) => None,
    }
}

/// `DynasmApi::offset`: the current offset is the number of bytes pushed so far.
#[verifier::external_body]
pub(crate) fn assembler_offset(ops: &X64Assembler) -> (at: dynasmrt::AssemblyOffset)
    requires
        intact(*ops),
    ensures
        at.0 == emitted_code(*ops).len(),
{
    ops.ops.offset()
}

/// `Assembler::new_dynamic_label`: appends an undefined entry to the label
/// table and returns the label whose identifier is the index of that entry.
#[verifier::external_body]
pub(crate) fn assembler_new_label(ops: &mut X64Assembler) -> (label: dynasmrt::DynamicLabel)
    ensures
        label_id(label) == label_slots(*old(ops)).len(),
        label_slots(*final(ops)) == label_slots(*old(ops)).push(None),
        emitted_code(*final(ops)) == emitted_code(*old(ops)),
        pending_relocs(*final(ops)) == pending_relocs(*old(ops)),
        intact(*final(ops)) == intact(*old(ops)),
{
    ops.ops.new_dynamic_label()
}

/// `DynasmLabelApi::dynamic_label`: defines a label of the table that is not
/// yet defined at the current offset. (Defining a label twice, or one that is
/// not in the table, records an error; those calls are left out.)
#[verifier::external_body]
pub(crate) fn assembler_define(ops: &mut X64Assembler, label: dynasmrt::DynamicLabel)
    requires
        intact(*old(ops)),
        0 <= label_id(label) < label_slots(*old(ops)).len(),
        label_slots(*old(ops))[label_id(label)].is_none(),
    ensures
        label_slots(*final(ops)) == label_slots(*old(ops)).update(
            label_id(label),
            Some(emitted_code(*old(ops)).len() as int),
        ),
        emitted_code(*final(ops)) == emitted_code(*old(ops)),
        pending_relocs(*final(ops)) == pending_relocs(*old(ops)),
        intact(*final(ops)),
{
    ops.ops.dynamic_label(label)
}

/// `Extend::extend`: appends the bytes to the code.
#[verifier::external_body]
pub(crate) fn assembler_extend(ops: &mut X64Assembler, bytes: &[u8])
    ensures
        emitted_code(*final(ops)) == emitted_code(*old(ops)) + bytes@,
        label_slots(*final(ops)) == label_slots(*old(ops)),
        pending_relocs(*final(ops)) == pending_relocs(*old(ops)),
        intact(*final(ops)) == intact(*old(ops)),
{
    ops.ops.extend(bytes)
}

/// `DynasmLabelApi::dynamic_reloc` for a relative 32-bit field that ends at
/// the current offset and is measured from there: records the relocation
/// behind those already recorded.
#[verifier::external_body]
pub(crate) fn assembler_reloc(ops: &mut X64Assembler, label: dynasmrt::DynamicLabel)
    requires
        intact(*old(ops)),
    ensures
        pending_relocs(*final(ops)) == pending_relocs(*old(ops)).push(
            (emitted_code(*old(ops)).len() as int, label_id(label)),
        ),
        emitted_code(*final(ops)) == emitted_code(*old(ops)),
        label_slots(*final(ops)) == label_slots(*old(ops)),
        intact(*final(ops)),
{
    ops.ops.dynamic_reloc(label, 0, 4, 0, 2)
}

/// `Assembler::finalize`: resolves the pending relocations in the order they
/// were recorded, each by writing into its field the distance from the end of
/// the field to its label, and hands the code over as an executable region.
/// The region always comes: `finalize` gives the assembler back in its place
/// only while a reader of the region exists, and an intact assembler has
/// handed out none. (An unresolvable relocation makes `finalize` panic; those
/// calls are left out.)
#[verifier::external_body]
pub(crate) fn assembler_finalize(ops: X64Assembler) -> (region: Option<dynasmrt::ExecutableBuffer>)
    requires
        intact(ops),
        resolvable(emitted_code(ops), pending_relocs(ops), label_slots(ops)),
    ensures
        region.is_some(),
        region_bytes(region.unwrap()) == patch_all(
            emitted_code(ops),
            resolved(pending_relocs(ops), label_slots(ops)),
        ),
{
    match ops.ops.finalize() {
        Ok(region) => Some(region),
        Err(_) => None,
    }
}

} // verus!
