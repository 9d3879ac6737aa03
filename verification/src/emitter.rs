//! An assembler together with the listing of what has been pushed into it.

use crate::assembler::{
    assembler_define, assembler_extend, assembler_finalize, assembler_new, assembler_new_label,
    assembler_offset, assembler_reloc, emitted_code, intact, label_id, label_slots,
    pending_relocs, region_bytes, resolved, X64Assembler,
};
use crate::listing::{
    address, assemble, closed, encoding, jumps, lemma_addresses_in_range, lemma_push,
    raw, sites, target, Item, Op, Tag,
};
use std::collections::HashMap;
use vstd::prelude::*;

verus! {

broadcast use vstd::std_specs::hash::group_hash_axioms;

/// The labels of the node blocks of one compilation, by the rank of the
/// node's key. A rank gets its label when it is first asked for.
pub struct LabelTable {
    pub map: HashMap<i128, dynasmrt::DynamicLabel>,
}

impl LabelTable {
    /// A table without labels.
    pub fn new() -> (table: LabelTable)
        ensures
            table.map@ == Map::<i128, dynasmrt::DynamicLabel>::empty(),
    {
        LabelTable { map: HashMap::new() }
    }

    /// The label recorded for `key`; where there is none, a new label of the
    /// assembler, which is then recorded. A key keeps its label: asking again
    /// returns the same one and changes nothing.
    pub fn get_or_create(&mut self, ops: &mut X64Assembler, key: i128) -> (label:
        dynasmrt::DynamicLabel)
        ensures
            final(self).map@.contains_key(key),
            final(self).map@[key] == label,
            old(self).map@.contains_key(key) ==> {
                &&& final(self).map@ == old(self).map@
                &&& *final(ops) == *old(ops)
            },
            !old(self).map@.contains_key(key) ==> {
                &&& final(self).map@ == old(self).map@.insert(key, label)
                &&& label_id(label) == label_slots(*old(ops)).len()
                &&& label_slots(*final(ops)) == label_slots(*old(ops)).push(None)
                &&& emitted_code(*final(ops)) == emitted_code(*old(ops))
                &&& pending_relocs(*final(ops)) == pending_relocs(*old(ops))
                &&& intact(*final(ops)) == intact(*old(ops))
            },
    {
        let known = match self.map.get(&key) {
            Some(label) => Some(*label),
            None => None,
        };
        match known {
            Some(label) => label,
            None => {
                let label = assembler_new_label(ops);
                self.map.insert(key, label);
                label
            },
        }
    }
}

/// An assembler, the listing it holds and the dynamic label that stands for
/// each tag of the listing.
pub struct Emitter {
    pub ops: X64Assembler,
    pub labels: LabelTable,
    pub listing: Ghost<Seq<Item>>,
    pub names: Ghost<Map<Tag, int>>,
}

impl Emitter {
    /// The assembler holds exactly the listing: its code is the listing's raw
    /// bytes, its relocations are the listing's jumps, and each named tag owns
    /// one label, defined where the listing marks the tag.
    pub closed spec fn wf(&self) -> bool {
        &&& intact(self.ops)
        &&& emitted_code(self.ops) == raw(self.listing@)
        &&& pending_relocs(self.ops).len() == jumps(self.listing@).len()
        &&& forall|i: int|
            0 <= i < jumps(self.listing@).len() ==> {
                let j = #[trigger] jumps(self.listing@)[i];
                &&& self.names@.contains_key(j.1)
                &&& pending_relocs(self.ops)[i] == (j.0, self.names@[j.1])
            }
        &&& forall|t: Tag| #[trigger]
            self.names@.contains_key(t) ==> {
                &&& 0 <= self.names@[t] < label_slots(self.ops).len()
                &&& label_slots(self.ops)[self.names@[t]] == address(self.listing@, t)
            }
        &&& forall|t: Tag, u: Tag|
            #![trigger self.names@[t], self.names@[u]]
            self.names@.contains_key(t) && self.names@.contains_key(u) && self.names@[t]
                == self.names@[u] ==> t == u
        &&& forall|t: Tag|
            (#[trigger] address(self.listing@, t)).is_some() ==> self.names@.contains_key(t)
        &&& forall|k: i128|
            #![trigger self.labels.map@.contains_key(k)]
            #![trigger self.names@.contains_key(Tag::Entry(k as int))]
            {
                &&& self.labels.map@.contains_key(k) <==> self.names@.contains_key(
                    Tag::Entry(k as int),
                )
                &&& self.labels.map@.contains_key(k) ==> label_id(self.labels.map@[k])
                    == self.names@[Tag::Entry(k as int)]
            }
    }

    /// `self` continues `before`: every tag has kept its label, and so has
    /// every key of the label table.
    pub open spec fn extends(&self, before: &Emitter) -> bool {
        &&& forall|t: Tag| #[trigger]
            before.names@.contains_key(t) ==> self.names@.contains_key(t) && self.names@[t]
                == before.names@[t]
        &&& forall|k: i128| #[trigger]
            before.labels.map@.contains_key(k) ==> self.labels.map@.contains_key(k)
                && self.labels.map@[k] == before.labels.map@[k]
    }

    /// The label table holds the labels of the node blocks: a rank has an
    /// entry exactly when the block of that rank has a label, and the entry
    /// is that label.
    pub open spec fn tabled(&self) -> bool {
        forall|k: i128|
            #![trigger self.labels.map@.contains_key(k)]
            #![trigger self.names@.contains_key(Tag::Entry(k as int))]
            {
                &&& self.labels.map@.contains_key(k) <==> self.names@.contains_key(
                    Tag::Entry(k as int),
                )
                &&& self.labels.map@.contains_key(k) ==> label_id(self.labels.map@[k])
                    == self.names@[Tag::Entry(k as int)]
            }
    }

    /// Whether no two tags share a label.
    pub open spec fn distinct(&self) -> bool {
        forall|t: Tag, u: Tag|
            #![trigger self.names@[t], self.names@[u]]
            self.names@.contains_key(t) && self.names@.contains_key(u) && self.names@[t]
                == self.names@[u] ==> t == u
    }

    /// In a well-formed emitter the label table holds the labels of the node
    /// blocks, and no two tags share a label.
    pub proof fn lemma_table(&self)
        requires
            self.wf(),
        ensures
            self.tabled(),
            self.distinct(),
    {
    }

    /// A tag that has no label is not marked.
    pub proof fn lemma_unnamed_unmarked(&self, tag: Tag)
        requires
            self.wf(),
            !self.names@.contains_key(tag),
        ensures
            address(self.listing@, tag).is_none(),
    {
    }

    /// Whether `label` is the label that stands for `tag`.
    pub open spec fn names_label(&self, tag: Tag, label: dynasmrt::DynamicLabel) -> bool {
        self.names@.contains_key(tag) && self.names@[tag] == label_id(label)
    }

    /// An emitter around a fresh assembler, or `None` when no executable
    /// memory can be had.
    pub fn new() -> (made: Option<Emitter>)
        ensures
            made.is_some() ==> {
                &&& made.unwrap().wf()
                &&& made.unwrap().listing@ == Seq::<Item>::empty()
                &&& made.unwrap().names@ == Map::<Tag, int>::empty()
            },
    {
        Emitter::around(assembler_new())
    }

    /// The emitter around the assembler that was made, if one was made: it
    /// holds that assembler, an empty label table and an empty listing. No
    /// assembler gives no emitter.
    pub fn around(made: Option<X64Assembler>) -> (r: Option<Emitter>)
        requires
            made.is_some() ==> {
                &&& intact(made.unwrap())
                &&& emitted_code(made.unwrap()) == Seq::<u8>::empty()
                &&& label_slots(made.unwrap()) == Seq::<Option<int>>::empty()
                &&& pending_relocs(made.unwrap()) == Seq::<(int, int)>::empty()
            },
        ensures
            made.is_none() ==> r.is_none(),
            made.is_some() ==> {
                &&& r.is_some()
                &&& r.unwrap().ops == made.unwrap()
                &&& r.unwrap().labels.map@ == Map::<i128, dynasmrt::DynamicLabel>::empty()
                &&& r.unwrap().listing@ == Seq::<Item>::empty()
                &&& r.unwrap().names@ == Map::<Tag, int>::empty()
                &&& r.unwrap().wf()
            },
    {
        match made {
            Some(ops) => Some(
                Emitter {
                    ops,
                    labels: LabelTable::new(),
                    listing: Ghost(Seq::empty()),
                    names: Ghost(Map::empty()),
                },
            ),
            None => None,
        }
    }

    /// The offset at which the next byte will be placed.
    pub fn offset(&self) -> (at: dynasmrt::AssemblyOffset)
        requires
            self.wf(),
        ensures
            at.0 == raw(self.listing@).len(),
    {
        assembler_offset(&self.ops)
    }

    /// The label of the block of the node whose key has rank `key`: the one
    /// recorded for that rank, or a new one, which is then recorded.
    pub fn get_or_create(&mut self, key: i128) -> (label: dynasmrt::DynamicLabel)
        requires
            old(self).wf(),
        ensures
            final(self).wf(),
            final(self).listing@ == old(self).listing@,
            final(self).names_label(Tag::Entry(key as int), label),
            final(self).names@ == if old(self).names@.contains_key(Tag::Entry(key as int)) {
                old(self).names@
            } else {
                old(self).names@.insert(Tag::Entry(key as int), label_id(label))
            },
            final(self).labels.map@ == if old(self).labels.map@.contains_key(key) {
                old(self).labels.map@
            } else {
                old(self).labels.map@.insert(key, label)
            },
            final(self).labels.map@[key] == label,
            final(self).extends(old(self)),
    {
        let label = self.labels.get_or_create(&mut self.ops, key);
        proof {
            if !old(self).labels.map@.contains_key(key) {
                self.names@ = self.names@.insert(Tag::Entry(key as int), label_id(label));
            }
        }
        label
    }

    /// Creates the label that stands for `tag` from now on. `tag` is not the
    /// tag of a node's block: those come from `get_or_create`.
    pub fn fresh(&mut self, Ghost(tag): Ghost<Tag>) -> (label: dynasmrt::DynamicLabel)
        requires
            old(self).wf(),
            !old(self).names@.contains_key(tag),
            !(tag is Entry),
        ensures
            final(self).wf(),
            final(self).listing@ == old(self).listing@,
            final(self).names@ == old(self).names@.insert(tag, label_id(label)),
            final(self).labels == old(self).labels,
            final(self).extends(old(self)),
            address(final(self).listing@, tag).is_none(),
    {
        let label = assembler_new_label(&mut self.ops);
        proof {
            self.names@ = self.names@.insert(tag, label_id(label));
        }
        label
    }

    /// Marks `tag` at the current offset by defining its label there.
    pub fn mark(&mut self, label: dynasmrt::DynamicLabel, Ghost(tag): Ghost<Tag>)
        requires
            old(self).wf(),
            old(self).names_label(tag, label),
            address(old(self).listing@, tag).is_none(),
        ensures
            final(self).wf(),
            final(self).listing@ == old(self).listing@.push(Item::Mark(tag)),
            final(self).names@ == old(self).names@,
            final(self).labels == old(self).labels,
            final(self).extends(old(self)),
            address(final(self).listing@, tag).is_some(),
            forall|t: Tag|
                t != tag ==> #[trigger] address(final(self).listing@, t) == address(
                    old(self).listing@,
                    t,
                ),
    {
        assembler_define(&mut self.ops, label);
        proof {
            lemma_push(self.listing@, Item::Mark(tag));
            let longer = self.listing@.push(Item::Mark(tag));
            assert(raw(longer) =~= raw(self.listing@));
            self.listing@ = longer;
        }
    }

    /// Pushes the encoding of an instruction that is not a jump.
    pub fn plain(&mut self, code: &[u8], Ghost(op): Ghost<Op>)
        requires
            old(self).wf(),
            code@ =~= encoding(op),
            target(op).is_none(),
        ensures
            final(self).wf(),
            final(self).listing@ == old(self).listing@.push(Item::Code(op)),
            final(self).names@ == old(self).names@,
            final(self).labels == old(self).labels,
            final(self).extends(old(self)),
            forall|t: Tag| #[trigger]
                address(final(self).listing@, t) == address(old(self).listing@, t),
    {
        assembler_extend(&mut self.ops, code);
        proof {
            lemma_push(self.listing@, Item::Code(op));
            let longer = self.listing@.push(Item::Code(op));
            self.listing@ = longer;
        }
    }

    /// Pushes the encoding of a jump and records that its displacement is to
    /// lead to `label`.
    pub fn jump(&mut self, code: &[u8], label: dynasmrt::DynamicLabel, Ghost(op): Ghost<Op>)
        requires
            old(self).wf(),
            code@ =~= encoding(op),
            target(op).is_some(),
            old(self).names_label(target(op).unwrap(), label),
        ensures
            final(self).wf(),
            final(self).listing@ == old(self).listing@.push(Item::Code(op)),
            final(self).names@ == old(self).names@,
            final(self).labels == old(self).labels,
            final(self).extends(old(self)),
            forall|t: Tag| #[trigger]
                address(final(self).listing@, t) == address(old(self).listing@, t),
    {
        assembler_extend(&mut self.ops, code);
        assembler_reloc(&mut self.ops, label);
        proof {
            lemma_push(self.listing@, Item::Code(op));
            let longer = self.listing@.push(Item::Code(op));
            self.listing@ = longer;
        }
    }

    /// Resolves every jump and hands the code over as an executable region.
    /// The region always comes.
    pub fn finish(self) -> (region: Option<dynasmrt::ExecutableBuffer>)
        requires
            self.wf(),
            closed(self.listing@),
            raw(self.listing@).len() <= i32::MAX,
        ensures
            region.is_some(),
            region_bytes(region.unwrap()) == assemble(self.listing@),
    {
        proof {
            lemma_addresses_in_range(self.listing@);
            let relocs = pending_relocs(self.ops);
            let slots = label_slots(self.ops);
            assert forall|i: int| 0 <= i < relocs.len() implies {
                let r = #[trigger] relocs[i];
                &&& 4 <= r.0 <= emitted_code(self.ops).len()
                &&& 0 <= r.1 < slots.len()
                &&& slots[r.1].is_some()
                &&& i32::MIN <= slots[r.1].unwrap() - r.0 <= i32::MAX
            } by {
                let j = jumps(self.listing@)[i];
                assert(self.names@.contains_key(j.1));
                assert(address(self.listing@, j.1).is_some());
            }
            assert forall|i: int| 0 <= i < relocs.len() implies resolved(relocs, slots)[i]
                == sites(self.listing@)[i] by {
                let j = jumps(self.listing@)[i];
                assert(self.names@.contains_key(j.1));
            }
            assert(resolved(relocs, slots) =~= sites(self.listing@));
        }
        assembler_finalize(self.ops)
    }
}

} // verus!
