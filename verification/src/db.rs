//! The entry to the layer: the database object, which owns the registry of
//! the store's tags, and groups, under which tags nest.
//!
//! Only `DB::prefix` enters its tag in the registry. A group takes no entry:
//! its tag is meant to begin the tags below it. A namespace made through a
//! group is not entered either, so a namespace that carries the same tag as
//! the group, or as one of the group's parents, goes unnoticed: keeping those
//! labels apart is left to the caller. Two tags made from
//! different labels under one parent never overlap, whoever the parent is.
//!
//! A tag stays registered for as long as the database object lives. Letting
//! go of a namespace frees nothing, so a label that was used once is refused
//! from then on.

use vstd::prelude::*;
use crate::error::ErrorKind;
use crate::prefix::Prefix;
use crate::registry::{conflicts, prefix_free, Registry};
use crate::tag::{encode_tag, tag_of, MAX_LABEL_LEN};

verus! {

/// The namespace layer of one store.
pub struct DB {
    registry: Registry,
}

impl DB {
    /// The tags of the namespaces made by `prefix` so far.
    pub closed spec fn tags(&self) -> Set<Seq<u8>> {
        self.registry@
    }

    #[verifier::type_invariant]
    spec fn well_formed(&self) -> bool {
        prefix_free(self.registry@)
    }

    /// Opens the layer, with no namespace registered yet.
    pub fn open() -> (db: DB)
        ensures
            db.tags() == Set::<Seq<u8>>::empty(),
    {
        DB { registry: Registry::new() }
    }

    /// Creates the namespace `label` and registers its tag.
    ///
    /// A label too long for its block is a `ContractViolation`. A tag that
    /// begins a registered tag, or is begun by one, is a `TagConflict`. In
    /// both cases the registry stays as it was. In every other case the
    /// namespace is made.
    pub fn prefix(&mut self, label: &[u8]) -> (r: Result<Prefix, ErrorKind>)
        ensures
            match r {
                Ok(p) => {
                    &&& label@.len() <= MAX_LABEL_LEN
                    &&& p@ == tag_of(Seq::empty(), label@)
                    &&& !conflicts(old(self).tags(), p@)
                    &&& final(self).tags() == old(self).tags().insert(p@)
                },
                Err(ErrorKind::ContractViolation) => {
                    &&& label@.len() > MAX_LABEL_LEN
                    &&& final(self).tags() == old(self).tags()
                },
                Err(ErrorKind::TagConflict) => {
                    &&& label@.len() <= MAX_LABEL_LEN
                    &&& conflicts(old(self).tags(), tag_of(Seq::empty(), label@))
                    &&& final(self).tags() == old(self).tags()
                },
            },
            prefix_free(final(self).tags()),
    {
        proof {
            use_type_invariant(&*self);
        }
        let top: Vec<u8> = Vec::new();
        let tag = match encode_tag(top.as_slice(), label) {
            Ok(tag) => tag,
            Err(e) => {
                return Err(e);
            },
        };
        let mut registry = Registry::new();
        std::mem::swap(&mut registry, &mut self.registry);
        let registered = registry.register(tag.as_slice());
        self.registry = registry;
        match registered {
            Ok(()) => Ok(Prefix::with_tag(tag)),
            Err(e) => Err(e),
        }
    }

    /// Creates the group `label`. Nothing is registered.
    pub fn prefix_group(&self, label: &[u8]) -> (r: Result<PrefixGroup, ErrorKind>)
        ensures
            r is Ok <==> label@.len() <= MAX_LABEL_LEN,
            r matches Ok(g) ==> g@ == tag_of(Seq::empty(), label@),
            r matches Err(e) ==> e == ErrorKind::ContractViolation,
    {
        let top: Vec<u8> = Vec::new();
        match encode_tag(top.as_slice(), label) {
            Ok(tag) => Ok(PrefixGroup { prefix: tag }),
            Err(e) => Err(e),
        }
    }
}

/// A way to group namespaces: a tag under which further tags are made.
#[derive(Debug, Clone, PartialEq, Eq)]
pub struct PrefixGroup {
    prefix: Vec<u8>,
}

impl View for PrefixGroup {
    type V = Seq<u8>;

    /// The group's tag.
    closed spec fn view(&self) -> Seq<u8> {
        self.prefix@
    }
}

impl PrefixGroup {
    /// The group's tag.
    pub fn tag(&self) -> (t: &[u8])
        ensures
            t@ == self@,
    {
        self.prefix.as_slice()
    }

    /// Creates the namespace `label` inside this group. Nothing is registered.
    pub fn prefix(&self, label: &[u8]) -> (r: Result<Prefix, ErrorKind>)
        ensures
            r is Ok <==> label@.len() <= MAX_LABEL_LEN,
            r matches Ok(p) ==> p@ == tag_of(self@, label@),
            r matches Err(e) ==> e == ErrorKind::ContractViolation,
    {
        match encode_tag(self.prefix.as_slice(), label) {
            Ok(tag) => Ok(Prefix::with_tag(tag)),
            Err(e) => Err(e),
        }
    }

    /// Creates the group `label` inside this group.
    pub fn prefix_group(&self, label: &[u8]) -> (r: Result<PrefixGroup, ErrorKind>)
        ensures
            r is Ok <==> label@.len() <= MAX_LABEL_LEN,
            r matches Ok(g) ==> g@ == tag_of(self@, label@),
            r matches Err(e) ==> e == ErrorKind::ContractViolation,
    {
        match encode_tag(self.prefix.as_slice(), label) {
            Ok(tag) => Ok(PrefixGroup { prefix: tag }),
            Err(e) => Err(e),
        }
    }
}

} // verus!
