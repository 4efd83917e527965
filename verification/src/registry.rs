//! The registry of live namespace tags.
//!
//! No registered tag is a byte-prefix of another: that is what keeps the
//! keys of two namespaces apart in the one keyspace they share. The tags are
//! kept in ascending order, and in that order a tag that begins another, or
//! is begun by another, is always found right beside the place where the new
//! tag belongs. So a registration looks at two neighbours only.

use vstd::prelude::*;
use crate::error::ErrorKind;
use crate::lex::{
    lemma_between_prefix_and_extension, lemma_lex_asymmetric, lemma_lex_irreflexive,
    lemma_lex_total, lemma_lex_transitive, lemma_prefix_is_le, lex_le, lex_less, lex_lt,
    starts_with,
};

verus! {

/// One of the two tags begins the other (equal tags overlap).
pub open spec fn overlaps(a: Seq<u8>, b: Seq<u8>) -> bool {
    a.is_prefix_of(b) || b.is_prefix_of(a)
}

/// Some tag of `tags` overlaps `tag`.
pub open spec fn conflicts(tags: Set<Seq<u8>>, tag: Seq<u8>) -> bool {
    exists|t: Seq<u8>| #[trigger] tags.contains(t) && overlaps(t, tag)
}

/// No tag of `tags` begins another tag of `tags`.
pub open spec fn prefix_free(tags: Set<Seq<u8>>) -> bool {
    forall|a: Seq<u8>, b: Seq<u8>|
        #![trigger tags.contains(a), tags.contains(b)]
        tags.contains(a) && tags.contains(b) && a.is_prefix_of(b) ==> a == b
}

/// The byte strings that the vectors of `tags` hold, in the same order.
spec fn contents(tags: Seq<Vec<u8>>) -> Seq<Seq<u8>> {
    Seq::new(tags.len(), |i: int| tags[i]@)
}

/// `tags` ascends strictly.
pub open spec fn ascending(tags: Seq<Seq<u8>>) -> bool {
    forall|i: int, j: int|
        #![trigger tags[i], tags[j]]
        0 <= i < j < tags.len() ==> lex_lt(tags[i], tags[j])
}

/// No entry of `tags` begins an entry at another position.
pub open spec fn apart(tags: Seq<Seq<u8>>) -> bool {
    forall|i: int, j: int|
        #![trigger tags[i], tags[j]]
        0 <= i < tags.len() && 0 <= j < tags.len() && i != j ==> !tags[i].is_prefix_of(tags[j])
}

/// In an ascending list whose entries are apart, a tag that overlaps `tag`
/// stands at `at`, the first place whose entry does not sort before `tag`,
/// or just before it.
pub proof fn lemma_overlap_is_adjacent(tags: Seq<Seq<u8>>, tag: Seq<u8>, at: int, j: int)
    requires
        ascending(tags),
        apart(tags),
        0 <= at <= tags.len(),
        forall|k: int| 0 <= k < at ==> lex_lt(#[trigger] tags[k], tag),
        forall|k: int| at <= k < tags.len() ==> !lex_lt(#[trigger] tags[k], tag),
        0 <= j < tags.len(),
        overlaps(tags[j], tag),
    ensures
        tag.is_prefix_of(tags[j]) ==> at < tags.len() && tag.is_prefix_of(tags[at]),
        !tag.is_prefix_of(tags[j]) ==> at > 0 && j == at - 1,
{
    if tag.is_prefix_of(tags[j]) {
        lemma_prefix_is_le(tag, tags[j]);
        lemma_lex_asymmetric(tag, tags[j]);
        lemma_lex_irreflexive(tag);
        assert(at <= j);
        lemma_lex_total(tags[at], tag);
        assert(lex_le(tag, tags[at]));
        assert(lex_le(tags[at], tags[j]));
        lemma_between_prefix_and_extension(tag, tags[at], tags[j]);
    } else {
        lemma_prefix_is_le(tags[j], tag);
        assert(tags[j] != tag) by {
            assert(tag.is_prefix_of(tag));
        }
        assert(lex_lt(tags[j], tag));
        assert(j < at);
        assert(lex_le(tags[j], tags[at - 1]));
        assert(lex_le(tags[at - 1], tag));
        lemma_between_prefix_and_extension(tags[j], tags[at - 1], tag);
    }
}

/// The live tags of one store.
pub struct Registry {
    tags: Vec<Vec<u8>>,
}

impl View for Registry {
    type V = Set<Seq<u8>>;

    /// The set of registered tags.
    closed spec fn view(&self) -> Set<Seq<u8>> {
        contents(self.tags@).to_set()
    }
}

impl Registry {
    #[verifier::type_invariant]
    spec fn well_formed(&self) -> bool {
        ascending(contents(self.tags@)) && apart(contents(self.tags@))
    }

    /// A registry without tags.
    pub fn new() -> (r: Registry)
        ensures
            r@ == Set::<Seq<u8>>::empty(),
    {
        let r = Registry { tags: Vec::new() };
        assert(r@ =~= Set::<Seq<u8>>::empty());
        r
    }

    /// How many tags are registered.
    pub fn len(&self) -> (n: usize)
        ensures
            n == self@.len(),
            self@.finite(),
    {
        proof {
            use_type_invariant(self);
            let tags = contents(self.tags@);
            lemma_ascending_no_duplicates(tags);
            tags.unique_seq_to_set();
            vstd::seq_lib::seq_to_set_is_finite(tags);
        }
        self.tags.len()
    }

    /// The first position whose tag does not sort before `tag`.
    fn lower_bound(&self, tag: &[u8]) -> (at: usize)
        ensures
            at <= self.tags@.len(),
            forall|k: int| 0 <= k < at ==> lex_lt(#[trigger] contents(self.tags@)[k], tag@),
            forall|k: int|
                at <= k < self.tags@.len() ==> !lex_lt(#[trigger] contents(self.tags@)[k], tag@),
    {
        proof {
            use_type_invariant(self);
        }
        let ghost tags = contents(self.tags@);
        let mut lo: usize = 0;
        let mut hi: usize = self.tags.len();
        while lo < hi
            invariant
                tags == contents(self.tags@),
                ascending(tags),
                lo <= hi <= tags.len(),
                forall|k: int| 0 <= k < lo ==> lex_lt(#[trigger] tags[k], tag@),
                forall|k: int| hi <= k < tags.len() ==> !lex_lt(#[trigger] tags[k], tag@),
            decreases hi - lo,
        {
            let mid: usize = lo + (hi - lo) / 2;
            if lex_less(self.tags[mid].as_slice(), tag) {
                proof {
                    assert forall|k: int| 0 <= k < mid + 1 implies lex_lt(
                        #[trigger] tags[k],
                        tag@,
                    ) by {
                        if k < mid {
                            assert(lex_lt(tags[k], tags[mid as int]));
                            lemma_lex_transitive(tags[k], tags[mid as int], tag@);
                        }
                    }
                }
                lo = mid + 1;
            } else {
                proof {
                    assert forall|k: int| mid <= k < tags.len() implies !lex_lt(
                        #[trigger] tags[k],
                        tag@,
                    ) by {
                        if k > mid && lex_lt(tags[k], tag@) {
                            assert(lex_lt(tags[mid as int], tags[k]));
                            lemma_lex_transitive(tags[mid as int], tags[k], tag@);
                        }
                    }
                }
                hi = mid;
            }
        }
        lo
    }

    /// Whether `tag` is registered.
    pub fn contains(&self, tag: &[u8]) -> (r: bool)
        ensures
            r == self@.contains(tag@),
    {
        proof {
            use_type_invariant(self);
        }
        let at = self.lower_bound(tag);
        let ghost tags = contents(self.tags@);
        if at < self.tags.len() && !lex_less(tag, self.tags[at].as_slice()) {
            proof {
                lemma_lex_total(tags[at as int], tag@);
                assert(tags[at as int] == tag@);
                assert(tags.contains(tag@));
            }
            true
        } else {
            proof {
                if tags.contains(tag@) {
                    let j = choose|j: int| 0 <= j < tags.len() && tags[j] == tag@;
                    lemma_lex_irreflexive(tag@);
                    assert(!lex_lt(tags[j], tag@));
                    assert(at <= j);
                    if at < j {
                        assert(lex_lt(tags[at as int], tags[j]));
                    }
                }
            }
            false
        }
    }

    /// Registers `tag`, unless it overlaps a registered tag.
    ///
    /// The tag is refused with `TagConflict` exactly when a registered tag
    /// begins it or is begun by it; the registry is then as it was.
    /// Otherwise the tag joins the registry. Either way no registered tag
    /// begins another afterwards.
    pub fn register(&mut self, tag: &[u8]) -> (r: Result<(), ErrorKind>)
        ensures
            r is Err <==> conflicts(old(self)@, tag@),
            r matches Err(e) ==> e == ErrorKind::TagConflict && final(self)@ == old(self)@,
            r is Ok ==> final(self)@ == old(self)@.insert(tag@),
            prefix_free(final(self)@),
    {
        proof {
            use_type_invariant(&*self);
        }
        let at = self.lower_bound(tag);
        let ghost tags = contents(self.tags@);
        proof {
            lemma_apart_is_prefix_free(tags);
        }
        if at < self.tags.len() && starts_with(self.tags[at].as_slice(), tag) {
            proof {
                assert(tags.contains(tags[at as int]));
                assert(self@.contains(tags[at as int]));
            }
            return Err(ErrorKind::TagConflict);
        }
        if at > 0 && starts_with(tag, self.tags[at - 1].as_slice()) {
            proof {
                assert(tags.contains(tags[at - 1]));
                assert(self@.contains(tags[at - 1]));
            }
            return Err(ErrorKind::TagConflict);
        }
        proof {
            assert forall|j: int| 0 <= j < tags.len() implies !overlaps(
                #[trigger] tags[j],
                tag@,
            ) by {
                if overlaps(tags[j], tag@) {
                    lemma_overlap_is_adjacent(tags, tag@, at as int, j);
                }
            }
            if conflicts(self@, tag@) {
                let t = choose|t: Seq<u8>| #[trigger] self@.contains(t) && overlaps(t, tag@);
                let j = choose|j: int| 0 <= j < tags.len() && tags[j] == t;
                assert(overlaps(tags[j], tag@));
            }
            lemma_insert_keeps_order(tags, tag@, at as int);
        }
        let mut list: Vec<Vec<u8>> = Vec::new();
        std::mem::swap(&mut list, &mut self.tags);
        list.insert(at, vstd::slice::slice_to_vec(tag));
        proof {
            assert(contents(list@) =~= tags.insert(at as int, tag@));
            lemma_apart_is_prefix_free(contents(list@));
            lemma_insert_to_set(tags, tag@, at as int);
        }
        self.tags = list;
        Ok(())
    }
}

/// An ascending list holds no byte string twice.
proof fn lemma_ascending_no_duplicates(tags: Seq<Seq<u8>>)
    requires
        ascending(tags),
    ensures
        tags.no_duplicates(),
{
    assert forall|i: int, j: int| 0 <= i < tags.len() && 0 <= j < tags.len() && i != j implies tags[i]
        != tags[j] by {
        lemma_lex_irreflexive(tags[i]);
        if i < j {
            assert(lex_lt(tags[i], tags[j]));
        } else {
            assert(lex_lt(tags[j], tags[i]));
        }
    }
}

/// A list whose entries are apart and differ from each other is, as a set,
/// prefix-free.
proof fn lemma_apart_is_prefix_free(tags: Seq<Seq<u8>>)
    requires
        apart(tags),
    ensures
        prefix_free(tags.to_set()),
{
    let set = tags.to_set();
    assert forall|a: Seq<u8>, b: Seq<u8>|
        set.contains(a) && set.contains(b) && a.is_prefix_of(b) implies a == b by {
        let i = choose|i: int| 0 <= i < tags.len() && tags[i] == a;
        let j = choose|j: int| 0 <= j < tags.len() && tags[j] == b;
        if i != j {
            assert(!tags[i].is_prefix_of(tags[j]));
        }
    }
}

/// Putting a tag that overlaps no entry at the first place whose entry does
/// not sort before it keeps the list ascending and its entries apart.
proof fn lemma_insert_keeps_order(tags: Seq<Seq<u8>>, tag: Seq<u8>, at: int)
    requires
        ascending(tags),
        apart(tags),
        0 <= at <= tags.len(),
        forall|k: int| 0 <= k < at ==> lex_lt(#[trigger] tags[k], tag),
        forall|k: int| at <= k < tags.len() ==> !lex_lt(#[trigger] tags[k], tag),
        forall|k: int| 0 <= k < tags.len() ==> !overlaps(#[trigger] tags[k], tag),
    ensures
        ascending(tags.insert(at, tag)),
        apart(tags.insert(at, tag)),
{
    let new = tags.insert(at, tag);
    assert forall|k: int| at <= k < tags.len() implies lex_lt(tag, #[trigger] tags[k]) by {
        lemma_lex_total(tags[k], tag);
        assert(!overlaps(tags[k], tag));
        assert(tag.is_prefix_of(tag));
    }
    assert forall|i: int, j: int| 0 <= i < j < new.len() implies lex_lt(new[i], new[j]) by {
        if j < at {
            assert(lex_lt(tags[i], tags[j]));
        } else if j == at {
            assert(lex_lt(tags[i], tag));
        } else if i < at {
            assert(lex_lt(tags[i], tags[j - 1]));
        } else if i == at {
            assert(lex_lt(tag, tags[j - 1]));
        } else {
            assert(lex_lt(tags[i - 1], tags[j - 1]));
        }
    }
    assert forall|i: int, j: int|
        0 <= i < new.len() && 0 <= j < new.len() && i != j implies !new[i].is_prefix_of(
        new[j],
    ) by {
        let oi = if i < at { i } else { i - 1 };
        let oj = if j < at { j } else { j - 1 };
        if i == at {
            assert(!overlaps(tags[oj], tag));
        } else if j == at {
            assert(!overlaps(tags[oi], tag));
        } else {
            assert(!tags[oi].is_prefix_of(tags[oj]));
        }
    }
}

/// As a set, a list with one more entry is the set of the list with that
/// entry added.
proof fn lemma_insert_to_set(tags: Seq<Seq<u8>>, tag: Seq<u8>, at: int)
    requires
        0 <= at <= tags.len(),
    ensures
        tags.insert(at, tag).to_set() == tags.to_set().insert(tag),
{
    let new = tags.insert(at, tag);
    assert forall|t: Seq<u8>| new.to_set().contains(t) <==> tags.to_set().insert(t).contains(t)
        && (t == tag || tags.to_set().contains(t)) by {
        if new.to_set().contains(t) {
            let i = choose|i: int| 0 <= i < new.len() && new[i] == t;
            if i < at {
                assert(tags[i] == t);
            } else if i > at {
                assert(tags[i - 1] == t);
            }
        }
        if tags.to_set().contains(t) {
            let i = choose|i: int| 0 <= i < tags.len() && tags[i] == t;
            if i < at {
                assert(new[i] == t);
            } else {
                assert(new[i + 1] == t);
            }
        }
        if t == tag {
            assert(new[at] == t);
        }
    }
    assert(new.to_set() =~= tags.to_set().insert(tag));
}

} // verus!
