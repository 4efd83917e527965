//! What holds of the layer as a whole: between two namespaces, and between
//! one request and the next.

use vstd::prelude::*;
use crate::cursor::{
    lemma_ordered_lists_of_the_same_pairs, lemma_raw_key_carries_tag, lemma_scan_ascends,
    lemma_scan_shows_the_namespace, lists, scan, sought,
};
use crate::prefix::raw_key;
use crate::registry::{conflicts, overlaps};
use crate::store::{after, reply, target, Op};
use crate::tag::{lemma_sibling_tags_prefix_free, tag_of, MAX_LABEL_LEN};

verus! {

/// Of two byte strings that begin the same string, one begins the other.
pub proof fn lemma_prefixes_of_one_string_overlap(a: Seq<u8>, b: Seq<u8>, s: Seq<u8>)
    requires
        a.is_prefix_of(s),
        b.is_prefix_of(s),
    ensures
        overlaps(a, b),
{
    if a.len() <= b.len() {
        assert(a =~= b.subrange(0, a.len() as int)) by {
            assert forall|i: int| 0 <= i < a.len() implies a[i] == b[i] by {
                assert(a[i] == s.subrange(0, a.len() as int)[i]);
                assert(b[i] == s.subrange(0, b.len() as int)[i]);
            }
        }
    } else {
        assert(b =~= a.subrange(0, b.len() as int)) by {
            assert forall|i: int| 0 <= i < b.len() implies a[i] == b[i] by {
                assert(a[i] == s.subrange(0, a.len() as int)[i]);
                assert(b[i] == s.subrange(0, b.len() as int)[i]);
            }
        }
    }
}

/// Two different labels under one parent give tags that do not overlap,
/// also where one label begins the other.
pub proof fn lemma_distinct_labels_apart(parent: Seq<u8>, l1: Seq<u8>, l2: Seq<u8>)
    requires
        l1.len() <= MAX_LABEL_LEN,
        l2.len() <= MAX_LABEL_LEN,
        l1 != l2,
    ensures
        !overlaps(tag_of(parent, l1), tag_of(parent, l2)),
{
    if tag_of(parent, l1).is_prefix_of(tag_of(parent, l2)) {
        lemma_sibling_tags_prefix_free(parent, l1, l2);
    }
    if tag_of(parent, l2).is_prefix_of(tag_of(parent, l1)) {
        lemma_sibling_tags_prefix_free(parent, l2, l1);
    }
}

/// What lies below two tags that do not overlap does not overlap either:
/// groups that are apart keep all their namespaces apart.
pub proof fn lemma_extensions_stay_apart(t1: Seq<u8>, t2: Seq<u8>, x: Seq<u8>, y: Seq<u8>)
    requires
        !overlaps(t1, t2),
    ensures
        !overlaps(t1 + x, t2 + y),
{
    lemma_raw_key_carries_tag(t1, x);
    lemma_raw_key_carries_tag(t2, y);
    if (t1 + x).is_prefix_of(t2 + y) {
        assert(t1.is_prefix_of(t2 + y)) by {
            assert(t1 =~= (t2 + y).subrange(0, t1.len() as int)) by {
                assert forall|i: int| 0 <= i < t1.len() implies t1[i] == (t2 + y)[i] by {
                    assert((t1 + x)[i] == (t2 + y).subrange(0, (t1 + x).len() as int)[i]);
                }
            }
        }
        lemma_prefixes_of_one_string_overlap(t1, t2, t2 + y);
    }
    if (t2 + y).is_prefix_of(t1 + x) {
        assert(t2.is_prefix_of(t1 + x)) by {
            assert(t2 =~= (t1 + x).subrange(0, t2.len() as int)) by {
                assert forall|i: int| 0 <= i < t2.len() implies t2[i] == (t1 + x)[i] by {
                    assert((t2 + y)[i] == (t1 + x).subrange(0, (t2 + y).len() as int)[i]);
                }
            }
        }
        lemma_prefixes_of_one_string_overlap(t1, t2, t1 + x);
    }
}

/// Two tags that do not overlap, and that the registry refuses neither of,
/// can both be registered, in either order.
pub proof fn lemma_both_creatable(tags: Set<Seq<u8>>, t1: Seq<u8>, t2: Seq<u8>)
    requires
        !conflicts(tags, t1),
        !conflicts(tags, t2),
        !overlaps(t1, t2),
    ensures
        !conflicts(tags.insert(t1), t2),
        !conflicts(tags.insert(t2), t1),
{
    assert forall|t: Seq<u8>| #[trigger] tags.insert(t1).contains(t) implies !overlaps(t, t2) by {
        if t != t1 {
            assert(tags.contains(t));
        }
    }
    assert forall|t: Seq<u8>| #[trigger] tags.insert(t2).contains(t) implies !overlaps(t, t1) by {
        if t != t2 {
            assert(tags.contains(t));
        }
    }
}

/// Of two tags that overlap, the one registered first shuts the other out,
/// whichever comes first. A tag shuts out itself: it cannot be registered twice.
pub proof fn lemma_first_registration_wins(tags: Set<Seq<u8>>, t1: Seq<u8>, t2: Seq<u8>)
    requires
        overlaps(t1, t2),
    ensures
        conflicts(tags.insert(t1), t2),
        conflicts(tags.insert(t2), t1),
        conflicts(tags.insert(t1), t1),
{
    assert(tags.insert(t1).contains(t1));
    assert(tags.insert(t2).contains(t2));
    assert(t1.is_prefix_of(t1));
}

/// Within a namespace different keys have different raw keys.
pub proof fn lemma_raw_key_injective(tag: Seq<u8>, k1: Seq<u8>, k2: Seq<u8>)
    requires
        raw_key(tag, k1) == raw_key(tag, k2),
    ensures
        k1 == k2,
{
    lemma_raw_key_carries_tag(tag, k1);
    lemma_raw_key_carries_tag(tag, k2);
}

/// Namespaces whose tags do not overlap share no raw key, and no raw key of
/// the one carries the tag of the other.
pub proof fn lemma_raw_keys_apart(t1: Seq<u8>, t2: Seq<u8>, k1: Seq<u8>, k2: Seq<u8>)
    requires
        !overlaps(t1, t2),
    ensures
        raw_key(t1, k1) != raw_key(t2, k2),
        !t2.is_prefix_of(raw_key(t1, k1)),
        !t1.is_prefix_of(raw_key(t2, k2)),
{
    lemma_raw_key_carries_tag(t1, k1);
    lemma_raw_key_carries_tag(t2, k2);
    if t2.is_prefix_of(raw_key(t1, k1)) {
        lemma_prefixes_of_one_string_overlap(t1, t2, raw_key(t1, k1));
    }
    if t1.is_prefix_of(raw_key(t2, k2)) {
        lemma_prefixes_of_one_string_overlap(t1, t2, raw_key(t2, k2));
    }
}

/// The reply to the read that `contains_key` and `get` ask for holds a
/// value exactly when the key is present, and then it is the key's value.
pub proof fn lemma_reply_tells_presence(store: Map<Seq<u8>, Seq<u8>>, tag: Seq<u8>, key: Seq<u8>)
    ensures
        reply(store, Op::Get { key: raw_key(tag, key) }) is Some <==> store.dom().contains(
            raw_key(tag, key),
        ),
        store.dom().contains(raw_key(tag, key)) ==> reply(
            store,
            Op::Get { key: raw_key(tag, key) },
        ) == Some(store[raw_key(tag, key)]),
{
}

/// A value that was inserted is what a read of the same key brings back,
/// byte for byte.
pub proof fn lemma_insert_then_get(
    store: Map<Seq<u8>, Seq<u8>>,
    tag: Seq<u8>,
    key: Seq<u8>,
    value: Seq<u8>,
)
    ensures
        reply(
            after(store, Op::Put { key: raw_key(tag, key), value }),
            Op::Get { key: raw_key(tag, key) },
        ) == Some(value),
{
}

/// A request about one key of a namespace changes nothing under the other
/// keys of that namespace.
pub proof fn lemma_other_key_unchanged(
    store: Map<Seq<u8>, Seq<u8>>,
    tag: Seq<u8>,
    op: Op,
    key: Seq<u8>,
    other: Seq<u8>,
)
    requires
        target(op) == raw_key(tag, key),
        other != key,
    ensures
        reply(after(store, op), Op::Get { key: raw_key(tag, other) }) == reply(
            store,
            Op::Get { key: raw_key(tag, other) },
        ),
{
    if raw_key(tag, other) == raw_key(tag, key) {
        lemma_raw_key_injective(tag, other, key);
    }
}

/// Removing a key twice is removing it once, and a read of the key then
/// finds nothing. Removing a key that is absent changes nothing.
pub proof fn lemma_remove_twice(store: Map<Seq<u8>, Seq<u8>>, tag: Seq<u8>, key: Seq<u8>)
    ensures
        after(after(store, Op::Delete { key: raw_key(tag, key) }), Op::Delete { key: raw_key(tag, key) })
            == after(store, Op::Delete { key: raw_key(tag, key) }),
        reply(
            after(
                after(store, Op::Delete { key: raw_key(tag, key) }),
                Op::Delete { key: raw_key(tag, key) },
            ),
            Op::Get { key: raw_key(tag, key) },
        ) is None,
        !store.dom().contains(raw_key(tag, key)) ==> after(store, Op::Delete { key: raw_key(tag, key) })
            == store,
{
    let raw = raw_key(tag, key);
    assert(store.remove(raw).remove(raw) =~= store.remove(raw));
    if !store.dom().contains(raw) {
        assert(store.remove(raw) =~= store);
    }
}

/// Reads of a namespace see nothing of what happens in a namespace whose
/// tag does not overlap its own.
pub proof fn lemma_get_is_isolated(
    store: Map<Seq<u8>, Seq<u8>>,
    t1: Seq<u8>,
    t2: Seq<u8>,
    op: Op,
    k1: Seq<u8>,
    k2: Seq<u8>,
)
    requires
        !overlaps(t1, t2),
        target(op) == raw_key(t1, k1),
    ensures
        reply(after(store, op), Op::Get { key: raw_key(t2, k2) }) == reply(
            store,
            Op::Get { key: raw_key(t2, k2) },
        ),
{
    lemma_raw_keys_apart(t1, t2, k1, k2);
}

/// Walks over a namespace see nothing of what happens in a namespace whose
/// tag does not overlap its own: a walk after the request yields what a walk
/// before it yields, item for item.
pub proof fn lemma_walk_is_isolated(
    store: Map<Seq<u8>, Seq<u8>>,
    t1: Seq<u8>,
    t2: Seq<u8>,
    op: Op,
    k1: Seq<u8>,
    before: Seq<(Seq<u8>, Seq<u8>)>,
    at_before: int,
    later: Seq<(Seq<u8>, Seq<u8>)>,
    at_later: int,
)
    requires
        !overlaps(t1, t2),
        target(op) == raw_key(t1, k1),
        lists(before, store),
        sought(before, t2, at_before),
        lists(later, after(store, op)),
        sought(later, t2, at_later),
    ensures
        scan(t2, later, at_later) == scan(t2, before, at_before),
{
    lemma_scan_shows_the_namespace(t2, store, before, at_before);
    lemma_scan_shows_the_namespace(t2, after(store, op), later, at_later);
    assert forall|pair: (Seq<u8>, Seq<u8>)|
        scan(t2, later, at_later).contains(pair) <==> scan(t2, before, at_before).contains(
            pair,
        ) by {
        let (key, value) = pair;
        assert(pair == (key, value));
        lemma_raw_keys_apart(t1, t2, k1, key);
        lemma_get_is_isolated(store, t1, t2, op, k1, key);
    }
    lemma_scan_ascends(t2, before, at_before);
    lemma_scan_ascends(t2, later, at_later);
    lemma_ordered_lists_of_the_same_pairs(scan(t2, later, at_later), scan(t2, before, at_before));
}

} // verus!
