//! What a walk yields over a whole store.
//!
//! The store shows its records through a cursor, in ascending order of
//! their raw keys. The raw keys that carry one tag stand together in that
//! order, so a walk that starts at the tag and stops at the first record
//! without it has seen every record of its namespace, and no other.

use vstd::prelude::*;
use crate::iter::{admitted, yielded};
use crate::lex::{
    lemma_between_prefix_and_extension, lemma_common_front_keeps_order, lemma_lex_asymmetric,
    lemma_lex_irreflexive, lemma_lex_total, lemma_prefix_is_le, lex_le, lex_lt,
};
use crate::prefix::raw_key;

verus! {

/// The records ascend strictly by raw key.
pub open spec fn ordered(records: Seq<(Seq<u8>, Seq<u8>)>) -> bool {
    forall|i: int, j: int|
        #![trigger records[i], records[j]]
        0 <= i < j < records.len() ==> lex_lt(records[i].0, records[j].0)
}

/// `records` is what a cursor shows of `store` from the first record to the
/// last: every key of the store once, with its value, in ascending order.
pub open spec fn lists(records: Seq<(Seq<u8>, Seq<u8>)>, store: Map<Seq<u8>, Seq<u8>>) -> bool {
    &&& ordered(records)
    &&& forall|i: int|
        0 <= i < records.len() ==> store.dom().contains((#[trigger] records[i]).0)
            && store[records[i].0] == records[i].1
    &&& forall|key: Seq<u8>| #[trigger]
        store.dom().contains(key) ==> exists|i: int|
            0 <= i < records.len() && (#[trigger] records[i]).0 == key
}

/// `at` is where a cursor stands after a seek to `target`: on the first
/// record whose key does not sort before `target`, or behind the last record.
pub open spec fn sought(records: Seq<(Seq<u8>, Seq<u8>)>, target: Seq<u8>, at: int) -> bool {
    &&& 0 <= at <= records.len()
    &&& forall|k: int| 0 <= k < at ==> lex_lt((#[trigger] records[k]).0, target)
    &&& forall|k: int| at <= k < records.len() ==> !lex_lt((#[trigger] records[k]).0, target)
}

/// The record under a cursor that stands at `at`.
pub open spec fn under_cursor(records: Seq<(Seq<u8>, Seq<u8>)>, at: int) -> Option<
    (Seq<u8>, Seq<u8>),
> {
    if 0 <= at < records.len() {
        Some(records[at])
    } else {
        None
    }
}

/// The items that a fresh walk tagged `tag` yields, one after the other,
/// when the cursor starts at `at` and moves on by one record after each item.
pub open spec fn scan(tag: Seq<u8>, records: Seq<(Seq<u8>, Seq<u8>)>, at: int) -> Seq<
    (Seq<u8>, Seq<u8>),
>
    decreases records.len() - at,
{
    if 0 <= at < records.len() {
        match admitted(tag, under_cursor(records, at)) {
            Some(item) => seq![item] + scan(tag, records, at + 1),
            None => Seq::empty(),
        }
    } else {
        Seq::empty()
    }
}

/// A walk over the store is made of the steps of `Iter::next`: its first
/// item is what a fresh walk yields for the record under the cursor, and the
/// rest is the walk from the next record on.
pub proof fn lemma_scan_follows_the_steps(tag: Seq<u8>, records: Seq<(Seq<u8>, Seq<u8>)>, at: int)
    ensures
        scan(tag, records, at) == match yielded(tag, false, under_cursor(records, at)) {
            Some(item) => seq![item] + scan(tag, records, at + 1),
            None => Seq::empty(),
        },
{
}

/// A key that carries the tag is the tag followed by the rest of the key.
pub proof fn lemma_tag_and_rest(tag: Seq<u8>, key: Seq<u8>)
    requires
        tag.is_prefix_of(key),
    ensures
        raw_key(tag, key.skip(tag.len() as int)) == key,
{
    assert(tag + key.skip(tag.len() as int) =~= key);
}

/// A raw key carries its tag, and without the tag it is the key again.
pub proof fn lemma_raw_key_carries_tag(tag: Seq<u8>, key: Seq<u8>)
    ensures
        tag.is_prefix_of(raw_key(tag, key)),
        raw_key(tag, key).skip(tag.len() as int) == key,
{
    assert(tag =~= (tag + key).subrange(0, tag.len() as int));
    assert((tag + key).skip(tag.len() as int) =~= key);
}

proof fn lemma_scan_run(tag: Seq<u8>, records: Seq<(Seq<u8>, Seq<u8>)>, at: int)
    requires
        0 <= at <= records.len(),
    ensures
        at + scan(tag, records, at).len() <= records.len(),
        forall|i: int|
            0 <= i < scan(tag, records, at).len() ==> admitted(tag, Some(records[at + i])) == Some(
                #[trigger] scan(tag, records, at)[i],
            ),
        at + scan(tag, records, at).len() < records.len() ==> !tag.is_prefix_of(
            records[at + scan(tag, records, at).len()].0,
        ),
    decreases records.len() - at,
{
    if at < records.len() && tag.is_prefix_of(records[at].0) {
        lemma_scan_run(tag, records, at + 1);
        let rest = scan(tag, records, at + 1);
        let out = scan(tag, records, at);
        assert(out.len() == rest.len() + 1);
        assert forall|i: int| 0 <= i < out.len() implies admitted(tag, Some(records[at + i]))
            == Some(#[trigger] out[i]) by {
            if i > 0 {
                assert(out[i] == rest[i - 1]);
                assert(at + i == at + 1 + (i - 1));
            }
        }
    }
}

/// A walk yields the records that carry its tag, all of them and no other,
/// in the order of the store: they stand together, from the place that the
/// seek finds to the place where the walk stops.
pub proof fn lemma_scan_is_the_block(tag: Seq<u8>, records: Seq<(Seq<u8>, Seq<u8>)>, at: int)
    requires
        ordered(records),
        sought(records, tag, at),
    ensures
        at + scan(tag, records, at).len() <= records.len(),
        forall|i: int|
            0 <= i < scan(tag, records, at).len() ==> admitted(tag, Some(records[at + i])) == Some(
                #[trigger] scan(tag, records, at)[i],
            ),
        forall|j: int|
            0 <= j < records.len() && tag.is_prefix_of((#[trigger] records[j]).0) ==> at <= j < at
                + scan(tag, records, at).len(),
{
    lemma_scan_run(tag, records, at);
    let out = scan(tag, records, at);
    let end = at + out.len();
    assert forall|j: int|
        0 <= j < records.len() && tag.is_prefix_of((#[trigger] records[j]).0) implies at <= j
        < end by {
        let key = records[j].0;
        lemma_prefix_is_le(tag, key);
        lemma_lex_asymmetric(tag, key);
        lemma_lex_irreflexive(tag);
        if j < at {
            assert(lex_lt(records[j].0, tag));
        }
        if j >= end {
            let stop = records[end].0;
            assert(!lex_lt(records[end].0, tag));
            lemma_lex_total(stop, tag);
            assert(lex_le(tag, stop));
            if j > end {
                assert(lex_lt(records[end].0, records[j].0));
            }
            assert(lex_le(stop, key));
            lemma_between_prefix_and_extension(tag, stop, key);
        }
    }
}

/// A walk yields its keys in strictly ascending order, so none of them twice.
pub proof fn lemma_scan_ascends(tag: Seq<u8>, records: Seq<(Seq<u8>, Seq<u8>)>, at: int)
    requires
        ordered(records),
        sought(records, tag, at),
    ensures
        ordered(scan(tag, records, at)),
{
    lemma_scan_is_the_block(tag, records, at);
    let out = scan(tag, records, at);
    assert forall|i: int, j: int| 0 <= i < j < out.len() implies lex_lt(
        (#[trigger] out[i]).0,
        (#[trigger] out[j]).0,
    ) by {
        let a = records[at + i].0;
        let b = records[at + j].0;
        assert(admitted(tag, Some(records[at + i])) == Some(out[i]));
        assert(admitted(tag, Some(records[at + j])) == Some(out[j]));
        assert(lex_lt(records[at + i].0, records[at + j].0));
        lemma_tag_and_rest(tag, a);
        lemma_tag_and_rest(tag, b);
        lemma_common_front_keeps_order(tag, out[i].0, out[j].0);
    }
}

/// Two lists that ascend by key and hold the same pairs are the same list.
pub proof fn lemma_ordered_lists_of_the_same_pairs(
    a: Seq<(Seq<u8>, Seq<u8>)>,
    b: Seq<(Seq<u8>, Seq<u8>)>,
)
    requires
        ordered(a),
        ordered(b),
        forall|pair: (Seq<u8>, Seq<u8>)| a.contains(pair) <==> b.contains(pair),
    ensures
        a == b,
    decreases a.len(),
{
    if a.len() == 0 {
        if b.len() > 0 {
            assert(b.contains(b[0]));
            assert(a.contains(b[0]));
        }
        assert(a =~= b);
    } else if b.len() == 0 {
        assert(a.contains(a[0]));
        assert(b.contains(a[0]));
    } else {
        lemma_first_pairs_agree(a, b);
        lemma_first_pairs_agree(b, a);
        let rest_a = a.drop_first();
        let rest_b = b.drop_first();
        assert forall|i: int, j: int| 0 <= i < j < rest_a.len() implies lex_lt(
            (#[trigger] rest_a[i]).0,
            (#[trigger] rest_a[j]).0,
        ) by {
            assert(lex_lt(a[i + 1].0, a[j + 1].0));
        }
        assert forall|i: int, j: int| 0 <= i < j < rest_b.len() implies lex_lt(
            (#[trigger] rest_b[i]).0,
            (#[trigger] rest_b[j]).0,
        ) by {
            assert(lex_lt(b[i + 1].0, b[j + 1].0));
        }
        assert forall|pair: (Seq<u8>, Seq<u8>)| rest_a.contains(pair) <==> rest_b.contains(
            pair,
        ) by {
            lemma_rest_holds_what_the_other_rest_holds(a, b, pair);
            lemma_rest_holds_what_the_other_rest_holds(b, a, pair);
        }
        lemma_ordered_lists_of_the_same_pairs(rest_a, rest_b);
        assert(a =~= seq![a[0]] + rest_a);
        assert(b =~= seq![b[0]] + rest_b);
    }
}

proof fn lemma_first_pairs_agree(a: Seq<(Seq<u8>, Seq<u8>)>, b: Seq<(Seq<u8>, Seq<u8>)>)
    requires
        ordered(a),
        ordered(b),
        a.len() > 0,
        b.len() > 0,
        forall|pair: (Seq<u8>, Seq<u8>)| a.contains(pair) <==> b.contains(pair),
    ensures
        a[0] == b[0],
{
    assert(a.contains(a[0]));
    assert(b.contains(a[0]));
    let j = choose|j: int| 0 <= j < b.len() && b[j] == a[0];
    assert(b.contains(b[0]));
    assert(a.contains(b[0]));
    let i = choose|i: int| 0 <= i < a.len() && a[i] == b[0];
    if j > 0 {
        assert(lex_lt(b[0].0, b[j].0));
        if i > 0 {
            assert(lex_lt(a[0].0, a[i].0));
            lemma_lex_asymmetric(a[0].0, b[0].0);
        }
    }
}

proof fn lemma_rest_holds_what_the_other_rest_holds(
    a: Seq<(Seq<u8>, Seq<u8>)>,
    b: Seq<(Seq<u8>, Seq<u8>)>,
    pair: (Seq<u8>, Seq<u8>),
)
    requires
        ordered(a),
        ordered(b),
        a.len() > 0,
        b.len() > 0,
        a[0] == b[0],
        forall|pair: (Seq<u8>, Seq<u8>)| a.contains(pair) <==> b.contains(pair),
    ensures
        a.drop_first().contains(pair) ==> b.drop_first().contains(pair),
{
    if a.drop_first().contains(pair) {
        let i = choose|i: int| 0 <= i < a.drop_first().len() && a.drop_first()[i] == pair;
        assert(a[i + 1] == pair);
        assert(a.contains(pair));
        assert(b.contains(pair));
        let j = choose|j: int| 0 <= j < b.len() && b[j] == pair;
        if j == 0 {
            assert(lex_lt(a[0].0, a[i + 1].0));
            lemma_lex_irreflexive(a[0].0);
        }
        assert(b.drop_first()[j - 1] == pair);
    }
}

/// A walk shows the namespace as the store holds it: it yields the pair of
/// a key and a value exactly when the store holds that value under the raw
/// key of that key.
pub proof fn lemma_scan_shows_the_namespace(
    tag: Seq<u8>,
    store: Map<Seq<u8>, Seq<u8>>,
    records: Seq<(Seq<u8>, Seq<u8>)>,
    at: int,
)
    requires
        lists(records, store),
        sought(records, tag, at),
    ensures
        forall|key: Seq<u8>, value: Seq<u8>|
            #![trigger scan(tag, records, at).contains((key, value))]
            scan(tag, records, at).contains((key, value)) <==> store.dom().contains(
                raw_key(tag, key),
            ) && store[raw_key(tag, key)] == value,
{
    lemma_scan_is_the_block(tag, records, at);
    let out = scan(tag, records, at);
    assert forall|key: Seq<u8>, value: Seq<u8>|
        #![trigger out.contains((key, value))]
        out.contains((key, value)) <==> store.dom().contains(raw_key(tag, key)) && store[raw_key(
            tag,
            key,
        )] == value by {
        let raw = raw_key(tag, key);
        if out.contains((key, value)) {
            let i = choose|i: int| 0 <= i < out.len() && out[i] == (key, value);
            assert(admitted(tag, Some(records[at + i])) == Some(out[i]));
            lemma_tag_and_rest(tag, records[at + i].0);
            assert(store.dom().contains(records[at + i].0));
        }
        if store.dom().contains(raw) && store[raw] == value {
            let j = choose|j: int| 0 <= j < records.len() && (#[trigger] records[j]).0 == raw;
            lemma_raw_key_carries_tag(tag, key);
            assert(tag.is_prefix_of(records[j].0));
            assert(at <= j < at + out.len());
            assert(admitted(tag, Some(records[at + (j - at)])) == Some(out[j - at]));
            assert(out[j - at] == (key, value));
        }
    }
}

} // verus!
