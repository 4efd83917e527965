//! Walks over one namespace, bounded by its tag.
//!
//! A walk does not hold the store's cursor. The caller seeks a cursor to
//! `seek_key()`, and then hands the record under the cursor to `next`, step
//! by step: after each item it moves the cursor on by one record, and at the
//! end of the store it hands over `None`. The walk says which records belong
//! to the namespace, takes the tag off their keys, and stops for good at the
//! first record that carries another tag. The cursor moves on whatever
//! becomes of an item afterwards, so a record that the caller cannot decode
//! hides none of the records behind it.
//!
//! The walk sees the store as the cursor shows it, record by record; it adds
//! no snapshot of its own.

use vstd::prelude::*;
use crate::lex::starts_with;

verus! {

/// What a walk makes of the record under the cursor: where the record's
/// key carries the tag, the key without the tag and the value; else nothing.
pub open spec fn admitted(tag: Seq<u8>, record: Option<(Seq<u8>, Seq<u8>)>) -> Option<
    (Seq<u8>, Seq<u8>),
> {
    match record {
        Some((key, value)) => if tag.is_prefix_of(key) {
            Some((key.skip(tag.len() as int), value))
        } else {
            None
        },
        None => None,
    }
}

/// What one step of a walk yields: nothing once the walk is exhausted,
/// else what it makes of the record under the cursor.
pub open spec fn yielded(tag: Seq<u8>, exhausted: bool, record: Option<(Seq<u8>, Seq<u8>)>) -> Option<
    (Seq<u8>, Seq<u8>),
> {
    if exhausted {
        None
    } else {
        admitted(tag, record)
    }
}

/// The bytes of the record that the caller hands over.
pub open spec fn record_view(record: Option<(&[u8], &[u8])>) -> Option<(Seq<u8>, Seq<u8>)> {
    match record {
        Some((key, value)) => Some((key@, value@)),
        None => None,
    }
}

/// The bytes of the item that a walk hands back.
pub open spec fn item_view(item: Option<(Vec<u8>, Vec<u8>)>) -> Option<(Seq<u8>, Seq<u8>)> {
    match item {
        Some((key, value)) => Some((key@, value@)),
        None => None,
    }
}

/// The state that the three kinds of walk share: the tag, and whether the
/// end of the namespace has been seen.
struct Walk {
    prefix: Vec<u8>,
    exhausted: bool,
}

impl Walk {
    /// Takes one step: whether the record under the cursor, whose key is
    /// `key`, belongs to the walk. After the first record that does not, none does.
    fn step(&mut self, key: Option<&[u8]>) -> (within: bool)
        ensures
            within <==> !old(self).exhausted && (key matches Some(k) && old(self).prefix@.is_prefix_of(
                k@,
            )),
            final(self).exhausted == !within,
            final(self).prefix == old(self).prefix,
    {
        if self.exhausted {
            return false;
        }
        let within = match key {
            Some(k) => starts_with(k, self.prefix.as_slice()),
            None => false,
        };
        if !within {
            self.exhausted = true;
        }
        within
    }

    /// `key` without the tag in front of it.
    fn strip(&self, key: &[u8]) -> (rest: Vec<u8>)
        requires
            self.prefix@.is_prefix_of(key@),
        ensures
            rest@ == key@.skip(self.prefix@.len() as int),
    {
        vstd::slice::slice_to_vec(vstd::slice::slice_subrange(key, self.prefix.len(), key.len()))
    }
}

/// A walk over the records of a namespace: keys without the tag, and values.
pub struct Iter {
    walk: Walk,
}

impl Iter {
    /// The tag that bounds the walk.
    pub closed spec fn tag(&self) -> Seq<u8> {
        self.walk.prefix@
    }

    /// Whether the walk has seen the end of its namespace.
    pub closed spec fn exhausted(&self) -> bool {
        self.walk.exhausted
    }

    pub(crate) fn over(tag: Vec<u8>) -> (it: Iter)
        ensures
            it.tag() == tag@,
            !it.exhausted(),
    {
        Iter { walk: Walk { prefix: tag, exhausted: false } }
    }

    /// The raw key to seek the cursor to before the first step: the cursor
    /// is to stand on the first record whose key does not sort before it.
    pub fn seek_key(&self) -> (key: &[u8])
        ensures
            key@ == self.tag(),
    {
        self.walk.prefix.as_slice()
    }

    /// Takes the record under the cursor, or `None` at the end of the
    /// store, and yields the next item of the namespace.
    ///
    /// After an item the caller moves the cursor on by one record. After
    /// `None` the walk is exhausted and yields nothing more, whatever it is
    /// handed.
    pub fn next(&mut self, record: Option<(&[u8], &[u8])>) -> (item: Option<(Vec<u8>, Vec<u8>)>)
        ensures
            item_view(item) == yielded(old(self).tag(), old(self).exhausted(), record_view(record)),
            final(self).tag() == old(self).tag(),
            final(self).exhausted() == (item is None),
    {
        match record {
            Some((key, value)) => {
                if self.walk.step(Some(key)) {
                    Some((self.walk.strip(key), vstd::slice::slice_to_vec(value)))
                } else {
                    None
                }
            },
            None => {
                self.walk.step(None);
                None
            },
        }
    }
}

/// A walk over the keys of a namespace, without the tag.
pub struct Keys {
    walk: Walk,
}

impl Keys {
    /// The tag that bounds the walk.
    pub closed spec fn tag(&self) -> Seq<u8> {
        self.walk.prefix@
    }

    /// Whether the walk has seen the end of its namespace.
    pub closed spec fn exhausted(&self) -> bool {
        self.walk.exhausted
    }

    pub(crate) fn over(tag: Vec<u8>) -> (it: Keys)
        ensures
            it.tag() == tag@,
            !it.exhausted(),
    {
        Keys { walk: Walk { prefix: tag, exhausted: false } }
    }

    /// The raw key to seek the cursor to before the first step.
    pub fn seek_key(&self) -> (key: &[u8])
        ensures
            key@ == self.tag(),
    {
        self.walk.prefix.as_slice()
    }

    /// As `Iter::next`, but only the key of the item is handed back.
    pub fn next(&mut self, record: Option<(&[u8], &[u8])>) -> (item: Option<Vec<u8>>)
        ensures
            match yielded(old(self).tag(), old(self).exhausted(), record_view(record)) {
                Some((key, value)) => item matches Some(k) && k@ == key,
                None => item is None,
            },
            final(self).tag() == old(self).tag(),
            final(self).exhausted() == (item is None),
    {
        match record {
            Some((key, _)) => {
                if self.walk.step(Some(key)) {
                    Some(self.walk.strip(key))
                } else {
                    None
                }
            },
            None => {
                self.walk.step(None);
                None
            },
        }
    }
}

/// A walk over the values of a namespace.
pub struct Values {
    walk: Walk,
}

impl Values {
    /// The tag that bounds the walk.
    pub closed spec fn tag(&self) -> Seq<u8> {
        self.walk.prefix@
    }

    /// Whether the walk has seen the end of its namespace.
    pub closed spec fn exhausted(&self) -> bool {
        self.walk.exhausted
    }

    pub(crate) fn over(tag: Vec<u8>) -> (it: Values)
        ensures
            it.tag() == tag@,
            !it.exhausted(),
    {
        Values { walk: Walk { prefix: tag, exhausted: false } }
    }

    /// The raw key to seek the cursor to before the first step.
    pub fn seek_key(&self) -> (key: &[u8])
        ensures
            key@ == self.tag(),
    {
        self.walk.prefix.as_slice()
    }

    /// As `Iter::next`, but only the value of the item is handed back.
    pub fn next(&mut self, record: Option<(&[u8], &[u8])>) -> (item: Option<Vec<u8>>)
        ensures
            match yielded(old(self).tag(), old(self).exhausted(), record_view(record)) {
                Some((key, value)) => item matches Some(v) && v@ == value,
                None => item is None,
            },
            final(self).tag() == old(self).tag(),
            final(self).exhausted() == (item is None),
    {
        match record {
            Some((key, value)) => {
                if self.walk.step(Some(key)) {
                    Some(vstd::slice::slice_to_vec(value))
                } else {
                    None
                }
            },
            None => {
                self.walk.step(None);
                None
            },
        }
    }
}

} // verus!
