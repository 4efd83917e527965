//! A namespace: one logical table among the many that share a store.
//!
//! Every key of the namespace is stored under the namespace's tag followed
//! by the key's encoding. Keys and values reach this layer already encoded;
//! which codec made the bytes is the caller's affair.

use vstd::prelude::*;
use crate::iter::{Iter, Keys, Values};
use crate::store::{Op, Request};

verus! {

/// The raw key of `key` in the namespace tagged `tag`.
pub open spec fn raw_key(tag: Seq<u8>, key: Seq<u8>) -> Seq<u8> {
    tag + key
}

/// A grouping of data in a store, found again by its tag.
#[derive(Debug, Clone, PartialEq, Eq)]
pub struct Prefix {
    prefix: Vec<u8>,
}

impl View for Prefix {
    type V = Seq<u8>;

    /// The namespace's tag.
    closed spec fn view(&self) -> Seq<u8> {
        self.prefix@
    }
}

impl Prefix {
    /// The namespace with the given tag.
    pub(crate) fn with_tag(tag: Vec<u8>) -> (p: Prefix)
        ensures
            p@ == tag@,
    {
        Prefix { prefix: tag }
    }

    /// The namespace's tag.
    pub fn tag(&self) -> (t: &[u8])
        ensures
            t@ == self@,
    {
        self.prefix.as_slice()
    }

    /// The raw key under which `key` is stored.
    pub fn raw_key(&self, key: &[u8]) -> (raw: Vec<u8>)
        ensures
            raw@ == raw_key(self@, key@),
    {
        let mut raw: Vec<u8> = self.prefix.clone();
        raw.extend_from_slice(key);
        assert(raw@ =~= raw_key(self@, key@));
        raw
    }

    /// The read of `key`. The store's reply is the value, or nothing where
    /// the key is absent.
    pub fn get(&self, key: &[u8]) -> (r: Request)
        ensures
            r@ == (Op::Get { key: raw_key(self@, key@) }),
    {
        Request::Get { key: self.raw_key(key) }
    }

    /// The write of `value` under `key`, over whatever is stored there.
    pub fn insert(&self, key: &[u8], value: &[u8]) -> (r: Request)
        ensures
            r@ == (Op::Put { key: raw_key(self@, key@), value: value@ }),
    {
        Request::Put { key: self.raw_key(key), value: vstd::slice::slice_to_vec(value) }
    }

    /// The removal of `key`. Removing an absent key is no error.
    pub fn remove(&self, key: &[u8]) -> (r: Request)
        ensures
            r@ == (Op::Delete { key: raw_key(self@, key@) }),
    {
        Request::Delete { key: self.raw_key(key) }
    }

    /// The read that tells whether `key` is present: it is, exactly when
    /// the store's reply holds a value. The request is that of `get`.
    pub fn contains_key(&self, key: &[u8]) -> (r: Request)
        ensures
            r@ == (Op::Get { key: raw_key(self@, key@) }),
    {
        self.get(key)
    }

    /// The second half of a read-change-write of `key`. `current` is the
    /// store's reply to `get(key)`.
    ///
    /// Where the key is absent nothing is to be written and `f` is not
    /// called. Where it is present `f` is called once on the stored value:
    /// what it makes of the value is to be put back under the same key, and
    /// if it fails its error comes back and nothing is to be written.
    ///
    /// The store may change between the read and the write: an update that
    /// another writer makes in between is lost.
    pub fn modify<E, F: FnOnce(Vec<u8>) -> Result<Vec<u8>, E>>(
        &self,
        key: &[u8],
        current: Option<Vec<u8>>,
        f: F,
    ) -> (r: Result<Option<Request>, E>)
        requires
            current matches Some(value) ==> f.requires((value,)),
        ensures
            current is None ==> r == Ok::<Option<Request>, E>(None),
            current matches Some(value) ==> match r {
                Ok(Some(request)) => exists|new: Vec<u8>|
                    #![trigger f.ensures((value,), Ok(new))]
                    f.ensures((value,), Ok(new)) && request@ == (Op::Put {
                        key: raw_key(self@, key@),
                        value: new@,
                    }),
                Ok(None) => false,
                Err(e) => f.ensures((value,), Err(e)),
            },
    {
        match current {
            Some(value) => {
                match f(value) {
                    Ok(new) => {
                        let ghost new_value = new;
                        let request = Request::Put { key: self.raw_key(key), value: new };
                        assert(f.ensures((value,), Ok(new_value)) && request@ == (Op::Put {
                            key: raw_key(self@, key@),
                            value: new_value@,
                        }));
                        Ok(Some(request))
                    },
                    Err(e) => Err(e),
                }
            },
            None => Ok(None),
        }
    }

    /// A walk over the records of this namespace, keys and values.
    /// Before the first step the caller seeks a cursor to `seek_key()`.
    pub fn iter(&self) -> (it: Iter)
        ensures
            it.tag() == self@,
            !it.exhausted(),
    {
        Iter::over(self.prefix.clone())
    }

    /// A walk over the keys of this namespace.
    pub fn keys(&self) -> (it: Keys)
        ensures
            it.tag() == self@,
            !it.exhausted(),
    {
        Keys::over(self.prefix.clone())
    }

    /// A walk over the values of this namespace.
    pub fn values(&self) -> (it: Values)
        ensures
            it.tag() == self@,
            !it.exhausted(),
    {
        Values::over(self.prefix.clone())
    }
}

} // verus!
