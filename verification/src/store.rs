//! The ordered byte store, as the namespace layer sees it.
//!
//! The layer never touches the store. Each operation of a namespace hands
//! back a `Request`; the caller puts it to the store and, where the layer has
//! to decide something more, hands the store's reply to the next call. What
//! the store is taken to do with a request is written down here as a model:
//! a map from raw keys to raw values, read and changed one key at a time.

use vstd::prelude::*;

verus! {

/// A request to the store, on raw keys and raw values.
#[derive(Debug, Clone, PartialEq, Eq)]
pub enum Request {
    /// Read the value stored under `key`.
    Get { key: Vec<u8> },
    /// Store `value` under `key`, over whatever is there.
    Put { key: Vec<u8>, value: Vec<u8> },
    /// Delete `key`; nothing happens if it is absent.
    Delete { key: Vec<u8> },
}

/// What a `Request` asks for.
pub enum Op {
    Get { key: Seq<u8> },
    Put { key: Seq<u8>, value: Seq<u8> },
    Delete { key: Seq<u8> },
}

impl View for Request {
    type V = Op;

    open spec fn view(&self) -> Op {
        match self {
            Request::Get { key } => Op::Get { key: key@ },
            Request::Put { key, value } => Op::Put { key: key@, value: value@ },
            Request::Delete { key } => Op::Delete { key: key@ },
        }
    }
}

/// What the store holds once it has served `op`.
pub open spec fn after(store: Map<Seq<u8>, Seq<u8>>, op: Op) -> Map<Seq<u8>, Seq<u8>> {
    match op {
        Op::Get { key } => store,
        Op::Put { key, value } => store.insert(key, value),
        Op::Delete { key } => store.remove(key),
    }
}

/// The value that the store hands back for `op`: for a read of a key that
/// is present its value, else nothing.
pub open spec fn reply(store: Map<Seq<u8>, Seq<u8>>, op: Op) -> Option<Seq<u8>> {
    match op {
        Op::Get { key } => if store.dom().contains(key) {
            Some(store[key])
        } else {
            None
        },
        Op::Put { key, value } => None,
        Op::Delete { key } => None,
    }
}

/// The raw key that `op` is about.
pub open spec fn target(op: Op) -> Seq<u8> {
    match op {
        Op::Get { key } => key,
        Op::Put { key, value } => key,
        Op::Delete { key } => key,
    }
}

/// A request changes nothing under a raw key other than its own.
pub proof fn lemma_other_keys_untouched(store: Map<Seq<u8>, Seq<u8>>, op: Op, key: Seq<u8>)
    requires
        key != target(op),
    ensures
        reply(after(store, op), Op::Get { key }) == reply(store, Op::Get { key }),
{
}

} // verus!
