//! Namespace tags.
//!
//! A label becomes a block: its length as four bytes, least significant
//! first, then the label itself. A tag is a block, or the tag of a group
//! followed by a block. Blocks form a prefix code, so two different labels
//! under one parent never give tags of which one begins the other. The
//! layout is what is stored in front of every key, so it must never change.

use vstd::prelude::*;
use crate::error::ErrorKind;

verus! {

/// The longest label, in bytes, whose length the block can record.
pub const MAX_LABEL_LEN: u32 = 0xffff_ffff;

/// The four bytes of `n`, least significant first.
pub open spec fn le_bytes(n: u32) -> Seq<u8> {
    seq![
        (n % 256) as u8,
        (n / 256 % 256) as u8,
        (n / 65536 % 256) as u8,
        (n / 16777216) as u8,
    ]
}

/// The block of a label: the label's length, then the label.
pub open spec fn block(label: Seq<u8>) -> Seq<u8>
    recommends
        label.len() <= MAX_LABEL_LEN,
{
    le_bytes(label.len() as u32) + label
}

/// The tag of `label` below `parent`; at the top level `parent` is empty.
pub open spec fn tag_of(parent: Seq<u8>, label: Seq<u8>) -> Seq<u8>
    recommends
        label.len() <= MAX_LABEL_LEN,
{
    parent + block(label)
}

/// `bincode::serialize` on a `u32`. With the configuration that this
/// function fixes (integers at their full width, least significant byte
/// first, no size limit) the result is the four bytes of `n`; the bytes go
/// to a vector, which takes every write, so the call does not fail.
#[verifier::external_body]
fn serialize_u32(n: u32) -> (r: Option<Vec<u8>>)
    ensures
        r is Some,
        r.unwrap()@ == le_bytes(n),
{
    bincode::serialize(&n).ok()
}

/// The length that the block of a label of `len` bytes records.
///
/// A length that does not fit in four bytes is refused: it is never cut
/// down to fit.
pub fn block_length(len: usize) -> (r: Result<u32, ErrorKind>)
    ensures
        r is Ok <==> len <= MAX_LABEL_LEN,
        r matches Ok(n) ==> n == len,
        r matches Err(e) ==> e == ErrorKind::ContractViolation,
{
    if len > MAX_LABEL_LEN as usize {
        Err(ErrorKind::ContractViolation)
    } else {
        Ok(len as u32)
    }
}

/// Builds the tag of `label` below `parent`.
///
/// Fails, before anything is built, exactly when the label's length does
/// not fit in four bytes.
pub fn encode_tag(parent: &[u8], label: &[u8]) -> (r: Result<Vec<u8>, ErrorKind>)
    ensures
        r is Ok <==> label@.len() <= MAX_LABEL_LEN,
        r matches Ok(tag) ==> tag@ == tag_of(parent@, label@),
        r matches Err(e) ==> e == ErrorKind::ContractViolation,
{
    let length: u32 = match block_length(label.len()) {
        Ok(length) => length,
        Err(e) => {
            return Err(e);
        },
    };
    match serialize_u32(length) {
        Some(length_bytes) => {
            let mut tag: Vec<u8> = vstd::slice::slice_to_vec(parent);
            tag.extend_from_slice(length_bytes.as_slice());
            tag.extend_from_slice(label);
            assert(tag@ =~= tag_of(parent@, label@));
            Ok(tag)
        },
        None => vstd::pervasive::unreached(),
    }
}

/// The four bytes say which number they stand for.
pub proof fn lemma_le_bytes_injective(m: u32, n: u32)
    requires
        le_bytes(m) == le_bytes(n),
    ensures
        m == n,
{
    let a = le_bytes(m);
    let b = le_bytes(n);
    assert(a[0] == b[0] && a[1] == b[1] && a[2] == b[2] && a[3] == b[3]);
}

/// Blocks form a prefix code: a block begins another only if both are the
/// block of the same label.
pub proof fn lemma_block_prefix_free(l1: Seq<u8>, l2: Seq<u8>)
    requires
        l1.len() <= MAX_LABEL_LEN,
        l2.len() <= MAX_LABEL_LEN,
        block(l1).is_prefix_of(block(l2)),
    ensures
        l1 == l2,
{
    let b1 = block(l1);
    let b2 = block(l2);
    let n1 = l1.len() as u32;
    let n2 = l2.len() as u32;
    assert(b1 =~= b2.subrange(0, b1.len() as int));
    assert forall|i: int| 0 <= i < 4 implies le_bytes(n1)[i] == le_bytes(n2)[i] by {
        assert(b1[i] == le_bytes(n1)[i]);
        assert(b2[i] == le_bytes(n2)[i]);
        assert(b1[i] == b2.subrange(0, b1.len() as int)[i]);
    }
    assert(le_bytes(n1) =~= le_bytes(n2));
    lemma_le_bytes_injective(n1, n2);
    assert forall|i: int| 0 <= i < l1.len() implies l1[i] == l2[i] by {
        assert(b1[4 + i] == l1[i]);
        assert(b2[4 + i] == l2[i]);
        assert(b1[4 + i] == b2.subrange(0, b1.len() as int)[4 + i]);
    }
    assert(l1 =~= l2);
}

/// A sequence of blocks reads back in one way only: where a block followed
/// by some bytes equals a block followed by some bytes, the labels are the
/// same and so is what follows.
pub proof fn lemma_block_parse_unique(l1: Seq<u8>, rest1: Seq<u8>, l2: Seq<u8>, rest2: Seq<u8>)
    requires
        l1.len() <= MAX_LABEL_LEN,
        l2.len() <= MAX_LABEL_LEN,
        block(l1) + rest1 == block(l2) + rest2,
    ensures
        l1 == l2,
        rest1 == rest2,
{
    let s1 = block(l1) + rest1;
    let s2 = block(l2) + rest2;
    let n1 = l1.len() as u32;
    let n2 = l2.len() as u32;
    assert forall|i: int| 0 <= i < 4 implies le_bytes(n1)[i] == le_bytes(n2)[i] by {
        assert(s1[i] == le_bytes(n1)[i]);
        assert(s2[i] == le_bytes(n2)[i]);
    }
    assert(le_bytes(n1) =~= le_bytes(n2));
    lemma_le_bytes_injective(n1, n2);
    assert forall|i: int| 0 <= i < l1.len() implies l1[i] == l2[i] by {
        assert(s1[4 + i] == l1[i]);
        assert(s2[4 + i] == l2[i]);
    }
    assert(l1 =~= l2);
    assert(le_bytes(n1).len() == 4 && le_bytes(n2).len() == 4);
    assert(s1.len() == 4 + l1.len() + rest1.len());
    assert(s2.len() == 4 + l2.len() + rest2.len());
    assert(rest1.len() == rest2.len());
    assert forall|i: int| 0 <= i < rest1.len() implies rest1[i] == rest2[i] by {
        assert(s1[4 + l1.len() + i] == rest1[i]);
        assert(s2[4 + l2.len() + i] == rest2[i]);
    }
    assert(rest1 =~= rest2);
}

/// Two tags below one parent: one begins the other only if their labels
/// are the same.
pub proof fn lemma_sibling_tags_prefix_free(parent: Seq<u8>, l1: Seq<u8>, l2: Seq<u8>)
    requires
        l1.len() <= MAX_LABEL_LEN,
        l2.len() <= MAX_LABEL_LEN,
        tag_of(parent, l1).is_prefix_of(tag_of(parent, l2)),
    ensures
        l1 == l2,
{
    let t1 = tag_of(parent, l1);
    let t2 = tag_of(parent, l2);
    let b1 = block(l1);
    let b2 = block(l2);
    let n = parent.len() as int;
    assert(t1 =~= t2.subrange(0, t1.len() as int));
    assert forall|i: int| 0 <= i < b1.len() implies b1[i] == b2[i] by {
        assert(t1[n + i] == b1[i]);
        assert(t2[n + i] == b2[i]);
        assert(t1[n + i] == t2.subrange(0, t1.len() as int)[n + i]);
    }
    assert(b1 =~= b2.subrange(0, b1.len() as int));
    lemma_block_prefix_free(l1, l2);
}

} // verus!
