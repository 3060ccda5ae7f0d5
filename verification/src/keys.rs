//! The key-space encoder.
//!
//! Every document lives under a composite key
//! `lower(schema) :: lower(collection) :: object-id`, where `::` is the
//! two-byte pad `0x3A 0x3A` and the case fold is ASCII-only. The prefix
//! without the object id is the collection prefix, the sole primitive used to
//! bound a collection scan. Schema and collection names must not contain the
//! pad, so the layout stays unambiguous; registration rejects such names.

use vstd::prelude::*;

use crate::order::has_prefix;

verus! {

/// ASCII lowercase of one byte.
pub open spec fn lower_byte(b: u8) -> u8 {
    if 65 <= b <= 90 {
        (b + 32) as u8
    } else {
        b
    }
}

/// ASCII lowercase of a byte string.
pub open spec fn lower_bytes(s: Seq<u8>) -> Seq<u8> {
    Seq::new(s.len(), |i: int| lower_byte(s[i]))
}

/// The two-byte pad between the key components.
pub open spec fn pad() -> Seq<u8> {
    seq![58u8, 58u8]
}

/// The collection prefix: folded schema, pad, folded collection, pad.
pub open spec fn spec_collection_prefix(schema: Seq<u8>, collection: Seq<u8>) -> Seq<u8> {
    lower_bytes(schema) + pad() + lower_bytes(collection) + pad()
}

/// The record key: the collection prefix followed by the object id bytes.
pub open spec fn spec_record_key(schema: Seq<u8>, collection: Seq<u8>, id: Seq<u8>) -> Seq<u8> {
    spec_collection_prefix(schema, collection) + id
}

/// Whether the pad occurs anywhere in a byte string.
pub open spec fn contains_pad(s: Seq<u8>) -> bool {
    exists|i: int| 0 <= i && i + 2 <= s.len() && (#[trigger] s[i]) == 58 && s[i + 1] == 58
}

/// ASCII lowercase, executably.
pub fn ascii_lowercase(v: &Vec<u8>) -> (r: Vec<u8>)
    ensures
        r@ == lower_bytes(v@),
{
    let n = v.len();
    let mut out: Vec<u8> = Vec::new();
    let mut i: usize = 0;
    while i < n
        invariant
            0 <= i <= n,
            n == v@.len(),
            out@.len() == i,
            forall|j: int| 0 <= j < i ==> out@[j] == lower_byte(#[trigger] v@[j]),
        decreases n - i,
    {
        let b = v[i];
        if 65 <= b && b <= 90 {
            out.push(b + 32);
        } else {
            out.push(b);
        }
        i = i + 1;
    }
    proof {
        assert(out@ =~= lower_bytes(v@));
    }
    out
}

/// Whether a byte string contains the pad, executably.
pub fn bytes_contain_pad(v: &Vec<u8>) -> (r: bool)
    ensures
        r == contains_pad(v@),
{
    if v.len() < 2 {
        proof {
            if contains_pad(v@) {
                let i = choose|i: int| 0 <= i && i + 2 <= v@.len() && (#[trigger] v@[i]) == 58 && v@[i + 1] == 58;
            }
        }
        return false;
    }
    let n = v.len() - 1;
    let mut i: usize = 0;
    while i < n
        invariant
            0 <= i <= n,
            n == v@.len() - 1,
            v@.len() >= 2,
            forall|j: int| 0 <= j < i ==> !(#[trigger] v@[j] == 58 && v@[j + 1] == 58),
        decreases n - i,
    {
        if v[i] == 58 && v[i + 1] == 58 {
            return true;
        }
        i = i + 1;
    }
    proof {
        if contains_pad(v@) {
            let j = choose|j: int| 0 <= j && j + 2 <= v@.len() && (#[trigger] v@[j]) == 58 && v@[j + 1] == 58;
            assert(!(v@[j] == 58 && v@[j + 1] == 58));
        }
    }
    false
}

/// Build the collection prefix for a schema and collection name, given as
/// their byte strings.
pub fn collection_prefix(schema: &Vec<u8>, collection: &Vec<u8>) -> (r: Vec<u8>)
    ensures
        r@ == spec_collection_prefix(schema@, collection@),
{
    let mut out = ascii_lowercase(schema);
    out.push(58);
    out.push(58);
    let mut low_coll = ascii_lowercase(collection);
    out.append(&mut low_coll);
    out.push(58);
    out.push(58);
    proof {
        assert(out@ =~= spec_collection_prefix(schema@, collection@));
    }
    out
}

/// Build the record key for a schema, collection and object id.
pub fn record_key(schema: &Vec<u8>, collection: &Vec<u8>, id: &Vec<u8>) -> (r: Vec<u8>)
    ensures
        r@ == spec_record_key(schema@, collection@, id@),
{
    let mut out = collection_prefix(schema, collection);
    let mut idc = crate::sorted::clone_bytes(id);
    out.append(&mut idc);
    proof {
        assert(out@ =~= spec_record_key(schema@, collection@, id@));
    }
    out
}

/// A record key determines its object id: the id is exactly what follows the
/// collection prefix, so two record keys of one collection are equal only
/// when their ids are.
pub proof fn lemma_record_key_suffix(schema: Seq<u8>, collection: Seq<u8>, id: Seq<u8>)
    ensures
        spec_record_key(schema, collection, id).subrange(
            spec_collection_prefix(schema, collection).len() as int,
            spec_record_key(schema, collection, id).len() as int,
        ) == id,
{
    let p = spec_collection_prefix(schema, collection);
    let k = spec_record_key(schema, collection, id);
    assert(k.subrange(p.len() as int, k.len() as int) =~= id);
}

/// Every record key of a collection starts with the collection's prefix, so
/// a prefix scan finds exactly the collection's records.
pub proof fn lemma_record_key_has_prefix(schema: Seq<u8>, collection: Seq<u8>, id: Seq<u8>)
    ensures
        has_prefix(
            spec_record_key(schema, collection, id),
            spec_collection_prefix(schema, collection),
        ),
{
    let p = spec_collection_prefix(schema, collection);
    let k = spec_record_key(schema, collection, id);
    assert(k.subrange(0, p.len() as int) =~= p);
}

} // verus!
