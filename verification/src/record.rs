//! Layout of the record that the host hands to a guest iterator: when the
//! host loads the next key-value pair into guest memory, the payload is
//! `key ∥ value ∥ u16be(key_len)`. Storing the key length as a two-byte
//! big-endian suffix lets the guest pop the key out without allocating.
//! Keys are therefore at most 65535 bytes long.

use vstd::prelude::*;
use crate::bytes_util::{spec_be, spec_from_be, u16_from_be, lemma_be_roundtrip, lemma_be_len, pow256};

verus! {

/// The exact payload the host writes for one `(key, value)` record.
pub open spec fn record_encoding(key: Seq<u8>, value: Seq<u8>) -> Seq<u8> {
    key + value + spec_be(key.len() as nat, 2)
}

/// The key length encoded in the two-byte suffix of a payload.
pub open spec fn record_key_len(data: Seq<u8>) -> nat
    recommends
        data.len() >= 2,
{
    spec_from_be(data.subrange(data.len() - 2, data.len() as int))
}

/// A payload is well formed when it has the two-byte suffix and the suffix
/// describes a key that fits in what precedes it.
pub open spec fn record_well_formed(data: Seq<u8>) -> bool {
    &&& data.len() >= 2
    &&& record_key_len(data) <= data.len() - 2
}

/// Build the `db_next` payload for one record: `key ∥ value ∥ u16be(key_len)`.
pub fn join_tail(key: &Vec<u8>, value: &Vec<u8>) -> (r: Vec<u8>)
    requires
        key@.len() <= 0xFFFF,
        key@.len() + value@.len() + 2 <= usize::MAX,
    ensures
        r@ == record_encoding(key@, value@),
{
    let mut r: Vec<u8> = Vec::new();
    let mut i: usize = 0;
    while i < key.len()
        invariant
            i <= key@.len(),
            r@ =~= key@.subrange(0, i as int),
            key@.len() + value@.len() + 2 <= usize::MAX,
        decreases key@.len() - i,
    {
        r.push(key[i]);
        i = i + 1;
    }
    let mut j: usize = 0;
    while j < value.len()
        invariant
            j <= value@.len(),
            r@ =~= key@ + value@.subrange(0, j as int),
            key@.len() + value@.len() + 2 <= usize::MAX,
        decreases value@.len() - j,
    {
        r.push(value[j]);
        j = j + 1;
    }
    let klen: u16 = key.len() as u16;
    let suffix = crate::bytes_util::u16_to_be(klen);
    r.push(suffix[0]);
    r.push(suffix[1]);
    proof {
        lemma_be_len(klen as nat, 2);
        assert(suffix@ =~= seq![suffix@[0], suffix@[1]]);
        assert(r@ =~= key@ + value@ + spec_be(key@.len() as nat, 2));
    }
    r
}

/// Split a `db_next` payload back into its `(key, value)` pair: read the
/// two-byte big-endian length suffix, then cut the key off the front.
pub fn split_tail(data: Vec<u8>) -> (r: (Vec<u8>, Vec<u8>))
    requires
        record_well_formed(data@),
    ensures
        r.0@ == data@.subrange(0, record_key_len(data@) as int),
        r.1@ == data@.subrange(record_key_len(data@) as int, data@.len() - 2),
{
    let n = data.len();
    let b2 = data[n - 2];
    let b1 = data[n - 1];
    let klen16 = u16_from_be(b2, b1);
    proof {
        assert(data@.subrange(n - 2, n as int) =~= seq![b2, b1]);
    }
    let klen = klen16 as usize;
    let mut key: Vec<u8> = Vec::new();
    let mut i: usize = 0;
    while i < klen
        invariant
            i <= klen,
            klen + 2 <= data@.len(),
            key@ =~= data@.subrange(0, i as int),
        decreases klen - i,
    {
        key.push(data[i]);
        i = i + 1;
    }
    let mut value: Vec<u8> = Vec::new();
    let mut j: usize = klen;
    while j < n - 2
        invariant
            klen <= j <= n - 2,
            n == data@.len(),
            klen + 2 <= n,
            value@ =~= data@.subrange(klen as int, j as int),
        decreases n - 2 - j,
    {
        value.push(data[j]);
        j = j + 1;
    }
    (key, value)
}

/// Splitting recovers exactly the pair that was joined: the suffix of the
/// payload decodes to the key's length, the front is the key, and the middle
/// is the value.
pub proof fn lemma_record_roundtrip(key: Seq<u8>, value: Seq<u8>)
    requires
        key.len() <= 0xFFFF,
    ensures
        record_well_formed(record_encoding(key, value)),
        record_key_len(record_encoding(key, value)) == key.len(),
        record_encoding(key, value).subrange(0, key.len() as int) == key,
        record_encoding(key, value).subrange(
            key.len() as int,
            record_encoding(key, value).len() - 2,
        ) == value,
{
    let enc = record_encoding(key, value);
    lemma_be_len(key.len() as nat, 2);
    assert(enc.len() == key.len() + value.len() + 2);
    assert(enc.subrange(enc.len() - 2, enc.len() as int) =~= spec_be(key.len() as nat, 2));
    lemma_be_roundtrip(key.len() as nat, 2);
    assert(pow256(2) == 65536) by {
        reveal_with_fuel(pow256, 3);
    }
    vstd::arithmetic::div_mod::lemma_small_mod(key.len() as nat, 65536);
    assert(record_key_len(enc) == key.len());
    assert(enc.subrange(0, key.len() as int) =~= key);
    assert(enc.subrange(key.len() as int, enc.len() - 2) =~= value);
}

} // verus!
