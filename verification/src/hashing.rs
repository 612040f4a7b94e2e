//! Hashing and address derivation. All code, contract and root identifiers
//! are 32-byte digests; a contract address is derived deterministically from
//! the instantiating sender, the code hash and a salt.

use vstd::prelude::*;
use crate::bytes_util::{spec_be, lemma_be_len, lemma_be_injective, pow256};

verus! {

/// The digest the hash function assigns to a byte string. The function is
/// fixed by the outside implementation; nothing here depends on which value
/// it takes, only that equal inputs give equal digests.
pub uninterp spec fn sha256_of(data: Seq<u8>) -> Seq<u8>;

/// Relies on sha2::Sha256 (`Digest::digest`): the digest is a pure function
/// of the input bytes and is exactly 32 bytes long.
#[verifier::external_body]
pub fn hash_bytes(data: &Vec<u8>) -> (r: Vec<u8>)
    ensures
        r@ == sha256_of(data@),
        r@.len() == 32,
{
    let digest = <sha2::Sha256 as sha2::Digest>::digest(data.as_slice());
    digest.to_vec()
}

/// A byte string framed by its length: `u16be(len) ∥ bytes`. Used to build
/// hash preimages in which no field can bleed into the next.
pub open spec fn framed(s: Seq<u8>) -> Seq<u8> {
    spec_be(s.len() as nat, 2) + s
}

/// The preimage hashed to derive a contract address.
pub open spec fn addr_preimage(sender: Seq<u8>, code_hash: Seq<u8>, salt: Seq<u8>) -> Seq<u8> {
    framed(sender) + framed(code_hash) + salt
}

/// The address derived from `(sender, code_hash, salt)`: a pure function of
/// exactly those three inputs.
pub open spec fn spec_derive_addr(sender: Seq<u8>, code_hash: Seq<u8>, salt: Seq<u8>) -> Seq<u8> {
    sha256_of(addr_preimage(sender, code_hash, salt))
}

/// Compute the address of the contract a sender instantiates with the given
/// code and salt.
pub fn derive_addr(sender: &Vec<u8>, code_hash: &Vec<u8>, salt: &Vec<u8>) -> (r: Vec<u8>)
    requires
        sender@.len() <= 0xFFFF,
        code_hash@.len() <= 0xFFFF,
    ensures
        r@ == spec_derive_addr(sender@, code_hash@, salt@),
        r@.len() == 32,
{
    let mut preimage: Vec<u8> = crate::bytes_util::u16_to_be(sender.len() as u16);
    let mut i: usize = 0;
    while i < sender.len()
        invariant
            i <= sender@.len(),
            preimage@ =~= spec_be(sender@.len() as nat, 2) + sender@.subrange(0, i as int),
        decreases sender@.len() - i,
    {
        preimage.push(sender[i]);
        i = i + 1;
    }
    proof {
        assert(sender@.subrange(0, sender@.len() as int) =~= sender@);
    }
    let lenpfx = crate::bytes_util::u16_to_be(code_hash.len() as u16);
    preimage.push(lenpfx[0]);
    preimage.push(lenpfx[1]);
    proof {
        lemma_be_len(code_hash@.len() as nat, 2);
        assert(lenpfx@ =~= seq![lenpfx@[0], lenpfx@[1]]);
        assert(preimage@ =~= framed(sender@) + spec_be(code_hash@.len() as nat, 2));
    }
    let mut j: usize = 0;
    while j < code_hash.len()
        invariant
            j <= code_hash@.len(),
            preimage@ =~= framed(sender@) + spec_be(code_hash@.len() as nat, 2) + code_hash@.subrange(
                0,
                j as int,
            ),
        decreases code_hash@.len() - j,
    {
        preimage.push(code_hash[j]);
        j = j + 1;
    }
    let mut k: usize = 0;
    while k < salt.len()
        invariant
            k <= salt@.len(),
            preimage@ =~= framed(sender@) + spec_be(code_hash@.len() as nat, 2) + code_hash@
                + salt@.subrange(0, k as int),
        decreases salt@.len() - k,
    {
        preimage.push(salt[k]);
        k = k + 1;
    }
    proof {
        assert(code_hash@.subrange(0, code_hash@.len() as int) =~= code_hash@);
        assert(salt@.subrange(0, salt@.len() as int) =~= salt@);
        assert(preimage@ =~= addr_preimage(sender@, code_hash@, salt@));
    }
    hash_bytes(&preimage)
}

/// Removing a length frame from the front of a concatenation recovers the
/// framed field and the rest exactly: framing is unambiguous.
pub proof fn lemma_framed_unambiguous(a: Seq<u8>, x: Seq<u8>, b: Seq<u8>, y: Seq<u8>)
    requires
        a.len() <= 0xFFFF,
        b.len() <= 0xFFFF,
        framed(a) + x == framed(b) + y,
    ensures
        a == b,
        x == y,
{
    lemma_be_len(a.len() as nat, 2);
    lemma_be_len(b.len() as nat, 2);
    let s = framed(a) + x;
    assert(spec_be(a.len() as nat, 2) =~= s.subrange(0, 2));
    assert(spec_be(b.len() as nat, 2) =~= s.subrange(0, 2));
    assert(pow256(2) == 65536) by {
        reveal_with_fuel(pow256, 3);
    }
    lemma_be_injective(a.len() as nat, b.len() as nat, 2);
    assert(a =~= s.subrange(2, 2 + a.len() as int));
    assert(b =~= s.subrange(2, 2 + b.len() as int));
    assert(x =~= s.subrange(2 + a.len() as int, s.len() as int));
    assert(y =~= s.subrange(2 + b.len() as int, s.len() as int));
}

/// Address derivation never confuses two distinct `(sender, code_hash, salt)`
/// triples: their hash preimages differ, so equal addresses would need a
/// digest collision.
pub proof fn lemma_addr_preimage_injective(
    s1: Seq<u8>,
    h1: Seq<u8>,
    x1: Seq<u8>,
    s2: Seq<u8>,
    h2: Seq<u8>,
    x2: Seq<u8>,
)
    requires
        s1.len() <= 0xFFFF,
        s2.len() <= 0xFFFF,
        h1.len() <= 0xFFFF,
        h2.len() <= 0xFFFF,
        addr_preimage(s1, h1, x1) == addr_preimage(s2, h2, x2),
    ensures
        s1 == s2,
        h1 == h2,
        x1 == x2,
{
    assert(framed(s1) + (framed(h1) + x1) =~= addr_preimage(s1, h1, x1));
    assert(framed(s2) + (framed(h2) + x2) =~= addr_preimage(s2, h2, x2));
    lemma_framed_unambiguous(s1, framed(h1) + x1, s2, framed(h2) + x2);
    lemma_framed_unambiguous(h1, x1, h2, x2);
}

} // verus!
