//! Node keys of the Jellyfish Merkle tree. A node is addressed by
//! `(version, bit path)`; the key serializes to 10-42 bytes:
//! eight bytes of version (big endian), two bytes holding the number of path
//! bits (big endian), then exactly ⌈bits/8⌉ bytes of path.

use vstd::prelude::*;
use crate::bytes_util::{spec_be, spec_from_be, u64_to_be, u16_to_be, u64_from_be, u16_from_be, copy_bytes, lemma_be_len, lemma_be_injective, lemma_be_roundtrip, pow256};

verus! {

/// A fixed-capacity bit path: the first `num_bits` bits of `bytes` are the
/// path; the unused tail bytes are kept zero so that a path has one
/// representation.
pub struct BitArray {
    pub num_bits: u16,
    pub bytes: Vec<u8>,
}

/// Bytes needed to hold `num_bits` bits.
pub open spec fn spec_num_bytes(num_bits: u16) -> int {
    (num_bits + 7) / 8
}

impl BitArray {
    pub open spec fn wf(&self) -> bool {
        &&& self.bytes@.len() == 32
        &&& self.num_bits <= 256
        &&& forall|i: int|
            spec_num_bytes(self.num_bits) <= i < 32 ==> #[trigger] self.bytes@[i] == 0
    }

    /// The empty path: the root of the tree.
    pub fn empty() -> (r: BitArray)
        ensures
            r.wf(),
            r.num_bits == 0,
    {
        let mut bytes: Vec<u8> = Vec::new();
        let mut i: usize = 0;
        while i < 32
            invariant
                i <= 32,
                bytes@.len() == i,
                forall|j: int| 0 <= j < i ==> #[trigger] bytes@[j] == 0,
            decreases 32 - i,
        {
            bytes.push(0);
            i = i + 1;
        }
        BitArray { num_bits: 0, bytes }
    }
}

/// The versioned path that addresses one merkle node.
pub struct NodeKey {
    pub version: u64,
    pub bits: BitArray,
}

/// The exact wire form of a node key.
pub open spec fn spec_node_key_bytes(k: NodeKey) -> Seq<u8> {
    spec_be(k.version as nat, 8) + spec_be(k.bits.num_bits as nat, 2) + k.bits.bytes@.take(
        spec_num_bytes(k.bits.num_bits),
    )
}

impl NodeKey {
    pub open spec fn wf(&self) -> bool {
        self.bits.wf()
    }

    /// The root node's key at a version: the empty path.
    pub fn root(version: u64) -> (r: NodeKey)
        ensures
            r.wf(),
            r.version == version,
            r.bits.num_bits == 0,
    {
        NodeKey { version, bits: BitArray::empty() }
    }

    /// Serialize for use as a raw key in the backing store:
    /// `u64be(version) ∥ u16be(num_bits) ∥ path bytes`.
    pub fn raw_keys(&self) -> (r: Vec<u8>)
        requires
            self.wf(),
        ensures
            r@ == spec_node_key_bytes(*self),
            r@.len() == 10 + spec_num_bytes(self.bits.num_bits),
    {
        let mut r = u64_to_be(self.version);
        let nb = u16_to_be(self.bits.num_bits);
        r.push(nb[0]);
        r.push(nb[1]);
        proof {
            lemma_be_len(self.bits.num_bits as nat, 2);
            assert(nb@ =~= seq![nb@[0], nb@[1]]);
            assert(r@ =~= spec_be(self.version as nat, 8) + spec_be(self.bits.num_bits as nat, 2));
        }
        let num_bytes = ((self.bits.num_bits + 7) / 8) as usize;
        let mut i: usize = 0;
        while i < num_bytes
            invariant
                num_bytes == spec_num_bytes(self.bits.num_bits),
                num_bytes <= 32,
                self.bits.bytes@.len() == 32,
                i <= num_bytes,
                r@ =~= spec_be(self.version as nat, 8) + spec_be(self.bits.num_bits as nat, 2)
                    + self.bits.bytes@.take(i as int),
            decreases num_bytes - i,
        {
            r.push(self.bits.bytes[i]);
            i = i + 1;
        }
        r
    }

    /// Parse a raw key back. Returns `None` unless the slice is the wire
    /// form of a well-formed node key, in which case it returns exactly the
    /// key that was serialized.
    pub fn deserialize(slice: &Vec<u8>) -> (r: Option<NodeKey>)
        ensures
            match r {
                Some(k) => k.wf() && spec_node_key_bytes(k) == slice@,
                None => forall|k: NodeKey| k.wf() ==> spec_node_key_bytes(k) != slice@,
            },
    {
        let n = slice.len();
        if n < 10 || n > 42 {
            proof {
                assert forall|k: NodeKey| k.wf() implies spec_node_key_bytes(k) != slice@ by {
                    lemma_node_key_len(k);
                }
            }
            return None;
        }
        let mut ver_bytes: Vec<u8> = Vec::new();
        let mut i: usize = 0;
        while i < 8
            invariant
                i <= 8,
                n == slice@.len(),
                10 <= n <= 42,
                ver_bytes@ =~= slice@.take(i as int),
            decreases 8 - i,
        {
            ver_bytes.push(slice[i]);
            i = i + 1;
        }
        let version = u64_from_be(&ver_bytes);
        let num_bits = u16_from_be(slice[8], slice[9]);
        proof {
            assert(slice@.take(8) =~= slice@.subrange(0, 8));
            assert(seq![slice@[8], slice@[9]] =~= slice@.subrange(8, 10));
        }
        if num_bits > 256 {
            proof {
                assert forall|k: NodeKey| k.wf() implies spec_node_key_bytes(k) != slice@ by {
                    lemma_node_key_parts(k);
                    if spec_node_key_bytes(k) == slice@ {
                        lemma_parsed_fields(slice@, k);
                        assert(k.bits.num_bits as nat == num_bits as nat);
                    }
                }
            }
            return None;
        }
        let num_bytes = ((num_bits + 7) / 8) as usize;
        if n != 10 + num_bytes {
            proof {
                assert forall|k: NodeKey| k.wf() implies spec_node_key_bytes(k) != slice@ by {
                    lemma_node_key_parts(k);
                    if spec_node_key_bytes(k) == slice@ {
                        lemma_parsed_fields(slice@, k);
                        lemma_node_key_len(k);
                    }
                }
            }
            return None;
        }
        let mut bytes: Vec<u8> = Vec::new();
        let mut j: usize = 10;
        while j < n
            invariant
                10 <= j <= n,
                n == slice@.len(),
                n == 10 + num_bytes,
                bytes@ =~= slice@.subrange(10, j as int),
            decreases n - j,
        {
            bytes.push(slice[j]);
            j = j + 1;
        }
        proof {
            assert(bytes@.len() == num_bytes);
            assert(num_bytes <= 32);
            assert(bytes@.subrange(0, num_bytes as int) =~= slice@.subrange(10, n as int));
        }
        while bytes.len() < 32
            invariant
                num_bytes <= bytes@.len() <= 32,
                bytes@.subrange(0, num_bytes as int) =~= slice@.subrange(10, n as int),
                n == 10 + num_bytes,
                n == slice@.len(),
                forall|t: int| num_bytes <= t < bytes@.len() ==> #[trigger] bytes@[t] == 0,
            decreases 32 - bytes.len(),
        {
            bytes.push(0);
        }
        let k = NodeKey { version, bits: BitArray { num_bits, bytes } };
        proof {
            lemma_node_key_parts(k);
            assert(spec_be(k.version as nat, 8) =~= slice@.subrange(0, 8)) by {
                lemma_be_roundtrip_u64(k.version);
                lemma_be_len(k.version as nat, 8);
                lemma_ver_bytes_eq(k.version, slice@.subrange(0, 8));
            }
            assert(spec_be(k.bits.num_bits as nat, 2) =~= slice@.subrange(8, 10)) by {
                lemma_ver_bits_eq(k.bits.num_bits, slice@.subrange(8, 10));
            }
            assert(k.bits.bytes@.take(spec_num_bytes(k.bits.num_bits)) =~= slice@.subrange(
                10,
                n as int,
            ));
            assert(spec_node_key_bytes(k) =~= slice@);
        }
        Some(k)
    }
}

/// The wire form's length is ten bytes plus the path bytes.
proof fn lemma_node_key_len(k: NodeKey)
    requires
        k.wf(),
    ensures
        spec_node_key_bytes(k).len() == 10 + spec_num_bytes(k.bits.num_bits),
        10 <= spec_node_key_bytes(k).len() <= 42,
{
    lemma_be_len(k.version as nat, 8);
    lemma_be_len(k.bits.num_bits as nat, 2);
}

/// The three fields sit at fixed offsets of the wire form.
proof fn lemma_node_key_parts(k: NodeKey)
    requires
        k.wf(),
    ensures
        spec_node_key_bytes(k).subrange(0, 8) == spec_be(k.version as nat, 8),
        spec_node_key_bytes(k).subrange(8, 10) == spec_be(k.bits.num_bits as nat, 2),
        spec_node_key_bytes(k).subrange(10, spec_node_key_bytes(k).len() as int) == k.bits.bytes@
            .take(spec_num_bytes(k.bits.num_bits)),
{
    lemma_be_len(k.version as nat, 8);
    lemma_be_len(k.bits.num_bits as nat, 2);
    let s = spec_node_key_bytes(k);
    assert(s.subrange(0, 8) =~= spec_be(k.version as nat, 8));
    assert(s.subrange(8, 10) =~= spec_be(k.bits.num_bits as nat, 2));
    assert(s.subrange(10, s.len() as int) =~= k.bits.bytes@.take(spec_num_bytes(k.bits.num_bits)));
}

/// If a well-formed key's wire form equals `s`, the version and bit-count
/// read from `s` are that key's fields.
proof fn lemma_parsed_fields(s: Seq<u8>, k: NodeKey)
    requires
        k.wf(),
        spec_node_key_bytes(k) == s,
        s.len() >= 10,
    ensures
        spec_from_be(s.subrange(0, 8)) == k.version as nat,
        spec_from_be(s.subrange(8, 10)) == k.bits.num_bits as nat,
{
    lemma_node_key_parts(k);
    lemma_be_roundtrip(k.version as nat, 8);
    lemma_be_roundtrip(k.bits.num_bits as nat, 2);
    assert(pow256(8) == 0x10000000000000000) by {
        reveal_with_fuel(pow256, 9);
    }
    assert(pow256(2) == 0x10000) by {
        reveal_with_fuel(pow256, 3);
    }
    vstd::arithmetic::div_mod::lemma_small_mod(k.version as nat, pow256(8));
    vstd::arithmetic::div_mod::lemma_small_mod(k.bits.num_bits as nat, pow256(2));
}

proof fn lemma_be_roundtrip_u64(v: u64)
    ensures
        spec_from_be(spec_be(v as nat, 8)) == v as nat,
{
    lemma_be_roundtrip(v as nat, 8);
    assert(pow256(8) == 0x10000000000000000) by {
        reveal_with_fuel(pow256, 9);
    }
    vstd::arithmetic::div_mod::lemma_small_mod(v as nat, pow256(8));
}

/// An eight-byte string whose decoding is `v` is `v`'s encoding.
proof fn lemma_ver_bytes_eq(v: u64, s: Seq<u8>)
    requires
        s.len() == 8,
        spec_from_be(s) == v as nat,
    ensures
        spec_be(v as nat, 8) == s,
{
    crate::bytes_util::lemma_from_be_bound(s);
    lemma_enc_of_dec(s);
}

proof fn lemma_ver_bits_eq(v: u16, s: Seq<u8>)
    requires
        s.len() == 2,
        spec_from_be(s) == v as nat,
    ensures
        spec_be(v as nat, 2) == s,
{
    crate::bytes_util::lemma_from_be_bound(s);
    lemma_enc_of_dec(s);
}

/// Re-encoding a decoded string gives the string back.
proof fn lemma_enc_of_dec(s: Seq<u8>)
    ensures
        spec_be(spec_from_be(s), s.len() as nat) == s,
    decreases s.len(),
{
    if s.len() == 0 {
        assert(spec_be(spec_from_be(s), 0) =~= s);
    } else {
        let x = spec_from_be(s);
        let h = spec_from_be(s.drop_last());
        assert(x == h * 256 + s.last());
        assert(x % 256 == s.last() as nat && x / 256 == h) by {
            vstd::arithmetic::div_mod::lemma_fundamental_div_mod_converse(
                x as int,
                256,
                h as int,
                s.last() as int,
            );
        }
        lemma_enc_of_dec(s.drop_last());
        assert(spec_be(x, s.len() as nat) =~= s);
    }
}


/// The wire form orders by version first: every key of an older version
/// sorts lexicographically before every key of a newer one, so a commit at
/// a new version never overwrites an older version's nodes.
pub proof fn lemma_node_key_version_order(k1: NodeKey, k2: NodeKey)
    requires
        k1.wf(),
        k2.wf(),
        k1.version < k2.version,
    ensures
        crate::bytes_util::lex_lt(spec_node_key_bytes(k1), spec_node_key_bytes(k2)),
{
    lemma_be_len(k1.version as nat, 8);
    lemma_be_len(k2.version as nat, 8);
    assert((k2.version as nat) < pow256(8)) by {
        assert(pow256(8) == 0x10000000000000000) by {
            reveal_with_fuel(pow256, 9);
        }
    }
    crate::bytes_util::lemma_be_order(k1.version as nat, k2.version as nat, 8);
    let rest1 = spec_be(k1.bits.num_bits as nat, 2) + k1.bits.bytes@.take(
        spec_num_bytes(k1.bits.num_bits),
    );
    let rest2 = spec_be(k2.bits.num_bits as nat, 2) + k2.bits.bytes@.take(
        spec_num_bytes(k2.bits.num_bits),
    );
    crate::bytes_util::lemma_lex_concat(
        spec_be(k1.version as nat, 8),
        spec_be(k2.version as nat, 8),
        rest1,
        rest2,
    );
    assert(spec_node_key_bytes(k1) =~= spec_be(k1.version as nat, 8) + rest1);
    assert(spec_node_key_bytes(k2) =~= spec_be(k2.version as nat, 8) + rest2);
}
} // verus!
