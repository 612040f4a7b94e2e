//! Byte-string utilities shared by the storage and wire-format layers:
//! lexicographic comparison of raw keys and big-endian integer encodings.

use vstd::prelude::*;

verus! {

/// Three-way lexicographic comparison of byte strings, as an integer in
/// {-1, 0, 1}. This is the ordering of raw keys in the store.
pub open spec fn lex_cmp_spec(a: Seq<u8>, b: Seq<u8>) -> int
    decreases a.len(),
{
    if a.len() == 0 && b.len() == 0 {
        0
    } else if a.len() == 0 {
        -1
    } else if b.len() == 0 {
        1
    } else if a[0] < b[0] {
        -1
    } else if a[0] > b[0] {
        1
    } else {
        lex_cmp_spec(a.skip(1), b.skip(1))
    }
}

pub open spec fn lex_lt(a: Seq<u8>, b: Seq<u8>) -> bool {
    lex_cmp_spec(a, b) == -1
}

pub open spec fn lex_le(a: Seq<u8>, b: Seq<u8>) -> bool {
    lex_cmp_spec(a, b) <= 0
}

pub proof fn lemma_lex_cmp_range(a: Seq<u8>, b: Seq<u8>)
    ensures
        lex_cmp_spec(a, b) == -1 || lex_cmp_spec(a, b) == 0 || lex_cmp_spec(a, b) == 1,
    decreases a.len(),
{
    if a.len() != 0 && b.len() != 0 && a[0] == b[0] {
        lemma_lex_cmp_range(a.skip(1), b.skip(1));
    }
}

/// The comparison is zero exactly on equal strings.
pub proof fn lemma_lex_cmp_eq_iff(a: Seq<u8>, b: Seq<u8>)
    ensures
        lex_cmp_spec(a, b) == 0 <==> a == b,
    decreases a.len(),
{
    if a.len() == 0 && b.len() == 0 {
        assert(a =~= b);
    } else if a.len() != 0 && b.len() != 0 && a[0] == b[0] {
        lemma_lex_cmp_eq_iff(a.skip(1), b.skip(1));
        if lex_cmp_spec(a, b) == 0 {
            assert(a.skip(1) == b.skip(1));
            assert(a =~= b) by {
                assert(forall|i: int| 1 <= i < a.len() ==> a[i] == a.skip(1)[i - 1]);
            }
        }
        if a == b {
            assert(a.skip(1) =~= b.skip(1));
        }
    }
}

/// Swapping the arguments flips the sign.
pub proof fn lemma_lex_cmp_antisym(a: Seq<u8>, b: Seq<u8>)
    ensures
        lex_cmp_spec(a, b) == -lex_cmp_spec(b, a),
    decreases a.len(),
{
    if a.len() != 0 && b.len() != 0 && a[0] == b[0] {
        lemma_lex_cmp_antisym(a.skip(1), b.skip(1));
    }
}

/// Strict lexicographic order is transitive.
pub proof fn lemma_lex_lt_trans(a: Seq<u8>, b: Seq<u8>, c: Seq<u8>)
    requires
        lex_lt(a, b),
        lex_lt(b, c),
    ensures
        lex_lt(a, c),
    decreases a.len(),
{
    lemma_lex_cmp_range(a, c);
    if b.len() != 0 && c.len() != 0 {
        if a.len() == 0 {
        } else {
            if a[0] == b[0] && b[0] == c[0] {
                lemma_lex_lt_trans(a.skip(1), b.skip(1), c.skip(1));
            }
        }
    }
}

/// Compare two byte vectors lexicographically; returns -1, 0 or 1.
pub fn lex_cmp_bytes(a: &Vec<u8>, b: &Vec<u8>) -> (r: i8)
    ensures
        r as int == lex_cmp_spec(a@, b@),
{
    let mut i: usize = 0;
    proof {
        assert(a@.skip(0) =~= a@);
        assert(b@.skip(0) =~= b@);
    }
    loop
        invariant
            i <= a.len(),
            i <= b.len(),
            lex_cmp_spec(a@, b@) == lex_cmp_spec(a@.skip(i as int), b@.skip(i as int)),
        decreases a.len() - i,
    {
        if i >= a.len() || i >= b.len() {
            proof {
                assert(a@.skip(i as int).len() == 0 || b@.skip(i as int).len() == 0);
            }
            if a.len() == b.len() {
                return 0;
            } else if a.len() < b.len() {
                return -1;
            } else {
                return 1;
            }
        }
        let x = a[i];
        let y = b[i];
        if x < y {
            proof {
                assert(a@.skip(i as int)[0] == x && b@.skip(i as int)[0] == y);
            }
            return -1;
        } else if x > y {
            proof {
                assert(a@.skip(i as int)[0] == x && b@.skip(i as int)[0] == y);
            }
            return 1;
        }
        proof {
            assert(a@.skip(i as int)[0] == x && b@.skip(i as int)[0] == y);
            assert(a@.skip(i as int).skip(1) =~= a@.skip(i + 1));
            assert(b@.skip(i as int).skip(1) =~= b@.skip(i + 1));
        }
        i = i + 1;
    }
}

/// A fresh byte vector with the same contents.
pub fn copy_bytes(src: &Vec<u8>) -> (r: Vec<u8>)
    ensures
        r@ == src@,
{
    let mut r: Vec<u8> = Vec::new();
    let mut i: usize = 0;
    while i < src.len()
        invariant
            i <= src@.len(),
            r@ =~= src@.subrange(0, i as int),
        decreases src@.len() - i,
    {
        r.push(src[i]);
        i = i + 1;
    }
    proof {
        assert(src@.subrange(0, src@.len() as int) =~= src@);
    }
    r
}

/// Byte-string equality.
pub fn bytes_eq(a: &Vec<u8>, b: &Vec<u8>) -> (r: bool)
    ensures
        r <==> a@ == b@,
{
    let c = lex_cmp_bytes(a, b);
    proof {
        lemma_lex_cmp_eq_iff(a@, b@);
    }
    c == 0
}

/// Big-endian encoding of `x` in exactly `n` bytes (truncating above 256^n).
pub open spec fn spec_be(x: nat, n: nat) -> Seq<u8>
    decreases n,
{
    if n == 0 {
        Seq::empty()
    } else {
        spec_be(x / 256, (n - 1) as nat).push((x % 256) as u8)
    }
}

/// Big-endian decoding of a byte string to a natural number.
pub open spec fn spec_from_be(s: Seq<u8>) -> nat
    decreases s.len(),
{
    if s.len() == 0 {
        0
    } else {
        spec_from_be(s.drop_last()) * 256 + (s.last() as nat)
    }
}

pub open spec fn pow256(n: nat) -> nat
    decreases n,
{
    if n == 0 {
        1
    } else {
        256 * pow256((n - 1) as nat)
    }
}

pub proof fn lemma_be_len(x: nat, n: nat)
    ensures
        spec_be(x, n).len() == n,
    decreases n,
{
    if n > 0 {
        lemma_be_len(x / 256, (n - 1) as nat);
    }
}

/// Decoding inverts encoding, modulo the width.
pub proof fn lemma_be_roundtrip(x: nat, n: nat)
    ensures
        spec_from_be(spec_be(x, n)) == x % pow256(n),
    decreases n,
{
    if n == 0 {
        assert(pow256(0) == 1);
        assert(x % 1 == 0);
    } else {
        let m = (n - 1) as nat;
        lemma_be_roundtrip(x / 256, m);
        lemma_be_len(x / 256, m);
        let s = spec_be(x, n);
        assert(s.drop_last() =~= spec_be(x / 256, m));
        assert(s.last() == (x % 256) as u8);
        assert(spec_from_be(s) == ((x / 256) % pow256(m)) * 256 + x % 256);
        assert(((x / 256) % pow256(m)) * 256 + x % 256 == x % (pow256(m) * 256)) by {
            lemma_pow256_pos(m);
            vstd::arithmetic::div_mod::lemma_mod_breakdown(x as int, 256, pow256(m) as int);
        }
        assert(pow256(m) * 256 == pow256(n)) by {
            assert(pow256(n) == 256 * pow256(m));
        }
    }
}

/// Encoding is injective below the width bound.
pub proof fn lemma_be_injective(x: nat, y: nat, n: nat)
    requires
        x < pow256(n),
        y < pow256(n),
        spec_be(x, n) == spec_be(y, n),
    ensures
        x == y,
{
    lemma_be_roundtrip(x, n);
    lemma_be_roundtrip(y, n);
    vstd::arithmetic::div_mod::lemma_small_mod(x, pow256(n));
    vstd::arithmetic::div_mod::lemma_small_mod(y, pow256(n));
}

/// Encode a `u16` as two big-endian bytes.
pub fn u16_to_be(x: u16) -> (r: Vec<u8>)
    ensures
        r@ == spec_be(x as nat, 2),
        r@.len() == 2,
{
    let b0: u8 = (x / 256) as u8;
    let b1: u8 = (x % 256) as u8;
    let mut r: Vec<u8> = Vec::new();
    r.push(b0);
    r.push(b1);
    proof {
        reveal_with_fuel(spec_be, 3);
        assert(x as nat / 256 < 256);
        vstd::arithmetic::div_mod::lemma_small_mod(x as nat / 256, 256);
        vstd::arithmetic::div_mod::lemma_basic_div_specific_divisor(256);
        assert((x as nat / 256) / 256 == 0);
        assert(r@ =~= spec_be(x as nat, 2));
    }
    r
}

/// Decode two big-endian bytes as a `u16`.
pub fn u16_from_be(b0: u8, b1: u8) -> (r: u16)
    ensures
        r as nat == spec_from_be(seq![b0, b1]),
{
    let r: u16 = (b0 as u16) * 256 + (b1 as u16);
    proof {
        reveal_with_fuel(spec_from_be, 3);
        let s = seq![b0, b1];
        assert(s.drop_last() =~= seq![b0]);
        assert(seq![b0].drop_last() =~= Seq::<u8>::empty());
    }
    r
}

/// Encode a `u64` as eight big-endian bytes.
pub fn u64_to_be(x: u64) -> (r: Vec<u8>)
    ensures
        r@ == spec_be(x as nat, 8),
        r@.len() == 8,
{
    let mut tmp: Vec<u8> = Vec::new();
    let mut v: u64 = x;
    let mut k: usize = 0;
    proof {
        lemma_be_len(x as nat, 8);
        assert(pow256(0) == 1);
        vstd::arithmetic::div_mod::lemma_div_basics(x as int);
        assert(x as nat / pow256(0) == x as nat);
    }
    // collect the bytes least-significant first
    while k < 8
        invariant
            k <= 8,
            tmp@.len() == k,
            spec_be(x as nat, 8).len() == 8,
            v as nat == x as nat / pow256(k as nat),
            forall|j: int|
                0 <= j < k ==> tmp@[j] == (spec_be(x as nat, 8))[7 - j],
        decreases 8 - k,
    {
        let b: u8 = (v % 256) as u8;
        tmp.push(b);
        proof {
            lemma_be_byte(x as nat, 8, k as nat);
            lemma_pow256_pos(k as nat);
            assert(pow256((k + 1) as nat) == 256 * pow256(k as nat));
            vstd::arithmetic::div_mod::lemma_div_denominator(
                x as int,
                pow256(k as nat) as int,
                256,
            );
            assert(x as nat / pow256((k + 1) as nat) == (x as nat / pow256(k as nat)) / 256);
        }
        v = v / 256;
        k = k + 1;
    }
    let mut r: Vec<u8> = Vec::new();
    let mut i: usize = 0;
    while i < 8
        invariant
            i <= 8,
            tmp@.len() == 8,
            r@.len() == i,
            spec_be(x as nat, 8).len() == 8,
            forall|j: int| 0 <= j < 8 ==> tmp@[j] == (spec_be(x as nat, 8))[7 - j],
            forall|j: int| 0 <= j < i ==> r@[j] == (spec_be(x as nat, 8))[j],
        decreases 8 - i,
    {
        r.push(tmp[8 - 1 - i]);
        i = i + 1;
    }
    proof {
        lemma_be_len(x as nat, 8);
        assert(r@ =~= spec_be(x as nat, 8));
    }
    r
}

/// Byte `i` (from the most significant end) of the `n`-byte encoding is
/// `(x / 256^i) % 256` counted from the least significant end.
proof fn lemma_be_byte(x: nat, n: nat, i: nat)
    requires
        i < n,
    ensures
        spec_be(x, n)[n - 1 - i] == ((x / pow256(i)) % 256) as u8,
    decreases n,
{
    lemma_be_len(x, n);
    if i == 0 {
        assert(pow256(0) == 1);
        assert(x / 1 == x);
        assert(spec_be(x, n)[n - 1] == (x % 256) as u8);
    } else {
        let m = (n - 1) as nat;
        lemma_be_byte(x / 256, m, (i - 1) as nat);
        lemma_be_len(x / 256, m);
        assert(spec_be(x, n)[n - 1 - i] == spec_be(x / 256, m)[m - 1 - (i - 1)]);
        assert((x / 256) / pow256((i - 1) as nat) == x / pow256(i)) by {
            lemma_pow256_pos((i - 1) as nat);
            vstd::arithmetic::div_mod::lemma_div_denominator(
                x as int,
                256,
                pow256((i - 1) as nat) as int,
            );
            assert(256 * pow256((i - 1) as nat) == pow256(i));
        }
    }
}

/// Decode eight big-endian bytes as a `u64`. The slice must hold exactly the
/// eight bytes.
pub fn u64_from_be(b: &Vec<u8>) -> (r: u64)
    requires
        b@.len() == 8,
    ensures
        r as nat == spec_from_be(b@),
{
    let mut acc: u64 = 0;
    let mut i: usize = 0;
    while i < 8
        invariant
            i <= 8,
            b@.len() == 8,
            acc as nat == spec_from_be(b@.take(i as int)),
        decreases 8 - i,
    {
        proof {
            lemma_from_be_bound(b@.take(i as int));
            lemma_pow256_mono(i as nat, 7);
            assert(acc as nat * 256 + 255 < pow256(7) * 256);
            assert(pow256(7) * 256 == pow256(8));
            assert(pow256(8) == 0x10000000000000000) by {
                reveal_with_fuel(pow256, 9);
            }
        }
        acc = acc * 256 + (b[i] as u64);
        proof {
            assert(b@.take(i + 1).drop_last() =~= b@.take(i as int));
            assert(b@.take(i + 1).last() == b@[i as int]);
        }
        i = i + 1;
    }
    proof {
        assert(b@.take(8) =~= b@);
    }
    acc
}

pub proof fn lemma_pow256_pos(a: nat)
    ensures
        pow256(a) >= 1,
    decreases a,
{
    if a > 0 {
        lemma_pow256_pos((a - 1) as nat);
    }
}

pub proof fn lemma_pow256_mono(a: nat, b: nat)
    requires
        a <= b,
    ensures
        1 <= pow256(a) <= pow256(b),
    decreases b,
{
    lemma_pow256_pos(a);
    if a < b {
        lemma_pow256_mono(a, (b - 1) as nat);
        lemma_pow256_pos((b - 1) as nat);
        assert(pow256(b) == 256 * pow256((b - 1) as nat));
    }
}

/// An `n`-byte string decodes to less than `256^n`.
pub proof fn lemma_from_be_bound(s: Seq<u8>)
    ensures
        spec_from_be(s) < pow256(s.len()),
    decreases s.len(),
{
    if s.len() == 0 {
    } else {
        lemma_from_be_bound(s.drop_last());
        assert(pow256(s.len()) == 256 * pow256((s.len() - 1) as nat));
    }
}


/// Appending one byte to each of two equally long strings keeps a strict
/// order, and breaks a tie by the appended bytes.
pub proof fn lemma_lex_push(s1: Seq<u8>, s2: Seq<u8>, a: u8, b: u8)
    requires
        s1.len() == s2.len(),
        lex_lt(s1, s2) || (s1 == s2 && a < b),
    ensures
        lex_lt(s1.push(a), s2.push(b)),
    decreases s1.len(),
{
    let p1 = s1.push(a);
    let p2 = s2.push(b);
    if s1.len() == 0 {
        assert(p1[0] == a && p2[0] == b);
        if lex_lt(s1, s2) {
            // two empty strings compare equal
            assert(false);
        }
    } else {
        assert(p1[0] == s1[0] && p2[0] == s2[0]);
        if s1[0] == s2[0] {
            assert(p1.skip(1) =~= s1.skip(1).push(a));
            assert(p2.skip(1) =~= s2.skip(1).push(b));
            if s1 == s2 {
                assert(s1.skip(1) =~= s2.skip(1));
                lemma_lex_push(s1.skip(1), s2.skip(1), a, b);
            } else {
                lemma_lex_push(s1.skip(1), s2.skip(1), a, b);
            }
        } else {
            if !lex_lt(s1, s2) {
                assert(s1 =~= s2);
            }
        }
    }
}

/// A strict order on two equally long prefixes decides the order of any
/// two extensions.
pub proof fn lemma_lex_concat(a1: Seq<u8>, a2: Seq<u8>, r1: Seq<u8>, r2: Seq<u8>)
    requires
        a1.len() == a2.len(),
        lex_lt(a1, a2),
    ensures
        lex_lt(a1 + r1, a2 + r2),
    decreases a1.len(),
{
    let c1 = a1 + r1;
    let c2 = a2 + r2;
    if a1.len() == 0 {
        assert(false);
    } else {
        assert(c1[0] == a1[0] && c2[0] == a2[0]);
        if a1[0] == a2[0] {
            assert(c1.skip(1) =~= a1.skip(1) + r1);
            assert(c2.skip(1) =~= a2.skip(1) + r2);
            lemma_lex_concat(a1.skip(1), a2.skip(1), r1, r2);
        }
    }
}

/// The big-endian encoding respects the numeric order: a smaller number in
/// the same width sorts lexicographically first.
pub proof fn lemma_be_order(x: nat, y: nat, n: nat)
    requires
        x < y,
        y < pow256(n),
    ensures
        lex_lt(spec_be(x, n), spec_be(y, n)),
    decreases n,
{
    if n == 0 {
        assert(false);
    } else {
        let m = (n - 1) as nat;
        lemma_be_len(x / 256, m);
        lemma_be_len(y / 256, m);
        assert(y / 256 < pow256(m)) by {
            lemma_pow256_pos(m);
            assert(pow256(n) == 256 * pow256(m));
            vstd::arithmetic::div_mod::lemma_div_is_ordered(y as int, (pow256(n) - 1) as int, 256);
            vstd::arithmetic::div_mod::lemma_fundamental_div_mod(pow256(n) as int - 1, 256);
        }
        if x / 256 < y / 256 {
            lemma_be_order(x / 256, y / 256, m);
            lemma_lex_push(
                spec_be(x / 256, m),
                spec_be(y / 256, m),
                (x % 256) as u8,
                (y % 256) as u8,
            );
        } else {
            // same leading digits: the last byte decides
            assert(x / 256 == y / 256) by {
                vstd::arithmetic::div_mod::lemma_div_is_ordered(x as int, y as int, 256);
            }
            assert(x % 256 < y % 256) by {
                vstd::arithmetic::div_mod::lemma_fundamental_div_mod(x as int, 256);
                vstd::arithmetic::div_mod::lemma_fundamental_div_mod(y as int, 256);
            }
            assert(spec_be(x / 256, m) == spec_be(y / 256, m));
            lemma_lex_push(
                spec_be(x / 256, m),
                spec_be(y / 256, m),
                (x % 256) as u8,
                (y % 256) as u8,
            );
        }
    }
}
} // verus!
