//! Wire encodings above raw bytes: decimal strings for amounts, and the
//! JSON forms of the ABI types. Every encoder pins its exact canonical
//! bytes. Bank lookups and the result frames also decode, with both
//! directions proved: a parsed value re-encodes to the input, and a
//! rejected input is the canonical form of nothing. `Response` and
//! `QueryRequest` carry encoders only; reading those back is done by the
//! unverified surroundings.

use vstd::prelude::*;
use crate::coins::Coins;
use crate::types::{BankQuery, QueryRequest, TransferMsg, Response, Message, SubMsg, ReplyOn, Attribute, GenericResult};
use crate::commit::append_bytes;

verus! {

/// The decimal form of a number: most significant digit first, no leading
/// zero except for zero itself.
pub open spec fn dec_of(n: nat) -> Seq<u8>
    decreases n,
{
    if n < 10 {
        seq![(48 + n) as u8]
    } else {
        dec_of(n / 10).push((48 + n % 10) as u8)
    }
}

/// The number a digit string denotes.
pub open spec fn dec_val(s: Seq<u8>) -> nat
    decreases s.len(),
{
    if s.len() == 0 {
        0
    } else {
        dec_val(s.drop_last()) * 10 + (if 48 <= s.last() <= 57 {
            (s.last() - 48) as nat
        } else {
            0
        })
    }
}

pub open spec fn all_digits(s: Seq<u8>) -> bool {
    forall|i: int| 0 <= i < s.len() ==> 48 <= #[trigger] s[i] <= 57
}

pub proof fn lemma_dec_of_digits(n: nat)
    ensures
        all_digits(dec_of(n)),
        1 <= dec_of(n).len(),
        dec_of(n)[0] != 48 || n < 10,
    decreases n,
{
    if n >= 10 {
        lemma_dec_of_digits(n / 10);
        let s = dec_of(n);
        assert(s == dec_of(n / 10).push((48 + n % 10) as u8));
        assert forall|i: int| 0 <= i < s.len() implies 48 <= #[trigger] s[i] <= 57 by {
            if i < s.len() - 1 {
                assert(s[i] == dec_of(n / 10)[i]);
            }
        }
        assert(s[0] == dec_of(n / 10)[0]);
    }
}

/// Reading the decimal form back gives the number.
pub proof fn lemma_dec_roundtrip(n: nat)
    ensures
        dec_val(dec_of(n)) == n,
    decreases n,
{
    if n < 10 {
        let c = (48 + n) as u8;
        assert(c == 48 + n);
        assert(dec_of(n) == seq![c]);
        assert(dec_of(n).drop_last() =~= Seq::<u8>::empty());
        assert(dec_of(n).last() == c);
        assert(48 <= c <= 57);
        assert((c - 48) as nat == n);
        assert(dec_val(dec_of(n)) == dec_val(Seq::<u8>::empty()) * 10 + n);
    } else {
        lemma_dec_roundtrip(n / 10);
        let s = dec_of(n);
        let c = (48 + n % 10) as u8;
        assert(c == 48 + n % 10);
        assert(48 <= c <= 57);
        assert((c - 48) as nat == n % 10);
        assert(s.drop_last() =~= dec_of(n / 10));
        assert(s.last() == c);
        assert(dec_val(s) == dec_val(s.drop_last()) * 10 + n % 10);
        assert(dec_val(s) == (n / 10) * 10 + n % 10);
        vstd::arithmetic::div_mod::lemma_fundamental_div_mod(n as int, 10);
    }
}

/// Write a number in decimal.
pub fn u128_to_dec(x: u128) -> (r: Vec<u8>)
    ensures
        r@ == dec_of(x as nat),
{
    let mut tmp: Vec<u8> = Vec::new();
    let mut v: u128 = x;
    loop
        invariant_except_break
            dec_of(x as nat) =~= dec_of(v as nat) + tmp@.reverse(),
        ensures
            dec_of(x as nat) =~= tmp@.reverse(),
        decreases v,
    {
        let digit: u8 = (v % 10) as u8;
        let ghost pre = tmp@;
        tmp.push(48 + digit);
        proof {
            assert(tmp@.reverse() =~= seq![(48 + digit) as u8] + pre.reverse());
        }
        if v < 10 {
            proof {
                assert(dec_of(v as nat) =~= seq![(48 + digit) as u8]);
                assert(dec_of(x as nat) =~= tmp@.reverse());
            }
            break;
        }
        proof {
            assert(dec_of(v as nat) == dec_of(v as nat / 10).push((48 + v as nat % 10) as u8));
            assert(dec_of(v as nat) + pre.reverse() =~= dec_of((v / 10) as nat) + tmp@.reverse());
        }
        v = v / 10;
    }
    let mut r: Vec<u8> = Vec::new();
    let n = tmp.len();
    let mut i: usize = 0;
    while i < n
        invariant
            n == tmp@.len(),
            i <= n,
            r@.len() == i,
            forall|j: int| 0 <= j < i ==> #[trigger] r@[j] == tmp@.reverse()[j],
        decreases n - i,
    {
        r.push(tmp[n - 1 - i]);
        i = i + 1;
    }
    proof {
        assert(r@ =~= tmp@.reverse());
    }
    r
}


// ---------------------------------------------------------------------
// hexadecimal strings
// ---------------------------------------------------------------------

/// Lower-case hexadecimal form of a byte string; the canonical string form
/// of addresses, hashes and binary payloads.
pub open spec fn hex_of(s: Seq<u8>) -> Seq<u8> {
    crate::execute::hex_of(s)
}

/// Positions of the hexadecimal form: two digit characters per input byte.
pub proof fn lemma_hex_of_index(s: Seq<u8>, i: int)
    requires
        0 <= i < s.len(),
    ensures
        hex_of(s).len() == 2 * s.len(),
        hex_of(s)[2 * i] == crate::execute::hex_digit(s[i] as int / 16),
        hex_of(s)[2 * i + 1] == crate::execute::hex_digit(s[i] as int % 16),
    decreases s.len(),
{
    lemma_hex_len(s);
    if i == s.len() - 1 {
        lemma_hex_len(s.drop_last());
    } else {
        lemma_hex_of_index(s.drop_last(), i);
        lemma_hex_len(s.drop_last());
        assert(s.drop_last()[i] == s[i]);
    }
}

pub proof fn lemma_hex_len(s: Seq<u8>)
    ensures
        hex_of(s).len() == 2 * s.len(),
    decreases s.len(),
{
    if s.len() > 0 {
        lemma_hex_len(s.drop_last());
    }
}

/// The value of one hexadecimal digit character, if it is one.
fn hex_val(b: u8) -> (r: Option<u8>)
    ensures
        match r {
            Some(x) => x < 16 && crate::execute::hex_digit(x as int) == b,
            None => forall|x: int| 0 <= x < 16 ==> crate::execute::hex_digit(x) != b,
        },
{
    if 48 <= b && b <= 57 {
        Some(b - 48)
    } else if 97 <= b && b <= 102 {
        Some(b - 87)
    } else {
        proof {
            assert forall|x: int| 0 <= x < 16 implies crate::execute::hex_digit(x) != b by {}
        }
        None
    }
}

/// Read a lower-case hexadecimal string back into bytes. Returns exactly
/// the byte string whose hexadecimal form the input is, and `None` when the
/// input is no hexadecimal form at all.
pub fn from_hex(s: &Vec<u8>) -> (r: Option<Vec<u8>>)
    ensures
        match r {
            Some(v) => hex_of(v@) == s@,
            None => forall|x: Seq<u8>| hex_of(x) != s@,
        },
{
    let n = s.len();
    if n % 2 != 0 {
        proof {
            assert forall|x: Seq<u8>| hex_of(x) != s@ by {
                lemma_hex_len(x);
            }
        }
        return None;
    }
    let mut out: Vec<u8> = Vec::new();
    let mut i: usize = 0;
    proof {
        assert(hex_of(out@) =~= s@.take(0));
    }
    while 2 * i < n
        invariant
            n == s@.len(),
            n % 2 == 0,
            2 * i <= n,
            out@.len() == i,
            hex_of(out@) =~= s@.take(2 * i),
        decreases n - 2 * i,
    {
        let hi = match hex_val(s[2 * i]) {
            Some(x) => x,
            None => {
                proof {
                    assert forall|x: Seq<u8>| hex_of(x) != s@ by {
                        if hex_of(x) == s@ {
                            lemma_hex_len(x);
                            lemma_hex_of_index(x, i as int);
                        }
                    }
                }
                return None;
            },
        };
        let lo = match hex_val(s[2 * i + 1]) {
            Some(x) => x,
            None => {
                proof {
                    assert forall|x: Seq<u8>| hex_of(x) != s@ by {
                        if hex_of(x) == s@ {
                            lemma_hex_len(x);
                            lemma_hex_of_index(x, i as int);
                        }
                    }
                }
                return None;
            },
        };
        let b: u8 = hi * 16 + lo;
        let ghost pre = out@;
        out.push(b);
        proof {
            assert(out@.drop_last() =~= pre);
            assert(out@.last() == b);
            assert(b as int / 16 == hi as int && b as int % 16 == lo as int) by {
                vstd::arithmetic::div_mod::lemma_fundamental_div_mod_converse(
                    b as int,
                    16,
                    hi as int,
                    lo as int,
                );
            }
            assert(hex_of(out@) =~= hex_of(pre) + seq![
                crate::execute::hex_digit(b as int / 16),
                crate::execute::hex_digit(b as int % 16),
            ]);
            assert(hex_of(out@) =~= s@.take(2 * (i + 1)));
        }
        i = i + 1;
    }
    proof {
        assert(s@.take(n as int) =~= s@);
    }
    Some(out)
}

/// Two byte strings with the same hexadecimal form are the same: reading a
/// hexadecimal form back is unambiguous.
pub proof fn lemma_hex_injective(x: Seq<u8>, y: Seq<u8>)
    requires
        hex_of(x) == hex_of(y),
    ensures
        x == y,
{
    lemma_hex_len(x);
    lemma_hex_len(y);
    assert forall|i: int| 0 <= i < x.len() implies x[i] == y[i] by {
        lemma_hex_of_index(x, i);
        lemma_hex_of_index(y, i);
        assert(crate::execute::hex_digit(x[i] as int / 16) == crate::execute::hex_digit(
            y[i] as int / 16,
        ));
        assert(crate::execute::hex_digit(x[i] as int % 16) == crate::execute::hex_digit(
            y[i] as int % 16,
        ));
        assert(x[i] as int / 16 == y[i] as int / 16 && x[i] as int % 16 == y[i] as int % 16);
    }
    assert(x =~= y);
}

// ---------------------------------------------------------------------
// JSON forms of the ABI types
// ---------------------------------------------------------------------

// the text `{\"balance\":{\"address\":\"`
pub open spec fn sl_bq_balance() -> Seq<u8> {
    seq![123u8, 34, 98, 97, 108, 97, 110, 99, 101, 34, 58, 123, 34, 97, 100, 100, 114, 101, 115, 115, 34, 58, 34]
}

fn el_bq_balance() -> (r: Vec<u8>)
    ensures
        r@ == sl_bq_balance(),
{
    let r: Vec<u8> = vec![123u8, 34, 98, 97, 108, 97, 110, 99, 101, 34, 58, 123, 34, 97, 100, 100, 114, 101, 115, 115, 34, 58, 34];
    proof {
        assert(r@ =~= sl_bq_balance());
    }
    r
}

// the text `{\"supply\":{\"denom\":\"`
pub open spec fn sl_bq_supply() -> Seq<u8> {
    seq![123u8, 34, 115, 117, 112, 112, 108, 121, 34, 58, 123, 34, 100, 101, 110, 111, 109, 34, 58, 34]
}

fn el_bq_supply() -> (r: Vec<u8>)
    ensures
        r@ == sl_bq_supply(),
{
    let r: Vec<u8> = vec![123u8, 34, 115, 117, 112, 112, 108, 121, 34, 58, 123, 34, 100, 101, 110, 111, 109, 34, 58, 34];
    proof {
        assert(r@ =~= sl_bq_supply());
    }
    r
}

// the text `{\"balances\":{\"address\":\"`
pub open spec fn sl_bq_balances() -> Seq<u8> {
    seq![123u8, 34, 98, 97, 108, 97, 110, 99, 101, 115, 34, 58, 123, 34, 97, 100, 100, 114, 101, 115, 115, 34, 58, 34]
}

fn el_bq_balances() -> (r: Vec<u8>)
    ensures
        r@ == sl_bq_balances(),
{
    let r: Vec<u8> = vec![123u8, 34, 98, 97, 108, 97, 110, 99, 101, 115, 34, 58, 123, 34, 97, 100, 100, 114, 101, 115, 115, 34, 58, 34];
    proof {
        assert(r@ =~= sl_bq_balances());
    }
    r
}

// the text `{\"supplies\":`
pub open spec fn sl_bq_supplies() -> Seq<u8> {
    seq![123u8, 34, 115, 117, 112, 112, 108, 105, 101, 115, 34, 58]
}

fn el_bq_supplies() -> (r: Vec<u8>)
    ensures
        r@ == sl_bq_supplies(),
{
    let r: Vec<u8> = vec![123u8, 34, 115, 117, 112, 112, 108, 105, 101, 115, 34, 58];
    proof {
        assert(r@ =~= sl_bq_supplies());
    }
    r
}

// the text `\",\"denom\":\"`
pub open spec fn sl_f_denom() -> Seq<u8> {
    seq![34u8, 44, 34, 100, 101, 110, 111, 109, 34, 58, 34]
}

fn el_f_denom() -> (r: Vec<u8>)
    ensures
        r@ == sl_f_denom(),
{
    let r: Vec<u8> = vec![34u8, 44, 34, 100, 101, 110, 111, 109, 34, 58, 34];
    proof {
        assert(r@ =~= sl_f_denom());
    }
    r
}

// the text `\",\"start_after\":\"`
pub open spec fn sl_f_start_after() -> Seq<u8> {
    seq![34u8, 44, 34, 115, 116, 97, 114, 116, 95, 97, 102, 116, 101, 114, 34, 58, 34]
}

fn el_f_start_after() -> (r: Vec<u8>)
    ensures
        r@ == sl_f_start_after(),
{
    let r: Vec<u8> = vec![34u8, 44, 34, 115, 116, 97, 114, 116, 95, 97, 102, 116, 101, 114, 34, 58, 34];
    proof {
        assert(r@ =~= sl_f_start_after());
    }
    r
}

// the text `\",\"limit\":`
pub open spec fn sl_f_limit() -> Seq<u8> {
    seq![34u8, 44, 34, 108, 105, 109, 105, 116, 34, 58]
}

fn el_f_limit() -> (r: Vec<u8>)
    ensures
        r@ == sl_f_limit(),
{
    let r: Vec<u8> = vec![34u8, 44, 34, 108, 105, 109, 105, 116, 34, 58];
    proof {
        assert(r@ =~= sl_f_limit());
    }
    r
}

// the text `\"}}`
pub open spec fn sl_qq_end() -> Seq<u8> {
    seq![34u8, 125, 125]
}

fn el_qq_end() -> (r: Vec<u8>)
    ensures
        r@ == sl_qq_end(),
{
    let r: Vec<u8> = vec![34u8, 125, 125];
    proof {
        assert(r@ =~= sl_qq_end());
    }
    r
}

// the text `}}`
pub open spec fn sl_nn_end() -> Seq<u8> {
    seq![125u8, 125]
}

fn el_nn_end() -> (r: Vec<u8>)
    ensures
        r@ == sl_nn_end(),
{
    let r: Vec<u8> = vec![125u8, 125];
    proof {
        assert(r@ =~= sl_nn_end());
    }
    r
}

// the text `}`
pub open spec fn sl_brace_end() -> Seq<u8> {
    seq![125u8]
}

fn el_brace_end() -> (r: Vec<u8>)
    ensures
        r@ == sl_brace_end(),
{
    let r: Vec<u8> = vec![125u8];
    proof {
        assert(r@ =~= sl_brace_end());
    }
    r
}

// the text `{}`
pub open spec fn sl_sup_empty() -> Seq<u8> {
    seq![123u8, 125]
}

fn el_sup_empty() -> (r: Vec<u8>)
    ensures
        r@ == sl_sup_empty(),
{
    let r: Vec<u8> = vec![123u8, 125];
    proof {
        assert(r@ =~= sl_sup_empty());
    }
    r
}

// the text `{\"start_after\":\"`
pub open spec fn sl_sup_sa() -> Seq<u8> {
    seq![123u8, 34, 115, 116, 97, 114, 116, 95, 97, 102, 116, 101, 114, 34, 58, 34]
}

fn el_sup_sa() -> (r: Vec<u8>)
    ensures
        r@ == sl_sup_sa(),
{
    let r: Vec<u8> = vec![123u8, 34, 115, 116, 97, 114, 116, 95, 97, 102, 116, 101, 114, 34, 58, 34];
    proof {
        assert(r@ =~= sl_sup_sa());
    }
    r
}

// the text `{\"limit\":`
pub open spec fn sl_sup_lim() -> Seq<u8> {
    seq![123u8, 34, 108, 105, 109, 105, 116, 34, 58]
}

fn el_sup_lim() -> (r: Vec<u8>)
    ensures
        r@ == sl_sup_lim(),
{
    let r: Vec<u8> = vec![123u8, 34, 108, 105, 109, 105, 116, 34, 58];
    proof {
        assert(r@ =~= sl_sup_lim());
    }
    r
}

// the text `{`
pub open spec fn sl_obrace() -> Seq<u8> {
    seq![123u8]
}

fn el_obrace() -> (r: Vec<u8>)
    ensures
        r@ == sl_obrace(),
{
    let r: Vec<u8> = vec![123u8];
    proof {
        assert(r@ =~= sl_obrace());
    }
    r
}

// the text `\"`
pub open spec fn sl_q() -> Seq<u8> {
    seq![34u8]
}

fn el_q() -> (r: Vec<u8>)
    ensures
        r@ == sl_q(),
{
    let r: Vec<u8> = vec![34u8];
    proof {
        assert(r@ =~= sl_q());
    }
    r
}

// the text `\":\"`
pub open spec fn sl_qcq() -> Seq<u8> {
    seq![34u8, 58, 34]
}

fn el_qcq() -> (r: Vec<u8>)
    ensures
        r@ == sl_qcq(),
{
    let r: Vec<u8> = vec![34u8, 58, 34];
    proof {
        assert(r@ =~= sl_qcq());
    }
    r
}

// the text `,\"`
pub open spec fn sl_cq() -> Seq<u8> {
    seq![44u8, 34]
}

fn el_cq() -> (r: Vec<u8>)
    ensures
        r@ == sl_cq(),
{
    let r: Vec<u8> = vec![44u8, 34];
    proof {
        assert(r@ =~= sl_cq());
    }
    r
}

// the text `{\"from\":\"`
pub open spec fn sl_tm_from() -> Seq<u8> {
    seq![123u8, 34, 102, 114, 111, 109, 34, 58, 34]
}

fn el_tm_from() -> (r: Vec<u8>)
    ensures
        r@ == sl_tm_from(),
{
    let r: Vec<u8> = vec![123u8, 34, 102, 114, 111, 109, 34, 58, 34];
    proof {
        assert(r@ =~= sl_tm_from());
    }
    r
}

// the text `\",\"to\":\"`
pub open spec fn sl_tm_to() -> Seq<u8> {
    seq![34u8, 44, 34, 116, 111, 34, 58, 34]
}

fn el_tm_to() -> (r: Vec<u8>)
    ensures
        r@ == sl_tm_to(),
{
    let r: Vec<u8> = vec![34u8, 44, 34, 116, 111, 34, 58, 34];
    proof {
        assert(r@ =~= sl_tm_to());
    }
    r
}

// the text `\",\"coins\":`
pub open spec fn sl_tm_coins() -> Seq<u8> {
    seq![34u8, 44, 34, 99, 111, 105, 110, 115, 34, 58]
}

fn el_tm_coins() -> (r: Vec<u8>)
    ensures
        r@ == sl_tm_coins(),
{
    let r: Vec<u8> = vec![34u8, 44, 34, 99, 111, 105, 110, 115, 34, 58];
    proof {
        assert(r@ =~= sl_tm_coins());
    }
    r
}

// the text `{\"attributes\":[`
pub open spec fn sl_resp_attrs() -> Seq<u8> {
    seq![123u8, 34, 97, 116, 116, 114, 105, 98, 117, 116, 101, 115, 34, 58, 91]
}

fn el_resp_attrs() -> (r: Vec<u8>)
    ensures
        r@ == sl_resp_attrs(),
{
    let r: Vec<u8> = vec![123u8, 34, 97, 116, 116, 114, 105, 98, 117, 116, 101, 115, 34, 58, 91];
    proof {
        assert(r@ =~= sl_resp_attrs());
    }
    r
}

// the text `{\"key\":\"`
pub open spec fn sl_attr_obj() -> Seq<u8> {
    seq![123u8, 34, 107, 101, 121, 34, 58, 34]
}

fn el_attr_obj() -> (r: Vec<u8>)
    ensures
        r@ == sl_attr_obj(),
{
    let r: Vec<u8> = vec![123u8, 34, 107, 101, 121, 34, 58, 34];
    proof {
        assert(r@ =~= sl_attr_obj());
    }
    r
}

// the text `\",\"value\":\"`
pub open spec fn sl_attr_val() -> Seq<u8> {
    seq![34u8, 44, 34, 118, 97, 108, 117, 101, 34, 58, 34]
}

fn el_attr_val() -> (r: Vec<u8>)
    ensures
        r@ == sl_attr_val(),
{
    let r: Vec<u8> = vec![34u8, 44, 34, 118, 97, 108, 117, 101, 34, 58, 34];
    proof {
        assert(r@ =~= sl_attr_val());
    }
    r
}

// the text `\"}`
pub open spec fn sl_qbrace() -> Seq<u8> {
    seq![34u8, 125]
}

fn el_qbrace() -> (r: Vec<u8>)
    ensures
        r@ == sl_qbrace(),
{
    let r: Vec<u8> = vec![34u8, 125];
    proof {
        assert(r@ =~= sl_qbrace());
    }
    r
}

// the text `,`
pub open spec fn sl_comma() -> Seq<u8> {
    seq![44u8]
}

fn el_comma() -> (r: Vec<u8>)
    ensures
        r@ == sl_comma(),
{
    let r: Vec<u8> = vec![44u8];
    proof {
        assert(r@ =~= sl_comma());
    }
    r
}

// the text `],\"submsgs\":[`
pub open spec fn sl_resp_submsgs() -> Seq<u8> {
    seq![93u8, 44, 34, 115, 117, 98, 109, 115, 103, 115, 34, 58, 91]
}

fn el_resp_submsgs() -> (r: Vec<u8>)
    ensures
        r@ == sl_resp_submsgs(),
{
    let r: Vec<u8> = vec![93u8, 44, 34, 115, 117, 98, 109, 115, 103, 115, 34, 58, 91];
    proof {
        assert(r@ =~= sl_resp_submsgs());
    }
    r
}

// the text `],\"data\":\"`
pub open spec fn sl_resp_data() -> Seq<u8> {
    seq![93u8, 44, 34, 100, 97, 116, 97, 34, 58, 34]
}

fn el_resp_data() -> (r: Vec<u8>)
    ensures
        r@ == sl_resp_data(),
{
    let r: Vec<u8> = vec![93u8, 44, 34, 100, 97, 116, 97, 34, 58, 34];
    proof {
        assert(r@ =~= sl_resp_data());
    }
    r
}

// the text `]}`
pub open spec fn sl_resp_end() -> Seq<u8> {
    seq![93u8, 125]
}

fn el_resp_end() -> (r: Vec<u8>)
    ensures
        r@ == sl_resp_end(),
{
    let r: Vec<u8> = vec![93u8, 125];
    proof {
        assert(r@ =~= sl_resp_end());
    }
    r
}

// the text `{\"msg\":`
pub open spec fn sl_sub_msg() -> Seq<u8> {
    seq![123u8, 34, 109, 115, 103, 34, 58]
}

fn el_sub_msg() -> (r: Vec<u8>)
    ensures
        r@ == sl_sub_msg(),
{
    let r: Vec<u8> = vec![123u8, 34, 109, 115, 103, 34, 58];
    proof {
        assert(r@ =~= sl_sub_msg());
    }
    r
}

// the text `,\"reply_on\":\"`
pub open spec fn sl_sub_reply() -> Seq<u8> {
    seq![44u8, 34, 114, 101, 112, 108, 121, 95, 111, 110, 34, 58, 34]
}

fn el_sub_reply() -> (r: Vec<u8>)
    ensures
        r@ == sl_sub_reply(),
{
    let r: Vec<u8> = vec![44u8, 34, 114, 101, 112, 108, 121, 95, 111, 110, 34, 58, 34];
    proof {
        assert(r@ =~= sl_sub_reply());
    }
    r
}

// the text `\",\"id\":`
pub open spec fn sl_sub_id() -> Seq<u8> {
    seq![34u8, 44, 34, 105, 100, 34, 58]
}

fn el_sub_id() -> (r: Vec<u8>)
    ensures
        r@ == sl_sub_id(),
{
    let r: Vec<u8> = vec![34u8, 44, 34, 105, 100, 34, 58];
    proof {
        assert(r@ =~= sl_sub_id());
    }
    r
}

// the text `never`
pub open spec fn sl_rep_never() -> Seq<u8> {
    seq![110u8, 101, 118, 101, 114]
}

fn el_rep_never() -> (r: Vec<u8>)
    ensures
        r@ == sl_rep_never(),
{
    let r: Vec<u8> = vec![110u8, 101, 118, 101, 114];
    proof {
        assert(r@ =~= sl_rep_never());
    }
    r
}

// the text `success`
pub open spec fn sl_rep_success() -> Seq<u8> {
    seq![115u8, 117, 99, 99, 101, 115, 115]
}

fn el_rep_success() -> (r: Vec<u8>)
    ensures
        r@ == sl_rep_success(),
{
    let r: Vec<u8> = vec![115u8, 117, 99, 99, 101, 115, 115];
    proof {
        assert(r@ =~= sl_rep_success());
    }
    r
}

// the text `error`
pub open spec fn sl_rep_error() -> Seq<u8> {
    seq![101u8, 114, 114, 111, 114]
}

fn el_rep_error() -> (r: Vec<u8>)
    ensures
        r@ == sl_rep_error(),
{
    let r: Vec<u8> = vec![101u8, 114, 114, 111, 114];
    proof {
        assert(r@ =~= sl_rep_error());
    }
    r
}

// the text `always`
pub open spec fn sl_rep_always() -> Seq<u8> {
    seq![97u8, 108, 119, 97, 121, 115]
}

fn el_rep_always() -> (r: Vec<u8>)
    ensures
        r@ == sl_rep_always(),
{
    let r: Vec<u8> = vec![97u8, 108, 119, 97, 121, 115];
    proof {
        assert(r@ =~= sl_rep_always());
    }
    r
}

// the text `{\"store_code\":{\"wasm_byte_code\":\"`
pub open spec fn sl_msg_store_code() -> Seq<u8> {
    seq![123u8, 34, 115, 116, 111, 114, 101, 95, 99, 111, 100, 101, 34, 58, 123, 34, 119, 97, 115, 109, 95, 98, 121, 116, 101, 95, 99, 111, 100, 101, 34, 58, 34]
}

fn el_msg_store_code() -> (r: Vec<u8>)
    ensures
        r@ == sl_msg_store_code(),
{
    let r: Vec<u8> = vec![123u8, 34, 115, 116, 111, 114, 101, 95, 99, 111, 100, 101, 34, 58, 123, 34, 119, 97, 115, 109, 95, 98, 121, 116, 101, 95, 99, 111, 100, 101, 34, 58, 34];
    proof {
        assert(r@ =~= sl_msg_store_code());
    }
    r
}

// the text `{\"instantiate\":{\"code_hash\":\"`
pub open spec fn sl_msg_inst() -> Seq<u8> {
    seq![123u8, 34, 105, 110, 115, 116, 97, 110, 116, 105, 97, 116, 101, 34, 58, 123, 34, 99, 111, 100, 101, 95, 104, 97, 115, 104, 34, 58, 34]
}

fn el_msg_inst() -> (r: Vec<u8>)
    ensures
        r@ == sl_msg_inst(),
{
    let r: Vec<u8> = vec![123u8, 34, 105, 110, 115, 116, 97, 110, 116, 105, 97, 116, 101, 34, 58, 123, 34, 99, 111, 100, 101, 95, 104, 97, 115, 104, 34, 58, 34];
    proof {
        assert(r@ =~= sl_msg_inst());
    }
    r
}

// the text `\",\"msg\":\"`
pub open spec fn sl_mi_msg() -> Seq<u8> {
    seq![34u8, 44, 34, 109, 115, 103, 34, 58, 34]
}

fn el_mi_msg() -> (r: Vec<u8>)
    ensures
        r@ == sl_mi_msg(),
{
    let r: Vec<u8> = vec![34u8, 44, 34, 109, 115, 103, 34, 58, 34];
    proof {
        assert(r@ =~= sl_mi_msg());
    }
    r
}

// the text `\",\"salt\":\"`
pub open spec fn sl_mi_salt() -> Seq<u8> {
    seq![34u8, 44, 34, 115, 97, 108, 116, 34, 58, 34]
}

fn el_mi_salt() -> (r: Vec<u8>)
    ensures
        r@ == sl_mi_salt(),
{
    let r: Vec<u8> = vec![34u8, 44, 34, 115, 97, 108, 116, 34, 58, 34];
    proof {
        assert(r@ =~= sl_mi_salt());
    }
    r
}

// the text `\",\"funds\":`
pub open spec fn sl_mi_funds() -> Seq<u8> {
    seq![34u8, 44, 34, 102, 117, 110, 100, 115, 34, 58]
}

fn el_mi_funds() -> (r: Vec<u8>)
    ensures
        r@ == sl_mi_funds(),
{
    let r: Vec<u8> = vec![34u8, 44, 34, 102, 117, 110, 100, 115, 34, 58];
    proof {
        assert(r@ =~= sl_mi_funds());
    }
    r
}

// the text `,\"admin\":\"`
pub open spec fn sl_mi_admin() -> Seq<u8> {
    seq![44u8, 34, 97, 100, 109, 105, 110, 34, 58, 34]
}

fn el_mi_admin() -> (r: Vec<u8>)
    ensures
        r@ == sl_mi_admin(),
{
    let r: Vec<u8> = vec![44u8, 34, 97, 100, 109, 105, 110, 34, 58, 34];
    proof {
        assert(r@ =~= sl_mi_admin());
    }
    r
}

// the text `{\"execute\":{\"contract\":\"`
pub open spec fn sl_msg_exec() -> Seq<u8> {
    seq![123u8, 34, 101, 120, 101, 99, 117, 116, 101, 34, 58, 123, 34, 99, 111, 110, 116, 114, 97, 99, 116, 34, 58, 34]
}

fn el_msg_exec() -> (r: Vec<u8>)
    ensures
        r@ == sl_msg_exec(),
{
    let r: Vec<u8> = vec![123u8, 34, 101, 120, 101, 99, 117, 116, 101, 34, 58, 123, 34, 99, 111, 110, 116, 114, 97, 99, 116, 34, 58, 34];
    proof {
        assert(r@ =~= sl_msg_exec());
    }
    r
}

// the text `{\"migrate\":{\"contract\":\"`
pub open spec fn sl_msg_migrate() -> Seq<u8> {
    seq![123u8, 34, 109, 105, 103, 114, 97, 116, 101, 34, 58, 123, 34, 99, 111, 110, 116, 114, 97, 99, 116, 34, 58, 34]
}

fn el_msg_migrate() -> (r: Vec<u8>)
    ensures
        r@ == sl_msg_migrate(),
{
    let r: Vec<u8> = vec![123u8, 34, 109, 105, 103, 114, 97, 116, 101, 34, 58, 123, 34, 99, 111, 110, 116, 114, 97, 99, 116, 34, 58, 34];
    proof {
        assert(r@ =~= sl_msg_migrate());
    }
    r
}

// the text `\",\"new_code_hash\":\"`
pub open spec fn sl_mg_nch() -> Seq<u8> {
    seq![34u8, 44, 34, 110, 101, 119, 95, 99, 111, 100, 101, 95, 104, 97, 115, 104, 34, 58, 34]
}

fn el_mg_nch() -> (r: Vec<u8>)
    ensures
        r@ == sl_mg_nch(),
{
    let r: Vec<u8> = vec![34u8, 44, 34, 110, 101, 119, 95, 99, 111, 100, 101, 95, 104, 97, 115, 104, 34, 58, 34];
    proof {
        assert(r@ =~= sl_mg_nch());
    }
    r
}


/// Every denomination of a coins value can stand unescaped in JSON.
pub open spec fn coins_json_safe(c: crate::coins::CoinsModel) -> bool {
    forall|i: int| 0 <= i < c.len() ==> json_str_wf((#[trigger] c[i]).0)
}

/// Every attribute key and value can stand unescaped in JSON.
pub open spec fn attrs_json_safe(s: Seq<Attribute>) -> bool {
    forall|i: int|
        0 <= i < s.len() ==> json_str_wf((#[trigger] s[i]).key@) && json_str_wf(s[i].value@)
}

/// The free-form strings of a message can stand unescaped in JSON: only
/// the funds' denominations are free-form, everything else is written in
/// hexadecimal.
pub open spec fn msg_json_safe(m: Message) -> bool {
    match m {
        Message::StoreCode { .. } => true,
        Message::Instantiate { funds, .. } => coins_json_safe(funds@),
        Message::Execute { funds, .. } => coins_json_safe(funds@),
        Message::Migrate { .. } => true,
    }
}

pub open spec fn submsgs_json_safe(s: Seq<SubMsg>) -> bool {
    forall|i: int| 0 <= i < s.len() ==> msg_json_safe((#[trigger] s[i]).msg)
}

/// One entry of a coins object: `"denom":"amount"`.
pub open spec fn senc_coin_entry(d: Seq<u8>, n: u128) -> Seq<u8> {
    sl_q() + d + sl_qcq() + dec_of(n as nat) + sl_q()
}

pub open spec fn senc_coins_inner(c: crate::coins::CoinsModel) -> Seq<u8>
    decreases c.len(),
{
    if c.len() == 0 {
        Seq::empty()
    } else if c.len() == 1 {
        senc_coin_entry(c[0].0, c[0].1)
    } else {
        senc_coins_inner(c.drop_last()) + sl_comma() + senc_coin_entry(c.last().0, c.last().1)
    }
}

/// The JSON form of a coins value: an object from denomination to decimal
/// amount string, in the value's own (ascending) order.
pub open spec fn senc_coins(c: crate::coins::CoinsModel) -> Seq<u8> {
    sl_obrace() + senc_coins_inner(c) + sl_brace_end()
}

/// Write a coins value in its JSON form.
pub fn encode_coins(c: &Coins) -> (r: Vec<u8>)
    requires
        coins_json_safe(c@),
    ensures
        r@ == senc_coins(c@),
{
    let mut r = el_obrace();
    let n = c.len();
    let mut i: usize = 0;
    while i < n
        invariant
            n == c@.len(),
            i <= n,
            r@ =~= sl_obrace() + senc_coins_inner(c@.take(i as int)),
        decreases n - i,
    {
        if i > 0 {
            let sep = el_comma();
            append_bytes(&mut r, &sep);
        }
        let coin = c.get(i);
        let q1 = el_q();
        append_bytes(&mut r, &q1);
        append_bytes(&mut r, &coin.denom);
        let mid = el_qcq();
        append_bytes(&mut r, &mid);
        let amt = u128_to_dec(coin.amount);
        append_bytes(&mut r, &amt);
        let q2 = el_q();
        append_bytes(&mut r, &q2);
        proof {
            assert(c@.take(i + 1).drop_last() =~= c@.take(i as int));
            assert(c@.take(i + 1).last() == c@[i as int]);
            if i == 0 {
                assert(r@ =~= sl_obrace() + senc_coins_inner(c@.take(1)));
            } else {
                assert(r@ =~= sl_obrace() + senc_coins_inner(c@.take(i + 1)));
            }
        }
        i = i + 1;
    }
    let e = el_brace_end();
    append_bytes(&mut r, &e);
    proof {
        assert(c@.take(n as int) =~= c@);
        assert(r@ =~= senc_coins(c@));
    }
    r
}

/// The JSON form of a transfer order.
pub open spec fn senc_transfer_msg(from: Seq<u8>, to: Seq<u8>, coins: crate::coins::CoinsModel) -> Seq<u8> {
    sl_tm_from() + hex_of(from) + sl_tm_to() + hex_of(to) + sl_tm_coins() + senc_coins(coins)
        + sl_brace_end()
}

/// Write a transfer order in its JSON form; addresses in hexadecimal.
pub fn encode_transfer_msg(msg: &TransferMsg) -> (r: Vec<u8>)
    requires
        coins_json_safe(msg.coins@),
    ensures
        r@ == senc_transfer_msg(msg.from@, msg.to@, msg.coins@),
{
    let mut r = el_tm_from();
    let fh = crate::execute::to_hex(&msg.from);
    append_bytes(&mut r, &fh);
    let t = el_tm_to();
    append_bytes(&mut r, &t);
    let th = crate::execute::to_hex(&msg.to);
    append_bytes(&mut r, &th);
    let cf = el_tm_coins();
    append_bytes(&mut r, &cf);
    let cs = encode_coins(&msg.coins);
    append_bytes(&mut r, &cs);
    let e = el_brace_end();
    append_bytes(&mut r, &e);
    proof {
        assert(r@ =~= senc_transfer_msg(msg.from@, msg.to@, msg.coins@));
    }
    r
}

/// The JSON form of a bank lookup; fields that are `None` are omitted, as
/// the wire format prescribes.
pub open spec fn senc_bank_query(q: BankQuery) -> Seq<u8> {
    match q {
        BankQuery::Balance { address, denom } => sl_bq_balance() + hex_of(address@) + sl_f_denom()
            + denom@ + sl_qq_end(),
        BankQuery::Supply { denom } => sl_bq_supply() + denom@ + sl_qq_end(),
        BankQuery::Balances { address, start_after, limit } => sl_bq_balances() + hex_of(address@)
            + (match (start_after, limit) {
            (Option::None, Option::None) => sl_qq_end(),
            (Option::Some(sa), Option::None) => sl_f_start_after() + sa@ + sl_qq_end(),
            (Option::None, Option::Some(l)) => sl_f_limit() + dec_of(l as nat) + sl_nn_end(),
            (Option::Some(sa), Option::Some(l)) => sl_f_start_after() + sa@ + sl_f_limit()
                + dec_of(l as nat) + sl_nn_end(),
        }),
        BankQuery::Supplies { start_after, limit } => sl_bq_supplies() + (match (
            start_after,
            limit,
        ) {
            (Option::None, Option::None) => sl_sup_empty() + sl_brace_end(),
            (Option::Some(sa), Option::None) => sl_sup_sa() + sa@ + sl_qq_end(),
            (Option::None, Option::Some(l)) => sl_sup_lim() + dec_of(l as nat) + sl_nn_end(),
            (Option::Some(sa), Option::Some(l)) => sl_sup_sa() + sa@ + sl_f_limit() + dec_of(
                l as nat,
            ) + sl_nn_end(),
        }),
    }
}

/// Write a bank lookup in its JSON form.
pub fn encode_bank_query(q: &BankQuery) -> (r: Vec<u8>)
    requires
        bq_wf(*q),
    ensures
        r@ == senc_bank_query(*q),
{
    match q {
        BankQuery::Balance { address, denom } => {
            let mut r = el_bq_balance();
            let ah = crate::execute::to_hex(address);
            append_bytes(&mut r, &ah);
            let f = el_f_denom();
            append_bytes(&mut r, &f);
            append_bytes(&mut r, denom);
            let e = el_qq_end();
            append_bytes(&mut r, &e);
            proof {
                assert(r@ =~= senc_bank_query(*q));
            }
            r
        },
        BankQuery::Supply { denom } => {
            let mut r = el_bq_supply();
            append_bytes(&mut r, denom);
            let e = el_qq_end();
            append_bytes(&mut r, &e);
            proof {
                assert(r@ =~= senc_bank_query(*q));
            }
            r
        },
        BankQuery::Balances { address, start_after, limit } => {
            let mut r = el_bq_balances();
            let ah = crate::execute::to_hex(address);
            append_bytes(&mut r, &ah);
            match (start_after, limit) {
                (Option::None, Option::None) => {
                    let e = el_qq_end();
                    append_bytes(&mut r, &e);
                },
                (Option::Some(sa), Option::None) => {
                    let f = el_f_start_after();
                    append_bytes(&mut r, &f);
                    append_bytes(&mut r, sa);
                    let e = el_qq_end();
                    append_bytes(&mut r, &e);
                },
                (Option::None, Option::Some(l)) => {
                    let f = el_f_limit();
                    append_bytes(&mut r, &f);
                    let d = u128_to_dec(*l as u128);
                    append_bytes(&mut r, &d);
                    let e = el_nn_end();
                    append_bytes(&mut r, &e);
                },
                (Option::Some(sa), Option::Some(l)) => {
                    let f = el_f_start_after();
                    append_bytes(&mut r, &f);
                    append_bytes(&mut r, sa);
                    let g = el_f_limit();
                    append_bytes(&mut r, &g);
                    let d = u128_to_dec(*l as u128);
                    append_bytes(&mut r, &d);
                    let e = el_nn_end();
                    append_bytes(&mut r, &e);
                },
            }
            proof {
                assert(r@ =~= senc_bank_query(*q));
            }
            r
        },
        BankQuery::Supplies { start_after, limit } => {
            let mut r = el_bq_supplies();
            match (start_after, limit) {
                (Option::None, Option::None) => {
                    let f = el_sup_empty();
                    append_bytes(&mut r, &f);
                    let e = el_brace_end();
                    append_bytes(&mut r, &e);
                },
                (Option::Some(sa), Option::None) => {
                    let f = el_sup_sa();
                    append_bytes(&mut r, &f);
                    append_bytes(&mut r, sa);
                    let e = el_qq_end();
                    append_bytes(&mut r, &e);
                },
                (Option::None, Option::Some(l)) => {
                    let f = el_sup_lim();
                    append_bytes(&mut r, &f);
                    let d = u128_to_dec(*l as u128);
                    append_bytes(&mut r, &d);
                    let e = el_nn_end();
                    append_bytes(&mut r, &e);
                },
                (Option::Some(sa), Option::Some(l)) => {
                    let f = el_sup_sa();
                    append_bytes(&mut r, &f);
                    append_bytes(&mut r, sa);
                    let g = el_f_limit();
                    append_bytes(&mut r, &g);
                    let d = u128_to_dec(*l as u128);
                    append_bytes(&mut r, &d);
                    let e = el_nn_end();
                    append_bytes(&mut r, &e);
                },
            }
            proof {
                assert(r@ =~= senc_bank_query(*q));
            }
            r
        },
    }
}

/// The JSON text of a reply policy.
pub open spec fn senc_reply_on(p: ReplyOn) -> Seq<u8> {
    match p {
        ReplyOn::Never => sl_rep_never(),
        ReplyOn::Success => sl_rep_success(),
        ReplyOn::Error => sl_rep_error(),
        ReplyOn::Always => sl_rep_always(),
    }
}

/// The JSON form of a pipeline message; binary payloads in hexadecimal.
pub open spec fn senc_message(m: Message) -> Seq<u8> {
    match m {
        Message::StoreCode { wasm_byte_code } => sl_msg_store_code() + hex_of(wasm_byte_code@)
            + sl_qq_end(),
        Message::Instantiate { code_hash, msg, salt, funds, admin } => sl_msg_inst() + hex_of(
            code_hash@,
        ) + sl_mi_msg() + hex_of(msg@) + sl_mi_salt() + hex_of(salt@) + sl_mi_funds() + senc_coins(
            funds@,
        ) + (match admin {
            Option::None => sl_nn_end(),
            Option::Some(a) => sl_mi_admin() + hex_of(a@) + sl_qq_end(),
        }),
        Message::Execute { contract, msg, funds } => sl_msg_exec() + hex_of(contract@)
            + sl_mi_msg() + hex_of(msg@) + sl_mi_funds() + senc_coins(funds@) + sl_nn_end(),
        Message::Migrate { contract, new_code_hash, msg } => sl_msg_migrate() + hex_of(contract@)
            + sl_mg_nch() + hex_of(new_code_hash@) + sl_mi_msg() + hex_of(msg@) + sl_qq_end(),
    }
}

/// Write a message in its JSON form.
pub fn encode_message(m: &Message) -> (r: Vec<u8>)
    requires
        msg_json_safe(*m),
    ensures
        r@ == senc_message(*m),
{
    match m {
        Message::StoreCode { wasm_byte_code } => {
            let mut r = el_msg_store_code();
            let h = crate::execute::to_hex(wasm_byte_code);
            append_bytes(&mut r, &h);
            let e = el_qq_end();
            append_bytes(&mut r, &e);
            proof {
                assert(r@ =~= senc_message(*m));
            }
            r
        },
        Message::Instantiate { code_hash, msg, salt, funds, admin } => {
            let mut r = el_msg_inst();
            let h = crate::execute::to_hex(code_hash);
            append_bytes(&mut r, &h);
            let f1 = el_mi_msg();
            append_bytes(&mut r, &f1);
            let mh = crate::execute::to_hex(msg);
            append_bytes(&mut r, &mh);
            let f2 = el_mi_salt();
            append_bytes(&mut r, &f2);
            let sh = crate::execute::to_hex(salt);
            append_bytes(&mut r, &sh);
            let f3 = el_mi_funds();
            append_bytes(&mut r, &f3);
            let cs = encode_coins(funds);
            append_bytes(&mut r, &cs);
            match admin {
                Option::None => {
                    let e = el_nn_end();
                    append_bytes(&mut r, &e);
                },
                Option::Some(a) => {
                    let f4 = el_mi_admin();
                    append_bytes(&mut r, &f4);
                    let ah = crate::execute::to_hex(a);
                    append_bytes(&mut r, &ah);
                    let e = el_qq_end();
                    append_bytes(&mut r, &e);
                },
            }
            proof {
                assert(r@ =~= senc_message(*m));
            }
            r
        },
        Message::Execute { contract, msg, funds } => {
            let mut r = el_msg_exec();
            let ch = crate::execute::to_hex(contract);
            append_bytes(&mut r, &ch);
            let f1 = el_mi_msg();
            append_bytes(&mut r, &f1);
            let mh = crate::execute::to_hex(msg);
            append_bytes(&mut r, &mh);
            let f2 = el_mi_funds();
            append_bytes(&mut r, &f2);
            let cs = encode_coins(funds);
            append_bytes(&mut r, &cs);
            let e = el_nn_end();
            append_bytes(&mut r, &e);
            proof {
                assert(r@ =~= senc_message(*m));
            }
            r
        },
        Message::Migrate { contract, new_code_hash, msg } => {
            let mut r = el_msg_migrate();
            let ch = crate::execute::to_hex(contract);
            append_bytes(&mut r, &ch);
            let f1 = el_mg_nch();
            append_bytes(&mut r, &f1);
            let nh = crate::execute::to_hex(new_code_hash);
            append_bytes(&mut r, &nh);
            let f2 = el_mi_msg();
            append_bytes(&mut r, &f2);
            let mh = crate::execute::to_hex(msg);
            append_bytes(&mut r, &mh);
            let e = el_qq_end();
            append_bytes(&mut r, &e);
            proof {
                assert(r@ =~= senc_message(*m));
            }
            r
        },
    }
}

/// The JSON form of one submessage.
pub open spec fn senc_submsg(sm: SubMsg) -> Seq<u8> {
    sl_sub_msg() + senc_message(sm.msg) + sl_sub_reply() + senc_reply_on(sm.reply_on) + sl_sub_id()
        + dec_of(sm.id as nat) + sl_brace_end()
}

pub open spec fn senc_submsgs(s: Seq<SubMsg>) -> Seq<u8>
    decreases s.len(),
{
    if s.len() == 0 {
        Seq::empty()
    } else if s.len() == 1 {
        senc_submsg(s[0])
    } else {
        senc_submsgs(s.drop_last()) + sl_comma() + senc_submsg(s.last())
    }
}

pub open spec fn senc_attr(a: Attribute) -> Seq<u8> {
    sl_attr_obj() + a.key@ + sl_attr_val() + a.value@ + sl_qbrace()
}

pub open spec fn senc_attrs(s: Seq<Attribute>) -> Seq<u8>
    decreases s.len(),
{
    if s.len() == 0 {
        Seq::empty()
    } else if s.len() == 1 {
        senc_attr(s[0])
    } else {
        senc_attrs(s.drop_last()) + sl_comma() + senc_attr(s.last())
    }
}

/// The JSON form of a contract response: attributes, submessages, and the
/// optional data payload (omitted when `None`).
pub open spec fn senc_response(r: Response) -> Seq<u8> {
    sl_resp_attrs() + senc_attrs(r.attributes@) + sl_resp_submsgs() + senc_submsgs(r.submsgs@) + (
    match r.data {
        Option::None => sl_resp_end(),
        Option::Some(d) => sl_resp_data() + hex_of(d@) + sl_qbrace(),
    })
}

fn encode_submsg(sm: &SubMsg) -> (r: Vec<u8>)
    requires
        msg_json_safe(sm.msg),
    ensures
        r@ == senc_submsg(*sm),
{
    let mut r = el_sub_msg();
    let m = encode_message(&sm.msg);
    append_bytes(&mut r, &m);
    let f1 = el_sub_reply();
    append_bytes(&mut r, &f1);
    let p = match sm.reply_on {
        ReplyOn::Never => el_rep_never(),
        ReplyOn::Success => el_rep_success(),
        ReplyOn::Error => el_rep_error(),
        ReplyOn::Always => el_rep_always(),
    };
    append_bytes(&mut r, &p);
    let f2 = el_sub_id();
    append_bytes(&mut r, &f2);
    let d = u128_to_dec(sm.id as u128);
    append_bytes(&mut r, &d);
    let e = el_brace_end();
    append_bytes(&mut r, &e);
    proof {
        assert(r@ =~= senc_submsg(*sm));
    }
    r
}

/// Write a response in its JSON form.
pub fn encode_response(resp: &Response) -> (r: Vec<u8>)
    requires
        attrs_json_safe(resp.attributes@),
        submsgs_json_safe(resp.submsgs@),
    ensures
        r@ == senc_response(*resp),
{
    let mut r = el_resp_attrs();
    let na = resp.attributes.len();
    let mut i: usize = 0;
    while i < na
        invariant
            na == resp.attributes@.len(),
            i <= na,
            r@ =~= sl_resp_attrs() + senc_attrs(resp.attributes@.take(i as int)),
        decreases na - i,
    {
        if i > 0 {
            let sep = el_comma();
            append_bytes(&mut r, &sep);
        }
        let f1 = el_attr_obj();
        append_bytes(&mut r, &f1);
        append_bytes(&mut r, &resp.attributes[i].key);
        let f2 = el_attr_val();
        append_bytes(&mut r, &f2);
        append_bytes(&mut r, &resp.attributes[i].value);
        let f3 = el_qbrace();
        append_bytes(&mut r, &f3);
        proof {
            assert(resp.attributes@.take(i + 1).drop_last() =~= resp.attributes@.take(i as int));
            assert(resp.attributes@.take(i + 1).last() == resp.attributes@[i as int]);
            assert(r@ =~= sl_resp_attrs() + senc_attrs(resp.attributes@.take(i + 1)));
        }
        i = i + 1;
    }
    proof {
        assert(resp.attributes@.take(na as int) =~= resp.attributes@);
    }
    let f = el_resp_submsgs();
    append_bytes(&mut r, &f);
    let ghost mid = r@;
    let ns = resp.submsgs.len();
    let mut j: usize = 0;
    while j < ns
        invariant
            ns == resp.submsgs@.len(),
            submsgs_json_safe(resp.submsgs@),
            j <= ns,
            r@ =~= mid + senc_submsgs(resp.submsgs@.take(j as int)),
        decreases ns - j,
    {
        if j > 0 {
            let sep = el_comma();
            append_bytes(&mut r, &sep);
        }
        proof {
            assert(msg_json_safe(resp.submsgs@[j as int].msg));
        }
        let sm = encode_submsg(&resp.submsgs[j]);
        append_bytes(&mut r, &sm);
        proof {
            assert(resp.submsgs@.take(j + 1).drop_last() =~= resp.submsgs@.take(j as int));
            assert(resp.submsgs@.take(j + 1).last() == resp.submsgs@[j as int]);
            assert(r@ =~= mid + senc_submsgs(resp.submsgs@.take(j + 1)));
        }
        j = j + 1;
    }
    proof {
        assert(resp.submsgs@.take(ns as int) =~= resp.submsgs@);
    }
    match &resp.data {
        Option::None => {
            let e = el_resp_end();
            append_bytes(&mut r, &e);
        },
        Option::Some(d) => {
            let f1 = el_resp_data();
            append_bytes(&mut r, &f1);
            let dh = crate::execute::to_hex(d);
            append_bytes(&mut r, &dh);
            let e = el_qbrace();
            append_bytes(&mut r, &e);
        },
    }
    proof {
        assert(r@ =~= senc_response(*resp));
    }
    r
}


// ---------------------------------------------------------------------
// reading the JSON forms back
// ---------------------------------------------------------------------

/// A byte string that can stand inside a JSON string without escaping:
/// printable, no quote, no backslash.
pub open spec fn json_str_wf(s: Seq<u8>) -> bool {
    forall|i: int| 0 <= i < s.len() ==> 32 <= #[trigger] s[i] <= 126 && s[i] != 34 && s[i] != 92
}

/// The queries the canonical wire form can carry: every free-form string
/// needs no escaping.
pub open spec fn bq_wf(q: BankQuery) -> bool {
    match q {
        BankQuery::Balance { address, denom } => json_str_wf(denom@),
        BankQuery::Supply { denom } => json_str_wf(denom@),
        BankQuery::Balances { address, start_after, limit } => (match start_after {
            Option::None => true,
            Option::Some(sa) => json_str_wf(sa@),
        }),
        BankQuery::Supplies { start_after, limit } => (match start_after {
            Option::None => true,
            Option::Some(sa) => json_str_wf(sa@),
        }),
    }
}

/// Cancel equal-length prefixes of equal concatenations.
proof fn lemma_concat_cancel(a: Seq<u8>, b: Seq<u8>, c: Seq<u8>, d: Seq<u8>)
    requires
        a.len() == c.len(),
        a + b == c + d,
    ensures
        a == c,
        b == d,
{
    let s = a + b;
    assert(a =~= s.subrange(0, a.len() as int));
    assert(c =~= s.subrange(0, a.len() as int));
    assert(b =~= s.subrange(a.len() as int, s.len() as int));
    assert(d =~= s.subrange(a.len() as int, s.len() as int));
}

/// Two splits of the same string at a boundary character that cannot occur
/// before it are the same split.
proof fn lemma_boundary_split(
    x1: Seq<u8>,
    y1: Seq<u8>,
    x2: Seq<u8>,
    y2: Seq<u8>,
    boundary: spec_fn(u8) -> bool,
)
    requires
        forall|i: int| 0 <= i < x1.len() ==> !boundary(#[trigger] x1[i]),
        forall|i: int| 0 <= i < x2.len() ==> !boundary(#[trigger] x2[i]),
        y1.len() > 0 && boundary(y1[0]),
        y2.len() > 0 && boundary(y2[0]),
        x1 + y1 == x2 + y2,
    ensures
        x1 == x2,
        y1 == y2,
{
    let s = x1 + y1;
    if x1.len() < x2.len() {
        assert(s[x1.len() as int] == y1[0]);
        assert(s[x1.len() as int] == x2[x1.len() as int]);
        assert(false);
    } else if x2.len() < x1.len() {
        assert(s[x2.len() as int] == y2[0]);
        assert(s[x2.len() as int] == x1[x2.len() as int]);
        assert(false);
    }
    lemma_concat_cancel(x1, y1, x2, y2);
}

/// A hexadecimal form contains no quote character.
proof fn lemma_hex_no_quote(s: Seq<u8>)
    ensures
        forall|i: int| 0 <= i < hex_of(s).len() ==> #[trigger] hex_of(s)[i] != 34,
    decreases s.len(),
{
    if s.len() > 0 {
        lemma_hex_no_quote(s.drop_last());
        lemma_hex_len(s.drop_last());
        assert forall|i: int| 0 <= i < hex_of(s).len() implies #[trigger] hex_of(s)[i] != 34 by {
            if i < hex_of(s.drop_last()).len() {
                assert(hex_of(s)[i] == hex_of(s.drop_last())[i]);
            }
        }
    }
}

/// A decimal form holds digit characters only.
proof fn lemma_dec_no_brace(n: nat)
    ensures
        forall|i: int| 0 <= i < dec_of(n).len() ==> 48 <= #[trigger] dec_of(n)[i] <= 57,
{
    lemma_dec_of_digits(n);
}

/// Decimal forms of distinct numbers differ even before a closing brace:
/// `dec(a) ∥ y1 == dec(b) ∥ y2` with braces after the digits forces
/// `a == b`.
proof fn lemma_dec_split(a: nat, b: nat, y1: Seq<u8>, y2: Seq<u8>)
    requires
        y1.len() > 0 && y1[0] == 125,
        y2.len() > 0 && y2[0] == 125,
        dec_of(a) + y1 == dec_of(b) + y2,
    ensures
        a == b,
        y1 == y2,
{
    lemma_dec_no_brace(a);
    lemma_dec_no_brace(b);
    lemma_boundary_split(dec_of(a), y1, dec_of(b), y2, |c: u8| c == 125);
    lemma_dec_roundtrip(a);
    lemma_dec_roundtrip(b);
}

/// What a query says, free of representation: the variant and the views
/// of its fields.
pub open spec fn bq_view(q: BankQuery) -> (int, Seq<u8>, Seq<u8>, Option<Seq<u8>>, Option<u32>) {
    match q {
        BankQuery::Balance { address, denom } => (0, address@, denom@, Option::None, Option::None),
        BankQuery::Supply { denom } => (1, Seq::empty(), denom@, Option::None, Option::None),
        BankQuery::Balances { address, start_after, limit } => (
            2,
            address@,
            Seq::empty(),
            match start_after {
                Option::None => Option::None,
                Option::Some(sa) => Option::Some(sa@),
            },
            limit,
        ),
        BankQuery::Supplies { start_after, limit } => (
            3,
            Seq::empty(),
            Seq::empty(),
            match start_after {
                Option::None => Option::None,
                Option::Some(sa) => Option::Some(sa@),
            },
            limit,
        ),
    }
}

/// The canonical JSON form determines the query: two well-formed queries
/// with the same form say the same thing. Decoding a canonical form is
/// therefore unambiguous.
pub proof fn lemma_senc_bank_query_injective(q1: BankQuery, q2: BankQuery)
    requires
        bq_wf(q1),
        bq_wf(q2),
        senc_bank_query(q1) == senc_bank_query(q2),
    ensures
        bq_view(q1) == bq_view(q2),
{
    let s = senc_bank_query(q1);
    let quote = |c: u8| c == 34;
    match (q1, q2) {
        (
            BankQuery::Balance { address: a1, denom: d1 },
            BankQuery::Balance { address: a2, denom: d2 },
        ) => {
            assert(senc_bank_query(q1) =~= sl_bq_balance() + (hex_of(a1@) + (sl_f_denom() + d1@
                + sl_qq_end())));
            assert(senc_bank_query(q2) =~= sl_bq_balance() + (hex_of(a2@) + (sl_f_denom() + d2@
                + sl_qq_end())));
            lemma_concat_cancel(
                sl_bq_balance(),
                hex_of(a1@) + (sl_f_denom() + d1@ + sl_qq_end()),
                sl_bq_balance(),
                hex_of(a2@) + (sl_f_denom() + d2@ + sl_qq_end()),
            );
            lemma_hex_no_quote(a1@);
            lemma_hex_no_quote(a2@);
            lemma_boundary_split(
                hex_of(a1@),
                sl_f_denom() + d1@ + sl_qq_end(),
                hex_of(a2@),
                sl_f_denom() + d2@ + sl_qq_end(),
                quote,
            );
            lemma_hex_injective(a1@, a2@);
            assert(sl_f_denom() + d1@ + sl_qq_end() =~= sl_f_denom() + (d1@ + sl_qq_end()));
            assert(sl_f_denom() + d2@ + sl_qq_end() =~= sl_f_denom() + (d2@ + sl_qq_end()));
            lemma_concat_cancel(sl_f_denom(), d1@ + sl_qq_end(), sl_f_denom(), d2@ + sl_qq_end());
            lemma_boundary_split(d1@, sl_qq_end(), d2@, sl_qq_end(), quote);
        },
        (BankQuery::Supply { denom: d1 }, BankQuery::Supply { denom: d2 }) => {
            assert(senc_bank_query(q1) =~= sl_bq_supply() + (d1@ + sl_qq_end()));
            assert(senc_bank_query(q2) =~= sl_bq_supply() + (d2@ + sl_qq_end()));
            lemma_concat_cancel(
                sl_bq_supply(),
                d1@ + sl_qq_end(),
                sl_bq_supply(),
                d2@ + sl_qq_end(),
            );
            lemma_boundary_split(d1@, sl_qq_end(), d2@, sl_qq_end(), quote);
        },
        (
            BankQuery::Balances { address: a1, start_after: sa1, limit: l1 },
            BankQuery::Balances { address: a2, start_after: sa2, limit: l2 },
        ) => {
            let t1 = balances_tail(sa1, l1);
            let t2 = balances_tail(sa2, l2);
            assert(senc_bank_query(q1) =~= sl_bq_balances() + (hex_of(a1@) + t1));
            assert(senc_bank_query(q2) =~= sl_bq_balances() + (hex_of(a2@) + t2));
            lemma_concat_cancel(sl_bq_balances(), hex_of(a1@) + t1, sl_bq_balances(), hex_of(a2@) + t2);
            lemma_hex_no_quote(a1@);
            lemma_hex_no_quote(a2@);
            lemma_balances_tail_quote(sa1, l1);
            lemma_balances_tail_quote(sa2, l2);
            lemma_boundary_split(hex_of(a1@), t1, hex_of(a2@), t2, quote);
            lemma_hex_injective(a1@, a2@);
            lemma_balances_tail_injective(sa1, l1, sa2, l2);
        },
        (
            BankQuery::Supplies { start_after: sa1, limit: l1 },
            BankQuery::Supplies { start_after: sa2, limit: l2 },
        ) => {
            let t1 = supplies_tail(sa1, l1);
            let t2 = supplies_tail(sa2, l2);
            assert(senc_bank_query(q1) =~= sl_bq_supplies() + t1);
            assert(senc_bank_query(q2) =~= sl_bq_supplies() + t2);
            lemma_concat_cancel(sl_bq_supplies(), t1, sl_bq_supplies(), t2);
            lemma_supplies_tail_injective(sa1, l1, sa2, l2);
        },
        _ => {
            // distinct variants disagree within the first twelve bytes
            lemma_tag_byte(q1, 2);
            lemma_tag_byte(q2, 2);
            lemma_tag_byte(q1, 7);
            lemma_tag_byte(q2, 7);
            lemma_tag_byte(q1, 9);
            lemma_tag_byte(q2, 9);
            assert(false);
        },
    }
}

/// The tail of a balances query after the address: the optional fields in
/// canonical order.
pub open spec fn balances_tail(sa: Option<Vec<u8>>, l: Option<u32>) -> Seq<u8> {
    match (sa, l) {
        (Option::None, Option::None) => sl_qq_end(),
        (Option::Some(sa), Option::None) => sl_f_start_after() + sa@ + sl_qq_end(),
        (Option::None, Option::Some(l)) => sl_f_limit() + dec_of(l as nat) + sl_nn_end(),
        (Option::Some(sa), Option::Some(l)) => sl_f_start_after() + sa@ + sl_f_limit() + dec_of(
            l as nat,
        ) + sl_nn_end(),
    }
}

/// The object of a supplies query.
pub open spec fn supplies_tail(sa: Option<Vec<u8>>, l: Option<u32>) -> Seq<u8> {
    match (sa, l) {
        (Option::None, Option::None) => sl_sup_empty() + sl_brace_end(),
        (Option::Some(sa), Option::None) => sl_sup_sa() + sa@ + sl_qq_end(),
        (Option::None, Option::Some(l)) => sl_sup_lim() + dec_of(l as nat) + sl_nn_end(),
        (Option::Some(sa), Option::Some(l)) => sl_sup_sa() + sa@ + sl_f_limit() + dec_of(l as nat)
            + sl_nn_end(),
    }
}

proof fn lemma_balances_tail_quote(sa: Option<Vec<u8>>, l: Option<u32>)
    ensures
        balances_tail(sa, l).len() > 0,
        balances_tail(sa, l)[0] == 34,
{
}

/// Distinguish and cancel the four shapes of a balances tail.
#[verifier::rlimit(100)]
#[verifier::spinoff_prover]
proof fn lemma_balances_tail_injective(
    sa1: Option<Vec<u8>>,
    l1: Option<u32>,
    sa2: Option<Vec<u8>>,
    l2: Option<u32>,
)
    requires
        (match sa1 {
            Option::None => true,
            Option::Some(sa) => json_str_wf(sa@),
        }),
        (match sa2 {
            Option::None => true,
            Option::Some(sa) => json_str_wf(sa@),
        }),
        balances_tail(sa1, l1) == balances_tail(sa2, l2),
    ensures
        l1 == l2,
        (match (sa1, sa2) {
            (Option::None, Option::None) => true,
            (Option::Some(x1), Option::Some(x2)) => x1@ == x2@,
            _ => false,
        }),
{
    let quote = |c: u8| c == 34;
    let t = balances_tail(sa1, l1);
    match (sa1, l1, sa2, l2) {
        (Option::None, Option::None, Option::None, Option::None) => {},
        (Option::Some(x1), Option::None, Option::Some(x2), Option::None) => {
            assert(t =~= sl_f_start_after() + (x1@ + sl_qq_end()));
            assert(balances_tail(sa2, l2) =~= sl_f_start_after() + (x2@ + sl_qq_end()));
            lemma_concat_cancel(
                sl_f_start_after(),
                x1@ + sl_qq_end(),
                sl_f_start_after(),
                x2@ + sl_qq_end(),
            );
            lemma_boundary_split(x1@, sl_qq_end(), x2@, sl_qq_end(), quote);
        },
        (Option::Some(x1), Option::None, Option::Some(x2), Option::Some(n2)) => {
            assert(t =~= sl_f_start_after() + (x1@ + sl_qq_end()));
            assert(balances_tail(sa2, l2) =~= sl_f_start_after() + (x2@ + (sl_f_limit() + dec_of(
                n2 as nat,
            ) + sl_nn_end())));
            lemma_concat_cancel(
                sl_f_start_after(),
                x1@ + sl_qq_end(),
                sl_f_start_after(),
                x2@ + (sl_f_limit() + dec_of(n2 as nat) + sl_nn_end()),
            );
            lemma_boundary_split(
                x1@,
                sl_qq_end(),
                x2@,
                sl_f_limit() + dec_of(n2 as nat) + sl_nn_end(),
                quote,
            );
            assert(sl_qq_end()[1] == (sl_f_limit() + dec_of(n2 as nat) + sl_nn_end())[1]);
            assert(false);
        },
        (Option::Some(x1), Option::Some(n1), Option::Some(x2), Option::None) => {
            assert(t =~= sl_f_start_after() + (x1@ + (sl_f_limit() + dec_of(n1 as nat)
                + sl_nn_end())));
            assert(balances_tail(sa2, l2) =~= sl_f_start_after() + (x2@ + sl_qq_end()));
            lemma_concat_cancel(
                sl_f_start_after(),
                x1@ + (sl_f_limit() + dec_of(n1 as nat) + sl_nn_end()),
                sl_f_start_after(),
                x2@ + sl_qq_end(),
            );
            lemma_boundary_split(
                x1@,
                sl_f_limit() + dec_of(n1 as nat) + sl_nn_end(),
                x2@,
                sl_qq_end(),
                quote,
            );
            assert(sl_qq_end()[1] == (sl_f_limit() + dec_of(n1 as nat) + sl_nn_end())[1]);
            assert(false);
        },
        (Option::None, Option::Some(n1), Option::None, Option::Some(n2)) => {
            assert(t =~= sl_f_limit() + (dec_of(n1 as nat) + sl_nn_end()));
            assert(balances_tail(sa2, l2) =~= sl_f_limit() + (dec_of(n2 as nat) + sl_nn_end()));
            lemma_concat_cancel(
                sl_f_limit(),
                dec_of(n1 as nat) + sl_nn_end(),
                sl_f_limit(),
                dec_of(n2 as nat) + sl_nn_end(),
            );
            lemma_dec_split(n1 as nat, n2 as nat, sl_nn_end(), sl_nn_end());
        },
        (Option::Some(x1), Option::Some(n1), Option::Some(x2), Option::Some(n2)) => {
            assert(t =~= sl_f_start_after() + (x1@ + (sl_f_limit() + dec_of(n1 as nat)
                + sl_nn_end())));
            assert(balances_tail(sa2, l2) =~= sl_f_start_after() + (x2@ + (sl_f_limit() + dec_of(
                n2 as nat,
            ) + sl_nn_end())));
            lemma_concat_cancel(
                sl_f_start_after(),
                x1@ + (sl_f_limit() + dec_of(n1 as nat) + sl_nn_end()),
                sl_f_start_after(),
                x2@ + (sl_f_limit() + dec_of(n2 as nat) + sl_nn_end()),
            );
            lemma_boundary_split(
                x1@,
                sl_f_limit() + dec_of(n1 as nat) + sl_nn_end(),
                x2@,
                sl_f_limit() + dec_of(n2 as nat) + sl_nn_end(),
                quote,
            );
            assert(sl_f_limit() + dec_of(n1 as nat) + sl_nn_end() =~= sl_f_limit() + (dec_of(
                n1 as nat,
            ) + sl_nn_end()));
            assert(sl_f_limit() + dec_of(n2 as nat) + sl_nn_end() =~= sl_f_limit() + (dec_of(
                n2 as nat,
            ) + sl_nn_end()));
            lemma_concat_cancel(
                sl_f_limit(),
                dec_of(n1 as nat) + sl_nn_end(),
                sl_f_limit(),
                dec_of(n2 as nat) + sl_nn_end(),
            );
            lemma_dec_split(n1 as nat, n2 as nat, sl_nn_end(), sl_nn_end());
        },
        _ => {
            // mixed shapes: the bytes right after the address diverge
            lemma_balances_tail_shape(sa1, l1);
            lemma_balances_tail_shape(sa2, l2);
            assert(false);
        },
    }
}

/// The first bytes of a balances tail identify its shape.
proof fn lemma_balances_tail_shape(sa: Option<Vec<u8>>, l: Option<u32>)
    ensures
        balances_tail(sa, l).len() >= 2,
        balances_tail(sa, l)[1] == (if sa is None && l is None {
            125int
        } else {
            44int
        }),
        sa is Some ==> balances_tail(sa, l).len() >= 4 && balances_tail(sa, l)[3] == 115,
        sa is None && l is Some ==> balances_tail(sa, l).len() >= 4 && balances_tail(sa, l)[3]
            == 108,
{
    match (sa, l) {
        (Option::Some(x), Option::None) => {
            assert(balances_tail(sa, l)[1] == sl_f_start_after()[1]);
            assert(balances_tail(sa, l)[3] == sl_f_start_after()[3]);
        },
        (Option::Some(x), Option::Some(n)) => {
            assert(balances_tail(sa, l)[1] == sl_f_start_after()[1]);
            assert(balances_tail(sa, l)[3] == sl_f_start_after()[3]);
        },
        (Option::None, Option::Some(n)) => {
            assert(balances_tail(sa, l)[1] == sl_f_limit()[1]);
            assert(balances_tail(sa, l)[3] == sl_f_limit()[3]);
        },
        (Option::None, Option::None) => {
            assert(balances_tail(sa, l)[1] == sl_qq_end()[1]);
        },
    }
}

#[verifier::rlimit(100)]
#[verifier::spinoff_prover]
proof fn lemma_supplies_tail_injective(
    sa1: Option<Vec<u8>>,
    l1: Option<u32>,
    sa2: Option<Vec<u8>>,
    l2: Option<u32>,
)
    requires
        (match sa1 {
            Option::None => true,
            Option::Some(sa) => json_str_wf(sa@),
        }),
        (match sa2 {
            Option::None => true,
            Option::Some(sa) => json_str_wf(sa@),
        }),
        supplies_tail(sa1, l1) == supplies_tail(sa2, l2),
    ensures
        l1 == l2,
        (match (sa1, sa2) {
            (Option::None, Option::None) => true,
            (Option::Some(x1), Option::Some(x2)) => x1@ == x2@,
            _ => false,
        }),
{
    let quote = |c: u8| c == 34;
    let t = supplies_tail(sa1, l1);
    match (sa1, l1, sa2, l2) {
        (Option::None, Option::None, Option::None, Option::None) => {},
        (Option::Some(x1), Option::None, Option::Some(x2), Option::None) => {
            assert(t =~= sl_sup_sa() + (x1@ + sl_qq_end()));
            assert(supplies_tail(sa2, l2) =~= sl_sup_sa() + (x2@ + sl_qq_end()));
            lemma_concat_cancel(sl_sup_sa(), x1@ + sl_qq_end(), sl_sup_sa(), x2@ + sl_qq_end());
            lemma_boundary_split(x1@, sl_qq_end(), x2@, sl_qq_end(), quote);
        },
        (Option::Some(x1), Option::None, Option::Some(x2), Option::Some(n2)) => {
            assert(t =~= sl_sup_sa() + (x1@ + sl_qq_end()));
            assert(supplies_tail(sa2, l2) =~= sl_sup_sa() + (x2@ + (sl_f_limit() + dec_of(
                n2 as nat,
            ) + sl_nn_end())));
            lemma_concat_cancel(
                sl_sup_sa(),
                x1@ + sl_qq_end(),
                sl_sup_sa(),
                x2@ + (sl_f_limit() + dec_of(n2 as nat) + sl_nn_end()),
            );
            lemma_boundary_split(
                x1@,
                sl_qq_end(),
                x2@,
                sl_f_limit() + dec_of(n2 as nat) + sl_nn_end(),
                quote,
            );
            assert(sl_qq_end()[1] == (sl_f_limit() + dec_of(n2 as nat) + sl_nn_end())[1]);
            assert(false);
        },
        (Option::Some(x1), Option::Some(n1), Option::Some(x2), Option::None) => {
            assert(t =~= sl_sup_sa() + (x1@ + (sl_f_limit() + dec_of(n1 as nat) + sl_nn_end())));
            assert(supplies_tail(sa2, l2) =~= sl_sup_sa() + (x2@ + sl_qq_end()));
            lemma_concat_cancel(
                sl_sup_sa(),
                x1@ + (sl_f_limit() + dec_of(n1 as nat) + sl_nn_end()),
                sl_sup_sa(),
                x2@ + sl_qq_end(),
            );
            lemma_boundary_split(
                x1@,
                sl_f_limit() + dec_of(n1 as nat) + sl_nn_end(),
                x2@,
                sl_qq_end(),
                quote,
            );
            assert(sl_qq_end()[1] == (sl_f_limit() + dec_of(n1 as nat) + sl_nn_end())[1]);
            assert(false);
        },
        (Option::None, Option::Some(n1), Option::None, Option::Some(n2)) => {
            assert(t =~= sl_sup_lim() + (dec_of(n1 as nat) + sl_nn_end()));
            assert(supplies_tail(sa2, l2) =~= sl_sup_lim() + (dec_of(n2 as nat) + sl_nn_end()));
            lemma_concat_cancel(
                sl_sup_lim(),
                dec_of(n1 as nat) + sl_nn_end(),
                sl_sup_lim(),
                dec_of(n2 as nat) + sl_nn_end(),
            );
            lemma_dec_split(n1 as nat, n2 as nat, sl_nn_end(), sl_nn_end());
        },
        (Option::Some(x1), Option::Some(n1), Option::Some(x2), Option::Some(n2)) => {
            assert(t =~= sl_sup_sa() + (x1@ + (sl_f_limit() + dec_of(n1 as nat) + sl_nn_end())));
            assert(supplies_tail(sa2, l2) =~= sl_sup_sa() + (x2@ + (sl_f_limit() + dec_of(
                n2 as nat,
            ) + sl_nn_end())));
            lemma_concat_cancel(
                sl_sup_sa(),
                x1@ + (sl_f_limit() + dec_of(n1 as nat) + sl_nn_end()),
                sl_sup_sa(),
                x2@ + (sl_f_limit() + dec_of(n2 as nat) + sl_nn_end()),
            );
            lemma_boundary_split(
                x1@,
                sl_f_limit() + dec_of(n1 as nat) + sl_nn_end(),
                x2@,
                sl_f_limit() + dec_of(n2 as nat) + sl_nn_end(),
                quote,
            );
            assert(sl_f_limit() + dec_of(n1 as nat) + sl_nn_end() =~= sl_f_limit() + (dec_of(
                n1 as nat,
            ) + sl_nn_end()));
            assert(sl_f_limit() + dec_of(n2 as nat) + sl_nn_end() =~= sl_f_limit() + (dec_of(
                n2 as nat,
            ) + sl_nn_end()));
            lemma_concat_cancel(
                sl_f_limit(),
                dec_of(n1 as nat) + sl_nn_end(),
                sl_f_limit(),
                dec_of(n2 as nat) + sl_nn_end(),
            );
            lemma_dec_split(n1 as nat, n2 as nat, sl_nn_end(), sl_nn_end());
        },
        _ => {
            lemma_supplies_tail_shape(sa1, l1);
            lemma_supplies_tail_shape(sa2, l2);
            assert(false);
        },
    }
}

proof fn lemma_supplies_tail_shape(sa: Option<Vec<u8>>, l: Option<u32>)
    ensures
        supplies_tail(sa, l).len() >= 3,
        supplies_tail(sa, l)[1] == (if sa is None && l is None {
            125int
        } else {
            34int
        }),
        sa is Some ==> supplies_tail(sa, l)[2] == 115,
        sa is None && l is Some ==> supplies_tail(sa, l)[2] == 108,
{
    match (sa, l) {
        (Option::Some(x), _) => {
            assert(supplies_tail(sa, l)[1] == sl_sup_sa()[1]);
            assert(supplies_tail(sa, l)[2] == sl_sup_sa()[2]);
        },
        (Option::None, Option::Some(n)) => {
            assert(supplies_tail(sa, l)[1] == sl_sup_lim()[1]);
            assert(supplies_tail(sa, l)[2] == sl_sup_lim()[2]);
        },
        (Option::None, Option::None) => {
            assert(supplies_tail(sa, l)[1] == (sl_sup_empty() + sl_brace_end())[1]);
        },
    }
}

/// The byte at a fixed early position of a query's form, which the variant
/// determines.
proof fn lemma_tag_byte(q: BankQuery, i: int)
    requires
        0 <= i < 12,
    ensures
        senc_bank_query(q).len() >= 12,
        senc_bank_query(q)[i] == (match q {
            BankQuery::Balance { .. } => sl_bq_balance()[i],
            BankQuery::Supply { .. } => sl_bq_supply()[i],
            BankQuery::Balances { .. } => sl_bq_balances()[i],
            BankQuery::Supplies { .. } => sl_bq_supplies()[i],
        }),
{
    match q {
        BankQuery::Balance { address, denom } => {
            assert(senc_bank_query(q) =~= sl_bq_balance() + (hex_of(address@) + (sl_f_denom()
                + denom@ + sl_qq_end())));
        },
        BankQuery::Supply { denom } => {
            assert(senc_bank_query(q) =~= sl_bq_supply() + (denom@ + sl_qq_end()));
        },
        BankQuery::Balances { address, start_after, limit } => {
            assert(senc_bank_query(q) =~= sl_bq_balances() + (hex_of(address@) + balances_tail(
                start_after,
                limit,
            )));
            lemma_balances_tail_quote(start_after, limit);
        },
        BankQuery::Supplies { start_after, limit } => {
            assert(senc_bank_query(q) =~= sl_bq_supplies() + supplies_tail(start_after, limit));
            lemma_supplies_tail_shape(start_after, limit);
        },
    }
}


/// Whether `lit` occurs in `s` at position `i`.
fn starts_with_at(s: &Vec<u8>, i: usize, lit: &Vec<u8>) -> (r: bool)
    requires
        i <= s@.len(),
    ensures
        r <==> (i + lit@.len() <= s@.len() && s@.subrange(i as int, i + lit@.len()) == lit@),
{
    let n = s.len();
    let m = lit.len();
    if n - i < m {
        proof {
            assert(i + lit@.len() > s@.len());
        }
        return false;
    }
    let mut k: usize = 0;
    while k < m
        invariant
            n == s@.len(),
            m == lit@.len(),
            i + m <= n,
            k <= m,
            forall|j: int| 0 <= j < k ==> s@[i + j] == lit@[j],
        decreases m - k,
    {
        if s[i + k] != lit[k] {
            proof {
                assert(s@.subrange(i as int, i + lit@.len())[k as int] == s@[i + k]);
            }
            return false;
        }
        k = k + 1;
    }
    proof {
        assert(s@.subrange(i as int, i + lit@.len()) =~= lit@);
    }
    true
}

/// Position of the first quote character at or after `from`.
fn find_quote(s: &Vec<u8>, from: usize) -> (r: Option<usize>)
    requires
        from <= s@.len(),
    ensures
        match r {
            Some(j) => from <= j < s@.len() && s@[j as int] == 34 && (forall|k: int|
                from <= k < j ==> s@[k] != 34),
            None => forall|k: int| from <= k < s@.len() ==> s@[k] != 34,
        },
{
    let mut j = from;
    while j < s.len()
        invariant
            from <= j <= s@.len(),
            forall|k: int| from <= k < j ==> s@[k] != 34,
        decreases s@.len() - j,
    {
        if s[j] == 34 {
            return Some(j);
        }
        j = j + 1;
    }
    None
}

/// Copy `s[from..to]`.
fn sub_bytes(s: &Vec<u8>, from: usize, to: usize) -> (r: Vec<u8>)
    requires
        from <= to <= s@.len(),
    ensures
        r@ == s@.subrange(from as int, to as int),
{
    let mut r: Vec<u8> = Vec::new();
    let mut j = from;
    while j < to
        invariant
            from <= j <= to <= s@.len(),
            r@ =~= s@.subrange(from as int, j as int),
        decreases to - j,
    {
        r.push(s[j]);
        proof {
            assert(r@ =~= s@.subrange(from as int, j + 1));
        }
        j = j + 1;
    }
    r
}

/// Whether every byte of `s[from..to]` can stand unescaped in a JSON string.
fn json_safe_range(s: &Vec<u8>, from: usize, to: usize) -> (r: bool)
    requires
        from <= to <= s@.len(),
    ensures
        r <==> json_str_wf(s@.subrange(from as int, to as int)),
{
    let mut j = from;
    while j < to
        invariant
            from <= j <= to <= s@.len(),
            forall|k: int|
                0 <= k < j - from ==> {
                    let b = #[trigger] s@.subrange(from as int, to as int)[k];
                    32 <= b <= 126 && b != 34 && b != 92
                },
        decreases to - j,
    {
        let b = s[j];
        if b < 32 || b > 126 || b == 34 || b == 92 {
            proof {
                assert(s@.subrange(from as int, to as int)[j - from] == b);
            }
            return false;
        }
        j = j + 1;
    }
    true
}

/// A digit string in canonical form: nonempty, digits only, no leading
/// zero except for zero itself.
proof fn lemma_dec_val_positive(s: Seq<u8>)
    requires
        all_digits(s),
        s.len() >= 1,
        s[0] >= 49,
    ensures
        dec_val(s) >= 1,
    decreases s.len(),
{
    if s.len() == 1 {
    } else {
        assert(s.drop_last()[0] == s[0]);
        assert forall|i: int| 0 <= i < s.drop_last().len() implies 48 <= #[trigger] s.drop_last()[i]
            <= 57 by {
            assert(s.drop_last()[i] == s[i]);
        }
        lemma_dec_val_positive(s.drop_last());
    }
}

/// Writing a canonical digit string's value gives the string back.
proof fn lemma_dec_enc_of_val(s: Seq<u8>)
    requires
        all_digits(s),
        s.len() >= 1,
        s[0] != 48 || s.len() == 1,
    ensures
        dec_of(dec_val(s)) == s,
    decreases s.len(),
{
    if s.len() == 1 {
        assert(48 <= s[0] <= 57);
        assert(s.drop_last() =~= Seq::<u8>::empty());
        assert(dec_val(s.drop_last()) == 0);
        assert(s.last() == s[0]);
        assert(dec_val(s) == (s[0] - 48) as nat);
        assert(dec_of(dec_val(s)) =~= s);
    } else {
        let t = s.drop_last();
        assert(t[0] == s[0]);
        assert forall|i: int| 0 <= i < t.len() implies 48 <= #[trigger] t[i] <= 57 by {
            assert(t[i] == s[i]);
        }
        lemma_dec_enc_of_val(t);
        lemma_dec_val_positive(t);
        let v = dec_val(s);
        let d = (s.last() - 48) as nat;
        assert(v == dec_val(t) * 10 + d);
        assert(v / 10 == dec_val(t) && v % 10 == d) by {
            vstd::arithmetic::div_mod::lemma_fundamental_div_mod_converse(
                v as int,
                10,
                dec_val(t) as int,
                d as int,
            );
        }
        assert(v >= 10);
        assert(dec_of(v) == dec_of(dec_val(t)).push((48 + d) as u8));
        assert(dec_of(v) =~= s);
    }
}

/// `dec_val` never shrinks when a digit string is extended.
proof fn lemma_dec_val_take(s: Seq<u8>, j: int)
    requires
        0 <= j <= s.len(),
    ensures
        dec_val(s) >= dec_val(s.take(j)),
    decreases s.len(),
{
    if j < s.len() {
        assert(s.drop_last().take(j) =~= s.take(j));
        lemma_dec_val_take(s.drop_last(), j);
    } else {
        assert(s.take(j) =~= s);
    }
}

/// Parse `s[from..to]` as a canonical decimal number fitting a `u32`.
/// `None` means the range is the decimal form of no `u32` at all.
fn parse_u32_dec(s: &Vec<u8>, from: usize, to: usize) -> (r: Option<u32>)
    requires
        from <= to <= s@.len(),
    ensures
        match r {
            Some(v) => dec_of(v as nat) == s@.subrange(from as int, to as int),
            None => forall|v: u32| dec_of(v as nat) != s@.subrange(from as int, to as int),
        },
{
    let ghost seg = s@.subrange(from as int, to as int);
    if from == to {
        proof {
            assert forall|v: u32| dec_of(v as nat) != seg by {
                lemma_dec_of_digits(v as nat);
            }
        }
        return None;
    }
    if s[from] == 48 && to - from > 1 {
        proof {
            assert forall|v: u32| dec_of(v as nat) != seg by {
                if dec_of(v as nat) == seg {
                    lemma_dec_of_digits(v as nat);
                    assert(seg[0] == s@[from as int]);
                    // a canonical form starting with a zero is the single digit zero
                    assert(v < 10);
                    assert(dec_of(v as nat).len() == 1);
                }
            }
        }
        return None;
    }
    let mut v: u32 = 0;
    let mut j = from;
    while j < to
        invariant
            from <= j <= to <= s@.len(),
            j > from ==> {
                &&& all_digits(s@.subrange(from as int, j as int))
                &&& dec_val(s@.subrange(from as int, j as int)) == v as nat
            },
            j == from ==> v == 0,
        decreases to - j,
    {
        let b = s[j];
        if b < 48 || b > 57 {
            proof {
                let seg = s@.subrange(from as int, to as int);
                assert forall|v2: u32| dec_of(v2 as nat) != seg by {
                    if dec_of(v2 as nat) == seg {
                        lemma_dec_of_digits(v2 as nat);
                        assert(seg[j - from] == s@[j as int]);
                    }
                }
            }
            return None;
        }
        let d = (b - 48) as u32;
        if v > (u32::MAX - d) / 10 {
            proof {
                let seg = s@.subrange(from as int, to as int);
                assert forall|v2: u32| dec_of(v2 as nat) != seg by {
                    if dec_of(v2 as nat) == seg {
                        // the value read so far already exceeds what a u32 holds
                        lemma_dec_roundtrip(v2 as nat);
                        lemma_dec_val_take(seg, j + 1 - from);
                        assert(seg.take(j + 1 - from) =~= s@.subrange(from as int, j + 1));
                        assert(s@.subrange(from as int, j + 1).drop_last() =~= s@.subrange(
                            from as int,
                            j as int,
                        ));
                        assert(s@.subrange(from as int, j + 1).last() == b);
                        assert(dec_val(s@.subrange(from as int, j + 1)) == (v as nat) * 10 + (
                        d as nat));
                        assert((v as nat) * 10 + d > u32::MAX);
                        assert(dec_val(seg) == v2 as nat);
                    }
                }
            }
            return None;
        }
        let ghost pre = s@.subrange(from as int, j as int);
        v = v * 10 + d;
        proof {
            let cur = s@.subrange(from as int, j + 1);
            assert(cur.drop_last() =~= pre);
            assert(cur.last() == b);
            if j == from {
                assert(pre.len() == 0);
            }
            assert forall|k: int| 0 <= k < cur.len() implies 48 <= #[trigger] cur[k] <= 57 by {
                if k < cur.len() - 1 {
                    assert(cur[k] == pre[k]);
                }
            }
            if j == from {
                assert(dec_val(pre) == 0);
            }
            assert(dec_val(cur) == dec_val(pre) * 10 + (b - 48) as nat);
        }
        j = j + 1;
    }
    proof {
        let seg = s@.subrange(from as int, to as int);
        assert(seg[0] == s@[from as int]);
        lemma_dec_enc_of_val(seg);
    }
    Some(v)
}


/// Two first-quote positions over the same stretch agree.
proof fn lemma_quote_pin(s: Seq<u8>, from: int, pos: int, q1: int)
    requires
        from <= pos < s.len(),
        s[pos] == 34,
        forall|k: int| from <= k < pos ==> s[k] != 34,
        from <= q1 < s.len(),
        s[q1] == 34,
        forall|k: int| from <= k < q1 ==> s[k] != 34,
    ensures
        q1 == pos,
{
}

/// How the canonical form of a balance query is laid out.
proof fn lemma_balance_decomp(q: BankQuery, s: Seq<u8>)
    requires
        q is Balance,
        bq_wf(q),
        senc_bank_query(q) == s,
    ensures
        match q {
            BankQuery::Balance { address, denom } => {
                &&& s.len() == 23 + 2 * address@.len() + 11 + denom@.len() + 3
                &&& s.subrange(0, 23) == sl_bq_balance()
                &&& s.subrange(23, 23 + 2 * address@.len() as int) == hex_of(address@)
                &&& forall|k: int| 23 <= k < 23 + 2 * address@.len() as int ==> s[k] != 34
                &&& s[23 + 2 * address@.len() as int] == 34
                &&& s.subrange(23 + 2 * address@.len() as int, 23 + 2 * address@.len() as int + 11)
                    == sl_f_denom()
                &&& s.subrange(23 + 2 * address@.len() as int + 11, s.len() - 3) == denom@
                &&& s.subrange(s.len() - 3, s.len() as int) == sl_qq_end()
            },
            _ => true,
        },
{
    match q {
        BankQuery::Balance { address, denom } => {
            lemma_hex_len(address@);
            lemma_hex_no_quote(address@);
            let a = 2 * address@.len() as int;
            assert(s =~= sl_bq_balance() + hex_of(address@) + sl_f_denom() + denom@
                + sl_qq_end());
            assert(s.subrange(0, 23) =~= sl_bq_balance());
            assert(s.subrange(23, 23 + a) =~= hex_of(address@));
            assert forall|k: int| 23 <= k < 23 + a implies s[k] != 34 by {
                assert(s.subrange(23, 23 + a)[k - 23] == s[k]);
            }
            assert(s.subrange(23 + a, 23 + a + 11) =~= sl_f_denom());
            assert(s[23 + a] == s.subrange(23 + a, 23 + a + 11)[0]);
            assert(s.subrange(23 + a + 11, s.len() - 3) =~= denom@);
            assert(s.subrange(s.len() - 3, s.len() as int) =~= sl_qq_end());
        },
        _ => {},
    }
}

/// How the canonical form of a supply query is laid out.
proof fn lemma_supply_decomp(q: BankQuery, s: Seq<u8>)
    requires
        q is Supply,
        bq_wf(q),
        senc_bank_query(q) == s,
    ensures
        match q {
            BankQuery::Supply { denom } => {
                &&& s.len() == 20 + denom@.len() + 3
                &&& s.subrange(0, 20) == sl_bq_supply()
                &&& s.subrange(20, s.len() - 3) == denom@
                &&& s.subrange(s.len() - 3, s.len() as int) == sl_qq_end()
            },
            _ => true,
        },
{
    match q {
        BankQuery::Supply { denom } => {
            assert(s =~= sl_bq_supply() + denom@ + sl_qq_end());
            assert(s.subrange(0, 20) =~= sl_bq_supply());
            assert(s.subrange(20, s.len() - 3) =~= denom@);
            assert(s.subrange(s.len() - 3, s.len() as int) =~= sl_qq_end());
        },
        _ => {},
    }
}

/// How the canonical form of a balances query is laid out: the tag, the
/// address in hexadecimal, then the tail holding the optional fields.
proof fn lemma_balances_decomp(q: BankQuery, s: Seq<u8>)
    requires
        q is Balances,
        bq_wf(q),
        senc_bank_query(q) == s,
    ensures
        match q {
            BankQuery::Balances { address, start_after, limit } => {
                &&& s.len() == 24 + 2 * address@.len() + balances_tail(start_after, limit).len()
                &&& balances_tail(start_after, limit).len() >= 3
                &&& s.subrange(0, 24) == sl_bq_balances()
                &&& s.subrange(24, 24 + 2 * address@.len() as int) == hex_of(address@)
                &&& forall|k: int| 24 <= k < 24 + 2 * address@.len() as int ==> s[k] != 34
                &&& s[24 + 2 * address@.len() as int] == 34
                &&& s.subrange(24 + 2 * address@.len() as int, s.len() as int) == balances_tail(
                    start_after,
                    limit,
                )
            },
            _ => true,
        },
{
    match q {
        BankQuery::Balances { address, start_after, limit } => {
            lemma_hex_len(address@);
            lemma_hex_no_quote(address@);
            lemma_balances_tail_quote(start_after, limit);
            lemma_balances_tail_shape(start_after, limit);
            let a = 2 * address@.len() as int;
            let t = balances_tail(start_after, limit);
            assert(s =~= sl_bq_balances() + hex_of(address@) + t);
            assert(s.subrange(0, 24) =~= sl_bq_balances());
            assert(s.subrange(24, 24 + a) =~= hex_of(address@));
            assert forall|k: int| 24 <= k < 24 + a implies s[k] != 34 by {
                assert(s.subrange(24, 24 + a)[k - 24] == s[k]);
            }
            assert(s.subrange(24 + a, s.len() as int) =~= t);
            assert(s[24 + a] == s.subrange(24 + a, s.len() as int)[0]);
        },
        _ => {},
    }
}

/// How the canonical form of a supplies query is laid out.
proof fn lemma_supplies_decomp(q: BankQuery, s: Seq<u8>)
    requires
        q is Supplies,
        bq_wf(q),
        senc_bank_query(q) == s,
    ensures
        match q {
            BankQuery::Supplies { start_after, limit } => {
                &&& s.len() == 12 + supplies_tail(start_after, limit).len()
                &&& supplies_tail(start_after, limit).len() >= 3
                &&& s.subrange(0, 12) == sl_bq_supplies()
                &&& s.subrange(12, s.len() as int) == supplies_tail(start_after, limit)
            },
            _ => true,
        },
{
    match q {
        BankQuery::Supplies { start_after, limit } => {
            lemma_supplies_tail_shape(start_after, limit);
            let t = supplies_tail(start_after, limit);
            assert(s =~= sl_bq_supplies() + t);
            assert(s.subrange(0, 12) =~= sl_bq_supplies());
            assert(s.subrange(12, s.len() as int) =~= t);
        },
        _ => {},
    }
}

/// The tail of a balances query carrying a cursor: the cursor field, the
/// cursor text, then either the closing braces or the limit field.
proof fn lemma_balances_tail_sa(sa: Vec<u8>, l: Option<u32>)
    requires
        json_str_wf(sa@),
    ensures
        ({
            let t = balances_tail(Some(sa), l);
            &&& t.subrange(0, 17) == sl_f_start_after()
            &&& t.len() >= 17 + sa@.len() + 3
            &&& t.subrange(17, 17 + sa@.len() as int) == sa@
            &&& forall|k: int| 17 <= k < 17 + sa@.len() as int ==> t[k] != 34
            &&& t[17 + sa@.len() as int] == 34
            &&& match l {
                Option::None => t.len() == 17 + sa@.len() + 3 && t.subrange(
                    17 + sa@.len() as int,
                    t.len() as int,
                ) == sl_qq_end(),
                Option::Some(lv) => {
                    &&& t.len() == 17 + sa@.len() + 10 + dec_of(lv as nat).len() + 2
                    &&& t.subrange(17 + sa@.len() as int, 17 + sa@.len() as int + 10) == sl_f_limit()
                    &&& t.subrange(17 + sa@.len() as int + 10, t.len() - 2) == dec_of(lv as nat)
                    &&& t.subrange(t.len() - 2, t.len() as int) == sl_nn_end()
                },
            }
        }),
{
    let t = balances_tail(Some(sa), l);
    match l {
        Option::None => {
            assert(t =~= sl_f_start_after() + sa@ + sl_qq_end());
            assert(t.subrange(0, 17) =~= sl_f_start_after());
            assert(t.subrange(17, 17 + sa@.len() as int) =~= sa@);
            assert forall|k: int| 17 <= k < 17 + sa@.len() as int implies t[k] != 34 by {
                assert(t.subrange(17, 17 + sa@.len() as int)[k - 17] == t[k]);
            }
            assert(t.subrange(17 + sa@.len() as int, t.len() as int) =~= sl_qq_end());
            assert(t[17 + sa@.len() as int] == t.subrange(17 + sa@.len() as int, t.len() as int)[0]);
        },
        Option::Some(lv) => {
            lemma_dec_of_digits(lv as nat);
            assert(t =~= sl_f_start_after() + sa@ + sl_f_limit() + dec_of(lv as nat)
                + sl_nn_end());
            assert(t.subrange(0, 17) =~= sl_f_start_after());
            assert(t.subrange(17, 17 + sa@.len() as int) =~= sa@);
            assert forall|k: int| 17 <= k < 17 + sa@.len() as int implies t[k] != 34 by {
                assert(t.subrange(17, 17 + sa@.len() as int)[k - 17] == t[k]);
            }
            assert(t.subrange(17 + sa@.len() as int, 17 + sa@.len() as int + 10) =~= sl_f_limit());
            assert(t[17 + sa@.len() as int] == t.subrange(17 + sa@.len() as int, 17 + sa@.len() as int + 10)[0]);
            assert(t.subrange(17 + sa@.len() as int + 10, t.len() - 2) =~= dec_of(lv as nat));
            assert(t.subrange(t.len() - 2, t.len() as int) =~= sl_nn_end());
        },
    }
}

/// The object of a supplies query carrying a cursor, laid out the same way.
proof fn lemma_supplies_tail_sa(sa: Vec<u8>, l: Option<u32>)
    requires
        json_str_wf(sa@),
    ensures
        ({
            let t = supplies_tail(Some(sa), l);
            &&& t.subrange(0, 16) == sl_sup_sa()
            &&& t.len() >= 16 + sa@.len() + 3
            &&& t.subrange(16, 16 + sa@.len() as int) == sa@
            &&& forall|k: int| 16 <= k < 16 + sa@.len() as int ==> t[k] != 34
            &&& t[16 + sa@.len() as int] == 34
            &&& match l {
                Option::None => t.len() == 16 + sa@.len() + 3 && t.subrange(
                    16 + sa@.len() as int,
                    t.len() as int,
                ) == sl_qq_end(),
                Option::Some(lv) => {
                    &&& t.len() == 16 + sa@.len() + 10 + dec_of(lv as nat).len() + 2
                    &&& t.subrange(16 + sa@.len() as int, 16 + sa@.len() as int + 10) == sl_f_limit()
                    &&& t.subrange(16 + sa@.len() as int + 10, t.len() - 2) == dec_of(lv as nat)
                    &&& t.subrange(t.len() - 2, t.len() as int) == sl_nn_end()
                },
            }
        }),
{
    let t = supplies_tail(Some(sa), l);
    match l {
        Option::None => {
            assert(t =~= sl_sup_sa() + sa@ + sl_qq_end());
            assert(t.subrange(0, 16) =~= sl_sup_sa());
            assert(t.subrange(16, 16 + sa@.len() as int) =~= sa@);
            assert forall|k: int| 16 <= k < 16 + sa@.len() as int implies t[k] != 34 by {
                assert(t.subrange(16, 16 + sa@.len() as int)[k - 16] == t[k]);
            }
            assert(t.subrange(16 + sa@.len() as int, t.len() as int) =~= sl_qq_end());
            assert(t[16 + sa@.len() as int] == t.subrange(16 + sa@.len() as int, t.len() as int)[0]);
        },
        Option::Some(lv) => {
            lemma_dec_of_digits(lv as nat);
            assert(t =~= sl_sup_sa() + sa@ + sl_f_limit() + dec_of(lv as nat) + sl_nn_end());
            assert(t.subrange(0, 16) =~= sl_sup_sa());
            assert(t.subrange(16, 16 + sa@.len() as int) =~= sa@);
            assert forall|k: int| 16 <= k < 16 + sa@.len() as int implies t[k] != 34 by {
                assert(t.subrange(16, 16 + sa@.len() as int)[k - 16] == t[k]);
            }
            assert(t.subrange(16 + sa@.len() as int, 16 + sa@.len() as int + 10) =~= sl_f_limit());
            assert(t[16 + sa@.len() as int] == t.subrange(16 + sa@.len() as int, 16 + sa@.len() as int + 10)[0]);
            assert(t.subrange(16 + sa@.len() as int + 10, t.len() - 2) =~= dec_of(lv as nat));
            assert(t.subrange(t.len() - 2, t.len() as int) =~= sl_nn_end());
        },
    }
}

/// Read the canonical JSON form of a bank lookup back. A `Some` result is
/// exactly the query whose canonical form the input is; `None` means the
/// input is the canonical form of no well-formed query at all.
pub fn decode_bank_query(s: &Vec<u8>) -> (r: Option<BankQuery>)
    ensures
        match r {
            Some(q) => bq_wf(q) && senc_bank_query(q) == s@,
            None => forall|q: BankQuery| bq_wf(q) ==> senc_bank_query(q) != s@,
        },
{
    if let Some(q) = decode_bq_balance(s) {
        return Some(q);
    }
    if let Some(q) = decode_bq_supply(s) {
        return Some(q);
    }
    if let Some(q) = decode_bq_balances(s) {
        return Some(q);
    }
    let r = decode_bq_supplies(s);
    proof {
        if r is None {
            assert forall|q: BankQuery| bq_wf(q) implies senc_bank_query(q) != s@ by {
                match q {
                    BankQuery::Balance { .. } => {},
                    BankQuery::Supply { .. } => {},
                    BankQuery::Balances { .. } => {},
                    BankQuery::Supplies { .. } => {},
                }
            }
        }
    }
    r
}

/// A shorter view of one stretch of a suffix.
proof fn lemma_shift_subrange(s: Seq<u8>, base: int, t: Seq<u8>, x: int, y: int)
    requires
        0 <= base <= s.len(),
        s.subrange(base, s.len() as int) == t,
        0 <= x <= y <= t.len(),
    ensures
        s.subrange(base + x, base + y) == t.subrange(x, y),
{
    assert(s.subrange(base + x, base + y) =~= t.subrange(x, y));
}

#[verifier::rlimit(100)]
#[verifier::spinoff_prover]
fn decode_bq_balance(s: &Vec<u8>) -> (r: Option<BankQuery>)
    ensures
        match r {
            Some(q) => bq_wf(q) && senc_bank_query(q) == s@,
            None => forall|q: BankQuery| q is Balance && bq_wf(q) ==> senc_bank_query(q) != s@,
        },
{
    let n = s.len();
    let qq = el_qq_end();
    let tag = el_bq_balance();
    if !starts_with_at(s, 0, &tag) {
        proof {
            assert forall|q: BankQuery| q is Balance && bq_wf(q) implies senc_bank_query(q)
                != s@ by {
                if senc_bank_query(q) == s@ {
                    lemma_balance_decomp(q, s@);
                    assert(false);
                }
            }
        }
        return None;
    }
    let p0 = tag.len();
    let q1 = match find_quote(s, p0) {
        Some(j) => j,
        None => {
            proof {
                assert forall|q: BankQuery| q is Balance && bq_wf(q) implies senc_bank_query(q)
                    != s@ by {
                    if senc_bank_query(q) == s@ {
                        lemma_balance_decomp(q, s@);
                        match q {
                            BankQuery::Balance { address: a0, denom: d0 } => {
                                assert(s@[23 + 2 * a0@.len() as int] == 34);
                            },
                            _ => {},
                        }
                        assert(false);
                    }
                }
            }
            return None;
        },
    };
    let hexseg = sub_bytes(s, p0, q1);
    let address = match from_hex(&hexseg) {
        Some(a) => a,
        None => {
            proof {
                assert forall|q: BankQuery| q is Balance && bq_wf(q) implies senc_bank_query(q)
                    != s@ by {
                    if senc_bank_query(q) == s@ {
                        lemma_balance_decomp(q, s@);
                        match q {
                            BankQuery::Balance { address: a0, denom: d0 } => {
                                lemma_quote_pin(s@, 23, 23 + 2 * a0@.len() as int, q1 as int);
                                assert(hexseg@ == hex_of(a0@));
                            },
                            _ => {},
                        }
                        assert(false);
                    }
                }
            }
            return None;
        },
    };
    let fd = el_f_denom();
    if !starts_with_at(s, q1, &fd) {
        proof {
            assert forall|q: BankQuery| q is Balance && bq_wf(q) implies senc_bank_query(q)
                != s@ by {
                if senc_bank_query(q) == s@ {
                    lemma_balance_decomp(q, s@);
                    match q {
                        BankQuery::Balance { address: a0, denom: d0 } => {
                            lemma_quote_pin(s@, 23, 23 + 2 * a0@.len() as int, q1 as int);
                        },
                        _ => {},
                    }
                    assert(false);
                }
            }
        }
        return None;
    }
    let dstart = q1 + fd.len();
    if n - dstart < 3 {
        proof {
            assert forall|q: BankQuery| q is Balance && bq_wf(q) implies senc_bank_query(q)
                != s@ by {
                if senc_bank_query(q) == s@ {
                    lemma_balance_decomp(q, s@);
                    match q {
                        BankQuery::Balance { address: a0, denom: d0 } => {
                            lemma_quote_pin(s@, 23, 23 + 2 * a0@.len() as int, q1 as int);
                        },
                        _ => {},
                    }
                    assert(false);
                }
            }
        }
        return None;
    }
    let dend = n - 3;
    if !starts_with_at(s, dend, &qq) {
        proof {
            assert forall|q: BankQuery| q is Balance && bq_wf(q) implies senc_bank_query(q)
                != s@ by {
                if senc_bank_query(q) == s@ {
                    lemma_balance_decomp(q, s@);
                    assert(false);
                }
            }
        }
        return None;
    }
    if !json_safe_range(s, dstart, dend) {
        proof {
            assert forall|q: BankQuery| q is Balance && bq_wf(q) implies senc_bank_query(q)
                != s@ by {
                if senc_bank_query(q) == s@ {
                    lemma_balance_decomp(q, s@);
                    match q {
                        BankQuery::Balance { address: a0, denom: d0 } => {
                            lemma_quote_pin(s@, 23, 23 + 2 * a0@.len() as int, q1 as int);
                            assert(s@.subrange(dstart as int, dend as int) == d0@);
                        },
                        _ => {},
                    }
                    assert(false);
                }
            }
        }
        return None;
    }
    let denom = sub_bytes(s, dstart, dend);
    let q = BankQuery::Balance { address, denom };
    proof {
        assert(s@.subrange(0, p0 as int) == sl_bq_balance());
        assert(s@.subrange(p0 as int, q1 as int) == hex_of(q.arrow_Balance_address()@));
        assert(s@.subrange(q1 as int, dstart as int) == sl_f_denom());
        assert(s@.subrange(dstart as int, dend as int) == denom@);
        assert(s@.subrange(dend as int, n as int) == sl_qq_end());
        assert(s@ =~= s@.subrange(0, p0 as int) + s@.subrange(p0 as int, q1 as int) + s@.subrange(
            q1 as int,
            dstart as int,
        ) + s@.subrange(dstart as int, dend as int) + s@.subrange(dend as int, n as int));
        assert(senc_bank_query(q) =~= s@);
    }
    Some(q)
}

#[verifier::rlimit(100)]
#[verifier::spinoff_prover]
fn decode_bq_supply(s: &Vec<u8>) -> (r: Option<BankQuery>)
    ensures
        match r {
            Some(q) => bq_wf(q) && senc_bank_query(q) == s@,
            None => forall|q: BankQuery| q is Supply && bq_wf(q) ==> senc_bank_query(q) != s@,
        },
{
    let n = s.len();
    let qq = el_qq_end();
    let tag = el_bq_supply();
    if !starts_with_at(s, 0, &tag) {
        proof {
            assert forall|q: BankQuery| q is Supply && bq_wf(q) implies senc_bank_query(q)
                != s@ by {
                if senc_bank_query(q) == s@ {
                    lemma_supply_decomp(q, s@);
                    assert(false);
                }
            }
        }
        return None;
    }
    let p0 = tag.len();
    if n - p0 < 3 {
        proof {
            assert forall|q: BankQuery| q is Supply && bq_wf(q) implies senc_bank_query(q)
                != s@ by {
                if senc_bank_query(q) == s@ {
                    lemma_supply_decomp(q, s@);
                    assert(false);
                }
            }
        }
        return None;
    }
    let dend = n - 3;
    if !starts_with_at(s, dend, &qq) {
        proof {
            assert forall|q: BankQuery| q is Supply && bq_wf(q) implies senc_bank_query(q)
                != s@ by {
                if senc_bank_query(q) == s@ {
                    lemma_supply_decomp(q, s@);
                    assert(false);
                }
            }
        }
        return None;
    }
    if !json_safe_range(s, p0, dend) {
        proof {
            assert forall|q: BankQuery| q is Supply && bq_wf(q) implies senc_bank_query(q)
                != s@ by {
                if senc_bank_query(q) == s@ {
                    lemma_supply_decomp(q, s@);
                    match q {
                        BankQuery::Supply { denom: d0 } => {
                            assert(s@.subrange(p0 as int, dend as int) == d0@);
                        },
                        _ => {},
                    }
                    assert(false);
                }
            }
        }
        return None;
    }
    let denom = sub_bytes(s, p0, dend);
    let q = BankQuery::Supply { denom };
    proof {
        assert(s@.subrange(0, p0 as int) == sl_bq_supply());
        assert(s@.subrange(p0 as int, dend as int) == denom@);
        assert(s@.subrange(dend as int, n as int) == sl_qq_end());
        assert(s@ =~= s@.subrange(0, p0 as int) + s@.subrange(p0 as int, dend as int)
            + s@.subrange(dend as int, n as int));
        assert(senc_bank_query(q) =~= s@);
    }
    Some(q)
}

#[verifier::rlimit(100)]
#[verifier::spinoff_prover]
fn decode_bq_balances(s: &Vec<u8>) -> (r: Option<BankQuery>)
    ensures
        match r {
            Some(q) => bq_wf(q) && senc_bank_query(q) == s@,
            None => forall|q: BankQuery| q is Balances && bq_wf(q) ==> senc_bank_query(q) != s@,
        },
{
    let n = s.len();
    let qq = el_qq_end();
    let nn = el_nn_end();
    let tag = el_bq_balances();
    if !starts_with_at(s, 0, &tag) {
        proof {
            assert forall|q: BankQuery| q is Balances && bq_wf(q) implies senc_bank_query(q)
                != s@ by {
                if senc_bank_query(q) == s@ {
                    lemma_balances_decomp(q, s@);
                    assert(false);
                }
            }
        }
        return None;
    }
    let p0 = tag.len();
    let q1 = match find_quote(s, p0) {
        Some(j) => j,
        None => {
            proof {
                assert forall|q: BankQuery| q is Balances && bq_wf(q) implies senc_bank_query(q)
                    != s@ by {
                    if senc_bank_query(q) == s@ {
                        lemma_balances_decomp(q, s@);
                        match q {
                            BankQuery::Balances { address: a0, start_after: sa0, limit: l0 } => {
                                assert(s@[24 + 2 * a0@.len() as int] == 34);
                            },
                            _ => {},
                        }
                        assert(false);
                    }
                }
            }
            return None;
        },
    };
    let hexseg = sub_bytes(s, p0, q1);
    let address = match from_hex(&hexseg) {
        Some(a) => a,
        None => {
            proof {
                assert forall|q: BankQuery| q is Balances && bq_wf(q) implies senc_bank_query(q)
                    != s@ by {
                    if senc_bank_query(q) == s@ {
                        lemma_balances_decomp(q, s@);
                        match q {
                            BankQuery::Balances { address: a0, start_after: sa0, limit: l0 } => {
                                lemma_quote_pin(s@, 24, 24 + 2 * a0@.len() as int, q1 as int);
                                assert(hexseg@ == hex_of(a0@));
                            },
                            _ => {},
                        }
                        assert(false);
                    }
                }
            }
            return None;
        },
    };
    let ghost addr_view = address@;
    if starts_with_at(s, q1, &qq) {
        if q1 + 3 != n {
            proof {
                assert forall|q: BankQuery| q is Balances && bq_wf(q) implies senc_bank_query(q)
                    != s@ by {
                    if senc_bank_query(q) == s@ {
                        lemma_balances_decomp(q, s@);
                        match q {
                            BankQuery::Balances { address: a0, start_after: sa0, limit: l0 } => {
                                lemma_quote_pin(s@, 24, 24 + 2 * a0@.len() as int, q1 as int);
                                let t = balances_tail(sa0, l0);
                                lemma_balances_tail_shape(sa0, l0);
                                // the byte after the quote decides the shape
                                assert(t[1] == s@[q1 + 1]);
                                assert(s@[q1 + 1] == qq@[1]);
                                assert(sa0 is None && l0 is None);
                                assert(t == sl_qq_end());
                            },
                            _ => {},
                        }
                        assert(false);
                    }
                }
            }
            return None;
        }
        let q = BankQuery::Balances { address, start_after: None, limit: None };
        proof {
            assert(s@.subrange(0, p0 as int) == sl_bq_balances());
            assert(s@.subrange(p0 as int, q1 as int) == hex_of(addr_view));
            assert(s@.subrange(q1 as int, n as int) == sl_qq_end());
            assert(s@ =~= s@.subrange(0, p0 as int) + s@.subrange(p0 as int, q1 as int)
                + s@.subrange(q1 as int, n as int));
            assert(senc_bank_query(q) =~= s@);
        }
        return Some(q);
    }
    let fsa = el_f_start_after();
    let flim = el_f_limit();
    if starts_with_at(s, q1, &fsa) {
        let sstart = q1 + fsa.len();
        let q2 = match find_quote(s, sstart) {
            Some(j) => j,
            None => {
                proof {
                    assert forall|q: BankQuery| q is Balances && bq_wf(q) implies senc_bank_query(
                        q,
                    ) != s@ by {
                        if senc_bank_query(q) == s@ {
                            balances_pin_sa(q, s@, q1 as int);
                            match q {
                                BankQuery::Balances { address: a0, start_after: sa0, limit: l0 } => {
                                    match sa0 {
                                        Option::Some(x0) => {
                                            assert(s@[q1 + 17 + x0@.len() as int] == 34);
                                        },
                                        Option::None => {},
                                    }
                                },
                                _ => {},
                            }
                            assert(false);
                        }
                    }
                }
                return None;
            },
        };
        if !json_safe_range(s, sstart, q2) {
            proof {
                assert forall|q: BankQuery| q is Balances && bq_wf(q) implies senc_bank_query(q)
                    != s@ by {
                    if senc_bank_query(q) == s@ {
                        balances_pin_sa(q, s@, q1 as int);
                        match q {
                            BankQuery::Balances { address: a0, start_after: sa0, limit: l0 } => {
                                match sa0 {
                                    Option::Some(x0) => {
                                        lemma_quote_pin(
                                            s@,
                                            sstart as int,
                                            q1 + 17 + x0@.len() as int,
                                            q2 as int,
                                        );
                                        assert(s@.subrange(sstart as int, q2 as int) == x0@);
                                    },
                                    Option::None => {},
                                }
                            },
                            _ => {},
                        }
                        assert(false);
                    }
                }
            }
            return None;
        }
        if starts_with_at(s, q2, &qq) {
            if q2 + 3 != n {
                proof {
                    assert forall|q: BankQuery| q is Balances && bq_wf(q) implies senc_bank_query(
                        q,
                    ) != s@ by {
                        if senc_bank_query(q) == s@ {
                            balances_pin_sa(q, s@, q1 as int);
                            match q {
                                BankQuery::Balances { address: a0, start_after: sa0, limit: l0 } => {
                                    match sa0 {
                                        Option::Some(x0) => {
                                            lemma_quote_pin(
                                                s@,
                                                sstart as int,
                                                q1 + 17 + x0@.len() as int,
                                                q2 as int,
                                            );
                                            if l0 is Some {
                                                // a limit field follows, not the closing braces
                                                assert(s@[q2 + 1] == sl_f_limit()[1]);
                                                assert(s@[q2 + 1] == qq@[1]);
                                            }
                                        },
                                        Option::None => {},
                                    }
                                },
                                _ => {},
                            }
                            assert(false);
                        }
                    }
                }
                return None;
            }
            let sa = sub_bytes(s, sstart, q2);
            let q = BankQuery::Balances { address, start_after: Some(sa), limit: None };
            proof {
                assert(s@.subrange(0, p0 as int) == sl_bq_balances());
                assert(s@.subrange(p0 as int, q1 as int) == hex_of(addr_view));
                assert(s@.subrange(q1 as int, sstart as int) == sl_f_start_after());
                assert(s@.subrange(q2 as int, n as int) == sl_qq_end());
                assert(s@ =~= s@.subrange(0, p0 as int) + s@.subrange(p0 as int, q1 as int)
                    + s@.subrange(q1 as int, sstart as int) + s@.subrange(
                    sstart as int,
                    q2 as int,
                ) + s@.subrange(q2 as int, n as int));
                assert(senc_bank_query(q) =~= s@);
            }
            return Some(q);
        }
        if starts_with_at(s, q2, &flim) {
            let numstart = q2 + flim.len();
            if n - numstart < 2 || !starts_with_at(s, n - 2, &nn) {
                proof {
                    assert forall|q: BankQuery| q is Balances && bq_wf(q) implies senc_bank_query(
                        q,
                    ) != s@ by {
                        if senc_bank_query(q) == s@ {
                            balances_pin_sa(q, s@, q1 as int);
                            match q {
                                BankQuery::Balances { address: a0, start_after: sa0, limit: l0 } => {
                                    match sa0 {
                                        Option::Some(x0) => {
                                            lemma_quote_pin(
                                                s@,
                                                sstart as int,
                                                q1 + 17 + x0@.len() as int,
                                                q2 as int,
                                            );
                                            if l0 is None {
                                                assert(s@[q2 + 1] == qq@[1]);
                                                assert(s@[q2 + 1] == sl_f_limit()[1]);
                                            }
                                        },
                                        Option::None => {},
                                    }
                                },
                                _ => {},
                            }
                            assert(false);
                        }
                    }
                }
                return None;
            }
            let v = match parse_u32_dec(s, numstart, n - 2) {
                Some(v) => v,
                None => {
                    proof {
                        assert forall|q: BankQuery| q is Balances && bq_wf(q) implies
                            senc_bank_query(q) != s@ by {
                            if senc_bank_query(q) == s@ {
                                balances_pin_sa(q, s@, q1 as int);
                                match q {
                                    BankQuery::Balances {
                                        address: a0,
                                        start_after: sa0,
                                        limit: l0,
                                    } => {
                                        match (sa0, l0) {
                                            (Option::Some(x0), Option::Some(lv)) => {
                                                lemma_quote_pin(
                                                    s@,
                                                    sstart as int,
                                                    q1 + 17 + x0@.len() as int,
                                                    q2 as int,
                                                );
                                                assert(s@.subrange(numstart as int, n - 2)
                                                    == dec_of(lv as nat));
                                            },
                                            (Option::Some(x0), Option::None) => {
                                                lemma_quote_pin(
                                                    s@,
                                                    sstart as int,
                                                    q1 + 17 + x0@.len() as int,
                                                    q2 as int,
                                                );
                                                assert(s@[q2 + 1] == qq@[1]);
                                                assert(s@[q2 + 1] == sl_f_limit()[1]);
                                            },
                                            _ => {},
                                        }
                                    },
                                    _ => {},
                                }
                                assert(false);
                            }
                        }
                    }
                    return None;
                },
            };
            let sa = sub_bytes(s, sstart, q2);
            let q = BankQuery::Balances { address, start_after: Some(sa), limit: Some(v) };
            proof {
                assert(s@.subrange(0, p0 as int) == sl_bq_balances());
                assert(s@.subrange(p0 as int, q1 as int) == hex_of(addr_view));
                assert(s@.subrange(q1 as int, sstart as int) == sl_f_start_after());
                assert(s@.subrange(q2 as int, numstart as int) == sl_f_limit());
                assert(s@.subrange(numstart as int, n - 2) == dec_of(v as nat));
                assert(s@.subrange(n - 2, n as int) == sl_nn_end());
                assert(s@ =~= s@.subrange(0, p0 as int) + s@.subrange(p0 as int, q1 as int)
                    + s@.subrange(q1 as int, sstart as int) + s@.subrange(
                    sstart as int,
                    q2 as int,
                ) + s@.subrange(q2 as int, numstart as int) + s@.subrange(numstart as int, n - 2)
                    + s@.subrange(n - 2, n as int));
                assert(senc_bank_query(q) =~= s@);
            }
            return Some(q);
        }
        proof {
            assert forall|q: BankQuery| q is Balances && bq_wf(q) implies senc_bank_query(q)
                != s@ by {
                if senc_bank_query(q) == s@ {
                    balances_pin_sa(q, s@, q1 as int);
                    match q {
                        BankQuery::Balances { address: a0, start_after: sa0, limit: l0 } => {
                            match sa0 {
                                Option::Some(x0) => {
                                    lemma_quote_pin(
                                        s@,
                                        sstart as int,
                                        q1 + 17 + x0@.len() as int,
                                        q2 as int,
                                    );
                                    // after the cursor, either the braces or
                                    // the limit field must follow
                                    match l0 {
                                        Option::None => {
                                            assert(s@.subrange(q2 as int, q2 + 3) == qq@);
                                        },
                                        Option::Some(lv) => {
                                            assert(s@.subrange(q2 as int, q2 + 10) == flim@);
                                        },
                                    }
                                },
                                Option::None => {},
                            }
                        },
                        _ => {},
                    }
                    assert(false);
                }
            }
        }
        return None;
    }
    if starts_with_at(s, q1, &flim) {
        let numstart = q1 + flim.len();
        if n - numstart < 2 || !starts_with_at(s, n - 2, &nn) {
            proof {
                assert forall|q: BankQuery| q is Balances && bq_wf(q) implies senc_bank_query(q)
                    != s@ by {
                    if senc_bank_query(q) == s@ {
                        balances_pin_lim(q, s@, q1 as int);
                        assert(false);
                    }
                }
            }
            return None;
        }
        let v = match parse_u32_dec(s, numstart, n - 2) {
            Some(v) => v,
            None => {
                proof {
                    assert forall|q: BankQuery| q is Balances && bq_wf(q) implies senc_bank_query(
                        q,
                    ) != s@ by {
                        if senc_bank_query(q) == s@ {
                            balances_pin_lim(q, s@, q1 as int);
                            assert(false);
                        }
                    }
                }
                return None;
            },
        };
        let q = BankQuery::Balances { address, start_after: None, limit: Some(v) };
        proof {
            assert(s@.subrange(0, p0 as int) == sl_bq_balances());
            assert(s@.subrange(p0 as int, q1 as int) == hex_of(addr_view));
            assert(s@.subrange(q1 as int, numstart as int) == sl_f_limit());
            assert(s@.subrange(numstart as int, n - 2) == dec_of(v as nat));
            assert(s@.subrange(n - 2, n as int) == sl_nn_end());
            assert(s@ =~= s@.subrange(0, p0 as int) + s@.subrange(p0 as int, q1 as int)
                + s@.subrange(q1 as int, numstart as int) + s@.subrange(numstart as int, n - 2)
                + s@.subrange(n - 2, n as int));
            assert(senc_bank_query(q) =~= s@);
        }
        return Some(q);
    }
    proof {
        assert forall|q: BankQuery| q is Balances && bq_wf(q) implies senc_bank_query(q) != s@ by {
            if senc_bank_query(q) == s@ {
                lemma_balances_decomp(q, s@);
                match q {
                    BankQuery::Balances { address: a0, start_after: sa0, limit: l0 } => {
                        lemma_quote_pin(s@, 24, 24 + 2 * a0@.len() as int, q1 as int);
                        let t = balances_tail(sa0, l0);
                        match (sa0, l0) {
                            (Option::None, Option::None) => {
                                assert(s@.subrange(q1 as int, q1 + 3) =~= t.subrange(0, 3));
                                assert(t.subrange(0, 3) =~= qq@);
                            },
                            (Option::Some(x0), _) => {
                                lemma_balances_tail_sa(x0, l0);
                                lemma_shift_subrange(s@, q1 as int, t, 0, 17);
                                assert(s@.subrange(q1 as int, q1 + 17) == fsa@);
                            },
                            (Option::None, Option::Some(lv)) => {
                                assert(t =~= sl_f_limit() + dec_of(lv as nat) + sl_nn_end());
                                assert(t.subrange(0, 10) =~= sl_f_limit());
                                lemma_shift_subrange(s@, q1 as int, t, 0, 10);
                                assert(s@.subrange(q1 as int, q1 + 10) == flim@);
                            },
                        }
                    },
                    _ => {},
                }
                assert(false);
            }
        }
    }
    None
}

/// Inside a balances query whose text continues with the cursor field, the
/// query's shape carries a cursor, and the positions after it are laid out
/// by `lemma_balances_tail_sa`.
proof fn balances_pin_sa(q: BankQuery, s: Seq<u8>, q1: int)
    requires
        q is Balances,
        bq_wf(q),
        senc_bank_query(q) == s,
        24 <= q1,
        q1 + 17 <= s.len(),
        forall|k: int| 24 <= k < q1 ==> s[k] != 34,
        s[q1] == 34,
        s.subrange(q1, q1 + 17) == sl_f_start_after(),
    ensures
        match q {
            BankQuery::Balances { address, start_after, limit } => {
                &&& q1 == 24 + 2 * address@.len() as int
                &&& start_after is Some
                &&& match start_after {
                    Option::Some(x0) => {
                        &&& json_str_wf(x0@)
                        &&& (q1 + 17 + x0@.len() as int) < s.len()
                        &&& s[q1 + 17 + x0@.len() as int] == 34
                        &&& forall|k: int| q1 + 17 <= k < q1 + 17 + x0@.len() as int ==> s[k] != 34
                        &&& s.subrange(q1 + 17, q1 + 17 + x0@.len() as int) == x0@
                        &&& match limit {
                            Option::None => s.len() == q1 + 17 + x0@.len() + 3 && s.subrange(
                                q1 + 17 + x0@.len() as int,
                                s.len() as int,
                            ) == sl_qq_end(),
                            Option::Some(lv) => {
                                &&& s.len() == q1 + 17 + x0@.len() + 10 + dec_of(
                                    lv as nat,
                                ).len() + 2
                                &&& s.subrange(
                                    q1 + 17 + x0@.len() as int,
                                    q1 + 17 + x0@.len() as int + 10,
                                ) == sl_f_limit()
                                &&& s.subrange(
                                    q1 + 17 + x0@.len() as int + 10,
                                    s.len() - 2,
                                ) == dec_of(lv as nat)
                                &&& s.subrange(s.len() - 2, s.len() as int) == sl_nn_end()
                            },
                        }
                    },
                    Option::None => false,
                }
            },
            _ => true,
        },
{
    lemma_balances_decomp(q, s);
    match q {
        BankQuery::Balances { address: a0, start_after: sa0, limit: l0 } => {
            lemma_quote_pin(s, 24, 24 + 2 * a0@.len() as int, q1);
            let t = balances_tail(sa0, l0);
            lemma_balances_tail_shape(sa0, l0);
            assert(t[1] == s[q1 + 1]);
            assert(s[q1 + 1] == sl_f_start_after()[1]);
            match (sa0, l0) {
                (Option::None, Option::None) => {
                    assert(false);
                },
                (Option::None, Option::Some(lv)) => {
                    assert(t[3] == s[q1 + 3]);
                    assert(s[q1 + 3] == sl_f_start_after()[3]);
                    assert(false);
                },
                (Option::Some(x0), _) => {
                    lemma_balances_tail_sa(x0, l0);
                    assert forall|k: int| q1 + 17 <= k < q1 + 17 + x0@.len() as int implies s[k]
                        != 34 by {
                        assert(t[k - q1] == s[k]);
                    }
                    assert(s[q1 + 17 + x0@.len() as int] == t[17 + x0@.len() as int]);
                    lemma_shift_subrange(s, q1, t, 17, 17 + x0@.len() as int);
                    match l0 {
                        Option::None => {
                            lemma_shift_subrange(
                                s,
                                q1,
                                t,
                                17 + x0@.len() as int,
                                t.len() as int,
                            );
                        },
                        Option::Some(lv) => {
                            lemma_shift_subrange(
                                s,
                                q1,
                                t,
                                17 + x0@.len() as int,
                                17 + x0@.len() as int + 10,
                            );
                            lemma_shift_subrange(
                                s,
                                q1,
                                t,
                                17 + x0@.len() as int + 10,
                                t.len() - 2,
                            );
                            lemma_shift_subrange(s, q1, t, t.len() - 2, t.len() as int);
                        },
                    }
                },
            }
        },
        _ => {},
    }
}

/// Inside a balances query whose text continues with the limit field, the
/// query carries only a limit, and the digits and braces sit where the
/// parser looks.
proof fn balances_pin_lim(q: BankQuery, s: Seq<u8>, q1: int)
    requires
        q is Balances,
        bq_wf(q),
        senc_bank_query(q) == s,
        24 <= q1,
        q1 + 10 <= s.len(),
        forall|k: int| 24 <= k < q1 ==> s[k] != 34,
        s[q1] == 34,
        s.subrange(q1, q1 + 10) == sl_f_limit(),
    ensures
        match q {
            BankQuery::Balances { address, start_after, limit } => {
                &&& q1 == 24 + 2 * address@.len() as int
                &&& start_after is None
                &&& match limit {
                    Option::Some(lv) => {
                        &&& s.len() == q1 + 10 + dec_of(lv as nat).len() + 2
                        &&& s.subrange(q1 + 10, s.len() - 2) == dec_of(lv as nat)
                        &&& s.subrange(s.len() - 2, s.len() as int) == sl_nn_end()
                    },
                    Option::None => false,
                }
            },
            _ => true,
        },
{
    lemma_balances_decomp(q, s);
    match q {
        BankQuery::Balances { address: a0, start_after: sa0, limit: l0 } => {
            lemma_quote_pin(s, 24, 24 + 2 * a0@.len() as int, q1);
            let t = balances_tail(sa0, l0);
            lemma_balances_tail_shape(sa0, l0);
            assert(t[1] == s[q1 + 1]);
            assert(s[q1 + 1] == sl_f_limit()[1]);
            match (sa0, l0) {
                (Option::None, Option::None) => {
                    assert(false);
                },
                (Option::Some(x0), _) => {
                    lemma_balances_tail_sa(x0, l0);
                    assert(t[3] == s[q1 + 3]);
                    assert(t.subrange(0, 17)[3] == t[3]);
                    assert(s[q1 + 3] == sl_f_limit()[3]);
                    assert(false);
                },
                (Option::None, Option::Some(lv)) => {
                    assert(t =~= sl_f_limit() + dec_of(lv as nat) + sl_nn_end());
                    assert(t.subrange(10, t.len() - 2) =~= dec_of(lv as nat));
                    assert(t.subrange(t.len() - 2, t.len() as int) =~= sl_nn_end());
                    lemma_shift_subrange(s, q1, t, 10, t.len() - 2);
                    lemma_shift_subrange(s, q1, t, t.len() - 2, t.len() as int);
                },
            }
        },
        _ => {},
    }
}

#[verifier::rlimit(100)]
#[verifier::spinoff_prover]
fn decode_bq_supplies(s: &Vec<u8>) -> (r: Option<BankQuery>)
    ensures
        match r {
            Some(q) => bq_wf(q) && senc_bank_query(q) == s@,
            None => forall|q: BankQuery| q is Supplies && bq_wf(q) ==> senc_bank_query(q) != s@,
        },
{
    let n = s.len();
    let qq = el_qq_end();
    let nn = el_nn_end();
    let tag = el_bq_supplies();
    if !starts_with_at(s, 0, &tag) {
        proof {
            assert forall|q: BankQuery| q is Supplies && bq_wf(q) implies senc_bank_query(q)
                != s@ by {
                if senc_bank_query(q) == s@ {
                    lemma_supplies_decomp(q, s@);
                    assert(false);
                }
            }
        }
        return None;
    }
    let p0 = tag.len();
    let sup_empty = el_sup_empty();
    let brace = el_brace_end();
    if starts_with_at(s, p0, &sup_empty) {
        if n == p0 + 3 && starts_with_at(s, p0 + 2, &brace) {
            let q = BankQuery::Supplies { start_after: None, limit: None };
            proof {
                assert(s@.subrange(0, p0 as int) == sl_bq_supplies());
                assert(s@.subrange(p0 as int, p0 + 2) == sl_sup_empty());
                assert(s@.subrange(p0 + 2, n as int) == sl_brace_end());
                assert(s@ =~= s@.subrange(0, p0 as int) + s@.subrange(p0 as int, p0 + 2)
                    + s@.subrange(p0 + 2, n as int));
                assert(senc_bank_query(q) =~= s@);
            }
            return Some(q);
        }
        proof {
            assert forall|q: BankQuery| q is Supplies && bq_wf(q) implies senc_bank_query(q)
                != s@ by {
                if senc_bank_query(q) == s@ {
                    lemma_supplies_decomp(q, s@);
                    match q {
                        BankQuery::Supplies { start_after: sa0, limit: l0 } => {
                            let t = supplies_tail(sa0, l0);
                            lemma_supplies_tail_shape(sa0, l0);
                            assert(t[1] == s@[p0 + 1]);
                            assert(s@[p0 + 1] == sup_empty@[1]);
                            assert(sa0 is None && l0 is None);
                            assert(t =~= sl_sup_empty() + sl_brace_end());
                            assert(t[2] == s@[p0 + 2]);
                            assert(s@[p0 + 2] == 125);
                            assert(s@.subrange(p0 + 2, p0 + 3) =~= seq![s@[p0 + 2]]);
                            assert(s@.subrange(p0 + 2, p0 + 3) == brace@);
                        },
                        _ => {},
                    }
                    assert(false);
                }
            }
        }
        return None;
    }
    let sup_sa = el_sup_sa();
    let sup_lim = el_sup_lim();
    if starts_with_at(s, p0, &sup_sa) {
        let sstart = p0 + sup_sa.len();
        let q2 = match find_quote(s, sstart) {
            Some(j) => j,
            None => {
                proof {
                    assert forall|q: BankQuery| q is Supplies && bq_wf(q) implies senc_bank_query(
                        q,
                    ) != s@ by {
                        if senc_bank_query(q) == s@ {
                            supplies_pin_sa(q, s@);
                            match q {
                                BankQuery::Supplies { start_after: sa0, limit: l0 } => {
                                    match sa0 {
                                        Option::Some(x0) => {
                                            assert(s@[28 + x0@.len() as int] == 34);
                                        },
                                        Option::None => {},
                                    }
                                },
                                _ => {},
                            }
                            assert(false);
                        }
                    }
                }
                return None;
            },
        };
        if !json_safe_range(s, sstart, q2) {
            proof {
                assert forall|q: BankQuery| q is Supplies && bq_wf(q) implies senc_bank_query(q)
                    != s@ by {
                    if senc_bank_query(q) == s@ {
                        supplies_pin_sa(q, s@);
                        match q {
                            BankQuery::Supplies { start_after: sa0, limit: l0 } => {
                                match sa0 {
                                    Option::Some(x0) => {
                                        lemma_quote_pin(
                                            s@,
                                            sstart as int,
                                            28 + x0@.len() as int,
                                            q2 as int,
                                        );
                                        assert(s@.subrange(sstart as int, q2 as int) == x0@);
                                    },
                                    Option::None => {},
                                }
                            },
                            _ => {},
                        }
                        assert(false);
                    }
                }
            }
            return None;
        }
        if starts_with_at(s, q2, &qq) {
            if q2 + 3 != n {
                proof {
                    assert forall|q: BankQuery| q is Supplies && bq_wf(q) implies senc_bank_query(
                        q,
                    ) != s@ by {
                        if senc_bank_query(q) == s@ {
                            supplies_pin_sa(q, s@);
                            match q {
                                BankQuery::Supplies { start_after: sa0, limit: l0 } => {
                                    match sa0 {
                                        Option::Some(x0) => {
                                            lemma_quote_pin(
                                                s@,
                                                sstart as int,
                                                28 + x0@.len() as int,
                                                q2 as int,
                                            );
                                            if l0 is Some {
                                                assert(s@[q2 + 1] == sl_f_limit()[1]);
                                                assert(s@[q2 + 1] == qq@[1]);
                                            }
                                        },
                                        Option::None => {},
                                    }
                                },
                                _ => {},
                            }
                            assert(false);
                        }
                    }
                }
                return None;
            }
            let sa = sub_bytes(s, sstart, q2);
            let q = BankQuery::Supplies { start_after: Some(sa), limit: None };
            proof {
                assert(s@.subrange(0, p0 as int) == sl_bq_supplies());
                assert(s@.subrange(p0 as int, sstart as int) == sl_sup_sa());
                assert(s@.subrange(q2 as int, n as int) == sl_qq_end());
                assert(s@ =~= s@.subrange(0, p0 as int) + s@.subrange(p0 as int, sstart as int)
                    + s@.subrange(sstart as int, q2 as int) + s@.subrange(q2 as int, n as int));
                assert(senc_bank_query(q) =~= s@);
            }
            return Some(q);
        }
        let flim = el_f_limit();
        if starts_with_at(s, q2, &flim) {
            let numstart = q2 + flim.len();
            if n - numstart < 2 || !starts_with_at(s, n - 2, &nn) {
                proof {
                    assert forall|q: BankQuery| q is Supplies && bq_wf(q) implies senc_bank_query(
                        q,
                    ) != s@ by {
                        if senc_bank_query(q) == s@ {
                            supplies_pin_sa(q, s@);
                            match q {
                                BankQuery::Supplies { start_after: sa0, limit: l0 } => {
                                    match sa0 {
                                        Option::Some(x0) => {
                                            lemma_quote_pin(
                                                s@,
                                                sstart as int,
                                                28 + x0@.len() as int,
                                                q2 as int,
                                            );
                                            if l0 is None {
                                                assert(s@[q2 + 1] == qq@[1]);
                                                assert(s@[q2 + 1] == sl_f_limit()[1]);
                                            }
                                        },
                                        Option::None => {},
                                    }
                                },
                                _ => {},
                            }
                            assert(false);
                        }
                    }
                }
                return None;
            }
            let v = match parse_u32_dec(s, numstart, n - 2) {
                Some(v) => v,
                None => {
                    proof {
                        assert forall|q: BankQuery| q is Supplies && bq_wf(q) implies
                            senc_bank_query(q) != s@ by {
                            if senc_bank_query(q) == s@ {
                                supplies_pin_sa(q, s@);
                                match q {
                                    BankQuery::Supplies { start_after: sa0, limit: l0 } => {
                                        match (sa0, l0) {
                                            (Option::Some(x0), Option::Some(lv)) => {
                                                lemma_quote_pin(
                                                    s@,
                                                    sstart as int,
                                                    28 + x0@.len() as int,
                                                    q2 as int,
                                                );
                                                assert(s@.subrange(numstart as int, n - 2)
                                                    == dec_of(lv as nat));
                                            },
                                            (Option::Some(x0), Option::None) => {
                                                lemma_quote_pin(
                                                    s@,
                                                    sstart as int,
                                                    28 + x0@.len() as int,
                                                    q2 as int,
                                                );
                                                assert(s@[q2 + 1] == qq@[1]);
                                                assert(s@[q2 + 1] == sl_f_limit()[1]);
                                            },
                                            _ => {},
                                        }
                                    },
                                    _ => {},
                                }
                                assert(false);
                            }
                        }
                    }
                    return None;
                },
            };
            let sa = sub_bytes(s, sstart, q2);
            let q = BankQuery::Supplies { start_after: Some(sa), limit: Some(v) };
            proof {
                assert(s@.subrange(0, p0 as int) == sl_bq_supplies());
                assert(s@.subrange(p0 as int, sstart as int) == sl_sup_sa());
                assert(s@.subrange(q2 as int, numstart as int) == sl_f_limit());
                assert(s@.subrange(numstart as int, n - 2) == dec_of(v as nat));
                assert(s@.subrange(n - 2, n as int) == sl_nn_end());
                assert(s@ =~= s@.subrange(0, p0 as int) + s@.subrange(p0 as int, sstart as int)
                    + s@.subrange(sstart as int, q2 as int) + s@.subrange(
                    q2 as int,
                    numstart as int,
                ) + s@.subrange(numstart as int, n - 2) + s@.subrange(n - 2, n as int));
                assert(senc_bank_query(q) =~= s@);
            }
            return Some(q);
        }
        proof {
            assert forall|q: BankQuery| q is Supplies && bq_wf(q) implies senc_bank_query(q)
                != s@ by {
                if senc_bank_query(q) == s@ {
                    supplies_pin_sa(q, s@);
                    match q {
                        BankQuery::Supplies { start_after: sa0, limit: l0 } => {
                            match sa0 {
                                Option::Some(x0) => {
                                    lemma_quote_pin(
                                        s@,
                                        sstart as int,
                                        28 + x0@.len() as int,
                                        q2 as int,
                                    );
                                    match l0 {
                                        Option::None => {
                                            assert(s@.subrange(q2 as int, q2 + 3) == qq@);
                                        },
                                        Option::Some(lv) => {
                                            assert(s@.subrange(q2 as int, q2 + 10)
                                                == sl_f_limit());
                                        },
                                    }
                                },
                                Option::None => {},
                            }
                        },
                        _ => {},
                    }
                    assert(false);
                }
            }
        }
        return None;
    }
    if starts_with_at(s, p0, &sup_lim) {
        let numstart = p0 + sup_lim.len();
        if n - numstart < 2 || !starts_with_at(s, n - 2, &nn) {
            proof {
                assert forall|q: BankQuery| q is Supplies && bq_wf(q) implies senc_bank_query(q)
                    != s@ by {
                    if senc_bank_query(q) == s@ {
                        supplies_pin_lim(q, s@);
                        assert(false);
                    }
                }
            }
            return None;
        }
        let v = match parse_u32_dec(s, numstart, n - 2) {
            Some(v) => v,
            None => {
                proof {
                    assert forall|q: BankQuery| q is Supplies && bq_wf(q) implies senc_bank_query(
                        q,
                    ) != s@ by {
                        if senc_bank_query(q) == s@ {
                            supplies_pin_lim(q, s@);
                            assert(false);
                        }
                    }
                }
                return None;
            },
        };
        let q = BankQuery::Supplies { start_after: None, limit: Some(v) };
        proof {
            assert(s@.subrange(0, p0 as int) == sl_bq_supplies());
            assert(s@.subrange(p0 as int, numstart as int) == sl_sup_lim());
            assert(s@.subrange(numstart as int, n - 2) == dec_of(v as nat));
            assert(s@.subrange(n - 2, n as int) == sl_nn_end());
            assert(s@ =~= s@.subrange(0, p0 as int) + s@.subrange(p0 as int, numstart as int)
                + s@.subrange(numstart as int, n - 2) + s@.subrange(n - 2, n as int));
            assert(senc_bank_query(q) =~= s@);
        }
        return Some(q);
    }
    proof {
        assert forall|q: BankQuery| q is Supplies && bq_wf(q) implies senc_bank_query(q) != s@ by {
            if senc_bank_query(q) == s@ {
                lemma_supplies_decomp(q, s@);
                match q {
                    BankQuery::Supplies { start_after: sa0, limit: l0 } => {
                        let t = supplies_tail(sa0, l0);
                        match (sa0, l0) {
                            (Option::None, Option::None) => {
                                assert(t =~= sl_sup_empty() + sl_brace_end());
                                assert(t.subrange(0, 2) =~= sl_sup_empty());
                                lemma_shift_subrange(s@, p0 as int, t, 0, 2);
                                assert(s@.subrange(p0 as int, p0 + 2) == sup_empty@);
                            },
                            (Option::Some(x0), _) => {
                                lemma_supplies_tail_sa(x0, l0);
                                lemma_shift_subrange(s@, p0 as int, t, 0, 16);
                                assert(s@.subrange(p0 as int, p0 + 16) == sup_sa@);
                            },
                            (Option::None, Option::Some(lv)) => {
                                assert(t =~= sl_sup_lim() + dec_of(lv as nat) + sl_nn_end());
                                assert(t.subrange(0, 9) =~= sl_sup_lim());
                                lemma_shift_subrange(s@, p0 as int, t, 0, 9);
                                assert(s@.subrange(p0 as int, p0 + 9) == sup_lim@);
                            },
                        }
                    },
                    _ => {},
                }
                assert(false);
            }
        }
    }
    None
}

/// Inside a supplies query whose object opens with the cursor field, the
/// query carries a cursor, and the positions after it are laid out by
/// `lemma_supplies_tail_sa`.
proof fn supplies_pin_sa(q: BankQuery, s: Seq<u8>)
    requires
        q is Supplies,
        bq_wf(q),
        senc_bank_query(q) == s,
        28 <= s.len(),
        s.subrange(12, 28) == sl_sup_sa(),
    ensures
        match q {
            BankQuery::Supplies { start_after, limit } => {
                &&& start_after is Some
                &&& match start_after {
                    Option::Some(x0) => {
                        &&& json_str_wf(x0@)
                        &&& (28 + x0@.len() as int) < s.len()
                        &&& s[28 + x0@.len() as int] == 34
                        &&& forall|k: int| 28 <= k < 28 + x0@.len() as int ==> s[k] != 34
                        &&& s.subrange(28, 28 + x0@.len() as int) == x0@
                        &&& match limit {
                            Option::None => s.len() == 28 + x0@.len() + 3 && s.subrange(
                                28 + x0@.len() as int,
                                s.len() as int,
                            ) == sl_qq_end(),
                            Option::Some(lv) => {
                                &&& s.len() == 28 + x0@.len() + 10 + dec_of(lv as nat).len() + 2
                                &&& s.subrange(
                                    28 + x0@.len() as int,
                                    28 + x0@.len() as int + 10,
                                ) == sl_f_limit()
                                &&& s.subrange(28 + x0@.len() as int + 10, s.len() - 2) == dec_of(
                                    lv as nat,
                                )
                                &&& s.subrange(s.len() - 2, s.len() as int) == sl_nn_end()
                            },
                        }
                    },
                    Option::None => false,
                }
            },
            _ => true,
        },
{
    lemma_supplies_decomp(q, s);
    match q {
        BankQuery::Supplies { start_after: sa0, limit: l0 } => {
            let t = supplies_tail(sa0, l0);
            lemma_supplies_tail_shape(sa0, l0);
            assert(t[1] == s[13]);
            assert(s[13] == sl_sup_sa()[1]);
            assert(t[2] == s[14]);
            assert(s[14] == sl_sup_sa()[2]);
            match (sa0, l0) {
                (Option::None, Option::None) => {
                    assert(false);
                },
                (Option::None, Option::Some(lv)) => {
                    assert(false);
                },
                (Option::Some(x0), _) => {
                    lemma_supplies_tail_sa(x0, l0);
                    assert forall|k: int| 28 <= k < 28 + x0@.len() as int implies s[k] != 34 by {
                        assert(t[k - 12] == s[k]);
                    }
                    assert(s[28 + x0@.len() as int] == t[16 + x0@.len() as int]);
                    lemma_shift_subrange(s, 12, t, 16, 16 + x0@.len() as int);
                    match l0 {
                        Option::None => {
                            lemma_shift_subrange(s, 12, t, 16 + x0@.len() as int, t.len() as int);
                        },
                        Option::Some(lv) => {
                            lemma_shift_subrange(
                                s,
                                12,
                                t,
                                16 + x0@.len() as int,
                                16 + x0@.len() as int + 10,
                            );
                            lemma_shift_subrange(s, 12, t, 16 + x0@.len() as int + 10, t.len() - 2);
                            lemma_shift_subrange(s, 12, t, t.len() - 2, t.len() as int);
                        },
                    }
                },
            }
        },
        _ => {},
    }
}

/// Inside a supplies query whose object opens with the limit field, the
/// query carries only a limit, with the digits and braces where the parser
/// looks.
proof fn supplies_pin_lim(q: BankQuery, s: Seq<u8>)
    requires
        q is Supplies,
        bq_wf(q),
        senc_bank_query(q) == s,
        21 <= s.len(),
        s.subrange(12, 21) == sl_sup_lim(),
    ensures
        match q {
            BankQuery::Supplies { start_after, limit } => {
                &&& start_after is None
                &&& match limit {
                    Option::Some(lv) => {
                        &&& s.len() == 21 + dec_of(lv as nat).len() + 2
                        &&& s.subrange(21, s.len() - 2) == dec_of(lv as nat)
                        &&& s.subrange(s.len() - 2, s.len() as int) == sl_nn_end()
                    },
                    Option::None => false,
                }
            },
            _ => true,
        },
{
    lemma_supplies_decomp(q, s);
    match q {
        BankQuery::Supplies { start_after: sa0, limit: l0 } => {
            let t = supplies_tail(sa0, l0);
            lemma_supplies_tail_shape(sa0, l0);
            assert(t[1] == s[13]);
            assert(s[13] == sl_sup_lim()[1]);
            assert(t[2] == s[14]);
            assert(s[14] == sl_sup_lim()[2]);
            match (sa0, l0) {
                (Option::None, Option::None) => {
                    assert(false);
                },
                (Option::Some(x0), _) => {
                    lemma_supplies_tail_sa(x0, l0);
                    assert(t.subrange(0, 16)[2] == t[2]);
                    assert(false);
                },
                (Option::None, Option::Some(lv)) => {
                    assert(t =~= sl_sup_lim() + dec_of(lv as nat) + sl_nn_end());
                    assert(t.subrange(9, t.len() - 2) =~= dec_of(lv as nat));
                    assert(t.subrange(t.len() - 2, t.len() as int) =~= sl_nn_end());
                    lemma_shift_subrange(s, 12, t, 9, t.len() - 2);
                    lemma_shift_subrange(s, 12, t, t.len() - 2, t.len() as int);
                },
            }
        },
        _ => {},
    }
}

// the text `{"ok":`
pub open spec fn sl_ok_frame() -> Seq<u8> {
    seq![123u8, 34, 111, 107, 34, 58]
}

fn el_ok_frame() -> (r: Vec<u8>)
    ensures
        r@ == sl_ok_frame(),
{
    let r: Vec<u8> = vec![123u8, 34, 111, 107, 34, 58];
    proof {
        assert(r@ =~= sl_ok_frame());
    }
    r
}

// the text `{"err":"`
pub open spec fn sl_err_frame() -> Seq<u8> {
    seq![123u8, 34, 101, 114, 114, 34, 58, 34]
}

fn el_err_frame() -> (r: Vec<u8>)
    ensures
        r@ == sl_err_frame(),
{
    let r: Vec<u8> = vec![123u8, 34, 101, 114, 114, 34, 58, 34];
    proof {
        assert(r@ =~= sl_err_frame());
    }
    r
}

/// The frame a successful contract result travels in: the payload under
/// the `ok` tag.
pub open spec fn senc_ok_frame(inner: Seq<u8>) -> Seq<u8> {
    sl_ok_frame() + inner + sl_brace_end()
}

/// The frame a failed contract result travels in: the failure text under
/// the `err` tag.
pub open spec fn senc_err_frame(msg: Seq<u8>) -> Seq<u8> {
    sl_err_frame() + msg + sl_qbrace()
}

/// Wrap a successful payload in its result frame.
pub fn encode_ok_frame(inner: &Vec<u8>) -> (r: Vec<u8>)
    ensures
        r@ == senc_ok_frame(inner@),
{
    let mut r = el_ok_frame();
    append_bytes(&mut r, inner);
    let e = el_brace_end();
    append_bytes(&mut r, &e);
    proof {
        assert(r@ =~= sl_ok_frame() + inner@ + sl_brace_end());
    }
    r
}

/// Wrap a failure text in its result frame.
pub fn encode_err_frame(msg: &Vec<u8>) -> (r: Vec<u8>)
    ensures
        r@ == senc_err_frame(msg@),
{
    let mut r = el_err_frame();
    append_bytes(&mut r, msg);
    let e = el_qbrace();
    append_bytes(&mut r, &e);
    proof {
        assert(r@ =~= sl_err_frame() + msg@ + sl_qbrace());
    }
    r
}

/// Take a result frame apart: the success payload, or the failure text.
/// A `Some` answer is exactly the frame's content: it re-frames to the
/// input.
pub fn decode_result_frame(s: &Vec<u8>) -> (r: Option<GenericResult<Vec<u8>>>)
    ensures
        match r {
            Some(GenericResult::Success(inner)) => s@ == senc_ok_frame(inner@),
            Some(GenericResult::Failure(msg)) => s@ == senc_err_frame(msg@) && json_str_wf(msg@),
            None => (forall|v: Seq<u8>| s@ != senc_ok_frame(v)) && (forall|m: Seq<u8>|
                json_str_wf(m) ==> s@ != senc_err_frame(m)),
        },
{
    let n = s.len();
    let ok = el_ok_frame();
    let err = el_err_frame();
    if starts_with_at(s, 0, &ok) {
        proof {
            // the two frames disagree at the third byte
            assert forall|m: Seq<u8>| json_str_wf(m) implies s@ != senc_err_frame(m) by {
                if s@ == senc_err_frame(m) {
                    assert(senc_err_frame(m)[2] == sl_err_frame()[2]);
                    assert(s@.subrange(0, 6)[2] == s@[2]);
                }
            }
        }
        let p0 = ok.len();
        if n - p0 < 1 {
            proof {
                assert forall|v: Seq<u8>| s@ != senc_ok_frame(v) by {
                    if s@ == senc_ok_frame(v) {
                        assert(senc_ok_frame(v).len() == 7 + v.len());
                    }
                }
            }
            return None;
        }
        let brace = el_brace_end();
        if !starts_with_at(s, n - 1, &brace) {
            proof {
                assert forall|v: Seq<u8>| s@ != senc_ok_frame(v) by {
                    if s@ == senc_ok_frame(v) {
                        assert(s@[n - 1] == sl_brace_end()[0]);
                        assert(s@.subrange(n - 1, n as int) =~= sl_brace_end());
                    }
                }
            }
            return None;
        }
        let inner = sub_bytes(s, p0, n - 1);
        proof {
            assert(s@.subrange(0, p0 as int) == sl_ok_frame());
            assert(s@.subrange(n - 1, n as int) == sl_brace_end());
            assert(s@ =~= s@.subrange(0, p0 as int) + s@.subrange(p0 as int, n - 1) + s@.subrange(
                n - 1,
                n as int,
            ));
        }
        return Some(GenericResult::Success(inner));
    }
    if starts_with_at(s, 0, &err) {
        proof {
            assert forall|v: Seq<u8>| s@ != senc_ok_frame(v) by {
                if s@ == senc_ok_frame(v) {
                    assert(senc_ok_frame(v)[2] == sl_ok_frame()[2]);
                    assert(s@.subrange(0, 8)[2] == s@[2]);
                }
            }
        }
        let p0 = err.len();
        if n - p0 < 2 {
            proof {
                assert forall|m: Seq<u8>| json_str_wf(m) implies s@ != senc_err_frame(m) by {
                    if s@ == senc_err_frame(m) {
                        assert(senc_err_frame(m).len() == 10 + m.len());
                    }
                }
            }
            return None;
        }
        let qb = el_qbrace();
        if !starts_with_at(s, n - 2, &qb) {
            proof {
                assert forall|m: Seq<u8>| json_str_wf(m) implies s@ != senc_err_frame(m) by {
                    if s@ == senc_err_frame(m) {
                        assert(s@[n - 2] == sl_qbrace()[0]);
                        assert(s@[n - 1] == sl_qbrace()[1]);
                        assert(s@.subrange(n - 2, n as int) =~= sl_qbrace());
                    }
                }
            }
            return None;
        }
        if !json_safe_range(s, p0, n - 2) {
            proof {
                assert forall|m: Seq<u8>| json_str_wf(m) implies s@ != senc_err_frame(m) by {
                    if s@ == senc_err_frame(m) {
                        assert(s@.subrange(p0 as int, n - 2) =~= m);
                    }
                }
            }
            return None;
        }
        let msg = sub_bytes(s, p0, n - 2);
        proof {
            assert(s@.subrange(0, p0 as int) == sl_err_frame());
            assert(s@.subrange(n - 2, n as int) == sl_qbrace());
            assert(s@ =~= s@.subrange(0, p0 as int) + s@.subrange(p0 as int, n - 2) + s@.subrange(
                n - 2,
                n as int,
            ));
        }
        return Some(GenericResult::Failure(msg));
    }
    proof {
        assert forall|v: Seq<u8>| s@ != senc_ok_frame(v) by {
            if s@ == senc_ok_frame(v) {
                assert(s@.subrange(0, 6) =~= sl_ok_frame());
            }
        }
        assert forall|m: Seq<u8>| json_str_wf(m) implies s@ != senc_err_frame(m) by {
            if s@ == senc_err_frame(m) {
                assert(s@.subrange(0, 8) =~= sl_err_frame());
            }
        }
    }
    None
}
// the text `{\"info\":{}}`
pub open spec fn sl_qr_info() -> Seq<u8> {
    seq![123u8, 34, 105, 110, 102, 111, 34, 58, 123, 125, 125]
}

fn el_qr_info() -> (r: Vec<u8>)
    ensures
        r@ == sl_qr_info(),
{
    let r: Vec<u8> = vec![123u8, 34, 105, 110, 102, 111, 34, 58, 123, 125, 125];
    proof {
        assert(r@ =~= sl_qr_info());
    }
    r
}

// the text `{\"codes\":`
pub open spec fn sl_qr_codes() -> Seq<u8> {
    seq![123u8, 34, 99, 111, 100, 101, 115, 34, 58]
}

fn el_qr_codes() -> (r: Vec<u8>)
    ensures
        r@ == sl_qr_codes(),
{
    let r: Vec<u8> = vec![123u8, 34, 99, 111, 100, 101, 115, 34, 58];
    proof {
        assert(r@ =~= sl_qr_codes());
    }
    r
}

// the text `{\"accounts\":`
pub open spec fn sl_qr_accounts() -> Seq<u8> {
    seq![123u8, 34, 97, 99, 99, 111, 117, 110, 116, 115, 34, 58]
}

fn el_qr_accounts() -> (r: Vec<u8>)
    ensures
        r@ == sl_qr_accounts(),
{
    let r: Vec<u8> = vec![123u8, 34, 97, 99, 99, 111, 117, 110, 116, 115, 34, 58];
    proof {
        assert(r@ =~= sl_qr_accounts());
    }
    r
}

// the text `{\"code\":{\"hash\":\"`
pub open spec fn sl_qr_code() -> Seq<u8> {
    seq![123u8, 34, 99, 111, 100, 101, 34, 58, 123, 34, 104, 97, 115, 104, 34, 58, 34]
}

fn el_qr_code() -> (r: Vec<u8>)
    ensures
        r@ == sl_qr_code(),
{
    let r: Vec<u8> = vec![123u8, 34, 99, 111, 100, 101, 34, 58, 123, 34, 104, 97, 115, 104, 34, 58, 34];
    proof {
        assert(r@ =~= sl_qr_code());
    }
    r
}

// the text `{\"account\":{\"address\":\"`
pub open spec fn sl_qr_account() -> Seq<u8> {
    seq![123u8, 34, 97, 99, 99, 111, 117, 110, 116, 34, 58, 123, 34, 97, 100, 100, 114, 101, 115, 115, 34, 58, 34]
}

fn el_qr_account() -> (r: Vec<u8>)
    ensures
        r@ == sl_qr_account(),
{
    let r: Vec<u8> = vec![123u8, 34, 97, 99, 99, 111, 117, 110, 116, 34, 58, 123, 34, 97, 100, 100, 114, 101, 115, 115, 34, 58, 34];
    proof {
        assert(r@ =~= sl_qr_account());
    }
    r
}

// the text `{\"wasm_raw\":{\"contract\":\"`
pub open spec fn sl_qr_wasm_raw() -> Seq<u8> {
    seq![123u8, 34, 119, 97, 115, 109, 95, 114, 97, 119, 34, 58, 123, 34, 99, 111, 110, 116, 114, 97, 99, 116, 34, 58, 34]
}

fn el_qr_wasm_raw() -> (r: Vec<u8>)
    ensures
        r@ == sl_qr_wasm_raw(),
{
    let r: Vec<u8> = vec![123u8, 34, 119, 97, 115, 109, 95, 114, 97, 119, 34, 58, 123, 34, 99, 111, 110, 116, 114, 97, 99, 116, 34, 58, 34];
    proof {
        assert(r@ =~= sl_qr_wasm_raw());
    }
    r
}

// the text `\",\"key\":\"`
pub open spec fn sl_wr_key() -> Seq<u8> {
    seq![34u8, 44, 34, 107, 101, 121, 34, 58, 34]
}

fn el_wr_key() -> (r: Vec<u8>)
    ensures
        r@ == sl_wr_key(),
{
    let r: Vec<u8> = vec![34u8, 44, 34, 107, 101, 121, 34, 58, 34];
    proof {
        assert(r@ =~= sl_wr_key());
    }
    r
}

// the text `{\"wasm_smart\":{\"contract\":\"`
pub open spec fn sl_qr_wasm_smart() -> Seq<u8> {
    seq![123u8, 34, 119, 97, 115, 109, 95, 115, 109, 97, 114, 116, 34, 58, 123, 34, 99, 111, 110, 116, 114, 97, 99, 116, 34, 58, 34]
}

fn el_qr_wasm_smart() -> (r: Vec<u8>)
    ensures
        r@ == sl_qr_wasm_smart(),
{
    let r: Vec<u8> = vec![123u8, 34, 119, 97, 115, 109, 95, 115, 109, 97, 114, 116, 34, 58, 123, 34, 99, 111, 110, 116, 114, 97, 99, 116, 34, 58, 34];
    proof {
        assert(r@ =~= sl_qr_wasm_smart());
    }
    r
}

// the text `\",\"msg\":\"`
pub open spec fn sl_ws_msg() -> Seq<u8> {
    seq![34u8, 44, 34, 109, 115, 103, 34, 58, 34]
}

fn el_ws_msg() -> (r: Vec<u8>)
    ensures
        r@ == sl_ws_msg(),
{
    let r: Vec<u8> = vec![34u8, 44, 34, 109, 115, 103, 34, 58, 34];
    proof {
        assert(r@ =~= sl_ws_msg());
    }
    r
}

// the text `{\"balance\":{\"address\":\"`
pub open spec fn sl_qr_balance() -> Seq<u8> {
    seq![123u8, 34, 98, 97, 108, 97, 110, 99, 101, 34, 58, 123, 34, 97, 100, 100, 114, 101, 115, 115, 34, 58, 34]
}

fn el_qr_balance() -> (r: Vec<u8>)
    ensures
        r@ == sl_qr_balance(),
{
    let r: Vec<u8> = vec![123u8, 34, 98, 97, 108, 97, 110, 99, 101, 34, 58, 123, 34, 97, 100, 100, 114, 101, 115, 115, 34, 58, 34];
    proof {
        assert(r@ =~= sl_qr_balance());
    }
    r
}

// the text `{\"balances\":{\"address\":\"`
pub open spec fn sl_qr_balances() -> Seq<u8> {
    seq![123u8, 34, 98, 97, 108, 97, 110, 99, 101, 115, 34, 58, 123, 34, 97, 100, 100, 114, 101, 115, 115, 34, 58, 34]
}

fn el_qr_balances() -> (r: Vec<u8>)
    ensures
        r@ == sl_qr_balances(),
{
    let r: Vec<u8> = vec![123u8, 34, 98, 97, 108, 97, 110, 99, 101, 115, 34, 58, 123, 34, 97, 100, 100, 114, 101, 115, 115, 34, 58, 34];
    proof {
        assert(r@ =~= sl_qr_balances());
    }
    r
}

// the text `{\"supply\":{\"denom\":\"`
pub open spec fn sl_qr_supply() -> Seq<u8> {
    seq![123u8, 34, 115, 117, 112, 112, 108, 121, 34, 58, 123, 34, 100, 101, 110, 111, 109, 34, 58, 34]
}

fn el_qr_supply() -> (r: Vec<u8>)
    ensures
        r@ == sl_qr_supply(),
{
    let r: Vec<u8> = vec![123u8, 34, 115, 117, 112, 112, 108, 121, 34, 58, 123, 34, 100, 101, 110, 111, 109, 34, 58, 34];
    proof {
        assert(r@ =~= sl_qr_supply());
    }
    r
}

// the text `{\"supplies\":`
pub open spec fn sl_qr_supplies() -> Seq<u8> {
    seq![123u8, 34, 115, 117, 112, 112, 108, 105, 101, 115, 34, 58]
}

fn el_qr_supplies() -> (r: Vec<u8>)
    ensures
        r@ == sl_qr_supplies(),
{
    let r: Vec<u8> = vec![123u8, 34, 115, 117, 112, 112, 108, 105, 101, 115, 34, 58];
    proof {
        assert(r@ =~= sl_qr_supplies());
    }
    r
}

/// An object holding an optional hexadecimal cursor and an optional limit,
/// as the paginated variants of a chain query carry it.
pub open spec fn senc_hex_page(start_after: Option<Seq<u8>>, limit: Option<u32>) -> Seq<u8> {
    match (start_after, limit) {
        (Option::None, Option::None) => sl_sup_empty(),
        (Option::Some(sa), Option::None) => sl_sup_sa() + hex_of(sa) + sl_qbrace(),
        (Option::None, Option::Some(l)) => sl_sup_lim() + dec_of(l as nat) + sl_brace_end(),
        (Option::Some(sa), Option::Some(l)) => sl_sup_sa() + hex_of(sa) + sl_f_limit() + dec_of(
            l as nat,
        ) + sl_brace_end(),
    }
}

fn encode_hex_page(start_after: &Option<Vec<u8>>, limit: Option<u32>) -> (r: Vec<u8>)
    ensures
        r@ == senc_hex_page(
            match start_after {
                Option::None => Option::None,
                Option::Some(sa) => Option::Some(sa@),
            },
            limit,
        ),
{
    let mut r: Vec<u8> = Vec::new();
    match (start_after, limit) {
        (Option::None, Option::None) => {
            let f = el_sup_empty();
            append_bytes(&mut r, &f);
        },
        (Option::Some(sa), Option::None) => {
            let f = el_sup_sa();
            append_bytes(&mut r, &f);
            let h = crate::execute::to_hex(sa);
            append_bytes(&mut r, &h);
            let e = el_qbrace();
            append_bytes(&mut r, &e);
        },
        (Option::None, Option::Some(l)) => {
            let f = el_sup_lim();
            append_bytes(&mut r, &f);
            let d = u128_to_dec(l as u128);
            append_bytes(&mut r, &d);
            let e = el_brace_end();
            append_bytes(&mut r, &e);
        },
        (Option::Some(sa), Option::Some(l)) => {
            let f = el_sup_sa();
            append_bytes(&mut r, &f);
            let h = crate::execute::to_hex(sa);
            append_bytes(&mut r, &h);
            let g = el_f_limit();
            append_bytes(&mut r, &g);
            let d = u128_to_dec(l as u128);
            append_bytes(&mut r, &d);
            let e = el_brace_end();
            append_bytes(&mut r, &e);
        },
    }
    proof {
        assert(r@ =~= senc_hex_page(
            match start_after {
                Option::None => Option::None,
                Option::Some(sa) => Option::Some(sa@),
            },
            limit,
        ));
    }
    r
}

/// The JSON form of a chain query; addresses, hashes and raw payloads in
/// hexadecimal.
pub open spec fn senc_query_request(q: QueryRequest) -> Seq<u8> {
    match q {
        QueryRequest::Info => sl_qr_info(),
        QueryRequest::Codes { start_after, limit } => sl_qr_codes() + senc_hex_page(
            match start_after {
                Option::None => Option::None,
                Option::Some(sa) => Option::Some(sa@),
            },
            limit,
        ) + sl_brace_end(),
        QueryRequest::Accounts { start_after, limit } => sl_qr_accounts() + senc_hex_page(
            match start_after {
                Option::None => Option::None,
                Option::Some(sa) => Option::Some(sa@),
            },
            limit,
        ) + sl_brace_end(),
        QueryRequest::Code { hash } => sl_qr_code() + hex_of(hash@) + sl_qq_end(),
        QueryRequest::Account { address } => sl_qr_account() + hex_of(address@) + sl_qq_end(),
        QueryRequest::WasmRaw { contract, key } => sl_qr_wasm_raw() + hex_of(contract@) + sl_wr_key()
            + hex_of(key@) + sl_qq_end(),
        QueryRequest::WasmSmart { contract, msg } => sl_qr_wasm_smart() + hex_of(contract@)
            + sl_ws_msg() + hex_of(msg@) + sl_qq_end(),
        QueryRequest::Balance { address, denom } => sl_qr_balance() + hex_of(address@)
            + sl_f_denom() + denom@ + sl_qq_end(),
        QueryRequest::Balances { address, start_after, limit } => sl_qr_balances() + hex_of(
            address@,
        ) + (match (start_after, limit) {
            (Option::None, Option::None) => sl_qq_end(),
            (Option::Some(sa), Option::None) => sl_f_start_after() + sa@ + sl_qq_end(),
            (Option::None, Option::Some(l)) => sl_f_limit() + dec_of(l as nat) + sl_nn_end(),
            (Option::Some(sa), Option::Some(l)) => sl_f_start_after() + sa@ + sl_f_limit()
                + dec_of(l as nat) + sl_nn_end(),
        }),
        QueryRequest::Supply { denom } => sl_qr_supply() + denom@ + sl_qq_end(),
        QueryRequest::Supplies { start_after, limit } => sl_qr_supplies() + (match (
            start_after,
            limit,
        ) {
            (Option::None, Option::None) => sl_sup_empty() + sl_brace_end(),
            (Option::Some(sa), Option::None) => sl_sup_sa() + sa@ + sl_qq_end(),
            (Option::None, Option::Some(l)) => sl_sup_lim() + dec_of(l as nat) + sl_nn_end(),
            (Option::Some(sa), Option::Some(l)) => sl_sup_sa() + sa@ + sl_f_limit() + dec_of(
                l as nat,
            ) + sl_nn_end(),
        }),
    }
}

/// The chain queries the canonical wire form can carry: every free-form
/// string needs no escaping (cursors of the code and account pages are
/// hexadecimal already).
pub open spec fn qr_wf(q: QueryRequest) -> bool {
    match q {
        QueryRequest::Balance { denom, .. } => json_str_wf(denom@),
        QueryRequest::Supply { denom, .. } => json_str_wf(denom@),
        QueryRequest::Balances { start_after, .. } => (match start_after {
            Option::None => true,
            Option::Some(sa) => json_str_wf(sa@),
        }),
        QueryRequest::Supplies { start_after, .. } => (match start_after {
            Option::None => true,
            Option::Some(sa) => json_str_wf(sa@),
        }),
        _ => true,
    }
}

/// Write a chain query in its JSON form.
#[verifier::rlimit(100)]
#[verifier::spinoff_prover]
pub fn encode_query_request(q: &QueryRequest) -> (r: Vec<u8>)
    requires
        qr_wf(*q),
    ensures
        r@ == senc_query_request(*q),
{
    let mut r: Vec<u8> = Vec::new();
    match q {
        QueryRequest::Info => {
            let f = el_qr_info();
            append_bytes(&mut r, &f);
        },
        QueryRequest::Codes { start_after, limit } => {
            let f = el_qr_codes();
            append_bytes(&mut r, &f);
            let p = encode_hex_page(start_after, *limit);
            append_bytes(&mut r, &p);
            let e = el_brace_end();
            append_bytes(&mut r, &e);
        },
        QueryRequest::Accounts { start_after, limit } => {
            let f = el_qr_accounts();
            append_bytes(&mut r, &f);
            let p = encode_hex_page(start_after, *limit);
            append_bytes(&mut r, &p);
            let e = el_brace_end();
            append_bytes(&mut r, &e);
        },
        QueryRequest::Code { hash } => {
            let f = el_qr_code();
            append_bytes(&mut r, &f);
            let h = crate::execute::to_hex(hash);
            append_bytes(&mut r, &h);
            let e = el_qq_end();
            append_bytes(&mut r, &e);
        },
        QueryRequest::Account { address } => {
            let f = el_qr_account();
            append_bytes(&mut r, &f);
            let h = crate::execute::to_hex(address);
            append_bytes(&mut r, &h);
            let e = el_qq_end();
            append_bytes(&mut r, &e);
        },
        QueryRequest::WasmRaw { contract, key } => {
            let f = el_qr_wasm_raw();
            append_bytes(&mut r, &f);
            let h = crate::execute::to_hex(contract);
            append_bytes(&mut r, &h);
            let g = el_wr_key();
            append_bytes(&mut r, &g);
            let kh = crate::execute::to_hex(key);
            append_bytes(&mut r, &kh);
            let e = el_qq_end();
            append_bytes(&mut r, &e);
        },
        QueryRequest::WasmSmart { contract, msg } => {
            let f = el_qr_wasm_smart();
            append_bytes(&mut r, &f);
            let h = crate::execute::to_hex(contract);
            append_bytes(&mut r, &h);
            let g = el_ws_msg();
            append_bytes(&mut r, &g);
            let mh = crate::execute::to_hex(msg);
            append_bytes(&mut r, &mh);
            let e = el_qq_end();
            append_bytes(&mut r, &e);
        },
        QueryRequest::Balance { address, denom } => {
            let f = el_qr_balance();
            append_bytes(&mut r, &f);
            let h = crate::execute::to_hex(address);
            append_bytes(&mut r, &h);
            let g = el_f_denom();
            append_bytes(&mut r, &g);
            append_bytes(&mut r, denom);
            let e = el_qq_end();
            append_bytes(&mut r, &e);
        },
        QueryRequest::Balances { address, start_after, limit } => {
            let f = el_qr_balances();
            append_bytes(&mut r, &f);
            let h = crate::execute::to_hex(address);
            append_bytes(&mut r, &h);
            match (start_after, limit) {
                (Option::None, Option::None) => {
                    let e = el_qq_end();
                    append_bytes(&mut r, &e);
                },
                (Option::Some(sa), Option::None) => {
                    let g = el_f_start_after();
                    append_bytes(&mut r, &g);
                    append_bytes(&mut r, sa);
                    let e = el_qq_end();
                    append_bytes(&mut r, &e);
                },
                (Option::None, Option::Some(l)) => {
                    let g = el_f_limit();
                    append_bytes(&mut r, &g);
                    let d = u128_to_dec(*l as u128);
                    append_bytes(&mut r, &d);
                    let e = el_nn_end();
                    append_bytes(&mut r, &e);
                },
                (Option::Some(sa), Option::Some(l)) => {
                    let g = el_f_start_after();
                    append_bytes(&mut r, &g);
                    append_bytes(&mut r, sa);
                    let g2 = el_f_limit();
                    append_bytes(&mut r, &g2);
                    let d = u128_to_dec(*l as u128);
                    append_bytes(&mut r, &d);
                    let e = el_nn_end();
                    append_bytes(&mut r, &e);
                },
            }
        },
        QueryRequest::Supply { denom } => {
            let f = el_qr_supply();
            append_bytes(&mut r, &f);
            append_bytes(&mut r, denom);
            let e = el_qq_end();
            append_bytes(&mut r, &e);
        },
        QueryRequest::Supplies { start_after, limit } => {
            let f = el_qr_supplies();
            append_bytes(&mut r, &f);
            match (start_after, limit) {
                (Option::None, Option::None) => {
                    let g = el_sup_empty();
                    append_bytes(&mut r, &g);
                    let e = el_brace_end();
                    append_bytes(&mut r, &e);
                },
                (Option::Some(sa), Option::None) => {
                    let g = el_sup_sa();
                    append_bytes(&mut r, &g);
                    append_bytes(&mut r, sa);
                    let e = el_qq_end();
                    append_bytes(&mut r, &e);
                },
                (Option::None, Option::Some(l)) => {
                    let g = el_sup_lim();
                    append_bytes(&mut r, &g);
                    let d = u128_to_dec(*l as u128);
                    append_bytes(&mut r, &d);
                    let e = el_nn_end();
                    append_bytes(&mut r, &e);
                },
                (Option::Some(sa), Option::Some(l)) => {
                    let g = el_sup_sa();
                    append_bytes(&mut r, &g);
                    append_bytes(&mut r, sa);
                    let g2 = el_f_limit();
                    append_bytes(&mut r, &g2);
                    let d = u128_to_dec(*l as u128);
                    append_bytes(&mut r, &d);
                    let e = el_nn_end();
                    append_bytes(&mut r, &e);
                },
            }
        },
    }
    proof {
        assert(r@ =~= senc_query_request(*q));
    }
    r
}

} // verus!
