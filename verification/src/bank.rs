//! The bank contract: balances per `(address, denomination)` and a total
//! supply per denomination. Zero amounts are never stored. The standing
//! invariant ties the two together: for every denomination, the supply
//! equals the sum of all balances.

use vstd::prelude::*;
use crate::bytes_util::{lex_lt, lex_cmp_bytes, bytes_eq, copy_bytes, lemma_lex_cmp_range, lemma_lex_cmp_eq_iff, lemma_lex_cmp_antisym, lemma_lex_lt_trans};
use crate::coins::{Coin, Coins, CoinsModel, coin_amt, coins_wf};
use crate::types::{Response, TransferMsg, BankQuery, BankQueryResponse};

verus! {

/// The balances model: `(address, denomination, amount)` triples.
pub type BalModel = Seq<(Seq<u8>, Seq<u8>, u128)>;

/// The supplies model: `(denomination, amount)` pairs.
pub type SupModel = Seq<(Seq<u8>, u128)>;

/// Order on balance keys: by address, then by denomination.
pub open spec fn pair_lt(a1: Seq<u8>, d1: Seq<u8>, a2: Seq<u8>, d2: Seq<u8>) -> bool {
    lex_lt(a1, a2) || (a1 == a2 && lex_lt(d1, d2))
}

pub open spec fn bal_sorted(b: BalModel) -> bool {
    forall|i: int, j: int|
        0 <= i < j < b.len() ==> pair_lt(
            (#[trigger] b[i]).0,
            b[i].1,
            (#[trigger] b[j]).0,
            b[j].1,
        )
}

pub open spec fn bal_positive(b: BalModel) -> bool {
    forall|i: int| 0 <= i < b.len() ==> (#[trigger] b[i]).2 > 0
}

pub open spec fn bal_wf(b: BalModel) -> bool {
    bal_sorted(b) && bal_positive(b)
}

/// The balance an account holds in a denomination; zero when absent.
pub open spec fn balance_of(b: BalModel, a: Seq<u8>, d: Seq<u8>) -> int
    decreases b.len(),
{
    if b.len() == 0 {
        0
    } else if b[0].0 == a && b[0].1 == d {
        b[0].2 as int
    } else {
        balance_of(b.skip(1), a, d)
    }
}

/// The sum of all balances in one denomination.
pub open spec fn sum_denom(b: BalModel, d: Seq<u8>) -> int
    decreases b.len(),
{
    if b.len() == 0 {
        0
    } else {
        (if b[0].1 == d {
            b[0].2 as int
        } else {
            0
        }) + sum_denom(b.skip(1), d)
    }
}

pub open spec fn sup_sorted(s: SupModel) -> bool {
    forall|i: int, j: int| 0 <= i < j < s.len() ==> lex_lt((#[trigger] s[i]).0, (#[trigger] s[j]).0)
}

pub open spec fn sup_positive(s: SupModel) -> bool {
    forall|i: int| 0 <= i < s.len() ==> (#[trigger] s[i]).1 > 0
}

pub open spec fn sup_wf(s: SupModel) -> bool {
    sup_sorted(s) && sup_positive(s)
}

/// The recorded total supply of a denomination; zero when absent.
pub open spec fn supply_of(s: SupModel, d: Seq<u8>) -> int
    decreases s.len(),
{
    if s.len() == 0 {
        0
    } else if s[0].0 == d {
        s[0].1 as int
    } else {
        supply_of(s.skip(1), d)
    }
}

/// The bank's standing invariant: every denomination's recorded supply is
/// the sum of the balances held in it.
pub open spec fn consistent(b: BalModel, s: SupModel) -> bool {
    forall|d: Seq<u8>| #[trigger] supply_of(s, d) == sum_denom(b, d)
}

// ------------------------------- lemmas -------------------------------

pub proof fn lemma_bal_absent(b: BalModel, a: Seq<u8>, d: Seq<u8>)
    requires
        forall|i: int| 0 <= i < b.len() ==> !((#[trigger] b[i]).0 == a && b[i].1 == d),
    ensures
        balance_of(b, a, d) == 0,
    decreases b.len(),
{
    if b.len() > 0 {
        assert forall|i: int| 0 <= i < b.skip(1).len() implies !((#[trigger] b.skip(1)[i]).0 == a
            && b.skip(1)[i].1 == d) by {
            assert(b.skip(1)[i] == b[i + 1]);
        }
        lemma_bal_absent(b.skip(1), a, d);
    }
}

pub proof fn lemma_bal_tail_sorted(b: BalModel)
    requires
        bal_sorted(b),
        b.len() > 0,
    ensures
        bal_sorted(b.skip(1)),
{
    assert forall|i: int, j: int| 0 <= i < j < b.skip(1).len() implies pair_lt(
        (#[trigger] b.skip(1)[i]).0,
        b.skip(1)[i].1,
        (#[trigger] b.skip(1)[j]).0,
        b.skip(1)[j].1,
    ) by {
        assert(b.skip(1)[i] == b[i + 1] && b.skip(1)[j] == b[j + 1]);
    }
}

/// In a sorted balance list the entry at an index is what lookup returns.
pub proof fn lemma_bal_at(b: BalModel, i: int)
    requires
        bal_sorted(b),
        0 <= i < b.len(),
    ensures
        balance_of(b, b[i].0, b[i].1) == b[i].2,
    decreases b.len(),
{
    if i > 0 {
        assert(pair_lt(b[0].0, b[0].1, b[i].0, b[i].1));
        lemma_lex_cmp_eq_iff(b[0].0, b[i].0);
        lemma_lex_cmp_eq_iff(b[0].1, b[i].1);
        lemma_bal_tail_sorted(b);
        lemma_bal_at(b.skip(1), i - 1);
        assert(b.skip(1)[i - 1] == b[i]);
    }
}

/// Pointwise and summed effect of replacing the amount at one index.
pub proof fn lemma_bal_update(b: BalModel, i: int, x: u128, a: Seq<u8>, d: Seq<u8>)
    requires
        0 <= i < b.len(),
    ensures
        !(a == b[i].0 && d == b[i].1) ==> balance_of(b.update(i, (b[i].0, b[i].1, x)), a, d)
            == balance_of(b, a, d),
        bal_sorted(b) && a == b[i].0 && d == b[i].1 ==> balance_of(
            b.update(i, (b[i].0, b[i].1, x)),
            a,
            d,
        ) == x,
        sum_denom(b.update(i, (b[i].0, b[i].1, x)), d) == sum_denom(b, d) + (
        if b[i].1 == d {
            x - b[i].2
        } else {
            0
        }),
    decreases b.len(),
{
    let b2 = b.update(i, (b[i].0, b[i].1, x));
    if i == 0 {
        assert(b2.skip(1) =~= b.skip(1));
        assert(b2[0] == (b[0].0, b[0].1, x));
    } else {
        assert(b2[0] == b[0]);
        assert(b2.skip(1) =~= b.skip(1).update(i - 1, (b[i].0, b[i].1, x)));
        assert(b.skip(1)[i - 1] == b[i]);
        if bal_sorted(b) {
            lemma_bal_tail_sorted(b);
        }
        lemma_bal_update(b.skip(1), i - 1, x, a, d);
        if bal_sorted(b) && a == b[i].0 && d == b[i].1 {
            assert(pair_lt(b[0].0, b[0].1, b[i].0, b[i].1));
            lemma_lex_cmp_eq_iff(b[0].0, b[i].0);
            lemma_lex_cmp_eq_iff(b[0].1, b[i].1);
            assert(!(b[0].0 == a && b[0].1 == d));
        }
    }
}

/// Pointwise and summed effect of inserting an entry.
pub proof fn lemma_bal_insert(b: BalModel, i: int, e: (Seq<u8>, Seq<u8>, u128), a: Seq<u8>, d: Seq<u8>)
    requires
        0 <= i <= b.len(),
    ensures
        !(a == e.0 && d == e.1) ==> balance_of(b.insert(i, e), a, d) == balance_of(b, a, d),
        (forall|j: int| 0 <= j < b.len() ==> !((#[trigger] b[j]).0 == e.0 && b[j].1 == e.1)) && a
            == e.0 && d == e.1 ==> balance_of(b.insert(i, e), a, d) == e.2,
        sum_denom(b.insert(i, e), d) == sum_denom(b, d) + (
        if e.1 == d {
            e.2 as int
        } else {
            0
        }),
    decreases b.len(),
{
    let b2 = b.insert(i, e);
    if i == 0 {
        assert(b2.skip(1) =~= b);
        assert(b2[0] == e);
        if (forall|j: int| 0 <= j < b.len() ==> !((#[trigger] b[j]).0 == e.0 && b[j].1 == e.1)) && a
            == e.0 && d == e.1 {
            lemma_bal_absent(b, e.0, e.1);
        }
    } else {
        assert(b2[0] == b[0]);
        assert(b2.skip(1) =~= b.skip(1).insert(i - 1, e));
        lemma_bal_insert(b.skip(1), i - 1, e, a, d);
        if (forall|j: int| 0 <= j < b.len() ==> !((#[trigger] b[j]).0 == e.0 && b[j].1 == e.1)) && a
            == e.0 && d == e.1 {
            assert forall|j: int| 0 <= j < b.skip(1).len() implies !((#[trigger] b.skip(1)[j]).0
                == e.0 && b.skip(1)[j].1 == e.1) by {
                assert(b.skip(1)[j] == b[j + 1]);
            }
            assert(!(b[0].0 == e.0 && b[0].1 == e.1));
        }
    }
}

/// Pointwise and summed effect of removing the entry at one index.
pub proof fn lemma_bal_remove(b: BalModel, i: int, a: Seq<u8>, d: Seq<u8>)
    requires
        0 <= i < b.len(),
    ensures
        !(a == b[i].0 && d == b[i].1) ==> balance_of(b.remove(i), a, d) == balance_of(b, a, d),
        bal_sorted(b) && a == b[i].0 && d == b[i].1 ==> balance_of(b.remove(i), a, d) == 0,
        sum_denom(b.remove(i), d) == sum_denom(b, d) - (
        if b[i].1 == d {
            b[i].2 as int
        } else {
            0
        }),
    decreases b.len(),
{
    let b2 = b.remove(i);
    if i == 0 {
        assert(b2 =~= b.skip(1));
        if bal_sorted(b) && a == b[0].0 && d == b[0].1 {
            lemma_bal_tail_sorted(b);
            assert forall|j: int| 0 <= j < b2.len() implies !((#[trigger] b2[j]).0 == b[0].0
                && b2[j].1 == b[0].1) by {
                assert(b2[j] == b[j + 1]);
                assert(pair_lt(b[0].0, b[0].1, b[j + 1].0, b[j + 1].1));
                lemma_lex_cmp_eq_iff(b[0].0, b[j + 1].0);
                lemma_lex_cmp_eq_iff(b[0].1, b[j + 1].1);
            }
            lemma_bal_absent(b2, b[0].0, b[0].1);
        }
    } else {
        assert(b2[0] == b[0]);
        assert(b2.skip(1) =~= b.skip(1).remove(i - 1));
        assert(b.skip(1)[i - 1] == b[i]);
        if bal_sorted(b) {
            lemma_bal_tail_sorted(b);
        }
        lemma_bal_remove(b.skip(1), i - 1, a, d);
        if bal_sorted(b) && a == b[i].0 && d == b[i].1 {
            assert(pair_lt(b[0].0, b[0].1, b[i].0, b[i].1));
            lemma_lex_cmp_eq_iff(b[0].0, b[i].0);
            lemma_lex_cmp_eq_iff(b[0].1, b[i].1);
            assert(!(b[0].0 == a && b[0].1 == d));
        }
    }
}

/// Each single balance is at most the sum over its denomination.
pub proof fn lemma_bal_le_sum(b: BalModel, a: Seq<u8>, d: Seq<u8>)
    requires
        bal_positive(b),
    ensures
        0 <= balance_of(b, a, d) <= sum_denom(b, d),
    decreases b.len(),
{
    if b.len() > 0 {
        assert forall|i: int| 0 <= i < b.skip(1).len() implies (#[trigger] b.skip(1)[i]).2 > 0 by {
            assert(b.skip(1)[i] == b[i + 1]);
        }
        lemma_bal_le_sum(b.skip(1), a, d);
        if b[0].0 == a && b[0].1 == d {
            lemma_sum_nonneg(b.skip(1), d);
        }
    }
}

pub proof fn lemma_sum_nonneg(b: BalModel, d: Seq<u8>)
    requires
        bal_positive(b),
    ensures
        sum_denom(b, d) >= 0,
    decreases b.len(),
{
    if b.len() > 0 {
        assert forall|i: int| 0 <= i < b.skip(1).len() implies (#[trigger] b.skip(1)[i]).2 > 0 by {
            assert(b.skip(1)[i] == b[i + 1]);
        }
        lemma_sum_nonneg(b.skip(1), d);
    }
}

// supply-side analogues

pub proof fn lemma_sup_absent(s: SupModel, d: Seq<u8>)
    requires
        forall|i: int| 0 <= i < s.len() ==> (#[trigger] s[i]).0 != d,
    ensures
        supply_of(s, d) == 0,
    decreases s.len(),
{
    if s.len() > 0 {
        assert forall|i: int| 0 <= i < s.skip(1).len() implies (#[trigger] s.skip(1)[i]).0 != d by {
            assert(s.skip(1)[i] == s[i + 1]);
        }
        lemma_sup_absent(s.skip(1), d);
    }
}

pub proof fn lemma_sup_tail_sorted(s: SupModel)
    requires
        sup_sorted(s),
        s.len() > 0,
    ensures
        sup_sorted(s.skip(1)),
{
    assert forall|i: int, j: int| 0 <= i < j < s.skip(1).len() implies lex_lt(
        (#[trigger] s.skip(1)[i]).0,
        (#[trigger] s.skip(1)[j]).0,
    ) by {
        assert(s.skip(1)[i] == s[i + 1] && s.skip(1)[j] == s[j + 1]);
    }
}

pub proof fn lemma_sup_at(s: SupModel, i: int)
    requires
        sup_sorted(s),
        0 <= i < s.len(),
    ensures
        supply_of(s, s[i].0) == s[i].1,
    decreases s.len(),
{
    if i > 0 {
        assert(lex_lt(s[0].0, s[i].0));
        lemma_lex_cmp_eq_iff(s[0].0, s[i].0);
        lemma_sup_tail_sorted(s);
        lemma_sup_at(s.skip(1), i - 1);
        assert(s.skip(1)[i - 1] == s[i]);
    }
}

pub proof fn lemma_sup_update(s: SupModel, i: int, x: u128, d: Seq<u8>)
    requires
        0 <= i < s.len(),
    ensures
        d != s[i].0 ==> supply_of(s.update(i, (s[i].0, x)), d) == supply_of(s, d),
        sup_sorted(s) && d == s[i].0 ==> supply_of(s.update(i, (s[i].0, x)), d) == x,
    decreases s.len(),
{
    let s2 = s.update(i, (s[i].0, x));
    if i == 0 {
        assert(s2.skip(1) =~= s.skip(1));
        assert(s2[0] == (s[0].0, x));
    } else {
        assert(s2[0] == s[0]);
        assert(s2.skip(1) =~= s.skip(1).update(i - 1, (s[i].0, x)));
        assert(s.skip(1)[i - 1] == s[i]);
        if sup_sorted(s) {
            lemma_sup_tail_sorted(s);
        }
        lemma_sup_update(s.skip(1), i - 1, x, d);
        if sup_sorted(s) && d == s[i].0 {
            assert(lex_lt(s[0].0, s[i].0));
            lemma_lex_cmp_eq_iff(s[0].0, s[i].0);
        }
    }
}

pub proof fn lemma_sup_insert(s: SupModel, i: int, e: (Seq<u8>, u128), d: Seq<u8>)
    requires
        0 <= i <= s.len(),
    ensures
        d != e.0 ==> supply_of(s.insert(i, e), d) == supply_of(s, d),
        (forall|j: int| 0 <= j < s.len() ==> (#[trigger] s[j]).0 != e.0) && d == e.0 ==> supply_of(
            s.insert(i, e),
            d,
        ) == e.1,
    decreases s.len(),
{
    let s2 = s.insert(i, e);
    if i == 0 {
        assert(s2.skip(1) =~= s);
        assert(s2[0] == e);
        if (forall|j: int| 0 <= j < s.len() ==> (#[trigger] s[j]).0 != e.0) && d == e.0 {
            lemma_sup_absent(s, e.0);
        }
    } else {
        assert(s2[0] == s[0]);
        assert(s2.skip(1) =~= s.skip(1).insert(i - 1, e));
        lemma_sup_insert(s.skip(1), i - 1, e, d);
        if (forall|j: int| 0 <= j < s.len() ==> (#[trigger] s[j]).0 != e.0) && d == e.0 {
            assert forall|j: int| 0 <= j < s.skip(1).len() implies (#[trigger] s.skip(1)[j]).0
                != e.0 by {
                assert(s.skip(1)[j] == s[j + 1]);
            }
            assert(s[0].0 != e.0);
        }
    }
}

pub proof fn lemma_sup_remove(s: SupModel, i: int, d: Seq<u8>)
    requires
        0 <= i < s.len(),
    ensures
        d != s[i].0 ==> supply_of(s.remove(i), d) == supply_of(s, d),
        sup_sorted(s) && d == s[i].0 ==> supply_of(s.remove(i), d) == 0,
    decreases s.len(),
{
    let s2 = s.remove(i);
    if i == 0 {
        assert(s2 =~= s.skip(1));
        if sup_sorted(s) && d == s[0].0 {
            lemma_sup_tail_sorted(s);
            assert forall|j: int| 0 <= j < s2.len() implies (#[trigger] s2[j]).0 != s[0].0 by {
                assert(s2[j] == s[j + 1]);
                assert(lex_lt(s[0].0, s[j + 1].0));
                lemma_lex_cmp_eq_iff(s[0].0, s[j + 1].0);
            }
            lemma_sup_absent(s2, s[0].0);
        }
    } else {
        assert(s2[0] == s[0]);
        assert(s2.skip(1) =~= s.skip(1).remove(i - 1));
        assert(s.skip(1)[i - 1] == s[i]);
        if sup_sorted(s) {
            lemma_sup_tail_sorted(s);
        }
        lemma_sup_remove(s.skip(1), i - 1, d);
        if sup_sorted(s) && d == s[i].0 {
            assert(lex_lt(s[0].0, s[i].0));
            lemma_lex_cmp_eq_iff(s[0].0, s[i].0);
        }
    }
}

/// The supply lookup never exceeds the machine range.
pub proof fn lemma_sup_range(s: SupModel, d: Seq<u8>)
    ensures
        0 <= supply_of(s, d) <= u128::MAX,
    decreases s.len(),
{
    if s.len() > 0 && s[0].0 != d {
        lemma_sup_range(s.skip(1), d);
    }
}


/// Strict order on balance keys is transitive.
pub proof fn lemma_pair_lt_trans(
    a1: Seq<u8>,
    d1: Seq<u8>,
    a2: Seq<u8>,
    d2: Seq<u8>,
    a3: Seq<u8>,
    d3: Seq<u8>,
)
    requires
        pair_lt(a1, d1, a2, d2),
        pair_lt(a2, d2, a3, d3),
    ensures
        pair_lt(a1, d1, a3, d3),
{
    if lex_lt(a1, a2) && lex_lt(a2, a3) {
        lemma_lex_lt_trans(a1, a2, a3);
    } else if lex_lt(d1, d2) && lex_lt(d2, d3) {
        lemma_lex_lt_trans(d1, d2, d3);
    }
}

/// Why a bank call is refused.
#[derive(Clone, Copy, Debug, PartialEq, Eq, Structural)]
pub enum BankError {
    DuplicateAddress,
    SupplyOverflow,
    SupplyUnderflow,
    BalanceOverflow,
    BalanceUnderflow,
    UnexpectedFunds,
}

/// The bank contract's state.
pub struct BankState {
    balances: Vec<(Vec<u8>, Vec<u8>, u128)>,
    supplies: Vec<(Vec<u8>, u128)>,
}

impl BankState {
    /// The balances, as a model.
    pub closed spec fn bals(&self) -> BalModel {
        self.balances@.map(|i: int, e: (Vec<u8>, Vec<u8>, u128)| (e.0@, e.1@, e.2))
    }

    /// The supplies, as a model.
    pub closed spec fn sups(&self) -> SupModel {
        self.supplies@.map(|i: int, e: (Vec<u8>, u128)| (e.0@, e.1))
    }

    /// The bank invariant: canonical representation, and supplies equal to
    /// the per-denomination balance sums.
    pub open spec fn inv(&self) -> bool {
        bal_wf(self.bals()) && sup_wf(self.sups()) && consistent(self.bals(), self.sups())
    }

    /// A bank holding nothing.
    pub fn new_empty() -> (r: BankState)
        ensures
            r.inv(),
            r.bals().len() == 0,
            r.sups().len() == 0,
    {
        let r = BankState { balances: Vec::new(), supplies: Vec::new() };
        proof {
            assert forall|d: Seq<u8>| #[trigger] supply_of(r.sups(), d) == sum_denom(
                r.bals(),
                d,
            ) by {}
        }
        r
    }

    /// Where `(a, d)` sits in the balances: the matching index, or the
    /// insertion point.
    fn bal_locate(&self, a: &Vec<u8>, d: &Vec<u8>) -> (r: (usize, bool))
        requires
            bal_sorted(self.bals()),
        ensures
            r.1 ==> r.0 < self.bals().len() && self.bals()[r.0 as int].0 == a@
                && self.bals()[r.0 as int].1 == d@,
            !r.1 ==> {
                &&& r.0 <= self.bals().len()
                &&& forall|j: int|
                    0 <= j < self.bals().len() ==> !((#[trigger] self.bals()[j]).0 == a@
                        && self.bals()[j].1 == d@)
                &&& forall|j: int|
                    0 <= j < r.0 ==> pair_lt(
                        (#[trigger] self.bals()[j]).0,
                        self.bals()[j].1,
                        a@,
                        d@,
                    )
                &&& r.0 < self.bals().len() ==> pair_lt(
                    a@,
                    d@,
                    self.bals()[r.0 as int].0,
                    self.bals()[r.0 as int].1,
                )
            },
    {
        let ghost m = self.bals();
        let n = self.balances.len();
        let mut i: usize = 0;
        while i < n
            invariant
                n == m.len(),
                m == self.bals(),
                bal_sorted(m),
                i <= n,
                forall|j: int| 0 <= j < i ==> pair_lt((#[trigger] m[j]).0, m[j].1, a@, d@),
            decreases n - i,
        {
            let ca = lex_cmp_bytes(&self.balances[i].0, a);
            proof {
                lemma_lex_cmp_range(m[i as int].0, a@);
                lemma_lex_cmp_eq_iff(m[i as int].0, a@);
                lemma_lex_cmp_antisym(m[i as int].0, a@);
            }
            if ca > 0 {
                proof {
                    prove_absent_from_position(m, i as int, a@, d@);
                }
                return (i, false);
            }
            if ca == 0 {
                let cd = lex_cmp_bytes(&self.balances[i].1, d);
                proof {
                    lemma_lex_cmp_range(m[i as int].1, d@);
                    lemma_lex_cmp_eq_iff(m[i as int].1, d@);
                    lemma_lex_cmp_antisym(m[i as int].1, d@);
                }
                if cd == 0 {
                    return (i, true);
                }
                if cd > 0 {
                    proof {
                        prove_absent_from_position(m, i as int, a@, d@);
                    }
                    return (i, false);
                }
            }
            i = i + 1;
        }
        proof {
            prove_absent_from_position(m, n as int, a@, d@);
        }
        (n, false)
    }

    /// Where `d` sits in the supplies.
    fn sup_locate(&self, d: &Vec<u8>) -> (r: (usize, bool))
        requires
            sup_sorted(self.sups()),
        ensures
            r.1 ==> r.0 < self.sups().len() && self.sups()[r.0 as int].0 == d@,
            !r.1 ==> {
                &&& r.0 <= self.sups().len()
                &&& forall|j: int|
                    0 <= j < self.sups().len() ==> (#[trigger] self.sups()[j]).0 != d@
                &&& forall|j: int| 0 <= j < r.0 ==> lex_lt((#[trigger] self.sups()[j]).0, d@)
                &&& r.0 < self.sups().len() ==> lex_lt(d@, self.sups()[r.0 as int].0)
            },
    {
        let ghost m = self.sups();
        let n = self.supplies.len();
        let mut i: usize = 0;
        while i < n
            invariant
                n == m.len(),
                m == self.sups(),
                sup_sorted(m),
                i <= n,
                forall|j: int| 0 <= j < i ==> lex_lt((#[trigger] m[j]).0, d@),
            decreases n - i,
        {
            let c = lex_cmp_bytes(&self.supplies[i].0, d);
            proof {
                lemma_lex_cmp_range(m[i as int].0, d@);
                lemma_lex_cmp_eq_iff(m[i as int].0, d@);
                lemma_lex_cmp_antisym(m[i as int].0, d@);
            }
            if c == 0 {
                return (i, true);
            }
            if c > 0 {
                proof {
                    sup_prove_absent_from_position(m, i as int, d@);
                }
                return (i, false);
            }
            i = i + 1;
        }
        proof {
            sup_prove_absent_from_position(m, n as int, d@);
        }
        (n, false)
    }

    /// The balance held under `(a, d)`.
    pub fn balance(&self, a: &Vec<u8>, d: &Vec<u8>) -> (r: u128)
        requires
            bal_sorted(self.bals()),
        ensures
            r as int == balance_of(self.bals(), a@, d@),
    {
        let (i, found) = self.bal_locate(a, d);
        if found {
            proof {
                lemma_bal_at(self.bals(), i as int);
            }
            self.balances[i].2
        } else {
            proof {
                lemma_bal_absent(self.bals(), a@, d@);
            }
            0
        }
    }

    /// The recorded supply of `d`.
    pub fn supply(&self, d: &Vec<u8>) -> (r: u128)
        requires
            sup_sorted(self.sups()),
        ensures
            r as int == supply_of(self.sups(), d@),
    {
        let (i, found) = self.sup_locate(d);
        if found {
            proof {
                lemma_sup_at(self.sups(), i as int);
            }
            self.supplies[i].1
        } else {
            proof {
                lemma_sup_absent(self.sups(), d@);
            }
            0
        }
    }
}

/// In a sorted balance list, once the scan passes the key's position the key
/// is nowhere.
proof fn prove_absent_from_position(m: BalModel, i: int, a: Seq<u8>, d: Seq<u8>)
    requires
        bal_sorted(m),
        0 <= i <= m.len(),
        forall|j: int| 0 <= j < i ==> pair_lt((#[trigger] m[j]).0, m[j].1, a, d),
        i < m.len() ==> pair_lt(a, d, m[i].0, m[i].1),
    ensures
        forall|j: int| 0 <= j < m.len() ==> !((#[trigger] m[j]).0 == a && m[j].1 == d),
{
    assert forall|j: int| 0 <= j < m.len() implies !((#[trigger] m[j]).0 == a && m[j].1 == d) by {
        if j < i {
            if m[j].0 == a && m[j].1 == d {
                lemma_lex_cmp_eq_iff(m[j].0, a);
                lemma_lex_cmp_eq_iff(m[j].1, d);
                lemma_lex_cmp_antisym(a, a);
            }
        } else if j == i {
            if m[j].0 == a && m[j].1 == d {
                lemma_lex_cmp_eq_iff(a, a);
                lemma_lex_cmp_eq_iff(d, d);
            }
        } else {
            assert(pair_lt(m[i].0, m[i].1, m[j].0, m[j].1));
            lemma_pair_lt_trans(a, d, m[i].0, m[i].1, m[j].0, m[j].1);
            if m[j].0 == a && m[j].1 == d {
                lemma_lex_cmp_eq_iff(a, a);
                lemma_lex_cmp_eq_iff(d, d);
            }
        }
    }
}

proof fn sup_prove_absent_from_position(m: SupModel, i: int, d: Seq<u8>)
    requires
        sup_sorted(m),
        0 <= i <= m.len(),
        forall|j: int| 0 <= j < i ==> lex_lt((#[trigger] m[j]).0, d),
        i < m.len() ==> lex_lt(d, m[i].0),
    ensures
        forall|j: int| 0 <= j < m.len() ==> (#[trigger] m[j]).0 != d,
{
    assert forall|j: int| 0 <= j < m.len() implies (#[trigger] m[j]).0 != d by {
        if j < i {
            lemma_lex_cmp_eq_iff(m[j].0, d);
        } else if j == i {
            lemma_lex_cmp_eq_iff(d, m[j].0);
        } else {
            assert(lex_lt(m[i].0, m[j].0));
            lemma_lex_lt_trans(d, m[i].0, m[j].0);
            lemma_lex_cmp_eq_iff(d, m[j].0);
        }
    }
}


impl BankState {
    /// Raise the balance under `(a, d)`; creates the entry when absent,
    /// leaves the state untouched on overflow.
    fn incr_balance(&mut self, a: &Vec<u8>, d: &Vec<u8>, amount: u128) -> (r: Result<
        (),
        BankError,
    >)
        requires
            bal_wf(old(self).bals()),
        ensures
            final(self).sups() == old(self).sups(),
            match r {
                Ok(_) => {
                    &&& bal_wf(final(self).bals())
                    &&& balance_of(old(self).bals(), a@, d@) + amount <= u128::MAX
                    &&& balance_of(final(self).bals(), a@, d@) == balance_of(
                        old(self).bals(),
                        a@,
                        d@,
                    ) + amount
                    &&& forall|a2: Seq<u8>, d2: Seq<u8>|
                        !(a2 == a@ && d2 == d@) ==> #[trigger] balance_of(
                            final(self).bals(),
                            a2,
                            d2,
                        ) == balance_of(old(self).bals(), a2, d2)
                    &&& forall|d2: Seq<u8>|
                        #[trigger] sum_denom(final(self).bals(), d2) == sum_denom(
                            old(self).bals(),
                            d2,
                        ) + if d2 == d@ {
                            amount as int
                        } else {
                            0
                        }
                },
                Err(e) => {
                    &&& e == BankError::BalanceOverflow
                    &&& final(self).bals() == old(self).bals()
                    &&& balance_of(old(self).bals(), a@, d@) + amount > u128::MAX
                },
            },
    {
        let ghost pre = self.bals();
        let (idx, found) = self.bal_locate(a, d);
        if found {
            let cur = self.balances[idx].2;
            proof {
                lemma_bal_at(pre, idx as int);
            }
            if amount > u128::MAX - cur {
                return Err(BankError::BalanceOverflow);
            }
            let addr_c = copy_bytes(&self.balances[idx].0);
            let denom_c = copy_bytes(&self.balances[idx].1);
            self.balances.remove(idx);
            self.balances.insert(idx, (addr_c, denom_c, cur + amount));
            proof {
                let post = self.bals();
                assert(post =~= pre.update(idx as int, (pre[idx as int].0, pre[idx as int].1, (cur + amount) as u128)));
                lemma_bal_update(pre, idx as int, (cur + amount) as u128, a@, d@);
                assert forall|a2: Seq<u8>, d2: Seq<u8>| !(a2 == a@ && d2 == d@) implies #[trigger] balance_of(post, a2, d2) == balance_of(pre, a2, d2) by {
                    lemma_bal_update(pre, idx as int, (cur + amount) as u128, a2, d2);
                }
                assert forall|d2: Seq<u8>| #[trigger] sum_denom(post, d2) == sum_denom(pre, d2) + (if d2 == d@ { amount as int } else { 0 }) by {
                    lemma_bal_update(pre, idx as int, (cur + amount) as u128, a@, d2);
                }
                assert forall|i: int, j: int| 0 <= i < j < post.len() implies pair_lt((#[trigger] post[i]).0, post[i].1, (#[trigger] post[j]).0, post[j].1) by {
                    assert(post[i].0 == pre[i].0 && post[i].1 == pre[i].1);
                    assert(post[j].0 == pre[j].0 && post[j].1 == pre[j].1);
                }
            }
            Ok(())
        } else {
            if amount == 0 {
                proof {
                    lemma_bal_absent(pre, a@, d@);
                }
                return Ok(());
            }
            self.balances.insert(idx, (copy_bytes(a), copy_bytes(d), amount));
            proof {
                let post = self.bals();
                let e = (a@, d@, amount);
                assert(post =~= pre.insert(idx as int, e));
                lemma_bal_insert(pre, idx as int, e, a@, d@);
                lemma_bal_absent(pre, a@, d@);
                assert forall|a2: Seq<u8>, d2: Seq<u8>| !(a2 == a@ && d2 == d@) implies #[trigger] balance_of(post, a2, d2) == balance_of(pre, a2, d2) by {
                    lemma_bal_insert(pre, idx as int, e, a2, d2);
                }
                assert forall|d2: Seq<u8>| #[trigger] sum_denom(post, d2) == sum_denom(pre, d2) + (if d2 == d@ { amount as int } else { 0 }) by {
                    lemma_bal_insert(pre, idx as int, e, a@, d2);
                }
                assert forall|i: int, j: int| 0 <= i < j < post.len() implies pair_lt((#[trigger] post[i]).0, post[i].1, (#[trigger] post[j]).0, post[j].1) by {
                    if i < idx && j == idx {
                    } else if i == idx && j > idx {
                        if j - 1 > idx {
                            lemma_pair_lt_trans(a@, d@, pre[idx as int].0, pre[idx as int].1, pre[j - 1].0, pre[j - 1].1);
                        }
                    } else if i < idx && j > idx {
                        assert(post[i] == pre[i] && post[j] == pre[j - 1]);
                        if j - 1 == idx {
                        }
                    } else {
                    }
                }
            }
            Ok(())
        }
    }

    /// Lower the balance under `(a, d)`; removes the entry when it reaches
    /// zero, leaves the state untouched on underflow.
    fn decr_balance(&mut self, a: &Vec<u8>, d: &Vec<u8>, amount: u128) -> (r: Result<
        (),
        BankError,
    >)
        requires
            bal_wf(old(self).bals()),
        ensures
            final(self).sups() == old(self).sups(),
            match r {
                Ok(_) => {
                    &&& bal_wf(final(self).bals())
                    &&& balance_of(old(self).bals(), a@, d@) >= amount
                    &&& balance_of(final(self).bals(), a@, d@) == balance_of(
                        old(self).bals(),
                        a@,
                        d@,
                    ) - amount
                    &&& forall|a2: Seq<u8>, d2: Seq<u8>|
                        !(a2 == a@ && d2 == d@) ==> #[trigger] balance_of(
                            final(self).bals(),
                            a2,
                            d2,
                        ) == balance_of(old(self).bals(), a2, d2)
                    &&& forall|d2: Seq<u8>|
                        #[trigger] sum_denom(final(self).bals(), d2) == sum_denom(
                            old(self).bals(),
                            d2,
                        ) - if d2 == d@ {
                            amount as int
                        } else {
                            0
                        }
                },
                Err(e) => {
                    &&& e == BankError::BalanceUnderflow
                    &&& final(self).bals() == old(self).bals()
                    &&& balance_of(old(self).bals(), a@, d@) < amount
                },
            },
    {
        let ghost pre = self.bals();
        if amount == 0 {
            proof {
                lemma_bal_le_sum(pre, a@, d@);
            }
            return Ok(());
        }
        let (idx, found) = self.bal_locate(a, d);
        if !found {
            proof {
                lemma_bal_absent(pre, a@, d@);
            }
            return Err(BankError::BalanceUnderflow);
        }
        let cur = self.balances[idx].2;
        proof {
            lemma_bal_at(pre, idx as int);
        }
        if cur < amount {
            return Err(BankError::BalanceUnderflow);
        }
        if cur == amount {
            self.balances.remove(idx);
            proof {
                let post = self.bals();
                assert(post =~= pre.remove(idx as int));
                lemma_bal_remove(pre, idx as int, a@, d@);
                assert forall|a2: Seq<u8>, d2: Seq<u8>| !(a2 == a@ && d2 == d@) implies #[trigger] balance_of(post, a2, d2) == balance_of(pre, a2, d2) by {
                    lemma_bal_remove(pre, idx as int, a2, d2);
                }
                assert forall|d2: Seq<u8>| #[trigger] sum_denom(post, d2) == sum_denom(pre, d2) - (if d2 == d@ { amount as int } else { 0 }) by {
                    lemma_bal_remove(pre, idx as int, a@, d2);
                }
                assert forall|i: int, j: int| 0 <= i < j < post.len() implies pair_lt((#[trigger] post[i]).0, post[i].1, (#[trigger] post[j]).0, post[j].1) by {
                    let i0: int = if i < idx { i } else { i + 1 };
                    let j0: int = if j < idx { j } else { j + 1 };
                    assert(post[i] == pre[i0] && post[j] == pre[j0]);
                }
            }
            Ok(())
        } else {
            let addr_c = copy_bytes(&self.balances[idx].0);
            let denom_c = copy_bytes(&self.balances[idx].1);
            self.balances.remove(idx);
            self.balances.insert(idx, (addr_c, denom_c, cur - amount));
            proof {
                let post = self.bals();
                assert(post =~= pre.update(idx as int, (pre[idx as int].0, pre[idx as int].1, (cur - amount) as u128)));
                lemma_bal_update(pre, idx as int, (cur - amount) as u128, a@, d@);
                assert forall|a2: Seq<u8>, d2: Seq<u8>| !(a2 == a@ && d2 == d@) implies #[trigger] balance_of(post, a2, d2) == balance_of(pre, a2, d2) by {
                    lemma_bal_update(pre, idx as int, (cur - amount) as u128, a2, d2);
                }
                assert forall|d2: Seq<u8>| #[trigger] sum_denom(post, d2) == sum_denom(pre, d2) - (if d2 == d@ { amount as int } else { 0 }) by {
                    lemma_bal_update(pre, idx as int, (cur - amount) as u128, a@, d2);
                }
                assert forall|i: int, j: int| 0 <= i < j < post.len() implies pair_lt((#[trigger] post[i]).0, post[i].1, (#[trigger] post[j]).0, post[j].1) by {
                    assert(post[i].0 == pre[i].0 && post[i].1 == pre[i].1);
                    assert(post[j].0 == pre[j].0 && post[j].1 == pre[j].1);
                }
            }
            Ok(())
        }
    }

    /// Raise the recorded supply of `d`.
    fn incr_supply(&mut self, d: &Vec<u8>, amount: u128) -> (r: Result<(), BankError>)
        requires
            sup_wf(old(self).sups()),
        ensures
            final(self).bals() == old(self).bals(),
            match r {
                Ok(_) => {
                    &&& sup_wf(final(self).sups())
                    &&& supply_of(old(self).sups(), d@) + amount <= u128::MAX
                    &&& supply_of(final(self).sups(), d@) == supply_of(old(self).sups(), d@)
                        + amount
                    &&& forall|d2: Seq<u8>|
                        d2 != d@ ==> #[trigger] supply_of(final(self).sups(), d2) == supply_of(
                            old(self).sups(),
                            d2,
                        )
                },
                Err(e) => {
                    &&& e == BankError::SupplyOverflow
                    &&& final(self).sups() == old(self).sups()
                    &&& supply_of(old(self).sups(), d@) + amount > u128::MAX
                },
            },
    {
        let ghost pre = self.sups();
        let (idx, found) = self.sup_locate(d);
        if found {
            let cur = self.supplies[idx].1;
            proof {
                lemma_sup_at(pre, idx as int);
            }
            if amount > u128::MAX - cur {
                return Err(BankError::SupplyOverflow);
            }
            let denom_c = copy_bytes(&self.supplies[idx].0);
            self.supplies.remove(idx);
            self.supplies.insert(idx, (denom_c, cur + amount));
            proof {
                let post = self.sups();
                assert(post =~= pre.update(idx as int, (pre[idx as int].0, (cur + amount) as u128)));
                lemma_sup_update(pre, idx as int, (cur + amount) as u128, d@);
                assert forall|d2: Seq<u8>| d2 != d@ implies #[trigger] supply_of(post, d2) == supply_of(pre, d2) by {
                    lemma_sup_update(pre, idx as int, (cur + amount) as u128, d2);
                }
                assert forall|i: int, j: int| 0 <= i < j < post.len() implies lex_lt((#[trigger] post[i]).0, (#[trigger] post[j]).0) by {
                    assert(post[i].0 == pre[i].0 && post[j].0 == pre[j].0);
                }
            }
            Ok(())
        } else {
            if amount == 0 {
                proof {
                    lemma_sup_absent(pre, d@);
                }
                return Ok(());
            }
            self.supplies.insert(idx, (copy_bytes(d), amount));
            proof {
                let post = self.sups();
                let e = (d@, amount);
                assert(post =~= pre.insert(idx as int, e));
                lemma_sup_insert(pre, idx as int, e, d@);
                lemma_sup_absent(pre, d@);
                assert forall|d2: Seq<u8>| d2 != d@ implies #[trigger] supply_of(post, d2) == supply_of(pre, d2) by {
                    lemma_sup_insert(pre, idx as int, e, d2);
                }
                assert forall|i: int, j: int| 0 <= i < j < post.len() implies lex_lt((#[trigger] post[i]).0, (#[trigger] post[j]).0) by {
                    if i < idx && j == idx {
                    } else if i == idx && j > idx {
                        if j - 1 > idx {
                            lemma_lex_lt_trans(d@, pre[idx as int].0, pre[j - 1].0);
                        }
                    } else if i < idx && j > idx {
                        assert(post[i] == pre[i] && post[j] == pre[j - 1]);
                    } else {
                    }
                }
            }
            Ok(())
        }
    }

    /// Lower the recorded supply of `d`; removes the entry at zero.
    fn decr_supply(&mut self, d: &Vec<u8>, amount: u128) -> (r: Result<(), BankError>)
        requires
            sup_wf(old(self).sups()),
        ensures
            final(self).bals() == old(self).bals(),
            match r {
                Ok(_) => {
                    &&& sup_wf(final(self).sups())
                    &&& supply_of(old(self).sups(), d@) >= amount
                    &&& supply_of(final(self).sups(), d@) == supply_of(old(self).sups(), d@)
                        - amount
                    &&& forall|d2: Seq<u8>|
                        d2 != d@ ==> #[trigger] supply_of(final(self).sups(), d2) == supply_of(
                            old(self).sups(),
                            d2,
                        )
                },
                Err(e) => {
                    &&& e == BankError::SupplyUnderflow
                    &&& final(self).sups() == old(self).sups()
                    &&& supply_of(old(self).sups(), d@) < amount
                },
            },
    {
        let ghost pre = self.sups();
        if amount == 0 {
            proof {
                lemma_sup_range(pre, d@);
            }
            return Ok(());
        }
        let (idx, found) = self.sup_locate(d);
        if !found {
            proof {
                lemma_sup_absent(pre, d@);
            }
            return Err(BankError::SupplyUnderflow);
        }
        let cur = self.supplies[idx].1;
        proof {
            lemma_sup_at(pre, idx as int);
        }
        if cur < amount {
            return Err(BankError::SupplyUnderflow);
        }
        if cur == amount {
            self.supplies.remove(idx);
            proof {
                let post = self.sups();
                assert(post =~= pre.remove(idx as int));
                lemma_sup_remove(pre, idx as int, d@);
                assert forall|d2: Seq<u8>| d2 != d@ implies #[trigger] supply_of(post, d2) == supply_of(pre, d2) by {
                    lemma_sup_remove(pre, idx as int, d2);
                }
                assert forall|i: int, j: int| 0 <= i < j < post.len() implies lex_lt((#[trigger] post[i]).0, (#[trigger] post[j]).0) by {
                    let i0: int = if i < idx { i } else { i + 1 };
                    let j0: int = if j < idx { j } else { j + 1 };
                    assert(post[i] == pre[i0] && post[j] == pre[j0]);
                }
            }
            Ok(())
        } else {
            let denom_c = copy_bytes(&self.supplies[idx].0);
            self.supplies.remove(idx);
            self.supplies.insert(idx, (denom_c, cur - amount));
            proof {
                let post = self.sups();
                assert(post =~= pre.update(idx as int, (pre[idx as int].0, (cur - amount) as u128)));
                lemma_sup_update(pre, idx as int, (cur - amount) as u128, d@);
                assert forall|d2: Seq<u8>| d2 != d@ implies #[trigger] supply_of(post, d2) == supply_of(pre, d2) by {
                    lemma_sup_update(pre, idx as int, (cur - amount) as u128, d2);
                }
                assert forall|i: int, j: int| 0 <= i < j < post.len() implies lex_lt((#[trigger] post[i]).0, (#[trigger] post[j]).0) by {
                    assert(post[i].0 == pre[i].0 && post[j].0 == pre[j].0);
                }
            }
            Ok(())
        }
    }
}


impl BankState {
    /// Create tokens: raise the supply of `denom` and the balance of `to`
    /// by `amount`. Anyone may mint; there is no gatekeeping yet.
    pub fn mint(&mut self, to: &Vec<u8>, denom: &Vec<u8>, amount: u128) -> (r: Result<
        Response,
        BankError,
    >)
        requires
            old(self).inv(),
        ensures
            match r {
                Ok(resp) => {
                    &&& final(self).inv()
                    &&& supply_of(old(self).sups(), denom@) + amount <= u128::MAX
                    &&& supply_of(final(self).sups(), denom@) == supply_of(
                        old(self).sups(),
                        denom@,
                    ) + amount
                    &&& forall|d2: Seq<u8>|
                        d2 != denom@ ==> #[trigger] supply_of(final(self).sups(), d2) == supply_of(
                            old(self).sups(),
                            d2,
                        )
                    &&& balance_of(final(self).bals(), to@, denom@) == balance_of(
                        old(self).bals(),
                        to@,
                        denom@,
                    ) + amount
                    &&& forall|a2: Seq<u8>, d2: Seq<u8>|
                        !(a2 == to@ && d2 == denom@) ==> #[trigger] balance_of(
                            final(self).bals(),
                            a2,
                            d2,
                        ) == balance_of(old(self).bals(), a2, d2)
                    &&& resp.attributes@.len() == 4
                    &&& resp.attributes@[0].key@ == s_method() && resp.attributes@[0].value@
                        == s_mint()
                    &&& resp.attributes@[1].key@ == s_to() && resp.attributes@[1].value@ == to@
                    &&& resp.attributes@[2].key@ == s_denom() && resp.attributes@[2].value@
                        == denom@
                    &&& resp.attributes@[3].key@ == s_amount() && resp.attributes@[3].value@
                        == crate::codec::dec_of(amount as nat)
                    &&& resp.submsgs@.len() == 0
                    &&& resp.data is None
                },
                Err(e) => {
                    &&& e == BankError::SupplyOverflow
                    &&& final(self).bals() == old(self).bals()
                    &&& final(self).sups() == old(self).sups()
                    &&& supply_of(old(self).sups(), denom@) + amount > u128::MAX
                },
            },
    {
        let ghost b0 = self.bals();
        let ghost s0 = self.sups();
        let sup = self.supply(denom);
        if amount > u128::MAX - sup {
            return Err(BankError::SupplyOverflow);
        }
        proof {
            assert(supply_of(s0, denom@) == sum_denom(b0, denom@));
            lemma_bal_le_sum(b0, to@, denom@);
        }
        match self.incr_supply(denom, amount) {
            Ok(_) => {},
            Err(e) => {
                proof {
                    assert(false);
                }
                return Err(e);
            },
        }
        match self.incr_balance(to, denom, amount) {
            Ok(_) => {},
            Err(e) => {
                proof {
                    assert(false);
                }
                return Err(e);
            },
        }
        proof {
            assert forall|d2: Seq<u8>| #[trigger] supply_of(final(self).sups(), d2) == sum_denom(
                final(self).bals(),
                d2,
            ) by {
                assert(supply_of(s0, d2) == sum_denom(b0, d2));
            }
        }
        let mut resp = Response::new();
        resp.add_attribute(lit_method(), lit_mint());
        resp.add_attribute(lit_to(), copy_bytes(to));
        resp.add_attribute(lit_denom(), copy_bytes(denom));
        resp.add_attribute(lit_amount(), crate::codec::u128_to_dec(amount));
        Ok(resp)
    }

    /// Destroy tokens: lower the supply of `denom` and the balance of
    /// `from` by `amount`. Anyone may burn; there is no gatekeeping yet.
    pub fn burn(&mut self, from: &Vec<u8>, denom: &Vec<u8>, amount: u128) -> (r: Result<
        Response,
        BankError,
    >)
        requires
            old(self).inv(),
        ensures
            match r {
                Ok(resp) => {
                    &&& final(self).inv()
                    &&& balance_of(old(self).bals(), from@, denom@) >= amount
                    &&& supply_of(final(self).sups(), denom@) == supply_of(
                        old(self).sups(),
                        denom@,
                    ) - amount
                    &&& forall|d2: Seq<u8>|
                        d2 != denom@ ==> #[trigger] supply_of(final(self).sups(), d2) == supply_of(
                            old(self).sups(),
                            d2,
                        )
                    &&& balance_of(final(self).bals(), from@, denom@) == balance_of(
                        old(self).bals(),
                        from@,
                        denom@,
                    ) - amount
                    &&& forall|a2: Seq<u8>, d2: Seq<u8>|
                        !(a2 == from@ && d2 == denom@) ==> #[trigger] balance_of(
                            final(self).bals(),
                            a2,
                            d2,
                        ) == balance_of(old(self).bals(), a2, d2)
                    &&& resp.attributes@.len() == 4
                    &&& resp.attributes@[0].key@ == s_method() && resp.attributes@[0].value@
                        == s_burn()
                    &&& resp.attributes@[1].key@ == s_from() && resp.attributes@[1].value@ == from@
                    &&& resp.attributes@[2].key@ == s_denom() && resp.attributes@[2].value@
                        == denom@
                    &&& resp.attributes@[3].key@ == s_amount() && resp.attributes@[3].value@
                        == crate::codec::dec_of(amount as nat)
                    &&& resp.submsgs@.len() == 0
                    &&& resp.data is None
                },
                Err(e) => {
                    &&& final(self).bals() == old(self).bals()
                    &&& final(self).sups() == old(self).sups()
                    &&& (e == BankError::SupplyUnderflow <==> supply_of(old(self).sups(), denom@)
                        < amount)
                    &&& (e == BankError::SupplyUnderflow || e == BankError::BalanceUnderflow)
                    &&& (supply_of(old(self).sups(), denom@) < amount || balance_of(
                        old(self).bals(),
                        from@,
                        denom@,
                    ) < amount)
                },
            },
    {
        let ghost b0 = self.bals();
        let ghost s0 = self.sups();
        let sup = self.supply(denom);
        if sup < amount {
            return Err(BankError::SupplyUnderflow);
        }
        let bal = self.balance(from, denom);
        if bal < amount {
            return Err(BankError::BalanceUnderflow);
        }
        match self.decr_supply(denom, amount) {
            Ok(_) => {},
            Err(e) => {
                proof {
                    assert(false);
                }
                return Err(e);
            },
        }
        match self.decr_balance(from, denom, amount) {
            Ok(_) => {},
            Err(e) => {
                proof {
                    assert(false);
                }
                return Err(e);
            },
        }
        proof {
            assert forall|d2: Seq<u8>| #[trigger] supply_of(final(self).sups(), d2) == sum_denom(
                final(self).bals(),
                d2,
            ) by {
                assert(supply_of(s0, d2) == sum_denom(b0, d2));
            }
        }
        let mut resp = Response::new();
        resp.add_attribute(lit_method(), lit_burn());
        resp.add_attribute(lit_from(), copy_bytes(from));
        resp.add_attribute(lit_denom(), copy_bytes(denom));
        resp.add_attribute(lit_amount(), crate::codec::u128_to_dec(amount));
        Ok(resp)
    }
}


// attribute labels, as ASCII bytes, with their spec-level forms

/// The text `method`.
pub open spec fn s_method() -> Seq<u8> {
    seq![109u8, 101, 116, 104, 111, 100]
}

/// The text `mint`.
pub open spec fn s_mint() -> Seq<u8> {
    seq![109u8, 105, 110, 116]
}

/// The text `burn`.
pub open spec fn s_burn() -> Seq<u8> {
    seq![98u8, 117, 114, 110]
}

/// The text `send`.
pub open spec fn s_send() -> Seq<u8> {
    seq![115u8, 101, 110, 100]
}

/// The text `to`.
pub open spec fn s_to() -> Seq<u8> {
    seq![116u8, 111]
}

/// The text `from`.
pub open spec fn s_from() -> Seq<u8> {
    seq![102u8, 114, 111, 109]
}

/// The text `denom`.
pub open spec fn s_denom() -> Seq<u8> {
    seq![100u8, 101, 110, 111, 109]
}

/// The text `amount`.
pub open spec fn s_amount() -> Seq<u8> {
    seq![97u8, 109, 111, 117, 110, 116]
}

/// The text `coins`.
pub open spec fn s_coins() -> Seq<u8> {
    seq![99u8, 111, 105, 110, 115]
}

fn lit_method() -> (r: Vec<u8>)
    ensures
        r@ == s_method(),
{
    let r: Vec<u8> = vec![109u8, 101, 116, 104, 111, 100];
    proof {
        assert(r@ =~= s_method());
    }
    r
}

fn lit_mint() -> (r: Vec<u8>)
    ensures
        r@ == s_mint(),
{
    let r: Vec<u8> = vec![109u8, 105, 110, 116];
    proof {
        assert(r@ =~= s_mint());
    }
    r
}

fn lit_burn() -> (r: Vec<u8>)
    ensures
        r@ == s_burn(),
{
    let r: Vec<u8> = vec![98u8, 117, 114, 110];
    proof {
        assert(r@ =~= s_burn());
    }
    r
}

fn lit_send() -> (r: Vec<u8>)
    ensures
        r@ == s_send(),
{
    let r: Vec<u8> = vec![115u8, 101, 110, 100];
    proof {
        assert(r@ =~= s_send());
    }
    r
}

fn lit_to() -> (r: Vec<u8>)
    ensures
        r@ == s_to(),
{
    let r: Vec<u8> = vec![116u8, 111];
    proof {
        assert(r@ =~= s_to());
    }
    r
}

fn lit_from() -> (r: Vec<u8>)
    ensures
        r@ == s_from(),
{
    let r: Vec<u8> = vec![102u8, 114, 111, 109];
    proof {
        assert(r@ =~= s_from());
    }
    r
}

fn lit_denom() -> (r: Vec<u8>)
    ensures
        r@ == s_denom(),
{
    let r: Vec<u8> = vec![100u8, 101, 110, 111, 109];
    proof {
        assert(r@ =~= s_denom());
    }
    r
}

fn lit_amount() -> (r: Vec<u8>)
    ensures
        r@ == s_amount(),
{
    let r: Vec<u8> = vec![97u8, 109, 111, 117, 110, 116];
    proof {
        assert(r@ =~= s_amount());
    }
    r
}

fn lit_coins() -> (r: Vec<u8>)
    ensures
        r@ == s_coins(),
{
    let r: Vec<u8> = vec![99u8, 111, 105, 110, 115];
    proof {
        assert(r@ =~= s_coins());
    }
    r
}


impl BankState {
    /// Move funds between two accounts, one coin at a time: for every coin,
    /// take from `from` and give to `to`. Fails, changing nothing, exactly
    /// when `from` lacks one of the coins.
    pub fn transfer(&mut self, msg: &TransferMsg) -> (r: Result<Response, BankError>)
        requires
            old(self).inv(),
            msg.coins.wf(),
            crate::codec::coins_json_safe(msg.coins@),
        ensures
            match r {
                Ok(resp) => {
                    &&& final(self).inv()
                    &&& final(self).sups() == old(self).sups()
                    &&& forall|a2: Seq<u8>, d2: Seq<u8>|
                        #[trigger] balance_of(final(self).bals(), a2, d2) == balance_of(
                            old(self).bals(),
                            a2,
                            d2,
                        ) + (if a2 == msg.to@ {
                            coin_amt(msg.coins@, d2)
                        } else {
                            0
                        }) - (if a2 == msg.from@ {
                            coin_amt(msg.coins@, d2)
                        } else {
                            0
                        })
                    &&& forall|i: int|
                        0 <= i < msg.coins@.len() ==> balance_of(
                            old(self).bals(),
                            msg.from@,
                            (#[trigger] msg.coins@[i]).0,
                        ) >= msg.coins@[i].1
                    &&& resp.attributes@.len() == 4
                    &&& resp.attributes@[0].key@ == s_method() && resp.attributes@[0].value@
                        == s_send()
                    &&& resp.attributes@[1].key@ == s_from() && resp.attributes@[1].value@
                        == msg.from@
                    &&& resp.attributes@[2].key@ == s_to() && resp.attributes@[2].value@
                        == msg.to@
                    &&& resp.attributes@[3].key@ == s_coins() && resp.attributes@[3].value@
                        == crate::codec::senc_coins(msg.coins@)
                    &&& resp.submsgs@.len() == 0
                    &&& resp.data is None
                },
                Err(e) => {
                    &&& e == BankError::BalanceUnderflow
                    &&& final(self).bals() == old(self).bals()
                    &&& final(self).sups() == old(self).sups()
                    &&& exists|i: int|
                        0 <= i < msg.coins@.len() && balance_of(
                            old(self).bals(),
                            msg.from@,
                            (#[trigger] msg.coins@[i]).0,
                        ) < msg.coins@[i].1
                },
            },
    {
        let ghost b0 = self.bals();
        let ghost s0 = self.sups();
        let ghost cs = msg.coins@;
        let n = msg.coins.len();
        // every coin must be covered before anything moves
        let mut i: usize = 0;
        while i < n
            invariant
                n == cs.len(),
                cs == msg.coins@,
                b0 == self.bals(),
                old(self).inv(),
                b0 == old(self).bals(),
                i <= n,
                forall|j: int|
                    0 <= j < i ==> balance_of(b0, msg.from@, (#[trigger] cs[j]).0) >= cs[j].1,
            decreases n - i,
        {
            let c = msg.coins.get(i);
            let bal = self.balance(&msg.from, &c.denom);
            if bal < c.amount {
                return Err(BankError::BalanceUnderflow);
            }
            i = i + 1;
        }
        // apply the movements
        let mut k: usize = 0;
        while k < n
            invariant
                n == cs.len(),
                cs == msg.coins@,
                coins_wf(cs),
                bal_wf(self.bals()),
                self.sups() == s0,
                s0 == old(self).sups(),
                b0 == old(self).bals(),
                old(self).inv(),
                k <= n,
                forall|j: int|
                    0 <= j < n ==> balance_of(b0, msg.from@, (#[trigger] cs[j]).0) >= cs[j].1,
                forall|d2: Seq<u8>|
                    #[trigger] sum_denom(self.bals(), d2) == sum_denom(b0, d2),
                forall|a2: Seq<u8>, d2: Seq<u8>|
                    #[trigger] balance_of(self.bals(), a2, d2) == balance_of(b0, a2, d2) + (
                    if a2 == msg.to@ {
                        coin_amt(cs.take(k as int), d2)
                    } else {
                        0
                    }) - (if a2 == msg.from@ {
                        coin_amt(cs.take(k as int), d2)
                    } else {
                        0
                    }),
            decreases n - k,
        {
            let c = msg.coins.get(k);
            let ghost d = c.denom@;
            let ghost bcur = self.bals();
            proof {
                // the coin's denomination has not occurred yet
                assert forall|j: int| 0 <= j < k implies (#[trigger] cs.take(k as int)[j]).0
                    != d by {
                    assert(cs.take(k as int)[j] == cs[j]);
                    assert(lex_lt(cs[j].0, cs[k as int].0));
                    lemma_lex_cmp_eq_iff(cs[j].0, cs[k as int].0);
                }
                crate::coins::lemma_coin_amt_absent(cs.take(k as int), d);
                assert(balance_of(bcur, msg.from@, d) == balance_of(b0, msg.from@, d));
                assert(balance_of(b0, msg.from@, d) >= cs[k as int].1);
            }
            match self.decr_balance(&msg.from, &c.denom, c.amount) {
                Ok(_) => {},
                Err(_) => {
                    proof {
                        assert(false);
                    }
                    return Err(BankError::BalanceUnderflow);
                },
            }
            let ghost bmid = self.bals();
            proof {
                // the receiver cannot overflow: its balance stays under the
                // denomination's sum, which the supply bounds
                lemma_bal_le_sum(bmid, msg.to@, d);
                assert(sum_denom(bmid, d) == sum_denom(bcur, d) - cs[k as int].1);
                assert(supply_of(s0, d) == sum_denom(b0, d));
                lemma_sup_range(s0, d);
            }
            match self.incr_balance(&msg.to, &c.denom, c.amount) {
                Ok(_) => {},
                Err(_) => {
                    proof {
                        assert(false);
                    }
                    return Err(BankError::BalanceUnderflow);
                },
            }
            proof {
                let bnew = self.bals();
                assert(cs.take(k + 1).drop_last() =~= cs.take(k as int));
                assert(cs.take(k + 1) =~= cs.take(k as int).push(cs[k as int]));
                assert forall|a2: Seq<u8>, d2: Seq<u8>| #[trigger] balance_of(bnew, a2, d2)
                    == balance_of(b0, a2, d2) + (if a2 == msg.to@ {
                    coin_amt(cs.take(k + 1), d2)
                } else {
                    0
                }) - (if a2 == msg.from@ {
                    coin_amt(cs.take(k + 1), d2)
                } else {
                    0
                }) by {
                    crate::coins::lemma_coin_amt_push(cs.take(k as int), cs[k as int], d2);
                    assert forall|j: int| 0 <= j < cs.take(k as int).len() implies (#[trigger] cs.take(k as int)[j]).0 != d by {
                        assert(cs.take(k as int)[j] == cs[j]);
                        assert(lex_lt(cs[j].0, cs[k as int].0));
                        lemma_lex_cmp_eq_iff(cs[j].0, cs[k as int].0);
                    }
                }
            }
            k = k + 1;
        }
        proof {
            assert(cs.take(n as int) =~= cs);
            assert forall|d2: Seq<u8>| #[trigger] supply_of(self.sups(), d2) == sum_denom(
                self.bals(),
                d2,
            ) by {
                assert(supply_of(s0, d2) == sum_denom(b0, d2));
            }
        }
        let mut resp = Response::new();
        resp.add_attribute(lit_method(), lit_send());
        resp.add_attribute(lit_from(), copy_bytes(&msg.from));
        resp.add_attribute(lit_to(), copy_bytes(&msg.to));
        resp.add_attribute(lit_coins(), crate::codec::encode_coins(&msg.coins));
        Ok(resp)
    }
}

/// Two canonical balance lists with the same balances everywhere are the
/// same list.
pub proof fn lemma_bal_canonical(b1: BalModel, b2: BalModel)
    requires
        bal_wf(b1),
        bal_wf(b2),
        forall|a: Seq<u8>, d: Seq<u8>| #[trigger] balance_of(b1, a, d) == balance_of(b2, a, d),
    ensures
        b1 == b2,
    decreases b1.len() + b2.len(),
{
    if b1.len() == 0 {
        if b2.len() > 0 {
            lemma_bal_at(b2, 0);
            lemma_bal_absent(b1, b2[0].0, b2[0].1);
            assert(balance_of(b1, b2[0].0, b2[0].1) == balance_of(b2, b2[0].0, b2[0].1));
            assert(false);
        }
        assert(b1 =~= b2);
    } else if b2.len() == 0 {
        lemma_bal_at(b1, 0);
        lemma_bal_absent(b2, b1[0].0, b1[0].1);
        assert(balance_of(b1, b1[0].0, b1[0].1) == balance_of(b2, b1[0].0, b1[0].1));
        assert(false);
    } else {
        // the heads carry the least key of each list; the balances agree,
        // so the keys and the amounts agree
        if !(b1[0].0 == b2[0].0 && b1[0].1 == b2[0].1) {
            if pair_lt(b1[0].0, b1[0].1, b2[0].0, b2[0].1) {
                bal_head_absent_in_larger(b1, b2);
                assert(balance_of(b1, b1[0].0, b1[0].1) == balance_of(b2, b1[0].0, b1[0].1));
            } else if pair_lt(b2[0].0, b2[0].1, b1[0].0, b1[0].1) {
                bal_head_absent_in_larger(b2, b1);
                assert(balance_of(b1, b2[0].0, b2[0].1) == balance_of(b2, b2[0].0, b2[0].1));
            } else {
                lemma_pair_trichotomy(b1[0].0, b1[0].1, b2[0].0, b2[0].1);
            }
            assert(false);
        }
        lemma_bal_at(b1, 0);
        lemma_bal_at(b2, 0);
        assert(balance_of(b1, b1[0].0, b1[0].1) == balance_of(b2, b1[0].0, b1[0].1));
        assert(b1[0].2 == b2[0].2);
        let t1 = b1.skip(1);
        let t2 = b2.skip(1);
        lemma_bal_tail_sorted(b1);
        lemma_bal_tail_sorted(b2);
        assert forall|i: int| 0 <= i < t1.len() implies (#[trigger] t1[i]).2 > 0 by {
            assert(t1[i] == b1[i + 1]);
        }
        assert forall|i: int| 0 <= i < t2.len() implies (#[trigger] t2[i]).2 > 0 by {
            assert(t2[i] == b2[i + 1]);
        }
        assert forall|a: Seq<u8>, d: Seq<u8>| #[trigger] balance_of(t1, a, d) == balance_of(
            t2,
            a,
            d,
        ) by {
            if a == b1[0].0 && d == b1[0].1 {
                bal_key_absent_in_tail(b1);
                bal_key_absent_in_tail(b2);
            } else {
                assert(balance_of(b1, a, d) == balance_of(t1, a, d));
                assert(balance_of(b2, a, d) == balance_of(t2, a, d));
            }
        }
        lemma_bal_canonical(t1, t2);
        assert forall|i: int| 0 <= i < b1.len() implies b1[i] == b2[i] by {
            if i > 0 {
                assert(t1[i - 1] == b1[i]);
                assert(t2[i - 1] == b2[i]);
            }
        }
        assert(b1 =~= b2);
    }
}

/// Keys are totally ordered: two keys are equal or one is below the other.
proof fn lemma_pair_trichotomy(a1: Seq<u8>, d1: Seq<u8>, a2: Seq<u8>, d2: Seq<u8>)
    ensures
        pair_lt(a1, d1, a2, d2) || pair_lt(a2, d2, a1, d1) || (a1 == a2 && d1 == d2),
{
    lemma_lex_cmp_range(a1, a2);
    lemma_lex_cmp_eq_iff(a1, a2);
    lemma_lex_cmp_antisym(a1, a2);
    lemma_lex_cmp_range(d1, d2);
    lemma_lex_cmp_eq_iff(d1, d2);
    lemma_lex_cmp_antisym(d1, d2);
}

/// If the head key of `small` is strictly below the head key of `large`,
/// `large` does not know the key at all while `small` holds a positive
/// amount under it: the two lists cannot agree.
proof fn bal_head_absent_in_larger(small: BalModel, large: BalModel)
    requires
        bal_wf(small),
        bal_wf(large),
        small.len() > 0,
        large.len() > 0,
        pair_lt(small[0].0, small[0].1, large[0].0, large[0].1),
    ensures
        balance_of(small, small[0].0, small[0].1) == small[0].2,
        balance_of(large, small[0].0, small[0].1) == 0,
{
    lemma_bal_at(small, 0);
    assert forall|j: int| 0 <= j < large.len() implies !((#[trigger] large[j]).0 == small[0].0
        && large[j].1 == small[0].1) by {
        if j == 0 {
            if large[0].0 == small[0].0 && large[0].1 == small[0].1 {
                lemma_lex_cmp_eq_iff(small[0].0, small[0].0);
                lemma_lex_cmp_eq_iff(small[0].1, small[0].1);
            }
        } else {
            assert(pair_lt(large[0].0, large[0].1, large[j].0, large[j].1));
            lemma_pair_lt_trans(
                small[0].0,
                small[0].1,
                large[0].0,
                large[0].1,
                large[j].0,
                large[j].1,
            );
            if large[j].0 == small[0].0 && large[j].1 == small[0].1 {
                lemma_lex_cmp_eq_iff(small[0].0, small[0].0);
                lemma_lex_cmp_eq_iff(small[0].1, small[0].1);
            }
        }
    }
    lemma_bal_absent(large, small[0].0, small[0].1);
}

/// A sorted list's head key does not recur in its tail.
proof fn bal_key_absent_in_tail(b: BalModel)
    requires
        bal_sorted(b),
        b.len() > 0,
    ensures
        balance_of(b.skip(1), b[0].0, b[0].1) == 0,
{
    assert forall|j: int| 0 <= j < b.skip(1).len() implies !((#[trigger] b.skip(1)[j]).0 == b[0].0
        && b.skip(1)[j].1 == b[0].1) by {
        assert(b.skip(1)[j] == b[j + 1]);
        assert(pair_lt(b[0].0, b[0].1, b[j + 1].0, b[j + 1].1));
        if b[j + 1].0 == b[0].0 && b[j + 1].1 == b[0].1 {
            lemma_lex_cmp_eq_iff(b[0].0, b[0].0);
            lemma_lex_cmp_eq_iff(b[0].1, b[0].1);
        }
    }
    lemma_bal_absent(b.skip(1), b[0].0, b[0].1);
}

/// Two canonical supply lists with the same supplies everywhere are the
/// same list.
pub proof fn lemma_sup_canonical(s1: SupModel, s2: SupModel)
    requires
        sup_wf(s1),
        sup_wf(s2),
        forall|d: Seq<u8>| #[trigger] supply_of(s1, d) == supply_of(s2, d),
    ensures
        s1 == s2,
    decreases s1.len() + s2.len(),
{
    if s1.len() == 0 {
        if s2.len() > 0 {
            lemma_sup_at(s2, 0);
            lemma_sup_absent(s1, s2[0].0);
            assert(supply_of(s1, s2[0].0) == supply_of(s2, s2[0].0));
            assert(false);
        }
        assert(s1 =~= s2);
    } else if s2.len() == 0 {
        lemma_sup_at(s1, 0);
        lemma_sup_absent(s2, s1[0].0);
        assert(supply_of(s1, s1[0].0) == supply_of(s2, s1[0].0));
        assert(false);
    } else {
        if s1[0].0 != s2[0].0 {
            lemma_lex_cmp_range(s1[0].0, s2[0].0);
            lemma_lex_cmp_eq_iff(s1[0].0, s2[0].0);
            lemma_lex_cmp_antisym(s1[0].0, s2[0].0);
            if lex_lt(s1[0].0, s2[0].0) {
                sup_head_absent_in_larger(s1, s2);
                assert(supply_of(s1, s1[0].0) == supply_of(s2, s1[0].0));
            } else {
                sup_head_absent_in_larger(s2, s1);
                assert(supply_of(s1, s2[0].0) == supply_of(s2, s2[0].0));
            }
            assert(false);
        }
        lemma_sup_at(s1, 0);
        lemma_sup_at(s2, 0);
        assert(supply_of(s1, s1[0].0) == supply_of(s2, s1[0].0));
        assert(s1[0].1 == s2[0].1);
        let t1 = s1.skip(1);
        let t2 = s2.skip(1);
        lemma_sup_tail_sorted(s1);
        lemma_sup_tail_sorted(s2);
        assert forall|i: int| 0 <= i < t1.len() implies (#[trigger] t1[i]).1 > 0 by {
            assert(t1[i] == s1[i + 1]);
        }
        assert forall|i: int| 0 <= i < t2.len() implies (#[trigger] t2[i]).1 > 0 by {
            assert(t2[i] == s2[i + 1]);
        }
        assert forall|d: Seq<u8>| #[trigger] supply_of(t1, d) == supply_of(t2, d) by {
            if d == s1[0].0 {
                sup_key_absent_in_tail(s1);
                sup_key_absent_in_tail(s2);
            } else {
                assert(supply_of(s1, d) == supply_of(t1, d));
                assert(supply_of(s2, d) == supply_of(t2, d));
            }
        }
        lemma_sup_canonical(t1, t2);
        assert forall|i: int| 0 <= i < s1.len() implies s1[i] == s2[i] by {
            if i > 0 {
                assert(t1[i - 1] == s1[i]);
                assert(t2[i - 1] == s2[i]);
            }
        }
        assert(s1 =~= s2);
    }
}

proof fn sup_head_absent_in_larger(small: SupModel, large: SupModel)
    requires
        sup_wf(small),
        sup_wf(large),
        small.len() > 0,
        large.len() > 0,
        lex_lt(small[0].0, large[0].0),
    ensures
        supply_of(small, small[0].0) == small[0].1,
        supply_of(large, small[0].0) == 0,
{
    lemma_sup_at(small, 0);
    assert forall|j: int| 0 <= j < large.len() implies (#[trigger] large[j]).0 != small[0].0 by {
        if j == 0 {
            lemma_lex_cmp_eq_iff(small[0].0, large[0].0);
            lemma_lex_cmp_antisym(small[0].0, large[0].0);
        } else {
            assert(lex_lt(large[0].0, large[j].0));
            lemma_lex_lt_trans(small[0].0, large[0].0, large[j].0);
            lemma_lex_cmp_eq_iff(small[0].0, large[j].0);
            lemma_lex_cmp_antisym(small[0].0, large[j].0);
        }
    }
    lemma_sup_absent(large, small[0].0);
}

proof fn sup_key_absent_in_tail(s: SupModel)
    requires
        sup_sorted(s),
        s.len() > 0,
    ensures
        supply_of(s.skip(1), s[0].0) == 0,
{
    assert forall|j: int| 0 <= j < s.skip(1).len() implies (#[trigger] s.skip(1)[j]).0 != s[0].0 by {
        assert(s.skip(1)[j] == s[j + 1]);
        assert(lex_lt(s[0].0, s[j + 1].0));
        lemma_lex_cmp_eq_iff(s[0].0, s[j + 1].0);
    }
    lemma_sup_absent(s.skip(1), s[0].0);
}

/// Minting an amount to an account and then burning the same amount from it
/// restores every balance and every supply exactly: the two bank states are
/// equal, entry for entry.
pub proof fn theorem_mint_burn_symmetry(
    b0: BalModel,
    s0: SupModel,
    b1: BalModel,
    s1: SupModel,
    b2: BalModel,
    s2: SupModel,
    a: Seq<u8>,
    d: Seq<u8>,
    n: u128,
)
    requires
        bal_wf(b0) && sup_wf(s0),
        bal_wf(b1) && sup_wf(s1),
        bal_wf(b2) && sup_wf(s2),
        // what minting `n` to `(a, d)` did
        supply_of(s1, d) == supply_of(s0, d) + n,
        forall|d2: Seq<u8>| d2 != d ==> #[trigger] supply_of(s1, d2) == supply_of(s0, d2),
        balance_of(b1, a, d) == balance_of(b0, a, d) + n,
        forall|a2: Seq<u8>, d2: Seq<u8>|
            !(a2 == a && d2 == d) ==> #[trigger] balance_of(b1, a2, d2) == balance_of(b0, a2, d2),
        // what burning `n` from `(a, d)` did
        supply_of(s2, d) == supply_of(s1, d) - n,
        forall|d2: Seq<u8>| d2 != d ==> #[trigger] supply_of(s2, d2) == supply_of(s1, d2),
        balance_of(b2, a, d) == balance_of(b1, a, d) - n,
        forall|a2: Seq<u8>, d2: Seq<u8>|
            !(a2 == a && d2 == d) ==> #[trigger] balance_of(b2, a2, d2) == balance_of(b1, a2, d2),
    ensures
        b2 == b0,
        s2 == s0,
{
    assert forall|a2: Seq<u8>, d2: Seq<u8>| #[trigger] balance_of(b2, a2, d2) == balance_of(
        b0,
        a2,
        d2,
    ) by {
        if a2 == a && d2 == d {
        } else {
            assert(balance_of(b1, a2, d2) == balance_of(b0, a2, d2));
        }
    }
    assert forall|d2: Seq<u8>| #[trigger] supply_of(s2, d2) == supply_of(s0, d2) by {
        if d2 == d {
        } else {
            assert(supply_of(s1, d2) == supply_of(s0, d2));
        }
    }
    lemma_bal_canonical(b2, b0);
    lemma_sup_canonical(s2, s0);
}


/// How many records a paginated query returns when no limit is given.
pub const DEFAULT_PAGE_LIMIT: u32 = 30;

/// Whether a denomination lies past an exclusive cursor.
pub open spec fn after_start(d: Seq<u8>, start: Option<Seq<u8>>) -> bool {
    match start {
        Option::None => true,
        Option::Some(s0) => lex_lt(s0, d),
    }
}

/// The page a balances query returns: the account's coins in ascending
/// denomination order, past the cursor, at most `l` of them.
pub open spec fn bal_page_lim(b: BalModel, a: Seq<u8>, start: Option<Seq<u8>>, l: int) -> CoinsModel
    decreases b.len(),
{
    if b.len() == 0 || l <= 0 {
        Seq::empty()
    } else if b[0].0 == a && after_start(b[0].1, start) {
        seq![(b[0].1, b[0].2)] + bal_page_lim(b.skip(1), a, start, l - 1)
    } else {
        bal_page_lim(b.skip(1), a, start, l)
    }
}

/// The page a supplies query returns.
pub open spec fn sup_page_lim(s: SupModel, start: Option<Seq<u8>>, l: int) -> CoinsModel
    decreases s.len(),
{
    if s.len() == 0 || l <= 0 {
        Seq::empty()
    } else if after_start(s[0].0, start) {
        seq![(s[0].0, s[0].1)] + sup_page_lim(s.skip(1), start, l - 1)
    } else {
        sup_page_lim(s.skip(1), start, l)
    }
}

/// Every record of a page is one of the account's balance entries.
pub open spec fn bal_page_members(b: BalModel, a: Seq<u8>, p: CoinsModel) -> bool {
    forall|m: int|
        #![trigger p[m]]
        0 <= m < p.len() ==> exists|k: int|
            0 <= k < b.len() && (#[trigger] b[k]).0 == a && (b[k].1, b[k].2) == p[m]
}

/// A balances page is canonical, and every record of it is one of the
/// account's balance entries.
proof fn lemma_bal_page_wf(b: BalModel, a: Seq<u8>, start: Option<Seq<u8>>, l: int)
    requires
        bal_wf(b),
    ensures
        coins_wf(bal_page_lim(b, a, start, l)),
        bal_page_members(b, a, bal_page_lim(b, a, start, l)),
    decreases b.len(),
{
    let p = bal_page_lim(b, a, start, l);
    if b.len() == 0 || l <= 0 {
    } else {
        let t = b.skip(1);
        lemma_bal_tail_sorted(b);
        assert forall|i: int| 0 <= i < t.len() implies (#[trigger] t[i]).2 > 0 by {
            assert(t[i] == b[i + 1]);
        }
        lemma_bal_page_wf(t, a, start, l - 1);
        lemma_bal_page_wf(t, a, start, l);
        let pt1 = bal_page_lim(t, a, start, l - 1);
        let ptl = bal_page_lim(t, a, start, l);
        if b[0].0 == a && after_start(b[0].1, start) {
            let pt = bal_page_lim(t, a, start, l - 1);
            assert(p =~= seq![(b[0].1, b[0].2)] + pt);
            assert forall|m: int| #![trigger p[m]] 0 <= m < p.len() implies exists|k: int|
                0 <= k < b.len() && (#[trigger] b[k]).0 == a && (b[k].1, b[k].2) == p[m] by {
                if m == 0 {
                    assert(b[0].0 == a && (b[0].1, b[0].2) == p[0]);
                } else {
                    assert(p[m] == pt[m - 1]);
                    let k0 = choose|k0: int|
                        0 <= k0 < t.len() && (#[trigger] t[k0]).0 == a && (t[k0].1, t[k0].2)
                            == pt[m - 1];
                    assert(b[k0 + 1].0 == a && (b[k0 + 1].1, b[k0 + 1].2) == p[m]);
                }
            }
            assert forall|m1: int, m2: int| 0 <= m1 < m2 < p.len() implies lex_lt(
                #[trigger] p[m1].0,
                #[trigger] p[m2].0,
            ) by {
                if m1 == 0 {
                    assert(p[m2] == pt[m2 - 1]);
                    let k0 = choose|k0: int|
                        0 <= k0 < t.len() && (#[trigger] t[k0]).0 == a && (t[k0].1, t[k0].2)
                            == pt[m2 - 1];
                    assert(t[k0] == b[k0 + 1]);
                    assert(pair_lt(b[0].0, b[0].1, b[k0 + 1].0, b[k0 + 1].1));
                    crate::bytes_util::lemma_lex_cmp_antisym(b[0].0, b[k0 + 1].0);
                    lemma_lex_cmp_eq_iff(b[0].0, b[k0 + 1].0);
                } else {
                    assert(p[m1] == pt[m1 - 1] && p[m2] == pt[m2 - 1]);
                }
            }
            assert forall|m: int| 0 <= m < p.len() implies (#[trigger] p[m]).1 > 0 by {
                if m > 0 {
                    assert(p[m] == pt[m - 1]);
                }
            }
        } else {
            assert(p =~= bal_page_lim(t, a, start, l));
            assert forall|m: int| #![trigger p[m]] 0 <= m < p.len() implies exists|k: int|
                0 <= k < b.len() && (#[trigger] b[k]).0 == a && (b[k].1, b[k].2) == p[m] by {
                assert(p[m] == ptl[m]);
                let k0 = choose|k0: int|
                    0 <= k0 < t.len() && (#[trigger] t[k0]).0 == a && (t[k0].1, t[k0].2) == ptl[m];
                assert(b[k0 + 1].0 == a && (b[k0 + 1].1, b[k0 + 1].2) == p[m]);
            }
        }
        assert(bal_page_members(b, a, p));
    }
}

/// Every record of a supplies page is one of the supply entries.
pub open spec fn sup_page_members(s: SupModel, p: CoinsModel) -> bool {
    forall|m: int|
        #![trigger p[m]]
        0 <= m < p.len() ==> exists|k: int| 0 <= k < s.len() && (#[trigger] s[k]) == p[m]
}

/// A supplies page is canonical.
proof fn lemma_sup_page_wf(s: SupModel, start: Option<Seq<u8>>, l: int)
    requires
        sup_wf(s),
    ensures
        coins_wf(sup_page_lim(s, start, l)),
        sup_page_members(s, sup_page_lim(s, start, l)),
    decreases s.len(),
{
    let p = sup_page_lim(s, start, l);
    if s.len() == 0 || l <= 0 {
    } else {
        let t = s.skip(1);
        lemma_sup_tail_sorted(s);
        assert forall|i: int| 0 <= i < t.len() implies (#[trigger] t[i]).1 > 0 by {
            assert(t[i] == s[i + 1]);
        }
        lemma_sup_page_wf(t, start, l - 1);
        lemma_sup_page_wf(t, start, l);
        let pt1 = sup_page_lim(t, start, l - 1);
        let ptl = sup_page_lim(t, start, l);
        if after_start(s[0].0, start) {
            let pt = sup_page_lim(t, start, l - 1);
            assert(p =~= seq![(s[0].0, s[0].1)] + pt);
            assert forall|m: int| #![trigger p[m]] 0 <= m < p.len() implies exists|k: int|
                0 <= k < s.len() && (#[trigger] s[k]) == p[m] by {
                if m == 0 {
                    assert(s[0] == p[0]);
                } else {
                    assert(p[m] == pt[m - 1]);
                    let k0 = choose|k0: int| 0 <= k0 < t.len() && (#[trigger] t[k0]) == pt[m - 1];
                    assert(s[k0 + 1] == p[m]);
                }
            }
            assert forall|m1: int, m2: int| 0 <= m1 < m2 < p.len() implies lex_lt(
                #[trigger] p[m1].0,
                #[trigger] p[m2].0,
            ) by {
                if m1 == 0 {
                    assert(p[m2] == pt[m2 - 1]);
                    let k0 = choose|k0: int| 0 <= k0 < t.len() && (#[trigger] t[k0]) == pt[m2 - 1];
                    assert(t[k0] == s[k0 + 1]);
                    assert(lex_lt(s[0].0, s[k0 + 1].0));
                } else {
                    assert(p[m1] == pt[m1 - 1] && p[m2] == pt[m2 - 1]);
                }
            }
            assert forall|m: int| 0 <= m < p.len() implies (#[trigger] p[m]).1 > 0 by {
                if m > 0 {
                    assert(p[m] == pt[m - 1]);
                }
            }
        } else {
            assert(p =~= sup_page_lim(t, start, l));
            assert forall|m: int| #![trigger p[m]] 0 <= m < p.len() implies exists|k: int|
                0 <= k < s.len() && (#[trigger] s[k]) == p[m] by {
                assert(p[m] == ptl[m]);
                let k0 = choose|k0: int| 0 <= k0 < t.len() && (#[trigger] t[k0]) == ptl[m];
                assert(s[k0 + 1] == p[m]);
            }
        }
        assert(sup_page_members(s, p));
    }
}

pub open spec fn opt_bytes_view(o: Option<&Vec<u8>>) -> Option<Seq<u8>> {
    match o {
        Option::None => Option::None,
        Option::Some(v) => Option::Some(v@),
    }
}

pub open spec fn limit_val(limit: Option<u32>) -> int {
    match limit {
        Option::None => DEFAULT_PAGE_LIMIT as int,
        Option::Some(l) => l as int,
    }
}

impl BankState {
    /// The balance of one account in one denomination, as a coin; a zero
    /// coin when the account holds none.
    pub fn query_balance(&self, address: &Vec<u8>, denom: Vec<u8>) -> (r: Coin)
        requires
            self.inv(),
        ensures
            r.denom@ == denom@,
            r.amount as int == balance_of(self.bals(), address@, denom@),
    {
        let amount = self.balance(address, &denom);
        Coin { denom, amount }
    }

    /// The recorded supply of one denomination, as a coin.
    pub fn query_supply(&self, denom: Vec<u8>) -> (r: Coin)
        requires
            self.inv(),
        ensures
            r.denom@ == denom@,
            r.amount as int == supply_of(self.sups(), denom@),
    {
        let amount = self.supply(&denom);
        Coin { denom, amount }
    }

    /// One page of an account's balances, ascending by denomination, past
    /// the exclusive cursor `start_after`.
    pub fn query_balances(
        &self,
        address: &Vec<u8>,
        start_after: Option<&Vec<u8>>,
        limit: Option<u32>,
    ) -> (r: Coins)
        requires
            self.inv(),
        ensures
            r.wf(),
            r@ == bal_page_lim(
                self.bals(),
                address@,
                opt_bytes_view(start_after),
                limit_val(limit),
            ),
    {
        let lim: usize = match limit {
            Option::Some(l) => l as usize,
            Option::None => DEFAULT_PAGE_LIMIT as usize,
        };
        let ghost bm = self.bals();
        let ghost st = opt_bytes_view(start_after);
        let ghost lv = limit_val(limit);
        let n = self.balances.len();
        let mut out: Vec<Coin> = Vec::new();
        let ghost outm = out@.map(|q: int, x: Coin| (x.denom@, x.amount));
        let mut i: usize = 0;
        proof {
            assert(bm.skip(0) =~= bm);
            assert(out@.map(|q: int, x: Coin| (x.denom@, x.amount)) =~= Seq::<(
                Seq<u8>,
                u128,
            )>::empty());
        }
        while i < n && out.len() < lim
            invariant
                n == bm.len(),
                bm == self.bals(),
                self.inv(),
                st == opt_bytes_view(start_after),
                lv == limit_val(limit),
                lim as int == lv,
                i <= n,
                out@.len() <= lim,
                bal_page_lim(bm, address@, st, lv) =~= out@.map(
                    |q: int, x: Coin| (x.denom@, x.amount),
                ) + bal_page_lim(bm.skip(i as int), address@, st, lv - out@.len()),
            decreases n - i,
        {
            let ghost pre_out = out@.map(|q: int, x: Coin| (x.denom@, x.amount));
            let e = &self.balances[i];
            let matches_addr = bytes_eq(&e.0, address);
            let past = match start_after {
                Option::Some(s0) => lex_cmp_bytes(s0, &e.1) < 0,
                Option::None => true,
            };
            proof {
                assert(bm.skip(i as int)[0] == bm[i as int]);
                assert(bm.skip(i as int).skip(1) =~= bm.skip(i + 1));
                if let Option::Some(s0) = start_after {
                    crate::bytes_util::lemma_lex_cmp_range(s0@, bm[i as int].1);
                    crate::bytes_util::lemma_lex_cmp_eq_iff(s0@, bm[i as int].1);
                }
            }
            if matches_addr && past {
                out.push(Coin { denom: copy_bytes(&e.1), amount: e.2 });
                proof {
                    assert(out@.map(|q: int, x: Coin| (x.denom@, x.amount)) =~= pre_out.push(
                        (bm[i as int].1, bm[i as int].2),
                    ));
                    assert(seq![(bm[i as int].1, bm[i as int].2)] + bal_page_lim(
                        bm.skip(i + 1),
                        address@,
                        st,
                        lv - out@.len(),
                    ) =~= (pre_out.push((bm[i as int].1, bm[i as int].2)) + bal_page_lim(
                        bm.skip(i + 1),
                        address@,
                        st,
                        lv - out@.len(),
                    )).skip(pre_out.len() as int));
                }
            }
            i = i + 1;
        }
        proof {
            if i == n {
                assert(bm.skip(n as int).len() == 0);
            }
            assert(bal_page_lim(bm, address@, st, lv) =~= out@.map(
                |q: int, x: Coin| (x.denom@, x.amount),
            ));
            lemma_bal_page_wf(bm, address@, st, lv);
        }
        Coins::from_sorted(out)
    }

    /// One page of the supplies, ascending by denomination, past the
    /// exclusive cursor `start_after`.
    pub fn query_supplies(&self, start_after: Option<&Vec<u8>>, limit: Option<u32>) -> (r: Coins)
        requires
            self.inv(),
        ensures
            r.wf(),
            r@ == sup_page_lim(self.sups(), opt_bytes_view(start_after), limit_val(limit)),
    {
        let lim: usize = match limit {
            Option::Some(l) => l as usize,
            Option::None => DEFAULT_PAGE_LIMIT as usize,
        };
        let ghost sm = self.sups();
        let ghost st = opt_bytes_view(start_after);
        let ghost lv = limit_val(limit);
        let n = self.supplies.len();
        let mut out: Vec<Coin> = Vec::new();
        let mut i: usize = 0;
        proof {
            assert(sm.skip(0) =~= sm);
            assert(out@.map(|q: int, x: Coin| (x.denom@, x.amount)) =~= Seq::<(
                Seq<u8>,
                u128,
            )>::empty());
        }
        while i < n && out.len() < lim
            invariant
                n == sm.len(),
                sm == self.sups(),
                self.inv(),
                st == opt_bytes_view(start_after),
                lv == limit_val(limit),
                lim as int == lv,
                i <= n,
                out@.len() <= lim,
                sup_page_lim(sm, st, lv) =~= out@.map(|q: int, x: Coin| (x.denom@, x.amount))
                    + sup_page_lim(sm.skip(i as int), st, lv - out@.len()),
            decreases n - i,
        {
            let ghost pre_out = out@.map(|q: int, x: Coin| (x.denom@, x.amount));
            let e = &self.supplies[i];
            let past = match start_after {
                Option::Some(s0) => lex_cmp_bytes(s0, &e.0) < 0,
                Option::None => true,
            };
            proof {
                assert(sm.skip(i as int)[0] == sm[i as int]);
                assert(sm.skip(i as int).skip(1) =~= sm.skip(i + 1));
                if let Option::Some(s0) = start_after {
                    crate::bytes_util::lemma_lex_cmp_range(s0@, sm[i as int].0);
                    crate::bytes_util::lemma_lex_cmp_eq_iff(s0@, sm[i as int].0);
                }
            }
            if past {
                out.push(Coin { denom: copy_bytes(&e.0), amount: e.1 });
                proof {
                    assert(out@.map(|q: int, x: Coin| (x.denom@, x.amount)) =~= pre_out.push(
                        (sm[i as int].0, sm[i as int].1),
                    ));
                    assert(seq![(sm[i as int].0, sm[i as int].1)] + sup_page_lim(
                        sm.skip(i + 1),
                        st,
                        lv - out@.len(),
                    ) =~= (pre_out.push((sm[i as int].0, sm[i as int].1)) + sup_page_lim(
                        sm.skip(i + 1),
                        st,
                        lv - out@.len(),
                    )).skip(pre_out.len() as int));
                }
            }
            i = i + 1;
        }
        proof {
            if i == n {
                assert(sm.skip(n as int).len() == 0);
            }
            assert(sup_page_lim(sm, st, lv) =~= out@.map(|q: int, x: Coin| (x.denom@, x.amount)));
            lemma_sup_page_wf(sm, st, lv);
        }
        Coins::from_sorted(out)
    }

    /// Serve one bank lookup. The response variant always matches the
    /// query variant.
    pub fn query_bank(&self, msg: &BankQuery) -> (r: BankQueryResponse)
        requires
            self.inv(),
        ensures
            match msg {
                BankQuery::Balance { address, denom } => (r matches BankQueryResponse::Balance(c)
                    && c.denom@ == denom@ && c.amount as int == balance_of(
                    self.bals(),
                    address@,
                    denom@,
                )),
                BankQuery::Balances { address, start_after, limit } => (r
                    matches BankQueryResponse::Balances(c) && c@ == bal_page_lim(
                    self.bals(),
                    address@,
                    opt_vec_view(start_after),
                    limit_val(*limit),
                )),
                BankQuery::Supply { denom } => (r matches BankQueryResponse::Supply(c) && c.denom@
                    == denom@ && c.amount as int == supply_of(self.sups(), denom@)),
                BankQuery::Supplies { start_after, limit } => (r
                    matches BankQueryResponse::Supplies(c) && c@ == sup_page_lim(
                    self.sups(),
                    opt_vec_view(start_after),
                    limit_val(*limit),
                )),
            },
    {
        match msg {
            BankQuery::Balance { address, denom } => {
                BankQueryResponse::Balance(self.query_balance(address, copy_bytes(denom)))
            },
            BankQuery::Balances { address, start_after, limit } => {
                BankQueryResponse::Balances(
                    self.query_balances(address, start_after.as_ref(), *limit),
                )
            },
            BankQuery::Supply { denom } => {
                BankQueryResponse::Supply(self.query_supply(copy_bytes(denom)))
            },
            BankQuery::Supplies { start_after, limit } => {
                BankQueryResponse::Supplies(self.query_supplies(start_after.as_ref(), *limit))
            },
        }
    }
}

pub open spec fn opt_vec_view(o: &Option<Vec<u8>>) -> Option<Seq<u8>> {
    match o {
        Option::None => Option::None,
        Option::Some(v) => Option::Some(v@),
    }
}


/// One account's opening balances in the genesis message.
pub struct Balance {
    pub address: Vec<u8>,
    pub coins: Coins,
}

/// The bank's genesis message.
pub struct InstantiateMsg {
    pub initial_balances: Vec<Balance>,
}

/// The bank's execute message: create or destroy tokens.
pub enum ExecuteMsg {
    Mint { to: Vec<u8>, denom: Vec<u8>, amount: u128 },
    Burn { from: Vec<u8>, denom: Vec<u8>, amount: u128 },
}

/// The genesis list as a model: an address and its coins per entry.
pub open spec fn init_view(v: Seq<Balance>) -> Seq<(Seq<u8>, CoinsModel)> {
    v.map(|i: int, e: Balance| (e.address@, e.coins@))
}

pub open spec fn has_dup(s: Seq<(Seq<u8>, CoinsModel)>) -> bool {
    exists|i: int, j: int| 0 <= i < j < s.len() && (#[trigger] s[i]).0 == (#[trigger] s[j]).0
}

/// The balance the genesis list gives one account in one denomination.
pub open spec fn init_balance(s: Seq<(Seq<u8>, CoinsModel)>, a: Seq<u8>, d: Seq<u8>) -> int
    decreases s.len(),
{
    if s.len() == 0 {
        0
    } else {
        (if s[0].0 == a {
            coin_amt(s[0].1, d)
        } else {
            0
        }) + init_balance(s.skip(1), a, d)
    }
}

/// The total the genesis list mints in one denomination.
pub open spec fn init_total(s: Seq<(Seq<u8>, CoinsModel)>, d: Seq<u8>) -> int
    decreases s.len(),
{
    if s.len() == 0 {
        0
    } else {
        coin_amt(s[0].1, d) + init_total(s.skip(1), d)
    }
}

proof fn lemma_init_balance_push(s: Seq<(Seq<u8>, CoinsModel)>, e: (Seq<u8>, CoinsModel), a: Seq<u8>, d: Seq<u8>)
    ensures
        init_balance(s.push(e), a, d) == init_balance(s, a, d) + (if e.0 == a {
            coin_amt(e.1, d)
        } else {
            0
        }),
        init_total(s.push(e), d) == init_total(s, d) + coin_amt(e.1, d),
    decreases s.len(),
{
    let s2 = s.push(e);
    if s.len() == 0 {
        assert(s2.len() == 1);
        assert(s2[0] == e);
        assert(s2.skip(1) =~= Seq::<(Seq<u8>, CoinsModel)>::empty());
        assert(init_balance(s2.skip(1), a, d) == 0);
        assert(init_total(s2.skip(1), d) == 0);
        assert(init_balance(s2, a, d) == (if e.0 == a { coin_amt(e.1, d) } else { 0 }));
        assert(init_total(s2, d) == coin_amt(e.1, d));
    } else {
        assert(s2[0] == s[0]);
        assert(s2.skip(1) =~= s.skip(1).push(e));
        lemma_init_balance_push(s.skip(1), e, a, d);
        assert(init_balance(s2, a, d) == (if s2[0].0 == a { coin_amt(s2[0].1, d) } else { 0 })
            + init_balance(s2.skip(1), a, d));
        assert(init_total(s2, d) == coin_amt(s2[0].1, d) + init_total(s2.skip(1), d));
    }
}

proof fn lemma_init_total_prefix_le(s: Seq<(Seq<u8>, CoinsModel)>, i: int, d: Seq<u8>)
    requires
        0 <= i <= s.len(),
    ensures
        init_total(s.take(i), d) <= init_total(s, d),
        init_total(s.take(i), d) >= 0,
        init_total(s, d) >= 0,
    decreases s.len(),
{
    if s.len() == 0 {
        assert(s.take(i) =~= s);
    } else if i == 0 {
        assert(s.take(0) =~= Seq::<(Seq<u8>, CoinsModel)>::empty());
        lemma_init_total_nonneg(s, d);
    } else {
        assert(s.take(i)[0] == s[0]);
        assert(s.take(i).skip(1) =~= s.skip(1).take(i - 1));
        lemma_init_total_prefix_le(s.skip(1), i - 1, d);
        crate::coins::lemma_coin_amt_nonneg(s[0].1, d);
    }
}

proof fn lemma_init_total_nonneg(s: Seq<(Seq<u8>, CoinsModel)>, d: Seq<u8>)
    ensures
        init_total(s, d) >= 0,
    decreases s.len(),
{
    if s.len() > 0 {
        crate::coins::lemma_coin_amt_nonneg(s[0].1, d);
        lemma_init_total_nonneg(s.skip(1), d);
    }
}

impl BankState {
    /// Build the bank's opening state from the genesis balances. Succeeds
    /// exactly when no address repeats and no denomination's total
    /// overflows; on success every balance and supply is exactly what the
    /// genesis list says.
    pub fn instantiate(msg: &InstantiateMsg) -> (r: Result<BankState, BankError>)
        requires
            forall|i: int|
                0 <= i < msg.initial_balances@.len() ==> coins_wf(
                    (#[trigger] msg.initial_balances@[i]).coins@,
                ),
        ensures
            match r {
                Ok(st) => {
                    &&& st.inv()
                    &&& !has_dup(init_view(msg.initial_balances@))
                    &&& forall|a: Seq<u8>, d: Seq<u8>|
                        #[trigger] balance_of(st.bals(), a, d) == init_balance(
                            init_view(msg.initial_balances@),
                            a,
                            d,
                        )
                    &&& forall|d: Seq<u8>|
                        #[trigger] supply_of(st.sups(), d) == init_total(
                            init_view(msg.initial_balances@),
                            d,
                        )
                    &&& forall|d: Seq<u8>|
                        #[trigger] init_total(init_view(msg.initial_balances@), d) <= u128::MAX
                },
                Err(e) => {
                    &&& (e == BankError::DuplicateAddress || e == BankError::SupplyOverflow)
                    &&& (e == BankError::DuplicateAddress ==> has_dup(
                        init_view(msg.initial_balances@),
                    ))
                    &&& (e == BankError::SupplyOverflow ==> exists|d: Seq<u8>|
                        #[trigger] init_total(init_view(msg.initial_balances@), d) > u128::MAX)
                },
            },
    {
        let ghost iv = init_view(msg.initial_balances@);
        let mut st = BankState::new_empty();
        let n = msg.initial_balances.len();
        let mut i: usize = 0;
        proof {
            assert(iv.take(0) =~= Seq::<(Seq<u8>, CoinsModel)>::empty());
        }
        while i < n
            invariant
                n == iv.len(),
                iv == init_view(msg.initial_balances@),
                forall|q: int|
                    0 <= q < msg.initial_balances@.len() ==> coins_wf(
                        (#[trigger] msg.initial_balances@[q]).coins@,
                    ),
                i <= n,
                st.inv(),
                forall|k1: int, k2: int|
                    0 <= k1 < k2 < i ==> (#[trigger] iv[k1]).0 != (#[trigger] iv[k2]).0,
                forall|a: Seq<u8>, d: Seq<u8>|
                    #[trigger] balance_of(st.bals(), a, d) == init_balance(iv.take(i as int), a, d),
                forall|d: Seq<u8>|
                    #[trigger] supply_of(st.sups(), d) == init_total(iv.take(i as int), d),
            decreases n - i,
        {
            // the address must be fresh
            let mut k: usize = 0;
            while k < i
                invariant
                    i < n,
                    n == iv.len(),
                    iv == init_view(msg.initial_balances@),
                    k <= i,
                    forall|k1: int| 0 <= k1 < k ==> (#[trigger] iv[k1]).0 != iv[i as int].0,
                decreases i - k,
            {
                if bytes_eq(&msg.initial_balances[k].address, &msg.initial_balances[i].address) {
                    proof {
                        assert(iv[k as int].0 == iv[i as int].0);
                    }
                    return Err(BankError::DuplicateAddress);
                }
                k = k + 1;
            }
            // mint every coin of the entry
            let ghost entry = iv[i as int];
            let nc = msg.initial_balances[i].coins.len();
            let mut j: usize = 0;
            proof {
                assert(entry.1.take(0) =~= Seq::<(Seq<u8>, u128)>::empty());
            }
            while j < nc
                invariant
                    i < n,
                    n == iv.len(),
                    iv == init_view(msg.initial_balances@),
                    entry == iv[i as int],
                    coins_wf(entry.1),
                    nc == entry.1.len(),
                    entry.1 == msg.initial_balances@[i as int].coins@,
                    j <= nc,
                    st.inv(),
                    forall|a: Seq<u8>, d: Seq<u8>|
                        #[trigger] balance_of(st.bals(), a, d) == init_balance(
                            iv.take(i as int),
                            a,
                            d,
                        ) + (if a == entry.0 {
                            coin_amt(entry.1.take(j as int), d)
                        } else {
                            0
                        }),
                    forall|d: Seq<u8>|
                        #[trigger] supply_of(st.sups(), d) == init_total(iv.take(i as int), d)
                            + coin_amt(entry.1.take(j as int), d),
                decreases nc - j,
            {
                let c = msg.initial_balances[i].coins.get(j);
                let ghost dj = c.denom@;
                proof {
                    assert forall|q: int| 0 <= q < entry.1.take(j as int).len() implies (
                    #[trigger] entry.1.take(j as int)[q]).0 != dj by {
                        assert(entry.1.take(j as int)[q] == entry.1[q]);
                        assert(lex_lt(entry.1[q].0, entry.1[j as int].0));
                        lemma_lex_cmp_eq_iff(entry.1[q].0, entry.1[j as int].0);
                    }
                    crate::coins::lemma_coin_amt_absent(entry.1.take(j as int), dj);
                    crate::coins::lemma_coin_amt_prefix_le(entry.1, j as int, dj);
                }
                let ghost pre_b = st.bals();
                let ghost pre_s = st.sups();
                match st.mint(&msg.initial_balances[i].address, &c.denom, c.amount) {
                    Ok(_) => {},
                    Err(_) => {
                        proof {
                            // the failing denomination's grand total overflows
                            assert(supply_of(pre_s, dj) + c.amount > u128::MAX);
                            assert(coin_amt(entry.1.take(j + 1), dj) == coin_amt(
                                entry.1.take(j as int),
                                dj,
                            ) + c.amount) by {
                                assert(entry.1.take(j + 1) =~= entry.1.take(j as int).push(
                                    entry.1[j as int],
                                ));
                                crate::coins::lemma_coin_amt_push(
                                    entry.1.take(j as int),
                                    entry.1[j as int],
                                    dj,
                                );
                            }
                            crate::coins::lemma_coin_amt_prefix_le(entry.1, j + 1, dj);
                            assert(iv.take(i + 1) =~= iv.take(i as int).push(entry));
                            lemma_init_balance_push(iv.take(i as int), entry, entry.0, dj);
                            lemma_init_total_prefix_le(iv, i + 1, dj);
                            assert(init_total(iv, dj) > u128::MAX);
                        }
                        return Err(BankError::SupplyOverflow);
                    },
                }
                proof {
                    assert(entry.1.take(j + 1) =~= entry.1.take(j as int).push(entry.1[j as int]));
                    assert forall|a: Seq<u8>, d: Seq<u8>| #[trigger] balance_of(st.bals(), a, d)
                        == init_balance(iv.take(i as int), a, d) + (if a == entry.0 {
                        coin_amt(entry.1.take(j + 1), d)
                    } else {
                        0
                    }) by {
                        crate::coins::lemma_coin_amt_push(
                            entry.1.take(j as int),
                            entry.1[j as int],
                            d,
                        );
                    }
                    assert forall|d: Seq<u8>| #[trigger] supply_of(st.sups(), d) == init_total(
                        iv.take(i as int),
                        d,
                    ) + coin_amt(entry.1.take(j + 1), d) by {
                        crate::coins::lemma_coin_amt_push(
                            entry.1.take(j as int),
                            entry.1[j as int],
                            d,
                        );
                    }
                }
                j = j + 1;
            }
            proof {
                assert(entry.1.take(nc as int) =~= entry.1);
                assert(iv.take(i + 1) =~= iv.take(i as int).push(entry));
                assert forall|a: Seq<u8>, d: Seq<u8>| #[trigger] balance_of(st.bals(), a, d)
                    == init_balance(iv.take(i + 1), a, d) by {
                    lemma_init_balance_push(iv.take(i as int), entry, a, d);
                }
                assert forall|d: Seq<u8>| #[trigger] supply_of(st.sups(), d) == init_total(
                    iv.take(i + 1),
                    d,
                ) by {
                    lemma_init_balance_push(iv.take(i as int), entry, entry.0, d);
                }
            }
            i = i + 1;
        }
        proof {
            assert(iv.take(n as int) =~= iv);
            assert forall|d: Seq<u8>| #[trigger] init_total(iv, d) <= u128::MAX by {
                lemma_sup_range(st.sups(), d);
            }
            if has_dup(iv) {
                let (i1, j1) = choose|i1: int, j1: int|
                    0 <= i1 < j1 < iv.len() && (#[trigger] iv[i1]).0 == (#[trigger] iv[j1]).0;
                assert(false);
            }
        }
        Ok(st)
    }

    /// Dispatch a bank execute message.
    pub fn execute(&mut self, msg: &ExecuteMsg) -> (r: Result<Response, BankError>)
        requires
            old(self).inv(),
        ensures
            final(self).inv() || (final(self).bals() == old(self).bals() && final(self).sups()
                == old(self).sups()),
            match msg {
                ExecuteMsg::Mint { to, denom, amount } => {
                    match r {
                        Ok(resp) => {
                            &&& final(self).inv()
                            &&& balance_of(final(self).bals(), to@, denom@) == balance_of(
                                old(self).bals(),
                                to@,
                                denom@,
                            ) + *amount
                            &&& forall|a2: Seq<u8>, d2: Seq<u8>|
                                !(a2 == to@ && d2 == denom@) ==> #[trigger] balance_of(
                                    final(self).bals(),
                                    a2,
                                    d2,
                                ) == balance_of(old(self).bals(), a2, d2)
                            &&& supply_of(final(self).sups(), denom@) == supply_of(
                                old(self).sups(),
                                denom@,
                            ) + *amount
                            &&& forall|d2: Seq<u8>|
                                d2 != denom@ ==> #[trigger] supply_of(final(self).sups(), d2)
                                    == supply_of(old(self).sups(), d2)
                            &&& resp.attributes@.len() == 4
                            &&& resp.attributes@[0].key@ == s_method() && resp.attributes@[0].value@
                                == s_mint()
                            &&& resp.attributes@[1].key@ == s_to() && resp.attributes@[1].value@
                                == to@
                            &&& resp.attributes@[2].key@ == s_denom() && resp.attributes@[2].value@
                                == denom@
                            &&& resp.attributes@[3].key@ == s_amount()
                                && resp.attributes@[3].value@ == crate::codec::dec_of(
                                *amount as nat,
                            )
                            &&& resp.submsgs@.len() == 0
                            &&& resp.data is None
                        },
                        Err(e) => {
                            &&& final(self).bals() == old(self).bals()
                            &&& final(self).sups() == old(self).sups()
                            &&& supply_of(old(self).sups(), denom@) + *amount > u128::MAX
                        },
                    }
                },
                ExecuteMsg::Burn { from, denom, amount } => {
                    match r {
                        Ok(resp) => {
                            &&& final(self).inv()
                            &&& balance_of(final(self).bals(), from@, denom@) == balance_of(
                                old(self).bals(),
                                from@,
                                denom@,
                            ) - *amount
                            &&& forall|a2: Seq<u8>, d2: Seq<u8>|
                                !(a2 == from@ && d2 == denom@) ==> #[trigger] balance_of(
                                    final(self).bals(),
                                    a2,
                                    d2,
                                ) == balance_of(old(self).bals(), a2, d2)
                            &&& supply_of(final(self).sups(), denom@) == supply_of(
                                old(self).sups(),
                                denom@,
                            ) - *amount
                            &&& forall|d2: Seq<u8>|
                                d2 != denom@ ==> #[trigger] supply_of(final(self).sups(), d2)
                                    == supply_of(old(self).sups(), d2)
                            &&& resp.attributes@.len() == 4
                            &&& resp.attributes@[0].key@ == s_method() && resp.attributes@[0].value@
                                == s_burn()
                            &&& resp.attributes@[1].key@ == s_from() && resp.attributes@[1].value@
                                == from@
                            &&& resp.attributes@[2].key@ == s_denom() && resp.attributes@[2].value@
                                == denom@
                            &&& resp.attributes@[3].key@ == s_amount()
                                && resp.attributes@[3].value@ == crate::codec::dec_of(
                                *amount as nat,
                            )
                            &&& resp.submsgs@.len() == 0
                            &&& resp.data is None
                        },
                        Err(e) => {
                            &&& final(self).bals() == old(self).bals()
                            &&& final(self).sups() == old(self).sups()
                            &&& (supply_of(old(self).sups(), denom@) < *amount || balance_of(
                                old(self).bals(),
                                from@,
                                denom@,
                            ) < *amount)
                        },
                    }
                },
            },
    {
        match msg {
            ExecuteMsg::Mint { to, denom, amount } => self.mint(to, denom, *amount),
            ExecuteMsg::Burn { from, denom, amount } => self.burn(from, denom, *amount),
        }
    }
}

/// The bank accepts no direct transfers: `receive` always rejects, which
/// reverts the transfer.
pub fn receive() -> (r: Result<Response, BankError>)
    ensures
        r matches Err(e) && e == BankError::UnexpectedFunds,
{
    Err(BankError::UnexpectedFunds)
}

} // verus!
