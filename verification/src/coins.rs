//! Coins: a token amount per denomination. A `Coins` value is canonical:
//! denominations strictly ascending in lexicographic order, every amount
//! nonzero.

use vstd::prelude::*;
use crate::bytes_util::{lex_lt, lex_cmp_bytes, copy_bytes, lemma_lex_cmp_range, lemma_lex_cmp_eq_iff, lemma_lex_cmp_antisym};

verus! {

/// One token: a denomination and a positive amount.
pub struct Coin {
    pub denom: Vec<u8>,
    pub amount: u128,
}

/// The model of a `Coins` value.
pub type CoinsModel = Seq<(Seq<u8>, u128)>;

/// The amount a coin list assigns to a denomination; zero when absent.
pub open spec fn coin_amt(c: CoinsModel, d: Seq<u8>) -> int
    decreases c.len(),
{
    if c.len() == 0 {
        0
    } else if c[0].0 == d {
        c[0].1 as int
    } else {
        coin_amt(c.skip(1), d)
    }
}

pub open spec fn coins_sorted(c: CoinsModel) -> bool {
    forall|i: int, j: int| 0 <= i < j < c.len() ==> lex_lt(#[trigger] c[i].0, #[trigger] c[j].0)
}

pub open spec fn coins_positive(c: CoinsModel) -> bool {
    forall|i: int| 0 <= i < c.len() ==> (#[trigger] c[i]).1 > 0
}

pub open spec fn coins_wf(c: CoinsModel) -> bool {
    coins_sorted(c) && coins_positive(c)
}

/// A canonical set of coins.
pub struct Coins {
    entries: Vec<Coin>,
}

impl View for Coins {
    type V = CoinsModel;

    closed spec fn view(&self) -> CoinsModel {
        self.entries@.map(|i: int, c: Coin| (c.denom@, c.amount))
    }
}

impl Coins {
    pub open spec fn wf(&self) -> bool {
        coins_wf(self@)
    }

    /// No coins at all.
    pub fn new_empty() -> (r: Coins)
        ensures
            r.wf(),
            r@.len() == 0,
    {
        Coins { entries: Vec::new() }
    }

    /// A single denomination, or no coins when the amount is zero.
    pub fn one(denom: Vec<u8>, amount: u128) -> (r: Coins)
        ensures
            r.wf(),
            amount > 0 ==> r@ =~= seq![(denom@, amount)],
            amount == 0 ==> r@.len() == 0,
    {
        let mut entries: Vec<Coin> = Vec::new();
        if amount > 0 {
            entries.push(Coin { denom, amount });
        }
        Coins { entries }
    }

    pub fn is_empty(&self) -> (r: bool)
        ensures
            r == (self@.len() == 0),
    {
        self.entries.len() == 0
    }

    pub fn len(&self) -> (r: usize)
        ensures
            r == self@.len(),
    {
        self.entries.len()
    }

    /// The coin at a position, in ascending denomination order.
    pub fn get(&self, i: usize) -> (r: Coin)
        requires
            i < self@.len(),
        ensures
            (r.denom@, r.amount) == self@[i as int],
    {
        let c = &self.entries[i];
        Coin { denom: copy_bytes(&c.denom), amount: c.amount }
    }

    /// Add one coin whose denomination is strictly above every one already
    /// present; keeps the value canonical. Zero amounts are dropped.
    pub fn push_above(&mut self, denom: Vec<u8>, amount: u128)
        requires
            old(self).wf(),
            forall|i: int| 0 <= i < old(self)@.len() ==> lex_lt((#[trigger] old(self)@[i]).0, denom@),
        ensures
            final(self).wf(),
            amount > 0 ==> final(self)@ =~= old(self)@.push((denom@, amount)),
            amount == 0 ==> final(self)@ =~= old(self)@,
    {
        if amount > 0 {
            let ghost pre = self@;
            self.entries.push(Coin { denom, amount });
            proof {
                assert(self@ =~= pre.push((denom@, amount)));
            }
        }
    }

    /// A deep copy.
    pub fn duplicate(&self) -> (r: Coins)
        ensures
            r@ == self@,
    {
        let mut entries: Vec<Coin> = Vec::new();
        let n = self.entries.len();
        let mut i: usize = 0;
        while i < n
            invariant
                n == self.entries.len(),
                i <= n,
                entries@.len() == i,
                forall|j: int|
                    0 <= j < i ==> ((#[trigger] entries@[j]).denom@, entries@[j].amount)
                        == self@[j],
            decreases n - i,
        {
            let c = &self.entries[i];
            entries.push(Coin { denom: copy_bytes(&c.denom), amount: c.amount });
            i = i + 1;
        }
        let r = Coins { entries };
        proof {
            assert(r@ =~= self@);
        }
        r
    }

    /// Wrap coins already known to be canonical.
    pub fn from_sorted(v: Vec<Coin>) -> (r: Coins)
        requires
            coins_wf(v@.map(|i: int, x: Coin| (x.denom@, x.amount))),
        ensures
            r.wf(),
            r@ == v@.map(|i: int, x: Coin| (x.denom@, x.amount)),
    {
        Coins { entries: v }
    }

    /// Build a canonical value from coins given in strictly ascending
    /// denomination order with nonzero amounts; `None` otherwise.
    pub fn from_vec(v: Vec<Coin>) -> (r: Option<Coins>)
        ensures
            match r {
                Some(c) => c.wf() && c@ == v@.map(|i: int, x: Coin| (x.denom@, x.amount)),
                None => !coins_wf(v@.map(|i: int, x: Coin| (x.denom@, x.amount))),
            },
    {
        let ghost m = v@.map(|i: int, x: Coin| (x.denom@, x.amount));
        let n = v.len();
        let mut i: usize = 0;
        while i < n
            invariant
                n == v@.len(),
                i <= n,
                m == v@.map(|i: int, x: Coin| (x.denom@, x.amount)),
                forall|p: int, q: int| 0 <= p < q < i ==> lex_lt(#[trigger] m[p].0, #[trigger] m[q].0),
                forall|p: int| 0 <= p < i ==> (#[trigger] m[p]).1 > 0,
            decreases n - i,
        {
            if v[i].amount == 0 {
                proof {
                    assert(m[i as int].1 == 0);
                }
                return None;
            }
            if i > 0 {
                let c = lex_cmp_bytes(&v[i - 1].denom, &v[i].denom);
                proof {
                    lemma_lex_cmp_range(m[i - 1].0, m[i as int].0);
                }
                if c >= 0 {
                    proof {
                        if coins_sorted(m) {
                            assert(lex_lt(m[i - 1].0, m[i as int].0));
                        }
                    }
                    return None;
                }
                proof {
                    assert forall|p: int, q: int| 0 <= p < q < i + 1 implies lex_lt(
                        #[trigger] m[p].0,
                        #[trigger] m[q].0,
                    ) by {
                        if q == i {
                            if p < i - 1 {
                                crate::bytes_util::lemma_lex_lt_trans(
                                    m[p].0,
                                    m[i - 1].0,
                                    m[i as int].0,
                                );
                            }
                        }
                    }
                }
            }
            i = i + 1;
        }
        let r = Coins { entries: v };
        proof {
            assert(r@ == m);
        }
        Some(r)
    }
}

/// Looking a denomination up in a longer prefix of a sorted coin list does
/// not change once the denomination has been passed; in particular a
/// denomination below every entry of a list reads zero.
pub proof fn lemma_coin_amt_absent(c: CoinsModel, d: Seq<u8>)
    requires
        forall|i: int| 0 <= i < c.len() ==> (#[trigger] c[i]).0 != d,
    ensures
        coin_amt(c, d) == 0,
    decreases c.len(),
{
    if c.len() > 0 {
        assert(c[0].0 != d);
        assert forall|i: int| 0 <= i < c.skip(1).len() implies (#[trigger] c.skip(1)[i]).0 != d by {
            assert(c.skip(1)[i] == c[i + 1]);
        }
        lemma_coin_amt_absent(c.skip(1), d);
    }
}

/// Effect of appending a coin on lookups: other denominations are
/// untouched; a fresh denomination reads the appended amount.
pub proof fn lemma_coin_amt_push(c: CoinsModel, e: (Seq<u8>, u128), d: Seq<u8>)
    ensures
        d != e.0 ==> coin_amt(c.push(e), d) == coin_amt(c, d),
        (forall|j: int| 0 <= j < c.len() ==> (#[trigger] c[j]).0 != e.0) && d == e.0 ==> coin_amt(
            c.push(e),
            d,
        ) == coin_amt(c, d) + e.1,
    decreases c.len(),
{
    let c2 = c.push(e);
    if c.len() == 0 {
        assert(c2.len() == 1);
        assert(c2[0] == e);
        assert(c2.skip(1) =~= Seq::<(Seq<u8>, u128)>::empty());
        if d != e.0 {
            assert(coin_amt(c2, d) == coin_amt(c2.skip(1), d));
        }
    } else {
        assert(c2[0] == c[0]);
        assert(c2.skip(1) =~= c.skip(1).push(e));
        lemma_coin_amt_push(c.skip(1), e, d);
        if (forall|j: int| 0 <= j < c.len() ==> (#[trigger] c[j]).0 != e.0) && d == e.0 {
            assert forall|j: int| 0 <= j < c.skip(1).len() implies (#[trigger] c.skip(1)[j]).0
                != e.0 by {
                assert(c.skip(1)[j] == c[j + 1]);
            }
            assert(c[0].0 != e.0);
        }
    }
}

/// A lookup in a prefix never exceeds the lookup in the whole list.
pub proof fn lemma_coin_amt_prefix_le(c: CoinsModel, j: int, d: Seq<u8>)
    requires
        0 <= j <= c.len(),
    ensures
        coin_amt(c, d) >= 0,
        coin_amt(c.take(j), d) >= 0,
        coin_amt(c.take(j), d) <= coin_amt(c, d),
    decreases c.len(),
{
    lemma_coin_amt_nonneg(c, d);
    lemma_coin_amt_nonneg(c.take(j), d);
    if c.len() == 0 {
        assert(c.take(j) =~= c);
    } else if j == 0 {
        assert(c.take(0) =~= Seq::<(Seq<u8>, u128)>::empty());
    } else {
        assert(c.take(j)[0] == c[0]);
        assert(c.take(j).skip(1) =~= c.skip(1).take(j - 1));
        lemma_coin_amt_prefix_le(c.skip(1), j - 1, d);
    }
}

pub proof fn lemma_coin_amt_nonneg(c: CoinsModel, d: Seq<u8>)
    ensures
        coin_amt(c, d) >= 0,
    decreases c.len(),
{
    if c.len() > 0 && c[0].0 != d {
        lemma_coin_amt_nonneg(c.skip(1), d);
    }
}

} // verus!
