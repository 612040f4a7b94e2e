//! The key-value backend model: a flat store of byte keys and byte values,
//! kept as a vector of entries strictly sorted by key. Reads, writes and
//! removals carry exact pointwise contracts; iteration is by position over
//! the sorted entries (`len`/`entry_at`), and `snapshot` gives a caller a
//! point-in-time copy.

use vstd::prelude::*;
use crate::bytes_util::{lex_lt, lex_le, lex_cmp_bytes, bytes_eq, copy_bytes, lemma_lex_cmp_eq_iff, lemma_lex_cmp_antisym, lemma_lex_cmp_range, lemma_lex_lt_trans};

verus! {

/// The model of a store: the sequence of `(key, value)` pairs, sorted.
pub type Model = Seq<(Seq<u8>, Seq<u8>)>;

/// Keys strictly increase: no duplicates, lexicographic order.
pub open spec fn sorted_entries(m: Model) -> bool {
    forall|i: int, j: int| 0 <= i < j < m.len() ==> lex_lt(#[trigger] m[i].0, #[trigger] m[j].0)
}

pub open spec fn has_key(m: Model, k: Seq<u8>) -> bool {
    exists|i: int| 0 <= i < m.len() && (#[trigger] m[i]).0 == k
}

pub open spec fn contains_pair(m: Model, k: Seq<u8>, v: Seq<u8>) -> bool {
    exists|i: int| 0 <= i < m.len() && #[trigger] m[i] == (k, v)
}

/// In a sorted store, a key determines its value.
pub proof fn lemma_key_determines_value(m: Model, k: Seq<u8>, v1: Seq<u8>, v2: Seq<u8>)
    requires
        sorted_entries(m),
        contains_pair(m, k, v1),
        contains_pair(m, k, v2),
    ensures
        v1 == v2,
{
    let i = choose|i: int| 0 <= i < m.len() && m[i] == (k, v1);
    let j = choose|j: int| 0 <= j < m.len() && m[j] == (k, v2);
    if i != j {
        lemma_lex_cmp_eq_iff(m[i].0, m[j].0);
    }
}

/// Two sorted stores holding exactly the same pairs are the same sequence:
/// the sorted form is canonical.
pub proof fn lemma_sorted_canonical(m1: Model, m2: Model)
    requires
        sorted_entries(m1),
        sorted_entries(m2),
        forall|k: Seq<u8>, v: Seq<u8>| contains_pair(m1, k, v) <==> contains_pair(m2, k, v),
    ensures
        m1 == m2,
    decreases m1.len(),
{
    if m1.len() == 0 {
        if m2.len() > 0 {
            assert(contains_pair(m2, m2[0].0, m2[0].1));
            assert(contains_pair(m1, m2[0].0, m2[0].1));
            assert(false);
        }
        assert(m1 =~= m2);
    } else {
        assert(contains_pair(m1, m1[0].0, m1[0].1));
        assert(contains_pair(m2, m1[0].0, m1[0].1));
        let j = choose|j: int| 0 <= j < m2.len() && m2[j] == (m1[0].0, m1[0].1);
        // the head of m1 is the least key of m2 as well, so j == 0
        if j != 0 {
            assert(lex_lt(m2[0].0, m2[j].0));
            assert(contains_pair(m2, m2[0].0, m2[0].1));
            assert(contains_pair(m1, m2[0].0, m2[0].1));
            let i = choose|i: int| 0 <= i < m1.len() && m1[i] == (m2[0].0, m2[0].1);
            if i == 0 {
                lemma_lex_cmp_eq_iff(m2[0].0, m2[j].0);
            } else {
                assert(lex_lt(m1[0].0, m1[i].0));
                lemma_lex_cmp_antisym(m1[0].0, m1[i].0);
            }
            assert(false);
        }
        assert(m2[0] == m1[0]);
        let t1 = m1.skip(1);
        let t2 = m2.skip(1);
        assert forall|k: Seq<u8>, v: Seq<u8>| contains_pair(t1, k, v) implies contains_pair(
            t2,
            k,
            v,
        ) by {
            let i = choose|i: int| 0 <= i < t1.len() && t1[i] == (k, v);
            assert(m1[i + 1] == (k, v));
            assert(contains_pair(m1, k, v));
            let j2 = choose|j2: int| 0 <= j2 < m2.len() && m2[j2] == (k, v);
            if j2 == 0 {
                // then k is the head key, but it also sits at i + 1 > 0 in m1
                assert(lex_lt(m1[0].0, m1[i + 1].0));
                lemma_lex_cmp_eq_iff(m1[0].0, m1[i + 1].0);
                assert(false);
            }
            assert(t2[j2 - 1] == (k, v));
        }
        assert forall|k: Seq<u8>, v: Seq<u8>| contains_pair(t2, k, v) implies contains_pair(
            t1,
            k,
            v,
        ) by {
            let i = choose|i: int| 0 <= i < t2.len() && t2[i] == (k, v);
            assert(m2[i + 1] == (k, v));
            assert(contains_pair(m2, k, v));
            let j2 = choose|j2: int| 0 <= j2 < m1.len() && m1[j2] == (k, v);
            if j2 == 0 {
                assert(lex_lt(m2[0].0, m2[i + 1].0));
                lemma_lex_cmp_eq_iff(m2[0].0, m2[i + 1].0);
                assert(false);
            }
            assert(t1[j2 - 1] == (k, v));
        }
        lemma_sorted_canonical(t1, t2);
        assert forall|i: int| 0 <= i < m1.len() implies m1[i] == m2[i] by {
            if i > 0 {
                assert(t1[i - 1] == m1[i]);
                assert(t2[i - 1] == m2[i]);
            }
        }
        assert(m1 =~= m2);
    }
}

/// A flat byte-keyed store.
pub struct Store {
    entries: Vec<(Vec<u8>, Vec<u8>)>,
}

impl View for Store {
    type V = Model;

    closed spec fn view(&self) -> Model {
        self.entries@.map(|i: int, e: (Vec<u8>, Vec<u8>)| (e.0@, e.1@))
    }
}

impl Store {
    pub open spec fn wf(&self) -> bool {
        sorted_entries(self@)
    }

    /// The empty store.
    pub fn new() -> (r: Store)
        ensures
            r.wf(),
            r@.len() == 0,
    {
        Store { entries: Vec::new() }
    }

    /// Read the value under a key, or `None` if the key is absent.
    pub fn read(&self, key: &Vec<u8>) -> (r: Option<Vec<u8>>)
        ensures
            match r {
                Some(v) => contains_pair(self@, key@, v@),
                None => !has_key(self@, key@),
            },
    {
        let n = self.entries.len();
        let mut i: usize = 0;
        while i < n
            invariant
                n == self.entries.len(),
                i <= n,
                forall|j: int| 0 <= j < i ==> (#[trigger] self@[j]).0 != key@,
            decreases n - i,
        {
            if bytes_eq(&self.entries[i].0, key) {
                let v = copy_bytes(&self.entries[i].1);
                proof {
                    assert(self@[i as int] == (key@, v@));
                }
                return Some(v);
            }
            i = i + 1;
        }
        None
    }

    /// Whether a key is present.
    pub fn has(&self, key: &Vec<u8>) -> (r: bool)
        ensures
            r == has_key(self@, key@),
    {
        match self.read(key) {
            Some(_) => true,
            None => false,
        }
    }

    /// Position of the first entry whose key is not below `key`.
    fn lower_bound(&self, key: &Vec<u8>) -> (r: usize)
        requires
            self.wf(),
        ensures
            r <= self@.len(),
            forall|j: int| 0 <= j < r ==> lex_lt((#[trigger] self@[j]).0, key@),
            r < self@.len() ==> lex_le(key@, self@[r as int].0),
    {
        let n = self.entries.len();
        let mut i: usize = 0;
        while i < n
            invariant
                n == self.entries.len(),
                i <= n,
                forall|j: int| 0 <= j < i ==> lex_lt((#[trigger] self@[j]).0, key@),
            decreases n - i,
        {
            let c = lex_cmp_bytes(&self.entries[i].0, key);
            proof {
                lemma_lex_cmp_range(self@[i as int].0, key@);
            }
            if c >= 0 {
                proof {
                    lemma_lex_cmp_antisym(self@[i as int].0, key@);
                }
                return i;
            }
            i = i + 1;
        }
        n
    }

    /// Insert or overwrite: after the call the store holds `value` under
    /// `key` and every other key is untouched.
    pub fn write(&mut self, key: &Vec<u8>, value: &Vec<u8>)
        requires
            old(self).wf(),
        ensures
            final(self).wf(),
            contains_pair(final(self)@, key@, value@),
            forall|k2: Seq<u8>|
                #[trigger] has_key(final(self)@, k2) <==> (k2 == key@ || has_key(old(self)@, k2)),
            forall|k2: Seq<u8>, v2: Seq<u8>|
                k2 != key@ ==> (#[trigger] contains_pair(final(self)@, k2, v2) <==> contains_pair(
                    old(self)@,
                    k2,
                    v2,
                )),
    {
        let ghost m = self@;
        let idx = self.lower_bound(key);
        let found = if idx < self.entries.len() {
            bytes_eq(&self.entries[idx].0, key)
        } else {
            false
        };
        if found {
            self.entries.remove(idx);
            self.entries.insert(idx, (copy_bytes(key), copy_bytes(value)));
            proof {
                let m2 = self@;
                assert(m2 =~= m.update(idx as int, (key@, value@)));
                assert forall|i: int, j: int| 0 <= i < j < m2.len() implies lex_lt(
                    (#[trigger] m2[i]).0,
                    (#[trigger] m2[j]).0,
                ) by {
                    assert(m2[i].0 == m[i].0 && m2[j].0 == m[j].0);
                }
                assert(m2[idx as int] == (key@, value@));
                assert forall|k2: Seq<u8>, v2: Seq<u8>|
                    k2 != key@ implies (#[trigger] contains_pair(m2, k2, v2) <==> contains_pair(
                    m,
                    k2,
                    v2,
                )) by {
                    if contains_pair(m2, k2, v2) {
                        let i = choose|i: int| 0 <= i < m2.len() && m2[i] == (k2, v2);
                        assert(i != idx);
                        assert(m[i] == (k2, v2));
                    }
                    if contains_pair(m, k2, v2) {
                        let i = choose|i: int| 0 <= i < m.len() && m[i] == (k2, v2);
                        assert(i != idx);
                        assert(m2[i] == (k2, v2));
                    }
                }
                assert forall|k2: Seq<u8>|
                    #[trigger] has_key(m2, k2) <==> (k2 == key@ || has_key(m, k2)) by {
                    if has_key(m2, k2) && k2 != key@ {
                        let i = choose|i: int| 0 <= i < m2.len() && m2[i].0 == k2;
                        assert(i != idx);
                        assert(m[i].0 == k2);
                    }
                    if k2 == key@ {
                        assert(m2[idx as int].0 == k2);
                    }
                    if has_key(m, k2) && k2 != key@ {
                        let i = choose|i: int| 0 <= i < m.len() && m[i].0 == k2;
                        assert(i != idx);
                        assert(m2[i].0 == k2);
                    }
                }
            }
        } else {
            self.entries.insert(idx, (copy_bytes(key), copy_bytes(value)));
            proof {
                let m2 = self@;
                assert(m2 =~= m.insert(idx as int, (key@, value@)));
                // the new key is strictly between its neighbours
                assert(idx < m.len() ==> lex_lt(key@, m[idx as int].0)) by {
                    if idx < m.len() {
                        lemma_lex_cmp_eq_iff(key@, m[idx as int].0);
                        lemma_lex_cmp_range(key@, m[idx as int].0);
                    }
                }
                assert forall|i: int, j: int| 0 <= i < j < m2.len() implies lex_lt(
                    (#[trigger] m2[i]).0,
                    (#[trigger] m2[j]).0,
                ) by {
                    let pi = if i < idx {
                        m2[i].0 == m[i].0
                    } else if i == idx {
                        m2[i].0 == key@
                    } else {
                        m2[i].0 == m[i - 1].0
                    };
                    assert(pi);
                    if i < idx && j == idx {
                    } else if i == idx && j > idx {
                        if j - 1 > idx {
                            lemma_lex_lt_trans(key@, m[idx as int].0, m[j - 1].0);
                        }
                    } else if i < idx && j > idx {
                        if j - 1 == idx {
                            // m2[j] is the entry that sat at idx
                        } else {
                        }
                    } else {
                    }
                }
                assert(m2[idx as int] == (key@, value@));
                assert forall|k2: Seq<u8>, v2: Seq<u8>|
                    k2 != key@ implies (#[trigger] contains_pair(m2, k2, v2) <==> contains_pair(
                    m,
                    k2,
                    v2,
                )) by {
                    if contains_pair(m2, k2, v2) {
                        let i = choose|i: int| 0 <= i < m2.len() && m2[i] == (k2, v2);
                        assert(i != idx);
                        if i < idx {
                            assert(m[i] == (k2, v2));
                        } else {
                            assert(m[i - 1] == (k2, v2));
                        }
                    }
                    if contains_pair(m, k2, v2) {
                        let i = choose|i: int| 0 <= i < m.len() && m[i] == (k2, v2);
                        if i < idx {
                            assert(m2[i] == (k2, v2));
                        } else {
                            assert(m2[i + 1] == (k2, v2));
                        }
                    }
                }
                assert forall|k2: Seq<u8>|
                    #[trigger] has_key(m2, k2) <==> (k2 == key@ || has_key(m, k2)) by {
                    if has_key(m2, k2) && k2 != key@ {
                        let i = choose|i: int| 0 <= i < m2.len() && m2[i].0 == k2;
                        assert(i != idx);
                        if i < idx {
                            assert(m[i].0 == k2);
                        } else {
                            assert(m[i - 1].0 == k2);
                        }
                    }
                    if k2 == key@ {
                        assert(m2[idx as int].0 == k2);
                    }
                    if has_key(m, k2) && k2 != key@ {
                        let i = choose|i: int| 0 <= i < m.len() && m[i].0 == k2;
                        if i < idx {
                            assert(m2[i].0 == k2);
                        } else {
                            assert(m2[i + 1].0 == k2);
                        }
                    }
                }
            }
        }
    }

    /// Remove a key; a no-op when the key is absent.
    pub fn remove(&mut self, key: &Vec<u8>)
        requires
            old(self).wf(),
        ensures
            final(self).wf(),
            !has_key(final(self)@, key@),
            forall|k2: Seq<u8>|
                #[trigger] has_key(final(self)@, k2) <==> (k2 != key@ && has_key(old(self)@, k2)),
            forall|k2: Seq<u8>, v2: Seq<u8>|
                k2 != key@ ==> (#[trigger] contains_pair(final(self)@, k2, v2) <==> contains_pair(
                    old(self)@,
                    k2,
                    v2,
                )),
    {
        let ghost m = self@;
        let idx = self.lower_bound(key);
        let found = if idx < self.entries.len() {
            bytes_eq(&self.entries[idx].0, key)
        } else {
            false
        };
        if !found {
            proof {
                // key is absent: entries before idx are below it, the one at
                // idx (if any) is strictly above it, later ones more so
                assert forall|i: int| 0 <= i < m.len() implies (#[trigger] m[i]).0 != key@ by {
                    if i < idx {
                        lemma_lex_cmp_eq_iff(m[i].0, key@);
                    } else {
                        lemma_lex_cmp_eq_iff(key@, m[i].0);
                        if i > idx {
                            assert(lex_lt(m[idx as int].0, m[i].0));
                            lemma_lex_cmp_eq_iff(key@, m[idx as int].0);
                            lemma_lex_cmp_range(key@, m[idx as int].0);
                            lemma_lex_lt_trans(key@, m[idx as int].0, m[i].0);
                        }
                    }
                }
            }
            return;
        }
        self.entries.remove(idx);
        proof {
            let m2 = self@;
            assert(m2 =~= m.remove(idx as int));
            assert forall|i: int, j: int| 0 <= i < j < m2.len() implies lex_lt(
                (#[trigger] m2[i]).0,
                (#[trigger] m2[j]).0,
            ) by {
                let i0: int = if i < idx { i } else { i + 1 };
                let j0: int = if j < idx { j } else { j + 1 };
                assert(m2[i].0 == m[i0].0 && m2[j].0 == m[j0].0);
            }
            assert forall|k2: Seq<u8>, v2: Seq<u8>|
                k2 != key@ implies (#[trigger] contains_pair(m2, k2, v2) <==> contains_pair(
                m,
                k2,
                v2,
            )) by {
                if contains_pair(m2, k2, v2) {
                    let i = choose|i: int| 0 <= i < m2.len() && m2[i] == (k2, v2);
                    if i < idx {
                        assert(m[i] == (k2, v2));
                    } else {
                        assert(m[i + 1] == (k2, v2));
                    }
                }
                if contains_pair(m, k2, v2) {
                    let i = choose|i: int| 0 <= i < m.len() && m[i] == (k2, v2);
                    assert(i != idx);
                    if i < idx {
                        assert(m2[i] == (k2, v2));
                    } else {
                        assert(m2[i - 1] == (k2, v2));
                    }
                }
            }
            assert forall|k2: Seq<u8>|
                #[trigger] has_key(m2, k2) <==> (k2 != key@ && has_key(m, k2)) by {
                if has_key(m2, k2) {
                    let i = choose|i: int| 0 <= i < m2.len() && m2[i].0 == k2;
                    let i0: int = if i < idx { i } else { i + 1 };
                    assert(m[i0].0 == k2);
                    if k2 == key@ {
                        assert(m[idx as int].0 == k2);
                        assert(i0 != idx);
                        lemma_lex_cmp_eq_iff(m[i0].0, m[idx as int].0);
                    }
                }
                if k2 != key@ && has_key(m, k2) {
                    let i = choose|i: int| 0 <= i < m.len() && m[i].0 == k2;
                    assert(i != idx);
                    if i < idx {
                        assert(m2[i].0 == k2);
                    } else {
                        assert(m2[i - 1].0 == k2);
                    }
                }
            }
        }
    }

    /// The number of entries.
    pub fn len(&self) -> (r: usize)
        ensures
            r == self@.len(),
    {
        self.entries.len()
    }

    /// The entry at a position, by ascending key order.
    pub fn entry_at(&self, i: usize) -> (r: (Vec<u8>, Vec<u8>))
        requires
            i < self@.len(),
        ensures
            (r.0@, r.1@) == self@[i as int],
    {
        let e = &self.entries[i];
        (copy_bytes(&e.0), copy_bytes(&e.1))
    }
}

impl Store {
    /// A deep copy with the same model: the caller's point snapshot.
    pub fn snapshot(&self) -> (r: Store)
        ensures
            r@ == self@,
    {
        let mut entries: Vec<(Vec<u8>, Vec<u8>)> = Vec::new();
        let n = self.entries.len();
        let mut i: usize = 0;
        while i < n
            invariant
                n == self.entries.len(),
                i <= n,
                entries@.len() == i,
                forall|j: int|
                    0 <= j < i ==> ((#[trigger] entries@[j]).0@, entries@[j].1@) == self@[j],
            decreases n - i,
        {
            let e = &self.entries[i];
            entries.push((copy_bytes(&e.0), copy_bytes(&e.1)));
            i = i + 1;
        }
        let r = Store { entries };
        proof {
            assert(r@ =~= self@);
        }
        r
    }
}

} // verus!
