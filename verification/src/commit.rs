//! Versioned commits over the flat store. Each commit applies a write set,
//! snapshots the resulting state under the next version number, and records
//! the state's root digest. Older versions stay addressable, and the root is
//! a function of nothing but the live key-value set.

use vstd::prelude::*;
use crate::store::{Store, Model, sorted_entries, has_key, contains_pair, lemma_sorted_canonical};
use crate::hashing::sha256_of;
use crate::bytes_util::spec_be;

verus! {

/// Canonical encoding of the live set: every entry in ascending key order,
/// each key and value prefixed by its length in eight big-endian bytes.
pub open spec fn enc_entries(m: Model) -> Seq<u8>
    decreases m.len(),
{
    if m.len() == 0 {
        Seq::empty()
    } else {
        enc_entries(m.drop_last()) + spec_be(m.last().0.len() as nat, 8) + m.last().0 + spec_be(
            m.last().1.len() as nat,
            8,
        ) + m.last().1
    }
}

/// The root digest of a state: the digest of its canonical encoding.
pub open spec fn root_of(m: Model) -> Seq<u8> {
    sha256_of(enc_entries(m))
}

/// The root is a pure function of the live key-value set: two states holding
/// exactly the same pairs have the same root, no matter by which sequence of
/// writes each was reached.
pub proof fn lemma_root_pure(m1: Model, m2: Model)
    requires
        sorted_entries(m1),
        sorted_entries(m2),
        forall|k: Seq<u8>, v: Seq<u8>| contains_pair(m1, k, v) <==> contains_pair(m2, k, v),
    ensures
        root_of(m1) == root_of(m2),
{
    lemma_sorted_canonical(m1, m2);
}

/// One record of a write set: `None` deletes the key.
pub type WriteOp = (Vec<u8>, Option<Vec<u8>>);

/// The effect of a write set applied in order, described pointwise: the last
/// operation on a key wins.
pub open spec fn write_set_value(
    ws: Seq<(Seq<u8>, Option<Seq<u8>>)>,
    k: Seq<u8>,
) -> Option<Option<Seq<u8>>>
    decreases ws.len(),
{
    if ws.len() == 0 {
        None
    } else if ws.last().0 == k {
        Some(ws.last().1)
    } else {
        write_set_value(ws.drop_last(), k)
    }
}

pub open spec fn write_op_view(w: WriteOp) -> (Seq<u8>, Option<Seq<u8>>) {
    (
        w.0@,
        match w.1 {
            Some(v) => Some(v@),
            None => None,
        },
    )
}

pub open spec fn write_set_view(ws: Seq<WriteOp>) -> Seq<(Seq<u8>, Option<Seq<u8>>)> {
    ws.map(|i: int, w: WriteOp| write_op_view(w))
}

/// How one write or removal relates the store before it to the store after
/// it, pointwise. This is exactly what `Store::write` / `Store::remove`
/// promise.
pub open spec fn wrote(pre: Model, post: Model, k0: Seq<u8>, ov: Option<Seq<u8>>) -> bool {
    &&& match ov {
        Some(v) => {
            &&& contains_pair(post, k0, v)
            &&& forall|k: Seq<u8>| #[trigger] has_key(post, k) <==> (k == k0 || has_key(pre, k))
        },
        None => {
            &&& !has_key(post, k0)
            &&& forall|k: Seq<u8>| #[trigger] has_key(post, k) <==> (k != k0 && has_key(pre, k))
        },
    }
    &&& forall|k: Seq<u8>, v: Seq<u8>|
        k != k0 ==> (#[trigger] contains_pair(post, k, v) <==> contains_pair(pre, k, v))
}

/// The store `cur` is `base` overlaid with the write set `ws`, the last
/// operation per key winning; keys the set never touches are unchanged.
pub open spec fn batch_ok(ws: Seq<(Seq<u8>, Option<Seq<u8>>)>, base: Model, cur: Model) -> bool {
    forall|k: Seq<u8>|
        match #[trigger] write_set_value(ws, k) {
            Some(Some(v)) => contains_pair(cur, k, v),
            Some(None) => !has_key(cur, k),
            None => {
                &&& (has_key(cur, k) <==> has_key(base, k))
                &&& forall|v: Seq<u8>|
                    #![trigger contains_pair(cur, k, v)]
                    contains_pair(cur, k, v) <==> contains_pair(base, k, v)
            },
        }
}

/// Applying one more operation keeps the overlay description.
proof fn lemma_batch_step(
    ws: Seq<(Seq<u8>, Option<Seq<u8>>)>,
    base: Model,
    pre: Model,
    post: Model,
    k0: Seq<u8>,
    ov: Option<Seq<u8>>,
)
    requires
        batch_ok(ws, base, pre),
        wrote(pre, post, k0, ov),
    ensures
        batch_ok(ws.push((k0, ov)), base, post),
{
    let ws2 = ws.push((k0, ov));
    assert(ws2.drop_last() =~= ws);
    assert forall|k: Seq<u8>|
        match #[trigger] write_set_value(ws2, k) {
            Some(Some(v)) => contains_pair(post, k, v),
            Some(None) => !has_key(post, k),
            None => {
                &&& (has_key(post, k) <==> has_key(base, k))
                &&& forall|v: Seq<u8>|
                    #![trigger contains_pair(post, k, v)]
                    contains_pair(post, k, v) <==> contains_pair(base, k, v)
            },
        } by {
        if k == k0 {
            assert(write_set_value(ws2, k) == Some(match ov {
                Some(v) => Some(v),
                None => None,
            }));
        } else {
            assert(write_set_value(ws2, k) == write_set_value(ws, k));
            match write_set_value(ws, k) {
                Some(Some(v)) => {
                    assert(contains_pair(pre, k, v));
                    assert(contains_pair(post, k, v));
                },
                Some(None) => {
                    assert(!has_key(pre, k));
                    if has_key(post, k) {
                        assert(false);
                    }
                },
                None => {
                    assert(has_key(post, k) <==> has_key(pre, k));
                },
            }
        }
    }
}

/// The store with versioned commits: the working state, plus one snapshot
/// and root per committed version.
pub struct VersionedStore {
    latest: Store,
    snapshots: Vec<Store>,
    roots: Vec<Vec<u8>>,
}

impl VersionedStore {
    pub closed spec fn wf(&self) -> bool {
        &&& self.latest.wf()
        &&& self.snapshots@.len() == self.roots@.len()
        &&& forall|i: int|
            0 <= i < self.snapshots@.len() ==> (#[trigger] self.snapshots@[i]).wf()
        &&& forall|i: int|
            0 <= i < self.snapshots@.len() ==> (#[trigger] self.roots@[i])@ == root_of(
                self.snapshots@[i]@,
            )
    }

    /// The working (not yet committed) state.
    pub closed spec fn spec_latest(&self) -> Model {
        self.latest@
    }

    /// Number of committed versions.
    pub closed spec fn spec_num_versions(&self) -> nat {
        self.snapshots@.len()
    }

    /// The state as of version `v`.
    pub closed spec fn spec_at(&self, v: int) -> Model {
        self.snapshots@[v]@
    }

    pub fn new() -> (r: VersionedStore)
        ensures
            r.wf(),
            r.spec_latest().len() == 0,
            r.spec_num_versions() == 0,
    {
        VersionedStore { latest: Store::new(), snapshots: Vec::new(), roots: Vec::new() }
    }

    pub fn num_versions(&self) -> (r: usize)
        ensures
            r == self.spec_num_versions(),
    {
        self.snapshots.len()
    }

    /// Apply a write set to the working state in order and commit the result
    /// as the next version. Returns the new root and the version number.
    /// Every previously committed version is left exactly as it was.
    pub fn commit(&mut self, writes: &Vec<WriteOp>) -> (r: (Vec<u8>, usize))
        requires
            old(self).wf(),
        ensures
            final(self).wf(),
            r.1 == old(self).spec_num_versions(),
            final(self).spec_num_versions() == old(self).spec_num_versions() + 1,
            // the new version is the committed working state
            final(self).spec_at(r.1 as int) == final(self).spec_latest(),
            r.0@ == root_of(final(self).spec_latest()),
            // older versions remain addressable, untouched
            forall|i: int|
                0 <= i < old(self).spec_num_versions() ==> final(self).spec_at(i) == old(
                    self,
                ).spec_at(i),
            // the committed state is the old working state overlaid with the
            // write set, last operation per key winning
            batch_ok(write_set_view(writes@), old(self).spec_latest(), final(self).spec_latest()),
    {
        let n = writes.len();
        let mut i: usize = 0;
        while i < n
            invariant
                n == writes@.len(),
                i <= n,
                self.latest.wf(),
                self.snapshots@ == old(self).snapshots@,
                self.roots@ == old(self).roots@,
                batch_ok(write_set_view(writes@.take(i as int)), old(self).latest@, self.latest@),
            decreases n - i,
        {
            let ghost pre = self.latest@;
            let ghost opv = write_op_view(writes@[i as int]);
            match &writes[i].1 {
                Some(v) => {
                    let key = &writes[i].0;
                    self.latest.write(key, v);
                },
                None => {
                    let key = &writes[i].0;
                    self.latest.remove(key);
                },
            }
            proof {
                assert(wrote(pre, self.latest@, opv.0, opv.1));
                lemma_batch_step(
                    write_set_view(writes@.take(i as int)),
                    old(self).latest@,
                    pre,
                    self.latest@,
                    opv.0,
                    opv.1,
                );
                assert(writes@.take(i + 1).drop_last() =~= writes@.take(i as int));
                assert(write_set_view(writes@.take(i + 1)) =~= write_set_view(
                    writes@.take(i as int),
                ).push(opv));
            }
            i = i + 1;
        }
        proof {
            assert(writes@.take(n as int) =~= writes@);
        }
        let root = self.compute_root();
        let version = self.snapshots.len();
        let snap = self.latest.snapshot();
        self.snapshots.push(snap);
        self.roots.push(crate::bytes_util::copy_bytes(&root));
        (root, version)
    }

    /// The root of a committed version.
    pub fn root_at(&self, version: usize) -> (r: Vec<u8>)
        requires
            self.wf(),
            version < self.spec_num_versions(),
        ensures
            r@ == root_of(self.spec_at(version as int)),
    {
        crate::bytes_util::copy_bytes(&self.roots[version])
    }

    /// Read a key as of a committed version: exactly the state the commit
    /// left behind.
    pub fn query_at(&self, version: usize, key: &Vec<u8>) -> (r: Option<Vec<u8>>)
        requires
            self.wf(),
            version < self.spec_num_versions(),
        ensures
            match r {
                Some(v) => contains_pair(self.spec_at(version as int), key@, v@),
                None => !has_key(self.spec_at(version as int), key@),
            },
    {
        self.snapshots[version].read(key)
    }

    /// Read a key from the working state.
    pub fn read_latest(&self, key: &Vec<u8>) -> (r: Option<Vec<u8>>)
        ensures
            match r {
                Some(v) => contains_pair(self.spec_latest(), key@, v@),
                None => !has_key(self.spec_latest(), key@),
            },
    {
        self.latest.read(key)
    }

    /// Digest of the canonical encoding of the working state.
    fn compute_root(&self) -> (r: Vec<u8>)
        ensures
            r@ == root_of(self.latest@),
    {
        let n = self.latest.len();
        let mut buf: Vec<u8> = Vec::new();
        let mut i: usize = 0;
        while i < n
            invariant
                n == self.latest@.len(),
                i <= n,
                buf@ =~= enc_entries(self.latest@.take(i as int)),
            decreases n - i,
        {
            let (k, v) = self.latest.entry_at(i);
            let klen = crate::bytes_util::u64_to_be(k.len() as u64);
            append_bytes(&mut buf, &klen);
            append_bytes(&mut buf, &k);
            let vlen = crate::bytes_util::u64_to_be(v.len() as u64);
            append_bytes(&mut buf, &vlen);
            append_bytes(&mut buf, &v);
            proof {
                assert(self.latest@.take(i + 1).drop_last() =~= self.latest@.take(i as int));
                assert(self.latest@.take(i + 1).last() == self.latest@[i as int]);
            }
            i = i + 1;
        }
        proof {
            assert(self.latest@.take(n as int) =~= self.latest@);
        }
        crate::hashing::hash_bytes(&buf)
    }
}

/// Append `src` to `dst`.
pub fn append_bytes(dst: &mut Vec<u8>, src: &Vec<u8>)
    ensures
        final(dst)@ == old(dst)@ + src@,
{
    let mut i: usize = 0;
    while i < src.len()
        invariant
            i <= src@.len(),
            dst@ =~= old(dst)@ + src@.subrange(0, i as int),
        decreases src@.len() - i,
    {
        dst.push(src[i]);
        i = i + 1;
    }
    proof {
        assert(src@.subrange(0, src@.len() as int) =~= src@);
        assert(dst@ =~= old(dst)@ + src@);
    }
}

} // verus!
