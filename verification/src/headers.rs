//! An ordered association of header names to values with unique
//! names. The request side stores lower-cased names so that lookups
//! are case-insensitive; the response side stores names as given.

use crate::bytes::bytes_eq;
use vstd::prelude::*;

verus! {

/// How a mapping after an insert of `v` under `k` relates to the
/// one before: entries updated in place or appended, the value read
/// back under `k`, and every other name unchanged.
pub open spec fn spec_inserted(pre: HeaderMap, k: Seq<u8>, v: Seq<u8>, post: HeaderMap) -> bool {
    &&& post.wf()
    &&& post.entries() == if pre.spec_contains(k) {
        pre.entries().update(pre.spec_index_of(k), (k, v))
    } else {
        pre.entries().push((k, v))
    }
    &&& post.spec_get(k) == Some(v)
    &&& forall|k2: Seq<u8>| k2 != k ==> post.spec_get(k2) == pre.spec_get(k2)
}

/// A header mapping: names are unique; insertion order is kept for
/// rendering. Later insertions of an existing name overwrite the
/// value in place.
pub struct HeaderMap {
    names: Vec<Vec<u8>>,
    values: Vec<Vec<u8>>,
}

impl HeaderMap {
    /// Well-formedness: one value per name, names unique.
    pub closed spec fn wf(self) -> bool {
        &&& self.names.len() == self.values.len()
        &&& forall|i: int, j: int|
            0 <= i < j < self.names.len() ==> self.names@[i]@ != self.names@[j]@
    }

    /// The entries in insertion order, as (name, value) pairs.
    pub closed spec fn entries(self) -> Seq<(Seq<u8>, Seq<u8>)> {
        Seq::new(self.names.len() as nat, |i: int| (self.names@[i]@, self.values@[i]@))
    }

    /// Whether some entry has the name `k`.
    pub open spec fn spec_contains(self, k: Seq<u8>) -> bool {
        exists|i: int| 0 <= i < self.entries().len() && self.entries()[i].0 == k
    }

    /// The index of the entry named `k`, unique when `wf()` holds.
    pub open spec fn spec_index_of(self, k: Seq<u8>) -> int {
        choose|i: int| 0 <= i < self.entries().len() && self.entries()[i].0 == k
    }

    /// The value stored under `k`, or `None`.
    pub open spec fn spec_get(self, k: Seq<u8>) -> Option<Seq<u8>> {
        if self.spec_contains(k) {
            Some(self.entries()[self.spec_index_of(k)].1)
        } else {
            None
        }
    }

    /// An empty mapping.
    pub fn new() -> (r: HeaderMap)
        ensures
            r.wf(),
            r.entries() =~= Seq::empty(),
            forall|k: Seq<u8>| r.spec_get(k) is None,
    {
        let r = HeaderMap { names: Vec::new(), values: Vec::new() };
        proof {
            assert(r.entries() =~= Seq::<(Seq<u8>, Seq<u8>)>::empty());
        }
        r
    }

    /// Number of entries.
    pub fn len(&self) -> (r: usize)
        requires
            self.wf(),
        ensures
            r == self.entries().len(),
    {
        self.names.len()
    }

    /// The name of entry `i`.
    pub fn name_at(&self, i: usize) -> (r: &Vec<u8>)
        requires
            self.wf(),
            i < self.entries().len(),
        ensures
            r@ == self.entries()[i as int].0,
    {
        &self.names[i]
    }

    /// The value of entry `i`.
    pub fn value_at(&self, i: usize) -> (r: &Vec<u8>)
        requires
            self.wf(),
            i < self.entries().len(),
        ensures
            r@ == self.entries()[i as int].1,
    {
        &self.values[i]
    }

    /// The index holding name `key`, or the number of entries when
    /// `key` is absent.
    fn find_key(&self, key: &Vec<u8>) -> (r: usize)
        requires
            self.wf(),
        ensures
            r <= self.entries().len(),
            r < self.entries().len() ==> self.entries()[r as int].0 == key@,
            forall|i: int| 0 <= i < r ==> self.entries()[i].0 != key@,
            r < self.entries().len() <==> self.spec_contains(key@),
            r < self.entries().len() ==> r == self.spec_index_of(key@),
    {
        let mut i: usize = 0;
        while i < self.names.len()
            invariant
                self.wf(),
                i <= self.names.len(),
                forall|k: int| 0 <= k < i ==> self.entries()[k].0 != key@,
            decreases self.names.len() - i,
        {
            if bytes_eq(&self.names[i], key) {
                proof {
                    assert(self.entries()[i as int].0 == key@);
                    assert(self.spec_contains(key@));
                    let j = self.spec_index_of(key@);
                    if j != i {
                        assert(self.entries()[j].0 == self.entries()[i as int].0);
                        assert(false);
                    }
                }
                return i;
            }
            i = i + 1;
        }
        proof {
            if self.spec_contains(key@) {
                let j = self.spec_index_of(key@);
                assert(self.entries()[j].0 != key@);
            }
        }
        i
    }

    /// Looks up the value stored under exactly the name `key`.
    pub fn get(&self, key: &Vec<u8>) -> (r: Option<&Vec<u8>>)
        requires
            self.wf(),
        ensures
            match r {
                Some(v) => self.spec_get(key@) == Some(v@),
                None => self.spec_get(key@) is None,
            },
    {
        let i = self.find_key(key);
        if i < self.names.len() {
            Some(&self.values[i])
        } else {
            None
        }
    }

    /// Inserts `value` under `key`, overwriting in place when `key`
    /// is already present and appending otherwise.
    pub fn insert(&mut self, key: Vec<u8>, value: Vec<u8>)
        requires
            old(self).wf(),
        ensures
            spec_inserted(*old(self), key@, value@, *final(self)),
    {
        let idx = self.find_key(&key);
        let ghost pre = *self;
        if idx < self.names.len() {
            self.values.push(value);
            let _replaced = self.values.swap_remove(idx);
            proof {
                assert(self.entries() =~= pre.entries().update(idx as int, (key@, value@)));
            }
        } else {
            self.names.push(key);
            self.values.push(value);
            proof {
                assert(self.entries() =~= pre.entries().push((key@, value@)));
            }
        }
        proof {
            self.lemma_insert_post(pre, key@, value@, idx as int);
        }
    }

    /// After an in-place update or an append of `(k, v)` at `idx`,
    /// the mapping reads back `v` under `k` and is unchanged
    /// elsewhere.
    proof fn lemma_insert_post(self, pre: HeaderMap, k: Seq<u8>, v: Seq<u8>, idx: int)
        requires
            pre.wf(),
            0 <= idx <= pre.entries().len(),
            idx < pre.entries().len() ==> pre.entries()[idx].0 == k,
            forall|i: int| 0 <= i < idx ==> pre.entries()[i].0 != k,
            self.entries() == if idx < pre.entries().len() {
                pre.entries().update(idx, (k, v))
            } else {
                pre.entries().push((k, v))
            },
            self.names.len() == self.values.len(),
        ensures
            self.wf(),
            self.spec_get(k) == Some(v),
            forall|k2: Seq<u8>| k2 != k ==> self.spec_get(k2) == pre.spec_get(k2),
    {
        let es = self.entries();
        let pes = pre.entries();
        assert(forall|i: int| 0 <= i < pes.len() ==> pes[i].0 == pre.names@[i]@);
        assert forall|i: int, j: int|
            0 <= i < j < self.names.len() implies self.names@[i]@ != self.names@[j]@ by {
            assert(self.names@[i]@ == es[i].0);
            assert(self.names@[j]@ == es[j].0);
            if j < pes.len() {
                assert(es[i].0 == pes[i].0 || (i == idx && es[i].0 == k));
                assert(es[j].0 == pes[j].0 || (j == idx && es[j].0 == k));
                assert(pes[i].0 != pes[j].0);
            } else {
                assert(es[j].0 == k);
                assert(es[i].0 == pes[i].0);
            }
        }
        assert(self.wf());
        assert(es[idx].0 == k);
        assert(self.spec_contains(k));
        let ci = self.spec_index_of(k);
        if ci != idx {
            assert(es[ci].0 == es[idx].0);
            assert(false);
        }
        assert(self.spec_get(k) == Some(v));
        assert forall|k2: Seq<u8>| k2 != k implies self.spec_get(k2) == pre.spec_get(k2) by {
            if self.spec_contains(k2) {
                let i = self.spec_index_of(k2);
                assert(es[i].0 == k2);
                assert(i != idx);
                assert(pes[i] == es[i]);
                assert(pre.spec_contains(k2));
                let pi = pre.spec_index_of(k2);
                if pi != i {
                    assert(pes[pi].0 == pes[i].0);
                    assert(false);
                }
            } else {
                if pre.spec_contains(k2) {
                    let pi = pre.spec_index_of(k2);
                    assert(pes[pi].0 == k2);
                    assert(es[pi].0 == k2);
                    assert(self.spec_contains(k2));
                    assert(false);
                }
            }
        }
    }
}

} // verus!
