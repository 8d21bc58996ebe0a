//! A reference-counted, hash-addressed blob store held in memory.
use vstd::prelude::*;
use crate::bytes::{compare, copy_bytes, lemma_lex_trans, lex_lt};
use crate::hash::{keccak, keccak_of};
use crate::keymap::{
    lemma_absent, lemma_map_of_at, lemma_map_of_insert, lemma_map_of_not_in, lemma_map_of_remove,
    lemma_map_of_update, lemma_sorted_distinct, lemma_sorted_insert, lemma_sorted_remove, map_of,
    sorted,
};

verus! {

/// A reference count after one more reference: it stops at the largest `u64`.
pub open spec fn bumped(n: nat) -> nat {
    if n < u64::MAX {
        n + 1
    } else {
        n
    }
}

/// One stored blob with its address and reference count.
struct DbEntry {
    key: Vec<u8>,
    value: Vec<u8>,
    refs: u64,
}

/// The in-memory store: each address maps to a blob and a reference count of
/// at least one; an address whose count drops to zero is gone. Entries are
/// kept sorted by address.
pub struct MemoryDB {
    entries: Vec<DbEntry>,
}

spec fn entry_model(e: DbEntry) -> (Seq<u8>, (Seq<u8>, nat)) {
    (e.key@, (e.value@, e.refs as nat))
}

impl View for MemoryDB {
    type V = Map<Seq<u8>, (Seq<u8>, nat)>;

    closed spec fn view(&self) -> Map<Seq<u8>, (Seq<u8>, nat)> {
        map_of(self.model())
    }
}

impl MemoryDB {
    closed spec fn model(&self) -> Seq<(Seq<u8>, (Seq<u8>, nat))> {
        self.entries@.map_values(|e: DbEntry| entry_model(e))
    }

    /// The store's internal invariant.
    pub closed spec fn wf(&self) -> bool {
        &&& sorted(self.model())
        &&& forall|i: int| 0 <= i < self.entries@.len() ==> self.entries@[i].refs >= 1
    }

    /// An empty store.
    pub fn new() -> (r: MemoryDB)
        ensures
            r.wf(),
            r@ == Map::<Seq<u8>, (Seq<u8>, nat)>::empty(),
    {
        let r = MemoryDB { entries: Vec::new() };
        assert(r.model() =~= Seq::empty());
        r
    }

    /// Where `key` stands among the sorted addresses: the first position
    /// whose address is not below it, and whether the address there is `key`.
    fn find(&self, key: &[u8]) -> (r: (usize, bool))
        requires
            self.wf(),
        ensures
            r.0 <= self.entries@.len(),
            forall|j: int| 0 <= j < r.0 ==> lex_lt(#[trigger] self.model()[j].0, key@),
            r.1 ==> r.0 < self.entries@.len() && self.entries@[r.0 as int].key@ == key@
                && self@.contains_key(key@) && self@[key@] == entry_model(
                self.entries@[r.0 as int],
            ).1,
            !r.1 ==> !self@.contains_key(key@),
            !r.1 && r.0 < self.entries@.len() ==> lex_lt(key@, self.model()[r.0 as int].0),
    {
        let ghost m = self.model();
        let mut lo: usize = 0;
        let mut hi: usize = self.entries.len();
        while lo < hi
            invariant
                self.wf(),
                m == self.model(),
                lo <= hi <= self.entries@.len(),
                forall|j: int| 0 <= j < lo ==> lex_lt(#[trigger] m[j].0, key@),
                forall|j: int| hi <= j < self.entries@.len() ==> !lex_lt(#[trigger] m[j].0, key@),
            decreases hi - lo,
        {
            let mid = lo + (hi - lo) / 2;
            let c = compare(self.entries[mid].key.as_slice(), key);
            assert(m[mid as int] == entry_model(self.entries@[mid as int]));
            if c < 0 {
                proof {
                    assert forall|j: int| 0 <= j < mid + 1 implies lex_lt(#[trigger] m[j].0, key@) by {
                        if j < mid {
                            lemma_lex_trans(m[j].0, m[mid as int].0, key@);
                        }
                    }
                }
                lo = mid + 1;
            } else {
                proof {
                    assert forall|j: int| mid <= j < self.entries@.len() implies !lex_lt(
                        #[trigger] m[j].0,
                        key@,
                    ) by {
                        if j > mid && lex_lt(m[j].0, key@) {
                            lemma_lex_trans(m[mid as int].0, m[j].0, key@);
                        }
                    }
                }
                hi = mid;
            }
        }
        proof {
            lemma_sorted_distinct(m);
        }
        if lo < self.entries.len() {
            let c = compare(self.entries[lo].key.as_slice(), key);
            assert(m[lo as int] == entry_model(self.entries@[lo as int]));
            if c == 0 {
                proof {
                    lemma_map_of_at(m, lo as int);
                }
                return (lo, true);
            }
        }
        proof {
            lemma_absent(m, lo as int, key@);
            lemma_map_of_not_in(m, key@);
        }
        (lo, false)
    }

    /// Whether a blob is stored under `key`.
    pub fn contains(&self, key: &[u8]) -> (r: bool)
        requires
            self.wf(),
        ensures
            r == self@.contains_key(key@),
    {
        self.find(key).1
    }

    /// The blob stored under `key`, if any.
    pub fn get(&self, key: &[u8]) -> (r: Option<Vec<u8>>)
        requires
            self.wf(),
        ensures
            r.is_some() == self@.contains_key(key@),
            r.is_some() ==> r.unwrap()@ == self@[key@].0,
    {
        let (i, found) = self.find(key);
        if found {
            Some(copy_bytes(self.entries[i].value.as_slice()))
        } else {
            None
        }
    }

    /// The reference count of the blob under `key`; zero when there is none.
    pub fn refs(&self, key: &[u8]) -> (r: u64)
        requires
            self.wf(),
        ensures
            self@.contains_key(key@) ==> r == self@[key@].1,
            !self@.contains_key(key@) ==> r == 0,
    {
        let (i, found) = self.find(key);
        if found {
            self.entries[i].refs
        } else {
            0
        }
    }

    /// Stores `value` under the caller-supplied address `key` and counts one
    /// more reference to it. The caller vouches for the address.
    pub fn emplace(&mut self, key: Vec<u8>, value: Vec<u8>)
        requires
            old(self).wf(),
        ensures
            final(self).wf(),
            final(self)@ == old(self)@.insert(
                key@,
                (
                    value@,
                    if old(self)@.contains_key(key@) {
                        bumped(old(self)@[key@].1)
                    } else {
                        1
                    },
                ),
            ),
    {
        let ghost m0 = self.model();
        let (i, found) = self.find(key.as_slice());
        proof {
            lemma_sorted_distinct(m0);
        }
        if found {
            let e = self.entries.remove(i);
            let refs = if e.refs < u64::MAX {
                e.refs + 1
            } else {
                e.refs
            };
            let ne = DbEntry { key: e.key, value, refs };
            self.entries.insert(i, ne);
            proof {
                assert(self.model() =~= m0.update(i as int, (m0[i as int].0, (value@, refs as nat))));
                lemma_map_of_update(m0, i as int, (value@, refs as nat));
                assert forall|a: int, b: int| 0 <= a < b < self.model().len() implies lex_lt(
                    #[trigger] self.model()[a].0,
                    #[trigger] self.model()[b].0,
                ) by {
                    assert(lex_lt(m0[a].0, m0[b].0));
                }
            }
        } else {
            let ghost k = key@;
            let ghost v = value@;
            self.entries.insert(i, DbEntry { key, value, refs: 1 });
            proof {
                assert(self.model() =~= m0.insert(i as int, (k, (v, 1nat))));
                lemma_absent(m0, i as int, k);
                lemma_map_of_insert(m0, i as int, (k, (v, 1nat)));
                lemma_sorted_insert(m0, i as int, (k, (v, 1nat)));
            }
        }
    }

    /// Stores `value` under its own Keccak-256 digest, counts one more
    /// reference to it, and returns the digest.
    pub fn insert(&mut self, value: &[u8]) -> (r: Vec<u8>)
        requires
            old(self).wf(),
        ensures
            final(self).wf(),
            r@ == keccak_of(value@),
            final(self)@ == old(self)@.insert(
                r@,
                (
                    value@,
                    if old(self)@.contains_key(r@) {
                        bumped(old(self)@[r@].1)
                    } else {
                        1
                    },
                ),
            ),
    {
        let h = keccak(value);
        let k = copy_bytes(h.as_slice());
        self.emplace(k, copy_bytes(value));
        h
    }

    /// Drops one reference to the blob under `key`; the blob is discarded
    /// when its count reaches zero. Nothing happens for an unknown address.
    pub fn remove(&mut self, key: &[u8])
        requires
            old(self).wf(),
        ensures
            final(self).wf(),
            !old(self)@.contains_key(key@) ==> final(self)@ == old(self)@,
            old(self)@.contains_key(key@) && old(self)@[key@].1 <= 1 ==> final(self)@ == old(
                self,
            )@.remove(key@),
            old(self)@.contains_key(key@) && old(self)@[key@].1 > 1 ==> final(self)@ == old(
                self,
            )@.insert(key@, (old(self)@[key@].0, (old(self)@[key@].1 - 1) as nat)),
    {
        let ghost m0 = self.model();
        let (i, found) = self.find(key);
        proof {
            lemma_sorted_distinct(m0);
        }
        if found {
            let e = self.entries.remove(i);
            if e.refs > 1 {
                let ghost v = e.value@;
                let refs = e.refs - 1;
                self.entries.insert(i, DbEntry { key: e.key, value: e.value, refs });
                proof {
                    assert(self.model() =~= m0.update(i as int, (m0[i as int].0, (v, refs as nat))));
                    lemma_map_of_update(m0, i as int, (v, refs as nat));
                    assert forall|a: int, b: int| 0 <= a < b < self.model().len() implies lex_lt(
                        #[trigger] self.model()[a].0,
                        #[trigger] self.model()[b].0,
                    ) by {
                        assert(lex_lt(m0[a].0, m0[b].0));
                    }
                }
            } else {
                proof {
                    assert(self.model() =~= m0.remove(i as int));
                    lemma_map_of_remove(m0, i as int);
                    lemma_sorted_remove(m0, i as int);
                }
            }
        }
    }
}

} // verus!
