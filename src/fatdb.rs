//! The key-hashing wrapper over the tree: application keys are hashed before
//! they reach the tree, and the store keeps, beside the tree's nodes, an
//! entry that maps each hashed key back to the application key.
use vstd::prelude::*;
use crate::avl::{MAX_DEPTH, holds_tree, lemma_canonical_commitment, AVLDBMut, AvlError};
use crate::keymap::{map_of, sorted};
use crate::node::{lemma_stored_frame, read_tree, stored_after, EntryModel};
use crate::hash::{keccak, keccak_of, null_hash_spec};
use crate::memorydb::MemoryDB;

verus! {

/// The first byte of every auxiliary address. Tree keys are 32-byte hashes,
/// so auxiliary addresses are 33 bytes long and never meet the 32-byte
/// addresses of tree nodes.
pub const AUX_PREFIX: u8 = 0xFF;

/// Where the store keeps the application key behind the tree key `hk`.
pub open spec fn aux_key(hk: Seq<u8>) -> Seq<u8> {
    seq![AUX_PREFIX] + hk
}

/// The tree key of an application key.
pub open spec fn tree_key(key: Seq<u8>) -> Seq<u8> {
    keccak_of(key)
}

/// A mutable tree view whose keys are the Keccak-256 hashes of the
/// application's keys, and which records each application key in the store.
pub struct FatDBMut {
    raw: AVLDBMut,
}

impl FatDBMut {
    /// The underlying tree view, keyed by hashed keys.
    pub closed spec fn raw_view(&self) -> AVLDBMut {
        self.raw
    }

    /// The invariant of the underlying view.
    pub open spec fn wf(&self) -> bool {
        self.raw_view().wf()
    }

    /// The mapping from hashed keys to values.
    pub open spec fn mapping(&self) -> Map<Seq<u8>, Seq<u8>> {
        self.raw_view().mapping()
    }

    /// The backing store.
    pub open spec fn store(&self) -> MemoryDB {
        self.raw_view().store()
    }

    /// The current root hash.
    pub open spec fn root_view(&self) -> Seq<u8> {
        self.raw_view().root_view()
    }

    /// The store holds every node of the tree.
    pub open spec fn intact(&self) -> bool {
        self.raw_view().intact()
    }

    /// An empty tree over `db`; its root is the null hash.
    pub fn new(db: MemoryDB) -> (r: FatDBMut)
        requires
            db.wf(),
        ensures
            r.wf(),
            r.mapping() == Map::<Seq<u8>, Seq<u8>>::empty(),
            r.root_view() == null_hash_spec(),
            r.store() == db,
    {
        FatDBMut { raw: AVLDBMut::new(db) }
    }

    /// The tree committed under `root` in `db`; fails as
    /// `AVLDBMut::from_existing` does, handing `db` back; succeeds as it does.
    pub fn from_existing(db: MemoryDB, root: Vec<u8>) -> (r: Result<FatDBMut, (AvlError, MemoryDB)>)
        requires
            db.wf(),
        ensures
            root@ == null_hash_spec() ==> r is Ok && r->Ok_0.mapping() == Map::<
                Seq<u8>,
                Seq<u8>,
            >::empty(),
            (r is Err && r->Err_0.0 == AvlError::MissingRoot) <==> (root@ != null_hash_spec()
                && !db@.contains_key(root@)),
            r is Ok ==> r->Ok_0.wf() && r->Ok_0.root_view() == root@ && r->Ok_0.store() == db,
            r is Err ==> r->Err_0.1 == db,
            forall|e: Seq<EntryModel>| #[trigger] holds_tree(db@, e, root@) ==> r is Ok
                && r->Ok_0.raw_view().contents() == e,
            r is Ok ==> r->Ok_0.raw_view().contents() == read_tree(db@, root@, MAX_DEPTH as nat)->Some_0,
    {
        match AVLDBMut::from_existing(db, root) {
            Ok(raw) => Ok(FatDBMut { raw }),
            Err(e) => Err(e),
        }
    }

    /// The backing store.
    pub fn db(&self) -> (r: &MemoryDB)
        ensures
            *r == self.store(),
    {
        self.raw.db()
    }

    /// The backing store, for direct changes; the tree itself is unchanged.
    pub fn db_mut(&mut self) -> (r: &mut MemoryDB)
        ensures
            *r == old(self).store(),
            final(self).store() == *final(r),
            final(self).raw_view().contents() == old(self).raw_view().contents(),
            final(self).root_view() == old(self).root_view(),
    {
        self.raw.db_mut()
    }

    /// Gives the backing store back.
    pub fn into_db(self) -> (r: MemoryDB)
        ensures
            r == self.store(),
    {
        self.raw.into_db()
    }

    fn to_aux_key(key: &[u8]) -> (r: Vec<u8>)
        ensures
            r@ == aux_key(key@),
    {
        let mut r: Vec<u8> = Vec::new();
        r.push(AUX_PREFIX);
        let mut i: usize = 0;
        while i < key.len()
            invariant
                i <= key@.len(),
                r@ == seq![AUX_PREFIX] + key@.subrange(0, i as int),
            decreases key@.len() - i,
        {
            r.push(key[i]);
            i = i + 1;
            assert(r@ =~= seq![AUX_PREFIX] + key@.subrange(0, i as int));
        }
        assert(key@.subrange(0, i as int) =~= key@);
        r
    }

    /// The current root hash.
    pub fn root(&self) -> (r: Vec<u8>)
        ensures
            r@ == self.root_view(),
    {
        self.raw.root()
    }

    /// Whether the tree holds no entry.
    pub fn is_empty(&self) -> (r: bool)
        requires
            self.wf(),
        ensures
            r == (self.mapping() == Map::<Seq<u8>, Seq<u8>>::empty()),
    {
        self.raw.is_empty()
    }

    /// Whether the tree holds `key`; fails with `MissingRoot` or
    /// `DecodeError` when the store does not hold the tree.
    pub fn contains(&self, key: &[u8]) -> (r: Result<bool, AvlError>)
        requires
            self.wf(),
        ensures
            r is Ok == self.intact(),
            r is Err ==> (r->Err_0 == AvlError::MissingRoot || r->Err_0 == AvlError::DecodeError)
                && ((r->Err_0 == AvlError::MissingRoot) == (self.raw_view().contents().len() > 0
                && !self.store()@.contains_key(self.root_view()))),
            r is Ok ==> r->Ok_0 == self.mapping().contains_key(tree_key(key@)),
    {
        let hk = keccak(key);
        self.raw.contains(hk.as_slice())
    }

    /// The value under `key`, if any; fails with `MissingRoot` or
    /// `DecodeError` when the store does not hold the tree.
    pub fn get(&self, key: &[u8]) -> (r: Result<Option<Vec<u8>>, AvlError>)
        requires
            self.wf(),
        ensures
            r is Ok == self.intact(),
            r is Err ==> (r->Err_0 == AvlError::MissingRoot || r->Err_0 == AvlError::DecodeError)
                && ((r->Err_0 == AvlError::MissingRoot) == (self.raw_view().contents().len() > 0
                && !self.store()@.contains_key(self.root_view()))),
            r is Ok ==> (r->Ok_0 is Some == self.mapping().contains_key(tree_key(key@))),
            r is Ok && r->Ok_0 is Some ==> r->Ok_0->Some_0@ == self.mapping()[tree_key(key@)],
    {
        let hk = keccak(key);
        self.raw.get(hk.as_slice())
    }

    /// Sets `key` to `value` and returns the value it had before. When the
    /// key is new, the store then maps its auxiliary address to `key`; every
    /// other entry already in the store keeps its bytes, and when the key was
    /// there its auxiliary entry is kept as well. The store holds every node
    /// of the new tree; fails as `AVLDBMut::insert` does.
    pub fn insert(&mut self, key: &[u8], value: &[u8]) -> (r: Result<Option<Vec<u8>>, AvlError>)
        requires
            old(self).wf(),
        ensures
            final(self).wf(),
            r is Ok ==> final(self).mapping() == old(self).mapping().insert(tree_key(key@), value@),
            r is Ok ==> (r->Ok_0 is Some == old(self).mapping().contains_key(tree_key(key@))),
            r is Ok && r->Ok_0 is Some ==> r->Ok_0->Some_0@ == old(self).mapping()[tree_key(key@)],
            r is Ok ==> holds_tree(
                final(self).store()@,
                final(self).raw_view().contents(),
                final(self).root_view(),
            ),
            r is Ok && r->Ok_0 is None ==> final(self).store()@.contains_key(aux_key(tree_key(key@)))
                && final(self).store()@[aux_key(tree_key(key@))].0 == key@,
            (r is Err || r->Ok_0 is Some) ==> final(self).store()@.contains_key(
                aux_key(tree_key(key@)),
            ) == old(self).store()@.contains_key(aux_key(tree_key(key@))) && (old(
                self,
            ).store()@.contains_key(aux_key(tree_key(key@))) ==> final(self).store()@[aux_key(
                tree_key(key@),
            )] == old(self).store()@[aux_key(tree_key(key@))]),
            forall|k: Seq<u8>|
                #![trigger old(self).store()@.contains_key(k)]
                old(self).store()@.contains_key(k) && (r is Err || r->Ok_0 is Some || k != aux_key(
                    tree_key(key@),
                )) ==> final(self).store()@.contains_key(k) && final(self).store()@[k].0 == old(
                    self,
                ).store()@[k].0,
            r is Err ==> final(self).raw_view().contents() == old(self).raw_view().contents()
                && final(self).root_view() == old(self).root_view(),
            !old(self).intact() ==> r is Err && final(self).store() == old(self).store() && (r->Err_0
                == AvlError::MissingRoot || r->Err_0 == AvlError::DecodeError) && ((r->Err_0
                == AvlError::MissingRoot) == (old(self).raw_view().contents().len() > 0 && !old(
                self,
            ).store()@.contains_key(old(self).root_view()))),
            old(self).intact() && r is Err ==> r->Err_0 == AvlError::HashCollision,
            r is Err ==> final(self).store()@.contains_key(aux_key(tree_key(key@))) == old(
                self,
            ).store()@.contains_key(aux_key(tree_key(key@))) && (old(self).store()@.contains_key(
                aux_key(tree_key(key@)),
            ) ==> final(self).store()@[aux_key(tree_key(key@))] == old(self).store()@[aux_key(
                tree_key(key@),
            )]),
            forall|e: Seq<EntryModel>|
                #[trigger] map_of(e) == old(self).mapping().insert(tree_key(key@), value@) && sorted(
                    e,
                ) && old(self).intact() ==> (r is Ok <==> stored_after(
                    old(self).store()@,
                    e,
                    0,
                    e.len() as int,
                ) is Some),
    {
        let hk = keccak(key);
        assert(aux_key(hk@).len() == 33);
        match self.raw.insert(hk.as_slice(), value) {
            Err(e) => Err(e),
            Ok(out) => {
                if out.is_none() {
                    let ak = Self::to_aux_key(hk.as_slice());
                    let ghost s0 = self.raw.store()@;
                    let db = self.raw.db_mut();
                    db.emplace(ak, crate::bytes::copy_bytes(key));
                    proof {
                        lemma_stored_frame(
                            s0,
                            self.raw.store()@,
                            self.raw.contents(),
                            0,
                            self.raw.contents().len() as int,
                        );
                    }
                }
                Ok(out)
            },
        }
    }

    /// Removes `key` and returns the value it had. When the key was there,
    /// one reference to its auxiliary entry is dropped: the entry is gone
    /// when that was its last one. Every other entry already in the store
    /// keeps its bytes, and the store holds every node of the new tree; fails as
    /// `AVLDBMut::remove` does.
    pub fn remove(&mut self, key: &[u8]) -> (r: Result<Option<Vec<u8>>, AvlError>)
        requires
            old(self).wf(),
        ensures
            final(self).wf(),
            r is Ok ==> final(self).mapping() == old(self).mapping().remove(tree_key(key@)),
            r is Ok ==> (r->Ok_0 is Some == old(self).mapping().contains_key(tree_key(key@))),
            r is Ok && r->Ok_0 is Some ==> r->Ok_0->Some_0@ == old(self).mapping()[tree_key(key@)],
            r is Ok && r->Ok_0 is Some ==> holds_tree(
                final(self).store()@,
                final(self).raw_view().contents(),
                final(self).root_view(),
            ),
            r is Ok && r->Ok_0 is None ==> final(self).root_view() == old(self).root_view()
                && final(self).store() == old(self).store(),
            ({
                let a = aux_key(tree_key(key@));
                let s0 = old(self).store()@;
                let s1 = final(self).store()@;
                r is Ok && r->Ok_0 is Some && s0.contains_key(a) ==> if s0[a].1 <= 1 {
                    !s1.contains_key(a)
                } else {
                    s1.contains_key(a) && s1[a] == (s0[a].0, (s0[a].1 - 1) as nat)
                }
            }),
            forall|k: Seq<u8>|
                #![trigger old(self).store()@.contains_key(k)]
                old(self).store()@.contains_key(k) && k != aux_key(tree_key(key@))
                    ==> final(self).store()@.contains_key(k) && final(self).store()@[k].0 == old(
                    self,
                ).store()@[k].0,
            r is Err ==> final(self).raw_view().contents() == old(self).raw_view().contents()
                && final(self).root_view() == old(self).root_view(),
            !old(self).intact() ==> r is Err && final(self).store() == old(self).store() && (r->Err_0
                == AvlError::MissingRoot || r->Err_0 == AvlError::DecodeError) && ((r->Err_0
                == AvlError::MissingRoot) == (old(self).raw_view().contents().len() > 0 && !old(
                self,
            ).store()@.contains_key(old(self).root_view()))),
            old(self).intact() && r is Err ==> r->Err_0 == AvlError::HashCollision,
            r is Err ==> final(self).store()@.contains_key(aux_key(tree_key(key@))) == old(
                self,
            ).store()@.contains_key(aux_key(tree_key(key@))) && (old(self).store()@.contains_key(
                aux_key(tree_key(key@)),
            ) ==> final(self).store()@[aux_key(tree_key(key@))] == old(self).store()@[aux_key(
                tree_key(key@),
            )]),
            old(self).intact() && !old(self).mapping().contains_key(tree_key(key@)) ==> r is Ok
                && r->Ok_0 is None && final(self).store() == old(self).store()
                && final(self).raw_view().contents() == old(self).raw_view().contents()
                && final(self).root_view() == old(self).root_view(),
            forall|e: Seq<EntryModel>|
                #[trigger] map_of(e) == old(self).mapping().remove(tree_key(key@)) && sorted(e) && old(
                    self,
                ).intact() && old(self).mapping().contains_key(tree_key(key@)) ==> (r is Ok
                    <==> stored_after(old(self).store()@, e, 0, e.len() as int) is Some),
    {
        let hk = keccak(key);
        assert(aux_key(hk@).len() == 33);
        match self.raw.remove(hk.as_slice()) {
            Err(e) => Err(e),
            Ok(out) => {
                if out.is_some() {
                    let ak = Self::to_aux_key(hk.as_slice());
                    let ghost s0 = self.raw.store()@;
                    self.raw.db_mut().remove(ak.as_slice());
                    proof {
                        lemma_stored_frame(
                            s0,
                            self.raw.store()@,
                            self.raw.contents(),
                            0,
                            self.raw.contents().len() as int,
                        );
                    }
                }
                Ok(out)
            },
        }
    }
}

/// Canonical commitment: two views that hold the same mapping have the same
/// root hash, whatever updates produced each of them.
pub proof fn lemma_fat_canonical_commitment(a: &FatDBMut, b: &FatDBMut)
    requires
        a.wf(),
        b.wf(),
        a.mapping() == b.mapping(),
    ensures
        a.root_view() == b.root_view(),
{
    lemma_canonical_commitment(&a.raw_view(), &b.raw_view());
}

} // verus!
