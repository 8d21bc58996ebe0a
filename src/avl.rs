//! Views of the authenticated balanced tree: a mutable one that owns its
//! backing store, and a read-only one bound to a committed root.
//!
//! A view keeps its entries sorted by key; the tree over them has one shape
//! only (the middle entry at the root, recursively), so its root hash is a
//! commitment to the key-value mapping alone, whatever sequence of updates
//! produced it. Every node is stored in the backing store under the
//! Keccak-256 hash of its stored form.
use vstd::prelude::*;
use crate::bytes::{compare, copy_bytes, lemma_lex_irrefl, lemma_lex_trans, lex_lt};
use crate::hash::{keccak, null_hash, null_hash_spec};
use crate::keymap::{
    lemma_absent, lemma_map_of_at, lemma_map_of_insert, lemma_map_of_not_in, lemma_map_of_remove,
    lemma_map_of_update, lemma_sorted_distinct, lemma_sorted_insert, lemma_sorted_remove, map_of,
    sorted,
};
use crate::memorydb::MemoryDB;
use crate::node::{
    lemma_stored_after, stored_after, encode_node, height_of, subtree_hash, lemma_height_bound, lemma_read_stored, parse_node, read_tree, stored,
    build, decode_node, entries_model, lemma_shape_balanced, lemma_sorted_unique, root_of,
    shape_balanced, EntryModel,
};

verus! {

/// Why a view could not be opened.
#[derive(Debug, Clone, Copy, PartialEq, Eq, Structural)]
pub enum AvlError {
    /// The root is not the null hash and no blob is stored under it.
    MissingRoot,
    /// The nodes reachable from the root do not form a well-formed tree
    /// whose hash is the root.
    DecodeError,
    /// The updated tree cannot be stored over the store as it was
    /// (`stored_after` is `None`): a node of it hashes to the null hash, or
    /// its address already holds other bytes, left there by an earlier blob
    /// or by another node of the same tree (a hash collision).
    HashCollision,
}

/// `e` is a sorted entry sequence whose canonical tree has root `root` and
/// has every node in the store `s`.
pub open spec fn holds_tree(s: Map<Seq<u8>, (Seq<u8>, nat)>, e: Seq<EntryModel>, root: Seq<u8>) -> bool {
    &&& sorted(e)
    &&& root_of(e) == root
    &&& stored(s, e, 0, e.len() as int)
    &&& e.len() <= usize::MAX
}

/// How deep a stored tree may be: the canonical tree over any number of
/// entries that fits in memory is no deeper.
pub const MAX_DEPTH: u64 = 64;

fn is_null(h: &[u8]) -> (r: bool)
    ensures
        r == (h@ == null_hash_spec()),
{
    let z = null_hash();
    compare(h, z.as_slice()) == 0
}

/// Appends the entries of the stored subtree under `h` in key order;
/// `false` when a node is missing or malformed, or the tree is too deep.
fn collect(db: &MemoryDB, h: &[u8], depth: u64, out: &mut Vec<(Vec<u8>, Vec<u8>)>) -> (ok: bool)
    requires
        db.wf(),
    ensures
        ok == read_tree(db@, h@, depth as nat) is Some,
        ok ==> entries_model(final(out)@) == entries_model(old(out)@) + read_tree(
            db@,
            h@,
            depth as nat,
        )->Some_0,
    decreases depth,
{
    if is_null(h) {
        assert(entries_model(out@) =~= entries_model(out@) + Seq::<EntryModel>::empty());
        return true;
    }
    if depth == 0 {
        return false;
    }
    match db.get(h) {
        None => false,
        Some(blob) => match decode_node(blob.as_slice()) {
            None => false,
            Some(n) => {
                let ghost t = parse_node(blob@)->Some_0;
                let ghost m0 = entries_model(out@);
                if !collect(db, n.left.as_slice(), depth - 1, out) {
                    return false;
                }
                let ghost m1 = entries_model(out@);
                let ghost kv = (n.key@, n.value@);
                out.push((n.key, n.value));
                assert(entries_model(out@) =~= m1 + seq![kv]);
                let ghost m2 = entries_model(out@);
                let ok = collect(db, n.right.as_slice(), depth - 1, out);
                if ok {
                    let ghost a = read_tree(db@, t.2, (depth - 1) as nat)->Some_0;
                    let ghost c = read_tree(db@, t.3, (depth - 1) as nat)->Some_0;
                    assert(read_tree(db@, h@, depth as nat) == Some(a + seq![(t.0, t.1)] + c));
                    assert(entries_model(out@) =~= m0 + (a + seq![(t.0, t.1)] + c));
                }
                ok
            },
        },
    }
}

/// Whether the keys of `entries` strictly increase.
fn check_sorted(entries: &Vec<(Vec<u8>, Vec<u8>)>) -> (r: bool)
    ensures
        r == sorted(entries_model(entries@)),
{
    let ghost m = entries_model(entries@);
    let n = entries.len();
    let mut i: usize = 1;
    while i < n
        invariant
            n == entries@.len(),
            m == entries_model(entries@),
            1 <= i,
            n > 0 ==> i <= n,
            forall|a: int, b: int| 0 <= a < b < i && b < n ==> lex_lt(#[trigger] m[a].0, #[trigger] m[b].0),
        decreases n - i,
    {
        let c = compare(entries[i - 1].0.as_slice(), entries[i].0.as_slice());
        assert(m[i - 1] == (entries@[i - 1].0@, entries@[i - 1].1@));
        assert(m[i as int] == (entries@[i as int].0@, entries@[i as int].1@));
        if c >= 0 {
            assert(!lex_lt(m[i - 1].0, m[i as int].0));
            assert(!sorted(m));
            return false;
        }
        proof {
            assert forall|a: int, b: int| 0 <= a < b < i + 1 && b < n implies lex_lt(
                #[trigger] m[a].0,
                #[trigger] m[b].0,
            ) by {
                if b == i && a < i - 1 {
                    lemma_lex_trans(m[a].0, m[i - 1].0, m[b].0);
                }
            }
        }
        i = i + 1;
    }
    true
}

/// Reads the entries of the tree stored under `root`, and checks that they
/// are sorted and hash to `root`.
fn load(db: &MemoryDB, root: &[u8]) -> (r: Result<Vec<(Vec<u8>, Vec<u8>)>, AvlError>)
    requires
        db.wf(),
    ensures
        root@ == null_hash_spec() ==> r is Ok && r->Ok_0@.len() == 0,
        (r is Err && r->Err_0 == AvlError::MissingRoot) <==> (root@ != null_hash_spec()
            && !db@.contains_key(root@)),
        r is Ok ==> sorted(entries_model(r->Ok_0@)) && root_of(entries_model(r->Ok_0@)) == root@,
        forall|e: Seq<EntryModel>| #[trigger] holds_tree(db@, e, root@) ==> r is Ok && entries_model(
            r->Ok_0@,
        ) == e,
        r is Ok ==> entries_model(r->Ok_0@) == read_tree(db@, root@, MAX_DEPTH as nat)->Some_0,
{
    proof {
        assert forall|e: Seq<EntryModel>| #[trigger] holds_tree(db@, e, root@) implies read_tree(
            db@,
            root@,
            MAX_DEPTH as nat,
        ) == Some(e) by {
            vstd::arithmetic::power2::lemma2_to64();
            lemma_height_bound(e.len(), 64);
            lemma_read_stored(db@, e, 0, e.len() as int, MAX_DEPTH as nat);
            assert(e.subrange(0, e.len() as int) =~= e);
        }
    }
    if is_null(root) {
        let v: Vec<(Vec<u8>, Vec<u8>)> = Vec::new();
        assert(entries_model(v@) =~= Seq::<EntryModel>::empty());
        assert(read_tree(db@, root@, MAX_DEPTH as nat) == Some(Seq::<EntryModel>::empty()));
        return Ok(v);
    }
    if !db.contains(root) {
        proof {
            assert forall|e: Seq<EntryModel>| !#[trigger] holds_tree(db@, e, root@) by {
                if holds_tree(db@, e, root@) && e.len() == 0 {
                    assert(root_of(e) == null_hash_spec());
                }
            }
        }
        return Err(AvlError::MissingRoot);
    }
    let mut out: Vec<(Vec<u8>, Vec<u8>)> = Vec::new();
    if !collect(db, root, MAX_DEPTH, &mut out) {
        return Err(AvlError::DecodeError);
    }
    assert(entries_model(out@) =~= read_tree(db@, root@, MAX_DEPTH as nat)->Some_0);
    if !check_sorted(&out) {
        return Err(AvlError::DecodeError);
    }
    let mut scratch: Vec<(Vec<u8>, Vec<u8>)> = Vec::new();
    let h = build(&out, 0, out.len(), &mut scratch);
    if compare(h.as_slice(), root) != 0 {
        return Err(AvlError::DecodeError);
    }
    Ok(out)
}

/// Finds where `key` stands among sorted entries: the first position whose
/// key is not below it, and whether the key there equals it.
fn locate(entries: &Vec<(Vec<u8>, Vec<u8>)>, key: &[u8]) -> (r: (usize, bool))
    requires
        sorted(entries_model(entries@)),
    ensures
        r.0 <= entries@.len(),
        forall|j: int| 0 <= j < r.0 ==> lex_lt(#[trigger] entries_model(entries@)[j].0, key@),
        r.1 ==> r.0 < entries@.len() && entries_model(entries@)[r.0 as int].0 == key@,
        !r.1 && r.0 < entries@.len() ==> lex_lt(key@, entries_model(entries@)[r.0 as int].0),
{
    let ghost m = entries_model(entries@);
    let mut lo: usize = 0;
    let mut hi: usize = entries.len();
    while lo < hi
        invariant
            m == entries_model(entries@),
            sorted(m),
            lo <= hi <= entries@.len(),
            forall|j: int| 0 <= j < lo ==> lex_lt(#[trigger] m[j].0, key@),
            forall|j: int| hi <= j < entries@.len() ==> !lex_lt(#[trigger] m[j].0, key@),
        decreases hi - lo,
    {
        let mid = lo + (hi - lo) / 2;
        let c = compare(entries[mid].0.as_slice(), key);
        assert(m[mid as int] == (entries@[mid as int].0@, entries@[mid as int].1@));
        if c < 0 {
            proof {
                assert forall|j: int| 0 <= j < mid + 1 implies lex_lt(#[trigger] m[j].0, key@) by {
                    if j < mid {
                        lemma_lex_trans(m[j].0, m[mid as int].0, key@);
                    }
                }
            }
            lo = mid + 1;
        } else {
            proof {
                assert forall|j: int| mid <= j < entries@.len() implies !lex_lt(
                    #[trigger] m[j].0,
                    key@,
                ) by {
                    if j > mid && lex_lt(m[j].0, key@) {
                        lemma_lex_trans(m[mid as int].0, m[j].0, key@);
                    }
                }
            }
            hi = mid;
        }
    }
    if lo < entries.len() {
        let c = compare(entries[lo].0.as_slice(), key);
        assert(m[lo as int] == (entries@[lo as int].0@, entries@[lo as int].1@));
        (lo, c == 0)
    } else {
        (lo, false)
    }
}

/// The value stored under `key` among sorted entries, as located.
fn value_at(entries: &Vec<(Vec<u8>, Vec<u8>)>, key: &[u8]) -> (r: Option<Vec<u8>>)
    requires
        sorted(entries_model(entries@)),
    ensures
        r is Some == map_of(entries_model(entries@)).contains_key(key@),
        r is Some ==> r->Some_0@ == map_of(entries_model(entries@))[key@],
{
    let ghost m = entries_model(entries@);
    let (p, found) = locate(entries, key);
    proof {
        lemma_sorted_distinct(m);
    }
    if found {
        assert(m[p as int] == (entries@[p as int].0@, entries@[p as int].1@));
        proof {
            lemma_map_of_at(m, p as int);
        }
        Some(copy_bytes(entries[p].1.as_slice()))
    } else {
        proof {
            lemma_absent(m, p as int, key@);
            lemma_map_of_not_in(m, key@);
        }
        None
    }
}

/// Whether `db` holds every node of the canonical tree over
/// `entries[lo..hi]`; also returns that tree's hash.
fn check_stored(db: &MemoryDB, entries: &Vec<(Vec<u8>, Vec<u8>)>, lo: usize, hi: usize) -> (r: (
    bool,
    Vec<u8>,
))
    requires
        db.wf(),
        lo <= hi <= entries@.len(),
    ensures
        r.0 == stored(db@, entries_model(entries@), lo as int, hi as int),
        r.1@ == subtree_hash(entries_model(entries@), lo as int, hi as int),
    decreases hi - lo,
{
    let ghost m = entries_model(entries@);
    if lo >= hi {
        return (true, null_hash());
    }
    let mid = lo + (hi - lo) / 2;
    let (okl, lh) = check_stored(db, entries, lo, mid);
    let (okr, rh) = check_stored(db, entries, mid + 1, hi);
    let height = height_of(hi - lo);
    let klen = entries[mid].0.len();
    let vlen = entries[mid].1.len();
    assert(m[mid as int] == (entries@[mid as int].0@, entries@[mid as int].1@));
    let blob = encode_node(
        entries[mid].0.as_slice(),
        entries[mid].1.as_slice(),
        lh.as_slice(),
        rh.as_slice(),
        height,
    );
    let h = keccak(blob.as_slice());
    if !okl || !okr || is_null(h.as_slice()) {
        return (false, h);
    }
    match db.get(h.as_slice()) {
        None => (false, h),
        Some(b) => (compare(b.as_slice(), blob.as_slice()) == 0, h),
    }
}

/// Stores the canonical tree over `entries[lo..hi]`, children before
/// parents, adding one reference to each node, and returns its hash; `false`
/// when a node cannot be stored (see `stored_after`).
fn store_tree(db: &mut MemoryDB, entries: &Vec<(Vec<u8>, Vec<u8>)>, lo: usize, hi: usize) -> (r: (
    bool,
    Vec<u8>,
))
    requires
        old(db).wf(),
        lo <= hi <= entries@.len(),
    ensures
        final(db).wf(),
        r.0 == stored_after(old(db)@, entries_model(entries@), lo as int, hi as int) is Some,
        r.0 ==> final(db)@ == stored_after(old(db)@, entries_model(entries@), lo as int, hi as int)->Some_0,
        r.0 ==> r.1@ == subtree_hash(entries_model(entries@), lo as int, hi as int),
        forall|k: Seq<u8>| #[trigger] old(db)@.contains_key(k) ==> final(db)@.contains_key(k)
            && final(db)@[k].0 == old(db)@[k].0,
        forall|k: Seq<u8>|
            #![trigger final(db)@.contains_key(k)]
            k.len() != 32 ==> final(db)@.contains_key(k) == old(db)@.contains_key(k) && (old(
                db,
            )@.contains_key(k) ==> final(db)@[k] == old(db)@[k]),
    decreases hi - lo,
{
    let ghost m = entries_model(entries@);
    if lo >= hi {
        return (true, null_hash());
    }
    let mid = lo + (hi - lo) / 2;
    let (okl, lh) = store_tree(db, entries, lo, mid);
    if !okl {
        return (false, lh);
    }
    let (okr, rh) = store_tree(db, entries, mid + 1, hi);
    if !okr {
        return (false, rh);
    }
    let height = height_of(hi - lo);
    let klen = entries[mid].0.len();
    let vlen = entries[mid].1.len();
    assert(m[mid as int] == (entries@[mid as int].0@, entries@[mid as int].1@));
    let blob = encode_node(
        entries[mid].0.as_slice(),
        entries[mid].1.as_slice(),
        lh.as_slice(),
        rh.as_slice(),
        height,
    );
    let h = keccak(blob.as_slice());
    if is_null(h.as_slice()) {
        return (false, h);
    }
    match db.get(h.as_slice()) {
        Some(cur) => {
            if compare(cur.as_slice(), blob.as_slice()) != 0 {
                return (false, h);
            }
        },
        None => {},
    }
    db.emplace(copy_bytes(h.as_slice()), blob);
    (true, h)
}

/// A mutable view of the tree over a backing store that it owns.
pub struct AVLDBMut {
    db: MemoryDB,
    root: Vec<u8>,
    entries: Vec<(Vec<u8>, Vec<u8>)>,
}

impl AVLDBMut {
    /// The entries of the tree, sorted by key.
    pub closed spec fn contents(&self) -> Seq<EntryModel> {
        entries_model(self.entries@)
    }

    /// The current root hash.
    pub closed spec fn root_view(&self) -> Seq<u8> {
        self.root@
    }

    /// The backing store.
    pub closed spec fn store(&self) -> MemoryDB {
        self.db
    }

    /// The key-value mapping that the tree holds.
    pub open spec fn mapping(&self) -> Map<Seq<u8>, Seq<u8>> {
        map_of(self.contents())
    }

    /// The view's invariant: a sound store, sorted entries, and a root that
    /// commits to them.
    pub open spec fn wf(&self) -> bool {
        &&& self.store().wf()
        &&& sorted(self.contents())
        &&& self.root_view() == root_of(self.contents())
    }

    /// The store holds every node of the tree.
    pub open spec fn intact(&self) -> bool {
        stored(self.store()@, self.contents(), 0, self.contents().len() as int)
    }

    /// Checks that the store holds the tree: `MissingRoot` when the root
    /// node is missing, `DecodeError` when another node is missing or does
    /// not hold the bytes it should.
    fn validate(&self) -> (r: Result<(), AvlError>)
        requires
            self.wf(),
        ensures
            r is Ok == self.intact(),
            r is Err ==> (r->Err_0 == AvlError::MissingRoot || r->Err_0 == AvlError::DecodeError)
                && ((r->Err_0 == AvlError::MissingRoot) == (self.contents().len() > 0
                && !self.store()@.contains_key(self.root_view()))),
    {
        let n = self.entries.len();
        if n > 0 && !self.db.contains(self.root.as_slice()) {
            return Err(AvlError::MissingRoot);
        }
        let (ok, _) = check_stored(&self.db, &self.entries, 0, n);
        if ok {
            Ok(())
        } else {
            Err(AvlError::DecodeError)
        }
    }

    /// An empty tree over `db`; its root is the null hash.
    pub fn new(db: MemoryDB) -> (r: AVLDBMut)
        requires
            db.wf(),
        ensures
            r.wf(),
            r.mapping() == Map::<Seq<u8>, Seq<u8>>::empty(),
            r.root_view() == null_hash_spec(),
            r.store() == db,
    {
        let r = AVLDBMut { db, root: null_hash(), entries: Vec::new() };
        assert(r.contents() =~= Seq::<EntryModel>::empty());
        r
    }

    /// The tree committed under `root` in `db`. Fails with `MissingRoot` when
    /// `root` is not the null hash and `db` holds nothing under it, and with
    /// `DecodeError` when what is reachable from it is not a tree whose hash
    /// is `root`; a failure hands `db` back unchanged. Opening succeeds, with
    /// exactly those entries, whenever `db` holds the canonical tree of sorted
    /// entries whose root is `root`.
    pub fn from_existing(db: MemoryDB, root: Vec<u8>) -> (r: Result<AVLDBMut, (AvlError, MemoryDB)>)
        requires
            db.wf(),
        ensures
            root@ == null_hash_spec() ==> r is Ok && r->Ok_0.mapping() == Map::<
                Seq<u8>,
                Seq<u8>,
            >::empty(),
            (r is Err && r->Err_0.0 == AvlError::MissingRoot) <==> (root@ != null_hash_spec()
                && !db@.contains_key(root@)),
            r is Ok ==> r->Ok_0.wf() && r->Ok_0.root_view() == root@ && r->Ok_0.store() == db,
            r is Err ==> r->Err_0.1 == db,
            forall|e: Seq<EntryModel>| #[trigger] holds_tree(db@, e, root@) ==> r is Ok
                && r->Ok_0.contents() == e,
            r is Ok ==> r->Ok_0.contents() == read_tree(db@, root@, MAX_DEPTH as nat)->Some_0,
    {
        match load(&db, root.as_slice()) {
            Ok(entries) => {
                let r = AVLDBMut { db, root, entries };
                assert(r.contents().len() == 0 ==> r.mapping() == Map::<Seq<u8>, Seq<u8>>::empty());
                Ok(r)
            },
            Err(e) => Err((e, db)),
        }
    }

    /// The current root hash.
    pub fn root(&self) -> (r: Vec<u8>)
        ensures
            r@ == self.root_view(),
    {
        copy_bytes(self.root.as_slice())
    }

    /// Whether the tree holds no entry.
    pub fn is_empty(&self) -> (r: bool)
        requires
            self.wf(),
        ensures
            r == (self.mapping() == Map::<Seq<u8>, Seq<u8>>::empty()),
    {
        if self.entries.len() > 0 {
            assert(self.mapping().contains_key(self.contents()[0].0));
        }
        self.entries.len() == 0
    }

    /// The backing store.
    pub fn db(&self) -> (r: &MemoryDB)
        ensures
            *r == self.store(),
    {
        &self.db
    }

    /// The backing store, for direct changes; the tree itself is unchanged.
    pub fn db_mut(&mut self) -> (r: &mut MemoryDB)
        ensures
            *r == old(self).store(),
            final(self).store() == *final(r),
            final(self).contents() == old(self).contents(),
            final(self).root_view() == old(self).root_view(),
    {
        &mut self.db
    }

    /// Gives the backing store back.
    pub fn into_db(self) -> (r: MemoryDB)
        ensures
            r == self.store(),
    {
        self.db
    }

    /// The value under `key`, if any; fails with `MissingRoot` or
    /// `DecodeError` when the store does not hold the tree.
    pub fn get(&self, key: &[u8]) -> (r: Result<Option<Vec<u8>>, AvlError>)
        requires
            self.wf(),
        ensures
            r is Ok == self.intact(),
            r is Err ==> (r->Err_0 == AvlError::MissingRoot || r->Err_0 == AvlError::DecodeError)
                && ((r->Err_0 == AvlError::MissingRoot) == (self.contents().len() > 0
                && !self.store()@.contains_key(self.root_view()))),
            r is Ok ==> (r->Ok_0 is Some == self.mapping().contains_key(key@)),
            r is Ok && r->Ok_0 is Some ==> r->Ok_0->Some_0@ == self.mapping()[key@],
    {
        match self.validate() {
            Err(e) => Err(e),
            Ok(()) => Ok(value_at(&self.entries, key)),
        }
    }

    /// Whether the tree holds `key`; fails with `MissingRoot` or
    /// `DecodeError` when the store does not hold the tree.
    pub fn contains(&self, key: &[u8]) -> (r: Result<bool, AvlError>)
        requires
            self.wf(),
        ensures
            r is Ok == self.intact(),
            r is Err ==> (r->Err_0 == AvlError::MissingRoot || r->Err_0 == AvlError::DecodeError)
                && ((r->Err_0 == AvlError::MissingRoot) == (self.contents().len() > 0
                && !self.store()@.contains_key(self.root_view()))),
            r is Ok ==> r->Ok_0 == self.mapping().contains_key(key@),
    {
        match self.validate() {
            Err(e) => Err(e),
            Ok(()) => Ok(value_at(&self.entries, key).is_some()),
        }
    }

    /// Sets `key` to `value`, and returns the value that `key` had before.
    /// Fails, changing nothing, with `MissingRoot` or `DecodeError` when the
    /// store does not hold the current tree; fails with `HashCollision`,
    /// leaving the tree and its root as they were, exactly when the new tree
    /// cannot be stored over the store as it was (`stored_after` is `None`).
    pub fn insert(&mut self, key: &[u8], value: &[u8]) -> (r: Result<Option<Vec<u8>>, AvlError>)
        requires
            old(self).wf(),
        ensures
            final(self).wf(),
            forall|k: Seq<u8>| #[trigger] old(self).store()@.contains_key(k) ==> final(self).store()@.contains_key(k)
                && final(self).store()@[k].0 == old(self).store()@[k].0,
            forall|k: Seq<u8>|
                #![trigger final(self).store()@.contains_key(k)]
                k.len() != 32 ==> final(self).store()@.contains_key(k) == old(self).store()@.contains_key(k)
                    && (old(self).store()@.contains_key(k) ==> final(self).store()@[k] == old(self).store()@[k]),
            !old(self).intact() ==> r is Err && final(self).store() == old(self).store() && (r->Err_0
                == AvlError::MissingRoot || r->Err_0 == AvlError::DecodeError) && ((r->Err_0
                == AvlError::MissingRoot) == (old(self).contents().len() > 0 && !old(
                self,
            ).store()@.contains_key(old(self).root_view()))),
            r is Err ==> final(self).contents() == old(self).contents() && final(self).root_view()
                == old(self).root_view(),
            old(self).intact() && r is Err ==> r->Err_0 == AvlError::HashCollision,
            r is Ok ==> final(self).mapping() == old(self).mapping().insert(key@, value@),
            r is Ok ==> (r->Ok_0 is Some == old(self).mapping().contains_key(key@)),
            r is Ok && r->Ok_0 is Some ==> r->Ok_0->Some_0@ == old(self).mapping()[key@],
            r is Ok ==> holds_tree(final(self).store()@, final(self).contents(), final(self).root_view()),
            forall|e: Seq<EntryModel>|
                #[trigger] map_of(e) == old(self).mapping().insert(key@, value@) && sorted(e)
                    && old(self).intact() ==> (r is Ok <==> stored_after(
                    old(self).store()@,
                    e,
                    0,
                    e.len() as int,
                ) is Some),
    {
        match self.validate() {
            Err(e) => { return Err(e); },
            Ok(()) => {},
        }
        let ghost m0 = self.contents();
        let ghost s0 = self.db@;
        let (p, found) = locate(&self.entries, key);
        proof {
            lemma_sorted_distinct(m0);
        }
        let r = if found {
            let (k, v) = self.entries.remove(p);
            assert(v@ == m0[p as int].1);
            self.entries.insert(p, (k, copy_bytes(value)));
            proof {
                assert(self.contents() =~= m0.update(p as int, (key@, value@)));
                lemma_map_of_at(m0, p as int);
                lemma_map_of_update(m0, p as int, value@);
                assert forall|i: int, j: int| 0 <= i < j < self.contents().len() implies lex_lt(
                    #[trigger] self.contents()[i].0,
                    #[trigger] self.contents()[j].0,
                ) by {
                    assert(lex_lt(m0[i].0, m0[j].0));
                }
            }
            Some(v)
        } else {
            self.entries.insert(p, (copy_bytes(key), copy_bytes(value)));
            proof {
                assert(self.contents() =~= m0.insert(p as int, (key@, value@)));
                lemma_absent(m0, p as int, key@);
                lemma_map_of_not_in(m0, key@);
                lemma_map_of_insert(m0, p as int, (key@, value@));
                lemma_sorted_insert(m0, p as int, (key@, value@));
            }
            None
        };
        assert(found ==> r is Some && r->Some_0@ == m0[p as int].1);
        let ghost m1 = self.contents();
        let n = self.entries.len();
        let (ok, h) = store_tree(&mut self.db, &self.entries, 0, n);
        proof {
            assert forall|e: Seq<EntryModel>|
                #[trigger] map_of(e) == old(self).mapping().insert(key@, value@) && sorted(e)
                implies e == m1 by {
                lemma_sorted_unique(e, m1);
            }
        }
        if ok {
            self.root = h;
            proof {
                lemma_stored_after(s0, m1, 0, n as int);
            }
            Ok(r)
        } else {
            if found {
                assert(m1[p as int] == (self.entries@[p as int].0@, self.entries@[p as int].1@));
                let (k, _) = self.entries.remove(p);
                let ov = match &r {
                    Some(v) => copy_bytes(v.as_slice()),
                    None => Vec::new(),
                };
                assert(k@ == m0[p as int].0);
                assert(ov@ == m0[p as int].1);
                self.entries.insert(p, (k, ov));
                assert(self.contents() =~= m1.update(p as int, m0[p as int]));
                assert(m1.update(p as int, m0[p as int]) =~= m0);
            } else {
                self.entries.remove(p);
                assert(self.contents() =~= m1.remove(p as int));
                assert(m1.remove(p as int) =~= m0);
            }
            Err(AvlError::HashCollision)
        }
    }

    /// Removes `key`, and returns the value it had. Fails, changing nothing,
    /// with `MissingRoot` or `DecodeError` when the store does not hold the
    /// current tree. Without the key nothing changes. With it, fails with
    /// `HashCollision`, leaving the tree and its root as they were, exactly
    /// when the new tree cannot be stored over the store as it was.
    pub fn remove(&mut self, key: &[u8]) -> (r: Result<Option<Vec<u8>>, AvlError>)
        requires
            old(self).wf(),
        ensures
            final(self).wf(),
            forall|k: Seq<u8>| #[trigger] old(self).store()@.contains_key(k) ==> final(self).store()@.contains_key(k)
                && final(self).store()@[k].0 == old(self).store()@[k].0,
            forall|k: Seq<u8>|
                #![trigger final(self).store()@.contains_key(k)]
                k.len() != 32 ==> final(self).store()@.contains_key(k) == old(self).store()@.contains_key(k)
                    && (old(self).store()@.contains_key(k) ==> final(self).store()@[k] == old(self).store()@[k]),
            !old(self).intact() ==> r is Err && final(self).store() == old(self).store() && (r->Err_0
                == AvlError::MissingRoot || r->Err_0 == AvlError::DecodeError) && ((r->Err_0
                == AvlError::MissingRoot) == (old(self).contents().len() > 0 && !old(
                self,
            ).store()@.contains_key(old(self).root_view()))),
            r is Err ==> final(self).contents() == old(self).contents() && final(self).root_view()
                == old(self).root_view(),
            old(self).intact() && r is Err ==> r->Err_0 == AvlError::HashCollision,
            r is Ok ==> final(self).mapping() == old(self).mapping().remove(key@),
            r is Ok ==> (r->Ok_0 is Some == old(self).mapping().contains_key(key@)),
            r is Ok && r->Ok_0 is Some ==> r->Ok_0->Some_0@ == old(self).mapping()[key@],
            r is Ok ==> holds_tree(final(self).store()@, final(self).contents(), final(self).root_view()),
            old(self).intact() && !old(self).mapping().contains_key(key@) ==> r is Ok && r->Ok_0 is None
                && final(self).store() == old(self).store() && final(self).contents() == old(
                self,
            ).contents() && final(self).root_view() == old(self).root_view(),
            forall|e: Seq<EntryModel>|
                #[trigger] map_of(e) == old(self).mapping().remove(key@) && sorted(e) && old(
                    self,
                ).intact() && old(self).mapping().contains_key(key@) ==> (r is Ok <==> stored_after(
                    old(self).store()@,
                    e,
                    0,
                    e.len() as int,
                ) is Some),
    {
        match self.validate() {
            Err(e) => { return Err(e); },
            Ok(()) => {},
        }
        let ghost m0 = self.contents();
        let ghost s0 = self.db@;
        let (p, found) = locate(&self.entries, key);
        proof {
            lemma_sorted_distinct(m0);
        }
        if found {
            let (k, v) = self.entries.remove(p);
            assert(k@ == m0[p as int].0 && v@ == m0[p as int].1);
            proof {
                assert(self.contents() =~= m0.remove(p as int));
                lemma_map_of_at(m0, p as int);
                lemma_map_of_remove(m0, p as int);
                lemma_sorted_remove(m0, p as int);
            }
            let ghost m1 = self.contents();
            let n = self.entries.len();
            let (ok, h) = store_tree(&mut self.db, &self.entries, 0, n);
            proof {
                assert forall|e: Seq<EntryModel>|
                    #[trigger] map_of(e) == old(self).mapping().remove(key@) && sorted(e)
                    implies e == m1 by {
                    lemma_sorted_unique(e, m1);
                }
            }
            if ok {
                self.root = h;
                proof {
                    lemma_stored_after(s0, m1, 0, n as int);
                }
                Ok(Some(v))
            } else {
                let ov = copy_bytes(v.as_slice());
                self.entries.insert(p, (k, ov));
                assert(self.contents() =~= m1.insert(p as int, m0[p as int]));
                assert(m1.insert(p as int, m0[p as int]) =~= m0);
                Err(AvlError::HashCollision)
            }
        } else {
            proof {
                lemma_absent(m0, p as int, key@);
                lemma_map_of_not_in(m0, key@);
                assert(self.mapping() =~= self.mapping().remove(key@));
            }
            assert(self.entries.len() == self.contents().len());
            Ok(None)
        }
    }
}

/// A read-only view of the tree committed under a root.
pub struct AVLDB {
    root: Vec<u8>,
    entries: Vec<(Vec<u8>, Vec<u8>)>,
}

impl AVLDB {
    /// The entries of the tree, sorted by key.
    pub closed spec fn contents(&self) -> Seq<EntryModel> {
        entries_model(self.entries@)
    }

    /// The root the view is bound to.
    pub closed spec fn root_view(&self) -> Seq<u8> {
        self.root@
    }

    /// The key-value mapping that the tree holds.
    pub open spec fn mapping(&self) -> Map<Seq<u8>, Seq<u8>> {
        map_of(self.contents())
    }

    /// The view's invariant: sorted entries and a root that commits to them.
    pub open spec fn wf(&self) -> bool {
        &&& sorted(self.contents())
        &&& self.root_view() == root_of(self.contents())
    }

    /// The tree committed under `root` in `db`; fails, and succeeds, as
    /// `AVLDBMut::from_existing` does. The store is left as it is.
    pub fn from_existing(db: &MemoryDB, root: &[u8]) -> (r: Result<AVLDB, AvlError>)
        requires
            db.wf(),
        ensures
            root@ == null_hash_spec() ==> r is Ok && r->Ok_0.mapping() == Map::<
                Seq<u8>,
                Seq<u8>,
            >::empty(),
            (r is Err && r->Err_0 == AvlError::MissingRoot) <==> (root@ != null_hash_spec()
                && !db@.contains_key(root@)),
            r is Ok ==> r->Ok_0.wf() && r->Ok_0.root_view() == root@,
            forall|e: Seq<EntryModel>| #[trigger] holds_tree(db@, e, root@) ==> r is Ok
                && r->Ok_0.contents() == e,
            r is Ok ==> r->Ok_0.contents() == read_tree(db@, root@, MAX_DEPTH as nat)->Some_0,
    {
        match load(db, root) {
            Ok(entries) => {
                let r = AVLDB { root: copy_bytes(root), entries };
                assert(r.contents().len() == 0 ==> r.mapping() == Map::<Seq<u8>, Seq<u8>>::empty());
                Ok(r)
            },
            Err(e) => Err(e),
        }
    }

    /// The root the view is bound to.
    pub fn root(&self) -> (r: Vec<u8>)
        ensures
            r@ == self.root_view(),
    {
        copy_bytes(self.root.as_slice())
    }

    /// Whether the tree holds no entry.
    pub fn is_empty(&self) -> (r: bool)
        requires
            self.wf(),
        ensures
            r == (self.mapping() == Map::<Seq<u8>, Seq<u8>>::empty()),
    {
        if self.entries.len() > 0 {
            assert(self.mapping().contains_key(self.contents()[0].0));
        }
        self.entries.len() == 0
    }

    /// The value under `key`, if any.
    pub fn get(&self, key: &[u8]) -> (r: Option<Vec<u8>>)
        requires
            self.wf(),
        ensures
            r is Some == self.mapping().contains_key(key@),
            r is Some ==> r->Some_0@ == self.mapping()[key@],
    {
        value_at(&self.entries, key)
    }

    /// Whether the tree holds `key`.
    pub fn contains(&self, key: &[u8]) -> (r: bool)
        requires
            self.wf(),
        ensures
            r == self.mapping().contains_key(key@),
    {
        value_at(&self.entries, key).is_some()
    }
}

/// Canonical commitment: two trees that hold the same key-value mapping have
/// the same root hash, whatever updates produced each of them.
pub proof fn lemma_canonical_commitment(a: &AVLDBMut, b: &AVLDBMut)
    requires
        a.wf(),
        b.wf(),
        a.mapping() == b.mapping(),
    ensures
        a.root_view() == b.root_view(),
{
    lemma_sorted_unique(a.contents(), b.contents());
}

/// A read-only view and a mutable one that hold the same mapping are bound
/// to the same root.
pub proof fn lemma_views_agree(a: &AVLDB, b: &AVLDBMut)
    requires
        a.wf(),
        b.wf(),
        a.mapping() == b.mapping(),
    ensures
        a.root_view() == b.root_view(),
{
    lemma_sorted_unique(a.contents(), b.contents());
}

/// Round trip: when `insert(key, value)` has taken view `a` to `b`, `get(key)`
/// on `b` returns `value`; when a following `remove(key)` has taken `b` to
/// `c`, `get(key)` on `c` returns nothing.
pub proof fn lemma_round_trip(a: &AVLDBMut, b: &AVLDBMut, c: &AVLDBMut, key: Seq<u8>, value: Seq<u8>)
    requires
        b.mapping() == a.mapping().insert(key, value),
        c.mapping() == b.mapping().remove(key),
    ensures
        b.mapping().contains_key(key),
        b.mapping()[key] == value,
        !c.mapping().contains_key(key),
{
}

/// Replacement: when `insert(key, v1)` has taken view `a` to `b` and
/// `insert(key, v2)` has taken `b` to `c`, the second insert returns `v1`,
/// and `c` holds one entry for `key`, with `v2`: the same mapping, and so
/// the same root, as a view `d` that got only `insert(key, v2)`.
pub proof fn lemma_replace(
    a: &AVLDBMut,
    b: &AVLDBMut,
    c: &AVLDBMut,
    d: &AVLDBMut,
    key: Seq<u8>,
    v1: Seq<u8>,
    v2: Seq<u8>,
)
    requires
        c.wf(),
        d.wf(),
        b.mapping() == a.mapping().insert(key, v1),
        c.mapping() == b.mapping().insert(key, v2),
        d.mapping() == a.mapping().insert(key, v2),
    ensures
        b.mapping().contains_key(key),
        b.mapping()[key] == v1,
        c.mapping().contains_key(key),
        c.mapping()[key] == v2,
        c.mapping() == d.mapping(),
        c.root_view() == d.root_view(),
{
    assert(c.mapping() =~= d.mapping());
    lemma_canonical_commitment(c, d);
}

/// Balance: in the tree of any view, at every node the heights of the two
/// subtrees differ by at most one.
pub proof fn lemma_balanced(t: &AVLDBMut)
    requires
        t.wf(),
    ensures
        shape_balanced(t.contents().len()),
{
    lemma_shape_balanced(t.contents().len());
}

} // verus!
