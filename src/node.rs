//! The canonical tree shape over sorted entries, the byte layout of a node,
//! and the commitment (root hash) of a sorted entry sequence.
use vstd::prelude::*;
use crate::bytes::{lemma_lex_irrefl, lemma_lex_trans, lex_lt};
use crate::hash::{keccak, keccak_of, null_hash, null_hash_spec};
use crate::keymap::{lemma_map_of_in, lemma_map_of_not_in, map_of, sorted};

verus! {

/// A key-value entry as the contracts see it.
pub type EntryModel = (Seq<u8>, Seq<u8>);

/// The entries of a vector of key-value pairs, as byte sequences.
pub open spec fn entries_model(s: Seq<(Vec<u8>, Vec<u8>)>) -> Seq<EntryModel> {
    s.map_values(|e: (Vec<u8>, Vec<u8>)| (e.0@, e.1@))
}

/// Height of the canonical tree over `n` entries; an empty tree has height 0.
pub open spec fn tree_height(n: nat) -> nat
    decreases n,
{
    if n == 0 {
        0
    } else {
        1 + tree_height(n / 2)
    }
}

/// Number of entries left of the root of the canonical tree over `n > 0`
/// entries: the root is the middle entry.
pub open spec fn left_size(n: nat) -> nat {
    n / 2
}

/// Number of entries right of the root of the canonical tree over `n > 0` entries.
pub open spec fn right_size(n: nat) -> nat {
    (n - n / 2 - 1) as nat
}

/// In the canonical tree over `n` entries, at every node the heights of the
/// two subtrees differ by at most one, and the height is one more than the
/// taller subtree's.
pub open spec fn shape_balanced(n: nat) -> bool
    decreases n,
{
    n == 0 || {
        let l = tree_height(left_size(n));
        let r = tree_height(right_size(n));
        &&& r <= l <= r + 1
        &&& tree_height(n) == 1 + l
        &&& shape_balanced(left_size(n))
        &&& shape_balanced(right_size(n))
    }
}

proof fn lemma_height_monotone(a: nat, b: nat)
    requires
        a <= b,
    ensures
        tree_height(a) <= tree_height(b),
    decreases b,
{
    if a > 0 {
        lemma_height_monotone(a / 2, b / 2);
    }
}

proof fn lemma_height_step(a: nat)
    ensures
        tree_height(a + 1) <= tree_height(a) + 1,
    decreases a,
{
    if a > 0 && (a + 1) / 2 != a / 2 {
        lemma_height_step(a / 2);
    }
}

/// The canonical tree over any number of entries is height-balanced.
pub proof fn lemma_shape_balanced(n: nat)
    ensures
        shape_balanced(n),
    decreases n,
{
    if n > 0 {
        lemma_height_monotone(right_size(n), left_size(n));
        lemma_height_step(right_size(n));
        lemma_height_monotone(left_size(n), right_size(n) + 1);
        lemma_shape_balanced(left_size(n));
        lemma_shape_balanced(right_size(n));
    }
}

/// Eight bytes, most significant first.
pub open spec fn be64(x: u64) -> Seq<u8> {
    seq![
        (x >> 56u64) as u8,
        (x >> 48u64) as u8,
        (x >> 40u64) as u8,
        (x >> 32u64) as u8,
        (x >> 24u64) as u8,
        (x >> 16u64) as u8,
        (x >> 8u64) as u8,
        x as u8,
    ]
}

/// The stored form of a node: key length, key, value length, value, the
/// hashes of the left and right subtrees, and the node's height.
pub open spec fn node_bytes(k: Seq<u8>, v: Seq<u8>, l: Seq<u8>, r: Seq<u8>, h: nat) -> Seq<u8> {
    be64(k.len() as u64) + k + be64(v.len() as u64) + v + l + r + be64(h as u64)
}

/// Hash of the canonical subtree over entries `lo..hi`; the null hash when
/// the range is empty.
pub open spec fn subtree_hash(m: Seq<EntryModel>, lo: int, hi: int) -> Seq<u8>
    decreases hi - lo,
{
    if lo >= hi {
        null_hash_spec()
    } else {
        let mid = lo + (hi - lo) / 2;
        keccak_of(
            node_bytes(
                m[mid].0,
                m[mid].1,
                subtree_hash(m, lo, mid),
                subtree_hash(m, mid + 1, hi),
                tree_height((hi - lo) as nat),
            ),
        )
    }
}

/// The commitment to a sorted entry sequence.
pub open spec fn root_of(m: Seq<EntryModel>) -> Seq<u8> {
    subtree_hash(m, 0, m.len() as int)
}

/// Two sorted entry sequences that denote the same map are the same sequence.
pub proof fn lemma_sorted_unique(a: Seq<EntryModel>, b: Seq<EntryModel>)
    requires
        sorted(a),
        sorted(b),
        map_of(a) == map_of(b),
    ensures
        a == b,
    decreases a.len(),
{
    if a.len() == 0 {
        if b.len() > 0 {
            assert(map_of(b).contains_key(b[0].0));
        }
        assert(a =~= b);
    } else {
        assert(map_of(a).contains_key(a[0].0));
        if b.len() == 0 {
            assert(false);
        }
        lemma_map_of_in(b, a[0].0);
        let j = choose|j: int| 0 <= j < b.len() && b[j].0 == a[0].0;
        assert(map_of(b).contains_key(b[0].0));
        lemma_map_of_in(a, b[0].0);
        let i = choose|i: int| 0 <= i < a.len() && a[i].0 == b[0].0;
        if j > 0 && i > 0 {
            assert(lex_lt(b[0].0, b[j].0));
            assert(lex_lt(a[0].0, a[i].0));
            lemma_lex_trans(a[0].0, b[0].0, a[0].0);
            lemma_lex_irrefl(a[0].0);
        }
        let k = a[0].0;
        assert(b[0].0 == k);
        assert(a[0].1 == b[0].1) by {
            assert(map_of(a)[k] == a[0].1);
            assert(map_of(b)[k] == b[0].1);
        }
        let ta = a.drop_first();
        let tb = b.drop_first();
        assert forall|x: int| 0 <= x < ta.len() implies #[trigger] ta[x].0 != k by {
            assert(lex_lt(a[0].0, a[x + 1].0));
            lemma_lex_irrefl(k);
        }
        assert forall|x: int| 0 <= x < tb.len() implies #[trigger] tb[x].0 != k by {
            assert(lex_lt(b[0].0, b[x + 1].0));
            lemma_lex_irrefl(k);
        }
        lemma_map_of_not_in(ta, k);
        lemma_map_of_not_in(tb, k);
        assert(map_of(ta) =~= map_of(a).remove(k));
        assert(map_of(tb) =~= map_of(b).remove(k));
        assert forall|x: int, y: int| 0 <= x < y < ta.len() implies lex_lt(
            #[trigger] ta[x].0,
            #[trigger] ta[y].0,
        ) by {
            assert(lex_lt(a[x + 1].0, a[y + 1].0));
        }
        assert forall|x: int, y: int| 0 <= x < y < tb.len() implies lex_lt(
            #[trigger] tb[x].0,
            #[trigger] tb[y].0,
        ) by {
            assert(lex_lt(b[x + 1].0, b[y + 1].0));
        }
        lemma_sorted_unique(ta, tb);
        assert(a =~= b) by {
            assert forall|x: int| 0 <= x < a.len() implies a[x] == b[x] by {
                if x > 0 {
                    assert(a[x] == ta[x - 1]);
                    assert(b[x] == tb[x - 1]);
                }
            }
        }
    }
}

/// The height of the canonical tree over `n` entries.
pub fn height_of(n: usize) -> (r: u64)
    ensures
        r as nat == tree_height(n as nat),
{
    let mut m: usize = n;
    let mut h: u64 = 0;
    while m > 0
        invariant
            h as nat + tree_height(m as nat) == tree_height(n as nat),
            h as nat + m as nat <= n as nat,
        decreases m,
    {
        m = m / 2;
        h = h + 1;
    }
    h
}

fn push_be64(out: &mut Vec<u8>, x: u64)
    ensures
        final(out)@ == old(out)@ + be64(x),
{
    out.push((x >> 56u64) as u8);
    out.push((x >> 48u64) as u8);
    out.push((x >> 40u64) as u8);
    out.push((x >> 32u64) as u8);
    out.push((x >> 24u64) as u8);
    out.push((x >> 16u64) as u8);
    out.push((x >> 8u64) as u8);
    out.push(x as u8);
    assert(final(out)@ =~= old(out)@ + be64(x));
}

fn push_bytes(out: &mut Vec<u8>, s: &[u8])
    ensures
        final(out)@ == old(out)@ + s@,
{
    let ghost start = out@;
    let mut i: usize = 0;
    while i < s.len()
        invariant
            i <= s.len(),
            out@ == start + s@.subrange(0, i as int),
        decreases s.len() - i,
    {
        out.push(s[i]);
        i = i + 1;
        assert(out@ =~= start + s@.subrange(0, i as int));
    }
    assert(s@.subrange(0, i as int) =~= s@);
}

/// Lays out a node in its stored form.
pub fn encode_node(k: &[u8], v: &[u8], l: &[u8], r: &[u8], h: u64) -> (b: Vec<u8>)
    ensures
        b@ == node_bytes(k@, v@, l@, r@, h as nat),
{
    let mut b: Vec<u8> = Vec::new();
    push_be64(&mut b, k.len() as u64);
    push_bytes(&mut b, k);
    push_be64(&mut b, v.len() as u64);
    push_bytes(&mut b, v);
    push_bytes(&mut b, l);
    push_bytes(&mut b, r);
    push_be64(&mut b, h);
    assert(b@ =~= node_bytes(k@, v@, l@, r@, h as nat));
    b
}

/// Hashes the canonical subtree over `entries[lo..hi]`, appending each of its
/// nodes, children first, to `nodes` as (hash, stored form).
pub fn build(
    entries: &Vec<(Vec<u8>, Vec<u8>)>,
    lo: usize,
    hi: usize,
    nodes: &mut Vec<(Vec<u8>, Vec<u8>)>,
) -> (h: Vec<u8>)
    requires
        lo <= hi <= entries@.len(),
    ensures
        h@ == subtree_hash(entries_model(entries@), lo as int, hi as int),
        hi > lo ==> final(nodes)@.len() > old(nodes)@.len() && final(nodes)@.last().0@ == h@,
        hi <= lo ==> final(nodes)@ == old(nodes)@,
        final(nodes)@.len() >= old(nodes)@.len(),
        forall|i: int| 0 <= i < old(nodes)@.len() ==> #[trigger] final(nodes)@[i] == old(nodes)@[i],
        forall|i: int|
            old(nodes)@.len() <= i < final(nodes)@.len() ==> (#[trigger] final(nodes)@[i]).0@.len() == 32,
    decreases hi - lo,
{
    if lo >= hi {
        return null_hash();
    }
    let mid = lo + (hi - lo) / 2;
    let lh = build(entries, lo, mid, nodes);
    let rh = build(entries, mid + 1, hi, nodes);
    let height = height_of(hi - lo);
    let blob = encode_node(
        entries[mid].0.as_slice(),
        entries[mid].1.as_slice(),
        lh.as_slice(),
        rh.as_slice(),
        height,
    );
    let h = keccak(blob.as_slice());
    let hc = crate::bytes::copy_bytes(h.as_slice());
    nodes.push((hc, blob));
    h
}

/// The fields of a stored node, as read back from its bytes.
pub(crate) struct DecodedNode {
    pub key: Vec<u8>,
    pub value: Vec<u8>,
    pub left: Vec<u8>,
    pub right: Vec<u8>,
}

/// The number written big-endian in the eight bytes of `b` from `p` on.
pub open spec fn be64_read(b: Seq<u8>, p: int) -> u64 {
    (b[p] as u64) << 56u64 | (b[p + 1] as u64) << 48u64 | (b[p + 2] as u64) << 40u64 | (b[p
        + 3] as u64) << 32u64 | (b[p + 4] as u64) << 24u64 | (b[p + 5] as u64) << 16u64 | (b[p
        + 6] as u64) << 8u64 | (b[p + 7] as u64)
}

fn read_be64(b: &[u8], p: usize) -> (r: u64)
    requires
        p + 8 <= b@.len(),
    ensures
        r == be64_read(b@, p as int),
{
    (b[p] as u64) << 56u64 | (b[p + 1] as u64) << 48u64 | (b[p + 2] as u64) << 40u64 | (b[p
        + 3] as u64) << 32u64 | (b[p + 4] as u64) << 24u64 | (b[p + 5] as u64) << 16u64 | (b[p
        + 6] as u64) << 8u64 | (b[p + 7] as u64)
}

/// Eight bytes written by `be64` read back as the same number.
proof fn lemma_be64_read(b: Seq<u8>, p: int, x: u64)
    requires
        0 <= p,
        p + 8 <= b.len(),
        b.subrange(p, p + 8) == be64(x),
    ensures
        be64_read(b, p) == x,
{
    let c = b.subrange(p, p + 8);
    assert(b[p] == c[0] && b[p + 1] == c[1] && b[p + 2] == c[2] && b[p + 3] == c[3]);
    assert(b[p + 4] == c[4] && b[p + 5] == c[5] && b[p + 6] == c[6] && b[p + 7] == c[7]);
    let b0 = (x >> 56u64) as u8;
    let b1 = (x >> 48u64) as u8;
    let b2 = (x >> 40u64) as u8;
    let b3 = (x >> 32u64) as u8;
    let b4 = (x >> 24u64) as u8;
    let b5 = (x >> 16u64) as u8;
    let b6 = (x >> 8u64) as u8;
    let b7 = x as u8;
    assert((b0 as u64) << 56u64 | (b1 as u64) << 48u64 | (b2 as u64) << 40u64 | (b3 as u64)
        << 32u64 | (b4 as u64) << 24u64 | (b5 as u64) << 16u64 | (b6 as u64) << 8u64 | (b7 as u64)
        == x) by (bit_vector)
        requires
            b0 == (x >> 56u64) as u8,
            b1 == (x >> 48u64) as u8,
            b2 == (x >> 40u64) as u8,
            b3 == (x >> 32u64) as u8,
            b4 == (x >> 24u64) as u8,
            b5 == (x >> 16u64) as u8,
            b6 == (x >> 8u64) as u8,
            b7 == x as u8,
    ;
}

fn copy_range(b: &[u8], from: usize, to: usize) -> (r: Vec<u8>)
    requires
        from <= to <= b@.len(),
    ensures
        r@ == b@.subrange(from as int, to as int),
{
    let mut r: Vec<u8> = Vec::new();
    let mut i: usize = from;
    while i < to
        invariant
            from <= i <= to <= b@.len(),
            r@ == b@.subrange(from as int, i as int),
        decreases to - i,
    {
        r.push(b[i]);
        i = i + 1;
        assert(r@ =~= b@.subrange(from as int, i as int));
    }
    r
}

/// The key, value and child hashes of a stored node; `None` when the bytes
/// are not laid out as a node.
#[verifier::opaque]
pub open spec fn parse_node(b: Seq<u8>) -> Option<(Seq<u8>, Seq<u8>, Seq<u8>, Seq<u8>)> {
    if b.len() < 8 {
        None
    } else {
        let kl = be64_read(b, 0) as int;
        if kl > b.len() - 8 {
            None
        } else {
            let kend = 8 + kl;
            if b.len() - kend < 8 {
                None
            } else {
                let vl = be64_read(b, kend) as int;
                let vstart = kend + 8;
                if vl > b.len() - vstart {
                    None
                } else {
                    let vend = vstart + vl;
                    if b.len() - vend != 72 {
                        None
                    } else {
                        Some(
                            (
                                b.subrange(8, kend),
                                b.subrange(vstart, vend),
                                b.subrange(vend, vend + 32),
                                b.subrange(vend + 32, vend + 64),
                            ),
                        )
                    }
                }
            }
        }
    }
}

/// A node's stored form parses back to its key, value and child hashes.
pub proof fn lemma_parse_node_bytes(k: Seq<u8>, v: Seq<u8>, l: Seq<u8>, r: Seq<u8>, h: nat)
    requires
        k.len() <= u64::MAX,
        v.len() <= u64::MAX,
        l.len() == 32,
        r.len() == 32,
    ensures
        parse_node(node_bytes(k, v, l, r, h)) == Some((k, v, l, r)),
{
    reveal(parse_node);
    let b = node_bytes(k, v, l, r, h);
    let kend: int = 8 + k.len() as int;
    let vstart: int = kend + 8;
    let vend: int = vstart + v.len() as int;
    assert(b.subrange(0, 8) =~= be64(k.len() as u64));
    lemma_be64_read(b, 0, k.len() as u64);
    assert(b.subrange(kend as int, kend + 8) =~= be64(v.len() as u64));
    lemma_be64_read(b, kend as int, v.len() as u64);
    assert(b.subrange(8, kend as int) =~= k);
    assert(b.subrange(vstart as int, vend as int) =~= v);
    assert(b.subrange(vend as int, vend + 32) =~= l);
    assert(b.subrange(vend + 32, vend + 64) =~= r);
}

/// Reads a node back from its stored form; `None` when the bytes are not
/// laid out as a node.
pub(crate) fn decode_node(b: &[u8]) -> (r: Option<DecodedNode>)
    ensures
        r is Some == parse_node(b@) is Some,
        r is Some ==> ({
            let t = parse_node(b@)->Some_0;
            &&& r->Some_0.key@ == t.0
            &&& r->Some_0.value@ == t.1
            &&& r->Some_0.left@ == t.2
            &&& r->Some_0.right@ == t.3
        }),
{
    reveal(parse_node);
    let n = b.len();
    if n < 8 {
        return None;
    }
    let klen = read_be64(b, 0);
    if klen > (n - 8) as u64 {
        return None;
    }
    let kend = 8 + klen as usize;
    if n - kend < 8 {
        return None;
    }
    let vlen = read_be64(b, kend);
    let vstart = kend + 8;
    if vlen > (n - vstart) as u64 {
        return None;
    }
    let vend = vstart + vlen as usize;
    if n - vend != 72 {
        return None;
    }
    Some(
        DecodedNode {
            key: copy_range(b, 8, kend),
            value: copy_range(b, vstart, vend),
            left: copy_range(b, vend, vend + 32),
            right: copy_range(b, vend + 32, vend + 64),
        },
    )
}

/// The store `s` holds every node of the canonical tree over `m[lo..hi]`:
/// each under its hash, which is 32 bytes and not the null hash, in its
/// stored form.
pub open spec fn stored(s: Map<Seq<u8>, (Seq<u8>, nat)>, m: Seq<EntryModel>, lo: int, hi: int) -> bool
    decreases hi - lo,
{
    lo >= hi || {
        let mid = lo + (hi - lo) / 2;
        let h = subtree_hash(m, lo, hi);
        &&& h != null_hash_spec()
        &&& h.len() == 32
        &&& m[mid].0.len() <= u64::MAX
        &&& m[mid].1.len() <= u64::MAX
        &&& s.contains_key(h)
        &&& s[h].0 == node_bytes(
            m[mid].0,
            m[mid].1,
            subtree_hash(m, lo, mid),
            subtree_hash(m, mid + 1, hi),
            tree_height((hi - lo) as nat),
        )
        &&& stored(s, m, lo, mid)
        &&& stored(s, m, mid + 1, hi)
    }
}

/// The store after adding one reference to `b` under `h`.
pub open spec fn put(s: Map<Seq<u8>, (Seq<u8>, nat)>, h: Seq<u8>, b: Seq<u8>) -> Map<Seq<u8>, (Seq<u8>, nat)> {
    s.insert(h, (b, if s.contains_key(h) { crate::memorydb::bumped(s[h].1) } else { 1 }))
}

/// The store after storing the canonical tree over `m[lo..hi]`, children
/// before parents, one reference per node; `None` when some node cannot be
/// stored: its hash is the null hash, or its address already holds other
/// bytes (a hash collision), or its key or value is too long to lay out.
pub open spec fn stored_after(s: Map<Seq<u8>, (Seq<u8>, nat)>, m: Seq<EntryModel>, lo: int, hi: int) -> Option<
    Map<Seq<u8>, (Seq<u8>, nat)>,
>
    decreases hi - lo,
{
    if lo >= hi {
        Some(s)
    } else {
        let mid = lo + (hi - lo) / 2;
        match stored_after(s, m, lo, mid) {
            None => None,
            Some(s1) => match stored_after(s1, m, mid + 1, hi) {
                None => None,
                Some(s2) => {
                    let h = subtree_hash(m, lo, hi);
                    let b = node_bytes(
                        m[mid].0,
                        m[mid].1,
                        subtree_hash(m, lo, mid),
                        subtree_hash(m, mid + 1, hi),
                        tree_height((hi - lo) as nat),
                    );
                    if h == null_hash_spec() || h.len() != 32 || m[mid].0.len() > u64::MAX
                        || m[mid].1.len() > u64::MAX || (s2.contains_key(h) && s2[h].0 != b) {
                        None
                    } else {
                        Some(put(s2, h, b))
                    }
                },
            },
        }
    }
}

/// Storing a tree leaves it stored, and keeps the bytes of every entry
/// already there.
pub proof fn lemma_stored_after(s: Map<Seq<u8>, (Seq<u8>, nat)>, m: Seq<EntryModel>, lo: int, hi: int)
    requires
        stored_after(s, m, lo, hi) is Some,
    ensures
        stored(stored_after(s, m, lo, hi)->Some_0, m, lo, hi),
        forall|k: Seq<u8>| #[trigger] s.contains_key(k) ==> stored_after(s, m, lo, hi)->Some_0.contains_key(k)
            && stored_after(s, m, lo, hi)->Some_0[k].0 == s[k].0,
    decreases hi - lo,
{
    if lo < hi {
        let mid = lo + (hi - lo) / 2;
        let s1 = stored_after(s, m, lo, mid)->Some_0;
        let s2 = stored_after(s1, m, mid + 1, hi)->Some_0;
        let t = stored_after(s, m, lo, hi)->Some_0;
        lemma_stored_after(s, m, lo, mid);
        lemma_stored_after(s1, m, mid + 1, hi);
        assert forall|k: Seq<u8>| #[trigger] s2.contains_key(k) implies t.contains_key(k) && t[k].0 == s2[k].0 by {}
        lemma_stored_frame(s1, t, m, lo, mid);
        lemma_stored_frame(s2, t, m, mid + 1, hi);
    }
}

/// Whether a canonical tree is stored depends only on the store's entries
/// at 32-byte addresses.
pub proof fn lemma_stored_frame(
    s: Map<Seq<u8>, (Seq<u8>, nat)>,
    t: Map<Seq<u8>, (Seq<u8>, nat)>,
    m: Seq<EntryModel>,
    lo: int,
    hi: int,
)
    requires
        stored(s, m, lo, hi),
        forall|k: Seq<u8>| #![trigger t.contains_key(k)] k.len() == 32 && s.contains_key(k) ==> t.contains_key(k) && t[k].0 == s[k].0,
    ensures
        stored(t, m, lo, hi),
    decreases hi - lo,
{
    if lo < hi {
        let mid = lo + (hi - lo) / 2;
        let h = subtree_hash(m, lo, hi);
        assert(t.contains_key(h));
        lemma_stored_frame(s, t, m, lo, mid);
        lemma_stored_frame(s, t, m, mid + 1, hi);
    }
}

/// The entries, in order, of the tree stored in `s` under `h`, read down to
/// at most `depth` levels; `None` when a node is missing or malformed or the
/// tree is deeper.
pub open spec fn read_tree(s: Map<Seq<u8>, (Seq<u8>, nat)>, h: Seq<u8>, depth: nat) -> Option<
    Seq<EntryModel>,
>
    decreases depth,
{
    if h == null_hash_spec() {
        Some(Seq::empty())
    } else if depth == 0 || !s.contains_key(h) {
        None
    } else {
        match parse_node(s[h].0) {
            None => None,
            Some(t) => match (read_tree(s, t.2, (depth - 1) as nat), read_tree(s, t.3, (depth - 1) as nat)) {
                (Some(a), Some(c)) => Some(a + seq![(t.0, t.1)] + c),
                _ => None,
            },
        }
    }
}

/// A stored canonical tree reads back as its entries.
pub proof fn lemma_read_stored(s: Map<Seq<u8>, (Seq<u8>, nat)>, m: Seq<EntryModel>, lo: int, hi: int, depth: nat)
    requires
        0 <= lo <= hi <= m.len(),
        stored(s, m, lo, hi),
        tree_height((hi - lo) as nat) <= depth,
    ensures
        read_tree(s, subtree_hash(m, lo, hi), depth) == Some(m.subrange(lo, hi)),
    decreases hi - lo,
{
    if lo >= hi {
        assert(m.subrange(lo, hi) =~= Seq::<EntryModel>::empty());
    } else {
        let mid = lo + (hi - lo) / 2;
        let n = (hi - lo) as nat;
        let lh = subtree_hash(m, lo, mid);
        let rh = subtree_hash(m, mid + 1, hi);
        assert(null_hash_spec().len() == 32);
        if lo < mid {
            assert(stored(s, m, lo, mid));
            assert(lh.len() == 32);
        } else {
            assert(lh == null_hash_spec());
        }
        if mid + 1 < hi {
            assert(stored(s, m, mid + 1, hi));
            assert(rh.len() == 32);
        } else {
            assert(rh == null_hash_spec());
        }
        lemma_parse_node_bytes(m[mid].0, m[mid].1, lh, rh, tree_height(n));
        assert((mid - lo) as nat == left_size(n));
        assert((hi - (mid + 1)) as nat == right_size(n));
        lemma_height_monotone(right_size(n), left_size(n));
        lemma_read_stored(s, m, lo, mid, (depth - 1) as nat);
        lemma_read_stored(s, m, mid + 1, hi, (depth - 1) as nat);
        let h = subtree_hash(m, lo, hi);
        assert(s[h].0 == node_bytes(m[mid].0, m[mid].1, lh, rh, tree_height(n)));
        assert(parse_node(s[h].0) == Some((m[mid].0, m[mid].1, lh, rh)));
        assert(read_tree(s, h, depth) == Some(
            m.subrange(lo, mid) + seq![(m[mid].0, m[mid].1)] + m.subrange(mid + 1, hi),
        ));
        assert(m.subrange(lo, mid) + seq![(m[mid].0, m[mid].1)] + m.subrange(mid + 1, hi) =~= m.subrange(lo, hi));
    }
}

/// The canonical tree over fewer than `2^k` entries is at most `k` high.
pub proof fn lemma_height_bound(n: nat, k: nat)
    requires
        n < vstd::arithmetic::power2::pow2(k),
    ensures
        tree_height(n) <= k,
    decreases k,
{
    if n > 0 {
        if k == 0 {
            vstd::arithmetic::power2::lemma2_to64();
        } else {
            vstd::arithmetic::power2::lemma_pow2_unfold(k);
            lemma_height_bound(n / 2, (k - 1) as nat);
        }
    }
}

} // verus!
