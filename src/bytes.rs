//! Byte-lexicographic order on byte strings.
use vstd::prelude::*;

verus! {

/// `a` comes before `b` when the two are compared from position `i` on.
pub open spec fn lex_lt_from(a: Seq<u8>, b: Seq<u8>, i: nat) -> bool
    decreases a.len() - i,
{
    if i >= a.len() {
        b.len() > i
    } else if i >= b.len() {
        false
    } else if a[i as int] < b[i as int] {
        true
    } else if a[i as int] > b[i as int] {
        false
    } else {
        lex_lt_from(a, b, i + 1)
    }
}

/// Byte-lexicographic "less than"; a proper prefix comes first.
pub open spec fn lex_lt(a: Seq<u8>, b: Seq<u8>) -> bool {
    lex_lt_from(a, b, 0)
}

proof fn lemma_lex_irrefl_from(a: Seq<u8>, i: nat)
    ensures
        !lex_lt_from(a, a, i),
    decreases a.len() - i,
{
    if i < a.len() {
        lemma_lex_irrefl_from(a, i + 1);
    }
}

/// No byte string comes before itself.
pub proof fn lemma_lex_irrefl(a: Seq<u8>)
    ensures
        !lex_lt(a, a),
{
    lemma_lex_irrefl_from(a, 0);
}

proof fn lemma_lex_trans_from(a: Seq<u8>, b: Seq<u8>, c: Seq<u8>, i: nat)
    requires
        lex_lt_from(a, b, i),
        lex_lt_from(b, c, i),
    ensures
        lex_lt_from(a, c, i),
    decreases a.len() - i,
{
    if i < a.len() && i < b.len() && i < c.len() && a[i as int] == b[i as int]
        && b[i as int] == c[i as int] {
        lemma_lex_trans_from(a, b, c, i + 1);
    }
}

/// The order is transitive.
pub proof fn lemma_lex_trans(a: Seq<u8>, b: Seq<u8>, c: Seq<u8>)
    requires
        lex_lt(a, b),
        lex_lt(b, c),
    ensures
        lex_lt(a, c),
{
    lemma_lex_trans_from(a, b, c, 0);
}

/// Three-way comparison: negative, zero or positive as `a` comes before,
/// equals or comes after `b`.
pub fn compare(a: &[u8], b: &[u8]) -> (r: i8)
    ensures
        (r == 0) == (a@ == b@),
        (r < 0) == lex_lt(a@, b@),
        (r > 0) == lex_lt(b@, a@),
{
    let mut i: usize = 0;
    while i < a.len() && i < b.len()
        invariant
            i <= a.len(),
            i <= b.len(),
            forall|j: int| 0 <= j < i ==> a@[j] == b@[j],
            lex_lt(a@, b@) == lex_lt_from(a@, b@, i as nat),
            lex_lt(b@, a@) == lex_lt_from(b@, a@, i as nat),
        decreases a.len() - i,
    {
        if a[i] < b[i] {
            assert(a@ != b@);
            return -1;
        } else if a[i] > b[i] {
            assert(a@ != b@);
            return 1;
        }
        i = i + 1;
    }
    if i == a.len() && i == b.len() {
        assert(a@ =~= b@);
        0
    } else if i == a.len() {
        assert(a@.len() != b@.len());
        -1
    } else {
        assert(a@.len() != b@.len());
        1
    }
}

/// A fresh vector holding the bytes of `s`.
pub fn copy_bytes(s: &[u8]) -> (r: Vec<u8>)
    ensures
        r@ == s@,
{
    let mut r: Vec<u8> = Vec::new();
    let mut i: usize = 0;
    while i < s.len()
        invariant
            i <= s.len(),
            r@ == s@.subrange(0, i as int),
        decreases s.len() - i,
    {
        r.push(s[i]);
        i = i + 1;
        assert(r@ =~= s@.subrange(0, i as int));
    }
    assert(r@ =~= s@);
    r
}

} // verus!
