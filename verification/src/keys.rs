//! Lexicographic order on byte strings. Keys and node identifiers are byte
//! strings; the store keeps its records sorted by this order so that range
//! enumeration and Merkle-tree construction are deterministic.

use vstd::prelude::*;

verus! {

/// `a` comes strictly before `b`: either `a` is a proper prefix of `b`, or at
/// the first differing position `a` holds the smaller byte.
pub open spec fn lex_lt(a: Seq<u8>, b: Seq<u8>) -> bool
    decreases a.len(),
{
    if b.len() == 0 {
        false
    } else if a.len() == 0 {
        true
    } else if a[0] < b[0] {
        true
    } else if a[0] > b[0] {
        false
    } else {
        lex_lt(a.skip(1), b.skip(1))
    }
}

pub proof fn lemma_lex_irreflexive(a: Seq<u8>)
    ensures
        !lex_lt(a, a),
    decreases a.len(),
{
    if a.len() > 0 {
        lemma_lex_irreflexive(a.skip(1));
    }
}

pub proof fn lemma_lex_asymmetric(a: Seq<u8>, b: Seq<u8>)
    requires
        lex_lt(a, b),
    ensures
        !lex_lt(b, a),
    decreases a.len(),
{
    if a.len() > 0 && b.len() > 0 && a[0] == b[0] {
        lemma_lex_asymmetric(a.skip(1), b.skip(1));
    }
}

pub proof fn lemma_lex_transitive(a: Seq<u8>, b: Seq<u8>, c: Seq<u8>)
    requires
        lex_lt(a, b),
        lex_lt(b, c),
    ensures
        lex_lt(a, c),
    decreases a.len(),
{
    if a.len() > 0 && b.len() > 0 && c.len() > 0 && a[0] == b[0] && b[0] == c[0] {
        lemma_lex_transitive(a.skip(1), b.skip(1), c.skip(1));
    }
}

/// Any two byte strings are comparable: the order is total.
pub proof fn lemma_lex_total(a: Seq<u8>, b: Seq<u8>)
    ensures
        lex_lt(a, b) || lex_lt(b, a) || a == b,
    decreases a.len(),
{
    if a.len() == 0 {
        if b.len() == 0 {
            assert(a =~= b);
        }
    } else if b.len() > 0 && a[0] == b[0] {
        lemma_lex_total(a.skip(1), b.skip(1));
        if !lex_lt(a, b) && !lex_lt(b, a) {
            assert(a =~= b) by {
                assert(a.skip(1) == b.skip(1));
                assert(forall|i: int| 1 <= i < a.len() ==> a[i] == a.skip(1)[i - 1]);
                assert(forall|i: int| 1 <= i < b.len() ==> b[i] == b.skip(1)[i - 1]);
            }
        }
    }
}

/// Comparison is unaffected by removing an equal prefix from both strings.
pub proof fn lemma_lex_skip_prefix(a: Seq<u8>, b: Seq<u8>, i: int)
    requires
        0 <= i <= a.len(),
        i <= b.len(),
        a.subrange(0, i) == b.subrange(0, i),
    ensures
        lex_lt(a, b) == lex_lt(a.skip(i), b.skip(i)),
    decreases i,
{
    if i == 0 {
        assert(a.skip(0) =~= a);
        assert(b.skip(0) =~= b);
    } else {
        assert(a.subrange(0, i)[0] == a[0]);
        assert(b.subrange(0, i)[0] == b[0]);
        assert(a.skip(1).subrange(0, i - 1) =~= b.skip(1).subrange(0, i - 1)) by {
            assert(forall|j: int| 0 <= j < i ==> #[trigger] a[j] == a.subrange(0, i)[j]);
            assert(forall|j: int| 0 <= j < i ==> #[trigger] b[j] == b.subrange(0, i)[j]);
            assert(forall|j: int|
                0 <= j < i - 1 ==> #[trigger] a.skip(1).subrange(0, i - 1)[j] == a[j + 1]);
            assert(forall|j: int|
                0 <= j < i - 1 ==> #[trigger] b.skip(1).subrange(0, i - 1)[j] == b[j + 1]);
        }
        lemma_lex_skip_prefix(a.skip(1), b.skip(1), i - 1);
        assert(a.skip(1).skip(i - 1) =~= a.skip(i));
        assert(b.skip(1).skip(i - 1) =~= b.skip(i));
    }
}

/// Three-way comparison of two byte strings in the order of `lex_lt`:
/// `-1` for before, `0` for equal, `1` for after.
pub fn compare_bytes(a: &Vec<u8>, b: &Vec<u8>) -> (r: i8)
    ensures
        -1i8 <= r <= 1i8,
        (r == -1i8) <==> lex_lt(a@, b@),
        (r == 0i8) <==> (a@ == b@),
        (r == 1i8) <==> lex_lt(b@, a@),
{
    let mut i: usize = 0;
    loop
        invariant
            i <= a.len(),
            i <= b.len(),
            a@.subrange(0, i as int) =~= b@.subrange(0, i as int),
        decreases a@.len() - i,
    {
        proof {
            lemma_lex_skip_prefix(a@, b@, i as int);
            lemma_lex_skip_prefix(b@, a@, i as int);
        }
        if i == a.len() && i == b.len() {
            proof {
                assert(forall|j: int|
                    0 <= j < i ==> #[trigger] a@[j] == a@.subrange(0, i as int)[j]);
                assert(forall|j: int|
                    0 <= j < i ==> #[trigger] b@[j] == b@.subrange(0, i as int)[j]);
                assert(a@ =~= b@);
                lemma_lex_irreflexive(a@);
            }
            return 0;
        }
        if i == a.len() {
            proof {
                assert(lex_lt(a@, b@));
                lemma_lex_asymmetric(a@, b@);
            }
            return -1;
        }
        if i == b.len() {
            proof {
                assert(lex_lt(b@, a@));
                lemma_lex_asymmetric(b@, a@);
            }
            return 1;
        }
        let x = a[i];
        let y = b[i];
        if x < y {
            proof {
                assert(a@.skip(i as int)[0] == x);
                assert(b@.skip(i as int)[0] == y);
                assert(lex_lt(a@, b@));
                lemma_lex_asymmetric(a@, b@);
            }
            return -1;
        } else if y < x {
            proof {
                assert(a@.skip(i as int)[0] == x);
                assert(b@.skip(i as int)[0] == y);
                assert(lex_lt(b@, a@));
                lemma_lex_asymmetric(b@, a@);
            }
            return 1;
        }
        proof {
            assert(a@.subrange(0, i as int + 1) =~= b@.subrange(0, i as int + 1));
        }
        i = i + 1;
    }
}

/// Whether two byte strings hold the same bytes.
pub fn bytes_equal(a: &Vec<u8>, b: &Vec<u8>) -> (r: bool)
    ensures
        r == (a@ == b@),
{
    compare_bytes(a, b) == 0
}

/// A fresh vector holding the same bytes.
pub fn copy_bytes(v: &Vec<u8>) -> (r: Vec<u8>)
    ensures
        r@ == v@,
{
    let mut out: Vec<u8> = Vec::new();
    let mut i: usize = 0;
    while i < v.len()
        invariant
            i <= v.len(),
            out@ =~= v@.subrange(0, i as int),
        decreases v@.len() - i,
    {
        out.push(v[i]);
        proof {
            assert(out@ =~= v@.subrange(0, i as int + 1));
        }
        i = i + 1;
    }
    proof {
        assert(out@ =~= v@);
    }
    out
}

} // verus!
