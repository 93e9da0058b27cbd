//! Merkle-tree summary of a store. The sorted record sequence is split
//! recursively in halves; a leaf digests one record's
//! `(key, version, tombstone, content digest)` tuple and an inner node digests
//! its two children. Replicas whose summaries agree need exchange no data;
//! the root is a function of record content alone, so identical contents at
//! two replicas always produce identical roots.

use vstd::prelude::*;
use crate::digest::{mix, mix_once, fold_bytes_spec, fold_bytes, content_hash, content_hash_of};
use crate::store::{
    RecordModel, Record, VersionedStore, lookup, sorted_by_key, same_essence, same_essence_opt,
    lemma_sorted_lookup, lemma_lookup_some, lemma_all_neq_lookup_none, lemma_lookup_none,
};
use crate::keys::{lex_lt, lemma_lex_irreflexive, lemma_lex_asymmetric};

verus! {

/// Starting value for leaf digests.
pub const LEAF_SEED: u64 = 0x9e3779b97f4a7c15;

/// Starting value for inner-node digests.
pub const NODE_SEED: u64 = 0x517cc1b727220a95;

/// Digest of one record: its key bytes, version, tombstone flag and content
/// digest. The mutation time deliberately stays out, so replicas may disagree
/// on it without their summaries diverging.
pub open spec fn leaf_hash(r: RecordModel) -> u64 {
    mix(
        mix(
            mix(fold_bytes_spec(LEAF_SEED, r.key), r.version),
            if r.tombstone {
                1
            } else {
                0
            },
        ),
        content_hash(r.value),
    )
}

/// Digest of an inner node from its children's digests.
pub open spec fn combine(l: u64, r: u64) -> u64 {
    mix(mix(NODE_SEED, l), r)
}

/// Root digest of the tree over a record sequence.
pub open spec fn root_hash_of(s: Seq<RecordModel>) -> u64
    decreases s.len(),
{
    if s.len() == 0 {
        0
    } else if s.len() == 1 {
        leaf_hash(s[0])
    } else {
        combine(root_hash_of(s.take(s.len() as int / 2)), root_hash_of(s.skip(s.len() as int / 2)))
    }
}

/// Height of the tree over a record sequence: zero when empty, one for a
/// single leaf, one more than the taller child otherwise.
pub open spec fn max_depth_of(s: Seq<RecordModel>) -> int
    decreases s.len(),
{
    if s.len() == 0 {
        0
    } else if s.len() == 1 {
        1
    } else {
        let l = max_depth_of(s.take(s.len() as int / 2));
        let r = max_depth_of(s.skip(s.len() as int / 2));
        1 + if l >= r {
            l
        } else {
            r
        }
    }
}

pub fn leaf_hash_of(rec: &Record) -> (r: u64)
    ensures
        r == leaf_hash(rec@),
{
    let h = fold_bytes(LEAF_SEED, &rec.key);
    let h = mix_once(h, rec.version);
    let h = mix_once(h, if rec.tombstone { 1 } else { 0 });
    mix_once(h, content_hash_of(&rec.value))
}

fn root_hash_range(v: &Vec<Record>, lo: usize, hi: usize, Ghost(s): Ghost<Seq<RecordModel>>) -> (r:
    u64)
    requires
        lo <= hi <= v@.len(),
        s.len() == v@.len(),
        forall|i: int| 0 <= i < v@.len() ==> (#[trigger] v@[i])@ == s[i],
    ensures
        r == root_hash_of(s.subrange(lo as int, hi as int)),
    decreases hi - lo,
{
    let ghost part = s.subrange(lo as int, hi as int);
    let n = hi - lo;
    if n == 0 {
        0
    } else if n == 1 {
        proof {
            assert(part[0] == s[lo as int]);
        }
        leaf_hash_of(&v[lo])
    } else {
        let m = lo + n / 2;
        let hl = root_hash_range(v, lo, m, Ghost(s));
        let hr = root_hash_range(v, m, hi, Ghost(s));
        proof {
            assert(part.take(part.len() as int / 2) =~= s.subrange(lo as int, m as int));
            assert(part.skip(part.len() as int / 2) =~= s.subrange(m as int, hi as int));
        }
        mix_once(mix_once(NODE_SEED, hl), hr)
    }
}

fn max_depth_range(v: &Vec<Record>, lo: usize, hi: usize, Ghost(s): Ghost<Seq<RecordModel>>) -> (r:
    usize)
    requires
        lo <= hi <= v@.len(),
        s.len() == v@.len(),
    ensures
        r == max_depth_of(s.subrange(lo as int, hi as int)),
        r <= hi - lo,
    decreases hi - lo,
{
    let ghost part = s.subrange(lo as int, hi as int);
    let n = hi - lo;
    if n == 0 {
        0
    } else if n == 1 {
        1
    } else {
        let m = lo + n / 2;
        let dl = max_depth_range(v, lo, m, Ghost(s));
        let dr = max_depth_range(v, m, hi, Ghost(s));
        proof {
            assert(part.take(part.len() as int / 2) =~= s.subrange(lo as int, m as int));
            assert(part.skip(part.len() as int / 2) =~= s.subrange(m as int, hi as int));
        }
        1 + if dl >= dr {
            dl
        } else {
            dr
        }
    }
}

/// Digest summarizing one key span of a store: the root of the subtree over
/// the records whose keys fall in the span.
pub open spec fn span_hash(s: Seq<RecordModel>, lo: Seq<u8>, hi: Option<Seq<u8>>) -> u64 {
    root_hash_of(crate::store::records_in_span(s, lo, hi))
}

/// The summary a replica reports for one key span during reconciliation.
pub fn span_summary(store: &VersionedStore, lo: &Vec<u8>, hi: Option<&Vec<u8>>) -> (r: u64)
    ensures
        r == span_hash(store@, lo@, crate::store::upper_view(hi)),
{
    let recs = store.scan_span(lo, hi);
    let ghost part = crate::store::records_in_span(store@, lo@, crate::store::upper_view(hi));
    let r = root_hash_range(&recs, 0, recs.len(), Ghost(part));
    proof {
        assert(part.subrange(0, part.len() as int) =~= part);
    }
    r
}

/// One node of the tree as reconciliation exchanges it: the key bounds of
/// the span it covers (an absent end bound covers to the top of the key
/// space), the span's digest, and how many records it summarizes. Child
/// nodes are obtained by summarizing the two halves of the span.
pub struct SpanNode {
    pub range_start: Vec<u8>,
    pub range_end: Option<Vec<u8>>,
    pub hash: u64,
    pub leaf_count: usize,
}

/// The tree node a replica reports for one key span.
pub fn summarize_span(store: &VersionedStore, lo: &Vec<u8>, hi: Option<&Vec<u8>>) -> (n: SpanNode)
    ensures
        n.range_start@ == lo@,
        (match n.range_end {
            Some(e) => crate::store::upper_view(hi) == Some(e@),
            None => crate::store::upper_view(hi) is None,
        }),
        n.hash == span_hash(store@, lo@, crate::store::upper_view(hi)),
        n.leaf_count == crate::store::records_in_span(store@, lo@, crate::store::upper_view(hi)).len(),
{
    let recs = store.scan_span(lo, hi);
    let ghost part = crate::store::records_in_span(store@, lo@, crate::store::upper_view(hi));
    let h = root_hash_range(&recs, 0, recs.len(), Ghost(part));
    proof {
        assert(part.subrange(0, part.len() as int) =~= part);
    }
    let range_end = match hi {
        Some(h2) => Some(crate::keys::copy_bytes(h2)),
        None => None,
    };
    SpanNode { range_start: crate::keys::copy_bytes(lo), range_end, hash: h, leaf_count: recs.len() }
}

/// Current root digest of the store's Merkle summary.
pub fn root_hash(store: &VersionedStore) -> (r: u64)
    ensures
        r == root_hash_of(store@),
{
    let recs = store.records();
    let r = root_hash_range(recs, 0, recs.len(), Ghost(store@));
    proof {
        assert(store@.subrange(0, store@.len() as int) =~= store@);
    }
    r
}

/// Audit summary of a synchronization pass: the post-sync root digest, how
/// many records the tree covers, and its height.
#[derive(Clone, Copy, PartialEq, Eq, Structural, Debug)]
pub struct SyncStats {
    pub tree_hash: u64,
    pub total_leaves: usize,
    pub max_depth: usize,
}

/// The store's current summary statistics.
pub fn tree_stats(store: &VersionedStore) -> (st: SyncStats)
    ensures
        st.tree_hash == root_hash_of(store@),
        st.total_leaves == store@.len(),
        st.max_depth == max_depth_of(store@),
{
    let recs = store.records();
    let h = root_hash_range(recs, 0, recs.len(), Ghost(store@));
    let d = max_depth_range(recs, 0, recs.len(), Ghost(store@));
    proof {
        assert(store@.subrange(0, store@.len() as int) =~= store@);
    }
    SyncStats { tree_hash: h, total_leaves: recs.len(), max_depth: d }
}

/// The tree digests only record essence, so two sequences that agree
/// pointwise on essence share their root digest and height.
pub proof fn lemma_root_hash_essence(s1: Seq<RecordModel>, s2: Seq<RecordModel>)
    requires
        s1.len() == s2.len(),
        forall|i: int| 0 <= i < s1.len() ==> same_essence(#[trigger] s1[i], s2[i]),
    ensures
        root_hash_of(s1) == root_hash_of(s2),
        max_depth_of(s1) == max_depth_of(s2),
    decreases s1.len(),
{
    if s1.len() >= 2 {
        let m = s1.len() as int / 2;
        assert(forall|i: int|
            0 <= i < m ==> same_essence(#[trigger] s1.take(m)[i], s2.take(m)[i]));
        assert(forall|i: int|
            0 <= i < s1.len() - m ==> same_essence(#[trigger] s1.skip(m)[i], s2.skip(m)[i]));
        lemma_root_hash_essence(s1.take(m), s2.take(m));
        lemma_root_hash_essence(s1.skip(m), s2.skip(m));
    }
}

/// Two sorted record sequences that hold the same content under every key
/// are the same sequence, record essence by record essence: sorted order is
/// canonical.
pub proof fn lemma_canonical_views(s1: Seq<RecordModel>, s2: Seq<RecordModel>)
    requires
        sorted_by_key(s1),
        sorted_by_key(s2),
        forall|k: Seq<u8>| same_essence_opt(#[trigger] lookup(s1, k), lookup(s2, k)),
    ensures
        s1.len() == s2.len(),
        forall|i: int| 0 <= i < s1.len() ==> same_essence(#[trigger] s1[i], s2[i]),
    decreases s1.len(),
{
    if s1.len() == 0 {
        if s2.len() > 0 {
            lemma_sorted_lookup(s2, 0);
            assert(same_essence_opt(lookup(s1, s2[0].key), lookup(s2, s2[0].key)));
            lemma_lookup_none(s1, s2[0].key);
            assert(false);
        }
    } else if s2.len() == 0 {
        lemma_sorted_lookup(s1, 0);
        assert(same_essence_opt(lookup(s1, s1[0].key), lookup(s2, s1[0].key)));
        assert(false);
    } else {
        let k1 = s1[0].key;
        let k2 = s2[0].key;
        lemma_sorted_lookup(s1, 0);
        lemma_sorted_lookup(s2, 0);
        if k1 != k2 {
            assert(same_essence_opt(lookup(s1, k1), lookup(s2, k1)));
            assert(lookup(s2, k1) is Some);
            lemma_lookup_some(s2, k1);
            let i = choose|i: int| 0 <= i < s2.len() && s2[i] == lookup(s2, k1).unwrap();
            assert(s2[i].key == k1);
            assert(i != 0);
            assert(lex_lt(k2, k1));
            assert(same_essence_opt(lookup(s1, k2), lookup(s2, k2)));
            assert(lookup(s1, k2) is Some);
            lemma_lookup_some(s1, k2);
            let j = choose|j: int| 0 <= j < s1.len() && s1[j] == lookup(s1, k2).unwrap();
            assert(s1[j].key == k2);
            assert(j != 0);
            assert(lex_lt(k1, k2));
            lemma_lex_asymmetric(k1, k2);
            assert(false);
        }
        assert(same_essence_opt(lookup(s1, k1), lookup(s2, k1)));
        assert(same_essence(s1[0], s2[0]));
        // the tails cover the same keys
        let t1 = s1.skip(1);
        let t2 = s2.skip(1);
        assert(forall|i: int| 0 <= i < t1.len() ==> #[trigger] t1[i] == s1[i + 1]);
        assert(forall|i: int| 0 <= i < t2.len() ==> #[trigger] t2[i] == s2[i + 1]);
        assert(sorted_by_key(t1)) by {
            assert forall|p: int, q: int| 0 <= p < q < t1.len()
                implies #[trigger] lex_lt(t1[p].key, t1[q].key) by {
                assert(lex_lt(s1[p + 1].key, s1[q + 1].key));
            }
        }
        assert(sorted_by_key(t2)) by {
            assert forall|p: int, q: int| 0 <= p < q < t2.len()
                implies #[trigger] lex_lt(t2[p].key, t2[q].key) by {
                assert(lex_lt(s2[p + 1].key, s2[q + 1].key));
            }
        }
        assert forall|k: Seq<u8>|
            same_essence_opt(#[trigger] lookup(t1, k), lookup(t2, k)) by {
            if k == k1 {
                assert forall|i: int| 0 <= i < t1.len()
                    implies (#[trigger] t1[i]).key != k by {
                    assert(lex_lt(s1[0].key, s1[i + 1].key));
                    if t1[i].key == k {
                        lemma_lex_irreflexive(k);
                    }
                }
                assert forall|i: int| 0 <= i < t2.len()
                    implies (#[trigger] t2[i]).key != k by {
                    assert(lex_lt(s2[0].key, s2[i + 1].key));
                    if t2[i].key == k {
                        lemma_lex_irreflexive(k);
                    }
                }
                lemma_all_neq_lookup_none(t1, k);
                lemma_all_neq_lookup_none(t2, k);
            } else {
                assert(lookup(s1, k) == lookup(t1, k));
                assert(lookup(s2, k) == lookup(t2, k));
                assert(same_essence_opt(lookup(s1, k), lookup(s2, k)));
            }
        }
        lemma_canonical_views(t1, t2);
        assert forall|i: int| 0 <= i < s1.len()
            implies same_essence(#[trigger] s1[i], s2[i]) by {
            if i > 0 {
                assert(same_essence(t1[i - 1], t2[i - 1]));
            }
        }
    }
}

/// Law: the Merkle root is a function of record content alone. Two replicas
/// whose stores hold the same `(key, value, version, tombstone)` content
/// under every key have equal root digests — equivalently, replicas with
/// unequal roots have diverged. (The converse — that equal roots imply equal
/// content — holds only up to digest collisions and is not stated.)
pub proof fn lemma_same_content_same_root(s1: Seq<RecordModel>, s2: Seq<RecordModel>)
    requires
        sorted_by_key(s1),
        sorted_by_key(s2),
        forall|k: Seq<u8>| same_essence_opt(#[trigger] lookup(s1, k), lookup(s2, k)),
    ensures
        root_hash_of(s1) == root_hash_of(s2),
        max_depth_of(s1) == max_depth_of(s2),
        s1.len() == s2.len(),
{
    lemma_canonical_views(s1, s2);
    lemma_root_hash_essence(s1, s2);
}

} // verus!
