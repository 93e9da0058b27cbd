//! Pairwise anti-entropy synchronization, guided by the Merkle summaries.
//! The two replicas first compare root digests and stop at once when they
//! agree. Otherwise the key space is descended recursively: a span whose two
//! summaries agree is skipped untouched, a divergent span is split at its
//! median key, and only the records of divergent leaf spans are exchanged
//! and resolved by last-writer-wins — so the data moved is proportional to
//! the divergence, not to the dataset. A span skipped on equal summaries is
//! left unreconciled exactly when the equal digests hide differing content,
//! the collision case the digest width concedes.

use vstd::prelude::*;
use crate::store::{
    Record, RecordModel, VersionedStore, lookup, better_opt, beats, same_essence,
    same_essence_opt, sorted_by_key, in_span, records_in_span, upper_view, lemma_lookup_push,
    lemma_all_neq_lookup_none, lemma_lookup_some, lemma_no_beats_tie, lemma_beats_asymmetric,
    lemma_sorted_lookup,
    lemma_span_elements, lemma_span_sorted, lemma_span_lookup, lemma_span_split,
    lemma_span_count_split, lemma_span_full,
};
use crate::keys::{lex_lt, lemma_lex_irreflexive, lemma_lex_asymmetric};
use crate::merkle::{
    SyncStats, tree_stats, root_hash_of, max_depth_of, span_hash, span_summary, root_hash,
};

verus! {

/// What one replica holds for key `k` after absorbing every record of
/// another: the other side's record wins only where the resolution rule says
/// it displaces the local one.
pub open spec fn merged_lookup(
    a: Seq<RecordModel>,
    b: Seq<RecordModel>,
    k: Seq<u8>,
) -> Option<RecordModel> {
    match lookup(b, k) {
        Some(r) => Some(better_opt(lookup(a, k), r)),
        None => lookup(a, k),
    }
}

/// Key `k` sat inside some span whose two summaries agreed, so
/// reconciliation did not descend into it.
pub open spec fn span_skipped(a: Seq<RecordModel>, b: Seq<RecordModel>, k: Seq<u8>) -> bool {
    exists|lo: Seq<u8>, hi: Option<Seq<u8>>|
        in_span(k, lo, hi) && #[trigger] span_hash(a, lo, hi) == span_hash(b, lo, hi)
}

/// Absorb each of the given records into `dst`; they must carry strictly
/// ascending keys.
fn apply_many(dst: &mut VersionedStore, recs: &Vec<Record>, Ghost(rs): Ghost<Seq<RecordModel>>)
    requires
        old(dst).wf(),
        rs.len() == recs@.len(),
        forall|j: int| 0 <= j < recs@.len() ==> (#[trigger] recs@[j])@ == rs[j],
        sorted_by_key(rs),
    ensures
        final(dst).wf(),
        forall|k: Seq<u8>| #[trigger] lookup(final(dst)@, k) == merged_lookup(old(dst)@, rs, k),
{
    let ghost d0 = dst@;
    let n = recs.len();
    let mut i: usize = 0;
    proof {
        assert(rs.take(0) =~= Seq::<RecordModel>::empty());
        assert forall|k: Seq<u8>| #[trigger] lookup(dst@, k) == merged_lookup(d0, rs.take(0), k) by {
            assert(lookup(rs.take(0), k) is None);
        }
    }
    while i < n
        invariant
            i <= n,
            n == rs.len(),
            n == recs@.len(),
            forall|j: int| 0 <= j < recs@.len() ==> (#[trigger] recs@[j])@ == rs[j],
            sorted_by_key(rs),
            dst.wf(),
            forall|k: Seq<u8>| #[trigger] lookup(dst@, k) == merged_lookup(d0, rs.take(i as int), k),
        decreases n - i,
    {
        let rec = recs[i].duplicate();
        proof {
            assert(rec@ == rs[i as int]);
        }
        let ghost dpre = dst@;
        dst.apply_record(&rec);
        proof {
            let ki = rs[i as int].key;
            assert forall|j: int|
                0 <= j < rs.take(i as int).len() implies (#[trigger] rs.take(i as int)[j]).key != ki
                by {
                assert(rs.take(i as int)[j] == rs[j]);
                assert(lex_lt(rs[j].key, ki));
                if rs[j].key == ki {
                    lemma_lex_irreflexive(ki);
                }
            }
            lemma_all_neq_lookup_none(rs.take(i as int), ki);
            assert(rs.take(i as int + 1) =~= rs.take(i as int).push(rs[i as int]));
            assert forall|k: Seq<u8>|
                #[trigger] lookup(dst@, k) == merged_lookup(d0, rs.take(i as int + 1), k) by {
                lemma_lookup_push(rs.take(i as int), rs[i as int], k);
                if k == ki {
                    assert(lookup(dpre, k) == merged_lookup(d0, rs.take(i as int), k));
                    assert(merged_lookup(d0, rs.take(i as int), k) == lookup(d0, k));
                    assert(lookup(dst@, k) == Some(better_opt(lookup(d0, k), rs[i as int])));
                    assert(lookup(rs.take(i as int + 1), k) == Some(rs[i as int]));
                } else {
                    assert(lookup(dst@, k) == lookup(dpre, k));
                    assert(lookup(rs.take(i as int + 1), k) == lookup(rs.take(i as int), k));
                }
            }
        }
        i = i + 1;
    }
    proof {
        assert(rs.take(n as int) =~= rs);
    }
}

/// Absorb every record of `src` into `dst`.
fn pull_records(dst: &mut VersionedStore, src: &VersionedStore)
    requires
        old(dst).wf(),
        src.wf(),
    ensures
        final(dst).wf(),
        forall|k: Seq<u8>| #[trigger] lookup(final(dst)@, k) == merged_lookup(old(dst)@, src@, k),
{
    apply_many(dst, src.records(), Ghost(src@));
}

/// Walk one key span of the two replicas. A span whose summaries agree is
/// skipped; a divergent span is split at the median key of the first
/// replica's records until it is a leaf (at most one record on that side),
/// whose records — from both sides — are copied into the outgoing sets.
fn collect_span(
    a: &VersionedStore,
    b: &VersionedStore,
    lo: &Vec<u8>,
    hi: Option<&Vec<u8>>,
    send_a: &mut VersionedStore,
    send_b: &mut VersionedStore,
)
    requires
        a.wf(),
        b.wf(),
        old(send_a).wf(),
        old(send_b).wf(),
        forall|k: Seq<u8>|
            in_span(k, lo@, upper_view(hi)) ==> (#[trigger] lookup(old(send_a)@, k)) is None && (
            lookup(old(send_b)@, k)) is None,
    ensures
        final(send_a).wf(),
        final(send_b).wf(),
        forall|k: Seq<u8>|
            !in_span(k, lo@, upper_view(hi)) ==> (#[trigger] lookup(final(send_a)@, k)) == lookup(
                old(send_a)@,
                k,
            ) && lookup(final(send_b)@, k) == lookup(old(send_b)@, k),
        forall|k: Seq<u8>|
            in_span(k, lo@, upper_view(hi)) ==> {
                ||| ((#[trigger] lookup(final(send_a)@, k)) == lookup(a@, k) && lookup(
                    final(send_b)@,
                    k,
                ) == lookup(b@, k))
                ||| ((lookup(final(send_a)@, k)) is None && (lookup(final(send_b)@, k)) is None
                    && span_skipped(a@, b@, k))
            },
    decreases records_in_span(a@, lo@, upper_view(hi)).len(),
{
    let ghost hv = upper_view(hi);
    let ha = span_summary(a, lo, hi);
    let hb = span_summary(b, lo, hi);
    if ha == hb {
        proof {
            assert forall|k: Seq<u8>| in_span(k, lo@, hv) implies (#[trigger] lookup(send_a@, k))
                is None && (lookup(send_b@, k)) is None && span_skipped(a@, b@, k) by {
                assert(span_hash(a@, lo@, hv) == span_hash(b@, lo@, hv));
            }
        }
        return ;
    }
    let a_recs = a.scan_span(lo, hi);
    let ghost ra = records_in_span(a@, lo@, hv);
    if a_recs.len() <= 1 {
        let b_recs = b.scan_span(lo, hi);
        let ghost rb = records_in_span(b@, lo@, hv);
        let ghost sa0 = send_a@;
        let ghost sb0 = send_b@;
        proof {
            lemma_span_sorted(a@, lo@, hv);
            lemma_span_sorted(b@, lo@, hv);
        }
        apply_many(send_a, &a_recs, Ghost(ra));
        apply_many(send_b, &b_recs, Ghost(rb));
        proof {
            lemma_span_elements(a@, lo@, hv);
            lemma_span_elements(b@, lo@, hv);
            assert forall|k: Seq<u8>| !in_span(k, lo@, hv) implies (#[trigger] lookup(send_a@, k))
                == lookup(sa0, k) && lookup(send_b@, k) == lookup(sb0, k) by {
                assert forall|j: int| 0 <= j < ra.len() implies (#[trigger] ra[j]).key != k by {
                    assert(in_span(ra[j].key, lo@, hv));
                }
                assert forall|j: int| 0 <= j < rb.len() implies (#[trigger] rb[j]).key != k by {
                    assert(in_span(rb[j].key, lo@, hv));
                }
                lemma_all_neq_lookup_none(ra, k);
                lemma_all_neq_lookup_none(rb, k);
            }
            assert forall|k: Seq<u8>| in_span(k, lo@, hv) implies (#[trigger] lookup(send_a@, k))
                == lookup(a@, k) && lookup(send_b@, k) == lookup(b@, k) by {
                lemma_span_lookup(a@, lo@, hv, k);
                lemma_span_lookup(b@, lo@, hv, k);
                assert(lookup(send_a@, k) == merged_lookup(sa0, ra, k));
                assert(lookup(send_b@, k) == merged_lookup(sb0, rb, k));
                assert(lookup(sa0, k) is None);
                assert(lookup(sb0, k) is None);
            }
        }
    } else {
        let mid = a_recs.len() / 2;
        let m: &Vec<u8> = &a_recs[mid].key;
        proof {
            lemma_span_elements(a@, lo@, hv);
            lemma_span_sorted(a@, lo@, hv);
            assert(a_recs@[mid as int]@ == ra[mid as int]);
            assert(m@ == ra[mid as int].key);
            assert(in_span(m@, lo@, hv));
            match hv {
                Some(h) => {
                    lemma_lex_asymmetric(m@, h);
                }
                None => {},
            }
            lemma_span_count_split(a@, lo@, m@, hv);
            // the right half keeps the median record, so the left is smaller
            let i_mid = choose|i: int| 0 <= i < a@.len() && a@[i] == ra[mid as int];
            lemma_sorted_lookup(a@, i_mid);
            assert(lookup(a@, m@) == Some(ra[mid as int]));
            assert(in_span(m@, m@, hv)) by {
                lemma_lex_irreflexive(m@);
            }
            lemma_span_lookup(a@, m@, hv, m@);
            assert(records_in_span(a@, m@, hv).len() > 0);
            // the left half keeps the first record, so the right is smaller
            let k0 = ra[0].key;
            assert(lex_lt(k0, m@));
            let i_first = choose|i: int| 0 <= i < a@.len() && a@[i] == ra[0];
            lemma_sorted_lookup(a@, i_first);
            assert(lookup(a@, k0) == Some(ra[0]));
            assert(in_span(k0, lo@, Some(m@)));
            lemma_span_lookup(a@, lo@, Some(m@), k0);
            assert(records_in_span(a@, lo@, Some(m@)).len() > 0);
            // the recursive calls start from spans the outgoing sets do not hold
            assert forall|k: Seq<u8>| in_span(k, lo@, Some(m@)) implies (#[trigger] lookup(
                send_a@,
                k,
            )) is None && (lookup(send_b@, k)) is None by {
                lemma_span_split(k, lo@, m@, hv);
            }
        }
        let ghost sa0 = send_a@;
        let ghost sb0 = send_b@;
        collect_span(a, b, lo, Some(m), send_a, send_b);
        let ghost sa1 = send_a@;
        let ghost sb1 = send_b@;
        proof {
            assert forall|k: Seq<u8>| in_span(k, m@, hv) implies (#[trigger] lookup(send_a@, k))
                is None && (lookup(send_b@, k)) is None by {
                lemma_span_split(k, lo@, m@, hv);
                assert(lookup(sa0, k) is None);
                assert(lookup(sb0, k) is None);
            }
        }
        collect_span(a, b, m, hi, send_a, send_b);
        proof {
            assert forall|k: Seq<u8>| !in_span(k, lo@, hv) implies (#[trigger] lookup(send_a@, k))
                == lookup(sa0, k) && lookup(send_b@, k) == lookup(sb0, k) by {
                lemma_span_split(k, lo@, m@, hv);
            }
            assert forall|k: Seq<u8>| in_span(k, lo@, hv) implies {
                ||| ((#[trigger] lookup(send_a@, k)) == lookup(a@, k) && lookup(send_b@, k)
                    == lookup(b@, k))
                ||| ((lookup(send_a@, k)) is None && (lookup(send_b@, k)) is None && span_skipped(
                    a@,
                    b@,
                    k,
                ))
            } by {
                lemma_span_split(k, lo@, m@, hv);
                if in_span(k, lo@, Some(m@)) {
                    // settled by the left walk, untouched by the right one
                    assert(lookup(send_a@, k) == lookup(sa1, k));
                    assert(lookup(send_b@, k) == lookup(sb1, k));
                } else {
                    // untouched by the left walk, settled by the right one
                    assert(lookup(sa1, k) == lookup(sa0, k));
                    assert(lookup(sb1, k) == lookup(sb0, k));
                }
            }
        }
    }
}

/// Replicas with equal root digests agree on the all-covering span, so every
/// key counts as skipped.
proof fn lemma_equal_roots_skip(a0: Seq<RecordModel>, b0: Seq<RecordModel>, k: Seq<u8>)
    requires
        root_hash_of(a0) == root_hash_of(b0),
    ensures
        span_skipped(a0, b0, k),
{
    lemma_span_full(a0);
    lemma_span_full(b0);
    assert(in_span(k, Seq::<u8>::empty(), None::<Seq<u8>>));
    assert(span_hash(a0, Seq::<u8>::empty(), None) == span_hash(b0, Seq::<u8>::empty(), None));
}

/// One key's outcome of the guided exchange: a key whose records entered the
/// outgoing sets reaches the merge on both sides; a key of a skipped span is
/// untouched on both.
proof fn lemma_sync_key(
    a0: Seq<RecordModel>,
    b0: Seq<RecordModel>,
    sa: Seq<RecordModel>,
    sb: Seq<RecordModel>,
    a1: Seq<RecordModel>,
    b1: Seq<RecordModel>,
    k: Seq<u8>,
)
    requires
        lookup(a1, k) == merged_lookup(a0, sb, k),
        lookup(b1, k) == merged_lookup(b0, sa, k),
        (lookup(sa, k) == lookup(a0, k) && lookup(sb, k) == lookup(b0, k)) || ((lookup(sa, k))
            is None && (lookup(sb, k)) is None && span_skipped(a0, b0, k)),
    ensures
        (lookup(a1, k) == merged_lookup(a0, b0, k) && lookup(b1, k) == merged_lookup(b0, a0, k))
            || (lookup(a1, k) == lookup(a0, k) && lookup(b1, k) == lookup(b0, k) && span_skipped(
            a0,
            b0,
            k,
        )),
{
}

/// Synchronize two replicas by Merkle-guided reconciliation. Equal root
/// digests end the pass at once with both stores untouched. Otherwise spans
/// with equal summaries are skipped without transferring or modifying
/// anything in them, and the records of divergent leaf spans are exchanged
/// and resolved: every key either reaches the last-writer-wins merge on both
/// sides, or lay in a skipped equal-summary span and is left unchanged on
/// both. The returned statistics describe the post-sync tree of the second
/// store.
#[verifier::rlimit(80)]
pub fn sync_stores(a: &mut VersionedStore, b: &mut VersionedStore) -> (stats: SyncStats)
    requires
        old(a).wf(),
        old(b).wf(),
    ensures
        final(a).wf(),
        final(b).wf(),
        root_hash_of(old(a)@) == root_hash_of(old(b)@) ==> final(a)@ == old(a)@ && final(b)@
            == old(b)@,
        forall|k: Seq<u8>| {
            ||| ((#[trigger] lookup(final(a)@, k)) == merged_lookup(old(a)@, old(b)@, k) && lookup(
                final(b)@,
                k,
            ) == merged_lookup(old(b)@, old(a)@, k))
            ||| (lookup(final(a)@, k) == lookup(old(a)@, k) && lookup(final(b)@, k) == lookup(
                old(b)@,
                k,
            ) && span_skipped(old(a)@, old(b)@, k))
        },
        stats.tree_hash == root_hash_of(final(b)@),
        stats.total_leaves == final(b)@.len(),
        stats.max_depth == max_depth_of(final(b)@),
{
    let ghost a0 = old(a)@;
    let ghost b0 = old(b)@;
    let ha = root_hash(a);
    let hb = root_hash(b);
    if ha == hb {
        proof {
            assert forall|k: Seq<u8>| {
                ||| ((#[trigger] lookup(a@, k)) == merged_lookup(a0, b0, k) && lookup(b@, k)
                    == merged_lookup(b0, a0, k))
                ||| (lookup(a@, k) == lookup(a0, k) && lookup(b@, k) == lookup(b0, k)
                    && span_skipped(a0, b0, k))
            } by {
                lemma_equal_roots_skip(a0, b0, k);
            }
        }
        return tree_stats(b);
    }
    let empty_lo: Vec<u8> = Vec::new();
    let mut send_a = VersionedStore::new();
    let mut send_b = VersionedStore::new();
    collect_span(a, b, &empty_lo, None, &mut send_a, &mut send_b);
    pull_records(a, &send_b);
    pull_records(b, &send_a);
    proof {
        assert forall|k: Seq<u8>| {
            ||| ((#[trigger] lookup(a@, k)) == merged_lookup(a0, b0, k) && lookup(b@, k)
                == merged_lookup(b0, a0, k))
            ||| (lookup(a@, k) == lookup(a0, k) && lookup(b@, k) == lookup(b0, k) && span_skipped(
                a0,
                b0,
                k,
            ))
        } by {
            assert(in_span(k, empty_lo@, upper_view(None)));
            assert(lookup(a@, k) == merged_lookup(a0, send_b@, k));
            assert(lookup(b@, k) == merged_lookup(b0, send_a@, k));
            lemma_sync_key(a0, b0, send_a@, send_b@, a@, b@, k);
        }
    }
    tree_stats(b)
}

/// Law (convergence to the winner): for every key present on either side,
/// the merge holds a record; where only one side holds the key that record
/// survives unchanged, and where both do, the survivor is one of the two and
/// carries the higher version (either one's record on a version tie, resolved
/// by the deterministic tie-break).
pub proof fn lemma_merged_takes_winner(a: Seq<RecordModel>, b: Seq<RecordModel>, k: Seq<u8>)
    ensures
        (lookup(a, k) is Some || lookup(b, k) is Some) <==> merged_lookup(a, b, k) is Some,
        (lookup(a, k) is Some && lookup(b, k) is None) ==> merged_lookup(a, b, k) == lookup(a, k),
        (lookup(a, k) is None && lookup(b, k) is Some) ==> merged_lookup(a, b, k) == lookup(b, k),
        (lookup(a, k) is Some && lookup(b, k) is Some) ==> {
            let ra = lookup(a, k).unwrap();
            let rb = lookup(b, k).unwrap();
            let m = merged_lookup(a, b, k).unwrap();
            &&& (m == ra || m == rb)
            &&& m.version >= ra.version
            &&& m.version >= rb.version
            &&& (rb.version > ra.version ==> m == rb)
            &&& (ra.version > rb.version ==> m == ra)
        },
{
}

/// Law (symmetry): merging in either direction keeps the same record, up to
/// the local mutation time — the two replicas agree after exchanging.
pub proof fn lemma_merged_symmetric(a: Seq<RecordModel>, b: Seq<RecordModel>, k: Seq<u8>)
    ensures
        same_essence_opt(merged_lookup(b, a, k), merged_lookup(a, b, k)),
{
    match (lookup(a, k), lookup(b, k)) {
        (Some(ra), Some(rb)) => {
            lemma_lookup_some(a, k);
            lemma_lookup_some(b, k);
            if beats(rb, ra) {
                lemma_beats_asymmetric(rb, ra);
            } else if beats(ra, rb) {
                lemma_beats_asymmetric(ra, rb);
            } else {
                lemma_no_beats_tie(ra, rb);
                assert(same_essence(rb, ra));
            }
        }
        _ => {},
    }
}

/// Sequences that agree pointwise on record essence agree, up to essence, on
/// every key's lookup.
proof fn lemma_lookup_essence_eq(x: Seq<RecordModel>, y: Seq<RecordModel>, k: Seq<u8>)
    requires
        x.len() == y.len(),
        forall|i: int| 0 <= i < x.len() ==> same_essence(#[trigger] x[i], y[i]),
    ensures
        same_essence_opt(lookup(x, k), lookup(y, k)),
    decreases x.len(),
{
    if x.len() > 0 {
        assert(same_essence(x[0], y[0]));
        if x[0].key != k {
            assert(forall|i: int|
                0 <= i < x.skip(1).len() ==> #[trigger] x.skip(1)[i] == x[i + 1]);
            assert(forall|i: int|
                0 <= i < y.skip(1).len() ==> #[trigger] y.skip(1)[i] == y[i + 1]);
            assert forall|i: int| 0 <= i < x.skip(1).len() implies same_essence(
                #[trigger] x.skip(1)[i],
                y.skip(1)[i],
            ) by {
                assert(same_essence(x[i + 1], y[i + 1]));
            }
            lemma_lookup_essence_eq(x.skip(1), y.skip(1), k);
        }
    }
}

/// Law (skipped spans are harmless without collisions): a span whose two
/// selections hold the same record content — what equal span digests mean
/// whenever the digest has not collided — is already reconciled: every key
/// in it agrees on both sides, so leaving it untouched coincides with the
/// merge. Together with `lemma_sync_idempotent` this closes the skipped case
/// of `sync_stores` for collision-free runs.
pub proof fn lemma_skipped_span_harmless(
    a: Seq<RecordModel>,
    b: Seq<RecordModel>,
    lo: Seq<u8>,
    hi: Option<Seq<u8>>,
    k: Seq<u8>,
)
    requires
        sorted_by_key(a),
        sorted_by_key(b),
        in_span(k, lo, hi),
        records_in_span(a, lo, hi).len() == records_in_span(b, lo, hi).len(),
        forall|i: int|
            0 <= i < records_in_span(a, lo, hi).len() ==> same_essence(
                #[trigger] records_in_span(a, lo, hi)[i],
                records_in_span(b, lo, hi)[i],
            ),
    ensures
        same_essence_opt(lookup(a, k), lookup(b, k)),
{
    lemma_span_lookup(a, lo, hi, k);
    lemma_span_lookup(b, lo, hi, k);
    lemma_lookup_essence_eq(records_in_span(a, lo, hi), records_in_span(b, lo, hi), k);
}

/// Law (idempotence): merging replicas that already agree on every key's
/// content changes nothing, so a second synchronization run right after a
/// first one is a no-op.
pub proof fn lemma_sync_idempotent(a: Seq<RecordModel>, b: Seq<RecordModel>, k: Seq<u8>)
    requires
        same_essence_opt(lookup(a, k), lookup(b, k)),
    ensures
        merged_lookup(a, b, k) == lookup(a, k),
{
    match lookup(b, k) {
        None => {},
        Some(rb) => {
            let ra = lookup(a, k).unwrap();
            assert(!beats(rb, ra)) by {
                lemma_lex_irreflexive(ra.value);
            }
        }
    }
}

} // verus!
