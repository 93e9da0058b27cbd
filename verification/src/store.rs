//! The versioned key-value store. Records carry a per-key version that grows
//! by one on every successful write; deletes write a tombstone instead of
//! erasing the key, so they stay visible to synchronization. The records sit
//! in a vector kept strictly sorted by key, which makes enumeration ordered
//! and Merkle-tree construction deterministic.

use vstd::prelude::*;
use crate::keys::{
    lex_lt, lemma_lex_irreflexive, lemma_lex_asymmetric, lemma_lex_transitive, lemma_lex_total,
    compare_bytes, bytes_equal, copy_bytes,
};
use crate::digest::content_hash;

verus! {

/// Mathematical image of one stored record.
#[verifier::ext_equal]
pub ghost struct RecordModel {
    pub key: Seq<u8>,
    pub value: Seq<u8>,
    pub version: u64,
    pub modified_at: u64,
    pub tombstone: bool,
}

/// One stored record: a key, its value bytes, the per-key version, the time
/// of the last mutation, and whether the record is a delete marker.
pub struct Record {
    pub key: Vec<u8>,
    pub value: Vec<u8>,
    pub version: u64,
    pub modified_at: u64,
    pub tombstone: bool,
}

impl View for Record {
    type V = RecordModel;

    open spec fn view(&self) -> RecordModel {
        RecordModel {
            key: self.key@,
            value: self.value@,
            version: self.version,
            modified_at: self.modified_at,
            tombstone: self.tombstone,
        }
    }
}

impl Record {
    /// A fresh record holding the same key, value and metadata.
    pub fn duplicate(&self) -> (r: Record)
        ensures
            r@ == self@,
    {
        let r = Record {
            key: copy_bytes(&self.key),
            value: copy_bytes(&self.value),
            version: self.version,
            modified_at: self.modified_at,
            tombstone: self.tombstone,
        };
        proof {
            assert(r@ =~= self@);
        }
        r
    }
}

/// The record a sequence holds for key `k`, if any.
pub open spec fn lookup(s: Seq<RecordModel>, k: Seq<u8>) -> Option<RecordModel>
    decreases s.len(),
{
    if s.len() == 0 {
        None
    } else if s[0].key == k {
        Some(s[0])
    } else {
        lookup(s.skip(1), k)
    }
}

/// The version the store holds for `k`: the record's version, or zero when
/// the key has never been written.
pub open spec fn current_version(s: Seq<RecordModel>, k: Seq<u8>) -> u64 {
    match lookup(s, k) {
        Some(r) => r.version,
        None => 0,
    }
}

/// Records strictly sorted by key; in particular all keys are distinct.
pub open spec fn sorted_by_key(s: Seq<RecordModel>) -> bool {
    forall|i: int, j: int| 0 <= i < j < s.len() ==> #[trigger] lex_lt(s[i].key, s[j].key)
}

pub proof fn lemma_lookup_some(s: Seq<RecordModel>, k: Seq<u8>)
    requires
        lookup(s, k) is Some,
    ensures
        lookup(s, k).unwrap().key == k,
        exists|i: int| 0 <= i < s.len() && s[i] == lookup(s, k).unwrap(),
    decreases s.len(),
{
    if s.len() > 0 && s[0].key != k {
        lemma_lookup_some(s.skip(1), k);
        let i = choose|i: int| 0 <= i < s.skip(1).len() && s.skip(1)[i] == lookup(s.skip(1), k).unwrap();
        assert(s[i + 1] == s.skip(1)[i]);
    }
}

pub proof fn lemma_lookup_none(s: Seq<RecordModel>, k: Seq<u8>)
    requires
        lookup(s, k) is None,
    ensures
        forall|i: int| 0 <= i < s.len() ==> (#[trigger] s[i]).key != k,
    decreases s.len(),
{
    if s.len() > 0 {
        lemma_lookup_none(s.skip(1), k);
        assert forall|i: int| 0 <= i < s.len() implies (#[trigger] s[i]).key != k by {
            if i >= 1 {
                assert(s[i] == s.skip(1)[i - 1]);
            }
        }
    }
}

pub proof fn lemma_all_neq_lookup_none(s: Seq<RecordModel>, k: Seq<u8>)
    requires
        forall|i: int| 0 <= i < s.len() ==> (#[trigger] s[i]).key != k,
    ensures
        lookup(s, k) is None,
    decreases s.len(),
{
    if s.len() > 0 {
        assert(forall|i: int| 0 <= i < s.skip(1).len() ==> #[trigger] s.skip(1)[i] == s[i + 1]);
        lemma_all_neq_lookup_none(s.skip(1), k);
    }
}

/// Skipping a prefix that does not hold `k` leaves the lookup unchanged.
pub proof fn lemma_lookup_skip(s: Seq<RecordModel>, k: Seq<u8>, i: int)
    requires
        0 <= i <= s.len(),
        forall|j: int| 0 <= j < i ==> (#[trigger] s[j]).key != k,
    ensures
        lookup(s, k) == lookup(s.skip(i), k),
    decreases i,
{
    if i == 0 {
        assert(s.skip(0) =~= s);
    } else {
        assert(forall|j: int| 0 <= j < i - 1 ==> #[trigger] s.skip(1)[j] == s[j + 1]);
        lemma_lookup_skip(s.skip(1), k, i - 1);
        assert(s.skip(1).skip(i - 1) =~= s.skip(i));
    }
}

/// In a sorted sequence the record at any index is what lookup finds.
pub proof fn lemma_sorted_lookup(s: Seq<RecordModel>, i: int)
    requires
        sorted_by_key(s),
        0 <= i < s.len(),
    ensures
        lookup(s, s[i].key) == Some(s[i]),
{
    assert forall|j: int| 0 <= j < i implies (#[trigger] s[j]).key != s[i].key by {
        if s[j].key == s[i].key {
            lemma_lex_irreflexive(s[i].key);
        }
    }
    lemma_lookup_skip(s, s[i].key, i);
    assert(s.skip(i)[0] == s[i]);
}

/// Replacing the record at `i` by one with the same key leaves every other
/// key's lookup unchanged.
pub proof fn lemma_lookup_update(s: Seq<RecordModel>, i: int, r: RecordModel, k: Seq<u8>)
    requires
        0 <= i < s.len(),
        r.key == s[i].key,
        k != s[i].key,
    ensures
        lookup(s.update(i, r), k) == lookup(s, k),
    decreases s.len(),
{
    let t = s.update(i, r);
    if i == 0 {
        assert(t[0] == r);
        assert(t.skip(1) =~= s.skip(1));
    } else {
        assert(t[0] == s[0]);
        if s[0].key != k {
            assert(t.skip(1) =~= s.skip(1).update(i - 1, r));
            assert(s.skip(1)[i - 1] == s[i]);
            lemma_lookup_update(s.skip(1), i - 1, r, k);
        }
    }
}

/// Inserting a record whose key is not `k` leaves `k`'s lookup unchanged.
pub proof fn lemma_lookup_insert(s: Seq<RecordModel>, i: int, r: RecordModel, k: Seq<u8>)
    requires
        0 <= i <= s.len(),
        k != r.key,
    ensures
        lookup(s.insert(i, r), k) == lookup(s, k),
    decreases s.len(),
{
    let t = s.insert(i, r);
    if i == 0 {
        assert(t[0] == r);
        assert(t.skip(1) =~= s);
    } else {
        assert(t[0] == s[0]);
        if s[0].key != k {
            assert(t.skip(1) =~= s.skip(1).insert(i - 1, r));
            lemma_lookup_insert(s.skip(1), i - 1, r, k);
        }
    }
}

/// Whether `k` lies below an upper key bound; `None` is the unbounded top.
pub open spec fn below(k: Seq<u8>, hi: Option<Seq<u8>>) -> bool {
    match hi {
        Some(h) => lex_lt(k, h),
        None => true,
    }
}

/// Whether `k` falls in the half-open key span from `lo` (inclusive) up to
/// `hi` (exclusive, or unbounded).
pub open spec fn in_span(k: Seq<u8>, lo: Seq<u8>, hi: Option<Seq<u8>>) -> bool {
    !lex_lt(k, lo) && below(k, hi)
}

/// Whether `k` falls in the half-open key range `[lo, hi)`.
pub open spec fn in_range(k: Seq<u8>, lo: Seq<u8>, hi: Seq<u8>) -> bool {
    in_span(k, lo, Some(hi))
}

/// The subsequence of records whose keys fall in the span, in their original
/// order.
pub open spec fn records_in_span(s: Seq<RecordModel>, lo: Seq<u8>, hi: Option<Seq<u8>>) -> Seq<
    RecordModel,
>
    decreases s.len(),
{
    if s.len() == 0 {
        Seq::empty()
    } else {
        let rest = records_in_span(s.skip(1), lo, hi);
        if in_span(s[0].key, lo, hi) {
            seq![s[0]] + rest
        } else {
            rest
        }
    }
}

/// The subsequence of records whose keys fall in `[lo, hi)`.
pub open spec fn records_in_range(s: Seq<RecordModel>, lo: Seq<u8>, hi: Seq<u8>) -> Seq<
    RecordModel,
> {
    records_in_span(s, lo, Some(hi))
}

/// The view of an optional exclusive upper key bound.
pub open spec fn upper_view(hi: Option<&Vec<u8>>) -> Option<Seq<u8>> {
    match hi {
        Some(h) => Some(h@),
        None => None,
    }
}

/// Every record of a span selection has its key in the span and comes from
/// the original sequence.
pub proof fn lemma_span_elements(s: Seq<RecordModel>, lo: Seq<u8>, hi: Option<Seq<u8>>)
    ensures
        forall|j: int|
            0 <= j < records_in_span(s, lo, hi).len() ==> in_span(
                (#[trigger] records_in_span(s, lo, hi)[j]).key,
                lo,
                hi,
            ),
        forall|j: int|
            0 <= j < records_in_span(s, lo, hi).len() ==> exists|i: int|
                0 <= i < s.len() && s[i] == #[trigger] records_in_span(s, lo, hi)[j],
    decreases s.len(),
{
    if s.len() > 0 {
        lemma_span_elements(s.skip(1), lo, hi);
        let rest = records_in_span(s.skip(1), lo, hi);
        let whole = records_in_span(s, lo, hi);
        assert forall|j: int| 0 <= j < whole.len() implies in_span(
            (#[trigger] whole[j]).key,
            lo,
            hi,
        ) && exists|i: int| 0 <= i < s.len() && s[i] == whole[j] by {
            if in_span(s[0].key, lo, hi) && j == 0 {
                assert(whole[0] == s[0]);
            } else {
                let jr: int = if in_span(s[0].key, lo, hi) {
                    j - 1
                } else {
                    j
                };
                assert(whole[j] == rest[jr]);
                let i = choose|i: int| 0 <= i < s.skip(1).len() && s.skip(1)[i] == rest[jr];
                assert(s[i + 1] == s.skip(1)[i]);
            }
        }
    }
}

/// A span selection from a sorted sequence is itself sorted.
pub proof fn lemma_span_sorted(s: Seq<RecordModel>, lo: Seq<u8>, hi: Option<Seq<u8>>)
    requires
        sorted_by_key(s),
    ensures
        sorted_by_key(records_in_span(s, lo, hi)),
    decreases s.len(),
{
    if s.len() > 0 {
        assert forall|p: int, q: int| 0 <= p < q < s.skip(1).len() implies #[trigger] lex_lt(
            s.skip(1)[p].key,
            s.skip(1)[q].key,
        ) by {
            assert(lex_lt(s[p + 1].key, s[q + 1].key));
        }
        lemma_span_sorted(s.skip(1), lo, hi);
        lemma_span_elements(s.skip(1), lo, hi);
        let rest = records_in_span(s.skip(1), lo, hi);
        let whole = records_in_span(s, lo, hi);
        if in_span(s[0].key, lo, hi) {
            assert forall|p: int, q: int| 0 <= p < q < whole.len() implies #[trigger] lex_lt(
                whole[p].key,
                whole[q].key,
            ) by {
                if p == 0 {
                    assert(whole[q] == rest[q - 1]);
                    let i = choose|i: int|
                        0 <= i < s.skip(1).len() && s.skip(1)[i] == rest[q - 1];
                    assert(s[i + 1] == s.skip(1)[i]);
                    assert(lex_lt(s[0].key, s[i + 1].key));
                } else {
                    assert(whole[p] == rest[p - 1]);
                    assert(whole[q] == rest[q - 1]);
                    assert(lex_lt(rest[p - 1].key, rest[q - 1].key));
                }
            }
        }
    }
}

/// For a key inside the span, looking the key up in the span selection and
/// in the whole sorted sequence agree.
pub proof fn lemma_span_lookup(s: Seq<RecordModel>, lo: Seq<u8>, hi: Option<Seq<u8>>, k: Seq<u8>)
    requires
        sorted_by_key(s),
        in_span(k, lo, hi),
    ensures
        lookup(records_in_span(s, lo, hi), k) == lookup(s, k),
    decreases s.len(),
{
    if s.len() > 0 {
        assert forall|p: int, q: int| 0 <= p < q < s.skip(1).len() implies #[trigger] lex_lt(
            s.skip(1)[p].key,
            s.skip(1)[q].key,
        ) by {
            assert(lex_lt(s[p + 1].key, s[q + 1].key));
        }
        lemma_span_lookup(s.skip(1), lo, hi, k);
        let rest = records_in_span(s.skip(1), lo, hi);
        if in_span(s[0].key, lo, hi) {
            assert((seq![s[0]] + rest)[0] == s[0]);
            if s[0].key != k {
                assert((seq![s[0]] + rest).skip(1) =~= rest);
            }
        } else {
            assert(s[0].key != k);
        }
    }
}

/// Splitting a span at an interior key `m` assigns every key to exactly one
/// side.
pub proof fn lemma_span_split(k: Seq<u8>, lo: Seq<u8>, m: Seq<u8>, hi: Option<Seq<u8>>)
    requires
        !lex_lt(m, lo),
        (match hi {
            Some(h) => !lex_lt(h, m),
            None => true,
        }),
    ensures
        in_span(k, lo, hi) <==> (in_span(k, lo, Some(m)) || in_span(k, m, hi)),
        !(in_span(k, lo, Some(m)) && in_span(k, m, hi)),
{
    if in_span(k, lo, Some(m)) {
        match hi {
            Some(h) => {
                lemma_lex_total(m, h);
                if m != h && !lex_lt(m, h) {
                    lemma_lex_asymmetric(h, m);
                }
                if lex_lt(m, h) {
                    lemma_lex_transitive(k, m, h);
                }
            }
            None => {},
        }
    }
    if in_span(k, m, hi) {
        lemma_lex_total(lo, m);
        if lex_lt(k, lo) {
            if lo == m {
            } else if lex_lt(lo, m) {
                lemma_lex_transitive(k, lo, m);
            } else {
                lemma_lex_asymmetric(m, lo);
            }
        }
    }
}

/// Splitting a span at an interior key splits the selected records by count.
pub proof fn lemma_span_count_split(
    s: Seq<RecordModel>,
    lo: Seq<u8>,
    m: Seq<u8>,
    hi: Option<Seq<u8>>,
)
    requires
        !lex_lt(m, lo),
        (match hi {
            Some(h) => !lex_lt(h, m),
            None => true,
        }),
    ensures
        records_in_span(s, lo, Some(m)).len() + records_in_span(s, m, hi).len()
            == records_in_span(s, lo, hi).len(),
    decreases s.len(),
{
    if s.len() > 0 {
        lemma_span_split(s[0].key, lo, m, hi);
        lemma_span_count_split(s.skip(1), lo, m, hi);
    }
}

/// The span from the empty key with no upper bound selects everything.
pub proof fn lemma_span_full(s: Seq<RecordModel>)
    ensures
        records_in_span(s, Seq::empty(), None) == s,
    decreases s.len(),
{
    if s.len() > 0 {
        lemma_span_full(s.skip(1));
        assert(in_span(s[0].key, Seq::empty(), None));
        assert(seq![s[0]] + s.skip(1) =~= s);
    } else {
        assert(records_in_span(s, Seq::empty(), None) =~= s);
    }
}

/// Appending a record changes only its own key's lookup, and only where the
/// key was absent.
pub proof fn lemma_lookup_push(s: Seq<RecordModel>, r: RecordModel, k: Seq<u8>)
    ensures
        lookup(s.push(r), k) == (if lookup(s, k) is Some {
            lookup(s, k)
        } else if r.key == k {
            Some(r)
        } else {
            None
        }),
    decreases s.len(),
{
    if s.len() == 0 {
        assert(s.push(r)[0] == r);
        if r.key != k {
            assert(s.push(r).skip(1) =~= Seq::<RecordModel>::empty());
        }
    } else {
        assert(s.push(r)[0] == s[0]);
        if s[0].key != k {
            assert(s.push(r).skip(1) =~= s.skip(1).push(r));
            lemma_lookup_push(s.skip(1), r, k);
        }
    }
}

/// The fields of a record that synchronization must agree on; the mutation
/// time is local bookkeeping and free to differ between replicas.
pub open spec fn same_essence(x: RecordModel, y: RecordModel) -> bool {
    x.key == y.key && x.value == y.value && x.version == y.version && x.tombstone == y.tombstone
}

pub open spec fn same_essence_opt(a: Option<RecordModel>, b: Option<RecordModel>) -> bool {
    match (a, b) {
        (None, None) => true,
        (Some(x), Some(y)) => same_essence(x, y),
        _ => false,
    }
}

/// Which of two records for the same key wins last-writer-wins resolution:
/// `x` displaces `y` on a strictly higher version; ties are broken
/// deterministically, first in favor of a tombstone, then by the larger
/// content digest, then by the lexicographically larger value bytes.
pub open spec fn beats(x: RecordModel, y: RecordModel) -> bool {
    ||| x.version > y.version
    ||| (x.version == y.version && x.tombstone && !y.tombstone)
    ||| (x.version == y.version && x.tombstone == y.tombstone
        && content_hash(x.value) > content_hash(y.value))
    ||| (x.version == y.version && x.tombstone == y.tombstone
        && content_hash(x.value) == content_hash(y.value) && lex_lt(y.value, x.value))
}

/// The record a replica keeps when `incoming` arrives for a key it already
/// holds as `local`.
pub open spec fn better(local: RecordModel, incoming: RecordModel) -> RecordModel {
    if beats(incoming, local) {
        incoming
    } else {
        local
    }
}

/// As `better`, starting from a replica that may not hold the key at all.
pub open spec fn better_opt(local: Option<RecordModel>, incoming: RecordModel) -> RecordModel {
    match local {
        Some(y) => better(y, incoming),
        None => incoming,
    }
}

/// The versioned store: records in a vector kept strictly sorted by key.
pub struct VersionedStore {
    records: Vec<Record>,
}

impl View for VersionedStore {
    type V = Seq<RecordModel>;

    closed spec fn view(&self) -> Seq<RecordModel> {
        self.records@.map_values(|r: Record| r@)
    }
}

impl VersionedStore {
    pub open spec fn wf(self) -> bool {
        sorted_by_key(self@)
    }

    pub fn new() -> (s: VersionedStore)
        ensures
            s.wf(),
            s@.len() == 0,
    {
        let s = VersionedStore { records: Vec::new() };
        proof {
            assert(s@.len() == 0);
        }
        s
    }

    pub fn len(&self) -> (n: usize)
        ensures
            n == self@.len(),
    {
        self.records.len()
    }

    /// Index of the first record whose key is not before `key`.
    fn lower_bound(&self, key: &Vec<u8>) -> (i: usize)
        requires
            self.wf(),
        ensures
            i <= self@.len(),
            forall|j: int| 0 <= j < i ==> lex_lt((#[trigger] self@[j]).key, key@),
            i < self@.len() ==> !lex_lt(self@[i as int].key, key@),
    {
        let mut i: usize = 0;
        while i < self.records.len()
            invariant
                i <= self@.len(),
                self@.len() == self.records@.len(),
                forall|j: int| 0 <= j < i ==> lex_lt((#[trigger] self@[j]).key, key@),
                forall|j: int| 0 <= j < self@.len() ==> #[trigger] self@[j] == self.records@[j]@,
            decreases self@.len() - i,
        {
            let c = compare_bytes(&self.records[i].key, key);
            if c >= 0 {
                return i;
            }
            i = i + 1;
        }
        i
    }

    /// Store `rec` under its key, replacing any record the key already has.
    fn store_record(&mut self, rec: Record)
        requires
            old(self).wf(),
        ensures
            final(self).wf(),
            lookup(final(self)@, rec@.key) == Some(rec@),
            forall|k2: Seq<u8>|
                k2 != rec@.key ==> #[trigger] lookup(final(self)@, k2) == lookup(old(self)@, k2),
            lookup(old(self)@, rec@.key) is Some ==> final(self)@.len() == old(self)@.len(),
            lookup(old(self)@, rec@.key) is None ==> final(self)@.len() == old(self)@.len() + 1,
    {
        let ghost s0 = self@;
        let ghost rm = rec@;
        let i = self.lower_bound(&rec.key);
        let found = i < self.records.len() && bytes_equal(&self.records[i].key, &rec.key);
        if found {
            proof {
                assert(s0[i as int] == self.records@[i as int]@);
                assert(s0[i as int].key == rm.key);
                lemma_sorted_lookup(s0, i as int);
            }
            self.records.remove(i);
            self.records.insert(i, rec);
            proof {
                let s1 = self@;
                assert(s1 =~= s0.update(i as int, rm)) by {
                    assert(self.records@ =~= old(self).records@.update(i as int, rec));
                    assert(forall|j: int|
                        0 <= j < s1.len() ==> #[trigger] s1[j] == self.records@[j]@);
                    assert(forall|j: int|
                        0 <= j < s0.len() ==> #[trigger] s0[j] == old(self).records@[j]@);
                }
                assert(sorted_by_key(s1)) by {
                    assert forall|p: int, q: int| 0 <= p < q < s1.len()
                        implies #[trigger] lex_lt(s1[p].key, s1[q].key) by {
                        assert(s1[p].key == s0[p].key);
                        assert(s1[q].key == s0[q].key);
                    }
                }
                lemma_sorted_lookup(s1, i as int);
                assert(s1[i as int] == rm);
                assert forall|k2: Seq<u8>| k2 != rm.key
                    implies #[trigger] lookup(s1, k2) == lookup(s0, k2) by {
                    lemma_lookup_update(s0, i as int, rm, k2);
                }
            }
        } else {
            proof {
                assert forall|j: int| 0 <= j < s0.len()
                    implies (#[trigger] s0[j]).key != rm.key by {
                    if j < i {
                        if s0[j].key == rm.key {
                            lemma_lex_irreflexive(rm.key);
                        }
                    } else {
                        lemma_lex_total(s0[i as int].key, rm.key);
                        if j > i {
                            lemma_lex_transitive(rm.key, s0[i as int].key, s0[j].key);
                        }
                        if s0[j].key == rm.key {
                            lemma_lex_irreflexive(rm.key);
                        }
                    }
                }
                lemma_all_neq_lookup_none(s0, rm.key);
                // every key at or after the insertion point comes after rec's key
                assert forall|j: int| i <= j < s0.len()
                    implies lex_lt(rm.key, (#[trigger] s0[j]).key) by {
                    lemma_lex_total(s0[i as int].key, rm.key);
                    if j > i {
                        lemma_lex_transitive(rm.key, s0[i as int].key, s0[j].key);
                    }
                }
            }
            self.records.insert(i, rec);
            proof {
                let s1 = self@;
                assert(s1 =~= s0.insert(i as int, rm)) by {
                    assert(self.records@ =~= old(self).records@.insert(i as int, rec));
                    assert(forall|j: int|
                        0 <= j < s1.len() ==> #[trigger] s1[j] == self.records@[j]@);
                    assert(forall|j: int|
                        0 <= j < s0.len() ==> #[trigger] s0[j] == old(self).records@[j]@);
                }
                assert(forall|j: int| 0 <= j < i ==> #[trigger] s1[j] == s0[j]);
                assert(s1[i as int] == rm);
                assert(forall|j: int| i < j < s1.len() ==> #[trigger] s1[j] == s0[j - 1]);
                assert(sorted_by_key(s1)) by {
                    assert forall|p: int, q: int| 0 <= p < q < s1.len()
                        implies #[trigger] lex_lt(s1[p].key, s1[q].key) by {
                        if q < i {
                        } else if p < i && q == i {
                        } else if p < i && q > i {
                            assert(lex_lt(s0[p].key, s0[q - 1].key));
                        } else if p == i {
                            assert(lex_lt(rm.key, s0[q - 1].key));
                        } else {
                            assert(lex_lt(s0[p - 1].key, s0[q - 1].key));
                        }
                    }
                }
                assert(lookup(s1, rm.key) == Some(rm)) by {
                    lemma_sorted_lookup(s1, i as int);
                }
                assert forall|k2: Seq<u8>| k2 != rm.key
                    implies #[trigger] lookup(s1, k2) == lookup(s0, k2) by {
                    lemma_lookup_insert(s0, i as int, rm, k2);
                }
            }
        }
    }

    /// The version currently held for `key` (zero when absent).
    pub fn version_of(&self, key: &Vec<u8>) -> (v: u64)
        requires
            self.wf(),
        ensures
            v == current_version(self@, key@),
    {
        let i = self.lower_bound(key);
        if i < self.records.len() && bytes_equal(&self.records[i].key, key) {
            proof {
                assert(self@[i as int] == self.records@[i as int]@);
                lemma_sorted_lookup(self@, i as int);
            }
            self.records[i].version
        } else {
            proof {
                let s0 = self@;
                assert forall|j: int| 0 <= j < s0.len()
                    implies (#[trigger] s0[j]).key != key@ by {
                    if j < i {
                        if s0[j].key == key@ {
                            lemma_lex_irreflexive(key@);
                        }
                    } else {
                        lemma_lex_total(s0[i as int].key, key@);
                        if j > i {
                            lemma_lex_transitive(key@, s0[i as int].key, s0[j].key);
                        }
                        if s0[j].key == key@ {
                            lemma_lex_irreflexive(key@);
                        }
                    }
                }
                lemma_all_neq_lookup_none(s0, key@);
            }
            0
        }
    }

    /// Write `value` under `key`: the new record carries the next version for
    /// that key (one for a fresh key), the mutation time, and no tombstone.
    pub fn put(&mut self, key: Vec<u8>, value: Vec<u8>, now: u64) -> (version: u64)
        requires
            old(self).wf(),
            current_version(old(self)@, key@) < u64::MAX,
        ensures
            final(self).wf(),
            version == current_version(old(self)@, key@) + 1,
            lookup(final(self)@, key@) == Some(
                (RecordModel {
                    key: key@,
                    value: value@,
                    version: version,
                    modified_at: now,
                    tombstone: false,
                }),
            ),
            forall|k2: Seq<u8>|
                k2 != key@ ==> #[trigger] lookup(final(self)@, k2) == lookup(old(self)@, k2),
    {
        let version = self.version_of(&key) + 1;
        let rec = Record { key, value, version, modified_at: now, tombstone: false };
        self.store_record(rec);
        version
    }

    /// Delete `key`: writes a tombstone with the next version. Deleting a key
    /// that was never written still records a tombstone at version one, so
    /// the delete itself is visible to synchronization.
    pub fn delete(&mut self, key: Vec<u8>, now: u64) -> (version: u64)
        requires
            old(self).wf(),
            current_version(old(self)@, key@) < u64::MAX,
        ensures
            final(self).wf(),
            version == current_version(old(self)@, key@) + 1,
            lookup(final(self)@, key@) == Some(
                (RecordModel {
                    key: key@,
                    value: Seq::empty(),
                    version: version,
                    modified_at: now,
                    tombstone: true,
                }),
            ),
            forall|k2: Seq<u8>|
                k2 != key@ ==> #[trigger] lookup(final(self)@, k2) == lookup(old(self)@, k2),
    {
        let version = self.version_of(&key) + 1;
        let rec = Record { key, value: Vec::new(), version, modified_at: now, tombstone: true };
        self.store_record(rec);
        version
    }

    /// Read `key`. A tombstoned key reads as absent, though the tombstone
    /// stays visible to synchronization.
    pub fn get(&self, key: &Vec<u8>) -> (r: Option<Record>)
        requires
            self.wf(),
        ensures
            match r {
                Some(rec) => {
                    &&& lookup(self@, key@) == Some(rec@)
                    &&& !rec@.tombstone
                },
                None => lookup(self@, key@) is None || lookup(self@, key@).unwrap().tombstone,
            },
    {
        let i = self.lower_bound(key);
        if i < self.records.len() && bytes_equal(&self.records[i].key, key) {
            proof {
                assert(self@[i as int] == self.records@[i as int]@);
                lemma_sorted_lookup(self@, i as int);
            }
            if self.records[i].tombstone {
                None
            } else {
                Some(self.records[i].duplicate())
            }
        } else {
            proof {
                let s0 = self@;
                assert forall|j: int| 0 <= j < s0.len()
                    implies (#[trigger] s0[j]).key != key@ by {
                    if j < i {
                        if s0[j].key == key@ {
                            lemma_lex_irreflexive(key@);
                        }
                    } else {
                        lemma_lex_total(s0[i as int].key, key@);
                        if j > i {
                            lemma_lex_transitive(key@, s0[i as int].key, s0[j].key);
                        }
                        if s0[j].key == key@ {
                            lemma_lex_irreflexive(key@);
                        }
                    }
                }
                lemma_all_neq_lookup_none(s0, key@);
            }
            None
        }
    }

    /// Ordered enumeration of the records whose keys fall in the span,
    /// tombstones included.
    pub fn scan_span(&self, lo: &Vec<u8>, hi: Option<&Vec<u8>>) -> (out: Vec<Record>)
        ensures
            out@.len() == records_in_span(self@, lo@, upper_view(hi)).len(),
            forall|j: int|
                0 <= j < out@.len() ==> (#[trigger] out@[j])@ == records_in_span(
                    self@,
                    lo@,
                    upper_view(hi),
                )[j],
    {
        let ghost s = self@;
        let ghost hv = upper_view(hi);
        let ghost mut om: Seq<RecordModel> = Seq::empty();
        let mut out: Vec<Record> = Vec::new();
        let mut i: usize = 0;
        proof {
            assert(s.skip(0) =~= s);
            assert(om + records_in_span(s.skip(0), lo@, hv) =~= records_in_span(s, lo@, hv));
        }
        while i < self.records.len()
            invariant
                i <= self.records@.len(),
                s == self@,
                hv == upper_view(hi),
                s.len() == self.records@.len(),
                forall|j: int| 0 <= j < s.len() ==> #[trigger] s[j] == self.records@[j]@,
                om.len() == out@.len(),
                forall|j: int| 0 <= j < om.len() ==> (#[trigger] out@[j])@ == om[j],
                om + records_in_span(s.skip(i as int), lo@, hv) == records_in_span(s, lo@, hv),
            decreases s.len() - i,
        {
            proof {
                assert(s.skip(i as int)[0] == s[i as int]);
                assert(s.skip(i as int).skip(1) =~= s.skip(i as int + 1));
            }
            let rec = &self.records[i];
            let keep = compare_bytes(&rec.key, lo) >= 0 && (match hi {
                Some(h) => compare_bytes(&rec.key, h) == -1,
                None => true,
            });
            if keep {
                out.push(rec.duplicate());
                proof {
                    let rest = records_in_span(s.skip(i as int + 1), lo@, hv);
                    assert(om + (seq![s[i as int]] + rest) =~= (om.push(s[i as int])) + rest);
                    om = om.push(s[i as int]);
                }
            } else {
                proof {
                    assert(!in_span(s[i as int].key, lo@, hv));
                }
            }
            i = i + 1;
        }
        proof {
            assert(s.skip(s.len() as int).len() == 0);
            assert(om + records_in_span(s.skip(s.len() as int), lo@, hv) =~= om);
        }
        out
    }

    /// Ordered enumeration of the records whose keys fall in `[lo, hi)`,
    /// tombstones included.
    pub fn scan(&self, lo: &Vec<u8>, hi: &Vec<u8>) -> (out: Vec<Record>)
        ensures
            out@.len() == records_in_range(self@, lo@, hi@).len(),
            forall|j: int|
                0 <= j < out@.len() ==> (#[trigger] out@[j])@ == records_in_range(
                    self@,
                    lo@,
                    hi@,
                )[j],
    {
        self.scan_span(lo, Some(hi))
    }

    /// Ordered enumeration of every record, tombstones included: the
    /// synchronization engine's view of the store.
    pub fn records(&self) -> (r: &Vec<Record>)
        ensures
            r@.len() == self@.len(),
            forall|i: int| 0 <= i < r@.len() ==> (#[trigger] r@[i])@ == self@[i],
    {
        &self.records
    }

    /// Apply a record arriving from a peer: it is kept only where it wins
    /// last-writer-wins resolution against what the store already holds, and
    /// it keeps its own version rather than taking a fresh one.
    pub fn apply_record(&mut self, rec: &Record)
        requires
            old(self).wf(),
        ensures
            final(self).wf(),
            lookup(final(self)@, rec@.key) == Some(
                better_opt(lookup(old(self)@, rec@.key), rec@),
            ),
            forall|k2: Seq<u8>|
                k2 != rec@.key ==> #[trigger] lookup(final(self)@, k2) == lookup(old(self)@, k2),
    {
        let i = self.lower_bound(&rec.key);
        let found = i < self.records.len() && bytes_equal(&self.records[i].key, &rec.key);
        if found {
            proof {
                assert(self@[i as int] == self.records@[i as int]@);
                lemma_sorted_lookup(self@, i as int);
            }
            if record_beats(rec, &self.records[i]) {
                self.store_record(rec.duplicate());
            }
        } else {
            proof {
                let s0 = self@;
                assert forall|j: int| 0 <= j < s0.len()
                    implies (#[trigger] s0[j]).key != rec@.key by {
                    if j < i {
                        if s0[j].key == rec@.key {
                            lemma_lex_irreflexive(rec@.key);
                        }
                    } else {
                        lemma_lex_total(s0[i as int].key, rec@.key);
                        if j > i {
                            lemma_lex_transitive(rec@.key, s0[i as int].key, s0[j].key);
                        }
                        if s0[j].key == rec@.key {
                            lemma_lex_irreflexive(rec@.key);
                        }
                    }
                }
                lemma_all_neq_lookup_none(s0, rec@.key);
            }
            self.store_record(rec.duplicate());
        }
    }
}

/// Whether `x` displaces `y` under last-writer-wins resolution.
pub fn record_beats(x: &Record, y: &Record) -> (r: bool)
    ensures
        r == beats(x@, y@),
{
    if x.version > y.version {
        return true;
    }
    if x.version < y.version {
        return false;
    }
    if x.tombstone && !y.tombstone {
        return true;
    }
    if x.tombstone != y.tombstone {
        return false;
    }
    let hx = crate::digest::content_hash_of(&x.value);
    let hy = crate::digest::content_hash_of(&y.value);
    if hx > hy {
        return true;
    }
    if hx < hy {
        return false;
    }
    compare_bytes(&y.value, &x.value) == -1
}

pub proof fn lemma_beats_irreflexive(x: RecordModel)
    ensures
        !beats(x, x),
{
    lemma_lex_irreflexive(x.value);
}

pub proof fn lemma_beats_asymmetric(x: RecordModel, y: RecordModel)
    requires
        beats(x, y),
    ensures
        !beats(y, x),
{
    if lex_lt(y.value, x.value) {
        lemma_lex_asymmetric(y.value, x.value);
    }
}

/// Two records neither of which displaces the other agree on everything the
/// resolution rule looks at.
pub proof fn lemma_no_beats_tie(x: RecordModel, y: RecordModel)
    requires
        !beats(x, y),
        !beats(y, x),
    ensures
        x.version == y.version,
        x.tombstone == y.tombstone,
        x.value == y.value,
{
    lemma_lex_total(x.value, y.value);
}

/// One mutation of key `k`: afterwards the key is present and its version is
/// one more than before. `put` and `delete` both ensure exactly this shape.
pub open spec fn write_step(pre: Seq<RecordModel>, post: Seq<RecordModel>, k: Seq<u8>) -> bool {
    &&& lookup(post, k) is Some
    &&& lookup(post, k).unwrap().version == current_version(pre, k) + 1
}

/// Law: starting from a store that has never seen key `k`, after any sequence
/// of writes to `k` (puts and deletes alike) the key's version equals the
/// number of writes, and the version grows strictly along the sequence.
pub proof fn lemma_version_counts_writes(views: Seq<Seq<RecordModel>>, k: Seq<u8>)
    requires
        views.len() >= 1,
        lookup(views[0], k) is None,
        forall|i: int| 0 <= i < views.len() - 1 ==> write_step(#[trigger] views[i], views[i + 1], k),
    ensures
        forall|i: int| 0 <= i < views.len() ==> current_version(#[trigger] views[i], k) == i,
        forall|i: int, j: int|
            0 <= i < j < views.len() ==> current_version(#[trigger] views[i], k) < current_version(
                #[trigger] views[j],
                k,
            ),
    decreases views.len(),
{
    if views.len() > 1 {
        let prefix = views.drop_last();
        assert(forall|i: int| 0 <= i < prefix.len() ==> #[trigger] prefix[i] == views[i]);
        lemma_version_counts_writes(prefix, k);
        let n = views.len() - 1;
        assert(write_step(views[n - 1], views[n], k));
        assert(prefix[n - 1] == views[n - 1]);
        assert(current_version(prefix[n - 1], k) == n - 1);
        assert(current_version(views[n - 1], k) == n - 1);
        assert forall|i: int| 0 <= i < views.len()
            implies current_version(#[trigger] views[i], k) == i by {
            if i < n {
                assert(current_version(prefix[i], k) == i);
            }
        }
    }
}

} // verus!
