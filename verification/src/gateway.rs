//! Decision logic of the HTTP gateway: classifying data-mutation requests,
//! dispatching them into the store, mapping internal faults to HTTP status
//! codes, and choosing a listen port from a random draw. The network and
//! JSON plumbing around these decisions lives outside the verified core.

use vstd::prelude::*;
use crate::store::{VersionedStore, Record, RecordModel, lookup, current_version};

verus! {

/// Faults the gateway reports to clients. Conflicting concurrent writes are
/// not among them: version races resolve silently and deterministically.
#[derive(Clone, Copy, PartialEq, Eq, Structural, Debug)]
pub enum ApiError {
    /// Key absent or tombstoned: a normal, non-fatal outcome.
    NotFound,
    /// A probe or synchronization pass exceeded its deadline.
    Timeout,
    /// A peer was unreachable.
    NetworkError,
}

/// The HTTP status each fault maps to, leaking no internal state.
pub fn http_status(e: ApiError) -> (s: u16)
    ensures
        s == (match e {
            ApiError::NotFound => 404u16,
            ApiError::Timeout => 504u16,
            ApiError::NetworkError => 502u16,
        }),
{
    match e {
        ApiError::NotFound => 404,
        ApiError::Timeout => 504,
        ApiError::NetworkError => 502,
    }
}

/// The two mutations a data request may carry.
#[derive(Clone, Copy, PartialEq, Eq, Structural, Debug)]
pub enum DataAction {
    Add,
    Delete,
}

/// The bytes of the wire token `add`.
pub open spec fn add_token() -> Seq<u8> {
    seq![97u8, 100u8, 100u8]
}

/// The bytes of the wire token `delete`.
pub open spec fn delete_token() -> Seq<u8> {
    seq![100u8, 101u8, 108u8, 101u8, 116u8, 101u8]
}

/// Classify a request's `action` field; anything but the two known tokens is
/// rejected.
pub fn parse_action(s: &Vec<u8>) -> (r: Option<DataAction>)
    ensures
        r == Some(DataAction::Add) <==> s@ == add_token(),
        r == Some(DataAction::Delete) <==> s@ == delete_token(),
        r is None <==> (s@ != add_token() && s@ != delete_token()),
{
    let mut add: Vec<u8> = Vec::new();
    add.push(97);
    add.push(100);
    add.push(100);
    proof {
        assert(add@ =~= add_token());
    }
    if crate::keys::bytes_equal(s, &add) {
        return Some(DataAction::Add);
    }
    let mut del: Vec<u8> = Vec::new();
    del.push(100);
    del.push(101);
    del.push(108);
    del.push(101);
    del.push(116);
    del.push(101);
    proof {
        assert(del@ =~= delete_token());
    }
    if crate::keys::bytes_equal(s, &del) {
        return Some(DataAction::Delete);
    }
    None
}

/// Serve a read: the record when the key is live, and the not-found fault —
/// exactly when the key is absent or tombstoned — otherwise.
pub fn handle_get(store: &VersionedStore, key: &Vec<u8>) -> (r: Result<Record, ApiError>)
    requires
        store.wf(),
    ensures
        match r {
            Ok(rec) => {
                &&& lookup(store@, key@) == Some(rec@)
                &&& !rec@.tombstone
            },
            Err(e) => {
                &&& e == ApiError::NotFound
                &&& (lookup(store@, key@) is None || lookup(store@, key@).unwrap().tombstone)
            },
        },
{
    match store.get(key) {
        Some(rec) => Ok(rec),
        None => Err(ApiError::NotFound),
    }
}

/// Dispatch one classified data request into the store; both actions answer
/// with the version they wrote.
pub fn apply_data_request(
    store: &mut VersionedStore,
    action: DataAction,
    key: Vec<u8>,
    value: Vec<u8>,
    now: u64,
) -> (version: u64)
    requires
        old(store).wf(),
        current_version(old(store)@, key@) < u64::MAX,
    ensures
        final(store).wf(),
        version == current_version(old(store)@, key@) + 1,
        lookup(final(store)@, key@) == Some(
            (RecordModel {
                key: key@,
                value: if action == DataAction::Add {
                    value@
                } else {
                    Seq::empty()
                },
                version: version,
                modified_at: now,
                tombstone: action == DataAction::Delete,
            }),
        ),
        forall|k2: Seq<u8>|
            k2 != key@ ==> #[trigger] lookup(final(store)@, k2) == lookup(old(store)@, k2),
    {
    match action {
        DataAction::Add => store.put(key, value, now),
        DataAction::Delete => store.delete(key, now),
    }
}

/// The listen port chosen when none is given: a draw from the thousand
/// ports starting at 8080, taken from a caller-supplied random value.
pub fn pick_node_port(r: u16) -> (p: u16)
    ensures
        p == 8080 + (r % 1000),
        8080 <= p < 9080,
{
    8080 + r % 1000
}

} // verus!
