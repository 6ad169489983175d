//! What the server answers: status codes and the values in the bodies.
use crate::cluster::{cluster_in_use, cluster_slots, ThrushCluster};
use crate::cluster_laws::law_total_len_at_most_total_capacity;
use crate::u1024::U1024;
use vstd::prelude::*;

verus! {

/// The request was carried out.
pub const STATUS_OK: u16 = 200;

/// There is no record with the id.
pub const STATUS_NOT_FOUND: u16 = 404;

/// No chunk could take the record.
pub const STATUS_INSUFFICIENT_STORAGE: u16 = 507;

/// A record to be inserted.
pub struct InsertRequest {
    pub payload_id: u64,
    pub vector: [u64; 16],
}

/// A vector to search for, and how many results are wanted.
pub struct SearchRequest {
    pub vector: [u64; 16],
    pub k: usize,
}

/// A search result.
pub struct SearchResult {
    pub payload_id: u64,
    pub distance: u32,
}

/// How many slots there are, and how many are in use.
pub struct StatsResponse {
    pub capacity: usize,
    pub active_records: usize,
}

/// A record.
pub struct GetResponse {
    pub payload_id: u64,
    pub vector: [u64; 16],
}

/// The status of an insertion.
pub fn insert_status(outcome: &Result<(), &'static str>) -> (status: u16)
    ensures
        status == if outcome is Ok {
            STATUS_OK
        } else {
            STATUS_INSUFFICIENT_STORAGE
        },
{
    match outcome {
        Ok(_) => STATUS_OK,
        Err(_) => STATUS_INSUFFICIENT_STORAGE,
    }
}

/// The results of a search: ids and distances, in their order.
pub fn search_response(hits: &Vec<(u64, u32, Option<u64>)>) -> (results: Vec<SearchResult>)
    ensures
        results@ == hits@.map_values(
            |hit: (u64, u32, Option<u64>)|
                (SearchResult { payload_id: hit.0, distance: hit.1 }),
        ),
{
    let mut results: Vec<SearchResult> = Vec::new();
    let mut i: usize = 0;
    while i < hits.len()
        invariant
            i <= hits@.len(),
            results@.len() == i,
            forall|j: int|
                0 <= j < i ==> #[trigger] results@[j] == (SearchResult {
                    payload_id: hits@[j].0,
                    distance: hits@[j].1,
                }),
        decreases hits@.len() - i,
    {
        results.push(SearchResult { payload_id: hits[i].0, distance: hits[i].1 });
        i += 1;
    }
    assert(results@ =~= hits@.map_values(
        |hit: (u64, u32, Option<u64>)| (SearchResult { payload_id: hit.0, distance: hit.1 }),
    ));
    results
}

/// The status of a lookup, and the record where there is one.
pub fn get_response(payload_id: u64, found: Option<U1024>) -> (answer: (
    u16,
    Option<GetResponse>,
))
    ensures
        match found {
            Some(vector) => {
                &&& answer.0 == STATUS_OK
                &&& answer.1 == Some(GetResponse { payload_id, vector: vector.0 })
            },
            None => answer.0 == STATUS_NOT_FOUND && answer.1 is None,
        },
{
    match found {
        Some(vector) => (STATUS_OK, Some(GetResponse { payload_id, vector: vector.0 })),
        None => (STATUS_NOT_FOUND, None),
    }
}

/// The status of a deletion.
pub fn delete_status(deleted: bool) -> (status: u16)
    ensures
        status == if deleted {
            STATUS_OK
        } else {
            STATUS_NOT_FOUND
        },
{
    if deleted {
        STATUS_OK
    } else {
        STATUS_NOT_FOUND
    }
}

/// The size of a cluster and how much of it is in use.
pub fn stats_response(cluster: &ThrushCluster) -> (stats: StatsResponse)
    requires
        cluster.wf(),
        cluster_slots(cluster@.chunks) <= usize::MAX,
    ensures
        stats.capacity == cluster_slots(cluster@.chunks),
        stats.active_records == cluster_in_use(cluster@.chunks),
{
    proof {
        law_total_len_at_most_total_capacity(cluster@.chunks);
    }
    StatsResponse {
        capacity: cluster.total_capacity(),
        active_records: cluster.total_len(),
    }
}

} // verus!
