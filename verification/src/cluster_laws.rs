//! What holds of a cluster across its operations.
use crate::cluster::{
    answered, chunk_with_id, cluster_in_use, cluster_slots, each_deleted, first_route,
    first_routes, fits, found_in, lemma_chunk_with_id, lists, may_grow, openable, opened, placed,
    routes_lead_to_chunks, text_place, with_text, ClusterConfig, ClusterState, InsertionState,
    ThrushCluster,
};
use crate::db::{
    all_hits, files_fit, opened_parts, overflows_fit, part_with_id, room, total_in_use,
    total_slots, DbState,
};
use crate::db_laws::{
    copies, is_slot, law_capacity_of_a_chunk, law_delete_takes_one, law_delete_undoes_store,
    law_file_with_room_gives_room, law_len_at_most_capacity, law_lookup_finds_what_is_there,
    law_search_finds_only_what_is_there, law_store_adds_one, lemma_all_hits_contains,
    lemma_can_probe_extended, lemma_can_probe_kept, lemma_deleted, lemma_hits_contains,
    lemma_part_with_id, lemma_stored, same_records,
};
use crate::lsh::{lemma_hash_bounds, table_hash, NUM_TABLES, TABLE_SLOTS};
use crate::metadata::{scanned, text_at, text_under};
use crate::record::{mapped, records, Record, RECORD_SIZE};
use crate::segment::{can_probe, find, find_from, holds_id, lemma_find_from, probes};
use crate::u1024::{hamming, law_hamming_zero_iff_equal};
use memmap2::MmapMut;
use vstd::prelude::*;

verus! {

/// Whether a slot of a chunk holds the given record, and a search for its vector
/// looks there.
pub open spec fn lies_at(chunk: DbState, words: Seq<u64>, payload_id: u64, p: int, i: int) -> bool {
    &&& is_slot(chunk.parts, p, i)
    &&& chunk.parts[p][i].is_active == 1
    &&& chunk.parts[p][i].payload_id == payload_id
    &&& chunk.parts[p][i].vector == words
    &&& probes(words, chunk.parts[p].len(), chunk.probe_depth).contains(i)
}

/// Whether a chunk holds the given record where a search for its vector looks.
pub open spec fn lies_in(chunk: DbState, words: Seq<u64>, payload_id: u64) -> bool {
    exists|p: int, i: int| lies_at(chunk, words, payload_id, p, i)
}

/// Whether a chunk that is searched for a vector holds the given record.
pub open spec fn reachable(st: ClusterState, words: Seq<u64>, payload_id: u64) -> bool {
    exists|t: int|
        0 <= t < NUM_TABLES && lies_in(
            st.chunks[#[trigger] st.targets(words)[t] as int],
            words,
            payload_id,
        )
}

/// Whether one of the targets that an insertion dealt with holds its record.
pub open spec fn landed(chunks: Seq<DbState>, ins: InsertionState) -> bool {
    exists|t: int|
        0 <= t < ins.next && t < ins.targets.len() && lies_in(
            chunks[#[trigger] ins.targets[t] as int],
            ins.words,
            ins.payload_id,
        )
}

/// Whether an insertion that counts as a success has landed.
pub open spec fn honest(chunks: Seq<DbState>, ins: InsertionState) -> bool {
    ins.any_ok ==> landed(chunks, ins)
}

/// Whether all chunks can be probed.
pub open spec fn all_can_probe(chunks: Seq<DbState>) -> bool {
    forall|c: int| 0 <= c < chunks.len() ==> (#[trigger] chunks[c]).can_probe()
}

proof fn lemma_stored_lies(chunk: DbState, words: Seq<u64>, payload_id: u64)
    requires
        chunk.can_probe(),
        chunk.has_room(words),
    ensures
        lies_in(chunk.stored(words, payload_id), words, payload_id),
{
    let (p, i) = lemma_stored(chunk, words, payload_id);
    assert(lies_at(chunk.stored(words, payload_id), words, payload_id, p, i));
}

proof fn lemma_stored_keeps(
    chunk: DbState,
    new_words: Seq<u64>,
    new_id: u64,
    words: Seq<u64>,
    payload_id: u64,
)
    requires
        chunk.can_probe(),
        lies_in(chunk, words, payload_id),
    ensures
        lies_in(chunk.stored(new_words, new_id), words, payload_id),
{
    let (p, i) = choose|p: int, i: int| lies_at(chunk, words, payload_id, p, i);
    if chunk.has_room(new_words) {
        let at = lemma_stored(chunk, new_words, new_id);
    }
    assert(lies_at(chunk.stored(new_words, new_id), words, payload_id, p, i));
}

proof fn lemma_extended_keeps(
    chunk: DbState,
    files: Seq<Seq<Record>>,
    words: Seq<u64>,
    payload_id: u64,
)
    requires
        lies_in(chunk, words, payload_id),
    ensures
        lies_in(chunk.extended(files), words, payload_id),
{
    let (p, i) = choose|p: int, i: int| lies_at(chunk, words, payload_id, p, i);
    assert(lies_at(chunk.extended(files), words, payload_id, p, i));
}

proof fn lemma_deleted_keeps(chunk: DbState, gone: u64, words: Seq<u64>, payload_id: u64)
    requires
        gone != payload_id,
        lies_in(chunk, words, payload_id),
    ensures
        lies_in(chunk.deleted(gone), words, payload_id),
{
    let (p, i) = choose|p: int, i: int| lies_at(chunk, words, payload_id, p, i);
    if chunk.lookup(gone) is Some {
        let at = lemma_deleted(chunk, gone);
    }
    assert(lies_at(chunk.deleted(gone), words, payload_id, p, i));
}

proof fn lemma_lies_hit(chunk: DbState, words: Seq<u64>, payload_id: u64)
    requires
        lies_in(chunk, words, payload_id),
    ensures
        all_hits(chunk.parts, words, chunk.probe_depth).contains((payload_id, 0u32)),
{
    let (p, i) = choose|p: int, i: int| lies_at(chunk, words, payload_id, p, i);
    law_hamming_zero_iff_equal(words, words);
    lemma_hits_contains(
        chunk.parts[p],
        probes(words, chunk.parts[p].len(), chunk.probe_depth),
        words,
        i,
    );
    lemma_all_hits_contains(chunk.parts, words, chunk.probe_depth, p, (payload_id, 0u32));
}

proof fn lemma_found_in_contains(
    chunks: Seq<DbState>,
    picked: Seq<usize>,
    words: Seq<u64>,
    n: nat,
    t: int,
    h: (u64, u32),
)
    requires
        0 <= t < n,
        all_hits(
            chunks[picked[t] as int].parts,
            words,
            chunks[picked[t] as int].probe_depth,
        ).contains(h),
    ensures
        found_in(chunks, picked, words, n).contains(h),
    decreases n,
{
    let before = found_in(chunks, picked, words, (n - 1) as nat);
    let chunk = chunks[picked[n - 1] as int];
    let last = all_hits(chunk.parts, words, chunk.probe_depth);
    if t == n - 1 {
        let j = choose|j: int| 0 <= j < last.len() && last[j] == h;
        assert((before + last)[before.len() + j] == h);
    } else {
        lemma_found_in_contains(chunks, picked, words, (n - 1) as nat, t, h);
        let j = choose|j: int| 0 <= j < before.len() && before[j] == h;
        assert((before + last)[j] == h);
    }
}

/// A search for the vector of a record in a chunk that it is routed to finds the
/// record, at distance zero.
pub proof fn law_search_finds_what_is_reachable(
    st: ClusterState,
    words: Seq<u64>,
    payload_id: u64,
)
    requires
        reachable(st, words, payload_id),
    ensures
        st.candidates(words).contains((payload_id, 0u32)),
{
    let t = choose|t: int|
        0 <= t < NUM_TABLES && lies_in(
            st.chunks[#[trigger] st.targets(words)[t] as int],
            words,
            payload_id,
        );
    lemma_lies_hit(st.chunks[st.targets(words)[t] as int], words, payload_id);
    lemma_found_in_contains(
        st.chunks,
        st.targets(words),
        words,
        NUM_TABLES as nat,
        t,
        (payload_id, 0u32),
    );
}

/// A lookup finds the id of a record in a chunk that its vector is routed to.
pub proof fn law_lookup_finds_what_is_reachable(
    st: ClusterState,
    words: Seq<u64>,
    payload_id: u64,
)
    requires
        routes_lead_to_chunks(st),
        st.chunks.len() > 0,
        reachable(st, words, payload_id),
    ensures
        st.lookup(payload_id) is Some,
{
    let t = choose|t: int|
        0 <= t < NUM_TABLES && lies_in(
            st.chunks[#[trigger] st.targets(words)[t] as int],
            words,
            payload_id,
        );
    let c = st.targets(words)[t] as int;
    lemma_insertion_fits(st, words, payload_id);
    assert(st.insertion(words, payload_id).targets[t] < st.chunks.len());
    let (p, i) = choose|p: int, i: int| lies_at(st.chunks[c], words, payload_id, p, i);
    assert(holds_id(st.chunks[c].parts[p], payload_id, i));
    lemma_held_is_looked_up(st.chunks[c], payload_id, p, i);
    lemma_chunk_with_id(st.chunks, payload_id, 0);
}

/// A search for the vector of an insertion that succeeded, with or without new
/// overflow files, finds its record at distance zero, and a lookup of its id gives
/// the vector, where no record carries another.
pub proof fn law_successful_insertion_is_found(st: ClusterState, ins: InsertionState)
    requires
        routes_lead_to_chunks(st),
        st.chunks.len() > 0,
        ins.targets == st.targets(ins.words),
        honest(st.chunks, ins),
        ins.any_ok,
    ensures
        st.candidates(ins.words).contains((ins.payload_id, 0u32)),
        st.lookup(ins.payload_id) is Some,
        sole(st.chunks, ins.words, ins.payload_id) ==> st.lookup(ins.payload_id) == Some(ins.words),
{
    if sole(st.chunks, ins.words, ins.payload_id) {
        law_sole_vector_is_looked_up(st, ins.words, ins.payload_id);
    }
    law_landed_is_reachable(st, ins);
    law_search_finds_what_is_reachable(st, ins.words, ins.payload_id);
    law_lookup_finds_what_is_reachable(st, ins.words, ins.payload_id);
}

/// The record of an insertion that landed is reachable.
pub proof fn law_landed_is_reachable(st: ClusterState, ins: InsertionState)
    requires
        ins.targets == st.targets(ins.words),
        landed(st.chunks, ins),
    ensures
        reachable(st, ins.words, ins.payload_id),
{
    let t = choose|t: int|
        0 <= t < ins.next && t < ins.targets.len() && lies_in(
            st.chunks[#[trigger] ins.targets[t] as int],
            ins.words,
            ins.payload_id,
        );
    assert(lies_in(st.chunks[st.targets(ins.words)[t] as int], ins.words, ins.payload_id));
}

/// An insertion that begins goes to chunks that are there.
pub proof fn lemma_insertion_fits(st: ClusterState, words: Seq<u64>, payload_id: u64)
    requires
        routes_lead_to_chunks(st),
        st.chunks.len() > 0,
    ensures
        fits(st.insertion(words, payload_id), st.chunks),
{
    lemma_hash_bounds(words);
    assert forall|t: int| 0 <= t < NUM_TABLES implies (#[trigger] st.insertion(
        words,
        payload_id,
    ).targets[t]) < st.chunks.len() by {
        assert(st.routes[t][table_hash(words, t) as int] < st.chunks.len());
    }
}

/// A search for a vector finds the record that was inserted with it, at distance
/// zero, where one of its targets had room for it.
pub proof fn law_search_finds_what_was_inserted(st: ClusterState, words: Seq<u64>, payload_id: u64)
    requires
        st.ready(),
        routes_lead_to_chunks(st),
        placed(st.chunks, st.insertion(words, payload_id)).1.next > 0,
    ensures
        ({
            let (chunks, done) = placed(st.chunks, st.insertion(words, payload_id));
            st.with_chunks(chunks).candidates(words).contains((payload_id, 0u32))
        }),
{
    let (chunks, done) = placed(st.chunks, st.insertion(words, payload_id));
    let after = st.with_chunks(chunks);
    lemma_insertion_fits(st, words, payload_id);
    law_insert_lands(st.chunks, st.insertion(words, payload_id));
    assert(after.targets(words) =~= st.targets(words));
    law_landed_is_reachable(after, done);
    law_search_finds_what_is_reachable(after, words, payload_id);
}

/// Storing a record in its target chunks keeps every chunk one that can be
/// probed, and every record that a chunk held where it is found.
pub proof fn law_insert_keeps_records(
    chunks: Seq<DbState>,
    ins: InsertionState,
    c: int,
    words: Seq<u64>,
    payload_id: u64,
)
    requires
        fits(ins, chunks),
        all_can_probe(chunks),
        0 <= c < chunks.len(),
    ensures
        placed(chunks, ins).0.len() == chunks.len(),
        all_can_probe(placed(chunks, ins).0),
        lies_in(chunks[c], words, payload_id) ==> lies_in(
            placed(chunks, ins).0[c],
            words,
            payload_id,
        ),
    decreases ins.targets.len() - ins.next,
{
    if ins.next < ins.targets.len() {
        let at = ins.targets[ins.next as int] as int;
        if chunks[at].has_room(ins.words) {
            let (more, after) = lemma_one_placed(chunks, ins);
            if lies_in(chunks[c], words, payload_id) && c == at {
                lemma_stored_keeps(chunks[at], ins.words, ins.payload_id, words, payload_id);
            }
            law_insert_keeps_records(more, after, c, words, payload_id);
        }
    }
}

/// One step of an insertion: the record is stored in the next target.
proof fn lemma_one_placed(chunks: Seq<DbState>, ins: InsertionState) -> (step: (
    Seq<DbState>,
    InsertionState,
))
    requires
        fits(ins, chunks),
        all_can_probe(chunks),
        ins.next < ins.targets.len(),
        chunks[ins.targets[ins.next as int] as int].has_room(ins.words),
    ensures
        ({
            let c = ins.targets[ins.next as int] as int;
            &&& 0 <= c < chunks.len()
            &&& step.0 == chunks.update(c, chunks[c].stored(ins.words, ins.payload_id))
            &&& lies_in(step.0[c], ins.words, ins.payload_id)
        }),
        step.1 == ins.advanced(true),
        placed(chunks, ins) == placed(step.0, step.1),
        fits(step.1, step.0),
        all_can_probe(step.0),
{
    let c = ins.targets[ins.next as int] as int;
    let more = chunks.update(c, chunks[c].stored(ins.words, ins.payload_id));
    assert(chunks[c].can_probe());
    lemma_can_probe_kept(chunks[c], ins.words, ins.payload_id);
    lemma_stored_lies(chunks[c], ins.words, ins.payload_id);
    assert forall|d: int| 0 <= d < more.len() implies (#[trigger] more[d]).can_probe() by {
        assert(chunks[d].can_probe());
    }
    (more, ins.advanced(true))
}

/// Where a target had room for the record, or the record had landed before, it
/// has landed after the record went to the targets; and what counts as a success
/// after has landed, if what counted as one before had.
pub proof fn law_insert_lands(chunks: Seq<DbState>, ins: InsertionState)
    requires
        fits(ins, chunks),
        all_can_probe(chunks),
    ensures
        ({
            let (after, done) = placed(chunks, ins);
            &&& done.words == ins.words
            &&& done.payload_id == ins.payload_id
            &&& done.targets == ins.targets
            &&& fits(done, after)
            &&& ins.next <= done.next
            &&& done.next > ins.next || landed(chunks, ins) ==> landed(after, done)
            &&& done.any_ok == (ins.any_ok || done.next > ins.next)
            &&& honest(chunks, ins) ==> honest(after, done)
        }),
    decreases ins.targets.len() - ins.next,
{
    if ins.next < ins.targets.len() && chunks[ins.targets[ins.next as int] as int].has_room(
        ins.words,
    ) {
        let (more, next) = lemma_one_placed(chunks, ins);
        assert(lies_in(more[next.targets[ins.next as int] as int], ins.words, ins.payload_id));
        assert(landed(more, next));
        law_insert_lands(more, next);
    }
}

/// Whether an insertion waits for the answer to a request for an overflow file.
pub open spec fn answerable(
    chunks: Seq<DbState>,
    ins: InsertionState,
    region: Option<MmapMut>,
) -> bool {
    let chunk = chunks[ins.targets[ins.next as int] as int];
    &&& fits(ins, chunks)
    &&& all_can_probe(chunks)
    &&& ins.next < NUM_TABLES
    &&& region is Some ==> can_probe(chunk.overflow_capacity, chunk.probe_depth)
}

/// The overflow files that an insertion has at hand once a request was answered.
pub open spec fn at_hand(ins: InsertionState, region: Option<MmapMut>) -> Seq<Seq<Record>> {
    match region {
        Some(m) => opened_parts(ins.files.push(m)),
        None => opened_parts(ins.files),
    }
}

proof fn lemma_answer(chunks: Seq<DbState>, ins: InsertionState, region: Option<MmapMut>)
    requires
        answerable(chunks, ins, region),
    ensures
        ({
            let c = ins.targets[ins.next as int] as int;
            let more = chunks[c].extended(at_hand(ins, region));
            let (after, done) = answered(chunks, ins, region);
            &&& 0 <= c < chunks.len()
            &&& after == chunks || more.can_probe() && after == chunks.update(
                c,
                more.stored(ins.words, ins.payload_id),
            ) && (more.has_room(ins.words) || more.probe_depth == 0) && done == ins.advanced(true)
            &&& all_can_probe(after)
        }),
{
    let c = ins.targets[ins.next as int] as int;
    let (after, done) = answered(chunks, ins, region);
    assert(chunks[c].can_probe());
    if let Some(m) = region {
        if overflows_fit(ins.files.push(m), chunks[c].overflow_capacity) {
            lemma_offer_can_be_probed(chunks, ins, m);
            lemma_can_probe_kept(
                chunks[c].extended(at_hand(ins, region)),
                ins.words,
                ins.payload_id,
            );
        }
    }
    assert forall|d: int| 0 <= d < after.len() implies (#[trigger] after[d]).can_probe() by {
        assert(chunks[d].can_probe());
    }
}

/// Where slots are probed, an overflow file with room for the record takes it;
/// whatever the answer, a record that had landed has landed after; and what counts
/// as a success after has landed, if what counted as one before had.
pub proof fn law_overflow_lands(
    chunks: Seq<DbState>,
    ins: InsertionState,
    region: Option<MmapMut>,
)
    requires
        answerable(chunks, ins, region),
        chunks[ins.targets[ins.next as int] as int].probe_depth > 0,
    ensures
        ({
            let (after, done) = answered(chunks, ins, region);
            let chunk = chunks[ins.targets[ins.next as int] as int];
            &&& landed(chunks, ins) ==> landed(after, done)
            &&& honest(chunks, ins) ==> honest(after, done)
            &&& region is Some && overflows_fit(
                ins.files.push(region->0),
                chunk.overflow_capacity,
            ) && room(records(mapped(region->0)), ins.words, chunk.probe_depth) is Some
                ==> done.any_ok && landed(after, done)
        }),
{
    let (after, done) = answered(chunks, ins, region);
    let c = ins.targets[ins.next as int] as int;
    lemma_answer(chunks, ins, region);
    if landed(chunks, ins) {
        let t = choose|t: int|
            0 <= t < ins.next && t < ins.targets.len() && lies_in(
                chunks[#[trigger] ins.targets[t] as int],
                ins.words,
                ins.payload_id,
            );
        law_overflow_keeps_records(
            chunks,
            ins,
            region,
            ins.targets[t] as int,
            ins.words,
            ins.payload_id,
        );
        assert(lies_in(after[done.targets[t] as int], done.words, done.payload_id));
    }
    if let Some(m) = region {
        let files = at_hand(ins, region);
        assert(files.last() == records(mapped(m)));
        if room(records(mapped(m)), ins.words, chunks[c].probe_depth) is Some {
            law_file_with_room_gives_room(chunks[c], files, ins.words);
        }
        let more = chunks[c].extended(files);
        if overflows_fit(ins.files.push(m), chunks[c].overflow_capacity) && more.has_room(
            ins.words,
        ) {
            lemma_offer_can_be_probed(chunks, ins, m);
            lemma_stored_lies(more, ins.words, ins.payload_id);
            assert(lies_in(
                after[done.targets[ins.next as int] as int],
                done.words,
                done.payload_id,
            ));
        }
    }
}

proof fn lemma_offer_can_be_probed(chunks: Seq<DbState>, ins: InsertionState, m: MmapMut)
    requires
        answerable(chunks, ins, Some(m)),
        overflows_fit(
            ins.files.push(m),
            chunks[ins.targets[ins.next as int] as int].overflow_capacity,
        ),
    ensures
        chunks[ins.targets[ins.next as int] as int].extended(at_hand(ins, Some(m))).can_probe(),
{
    let chunk = chunks[ins.targets[ins.next as int] as int];
    let regions = ins.files.push(m);
    let files = at_hand(ins, Some(m));
    assert(chunk.can_probe());
    assert forall|i: int| 0 <= i < files.len() implies can_probe(
        (#[trigger] files[i]).len(),
        chunk.probe_depth,
    ) by {
        assert(mapped(regions[i]).len() == chunk.overflow_capacity * RECORD_SIZE);
    }
    lemma_can_probe_extended(chunk, files);
}

/// New overflow files keep every record that a chunk held where it is found.
pub proof fn law_overflow_keeps_records(
    chunks: Seq<DbState>,
    ins: InsertionState,
    region: Option<MmapMut>,
    c: int,
    words: Seq<u64>,
    payload_id: u64,
)
    requires
        answerable(chunks, ins, region),
        0 <= c < chunks.len(),
        lies_in(chunks[c], words, payload_id),
    ensures
        lies_in(answered(chunks, ins, region).0[c], words, payload_id),
{
    let at = ins.targets[ins.next as int] as int;
    lemma_answer(chunks, ins, region);
    if answered(chunks, ins, region).0 != chunks && c == at {
        let files = at_hand(ins, region);
        lemma_extended_keeps(chunks[at], files, words, payload_id);
        lemma_stored_keeps(
            chunks[at].extended(files),
            ins.words,
            ins.payload_id,
            words,
            payload_id,
        );
    }
}

/// An insertion that does not count as a success has changed nothing: neither
/// where it went to the targets, nor where requests for overflow files were
/// answered.
pub proof fn law_failed_insertion_changes_nothing(
    chunks: Seq<DbState>,
    ins: InsertionState,
    region: Option<MmapMut>,
)
    requires
        fits(ins, chunks),
        all_can_probe(chunks),
    ensures
        !placed(chunks, ins).1.any_ok ==> placed(chunks, ins).0 == chunks,
        !answered(chunks, ins, region).1.any_ok ==> answered(chunks, ins, region).0 == chunks,
{
    law_insert_lands(chunks, ins);
    if ins.next < ins.targets.len() && chunks[ins.targets[ins.next as int] as int].has_room(
        ins.words,
    ) {
        let (more, next) = lemma_one_placed(chunks, ins);
        law_insert_lands(more, next);
    }
}

/// Deleting an id keeps the records of all others where they are found.
pub proof fn law_delete_keeps_others(st: ClusterState, gone: u64, words: Seq<u64>, payload_id: u64)
    requires
        gone != payload_id,
        reachable(st, words, payload_id),
        routes_lead_to_chunks(st),
        st.chunks.len() > 0,
    ensures
        reachable(
            st.with_chunks(each_deleted(st.chunks, gone)),
            words,
            payload_id,
        ),
{
    let after = st.with_chunks(each_deleted(st.chunks, gone));
    let t = choose|t: int|
        0 <= t < NUM_TABLES && lies_in(
            st.chunks[#[trigger] st.targets(words)[t] as int],
            words,
            payload_id,
        );
    lemma_insertion_fits(st, words, payload_id);
    assert(st.insertion(words, payload_id).targets[t] < st.chunks.len());
    lemma_deleted_keeps(st.chunks[st.targets(words)[t] as int], gone, words, payload_id);
    assert(after.targets(words) =~= st.targets(words));
    assert(lies_in(after.chunks[after.targets(words)[t] as int], words, payload_id));
}

/// A search finds nothing but records in use, each with its true distance.
pub proof fn law_search_finds_only_records(st: ClusterState, words: Seq<u64>, k: int)
    requires
        st.ready(),
        routes_lead_to_chunks(st),
        0 <= k < st.candidates(words).len(),
    ensures
        exists|c: int, p: int, i: int|
            #![trigger st.chunks[c].parts[p][i]]
            0 <= c < st.chunks.len() && is_slot(st.chunks[c].parts, p, i)
                && st.chunks[c].parts[p][i].is_active == 1 && st.candidates(words)[k] == (
                st.chunks[c].parts[p][i].payload_id,
                hamming(st.chunks[c].parts[p][i].vector, words) as u32,
            ),
{
    lemma_insertion_fits(st, words, 0);
    lemma_found_in_live(st, words, NUM_TABLES as nat, k);
}

proof fn lemma_found_in_live(st: ClusterState, words: Seq<u64>, n: nat, k: int)
    requires
        st.ready(),
        fits(st.insertion(words, 0), st.chunks),
        n <= NUM_TABLES,
        0 <= k < found_in(st.chunks, st.targets(words), words, n).len(),
    ensures
        exists|c: int, p: int, i: int|
            #![trigger st.chunks[c].parts[p][i]]
            0 <= c < st.chunks.len() && is_slot(st.chunks[c].parts, p, i)
                && st.chunks[c].parts[p][i].is_active == 1 && found_in(
                st.chunks,
                st.targets(words),
                words,
                n,
            )[k] == (
                st.chunks[c].parts[p][i].payload_id,
                hamming(st.chunks[c].parts[p][i].vector, words) as u32,
            ),
    decreases n,
{
    if n > 0 {
        let before = found_in(st.chunks, st.targets(words), words, (n - 1) as nat);
        let c = st.targets(words)[n - 1] as int;
        assert(st.insertion(words, 0).targets[n - 1] < st.chunks.len());
        let chunk = st.chunks[c];
        assert(chunk.can_probe());
        if k < before.len() {
            lemma_found_in_live(st, words, (n - 1) as nat, k);
        } else {
            law_search_finds_only_what_is_there(
                chunk.parts,
                words,
                chunk.probe_depth,
                k - before.len(),
            );
            let (p, i) = choose|p: int, i: int|
                is_slot(chunk.parts, p, i) && (#[trigger] chunk.parts[p][i]).is_active == 1
                    && all_hits(chunk.parts, words, chunk.probe_depth)[k - before.len()] == (
                    chunk.parts[p][i].payload_id,
                    hamming(chunk.parts[p][i].vector, words) as u32,
                );
            assert(st.chunks[c].parts[p][i].is_active == 1);
        }
    }
}

/// Whether every record in use with the given id carries the given vector in some
/// files.
pub open spec fn one_vector(parts: Seq<Seq<Record>>, words: Seq<u64>, payload_id: u64) -> bool {
    forall|p: int, i: int|
        #![trigger parts[p][i]]
        is_slot(parts, p, i) && holds_id(parts[p], payload_id, i) ==> parts[p][i].vector == words
}

/// Whether every record in use with the given id carries the given vector.
pub open spec fn sole(chunks: Seq<DbState>, words: Seq<u64>, payload_id: u64) -> bool {
    forall|c: int|
        0 <= c < chunks.len() ==> one_vector((#[trigger] chunks[c]).parts, words, payload_id)
}

/// Whether files hold no record in use with the given id.
pub open spec fn knows_not(parts: Seq<Seq<Record>>, payload_id: u64) -> bool {
    forall|p: int, i: int|
        #![trigger parts[p][i]]
        is_slot(parts, p, i) ==> !holds_id(parts[p], payload_id, i)
}

proof fn lemma_stored_one_vector(
    chunk: DbState,
    new_words: Seq<u64>,
    new_id: u64,
    words: Seq<u64>,
    payload_id: u64,
)
    requires
        chunk.can_probe(),
        one_vector(chunk.parts, words, payload_id),
        new_id == payload_id ==> new_words == words,
    ensures
        one_vector(chunk.stored(new_words, new_id).parts, words, payload_id),
{
    if chunk.has_room(new_words) {
        let at = lemma_stored(chunk, new_words, new_id);
        let parts = chunk.stored(new_words, new_id).parts;
        assert forall|p: int, i: int|
            #![trigger parts[p][i]]
            is_slot(parts, p, i) && holds_id(parts[p], payload_id, i) implies parts[p][i].vector
            == words by {
            if p != at.0 || i != at.1 {
                assert(parts[p][i] == chunk.parts[p][i]);
                assert(holds_id(chunk.parts[p], payload_id, i));
            }
        }
    }
}

proof fn lemma_extended_one_vector(
    chunk: DbState,
    files: Seq<Seq<Record>>,
    words: Seq<u64>,
    payload_id: u64,
)
    requires
        one_vector(chunk.parts, words, payload_id),
        one_vector(files, words, payload_id),
    ensures
        one_vector(chunk.extended(files).parts, words, payload_id),
{
    let parts = chunk.extended(files).parts;
    let n = chunk.parts.len() as int;
    assert forall|p: int, i: int|
        #![trigger parts[p][i]]
        is_slot(parts, p, i) && holds_id(parts[p], payload_id, i) implies parts[p][i].vector
        == words by {
        if p < n {
            assert(parts[p][i] == chunk.parts[p][i]);
        } else {
            assert(parts[p][i] == files[p - n][i]);
        }
    }
}

/// A chunk that holds a record with an id in use finds it under that id.
proof fn lemma_held_is_looked_up(chunk: DbState, payload_id: u64, p: int, i: int)
    requires
        is_slot(chunk.parts, p, i),
        holds_id(chunk.parts[p], payload_id, i),
    ensures
        chunk.lookup(payload_id) is Some,
{
    lemma_part_with_id(chunk.parts, payload_id, 0);
    lemma_find_from(chunk.parts[p], payload_id, 0);
}

/// What a chunk finds under an id is the vector of a record in use with it.
proof fn lemma_looked_up_is_held(chunk: DbState, payload_id: u64) -> (at: (int, int))
    requires
        chunk.lookup(payload_id) is Some,
    ensures
        is_slot(chunk.parts, at.0, at.1),
        holds_id(chunk.parts[at.0], payload_id, at.1),
        chunk.lookup(payload_id) == Some(chunk.parts[at.0][at.1].vector),
{
    lemma_part_with_id(chunk.parts, payload_id, 0);
    let p = part_with_id(chunk.parts, payload_id, 0)->0;
    lemma_find_from(chunk.parts[p], payload_id, 0);
    (p, find(chunk.parts[p], payload_id)->0)
}

/// Of an id that is not found, no record carries another vector.
pub proof fn law_unknown_id_is_sole(st: ClusterState, words: Seq<u64>, payload_id: u64)
    requires
        st.lookup(payload_id) is None,
    ensures
        sole(st.chunks, words, payload_id),
{
    lemma_chunk_with_id(st.chunks, payload_id, 0);
    assert forall|c: int| 0 <= c < st.chunks.len() implies one_vector(
        (#[trigger] st.chunks[c]).parts,
        words,
        payload_id,
    ) by {
        let parts = st.chunks[c].parts;
        assert(st.chunks[c].lookup(payload_id) is None);
        assert forall|p: int, i: int|
            #![trigger parts[p][i]]
            is_slot(parts, p, i) && holds_id(parts[p], payload_id, i) implies parts[p][i].vector
            == words by {
            lemma_held_is_looked_up(st.chunks[c], payload_id, p, i);
        }
    }
}

/// What a lookup gives is the vector that all records of the id carry.
pub proof fn law_sole_vector_is_looked_up(st: ClusterState, words: Seq<u64>, payload_id: u64)
    requires
        sole(st.chunks, words, payload_id),
    ensures
        st.lookup(payload_id) is None || st.lookup(payload_id) == Some(words),
{
    lemma_chunk_with_id(st.chunks, payload_id, 0);
    if let Some(d) = chunk_with_id(st.chunks, payload_id, 0) {
        let (q, j) = lemma_looked_up_is_held(st.chunks[d], payload_id);
        assert(one_vector(st.chunks[d].parts, words, payload_id));
        assert(st.chunks[d].parts[q][j].vector == words);
    }
}

/// Storing a record in its target chunks leaves the one vector of an id the only
/// one: that of any other id, and its own where it carries that vector.
pub proof fn law_insert_keeps_sole(
    chunks: Seq<DbState>,
    ins: InsertionState,
    words: Seq<u64>,
    payload_id: u64,
)
    requires
        fits(ins, chunks),
        all_can_probe(chunks),
        sole(chunks, words, payload_id),
        ins.payload_id == payload_id ==> ins.words == words,
    ensures
        sole(placed(chunks, ins).0, words, payload_id),
    decreases ins.targets.len() - ins.next,
{
    if ins.next < ins.targets.len() && chunks[ins.targets[ins.next as int] as int].has_room(
        ins.words,
    ) {
        let (more, next) = lemma_one_placed(chunks, ins);
        let at = ins.targets[ins.next as int] as int;
        assert(one_vector(chunks[at].parts, words, payload_id));
        assert(chunks[at].can_probe());
        lemma_stored_one_vector(chunks[at], ins.words, ins.payload_id, words, payload_id);
        assert forall|c: int| 0 <= c < more.len() implies one_vector(
            (#[trigger] more[c]).parts,
            words,
            payload_id,
        ) by {
            assert(one_vector(chunks[c].parts, words, payload_id));
        }
        law_insert_keeps_sole(more, next, words, payload_id);
    }
}

/// Overflow files that carry no other vector of an id leave its one vector the
/// only one.
pub proof fn law_overflow_keeps_sole(
    chunks: Seq<DbState>,
    ins: InsertionState,
    region: Option<MmapMut>,
    words: Seq<u64>,
    payload_id: u64,
)
    requires
        answerable(chunks, ins, region),
        sole(chunks, words, payload_id),
        ins.payload_id == payload_id ==> ins.words == words,
        one_vector(at_hand(ins, region), words, payload_id),
    ensures
        sole(answered(chunks, ins, region).0, words, payload_id),
{
    let after = answered(chunks, ins, region).0;
    let at = ins.targets[ins.next as int] as int;
    lemma_answer(chunks, ins, region);
    assert(one_vector(chunks[at].parts, words, payload_id));
    if after != chunks {
        let files = at_hand(ins, region);
        lemma_extended_one_vector(chunks[at], files, words, payload_id);
        lemma_stored_one_vector(
            chunks[at].extended(files),
            ins.words,
            ins.payload_id,
            words,
            payload_id,
        );
        assert forall|c: int| 0 <= c < after.len() implies one_vector(
            (#[trigger] after[c]).parts,
            words,
            payload_id,
        ) by {
            assert(one_vector(chunks[c].parts, words, payload_id));
        }
    }
}

/// Deleting any id leaves the one vector of an id the only one.
pub proof fn law_delete_keeps_sole(
    chunks: Seq<DbState>,
    gone: u64,
    words: Seq<u64>,
    payload_id: u64,
)
    requires
        sole(chunks, words, payload_id),
    ensures
        sole(each_deleted(chunks, gone), words, payload_id),
{
    let after = each_deleted(chunks, gone);
    assert forall|c: int| 0 <= c < after.len() implies one_vector(
        (#[trigger] after[c]).parts,
        words,
        payload_id,
    ) by {
        assert(one_vector(chunks[c].parts, words, payload_id));
        if chunks[c].lookup(gone) is Some {
            let at = lemma_deleted(chunks[c], gone);
            let parts = after[c].parts;
            assert forall|p: int, i: int|
                #![trigger parts[p][i]]
                is_slot(parts, p, i) && holds_id(parts[p], payload_id, i) implies parts[p][i].vector
                == words by {
                if p != at.0 || i != at.1 {
                    assert(parts[p][i] == chunks[c].parts[p][i]);
                    assert(holds_id(chunks[c].parts[p], payload_id, i));
                }
            }
        }
    }
}

/// A new chunk that carries no other vector of an id leaves its one vector the
/// only one.
pub proof fn law_expand_keeps_sole(
    st: ClusterState,
    table: int,
    slot: int,
    chunk: DbState,
    words: Seq<u64>,
    payload_id: u64,
)
    requires
        sole(st.chunks, words, payload_id),
        one_vector(chunk.parts, words, payload_id),
    ensures
        sole(st.expanded(table, slot, chunk).chunks, words, payload_id),
{
    let after = st.expanded(table, slot, chunk).chunks;
    assert forall|c: int| 0 <= c < after.len() implies one_vector(
        (#[trigger] after[c]).parts,
        words,
        payload_id,
    ) by {
        if c < st.chunks.len() {
            assert(one_vector(st.chunks[c].parts, words, payload_id));
        }
    }
}

/// Whether two chunks hold the same records in use with an id in the same slots.
spec fn same_under(a: DbState, b: DbState, payload_id: u64) -> bool {
    &&& a.parts.len() == b.parts.len()
    &&& forall|p: int| 0 <= p < a.parts.len() ==> (#[trigger] a.parts[p]).len() == b.parts[p].len()
    &&& forall|p: int, i: int|
        #![trigger a.parts[p][i]]
        #![trigger b.parts[p][i]]
        is_slot(a.parts, p, i) ==> {
            &&& holds_id(a.parts[p], payload_id, i) == holds_id(b.parts[p], payload_id, i)
            &&& holds_id(a.parts[p], payload_id, i) ==> a.parts[p][i].vector == b.parts[p][i].vector
        }
}

proof fn lemma_find_under(a: DbState, b: DbState, payload_id: u64, p: int, from: int)
    requires
        same_under(a, b, payload_id),
        0 <= p < a.parts.len(),
        0 <= from,
    ensures
        find_from(a.parts[p], payload_id, from) == find_from(b.parts[p], payload_id, from),
    decreases a.parts[p].len() - from,
{
    assert(a.parts[p].len() == b.parts[p].len());
    if from < a.parts[p].len() {
        assert(is_slot(a.parts, p, from));
        assert(holds_id(a.parts[p], payload_id, from) == holds_id(b.parts[p], payload_id, from))
            by {
            let r = a.parts[p][from];
        }
        lemma_find_under(a, b, payload_id, p, from + 1);
    }
}

proof fn lemma_part_under(a: DbState, b: DbState, payload_id: u64, from: int)
    requires
        same_under(a, b, payload_id),
        0 <= from,
    ensures
        part_with_id(a.parts, payload_id, from) == part_with_id(b.parts, payload_id, from),
    decreases a.parts.len() - from,
{
    if from < a.parts.len() {
        lemma_find_under(a, b, payload_id, from, 0);
        lemma_part_under(a, b, payload_id, from + 1);
    }
}

proof fn lemma_lookup_under(a: DbState, b: DbState, payload_id: u64)
    requires
        same_under(a, b, payload_id),
    ensures
        a.lookup(payload_id) == b.lookup(payload_id),
{
    lemma_part_under(a, b, payload_id, 0);
    lemma_part_with_id(a.parts, payload_id, 0);
    if let Some(p) = part_with_id(a.parts, payload_id, 0) {
        lemma_find_under(a, b, payload_id, p, 0);
        lemma_find_from(a.parts[p], payload_id, 0);
        let i = find(a.parts[p], payload_id)->0;
        assert(a.parts[p][i].vector == b.parts[p][i].vector);
    }
}

proof fn lemma_chunk_with_id_same(
    a: Seq<DbState>,
    b: Seq<DbState>,
    payload_id: u64,
    from: int,
)
    requires
        a.len() == b.len(),
        0 <= from,
        forall|c: int|
            0 <= c < a.len() ==> (#[trigger] a[c]).lookup(payload_id) == b[c].lookup(payload_id),
    ensures
        chunk_with_id(a, payload_id, from) == chunk_with_id(b, payload_id, from),
    decreases a.len() - from,
{
    if from < a.len() {
        assert(a[from].lookup(payload_id) == b[from].lookup(payload_id));
        lemma_chunk_with_id_same(a, b, payload_id, from + 1);
    }
}

/// Inserting under one id leaves what a lookup of any other gives.
pub proof fn law_insert_keeps_other_lookups(
    st: ClusterState,
    ins: InsertionState,
    other: u64,
)
    requires
        fits(ins, st.chunks),
        all_can_probe(st.chunks),
        other != ins.payload_id,
    ensures
        st.with_chunks(placed(st.chunks, ins).0).lookup(other) == st.lookup(other),
    decreases ins.targets.len() - ins.next,
{
    if ins.next < ins.targets.len() && st.chunks[ins.targets[ins.next as int] as int].has_room(
        ins.words,
    ) {
        let c = ins.targets[ins.next as int] as int;
        let (more, next) = lemma_one_placed(st.chunks, ins);
        let at = lemma_stored(st.chunks[c], ins.words, ins.payload_id);
        assert(same_under(more[c], st.chunks[c], other));
        lemma_lookup_under(more[c], st.chunks[c], other);
        lemma_chunk_with_id_same(more, st.chunks, other, 0);
        lemma_chunk_with_id(st.chunks, other, 0);
        law_insert_keeps_other_lookups(st.with_chunks(more), next, other);
    }
}

/// Deleting one id leaves what a lookup of any other gives.
pub proof fn law_delete_keeps_other_lookups(st: ClusterState, gone: u64, other: u64)
    requires
        other != gone,
    ensures
        st.with_chunks(each_deleted(st.chunks, gone)).lookup(other) == st.lookup(
            other,
        ),
{
    let after = each_deleted(st.chunks, gone);
    assert forall|c: int| 0 <= c < after.len() implies (#[trigger] after[c]).lookup(other)
        == st.chunks[c].lookup(other) by {
        if st.chunks[c].lookup(gone) is Some {
            let at = lemma_deleted(st.chunks[c], gone);
            assert(same_under(after[c], st.chunks[c], other));
            lemma_lookup_under(after[c], st.chunks[c], other);
        }
    }
    lemma_chunk_with_id_same(after, st.chunks, other, 0);
    lemma_chunk_with_id(st.chunks, other, 0);
}

proof fn lemma_lookup_extended(chunk: DbState, files: Seq<Seq<Record>>, payload_id: u64)
    requires
        knows_not(files, payload_id),
    ensures
        chunk.extended(files).lookup(payload_id) == chunk.lookup(payload_id),
{
    let parts = chunk.extended(files).parts;
    let n = chunk.parts.len() as int;
    lemma_part_with_id(chunk.parts, payload_id, 0);
    lemma_part_with_id(parts, payload_id, 0);
    assert forall|q: int| 0 <= q < parts.len() implies (#[trigger] parts[q]) == (if q < n {
        chunk.parts[q]
    } else {
        files[q - n]
    }) by {}
    if let Some(q) = part_with_id(parts, payload_id, 0) {
        if q >= n {
            lemma_find_from(files[q - n], payload_id, 0);
            let i = find(files[q - n], payload_id)->0;
            assert(!holds_id(files[q - n], payload_id, i)) by {
                let record = files[q - n][i];
            }
        }
    }
    if let Some(q) = part_with_id(chunk.parts, payload_id, 0) {
        assert(find(parts[q], payload_id) is Some);
    }
}

/// Overflow files that do not know an id, made for a record of another, leave what
/// a lookup of the id gives.
pub proof fn law_overflow_keeps_other_lookups(
    st: ClusterState,
    ins: InsertionState,
    region: Option<MmapMut>,
    other: u64,
)
    requires
        answerable(st.chunks, ins, region),
        other != ins.payload_id,
        knows_not(at_hand(ins, region), other),
    ensures
        st.with_chunks(answered(st.chunks, ins, region).0).lookup(other) == st.lookup(other),
{
    let after = answered(st.chunks, ins, region).0;
    let c = ins.targets[ins.next as int] as int;
    lemma_answer(st.chunks, ins, region);
    if after != st.chunks {
        let more = st.chunks[c].extended(at_hand(ins, region));
        lemma_lookup_extended(st.chunks[c], at_hand(ins, region), other);
        if more.has_room(ins.words) {
            let at = lemma_stored(more, ins.words, ins.payload_id);
            assert(same_under(after[c], more, other));
            lemma_lookup_under(after[c], more, other);
        }
        lemma_chunk_with_id_same(after, st.chunks, other, 0);
        lemma_chunk_with_id(st.chunks, other, 0);
    }
}

/// A new chunk that does not know an id leaves what a lookup of the id gives.
pub proof fn law_expand_keeps_lookups(
    st: ClusterState,
    table: int,
    slot: int,
    chunk: DbState,
    payload_id: u64,
)
    requires
        chunk.lookup(payload_id) is None,
    ensures
        st.expanded(table, slot, chunk).lookup(payload_id) == st.lookup(payload_id),
{
    let after = st.expanded(table, slot, chunk);
    lemma_chunk_with_id(st.chunks, payload_id, 0);
    lemma_chunk_with_id(after.chunks, payload_id, 0);
    assert forall|c: int| 0 <= c < st.chunks.len() implies (#[trigger] after.chunks[c])
        == st.chunks[c] by {}
    if let Some(c) = chunk_with_id(after.chunks, payload_id, 0) {
        assert(after.chunks[c].lookup(payload_id) is Some);
    }
    if let Some(c) = chunk_with_id(st.chunks, payload_id, 0) {
        assert(after.chunks[c].lookup(payload_id) is Some);
    }
}

/// A lookup of an id gives the vector that was inserted under it, where no
/// record carries another.
pub proof fn law_lookup_gives_what_landed(st: ClusterState, ins: InsertionState)
    requires
        fits(ins, st.chunks),
        landed(st.chunks, ins),
        sole(st.chunks, ins.words, ins.payload_id),
    ensures
        st.lookup(ins.payload_id) == Some(ins.words),
{
    let t = choose|t: int|
        0 <= t < ins.next && t < ins.targets.len() && lies_in(
            st.chunks[#[trigger] ins.targets[t] as int],
            ins.words,
            ins.payload_id,
        );
    let c = ins.targets[t] as int;
    let (p, i) = choose|p: int, i: int|
        lies_at(st.chunks[c], ins.words, ins.payload_id, p, i);
    assert(holds_id(st.chunks[c].parts[p], ins.payload_id, i));
    lemma_held_is_looked_up(st.chunks[c], ins.payload_id, p, i);
    lemma_chunk_with_id(st.chunks, ins.payload_id, 0);
    law_sole_vector_is_looked_up(st, ins.words, ins.payload_id);
}

/// A lookup of an id that was not found before gives the vector that was
/// inserted under it, where one of its targets had room for it.
pub proof fn law_lookup_gives_what_was_inserted(st: ClusterState, words: Seq<u64>, payload_id: u64)
    requires
        st.ready(),
        routes_lead_to_chunks(st),
        st.lookup(payload_id) is None,
        placed(st.chunks, st.insertion(words, payload_id)).1.next > 0,
    ensures
        ({
            let (chunks, done) = placed(st.chunks, st.insertion(words, payload_id));
            st.with_chunks(chunks).lookup(payload_id) == Some(words)
        }),
{
    let ins = st.insertion(words, payload_id);
    let (chunks, done) = placed(st.chunks, ins);
    lemma_insertion_fits(st, words, payload_id);
    law_unknown_id_is_sole(st, words, payload_id);
    law_insert_keeps_sole(st.chunks, ins, words, payload_id);
    law_insert_lands(st.chunks, ins);
    law_insert_keeps_records(st.chunks, ins, 0, words, payload_id);
    law_lookup_gives_what_landed(st.with_chunks(chunks), done);
}

/// Where no chunk holds more than one record with an id, none holds one after the
/// id was deleted: a lookup does not find it.
pub proof fn law_delete_forgets(st: ClusterState, payload_id: u64)
    requires
        forall|c: int|
            0 <= c < st.chunks.len() ==> copies((#[trigger] st.chunks[c]).parts, payload_id) <= 1,
    ensures
        st.with_chunks(each_deleted(st.chunks, payload_id)).lookup(payload_id) is None,
{
    let after = st.with_chunks(each_deleted(st.chunks, payload_id));
    assert forall|c: int| 0 <= c < after.chunks.len() implies (#[trigger] after.chunks[c]).lookup(
        payload_id,
    ) is None by {
        assert(copies(st.chunks[c].parts, payload_id) <= 1);
        law_lookup_finds_what_is_there(st.chunks[c], payload_id);
        if st.chunks[c].lookup(payload_id) is Some {
            law_delete_takes_one(st.chunks[c], payload_id);
            assert(copies(st.chunks[c].deleted(payload_id).parts, payload_id) == 0);
        }
        law_lookup_finds_what_is_there(after.chunks[c], payload_id);
    }
    lemma_chunk_with_id(after.chunks, payload_id, 0);
}

/// What a lookup does not find, no search finds.
pub proof fn law_search_finds_no_unknown_id(
    st: ClusterState,
    payload_id: u64,
    words: Seq<u64>,
    k: int,
)
    requires
        st.ready(),
        routes_lead_to_chunks(st),
        st.lookup(payload_id) is None,
        0 <= k < st.candidates(words).len(),
    ensures
        st.candidates(words)[k].0 != payload_id,
{
    law_search_finds_only_records(st, words, k);
    let (c, p, i) = choose|c: int, p: int, i: int|
        #![trigger st.chunks[c].parts[p][i]]
        0 <= c < st.chunks.len() && is_slot(st.chunks[c].parts, p, i)
            && st.chunks[c].parts[p][i].is_active == 1 && st.candidates(words)[k] == (
            st.chunks[c].parts[p][i].payload_id,
            hamming(st.chunks[c].parts[p][i].vector, words) as u32,
        );
    lemma_chunk_with_id(st.chunks, payload_id, 0);
    if st.candidates(words)[k].0 == payload_id {
        assert(holds_id(st.chunks[c].parts[p], payload_id, i));
        lemma_held_is_looked_up(st.chunks[c], payload_id, p, i);
        assert(st.chunks[c].lookup(payload_id) is None);
    }
}

/// Where an insertion goes to chunks that all differ, each chunk got the record
/// once or not at all.
proof fn lemma_placed_once(chunks: Seq<DbState>, ins: InsertionState, c: int)
    requires
        fits(ins, chunks),
        all_can_probe(chunks),
        ins.targets.no_duplicates(),
        0 <= c < chunks.len(),
    ensures
        placed(chunks, ins).0.len() == chunks.len(),
        placed(chunks, ins).0[c] == chunks[c] || chunks[c].has_room(ins.words) && placed(
            chunks,
            ins,
        ).0[c] == chunks[c].stored(ins.words, ins.payload_id),
        (forall|t: int| ins.next <= t < ins.targets.len() ==> #[trigger] ins.targets[t] != c)
            ==> placed(chunks, ins).0[c] == chunks[c],
    decreases ins.targets.len() - ins.next,
{
    if ins.next < ins.targets.len() && chunks[ins.targets[ins.next as int] as int].has_room(
        ins.words,
    ) {
        let (more, next) = lemma_one_placed(chunks, ins);
        lemma_placed_once(more, next, c);
    }
}

/// Deleting an id right after it was inserted leaves the records as they were,
/// where the id was not found before and the record went to chunks that all
/// differ.
pub proof fn law_delete_undoes_insert(
    st: ClusterState,
    words: Seq<u64>,
    payload_id: u64,
    c: int,
)
    requires
        st.ready(),
        routes_lead_to_chunks(st),
        st.lookup(payload_id) is None,
        st.targets(words).no_duplicates(),
        0 <= c < st.chunks.len(),
    ensures
        ({
            let inserted = placed(st.chunks, st.insertion(words, payload_id)).0;
            same_records(each_deleted(inserted, payload_id)[c].parts, st.chunks[c].parts)
        }),
{
    let ins = st.insertion(words, payload_id);
    lemma_insertion_fits(st, words, payload_id);
    lemma_placed_once(st.chunks, ins, c);
    lemma_chunk_with_id(st.chunks, payload_id, 0);
    assert(st.chunks[c].lookup(payload_id) is None);
    assert(st.chunks[c].can_probe());
    if placed(st.chunks, ins).0[c] != st.chunks[c] {
        law_delete_undoes_store(st.chunks[c], words, payload_id);
    }
}

proof fn lemma_cluster_sums_update(chunks: Seq<DbState>, c: int, chunk: DbState)
    requires
        0 <= c < chunks.len(),
    ensures
        cluster_in_use(chunks.update(c, chunk)) + total_in_use(chunks[c].parts) == cluster_in_use(
            chunks,
        ) + total_in_use(chunk.parts),
        cluster_slots(chunks.update(c, chunk)) + total_slots(chunks[c].parts) == cluster_slots(
            chunks,
        ) + total_slots(chunk.parts),
    decreases chunks.len(),
{
    let front = chunks.drop_last();
    if c == chunks.len() - 1 {
        assert(chunks.update(c, chunk).drop_last() =~= front);
    } else {
        assert(chunks.update(c, chunk).drop_last() =~= front.update(c, chunk));
        lemma_cluster_sums_update(front, c, chunk);
    }
}

/// An insertion adds one record in use for every target that had room, and no
/// slots.
pub proof fn law_insert_adds_one_per_target(chunks: Seq<DbState>, ins: InsertionState)
    requires
        fits(ins, chunks),
        all_can_probe(chunks),
    ensures
        cluster_in_use(placed(chunks, ins).0) == cluster_in_use(chunks) + (placed(
            chunks,
            ins,
        ).1.next - ins.next),
        cluster_slots(placed(chunks, ins).0) == cluster_slots(chunks),
    decreases ins.targets.len() - ins.next,
{
    if ins.next < ins.targets.len() && chunks[ins.targets[ins.next as int] as int].has_room(
        ins.words,
    ) {
        let c = ins.targets[ins.next as int] as int;
        let (more, next) = lemma_one_placed(chunks, ins);
        law_store_adds_one(chunks[c], ins.words, ins.payload_id);
        lemma_cluster_sums_update(chunks, c, more[c]);
        law_insert_adds_one_per_target(more, next);
    }
}

/// There are never more records in use than slots.
pub proof fn law_total_len_at_most_total_capacity(chunks: Seq<DbState>)
    ensures
        cluster_in_use(chunks) <= cluster_slots(chunks),
    decreases chunks.len(),
{
    if chunks.len() > 0 {
        law_total_len_at_most_total_capacity(chunks.drop_last());
        law_len_at_most_capacity(chunks.last().parts);
    }
}

/// A new chunk adds its slots, every route still leads to a chunk, and what is
/// not routed through the slot that was changed is searched as before.
pub proof fn law_expand_moves_one_route(
    st: ClusterState,
    table: int,
    slot: int,
    chunk: DbState,
    words: Seq<u64>,
)
    requires
        routes_lead_to_chunks(st),
        0 < st.chunks.len() <= usize::MAX,
        0 <= table < NUM_TABLES,
        0 <= slot < TABLE_SLOTS,
    ensures
        ({
            let after = st.expanded(table, slot, chunk);
            &&& routes_lead_to_chunks(after)
            &&& cluster_slots(after.chunks) == cluster_slots(st.chunks) + total_slots(chunk.parts)
            &&& table_hash(words, table) == slot ==> after.targets(words)[table]
                == st.chunks.len()
            &&& table_hash(words, table) != slot ==> after.candidates(words) == st.candidates(
                words,
            )
        }),
{
    let after = st.expanded(table, slot, chunk);
    lemma_hash_bounds(words);
    lemma_insertion_fits(st, words, 0);
    assert(after.chunks.drop_last() =~= st.chunks);
    assert forall|t: int, s: int| 0 <= t < NUM_TABLES && 0 <= s < TABLE_SLOTS implies (
    #[trigger] after.routes[t][s]) < after.chunks.len() by {
        assert(st.routes[t].len() == TABLE_SLOTS);
        assert(st.routes[t][s] < st.chunks.len());
    }
    assert forall|t: int| 0 <= t < NUM_TABLES implies (#[trigger] after.routes[t]).len()
        == TABLE_SLOTS by {
        assert(st.routes[t].len() == TABLE_SLOTS);
    }
    assert(st.routes[table].len() == TABLE_SLOTS);
    if table_hash(words, table) != slot {
        assert(after.targets(words) =~= st.targets(words));
        assert forall|t: int| 0 <= t < NUM_TABLES implies (#[trigger] st.targets(words)[t])
            < st.chunks.len() by {
            assert(st.insertion(words, 0).targets[t] < st.chunks.len());
        }
        lemma_found_in_more(st.chunks, chunk, st.targets(words), words, NUM_TABLES as nat);
    }
}

proof fn lemma_found_in_more(
    chunks: Seq<DbState>,
    chunk: DbState,
    picked: Seq<usize>,
    words: Seq<u64>,
    n: nat,
)
    requires
        n <= picked.len(),
        forall|t: int| 0 <= t < n ==> (#[trigger] picked[t]) < chunks.len(),
    ensures
        found_in(chunks.push(chunk), picked, words, n) == found_in(chunks, picked, words, n),
    decreases n,
{
    if n > 0 {
        lemma_found_in_more(chunks, chunk, picked, words, (n - 1) as nat);
        assert(picked[n - 1] < chunks.len());
    }
}

/// A cluster may grow without end where no limit is set, and never beyond the
/// limit where one is.
pub proof fn law_growth_is_limited(config: ClusterConfig, count: nat)
    ensures
        config.max_chunks == 0 ==> may_grow(config, count),
        config.max_chunks > 0 ==> config.start_count() <= config.max_chunks,
        config.max_chunks > 0 && count <= config.max_chunks && may_grow(config, count) ==> count + 1
            <= config.max_chunks,
{
}

/// The place that comes with a result is where the text of its id is read.
pub proof fn law_result_leads_to_its_text(index: Map<u64, u64>, log: Seq<u8>, hit: (u64, u32))
    ensures
        match with_text(index, hit).2 {
            Some(at) => text_under(index, log, hit.0) == text_at(log, at as int),
            None => text_under(index, log, hit.0) is None,
        },
{
}

/// Whether two lists of files for each chunk hold the same bytes.
pub open spec fn same_bytes(a: Seq<Seq<MmapMut>>, b: Seq<Seq<MmapMut>>) -> bool {
    &&& a.len() == b.len()
    &&& forall|c: int|
        0 <= c < a.len() ==> (#[trigger] a[c]).map_values(|m: MmapMut| mapped(m))
            == b[c].map_values(|m: MmapMut| mapped(m))
}

proof fn lemma_same_files(a: Seq<MmapMut>, b: Seq<MmapMut>, capacity: nat, overflow_capacity: nat)
    requires
        a.map_values(|m: MmapMut| mapped(m)) == b.map_values(|m: MmapMut| mapped(m)),
    ensures
        opened_parts(a) == opened_parts(b),
        files_fit(a, capacity, overflow_capacity) == files_fit(b, capacity, overflow_capacity),
{
    let contents = a.map_values(|m: MmapMut| mapped(m));
    assert(contents.len() == a.len() && contents.len() == b.len());
    assert forall|i: int| 0 <= i < a.len() implies mapped(#[trigger] a[i]) == mapped(b[i]) by {
        assert(contents[i] == mapped(a[i]) && contents[i] == mapped(b[i]));
    }
    assert(opened_parts(a) =~= opened_parts(b));
    assert forall|i: int| 0 <= i < b.len() implies mapped(#[trigger] b[i]) == mapped(a[i]) by {
        assert(contents[i] == mapped(a[i]) && contents[i] == mapped(b[i]));
    }
}

/// What was flushed is there after a restart: files that hold what the mappings
/// of a cluster held, overflow files included, open as a cluster with the same
/// chunks and the same texts. It finds the same vector under every id, and is the
/// same in all where no route was changed since the cluster was opened.
pub proof fn law_reopened_cluster_is_the_same(
    cluster: ThrushCluster,
    regions: Seq<Seq<MmapMut>>,
    log: Seq<u8>,
)
    requires
        cluster.wf(),
        same_bytes(regions, cluster.chunk_mappings()),
        cluster@.texts == scanned(log, 0, Map::empty()),
    ensures
        openable(regions, cluster@.config),
        ({
            let after = opened(regions, cluster@.config, scanned(log, 0, Map::empty()));
            &&& after.chunks == cluster@.chunks
            &&& after.texts == cluster@.texts
            &&& after.config == cluster@.config
            &&& forall|id: u64| #[trigger] after.lookup(id) == cluster@.lookup(id)
            &&& cluster@.routes == first_routes(cluster@.config.start_count()) ==> after
                == cluster@
        }),
{
    let config = cluster@.config;
    let after = opened(regions, config, scanned(log, 0, Map::empty()));
    cluster.lemma_wf();
    assert forall|c: int| 0 <= c < regions.len() implies files_fit(
        #[trigger] regions[c],
        config.chunk_capacity as nat,
        config.overflow_capacity as nat,
    ) && after.chunks[c] == cluster@.chunks[c] by {
        let files = cluster.chunk_mappings()[c];
        lemma_same_files(
            regions[c],
            files,
            config.chunk_capacity as nat,
            config.overflow_capacity as nat,
        );
        assert(cluster@.chunks[c].parts[0].len() == config.chunk_capacity);
        assert(after.chunks[c] =~= cluster@.chunks[c]);
    }
    assert(after.chunks =~= cluster@.chunks);
}

/// The vector of an insertion that landed is found under its id after a restart,
/// where no record carries another.
pub proof fn law_flushed_record_survives_restart(
    cluster: ThrushCluster,
    ins: InsertionState,
    regions: Seq<Seq<MmapMut>>,
    log: Seq<u8>,
)
    requires
        cluster.wf(),
        fits(ins, cluster@.chunks),
        landed(cluster@.chunks, ins),
        sole(cluster@.chunks, ins.words, ins.payload_id),
        same_bytes(regions, cluster.chunk_mappings()),
        cluster@.texts == scanned(log, 0, Map::empty()),
    ensures
        openable(regions, cluster@.config),
        opened(regions, cluster@.config, scanned(log, 0, Map::empty())).lookup(ins.payload_id)
            == Some(ins.words),
{
    law_lookup_gives_what_landed(cluster@, ins);
    law_reopened_cluster_is_the_same(cluster, regions, log);
}

/// How many chunks a cluster starts with: as many as are asked for, unless the limit
/// is below that: then as many as the limit allows.
pub proof fn law_start_is_within_the_limit(config: ClusterConfig)
    ensures
        config.max_chunks == 0 || config.initial_chunks <= config.max_chunks
            ==> config.start_count() == config.initial_chunks,
        0 < config.max_chunks < config.initial_chunks ==> config.start_count()
            == config.max_chunks,
{
}

/// A cluster may grow exactly where there is no limit or it is not reached.
pub proof fn law_who_may_grow(config: ClusterConfig, count: nat)
    ensures
        !may_grow(config, count) <==> 0 < config.max_chunks <= count,
{
}

/// In a cluster that was just opened the slots of every routing table go round the
/// chunks that it starts with: two slots lead to the same chunk exactly where they
/// are congruent modulo their number, and the first slots lead to the chunks of the
/// same number.
pub proof fn law_first_routes_go_round(
    regions: Seq<Seq<MmapMut>>,
    config: ClusterConfig,
    texts: Map<u64, u64>,
    t: int,
    s: int,
    r: int,
)
    requires
        config.start_count() > 0,
        0 <= t < 3,
        0 <= s < 256,
        0 <= r < 256,
    ensures
        ({
            let routes = opened(regions, config, texts).routes;
            let n = config.start_count() as int;
            &&& routes.len() == 3
            &&& routes[t].len() == 256
            &&& routes[t][s] < n
            &&& routes[t][s] == routes[t][r] <==> s % n == r % n
            &&& s < n ==> routes[t][s] == s
        }),
{
    let n = config.start_count() as int;
    assert(0 <= s % n < n && 0 <= r % n < n);
    assert(s % n <= s && r % n <= r) by (nonlinear_arith)
        requires
            n > 0,
            0 <= s,
            0 <= r,
    ;
    if s < n {
        assert(s % n == s) by (nonlinear_arith)
            requires
                0 <= s < n,
        ;
    }
    assert(opened(regions, config, texts).routes[t][s] == first_route(s, config.start_count()));
    assert(opened(regions, config, texts).routes[t][r] == first_route(r, config.start_count()));
}

/// In a cluster that was just opened each of the first 256 chunks that it starts
/// with is led to by a slot of every routing table. Where it starts with none, all
/// slots lead to the chunk of number 0.
pub proof fn law_first_chunks_are_led_to(
    regions: Seq<Seq<MmapMut>>,
    config: ClusterConfig,
    texts: Map<u64, u64>,
    t: int,
    c: int,
)
    requires
        0 <= t < 3,
        0 <= c < 256,
    ensures
        c < config.start_count() ==> exists|s: int|
            0 <= s < 256 && #[trigger] opened(regions, config, texts).routes[t][s] == c,
        config.start_count() == 0 ==> opened(regions, config, texts).routes[t][c] == 0,
{
    if c < config.start_count() {
        law_first_routes_go_round(regions, config, texts, t, c, c);
    }
}

/// A cluster opens with the chunks that the mappings hold, each with the sizes of
/// the configuration, with its texts, and exactly where there are enough chunks, not
/// more than the limit allows, and every file has the length that its slots need.
pub proof fn law_cluster_opens_as_it_was_written(
    regions: Seq<Seq<MmapMut>>,
    config: ClusterConfig,
    texts: Map<u64, u64>,
    c: int,
    p: int,
)
    ensures
        ({
            let st = opened(regions, config, texts);
            &&& st.chunks.len() == regions.len()
            &&& st.config == config
            &&& st.texts == texts
            &&& 0 <= c < regions.len() ==> {
                &&& st.chunks[c].parts.len() == regions[c].len()
                &&& 0 <= p < regions[c].len() ==> st.chunks[c].parts[p] == records(
                    mapped(regions[c][p]),
                )
                &&& st.chunks[c].overflow_capacity == config.overflow_capacity
                &&& st.chunks[c].probe_depth == config.probe_depth
            }
        }),
        openable(regions, config) && 0 <= c < regions.len() ==> {
            &&& regions[c].len() > 0
            &&& mapped(regions[c][0]).len() == 144 * config.chunk_capacity
            &&& 0 < p < regions[c].len() ==> mapped(regions[c][p]).len() == 144
                * config.overflow_capacity
        },
        openable(regions, config) ==> config.start_count() <= regions.len() && (
        config.max_chunks == 0 || regions.len() <= config.max_chunks),
        config.start_count() <= regions.len() && (config.max_chunks == 0 || regions.len()
            <= config.max_chunks) && (forall|d: int|
            0 <= d < regions.len() ==> (#[trigger] regions[d]).len() > 0 && mapped(
                regions[d][0],
            ).len() == 144 * config.chunk_capacity && forall|q: int|
                0 < q < regions[d].len() ==> mapped(#[trigger] regions[d][q]).len() == 144
                    * config.overflow_capacity) ==> openable(regions, config),
{
    if openable(regions, config) && 0 <= c < regions.len() {
        assert(files_fit(
            regions[c],
            config.chunk_capacity as nat,
            config.overflow_capacity as nat,
        ));
    }
}

/// The mappings of a cluster are taken in the order in which they are given.
pub proof fn law_mappings_are_taken_in_order(regions: Seq<Vec<MmapMut>>, c: int)
    ensures
        lists(regions).len() == regions.len(),
        0 <= c < regions.len() ==> lists(regions)[c] == regions[c]@,
{
}

/// The slots and the records in use of chunks are those of each.
pub proof fn law_chunks_are_summed(a: Seq<DbState>, b: Seq<DbState>, chunk: DbState)
    ensures
        cluster_slots(seq![chunk]) == total_slots(chunk.parts),
        cluster_slots(a + b) == cluster_slots(a) + cluster_slots(b),
        cluster_slots(Seq::empty()) == 0,
        cluster_in_use(seq![chunk]) == total_in_use(chunk.parts),
        cluster_in_use(a + b) == cluster_in_use(a) + cluster_in_use(b),
        cluster_in_use(Seq::empty()) == 0,
    decreases b.len(),
{
    assert(seq![chunk].drop_last() =~= Seq::<DbState>::empty());
    assert(cluster_slots(Seq::<DbState>::empty()) == 0);
    assert(cluster_in_use(Seq::<DbState>::empty()) == 0);
    if b.len() == 0 {
        assert(a + b =~= a);
    } else {
        assert((a + b).drop_last() =~= a + b.drop_last());
        law_chunks_are_summed(a, b.drop_last(), chunk);
    }
}

proof fn lemma_equal_chunks(chunks: Seq<DbState>, slots: nat)
    requires
        forall|c: int|
            0 <= c < chunks.len() ==> total_slots((#[trigger] chunks[c]).parts) == slots,
    ensures
        cluster_slots(chunks) == chunks.len() * slots,
    decreases chunks.len(),
{
    if chunks.len() > 0 {
        let front = chunks.drop_last();
        let n = chunks.len();
        assert(total_slots(chunks[n - 1].parts) == slots);
        lemma_equal_chunks(front, slots);
        assert(n * slots == (n - 1) * slots + slots) by (nonlinear_arith);
    } else {
        assert(chunks.len() * slots == 0) by (nonlinear_arith)
            requires
                chunks.len() == 0,
        ;
    }
}

/// A cluster that was just opened over chunks with `overflows` overflow files each
/// has the slots of each chunk and of each overflow file; without overflow files,
/// the number of chunks times the slots of each.
pub proof fn law_capacity_of_an_opened_cluster(
    regions: Seq<Seq<MmapMut>>,
    config: ClusterConfig,
    texts: Map<u64, u64>,
    overflows: nat,
)
    requires
        openable(regions, config),
        forall|c: int| 0 <= c < regions.len() ==> (#[trigger] regions[c]).len() == 1 + overflows,
    ensures
        cluster_slots(opened(regions, config, texts).chunks) == regions.len() * (
        config.chunk_capacity + overflows * config.overflow_capacity),
        overflows == 0 ==> cluster_slots(opened(regions, config, texts).chunks) == regions.len()
            * config.chunk_capacity,
{
    let chunks = opened(regions, config, texts).chunks;
    let each = (config.chunk_capacity + overflows * config.overflow_capacity) as nat;
    assert(overflows * config.overflow_capacity >= 0) by (nonlinear_arith);
    assert forall|c: int| 0 <= c < chunks.len() implies total_slots((#[trigger] chunks[c]).parts)
        == each by {
        let parts = chunks[c].parts;
        assert(regions[c].len() == 1 + overflows);
        assert(files_fit(
            regions[c],
            config.chunk_capacity as nat,
            config.overflow_capacity as nat,
        ));
        assert forall|i: int| 1 <= i < parts.len() implies (#[trigger] parts[i]).len()
            == config.overflow_capacity by {
            assert(mapped(regions[c][i]).len() == config.overflow_capacity * RECORD_SIZE);
        }
        law_capacity_of_a_chunk(
            parts,
            config.chunk_capacity as nat,
            config.overflow_capacity as nat,
        );
    }
    lemma_equal_chunks(chunks, each);
    if overflows == 0 {
        assert(overflows * config.overflow_capacity == 0) by (nonlinear_arith)
            requires
                overflows == 0,
        ;
    }
}

/// A lookup asks the chunks in their order and gives what the first gives that knows
/// the id, and nothing exactly where none does.
pub proof fn law_lookup_asks_the_chunks_in_order(st: ClusterState, payload_id: u64) -> (c: int)
    ensures
        match st.lookup(payload_id) {
            Some(words) => {
                &&& 0 <= c < st.chunks.len()
                &&& st.chunks[c].lookup(payload_id) == Some(words)
                &&& forall|d: int|
                    0 <= d < c ==> (#[trigger] st.chunks[d]).lookup(payload_id) is None
            },
            None => forall|d: int|
                0 <= d < st.chunks.len() ==> (#[trigger] st.chunks[d]).lookup(payload_id) is None,
        },
{
    lemma_chunk_with_id(st.chunks, payload_id, 0);
    match chunk_with_id(st.chunks, payload_id, 0) {
        Some(c) => c,
        None => 0,
    }
}

/// A deletion deletes the id in every chunk.
pub proof fn law_every_chunk_deletes(chunks: Seq<DbState>, payload_id: u64, c: int)
    ensures
        each_deleted(chunks, payload_id).len() == chunks.len(),
        0 <= c < chunks.len() ==> each_deleted(chunks, payload_id)[c] == chunks[c].deleted(
            payload_id,
        ),
{
}

/// A vector is routed to three chunks, by one slot of each table, and a search looks
/// into these three, one after another.
pub proof fn law_three_chunks_are_searched(st: ClusterState, words: Seq<u64>)
    ensures
        st.targets(words).len() == 3,
        st.targets(words)[0] == st.routes[0][table_hash(words, 0) as int],
        st.targets(words)[1] == st.routes[1][table_hash(words, 1) as int],
        st.targets(words)[2] == st.routes[2][table_hash(words, 2) as int],
        ({
            let a = st.chunks[st.routes[0][table_hash(words, 0) as int] as int];
            let b = st.chunks[st.routes[1][table_hash(words, 1) as int] as int];
            let c = st.chunks[st.routes[2][table_hash(words, 2) as int] as int];
            st.candidates(words) == all_hits(a.parts, words, a.probe_depth) + all_hits(
                b.parts,
                words,
                b.probe_depth,
            ) + all_hits(c.parts, words, c.probe_depth)
        }),
{
    let targets = st.targets(words);
    reveal_with_fuel(found_in, 4);
    assert(found_in(st.chunks, targets, words, 0) =~= Seq::empty());
    let a = st.chunks[targets[0] as int];
    assert(found_in(st.chunks, targets, words, 1) =~= all_hits(a.parts, words, a.probe_depth));
}

/// Vectors can be placed and searched exactly where there is a chunk and every chunk
/// can be probed.
pub proof fn law_who_is_ready(st: ClusterState)
    ensures
        st.ready() <==> st.chunks.len() > 0 && (forall|c: int|
            0 <= c < st.chunks.len() ==> (#[trigger] st.chunks[c]).can_probe()),
{
}

/// An insertion begins with none of the chunks that its vector is routed to dealt
/// with.
pub proof fn law_insertion_begins(st: ClusterState, words: Seq<u64>, payload_id: u64)
    ensures
        ({
            let ins = st.insertion(words, payload_id);
            &&& ins.words == words
            &&& ins.payload_id == payload_id
            &&& ins.targets == st.targets(words)
            &&& ins.next == 0
            &&& !ins.any_ok
            &&& ins.files.len() == 0
        }),
{
}

/// An insertion deals with its targets one by one: a target with room stores the
/// record, and the insertion, which counts as a success from then on, goes on with
/// the next; at a target without room, or behind the last, it stops.
pub proof fn law_insertion_goes_target_by_target(chunks: Seq<DbState>, ins: InsertionState)
    ensures
        ins.next >= ins.targets.len() ==> placed(chunks, ins) == (chunks, ins),
        ins.next < ins.targets.len() ==> {
            let c = ins.targets[ins.next as int] as int;
            &&& !chunks[c].has_room(ins.words) ==> placed(chunks, ins) == (chunks, ins)
            &&& chunks[c].has_room(ins.words) ==> placed(chunks, ins) == placed(
                chunks.update(c, chunks[c].stored(ins.words, ins.payload_id)),
                (InsertionState {
                    words: ins.words,
                    payload_id: ins.payload_id,
                    targets: ins.targets,
                    next: ins.next + 1,
                    any_ok: true,
                    files: Seq::empty(),
                }),
            )
        },
{
}

/// After an insertion went to its targets, every target that it dealt with holds the
/// record in a slot that a search for the vector looks at, it stopped at none that
/// has room, and every other chunk is as it was.
pub proof fn law_insertion_reaches_its_targets(
    chunks: Seq<DbState>,
    ins: InsertionState,
    t: int,
    c: int,
)
    requires
        fits(ins, chunks),
        all_can_probe(chunks),
    ensures
        ({
            let (after, done) = placed(chunks, ins);
            &&& after.len() == chunks.len()
            &&& done.next <= ins.targets.len() || done.next == ins.next
            &&& ins.next <= t < done.next ==> exists|p: int, i: int|
                #![trigger after[ins.targets[t] as int].parts[p][i]]
                {
                    let chunk = after[ins.targets[t] as int];
                    let r = chunk.parts[p][i];
                    &&& 0 <= p < chunk.parts.len() && 0 <= i < chunk.parts[p].len()
                    &&& r.is_active == 1 && r.payload_id == ins.payload_id && r.vector == ins.words
                    &&& probes(ins.words, chunk.parts[p].len(), chunk.probe_depth).contains(i)
                }
            &&& done.next < ins.targets.len() ==> !after[ins.targets[done.next as int] as int]
                .has_room(ins.words)
            &&& 0 <= c < chunks.len() && (forall|k: int|
                ins.next <= k < done.next ==> (#[trigger] ins.targets[k]) != c) ==> after[c]
                == chunks[c]
        }),
    decreases ins.targets.len() - ins.next,
{
    let (after, done) = placed(chunks, ins);
    law_insert_lands(chunks, ins);
    if ins.next < ins.targets.len() && chunks[ins.targets[ins.next as int] as int].has_room(
        ins.words,
    ) {
        let at = ins.targets[ins.next as int] as int;
        let (more, next) = lemma_one_placed(chunks, ins);
        law_insert_lands(more, next);
        law_insertion_reaches_its_targets(more, next, t, c);
        if t == ins.next {
            law_insert_keeps_records(more, next, at, ins.words, ins.payload_id);
            let (p, i) = choose|p: int, i: int|
                lies_at(after[at], ins.words, ins.payload_id, p, i);
            assert(after[ins.targets[t] as int].parts[p][i].is_active == 1);
        }
        if 0 <= c < chunks.len() && (forall|k: int|
            ins.next <= k < done.next ==> (#[trigger] ins.targets[k]) != c) {
            assert(ins.targets[ins.next as int] != c);
        }
    }
}

/// What becomes of the answer to a request for an overflow file: without a mapping
/// of the right size the target is passed over; files that give the target no room
/// are kept aside; else the target gets all files at hand and stores the record.
pub proof fn law_answers_to_a_request(
    chunks: Seq<DbState>,
    ins: InsertionState,
    region: Option<MmapMut>,
)
    ensures
        ({
            let c = ins.targets[ins.next as int] as int;
            let passed_over = InsertionState {
                words: ins.words,
                payload_id: ins.payload_id,
                targets: ins.targets,
                next: ins.next + 1,
                any_ok: ins.any_ok,
                files: Seq::empty(),
            };
            let taken = InsertionState { any_ok: true, ..passed_over };
            match region {
                None => answered(chunks, ins, region) == (chunks, passed_over),
                Some(m) => {
                    let files = ins.files.push(m);
                    let more = chunks[c].extended(opened_parts(files));
                    let kept = InsertionState {
                        words: ins.words,
                        payload_id: ins.payload_id,
                        targets: ins.targets,
                        next: ins.next,
                        any_ok: ins.any_ok,
                        files,
                    };
                    if !overflows_fit(files, chunks[c].overflow_capacity) {
                        answered(chunks, ins, region) == (chunks, passed_over)
                    } else if more.has_room(ins.words) || more.probe_depth == 0 {
                        answered(chunks, ins, region) == (
                            chunks.update(c, more.stored(ins.words, ins.payload_id)),
                            taken,
                        )
                    } else {
                        answered(chunks, ins, region) == (chunks, kept)
                    }
                },
            }
        }),
{
}

/// A cluster grows by a chunk behind the others and by nothing else, and one slot of
/// one table leads to it.
pub proof fn law_growth_adds_one_chunk(
    st: ClusterState,
    table: int,
    slot: int,
    chunk: DbState,
    t: int,
    s: int,
)
    requires
        0 <= table < st.routes.len(),
        0 <= slot < st.routes[table].len(),
        st.chunks.len() <= usize::MAX,
    ensures
        ({
            let after = st.expanded(table, slot, chunk);
            &&& after.chunks == st.chunks.push(chunk)
            &&& after.config == st.config
            &&& after.texts == st.texts
            &&& after.routes.len() == st.routes.len()
            &&& after.routes[table][slot] == st.chunks.len()
            &&& 0 <= t < st.routes.len() ==> after.routes[t].len() == st.routes[t].len()
            &&& 0 <= t < st.routes.len() && 0 <= s < st.routes[t].len() && (t != table || s
                != slot) ==> after.routes[t][s] == st.routes[t][s]
        }),
{
}

/// Other chunks change nothing else of a cluster.
pub proof fn law_other_chunks_change_only_chunks(st: ClusterState, chunks: Seq<DbState>)
    ensures
        st.with_chunks(chunks).chunks == chunks,
        st.with_chunks(chunks).routes == st.routes,
        st.with_chunks(chunks).config == st.config,
        st.with_chunks(chunks).texts == st.texts,
{
}

/// A result is a hit as it is, with the place that the index has for its id.
pub proof fn law_result_keeps_its_hit(index: Map<u64, u64>, hit: (u64, u32))
    ensures
        text_place(index, hit.0) is Some <==> index.contains_key(hit.0),
        index.contains_key(hit.0) ==> text_place(index, hit.0) == Some(index[hit.0]),
        with_text(index, hit).0 == hit.0,
        with_text(index, hit).1 == hit.1,
        with_text(index, hit).2 is Some <==> index.contains_key(hit.0),
        index.contains_key(hit.0) ==> with_text(index, hit).2 == Some(index[hit.0]),
{
}

/// A flush comes to every file of every chunk, and to no other.
pub proof fn law_flush_comes_to_every_file(cluster: ThrushCluster, c: int, p: int)
    requires
        0 <= c < cluster.chunk_mappings().len(),
        0 <= p < cluster.chunk_mappings()[c].len(),
    ensures
        cluster.mappings() == cluster.chunk_mappings().flatten(),
        exists|i: int|
            0 <= i < cluster.mappings().len() && #[trigger] cluster.mappings()[i]
                == cluster.chunk_mappings()[c][p],
{
    cluster.chunk_mappings().lemma_flatten_and_flatten_alt_are_equivalent();
    lemma_joined_file(cluster.chunk_mappings(), c, p);
}

proof fn lemma_joined_file(lists: Seq<Seq<MmapMut>>, c: int, p: int)
    requires
        0 <= c < lists.len(),
        0 <= p < lists[c].len(),
    ensures
        exists|i: int|
            0 <= i < lists.flatten_alt().len() && #[trigger] lists.flatten_alt()[i] == lists[c][p],
    decreases lists.len(),
{
    let front = lists.drop_last();
    let before = front.flatten_alt();
    if c < front.len() {
        assert(front[c] == lists[c]);
        lemma_joined_file(front, c, p);
        let i = choose|i: int|
            0 <= i < before.len() && #[trigger] before[i] == front[c][p];
        assert(lists.flatten_alt()[i] == before[i]);
    } else {
        assert(lists.flatten_alt()[before.len() + p] == lists[c][p]);
    }
}

/// A deletion of any id leaves an id that is not found one that is not found.
pub proof fn law_delete_keeps_forgotten(st: ClusterState, gone: u64, payload_id: u64)
    requires
        st.lookup(payload_id) is None,
    ensures
        st.with_chunks(each_deleted(st.chunks, gone)).lookup(payload_id) is None,
{
    if gone != payload_id {
        law_delete_keeps_other_lookups(st, gone, payload_id);
    } else {
        lemma_chunk_with_id(st.chunks, payload_id, 0);
        assert forall|c: int| 0 <= c < st.chunks.len() implies #[trigger] each_deleted(
            st.chunks,
            gone,
        )[c] == st.chunks[c] by {
            assert(st.chunks[c].lookup(payload_id) is None);
        }
        assert(each_deleted(st.chunks, gone) =~= st.chunks);
    }
}

/// An insertion under an id that is not found, into chunks that all differ, leaves
/// no chunk with more than one record of the id.
pub proof fn law_insertion_leaves_one_copy(
    st: ClusterState,
    words: Seq<u64>,
    payload_id: u64,
    c: int,
)
    requires
        st.ready(),
        routes_lead_to_chunks(st),
        st.lookup(payload_id) is None,
        st.targets(words).no_duplicates(),
        0 <= c < st.chunks.len(),
    ensures
        copies(placed(st.chunks, st.insertion(words, payload_id)).0[c].parts, payload_id) <= 1,
{
    let ins = st.insertion(words, payload_id);
    lemma_insertion_fits(st, words, payload_id);
    lemma_placed_once(st.chunks, ins, c);
    lemma_chunk_with_id(st.chunks, payload_id, 0);
    assert(st.chunks[c].lookup(payload_id) is None);
    assert(st.chunks[c].can_probe());
    law_lookup_finds_what_is_there(st.chunks[c], payload_id);
    if placed(st.chunks, ins).0[c] != st.chunks[c] {
        law_store_adds_one(st.chunks[c], words, payload_id);
    }
}

/// What holds of every sound cluster: it has as many chunks as it starts with or
/// more, within the limit; each has the sizes of the configuration, as has each of
/// its overflow files; and each slot of its three tables leads to a chunk.
pub proof fn law_sound_cluster_keeps_its_sizes(
    cluster: ThrushCluster,
    c: int,
    p: int,
    t: int,
    s: int,
)
    requires
        cluster.wf(),
    ensures
        ({
            let st = cluster@;
            &&& st.config.start_count() <= st.chunks.len()
            &&& st.config.max_chunks == 0 || st.chunks.len() <= st.config.max_chunks
            &&& 0 <= c < st.chunks.len() ==> {
                &&& st.chunks[c].parts.len() > 0
                &&& st.chunks[c].parts[0].len() == st.config.chunk_capacity
                &&& 0 < p < st.chunks[c].parts.len() ==> st.chunks[c].parts[p].len()
                    == st.config.overflow_capacity
                &&& st.chunks[c].overflow_capacity == st.config.overflow_capacity
                &&& st.chunks[c].probe_depth == st.config.probe_depth
            }
            &&& st.routes.len() == 3
            &&& 0 <= t < 3 ==> st.routes[t].len() == 256
            &&& 0 <= t < 3 && 0 <= s < 256 && st.chunks.len() > 0 ==> st.routes[t][s]
                < st.chunks.len()
            &&& 0 <= t < 3 && 0 <= s < 256 && st.chunks.len() == 0 ==> st.routes[t][s] == 0
        }),
{
    cluster.lemma_wf();
    if 0 <= c < cluster@.chunks.len() {
        let files = cluster.chunk_mappings()[c];
        let chunk = cluster@.chunks[c];
        assert(opened_parts(files) == chunk.parts);
        assert(files_fit(files, chunk.parts[0].len(), chunk.overflow_capacity));
        assert(chunk.parts[0].len() == cluster@.config.chunk_capacity);
        if 0 < p < chunk.parts.len() {
            assert(mapped(files[p]).len() == chunk.parts[p].len() * RECORD_SIZE);
        }
    }
}

} // verus!
