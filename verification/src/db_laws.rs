//! What holds of a chunk across its operations.
use crate::db::{
    all_hits, files_fit, opened_parts, overflows_fit, part_with_id, part_with_room, room,
    total_in_use, total_slots, tried, DbState,
};
use crate::record::{mapped, records, Record};
use crate::segment::{
    can_probe, find, find_from, first_free, hits, holds_id, in_use, law_first_free_slot_is_taken,
    law_first_slot_with_id_is_found, law_probes_in_file, lemma_find_from, probes, with_record,
    without_record,
};
use crate::u1024::{hamming, law_hamming_zero_iff_equal};
use memmap2::MmapMut;
use vstd::prelude::*;

verus! {

/// Whether slot `i` of file `p` exists.
pub open spec fn is_slot(parts: Seq<Seq<Record>>, p: int, i: int) -> bool {
    0 <= p < parts.len() && 0 <= i < parts[p].len()
}

/// How many records in use carry the given id in a file.
pub open spec fn copies_in(slots: Seq<Record>, payload_id: u64) -> nat
    decreases slots.len(),
{
    if slots.len() == 0 {
        0
    } else {
        copies_in(slots.drop_last(), payload_id) + if slots.last().is_active == 1
            && slots.last().payload_id == payload_id {
            1nat
        } else {
            0nat
        }
    }
}

/// How many records in use carry the given id in all files.
pub open spec fn copies(parts: Seq<Seq<Record>>, payload_id: u64) -> nat
    decreases parts.len(),
{
    if parts.len() == 0 {
        0
    } else {
        copies(parts.drop_last(), payload_id) + copies_in(parts.last(), payload_id)
    }
}

/// Whether two chunks hold the same records in use in the same slots. What a
/// free slot last held does not matter.
pub open spec fn same_records(a: Seq<Seq<Record>>, b: Seq<Seq<Record>>) -> bool {
    &&& a.len() == b.len()
    &&& forall|p: int| 0 <= p < a.len() ==> (#[trigger] a[p]).len() == b[p].len()
    &&& forall|p: int, i: int|
        is_slot(a, p, i) && (a[p][i].is_active == 1 || b[p][i].is_active == 1)
            ==> #[trigger] a[p][i] == b[p][i]
}

proof fn lemma_first_free(slots: Seq<Record>, tried: Seq<int>)
    ensures
        match first_free(slots, tried) {
            Some(i) => tried.contains(i) && slots[i].is_active == 0,
            None => forall|k: int|
                0 <= k < tried.len() ==> slots[#[trigger] tried[k]].is_active != 0,
        },
    decreases tried.len(),
{
    if tried.len() > 0 {
        lemma_first_free(slots, tried.drop_last());
        match first_free(slots, tried.drop_last()) {
            Some(i) => {
                let k = choose|k: int|
                    0 <= k < tried.drop_last().len() && tried.drop_last()[k] == i;
                assert(tried[k] == i);
            },
            None => {
                assert(tried[tried.len() - 1] == tried.last());
                assert forall|k: int| 0 <= k < tried.len() - 1 implies slots[#[trigger] tried[
                    k]].is_active != 0 by {
                    assert(tried.drop_last()[k] == tried[k]);
                }
            },
        }
    }
}

/// The slot that has room is a free slot of the file that the vector may lie
/// in.
pub proof fn lemma_room(slots: Seq<Record>, words: Seq<u64>, depth: nat)
    requires
        depth > 0 ==> slots.len() > 0,
    ensures
        room(slots, words, depth) matches Some(i) ==> 0 <= i < slots.len() && slots[i].is_active
            == 0 && probes(words, slots.len(), depth).contains(i),
{
    let places = probes(words, slots.len(), depth);
    lemma_first_free(slots, places);
    if let Some(i) = room(slots, words, depth) {
        let k = choose|k: int| 0 <= k < places.len() && places[k] == i;
        law_probes_in_file(words, slots.len(), depth, k);
    }
}

proof fn lemma_part_with_room(parts: Seq<Seq<Record>>, words: Seq<u64>, depth: nat, from: int)
    requires
        0 <= from,
    ensures
        part_with_room(parts, words, depth, from) matches Some(p) ==> from <= p < parts.len()
            && room(parts[p], words, depth) is Some,
    decreases parts.len() - from,
{
    if from < parts.len() && room(parts[from], words, depth) is None {
        lemma_part_with_room(parts, words, depth, from + 1);
    }
}

pub proof fn lemma_part_with_id(parts: Seq<Seq<Record>>, payload_id: u64, from: int)
    requires
        0 <= from,
    ensures
        match part_with_id(parts, payload_id, from) {
            Some(p) => from <= p < parts.len() && find(parts[p], payload_id) is Some && (forall|
                q: int,
            |
                from <= q < p ==> find(#[trigger] parts[q], payload_id) is None),
            None => forall|q: int|
                from <= q < parts.len() ==> find(#[trigger] parts[q], payload_id) is None,
        },
    decreases parts.len() - from,
{
    if from < parts.len() && find(parts[from], payload_id) is None {
        lemma_part_with_id(parts, payload_id, from + 1);
    }
}

/// Where a record is stored: into a free slot of a file.
pub proof fn lemma_stored(st: DbState, words: Seq<u64>, payload_id: u64) -> (at: (int, int))
    requires
        st.can_probe(),
        st.has_room(words),
    ensures
        is_slot(st.parts, at.0, at.1),
        st.parts[at.0][at.1].is_active == 0,
        probes(words, st.parts[at.0].len(), st.probe_depth).contains(at.1),
        st.stored(words, payload_id) == (DbState {
            parts: st.parts.update(
                at.0,
                with_record(st.parts[at.0], at.1, words, payload_id),
            ),
            ..st
        }),
{
    lemma_part_with_room(st.parts, words, st.probe_depth, 0);
    let p = part_with_room(st.parts, words, st.probe_depth, 0)->0;
    assert(can_probe(st.parts[p].len(), st.probe_depth));
    lemma_room(st.parts[p], words, st.probe_depth);
    (p, room(st.parts[p], words, st.probe_depth)->0)
}

/// Which record a deletion frees: one in use with the id.
pub proof fn lemma_deleted(st: DbState, payload_id: u64) -> (at: (int, int))
    requires
        st.lookup(payload_id) is Some,
    ensures
        is_slot(st.parts, at.0, at.1),
        holds_id(st.parts[at.0], payload_id, at.1),
        st.deleted(payload_id) == (DbState {
            parts: st.parts.update(at.0, without_record(st.parts[at.0], at.1)),
            ..st
        }),
{
    lemma_part_with_id(st.parts, payload_id, 0);
    let p = part_with_id(st.parts, payload_id, 0)->0;
    lemma_find_from(st.parts[p], payload_id, 0);
    (p, find(st.parts[p], payload_id)->0)
}

pub proof fn lemma_hits_contains(slots: Seq<Record>, tried: Seq<int>, query: Seq<u64>, i: int)
    requires
        tried.contains(i),
        slots[i].is_active == 1,
    ensures
        hits(slots, tried, query).contains(
            (slots[i].payload_id, hamming(slots[i].vector, query) as u32),
        ),
    decreases tried.len(),
{
    let h = (slots[i].payload_id, hamming(slots[i].vector, query) as u32);
    let before = hits(slots, tried.drop_last(), query);
    if tried.last() == i {
        assert(hits(slots, tried, query) == before.push(h));
        assert(before.push(h)[before.len() as int] == h);
    } else {
        let k = choose|k: int| 0 <= k < tried.len() && tried[k] == i;
        assert(tried.drop_last()[k] == i);
        lemma_hits_contains(slots, tried.drop_last(), query, i);
        let j = choose|j: int| 0 <= j < before.len() && before[j] == h;
        assert(hits(slots, tried, query)[j] == h);
    }
}

proof fn lemma_hits_live(slots: Seq<Record>, tried: Seq<int>, query: Seq<u64>, k: int)
    requires
        0 <= k < hits(slots, tried, query).len(),
    ensures
        exists|t: int|
            0 <= t < tried.len() && slots[#[trigger] tried[t]].is_active == 1 && hits(
                slots,
                tried,
                query,
            )[k] == (
                slots[tried[t]].payload_id,
                hamming(slots[tried[t]].vector, query) as u32,
            ),
    decreases tried.len(),
{
    let before = hits(slots, tried.drop_last(), query);
    if k < before.len() {
        lemma_hits_live(slots, tried.drop_last(), query, k);
        let t = choose|t: int|
            0 <= t < tried.drop_last().len() && slots[#[trigger] tried.drop_last()[t]].is_active
                == 1 && before[k] == (
                slots[tried.drop_last()[t]].payload_id,
                hamming(slots[tried.drop_last()[t]].vector, query) as u32,
            );
        assert(tried[t] == tried.drop_last()[t]);
    } else {
        assert(tried[tried.len() - 1] == tried.last());
    }
}

pub proof fn lemma_all_hits_contains(
    parts: Seq<Seq<Record>>,
    query: Seq<u64>,
    depth: nat,
    p: int,
    h: (u64, u32),
)
    requires
        0 <= p < parts.len(),
        hits(parts[p], probes(query, parts[p].len(), depth), query).contains(h),
    ensures
        all_hits(parts, query, depth).contains(h),
    decreases parts.len(),
{
    let before = all_hits(parts.drop_last(), query, depth);
    let last = hits(parts.last(), probes(query, parts.last().len(), depth), query);
    if p == parts.len() - 1 {
        let j = choose|j: int| 0 <= j < last.len() && last[j] == h;
        assert((before + last)[before.len() + j] == h);
    } else {
        assert(parts.drop_last()[p] == parts[p]);
        lemma_all_hits_contains(parts.drop_last(), query, depth, p, h);
        let j = choose|j: int| 0 <= j < before.len() && before[j] == h;
        assert((before + last)[j] == h);
    }
}

proof fn lemma_in_use_update(slots: Seq<Record>, i: int, r: Record)
    requires
        0 <= i < slots.len(),
    ensures
        in_use(slots.update(i, r)) + (if slots[i].is_active == 1 {
            1int
        } else {
            0
        }) == in_use(slots) + (if r.is_active == 1 {
            1int
        } else {
            0
        }),
    decreases slots.len(),
{
    let after = slots.update(i, r);
    if i == slots.len() - 1 {
        assert(after.drop_last() =~= slots.drop_last());
    } else {
        lemma_in_use_update(slots.drop_last(), i, r);
        assert(after.drop_last() =~= slots.drop_last().update(i, r));
    }
}

proof fn lemma_in_use_bound(slots: Seq<Record>)
    ensures
        in_use(slots) <= slots.len(),
    decreases slots.len(),
{
    if slots.len() > 0 {
        lemma_in_use_bound(slots.drop_last());
    }
}

proof fn lemma_total_in_use_update(parts: Seq<Seq<Record>>, p: int, slots: Seq<Record>)
    requires
        0 <= p < parts.len(),
    ensures
        total_in_use(parts.update(p, slots)) + in_use(parts[p]) == total_in_use(parts) + in_use(
            slots,
        ),
    decreases parts.len(),
{
    let after = parts.update(p, slots);
    if p == parts.len() - 1 {
        assert(after.drop_last() =~= parts.drop_last());
    } else {
        lemma_total_in_use_update(parts.drop_last(), p, slots);
        assert(after.drop_last() =~= parts.drop_last().update(p, slots));
    }
}

proof fn lemma_total_slots_update(parts: Seq<Seq<Record>>, p: int, slots: Seq<Record>)
    requires
        0 <= p < parts.len(),
        slots.len() == parts[p].len(),
    ensures
        total_slots(parts.update(p, slots)) == total_slots(parts),
    decreases parts.len(),
{
    let after = parts.update(p, slots);
    if p == parts.len() - 1 {
        assert(after.drop_last() =~= parts.drop_last());
    } else {
        lemma_total_slots_update(parts.drop_last(), p, slots);
        assert(after.drop_last() =~= parts.drop_last().update(p, slots));
    }
}

proof fn lemma_copies_in_update(slots: Seq<Record>, i: int, r: Record, payload_id: u64)
    requires
        0 <= i < slots.len(),
    ensures
        copies_in(slots.update(i, r), payload_id) + (if holds_id(slots, payload_id, i) {
            1int
        } else {
            0
        }) == copies_in(slots, payload_id) + (if r.is_active == 1 && r.payload_id == payload_id {
            1int
        } else {
            0
        }),
    decreases slots.len(),
{
    let after = slots.update(i, r);
    if i == slots.len() - 1 {
        assert(after.drop_last() =~= slots.drop_last());
    } else {
        lemma_copies_in_update(slots.drop_last(), i, r, payload_id);
        assert(after.drop_last() =~= slots.drop_last().update(i, r));
    }
}

proof fn lemma_copies_update(parts: Seq<Seq<Record>>, p: int, slots: Seq<Record>, payload_id: u64)
    requires
        0 <= p < parts.len(),
    ensures
        copies(parts.update(p, slots), payload_id) + copies_in(parts[p], payload_id) == copies(
            parts,
            payload_id,
        ) + copies_in(slots, payload_id),
    decreases parts.len(),
{
    let after = parts.update(p, slots);
    if p == parts.len() - 1 {
        assert(after.drop_last() =~= parts.drop_last());
    } else {
        lemma_copies_update(parts.drop_last(), p, slots, payload_id);
        assert(after.drop_last() =~= parts.drop_last().update(p, slots));
    }
}

proof fn lemma_copies_in_zero(slots: Seq<Record>, payload_id: u64)
    ensures
        copies_in(slots, payload_id) == 0 <==> find(slots, payload_id) is None,
    decreases slots.len(),
{
    lemma_find_from(slots, payload_id, 0);
    if slots.len() > 0 {
        let front = slots.drop_last();
        lemma_copies_in_zero(front, payload_id);
        lemma_find_from(front, payload_id, 0);
        assert forall|j: int| 0 <= j < front.len() implies holds_id(front, payload_id, j)
            == holds_id(slots, payload_id, j) by {}
        let last = slots.len() - 1;
        if find(slots, payload_id) is None {
            assert(!holds_id(slots, payload_id, last));
            if let Some(i) = find(front, payload_id) {
                assert(holds_id(slots, payload_id, i));
            }
        }
        if let Some(i) = find(slots, payload_id) {
            if i < last {
                assert(holds_id(front, payload_id, i));
            }
        }
    }
}

/// A lookup finds a record exactly where one in use carries the id.
pub proof fn law_lookup_finds_what_is_there(st: DbState, payload_id: u64)
    ensures
        st.lookup(payload_id) is None <==> copies(st.parts, payload_id) == 0,
{
    lemma_part_with_id(st.parts, payload_id, 0);
    lemma_copies_zero(st.parts, payload_id);
}

proof fn lemma_copies_zero(parts: Seq<Seq<Record>>, payload_id: u64)
    ensures
        copies(parts, payload_id) == 0 <==> (forall|q: int|
            0 <= q < parts.len() ==> find(#[trigger] parts[q], payload_id) is None),
    decreases parts.len(),
{
    if parts.len() > 0 {
        let front = parts.drop_last();
        lemma_copies_zero(front, payload_id);
        lemma_copies_in_zero(parts.last(), payload_id);
        assert(parts[parts.len() - 1] == parts.last());
        if copies(parts, payload_id) == 0 {
            assert forall|q: int| 0 <= q < parts.len() implies find(
                #[trigger] parts[q],
                payload_id,
            ) is None by {
                if q < parts.len() - 1 {
                    assert(front[q] == parts[q]);
                }
            }
        } else if forall|q: int|
            0 <= q < parts.len() ==> find(#[trigger] parts[q], payload_id) is None {
            assert forall|q: int| 0 <= q < front.len() implies find(
                #[trigger] front[q],
                payload_id,
            ) is None by {
                assert(front[q] == parts[q]);
            }
        }
    }
}

/// A search for a vector that was stored finds it, at distance zero.
pub proof fn law_search_finds_what_was_stored(st: DbState, words: Seq<u64>, payload_id: u64)
    requires
        st.can_probe(),
        st.has_room(words),
    ensures
        all_hits(st.stored(words, payload_id).parts, words, st.probe_depth).contains(
            (payload_id, 0u32),
        ),
{
    let (p, i) = lemma_stored(st, words, payload_id);
    let parts = st.stored(words, payload_id).parts;
    law_hamming_zero_iff_equal(words, words);
    lemma_hits_contains(
        parts[p],
        probes(words, parts[p].len(), st.probe_depth),
        words,
        i,
    );
    lemma_all_hits_contains(parts, words, st.probe_depth, p, (payload_id, 0u32));
}

/// A file in which every slot is free has room for every vector.
pub proof fn law_empty_file_has_room(slots: Seq<Record>, words: Seq<u64>, depth: nat)
    requires
        depth > 0,
        slots.len() > 0,
        forall|i: int| 0 <= i < slots.len() ==> (#[trigger] slots[i]).is_active == 0,
    ensures
        room(slots, words, depth) is Some,
{
    let places = probes(words, slots.len(), depth);
    crate::segment::lemma_probes_len(words, slots.len(), depth);
    assert(places.len() > 0) by (nonlinear_arith)
        requires
            places.len() == 8 * depth,
            depth > 0,
    ;
    law_probes_in_file(words, slots.len(), depth, 0);
    lemma_first_free(slots, places);
    assert(slots[places[0]].is_active == 0);
}

/// Every search result is a record in use, with its distance to the query.
pub proof fn law_search_finds_only_what_is_there(
    parts: Seq<Seq<Record>>,
    query: Seq<u64>,
    depth: nat,
    k: int,
)
    requires
        forall|p: int|
            0 <= p < parts.len() ==> can_probe(
                (#[trigger] parts[p]).len(),
                depth,
            ),
        0 <= k < all_hits(parts, query, depth).len(),
    ensures
        exists|p: int, i: int|
            is_slot(parts, p, i) && (#[trigger] parts[p][i]).is_active == 1 && all_hits(
                parts,
                query,
                depth,
            )[k] == (parts[p][i].payload_id, hamming(parts[p][i].vector, query) as u32),
    decreases parts.len(),
{
    let front = parts.drop_last();
    let before = all_hits(front, query, depth);
    if k < before.len() {
        assert forall|p: int| 0 <= p < front.len() implies can_probe(
            (#[trigger] front[p]).len(),
            depth,
        ) by {
            assert(front[p] == parts[p]);
        }
        law_search_finds_only_what_is_there(front, query, depth, k);
        let (p, i) = choose|p: int, i: int|
            is_slot(front, p, i) && (#[trigger] front[p][i]).is_active == 1 && before[k] == (
                front[p][i].payload_id,
                hamming(front[p][i].vector, query) as u32,
            );
        assert(parts[p][i] == front[p][i]);
        assert(is_slot(parts, p, i));
    } else {
        let p = parts.len() - 1;
        let places = probes(query, parts[p].len(), depth);
        let j = k - before.len();
        assert(can_probe(parts[p].len(), depth));
        lemma_hits_live(parts[p], places, query, j);
        let t = choose|t: int|
            0 <= t < places.len() && parts[p][#[trigger] places[t]].is_active == 1 && hits(
                parts[p],
                places,
                query,
            )[j] == (
                parts[p][places[t]].payload_id,
                hamming(parts[p][places[t]].vector, query) as u32,
            );
        law_probes_in_file(query, parts[p].len(), depth, t);
        assert(is_slot(parts, p, places[t]));
    }
}

/// Storing a record adds one record in use, one copy of its id, and no slot.
pub proof fn law_store_adds_one(st: DbState, words: Seq<u64>, payload_id: u64)
    requires
        st.can_probe(),
        st.has_room(words),
    ensures
        total_in_use(st.stored(words, payload_id).parts) == total_in_use(st.parts) + 1,
        total_slots(st.stored(words, payload_id).parts) == total_slots(st.parts),
        forall|id: u64| #[trigger]
            copies(st.stored(words, payload_id).parts, id) == copies(st.parts, id) + (if id
                == payload_id {
                1int
            } else {
                0
            }),
{
    let (p, i) = lemma_stored(st, words, payload_id);
    let r = Record { vector: words, payload_id, is_active: 1, ..st.parts[p][i] };
    let slots = st.parts[p].update(i, r);
    lemma_in_use_update(st.parts[p], i, r);
    lemma_total_in_use_update(st.parts, p, slots);
    lemma_total_slots_update(st.parts, p, slots);
    assert forall|id: u64| #[trigger]
        copies(st.stored(words, payload_id).parts, id) == copies(st.parts, id) + (if id
            == payload_id {
            1int
        } else {
            0
        }) by {
        lemma_copies_in_update(st.parts[p], i, r, id);
        lemma_copies_update(st.parts, p, slots, id);
    }
}

/// Storing a record leaves every record in use as it is, where it is.
pub proof fn law_store_keeps_records(
    st: DbState,
    words: Seq<u64>,
    payload_id: u64,
    p: int,
    i: int,
)
    requires
        st.can_probe(),
        is_slot(st.parts, p, i),
        st.parts[p][i].is_active != 0,
    ensures
        st.stored(words, payload_id).parts[p][i] == st.parts[p][i],
{
    if st.has_room(words) {
        let at = lemma_stored(st, words, payload_id);
    }
}

/// More overflow files add their slots and records and leave the other files as
/// they are.
pub proof fn law_overflow_adds_files(st: DbState, files: Seq<Seq<Record>>)
    ensures
        ({
            let after = st.extended(files);
            &&& after.parts.take(st.parts.len() as int) == st.parts
            &&& total_slots(after.parts) == total_slots(st.parts) + total_slots(files)
            &&& total_in_use(after.parts) == total_in_use(st.parts) + total_in_use(files)
        }),
    decreases files.len(),
{
    let after = st.extended(files);
    assert(after.parts.take(st.parts.len() as int) =~= st.parts);
    if files.len() == 0 {
        assert(after.parts =~= st.parts);
    } else {
        let front = files.drop_last();
        law_overflow_adds_files(st, front);
        assert(after.parts.drop_last() =~= st.extended(front).parts);
    }
}

/// A chunk that gets a file with room has room.
pub proof fn law_file_with_room_gives_room(st: DbState, files: Seq<Seq<Record>>, words: Seq<u64>)
    requires
        files.len() > 0,
        room(files.last(), words, st.probe_depth) is Some,
    ensures
        st.extended(files).has_room(words),
{
    let parts = st.extended(files).parts;
    assert(parts[parts.len() - 1] == files.last());
    lemma_room_somewhere(parts, words, st.probe_depth, 0, parts.len() - 1);
}

proof fn lemma_room_somewhere(
    parts: Seq<Seq<Record>>,
    words: Seq<u64>,
    depth: nat,
    from: int,
    p: int,
)
    requires
        0 <= from <= p < parts.len(),
        room(parts[p], words, depth) is Some,
    ensures
        part_with_room(parts, words, depth, from) is Some,
    decreases p - from,
{
    if from < p {
        lemma_room_somewhere(parts, words, depth, from + 1, p);
    }
}

/// What was stored under a new id is what a lookup of the id gives back.
pub proof fn law_lookup_gives_what_was_stored(st: DbState, words: Seq<u64>, payload_id: u64)
    requires
        st.can_probe(),
        st.has_room(words),
        st.lookup(payload_id) is None,
    ensures
        st.stored(words, payload_id).lookup(payload_id) == Some(words),
{
    let (p, i) = lemma_stored(st, words, payload_id);
    let after = st.stored(words, payload_id);
    lemma_part_with_id(st.parts, payload_id, 0);
    assert forall|q: int, j: int| is_slot(after.parts, q, j) implies #[trigger] holds_id(
        after.parts[q],
        payload_id,
        j,
    ) == (q == p && j == i) by {
        lemma_find_from(st.parts[q], payload_id, 0);
        assert(find(st.parts[q], payload_id) is None);
        assert(!holds_id(st.parts[q], payload_id, j));
    }
    lemma_only_copy(after, payload_id, p, i);
}

proof fn lemma_only_copy(st: DbState, payload_id: u64, p: int, i: int)
    requires
        is_slot(st.parts, p, i),
        forall|q: int, j: int|
            is_slot(st.parts, q, j) ==> #[trigger] holds_id(st.parts[q], payload_id, j) == (q == p
                && j == i),
    ensures
        st.lookup(payload_id) == Some(st.parts[p][i].vector),
{
    lemma_part_with_id(st.parts, payload_id, 0);
    lemma_find_from(st.parts[p], payload_id, 0);
    assert(holds_id(st.parts[p], payload_id, i));
    assert(find(st.parts[p], payload_id) is Some);
    let q = part_with_id(st.parts, payload_id, 0)->0;
    lemma_find_from(st.parts[q], payload_id, 0);
    let j = find(st.parts[q], payload_id)->0;
    assert(is_slot(st.parts, q, j));
    assert(holds_id(st.parts[q], payload_id, j));
}

/// A deletion takes one record out of use and one copy of its id away, and
/// keeps every slot. An id with a single copy is gone afterwards.
pub proof fn law_delete_takes_one(st: DbState, payload_id: u64)
    requires
        st.lookup(payload_id) is Some,
    ensures
        total_in_use(st.deleted(payload_id).parts) == total_in_use(st.parts) - 1,
        total_slots(st.deleted(payload_id).parts) == total_slots(st.parts),
        forall|id: u64| #[trigger]
            copies(st.deleted(payload_id).parts, id) == copies(st.parts, id) - (if id
                == payload_id {
                1int
            } else {
                0
            }),
        copies(st.parts, payload_id) == 1 ==> st.deleted(payload_id).lookup(payload_id) is None,
{
    let (p, i) = lemma_deleted(st, payload_id);
    let r = Record { is_active: 0, ..st.parts[p][i] };
    let slots = st.parts[p].update(i, r);
    lemma_in_use_update(st.parts[p], i, r);
    lemma_total_in_use_update(st.parts, p, slots);
    lemma_total_slots_update(st.parts, p, slots);
    assert forall|id: u64| #[trigger]
        copies(st.deleted(payload_id).parts, id) == copies(st.parts, id) - (if id
            == payload_id {
            1int
        } else {
            0
        }) by {
        lemma_copies_in_update(st.parts[p], i, r, id);
        lemma_copies_update(st.parts, p, slots, id);
    }
    law_lookup_finds_what_is_there(st.deleted(payload_id), payload_id);
}

/// A deletion leaves every record with another id as it is, where it is.
pub proof fn law_delete_keeps_other_records(st: DbState, payload_id: u64, p: int, i: int)
    requires
        is_slot(st.parts, p, i),
        st.parts[p][i].payload_id != payload_id,
    ensures
        st.deleted(payload_id).parts[p][i] == st.parts[p][i],
{
    if st.lookup(payload_id) is Some {
        let at = lemma_deleted(st, payload_id);
    }
}

/// Deleting what was just stored under a new id leaves the records in use as
/// they were before.
pub proof fn law_delete_undoes_store(st: DbState, words: Seq<u64>, payload_id: u64)
    requires
        st.can_probe(),
        st.has_room(words),
        st.lookup(payload_id) is None,
    ensures
        same_records(st.stored(words, payload_id).deleted(payload_id).parts, st.parts),
{
    let (p, i) = lemma_stored(st, words, payload_id);
    let mid = st.stored(words, payload_id);
    law_lookup_gives_what_was_stored(st, words, payload_id);
    let (q, j) = lemma_deleted(mid, payload_id);
    lemma_part_with_id(st.parts, payload_id, 0);
    lemma_find_from(st.parts[q], payload_id, 0);
    assert(find(st.parts[q], payload_id) is None);
    assert(!holds_id(st.parts[q], payload_id, j));
    assert(q == p && j == i);
}

/// Chunks that hold the same records give the same answers.
pub proof fn law_same_records_same_answers(
    a: DbState,
    b: DbState,
    payload_id: u64,
    query: Seq<u64>,
)
    requires
        same_records(a.parts, b.parts),
        a.probe_depth == b.probe_depth,
        a.can_probe(),
    ensures
        a.lookup(payload_id) == b.lookup(payload_id),
        all_hits(a.parts, query, a.probe_depth) == all_hits(b.parts, query, b.probe_depth),
        total_in_use(a.parts) == total_in_use(b.parts),
{
    assert forall|p: int| 0 <= p < a.parts.len() implies find(
        #[trigger] a.parts[p],
        payload_id,
    ) == find(b.parts[p], payload_id) by {
        assert(a.parts[p].len() == b.parts[p].len());
        lemma_find_same(a.parts, b.parts, payload_id, p, 0);
    }
    lemma_part_with_id_same(a.parts, b.parts, payload_id, 0);
    lemma_part_with_id(a.parts, payload_id, 0);
    if let Some(p) = part_with_id(a.parts, payload_id, 0) {
        lemma_find_from(a.parts[p], payload_id, 0);
        let i = find(a.parts[p], payload_id)->0;
        assert(is_slot(a.parts, p, i));
        assert(a.parts[p][i] == b.parts[p][i]);
    }
    lemma_sums_same(a.parts, b.parts, query, a.probe_depth);
}

proof fn lemma_find_same(
    a: Seq<Seq<Record>>,
    b: Seq<Seq<Record>>,
    payload_id: u64,
    p: int,
    from: int,
)
    requires
        same_records(a, b),
        0 <= p < a.len(),
        0 <= from,
        a[p].len() == b[p].len(),
    ensures
        find_from(a[p], payload_id, from) == find_from(b[p], payload_id, from),
    decreases a[p].len() - from,
{
    if from < a[p].len() {
        assert(is_slot(a, p, from));
        assert(a[p][from].is_active == 1 || b[p][from].is_active == 1 ==> a[p][from]
            == b[p][from]);
        lemma_find_same(a, b, payload_id, p, from + 1);
    }
}

proof fn lemma_part_with_id_same(
    a: Seq<Seq<Record>>,
    b: Seq<Seq<Record>>,
    payload_id: u64,
    from: int,
)
    requires
        a.len() == b.len(),
        0 <= from,
        forall|p: int|
            0 <= p < a.len() ==> find(#[trigger] a[p], payload_id) == find(b[p], payload_id),
    ensures
        part_with_id(a, payload_id, from) == part_with_id(b, payload_id, from),
    decreases a.len() - from,
{
    if from < a.len() {
        assert(find(a[from], payload_id) == find(b[from], payload_id));
        lemma_part_with_id_same(a, b, payload_id, from + 1);
    }
}

proof fn lemma_hits_same(a: Seq<Record>, b: Seq<Record>, tried: Seq<int>, query: Seq<u64>)
    requires
        a.len() == b.len(),
        forall|k: int| 0 <= k < tried.len() ==> 0 <= #[trigger] tried[k] < a.len(),
        forall|i: int|
            0 <= i < a.len() && (a[i].is_active == 1 || b[i].is_active == 1) ==> #[trigger] a[i]
                == b[i],
    ensures
        hits(a, tried, query) == hits(b, tried, query),
    decreases tried.len(),
{
    if tried.len() > 0 {
        let front = tried.drop_last();
        assert forall|k: int| 0 <= k < front.len() implies 0 <= #[trigger] front[k] < a.len() by {
            assert(front[k] == tried[k]);
        }
        lemma_hits_same(a, b, front, query);
        let i = tried[tried.len() - 1];
        assert(a[i].is_active == 1 || b[i].is_active == 1 ==> a[i] == b[i]);
    }
}

proof fn lemma_in_use_same(a: Seq<Record>, b: Seq<Record>)
    requires
        a.len() == b.len(),
        forall|i: int|
            0 <= i < a.len() && (a[i].is_active == 1 || b[i].is_active == 1) ==> #[trigger] a[i]
                == b[i],
    ensures
        in_use(a) == in_use(b),
    decreases a.len(),
{
    if a.len() > 0 {
        let i = a.len() - 1;
        assert(a[i].is_active == 1 || b[i].is_active == 1 ==> a[i] == b[i]);
        assert forall|j: int|
            0 <= j < a.drop_last().len() && (a.drop_last()[j].is_active == 1
                || b.drop_last()[j].is_active == 1) implies #[trigger] a.drop_last()[j]
            == b.drop_last()[j] by {
            assert(a[j] == b[j]);
        }
        lemma_in_use_same(a.drop_last(), b.drop_last());
    }
}

proof fn lemma_sums_same(a: Seq<Seq<Record>>, b: Seq<Seq<Record>>, query: Seq<u64>, depth: nat)
    requires
        same_records(a, b),
        forall|p: int|
            0 <= p < a.len() ==> can_probe((#[trigger] a[p]).len(), depth),
    ensures
        all_hits(a, query, depth) == all_hits(b, query, depth),
        total_in_use(a) == total_in_use(b),
    decreases a.len(),
{
    if a.len() > 0 {
        let p = a.len() - 1;
        let fa = a.drop_last();
        let fb = b.drop_last();
        assert(a[p].len() == b[p].len());
        assert forall|q: int| 0 <= q < fa.len() implies (#[trigger] fa[q]).len() == fb[q].len() by {
            assert(a[q].len() == b[q].len());
        }
        assert forall|q: int, i: int|
            is_slot(fa, q, i) && (fa[q][i].is_active == 1 || fb[q][i].is_active == 1) implies
            #[trigger] fa[q][i] == fb[q][i] by {
            assert(is_slot(a, q, i));
            assert(a[q][i] == b[q][i]);
        }
        assert forall|q: int| 0 <= q < fa.len() implies can_probe(
            (#[trigger] fa[q]).len(),
            depth,
        ) by {
            assert(fa[q] == a[q]);
        }
        lemma_sums_same(fa, fb, query, depth);
        assert(can_probe(a[p].len(), depth));
        let places = probes(query, a[p].len(), depth);
        assert forall|k: int| 0 <= k < places.len() implies 0 <= #[trigger] places[k]
            < a[p].len() by {
            law_probes_in_file(query, a[p].len(), depth, k);
        }
        assert forall|i: int|
            0 <= i < a[p].len() && (a[p][i].is_active == 1 || b[p][i].is_active
                == 1) implies #[trigger] a[p][i] == b[p][i] by {
            assert(is_slot(a, p, i));
        }
        lemma_hits_same(a[p], b[p], places, query);
        lemma_in_use_same(a[p], b[p]);
    }
}

/// There are never more records in use than slots.
pub proof fn law_len_at_most_capacity(parts: Seq<Seq<Record>>)
    ensures
        total_in_use(parts) <= total_slots(parts),
    decreases parts.len(),
{
    if parts.len() > 0 {
        law_len_at_most_capacity(parts.drop_last());
        lemma_in_use_bound(parts.last());
    }
}

/// Storing and deleting keep a chunk one that can be probed.
pub proof fn lemma_can_probe_kept(st: DbState, words: Seq<u64>, payload_id: u64)
    requires
        st.can_probe(),
    ensures
        st.stored(words, payload_id).can_probe(),
        st.deleted(payload_id).can_probe(),
{
    if st.has_room(words) {
        let (p, i) = lemma_stored(st, words, payload_id);
        let after = st.stored(words, payload_id);
        assert forall|q: int| 0 <= q < after.parts.len() implies can_probe(
            (#[trigger] after.parts[q]).len(),
            after.probe_depth,
        ) by {
            assert(can_probe(st.parts[q].len(), st.probe_depth));
        }
    }
    if st.lookup(payload_id) is Some {
        let (p, i) = lemma_deleted(st, payload_id);
        let after = st.deleted(payload_id);
        assert forall|q: int| 0 <= q < after.parts.len() implies can_probe(
            (#[trigger] after.parts[q]).len(),
            after.probe_depth,
        ) by {
            assert(can_probe(st.parts[q].len(), st.probe_depth));
        }
    }
}

/// More overflow files that can be probed keep the chunk one that can be.
pub proof fn lemma_can_probe_extended(st: DbState, files: Seq<Seq<Record>>)
    requires
        st.can_probe(),
        forall|i: int|
            0 <= i < files.len() ==> can_probe((#[trigger] files[i]).len(), st.probe_depth),
    ensures
        st.extended(files).can_probe(),
{
    let after = st.extended(files);
    assert forall|q: int| 0 <= q < after.parts.len() implies can_probe(
        (#[trigger] after.parts[q]).len(),
        after.probe_depth,
    ) by {
        if q < st.parts.len() {
            assert(can_probe(st.parts[q].len(), st.probe_depth));
        } else {
            assert(after.parts[q] == files[q - st.parts.len()]);
        }
    }
}

/// A file has as many slots as it is long, and files together have the slots of
/// each; the records in use are counted in the same way.
pub proof fn law_files_are_summed(a: Seq<Seq<Record>>, b: Seq<Seq<Record>>, slots: Seq<Record>)
    ensures
        total_slots(seq![slots]) == slots.len(),
        total_slots(a + b) == total_slots(a) + total_slots(b),
        total_slots(Seq::empty()) == 0,
        total_in_use(seq![slots]) == in_use(slots),
        total_in_use(a + b) == total_in_use(a) + total_in_use(b),
        total_in_use(Seq::empty()) == 0,
    decreases b.len(),
{
    assert(seq![slots].drop_last() =~= Seq::<Seq<Record>>::empty());
    assert(total_slots(Seq::<Seq<Record>>::empty()) == 0);
    assert(total_in_use(Seq::<Seq<Record>>::empty()) == 0);
    if b.len() == 0 {
        assert(a + b =~= a);
    } else {
        assert((a + b).drop_last() =~= a + b.drop_last());
        law_files_are_summed(a, b.drop_last(), slots);
    }
}

/// A chunk with a file of `capacity` slots and overflow files of
/// `overflow_capacity` slots each has the slots of its file and those of each
/// overflow file.
pub proof fn law_capacity_of_a_chunk(
    parts: Seq<Seq<Record>>,
    capacity: nat,
    overflow_capacity: nat,
)
    requires
        parts.len() >= 1,
        parts[0].len() == capacity,
        forall|i: int| 1 <= i < parts.len() ==> (#[trigger] parts[i]).len() == overflow_capacity,
    ensures
        total_slots(parts) == capacity + (parts.len() - 1) * overflow_capacity,
    decreases parts.len(),
{
    let n = parts.len() as int;
    let front = parts.drop_last();
    if n == 1 {
        assert(front =~= Seq::<Seq<Record>>::empty());
        assert(total_slots(front) == 0);
        assert((n - 1) * overflow_capacity == 0) by (nonlinear_arith)
            requires
                n == 1,
        ;
    } else {
        law_capacity_of_a_chunk(front, capacity, overflow_capacity);
        assert(parts[n - 1].len() == overflow_capacity);
        assert((n - 1) * overflow_capacity == (n - 2) * overflow_capacity + overflow_capacity)
            by (nonlinear_arith);
    }
}

/// The copies of an id are counted record by record: each that is in use and
/// carries the id counts once.
pub proof fn law_copies_are_counted(
    a: Seq<Record>,
    b: Seq<Record>,
    r: Record,
    payload_id: u64,
)
    ensures
        copies_in(a + b, payload_id) == copies_in(a, payload_id) + copies_in(b, payload_id),
        copies_in(seq![r], payload_id) == if r.is_active == 1 && r.payload_id == payload_id {
            1nat
        } else {
            0
        },
    decreases b.len(),
{
    assert(seq![r].drop_last() =~= Seq::<Record>::empty());
    assert(copies_in(Seq::<Record>::empty(), payload_id) == 0);
    if b.len() == 0 {
        assert(a + b =~= a);
    } else {
        assert((a + b).drop_last() =~= a + b.drop_last());
        law_copies_are_counted(a, b.drop_last(), r, payload_id);
    }
}

/// The copies of an id in some files are those in each of them.
pub proof fn law_copies_are_summed(
    a: Seq<Seq<Record>>,
    b: Seq<Seq<Record>>,
    slots: Seq<Record>,
    payload_id: u64,
)
    ensures
        copies(a + b, payload_id) == copies(a, payload_id) + copies(b, payload_id),
        copies(seq![slots], payload_id) == copies_in(slots, payload_id),
    decreases b.len(),
{
    assert(seq![slots].drop_last() =~= Seq::<Seq<Record>>::empty());
    assert(copies(Seq::<Seq<Record>>::empty(), payload_id) == 0);
    if b.len() == 0 {
        assert(a + b =~= a);
    } else {
        assert((a + b).drop_last() =~= a + b.drop_last());
        law_copies_are_summed(a, b.drop_last(), slots, payload_id);
    }
}

/// A lookup gives the vector of the first record that is in use and carries the
/// id, in the order of the files and of their slots, and nothing exactly where there
/// is no such record.
pub proof fn law_lookup_is_the_first_record(st: DbState, payload_id: u64) -> (at: (int, int))
    ensures
        match st.lookup(payload_id) {
            Some(words) => {
                let (p, i) = at;
                &&& 0 <= p < st.parts.len() && 0 <= i < st.parts[p].len()
                &&& st.parts[p][i].is_active == 1 && st.parts[p][i].payload_id == payload_id
                &&& words == st.parts[p][i].vector
                &&& forall|q: int, j: int|
                    #![trigger st.parts[q][j]]
                    0 <= q < st.parts.len() && 0 <= j < st.parts[q].len() && (q < p || q == p && j
                        < i) ==> !(st.parts[q][j].is_active == 1 && st.parts[q][j].payload_id
                        == payload_id)
            },
            None => forall|q: int, j: int|
                #![trigger st.parts[q][j]]
                0 <= q < st.parts.len() && 0 <= j < st.parts[q].len() ==> !(
                st.parts[q][j].is_active == 1 && st.parts[q][j].payload_id == payload_id),
        },
        st.deleted(payload_id).parts.len() == st.parts.len(),
        st.deleted(payload_id).overflow_capacity == st.overflow_capacity,
        st.deleted(payload_id).probe_depth == st.probe_depth,
        st.lookup(payload_id) is None ==> st.deleted(payload_id) == st,
        st.lookup(payload_id) is Some ==> {
            let (p, i) = at;
            let freed = st.deleted(payload_id).parts[p];
            &&& freed.len() == st.parts[p].len()
            &&& freed[i].is_active == 0 && freed[i].vector == st.parts[p][i].vector
            &&& freed[i].payload_id == payload_id && freed[i].pad == st.parts[p][i].pad
            &&& forall|j: int|
                0 <= j < freed.len() && j != i ==> #[trigger] freed[j] == st.parts[p][j]
            &&& forall|q: int|
                0 <= q < st.parts.len() && q != p ==> #[trigger] st.deleted(payload_id).parts[q]
                    == st.parts[q]
        },
{
    lemma_part_with_id(st.parts, payload_id, 0);
    match part_with_id(st.parts, payload_id, 0) {
        Some(p) => {
            law_first_slot_with_id_is_found(st.parts[p], payload_id);
            let i = find(st.parts[p], payload_id)->0;
            assert forall|q: int, j: int|
                #![trigger st.parts[q][j]]
                0 <= q < st.parts.len() && 0 <= j < st.parts[q].len() && (q < p || q == p && j
                    < i) implies !(st.parts[q][j].is_active == 1 && st.parts[q][j].payload_id
                == payload_id) by {
                law_first_slot_with_id_is_found(st.parts[q], payload_id);
            }
            (p, i)
        },
        None => {
            assert forall|q: int, j: int|
                #![trigger st.parts[q][j]]
                0 <= q < st.parts.len() && 0 <= j < st.parts[q].len() implies !(
            st.parts[q][j].is_active == 1 && st.parts[q][j].payload_id == payload_id) by {
                law_first_slot_with_id_is_found(st.parts[q], payload_id);
            }
            (0, 0)
        },
    }
}

/// A record goes into the first slot that is free among those that its vector may
/// lie in, in the order of the files and of the slots tried in each. Nothing else
/// changes, and nothing changes at all exactly where none of those slots is free.
pub proof fn law_record_goes_to_the_first_free_slot(
    st: DbState,
    words: Seq<u64>,
    payload_id: u64,
) -> (at: (int, int))
    requires
        st.can_probe(),
    ensures
        st.stored(words, payload_id).parts.len() == st.parts.len(),
        st.stored(words, payload_id).overflow_capacity == st.overflow_capacity,
        st.stored(words, payload_id).probe_depth == st.probe_depth,
        st.has_room(words) ==> {
            let (p, k) = at;
            let i = probes(words, st.parts[p].len(), st.probe_depth)[k];
            let after = st.stored(words, payload_id).parts;
            &&& 0 <= p < st.parts.len() && 0 <= k < probes(
                words,
                st.parts[p].len(),
                st.probe_depth,
            ).len()
            &&& 0 <= i < st.parts[p].len() && st.parts[p][i].is_active == 0
            &&& forall|q: int, l: int|
                #![trigger probes(words, st.parts[q].len(), st.probe_depth)[l]]
                0 <= q < st.parts.len() && 0 <= l < probes(
                    words,
                    st.parts[q].len(),
                    st.probe_depth,
                ).len() && (q < p || q == p && l < k) ==> st.parts[q][probes(
                    words,
                    st.parts[q].len(),
                    st.probe_depth,
                )[l]].is_active != 0
            &&& after[p].len() == st.parts[p].len()
            &&& after[p][i].vector == words && after[p][i].payload_id == payload_id
            &&& after[p][i].is_active == 1 && after[p][i].pad == st.parts[p][i].pad
            &&& forall|j: int|
                0 <= j < after[p].len() && j != i ==> #[trigger] after[p][j] == st.parts[p][j]
            &&& forall|q: int|
                0 <= q < after.len() && q != p ==> #[trigger] after[q] == st.parts[q]
        },
        !st.has_room(words) ==> {
            &&& st.stored(words, payload_id) == st
            &&& forall|q: int, l: int|
                #![trigger probes(words, st.parts[q].len(), st.probe_depth)[l]]
                0 <= q < st.parts.len() && 0 <= l < probes(
                    words,
                    st.parts[q].len(),
                    st.probe_depth,
                ).len() ==> st.parts[q][probes(
                    words,
                    st.parts[q].len(),
                    st.probe_depth,
                )[l]].is_active != 0
        },
{
    let depth = st.probe_depth;
    lemma_first_part_with_room(st.parts, words, depth, 0);
    let n = if st.has_room(words) {
        part_with_room(st.parts, words, depth, 0)->0
    } else {
        st.parts.len() as int
    };
    assert forall|q: int, l: int|
        #![trigger probes(words, st.parts[q].len(), depth)[l]]
        0 <= q < n && 0 <= l < probes(
            words,
            st.parts[q].len(),
            depth,
        ).len() implies st.parts[q][probes(words, st.parts[q].len(), depth)[l]].is_active != 0 by {
        assert(room(st.parts[q], words, depth) is None);
        law_first_free_slot_is_taken(st.parts[q], probes(words, st.parts[q].len(), depth));
    }
    if st.has_room(words) {
        let slots = st.parts[n];
        let places = probes(words, slots.len(), depth);
        assert(can_probe(slots.len(), depth));
        law_first_free_slot_is_taken(slots, places);
        let i = room(slots, words, depth)->0;
        let k = choose|k: int|
            #![trigger places[k]]
            0 <= k < places.len() && places[k] == i && slots[i].is_active == 0 && forall|j: int|
                0 <= j < k ==> slots[#[trigger] places[j]].is_active != 0;
        law_probes_in_file(words, slots.len(), depth, k);
        (n, k)
    } else {
        (0, 0)
    }
}

proof fn lemma_first_part_with_room(parts: Seq<Seq<Record>>, words: Seq<u64>, depth: nat, from: int)
    requires
        0 <= from,
    ensures
        match part_with_room(parts, words, depth, from) {
            Some(p) => from <= p < parts.len() && room(parts[p], words, depth) is Some && forall|
                q: int,
            |
                from <= q < p ==> room(#[trigger] parts[q], words, depth) is None,
            None => forall|q: int|
                from <= q < parts.len() ==> room(#[trigger] parts[q], words, depth) is None,
        },
    decreases parts.len() - from,
{
    if from < parts.len() && room(parts[from], words, depth) is None {
        lemma_first_part_with_room(parts, words, depth, from + 1);
    }
}

/// What a search finds in some files and then in others is what it finds in the
/// first, then what it finds in the others; in one file it looks at the slots that
/// the query may lie in.
pub proof fn law_search_goes_file_by_file(
    a: Seq<Seq<Record>>,
    b: Seq<Seq<Record>>,
    slots: Seq<Record>,
    query: Seq<u64>,
    depth: nat,
)
    ensures
        all_hits(a + b, query, depth) == all_hits(a, query, depth) + all_hits(b, query, depth),
        all_hits(seq![slots], query, depth) == hits(
            slots,
            probes(query, slots.len(), depth),
            query,
        ),
    decreases b.len(),
{
    assert(seq![slots].drop_last() =~= Seq::<Seq<Record>>::empty());
    assert(all_hits(Seq::<Seq<Record>>::empty(), query, depth) =~= Seq::empty());
    assert(all_hits(seq![slots], query, depth) =~= hits(
        slots,
        probes(query, slots.len(), depth),
        query,
    ));
    if b.len() == 0 {
        assert(a + b =~= a);
        assert(all_hits(a, query, depth) + all_hits(b, query, depth) =~= all_hits(a, query, depth));
    } else {
        assert((a + b).drop_last() =~= a + b.drop_last());
        law_search_goes_file_by_file(a, b.drop_last(), slots, query, depth);
        assert(all_hits(a + b, query, depth) =~= all_hits(a, query, depth) + all_hits(
            b,
            query,
            depth,
        ));
    }
}

/// More overflow files come behind those that are there, and nothing else changes.
pub proof fn law_overflow_files_come_last(st: DbState, files: Seq<Seq<Record>>, p: int)
    ensures
        st.extended(files).parts.len() == st.parts.len() + files.len(),
        0 <= p < st.parts.len() ==> st.extended(files).parts[p] == st.parts[p],
        0 <= p < files.len() ==> st.extended(files).parts[st.parts.len() + p] == files[p],
        st.extended(files).overflow_capacity == st.overflow_capacity,
        st.extended(files).probe_depth == st.probe_depth,
{
}

/// A mapping opens as the records of its bytes, in its place.
pub proof fn law_mappings_open_in_order(regions: Seq<MmapMut>, i: int)
    requires
        0 <= i < regions.len(),
    ensures
        opened_parts(regions).len() == regions.len(),
        opened_parts(regions)[i] == records(mapped(regions[i])),
{
}

/// Mappings are the files of a chunk where there is one, the first has 144 bytes for
/// each slot of the chunk's file, and the others have 144 bytes for each slot of an
/// overflow file; they are overflow files where all of them have.
pub proof fn law_sizes_of_mappings(regions: Seq<MmapMut>, capacity: nat, overflow_capacity: nat)
    ensures
        files_fit(regions, capacity, overflow_capacity) <==> regions.len() > 0 && mapped(
            regions[0],
        ).len() == 144 * capacity && (forall|i: int|
            0 < i < regions.len() ==> mapped(#[trigger] regions[i]).len() == 144
                * overflow_capacity),
        overflows_fit(regions, overflow_capacity) <==> regions.len() > 0 && (forall|i: int|
            0 <= i < regions.len() ==> mapped(#[trigger] regions[i]).len() == 144
                * overflow_capacity),
{
}

/// A chunk can be probed exactly where each of its files can: a machine word can
/// hold the number of the last probe, and there is a slot to probe if any is to be.
pub proof fn law_which_chunks_can_be_probed(st: DbState)
    ensures
        st.can_probe() <==> (forall|i: int|
            0 <= i < st.parts.len() ==> (#[trigger] st.parts[i]).len() + st.probe_depth
                <= usize::MAX && (st.probe_depth == 0 || st.parts[i].len() > 0)),
{
    if forall|i: int|
        0 <= i < st.parts.len() ==> (#[trigger] st.parts[i]).len() + st.probe_depth <= usize::MAX
            && (st.probe_depth == 0 || st.parts[i].len() > 0) {
        assert(st.can_probe());
    }
    if st.can_probe() {
        assert forall|i: int| 0 <= i < st.parts.len() implies (#[trigger] st.parts[i]).len()
            + st.probe_depth <= usize::MAX && (st.probe_depth == 0 || st.parts[i].len() > 0) by {
            assert(can_probe(st.parts[i].len(), st.probe_depth));
        }
    }
}

} // verus!
