//! A chunk of the database: a mapped file of records and the overflow files
//! that take what no longer fits.
use crate::record::{mapped, records, Record, RECORD_SIZE};
use crate::segment::{
    can_probe, find, first_free, hits, in_use, probes, start_slot, with_record,
    without_record, Segment,
};
use crate::u1024::U1024;
use memmap2::MmapMut;
use vstd::prelude::*;

verus! {

/// What a chunk holds: the slots of its own file, then those of each overflow
/// file in the order in which they were added.
#[verifier::ext_equal]
pub struct DbState {
    pub parts: Seq<Seq<Record>>,
    pub overflow_capacity: nat,
    pub probe_depth: nat,
}

/// The free slot that a vector would go into.
pub open spec fn room(slots: Seq<Record>, words: Seq<u64>, depth: nat) -> Option<int> {
    first_free(slots, probes(words, slots.len(), depth))
}

/// `slots` after an attempt to put a record in.
pub open spec fn tried(slots: Seq<Record>, words: Seq<u64>, payload_id: u64, depth: nat) -> Seq<
    Record,
> {
    match room(slots, words, depth) {
        Some(i) => with_record(slots, i, words, payload_id),
        None => slots,
    }
}

/// The first file from `from` on that has room for a vector.
pub open spec fn part_with_room(
    parts: Seq<Seq<Record>>,
    words: Seq<u64>,
    depth: nat,
    from: int,
) -> Option<int>
    decreases parts.len() - from,
{
    if from >= parts.len() {
        None
    } else if room(parts[from], words, depth) is Some {
        Some(from)
    } else {
        part_with_room(parts, words, depth, from + 1)
    }
}

/// The first file from `from` on that holds a record in use with the given id.
pub open spec fn part_with_id(parts: Seq<Seq<Record>>, payload_id: u64, from: int) -> Option<int>
    decreases parts.len() - from,
{
    if from >= parts.len() {
        None
    } else if find(parts[from], payload_id) is Some {
        Some(from)
    } else {
        part_with_id(parts, payload_id, from + 1)
    }
}

/// What a search finds, file by file.
pub open spec fn all_hits(parts: Seq<Seq<Record>>, query: Seq<u64>, depth: nat) -> Seq<(u64, u32)>
    decreases parts.len(),
{
    if parts.len() == 0 {
        Seq::empty()
    } else {
        all_hits(parts.drop_last(), query, depth) + hits(
            parts.last(),
            probes(query, parts.last().len(), depth),
            query,
        )
    }
}

/// How many slots there are in all files.
pub open spec fn total_slots(parts: Seq<Seq<Record>>) -> nat
    decreases parts.len(),
{
    if parts.len() == 0 {
        0
    } else {
        total_slots(parts.drop_last()) + parts.last().len()
    }
}

/// How many records are in use in all files.
pub open spec fn total_in_use(parts: Seq<Seq<Record>>) -> nat
    decreases parts.len(),
{
    if parts.len() == 0 {
        0
    } else {
        total_in_use(parts.drop_last()) + in_use(parts.last())
    }
}

impl DbState {
    /// Whether every file can be probed.
    pub open spec fn can_probe(self) -> bool {
        forall|i: int|
            0 <= i < self.parts.len() ==> can_probe(
                (#[trigger] self.parts[i]).len(),
                self.probe_depth,
            )
    }

    /// Whether some file has room for a vector.
    pub open spec fn has_room(self, words: Seq<u64>) -> bool {
        part_with_room(self.parts, words, self.probe_depth, 0) is Some
    }

    /// The chunk after a record went into the first file with room.
    pub open spec fn stored(self, words: Seq<u64>, payload_id: u64) -> DbState {
        match part_with_room(self.parts, words, self.probe_depth, 0) {
            Some(p) => DbState {
                parts: self.parts.update(
                    p,
                    tried(self.parts[p], words, payload_id, self.probe_depth),
                ),
                ..self
            },
            None => self,
        }
    }

    /// The chunk with more overflow files.
    pub open spec fn extended(self, files: Seq<Seq<Record>>) -> DbState {
        DbState { parts: self.parts + files, ..self }
    }

    /// The vector of the first record in use with the given id.
    pub open spec fn lookup(self, payload_id: u64) -> Option<Seq<u64>> {
        match part_with_id(self.parts, payload_id, 0) {
            Some(p) => Some(self.parts[p][find(self.parts[p], payload_id)->0].vector),
            None => None,
        }
    }

    /// The chunk after the first record in use with the given id was freed.
    pub open spec fn deleted(self, payload_id: u64) -> DbState {
        match part_with_id(self.parts, payload_id, 0) {
            Some(p) => DbState {
                parts: self.parts.update(
                    p,
                    without_record(self.parts[p], find(self.parts[p], payload_id)->0),
                ),
                ..self
            },
            None => self,
        }
    }
}

/// The slots of some mapped files.
pub open spec fn opened_parts(regions: Seq<MmapMut>) -> Seq<Seq<Record>> {
    regions.map_values(|m: MmapMut| records(mapped(m)))
}

/// Whether mappings are the file of a chunk of `capacity` records and its
/// overflow files of `overflow_capacity` records each.
pub open spec fn files_fit(regions: Seq<MmapMut>, capacity: nat, overflow_capacity: nat) -> bool {
    &&& regions.len() >= 1
    &&& mapped(regions[0]).len() == capacity * RECORD_SIZE
    &&& forall|i: int|
        1 <= i < regions.len() ==> mapped(#[trigger] regions[i]).len() == overflow_capacity
            * RECORD_SIZE
}

/// Whether mappings are overflow files of `overflow_capacity` records each.
pub open spec fn overflows_fit(regions: Seq<MmapMut>, overflow_capacity: nat) -> bool {
    &&& regions.len() > 0
    &&& forall|i: int|
        0 <= i < regions.len() ==> mapped(#[trigger] regions[i]).len() == overflow_capacity
            * RECORD_SIZE
}

/// What became of overflow files that were made for a record.
pub enum Overflow {
    /// They belong to the chunk, and the record lies in one of its files. Where
    /// no slot is ever probed, it lies in none.
    Added,
    /// None of them has room for the record. Nothing changed, the mappings are
    /// handed back, and the overflow file of this number is wanted too.
    Full { files: Vec<MmapMut>, overflow: usize },
}

/// What became of a record that was to be stored.
pub enum Placement {
    /// It lies in a file.
    Stored,
    /// No file has room for it; the overflow file of this number is wanted.
    Full { overflow: usize },
}

/// A chunk: a mapped file of records with its overflow files.
pub struct ThrushDB {
    parts: Vec<Segment>,
    overflow_capacity: usize,
    probe_depth: usize,
}

impl View for ThrushDB {
    type V = DbState;

    closed spec fn view(&self) -> DbState {
        DbState {
            parts: Seq::new(self.parts@.len(), |i: int| self.parts@[i]@),
            overflow_capacity: self.overflow_capacity as nat,
            probe_depth: self.probe_depth as nat,
        }
    }
}

impl ThrushDB {
    /// There is the chunk's own file, every mapping fits its slots, and the
    /// overflow files all have the capacity set for them.
    pub closed spec fn wf(self) -> bool {
        &&& self.parts@.len() >= 1
        &&& forall|i: int| 0 <= i < self.parts@.len() ==> (#[trigger] self.parts@[i]).wf()
        &&& forall|i: int|
            1 <= i < self.parts@.len() ==> (#[trigger] self.parts@[i])@.len()
                == self.overflow_capacity
    }

    /// The mappings of the files.
    pub closed spec fn mappings(self) -> Seq<MmapMut> {
        Seq::new(self.parts@.len(), |i: int| self.parts@[i].mapping())
    }

    /// What the invariant says of the contents: there is a file, every file
    /// behind the first has the overflow capacity, and the mappings hold the
    /// slots and nothing else.
    pub proof fn lemma_wf(self)
        requires
            self.wf(),
        ensures
            self@.parts.len() >= 1,
            self.mappings().len() == self@.parts.len(),
            opened_parts(self.mappings()) == self@.parts,
            forall|i: int|
                0 <= i < self@.parts.len() ==> mapped(#[trigger] self.mappings()[i]).len()
                    == self@.parts[i].len() * RECORD_SIZE,
            files_fit(self.mappings(), self@.parts[0].len(), self@.overflow_capacity),
            forall|i: int|
                1 <= i < self@.parts.len() ==> (#[trigger] self@.parts[i]).len()
                    == self@.overflow_capacity,
    {
        assert(opened_parts(self.mappings()) =~= self@.parts);
        assert forall|i: int| 0 <= i < self@.parts.len() implies mapped(
            #[trigger] self.mappings()[i],
        ).len() == self@.parts[i].len() * RECORD_SIZE by {
            assert(self.parts@[i].wf());
            self.parts@[i].lemma_wf();
        }
    }

    /// Opens a chunk over the mapping of its file and those of its overflow
    /// files, whatever they hold. Where there is none, or one is not as long as
    /// its records, the chunk is refused.
    pub fn new_at(
        regions: Vec<MmapMut>,
        capacity: usize,
        overflow_capacity: usize,
        probe_depth: usize,
    ) -> (r: Option<ThrushDB>)
        ensures
            r is Some <==> files_fit(regions@, capacity as nat, overflow_capacity as nat),
            r matches Some(db) ==> db.wf() && db@ == (DbState {
                parts: opened_parts(regions@),
                overflow_capacity: overflow_capacity as nat,
                probe_depth: probe_depth as nat,
            }) && db@.parts[0].len() == capacity && db.mappings() == regions@,
    {
        let mut regions = regions;
        let ghost all = regions@;
        let mut parts: Vec<Segment> = Vec::new();
        #[verifier::loop_isolation(false)]
        while regions.len() > 0
            invariant
                parts@.len() + regions@.len() == all.len(),
                regions@ == all.skip(parts@.len() as int),
                forall|i: int|
                    0 <= i < parts@.len() ==> (#[trigger] parts@[i]).wf() && parts@[i].mapping()
                        == all[i] && parts@[i]@.len() == (if i == 0 {
                        capacity
                    } else {
                        overflow_capacity
                    }) && mapped(all[i]).len() == parts@[i]@.len() * RECORD_SIZE,
            decreases regions@.len(),
        {
            let ghost n = parts@.len() as int;
            assert(regions@[0] == all[n]);
            let slots: usize = if parts.len() == 0 {
                capacity
            } else {
                overflow_capacity
            };
            let region = regions.remove(0);
            assert(regions@ =~= all.skip(n + 1));
            match Segment::new(region, slots) {
                Some(segment) => {
                    parts.push(segment);
                },
                None => {
                    assert(mapped(all[n]).len() != slots * RECORD_SIZE);
                    return None;
                },
            }
        }
        if parts.len() == 0 {
            return None;
        }
        let db = ThrushDB { parts, overflow_capacity, probe_depth };
        proof {
            assert(db@.parts =~= opened_parts(all));
            assert(db.mappings() =~= all);
            assert(parts@[0].wf());
            assert forall|i: int| 1 <= i < all.len() implies mapped(#[trigger] all[i]).len()
                == overflow_capacity * RECORD_SIZE by {
                assert(parts@[i].wf());
            }
        }
        Some(db)
    }

    /// How many records an overflow file of this chunk has room for.
    pub fn overflow_capacity(&self) -> (n: usize)
        ensures
            n == self@.overflow_capacity,
    {
        self.overflow_capacity
    }

    /// How many slots from each start a record is looked for.
    pub fn probe_depth(&self) -> (n: usize)
        ensures
            n == self@.probe_depth,
    {
        self.probe_depth
    }

    /// Whether every file can be probed.
    pub fn is_probeable(&self) -> (b: bool)
        requires
            self.wf(),
        ensures
            b == self@.can_probe(),
    {
        let mut i: usize = 0;
        while i < self.parts.len()
            invariant
                i <= self.parts@.len(),
                self.wf(),
                forall|p: int|
                    0 <= p < i ==> can_probe((#[trigger] self@.parts[p]).len(), self@.probe_depth),
            decreases self.parts@.len() - i,
        {
            assert(self@.parts[i as int] == self.parts@[i as int]@);
            if !self.parts[i].is_probeable(self.probe_depth) {
                assert(!can_probe(self@.parts[i as int].len(), self@.probe_depth));
                return false;
            }
            i += 1;
        }
        true
    }

    /// How many files there are.
    pub fn mapping_count(&self) -> (n: usize)
        ensures
            n == self.mappings().len(),
    {
        self.parts.len()
    }

    /// The mapping that is to be written to disk once `synced` mappings were;
    /// none, once all were.
    pub fn flush(&self, synced: usize) -> (next: Option<&MmapMut>)
        requires
            self.wf(),
        ensures
            match next {
                Some(region) => synced < self.mappings().len() && *region == self.mappings()[
                    synced as int],
                None => synced >= self.mappings().len(),
            },
    {
        if synced < self.parts.len() {
            Some(self.parts[synced].region())
        } else {
            None
        }
    }

    /// The slots of the chunk's own file at which the inner hashes start to
    /// look for `vector`.
    pub fn lsh_indices(&self, vector: U1024) -> (starts: [usize; 8])
        requires
            self.wf(),
        ensures
            forall|p: int|
                0 <= p < 8 ==> #[trigger] starts@[p] == start_slot(
                    vector@,
                    self@.parts[0].len(),
                    p,
                ),
    {
        self.parts[0].lsh_indices(&vector)
    }

    /// Stores a record in the first file with room for it. Where no file has
    /// room nothing changes, and the record has to be handed to
    /// `insert_overflow`.
    pub fn insert(&mut self, vector: U1024, payload_id: u64) -> (placement: Placement)
        requires
            old(self).wf(),
            old(self)@.can_probe(),
        ensures
            final(self).wf(),
            final(self)@ == old(self)@.stored(vector@, payload_id),
            final(self)@.parts[0].len() == old(self)@.parts[0].len(),
            match placement {
                Placement::Stored => old(self)@.has_room(vector@),
                Placement::Full { overflow } => !old(self)@.has_room(vector@) && overflow
                    == old(self)@.parts.len() && final(self).mappings() == old(self).mappings(),
            },
    {
        let mut i: usize = 0;
        while i < self.parts.len()
            invariant
                i <= self.parts@.len(),
                self.parts@ == old(self).parts@,
                self@ == old(self)@,
                self.overflow_capacity == old(self).overflow_capacity,
                self.wf(),
                self@.can_probe(),
                part_with_room(self@.parts, vector@, self@.probe_depth, 0) == part_with_room(
                    self@.parts,
                    vector@,
                    self@.probe_depth,
                    i as int,
                ),
            decreases self.parts@.len() - i,
        {
            proof {
                assert(self@.parts[i as int] == self.parts@[i as int]@);
                assert(can_probe(self@.parts[i as int].len(), self@.probe_depth));
            }
            let depth: usize = self.probe_depth;
            let stored: bool = self.parts[i].try_insert_local(&vector, payload_id, depth);
            if stored {
                proof {
                    assert(self.parts@ =~= old(self).parts@.update(i as int, self.parts@[i as int]));
                    assert(self.parts@[i as int]@.len() == old(self).parts@[i as int]@.len());
                }
                assert(self@ =~= old(self)@.stored(vector@, payload_id));
                return Placement::Stored;
            }
            assert(self.parts@ =~= old(self).parts@);
            i += 1;
        }
        Placement::Full { overflow: self.parts.len() }
    }

    /// Adds the overflow files that were made for a record, and stores the record
    /// in the first file with room for it. A file that was in use before may have
    /// no room: then nothing changes, and one more file is wanted. Where there is
    /// no file, or one has not the right size, that is an error, and nothing
    /// changes.
    pub fn insert_overflow(
        &mut self,
        regions: Vec<MmapMut>,
        vector: U1024,
        payload_id: u64,
    ) -> (r: Result<Overflow, &'static str>)
        requires
            old(self).wf(),
            old(self)@.can_probe(),
            regions@.len() > 0 ==> can_probe(
                old(self)@.overflow_capacity,
                old(self)@.probe_depth,
            ),
        ensures
            final(self).wf(),
            final(self)@.parts[0].len() == old(self)@.parts[0].len(),
            match r {
                Ok(Overflow::Added) => {
                    let more = old(self)@.extended(opened_parts(regions@));
                    &&& overflows_fit(regions@, old(self)@.overflow_capacity)
                    &&& more.has_room(vector@) || more.probe_depth == 0
                    &&& final(self)@ == more.stored(vector@, payload_id)
                },
                Ok(Overflow::Full { files, overflow }) => {
                    let more = old(self)@.extended(opened_parts(regions@));
                    &&& overflows_fit(regions@, old(self)@.overflow_capacity)
                    &&& !more.has_room(vector@) && more.probe_depth > 0
                    &&& final(self)@ == old(self)@
                    &&& files@ == regions@
                    &&& overflow == more.parts.len()
                },
                Err(e) => {
                    &&& !overflows_fit(regions@, old(self)@.overflow_capacity)
                    &&& e@ == "Failed to map new overflow chunk to disk"@
                    &&& final(self)@ == old(self)@
                },
            },
    {
        let mut regions = regions;
        let ghost all = regions@;
        let mut added: Vec<Segment> = Vec::new();
        #[verifier::loop_isolation(false)]
        while regions.len() > 0
            invariant
                added@.len() + regions@.len() == all.len(),
                regions@ == all.skip(added@.len() as int),
                forall|i: int|
                    0 <= i < added@.len() ==> (#[trigger] added@[i]).wf() && added@[i].mapping()
                        == all[i] && added@[i]@.len() == self.overflow_capacity && mapped(
                        all[i],
                    ).len() == self.overflow_capacity * RECORD_SIZE,
            decreases regions@.len(),
        {
            let ghost n = added@.len() as int;
            assert(regions@[0] == all[n]);
            let region = regions.remove(0);
            assert(regions@ =~= all.skip(n + 1));
            match Segment::new(region, self.overflow_capacity) {
                Some(segment) => {
                    added.push(segment);
                },
                None => {
                    assert(mapped(all[n]).len() != self.overflow_capacity * RECORD_SIZE);
                    return Err("Failed to map new overflow chunk to disk");
                },
            }
        }
        if added.len() == 0 {
            return Err("Failed to map new overflow chunk to disk");
        }
        let own: usize = self.parts.len();
        let ghost more = self@.extended(opened_parts(all));
        let ghost own_maps = self.mappings();
        proof {
            assert forall|i: int| 0 <= i < all.len() implies mapped(#[trigger] all[i]).len()
                == self.overflow_capacity * RECORD_SIZE by {
                assert(added@[i].wf());
            }
        }
        self.parts.append(&mut added);
        proof {
            assert(self@ =~= more);
            assert(self.mappings() =~= own_maps + all);
            assert forall|i: int| 0 <= i < self@.parts.len() implies can_probe(
                (#[trigger] self@.parts[i]).len(),
                self@.probe_depth,
            ) by {
                if i < own {
                    assert(can_probe(old(self)@.parts[i].len(), old(self)@.probe_depth));
                }
            }
        }
        match self.insert(vector, payload_id) {
            Placement::Stored => Ok(Overflow::Added),
            Placement::Full { overflow } => {
                if self.probe_depth == 0 {
                    return Ok(Overflow::Added);
                }
                let ghost grown = self.parts@;
                assert(self@ == more);
                assert forall|i: int| 0 <= i < grown.len() implies (#[trigger] grown[i])@
                    == more.parts[i] by {
                    assert(self@.parts[i] == grown[i]@);
                }
                let mut rest = self.parts.split_off(own);
                let mut files: Vec<MmapMut> = Vec::new();
                proof {
                    assert forall|i: int| 0 <= i < own implies (#[trigger] self@.parts[i])
                        == old(self)@.parts[i] by {
                        assert(self.parts@[i] == grown[i]);
                        assert(grown[i]@ == more.parts[i]);
                    }
                    assert(self@.parts =~= old(self)@.parts);
                    assert(self@ =~= old(self)@);
                    assert forall|i: int| 0 <= i < rest@.len() implies (
                    #[trigger] rest@[i]).mapping() == all[i] by {
                        assert(rest@[i] == grown[own + i]);
                        assert((own_maps + all)[own + i] == all[i]);
                    }
                }
                let ghost handed = rest@;
                while rest.len() > 0
                    invariant
                        files@.len() + rest@.len() == handed.len(),
                        handed.len() == all.len(),
                        rest@ == handed.skip(files@.len() as int),
                        forall|i: int|
                            0 <= i < handed.len() ==> (#[trigger] handed[i]).mapping() == all[i],
                        files@ == all.take(files@.len() as int),
                    decreases rest@.len(),
                {
                    let ghost n = files@.len() as int;
                    assert(rest@[0] == handed[n]);
                    let segment = rest.remove(0);
                    assert(rest@ =~= handed.skip(n + 1));
                    files.push(segment.into_region());
                    assert(files@ =~= all.take(n + 1));
                }
                assert(files@ =~= all);
                Ok(Overflow::Full { files, overflow })
            },
        }
    }

    /// The records in use that lie where `query` may lie, with their distances.
    pub fn search(&self, query: U1024, _k: usize) -> (found: Vec<(u64, u32)>)
        requires
            self.wf(),
            self@.can_probe(),
        ensures
            found@ == all_hits(self@.parts, query@, self@.probe_depth),
    {
        let mut found: Vec<(u64, u32)> = Vec::new();
        let mut i: usize = 0;
        assert(self@.parts.take(0) =~= Seq::empty());
        while i < self.parts.len()
            invariant
                i <= self.parts@.len(),
                self.wf(),
                self@.can_probe(),
                found@ == all_hits(self@.parts.take(i as int), query@, self@.probe_depth),
            decreases self.parts@.len() - i,
        {
            proof {
                assert(self@.parts[i as int] == self.parts@[i as int]@);
                assert(can_probe(self@.parts[i as int].len(), self@.probe_depth));
                assert(self@.parts.take(i + 1).drop_last() =~= self@.parts.take(i as int));
            }
            let mut more = self.parts[i].search_local(&query, self.probe_depth);
            found.append(&mut more);
            i += 1;
        }
        assert(self@.parts.take(self.parts@.len() as int) =~= self@.parts);
        found
    }

    /// The vector of the first record in use with the given id.
    pub fn get(&self, payload_id: u64) -> (vector: Option<U1024>)
        requires
            self.wf(),
        ensures
            match self@.lookup(payload_id) {
                Some(words) => vector is Some && vector->0@ == words,
                None => vector is None,
            },
    {
        let mut i: usize = 0;
        while i < self.parts.len()
            invariant
                i <= self.parts@.len(),
                self.wf(),
                part_with_id(self@.parts, payload_id, 0) == part_with_id(
                    self@.parts,
                    payload_id,
                    i as int,
                ),
            decreases self.parts@.len() - i,
        {
            proof {
                assert(self@.parts[i as int] == self.parts@[i as int]@);
            }
            if let Some(vector) = self.parts[i].get(payload_id) {
                return Some(vector);
            }
            i += 1;
        }
        None
    }

    /// Frees the slot of the first record in use with the given id.
    pub fn delete(&mut self, payload_id: u64) -> (deleted: bool)
        requires
            old(self).wf(),
        ensures
            final(self).wf(),
            final(self)@ == old(self)@.deleted(payload_id),
            final(self)@.parts[0].len() == old(self)@.parts[0].len(),
            deleted <==> old(self)@.lookup(payload_id) is Some,
    {
        let mut i: usize = 0;
        while i < self.parts.len()
            invariant
                i <= self.parts@.len(),
                self.parts@ == old(self).parts@,
                self@ == old(self)@,
                self.overflow_capacity == old(self).overflow_capacity,
                self.wf(),
                part_with_id(self@.parts, payload_id, 0) == part_with_id(
                    self@.parts,
                    payload_id,
                    i as int,
                ),
            decreases self.parts@.len() - i,
        {
            proof {
                assert(self@.parts[i as int] == self.parts@[i as int]@);
            }
            let deleted: bool = self.parts[i].delete(payload_id);
            if deleted {
                proof {
                    assert(self.parts@ =~= old(self).parts@.update(i as int, self.parts@[i as int]));
                    assert(self.parts@[i as int]@.len() == old(self).parts@[i as int]@.len());
                }
                assert(self@ =~= old(self)@.deleted(payload_id));
                return true;
            }
            assert(self.parts@ =~= old(self).parts@);
            i += 1;
        }
        false
    }

    /// How many slots there are in all the files, where a word can hold it.
    pub fn checked_capacity(&self) -> (n: Option<usize>)
        requires
            self.wf(),
        ensures
            match n {
                Some(slots) => slots == total_slots(self@.parts),
                None => total_slots(self@.parts) > usize::MAX,
            },
    {
        let mut n: usize = 0;
        let mut i: usize = 0;
        while i < self.parts.len()
            invariant
                i <= self.parts@.len(),
                self.wf(),
                n == total_slots(self@.parts.take(i as int)),
            decreases self.parts@.len() - i,
        {
            proof {
                assert(self@.parts.take(i + 1).drop_last() =~= self@.parts.take(i as int));
                lemma_total_slots_prefix(self@.parts, i + 1);
            }
            match n.checked_add(self.parts[i].capacity()) {
                Some(more) => {
                    n = more;
                },
                None => {
                    return None;
                },
            }
            i += 1;
        }
        assert(self@.parts.take(self.parts@.len() as int) =~= self@.parts);
        Some(n)
    }

    /// How many slots there are in all the files.
    pub fn capacity(&self) -> (n: usize)
        requires
            self.wf(),
            total_slots(self@.parts) <= usize::MAX,
        ensures
            n == total_slots(self@.parts),
    {
        match self.checked_capacity() {
            Some(n) => n,
            None => usize::MAX,
        }
    }

    /// How many records are in use in all files.
    pub fn len(&self) -> (n: usize)
        requires
            self.wf(),
            total_in_use(self@.parts) <= usize::MAX,
        ensures
            n == total_in_use(self@.parts),
    {
        let mut n: usize = 0;
        let mut i: usize = 0;
        while i < self.parts.len()
            invariant
                i <= self.parts@.len(),
                self.wf(),
                total_in_use(self@.parts) <= usize::MAX,
                n == total_in_use(self@.parts.take(i as int)),
            decreases self.parts@.len() - i,
        {
            proof {
                assert(self@.parts.take(i + 1).drop_last() =~= self@.parts.take(i as int));
                lemma_total_in_use_prefix(self@.parts, i + 1);
            }
            n = n + self.parts[i].len();
            i += 1;
        }
        assert(self@.parts.take(self.parts@.len() as int) =~= self@.parts);
        n
    }
}

proof fn lemma_total_slots_prefix(parts: Seq<Seq<Record>>, n: int)
    requires
        0 <= n <= parts.len(),
    ensures
        total_slots(parts.take(n)) <= total_slots(parts),
    decreases parts.len(),
{
    if n < parts.len() {
        lemma_total_slots_prefix(parts.drop_last(), n);
        assert(parts.drop_last().take(n) =~= parts.take(n));
    } else {
        assert(parts.take(n) =~= parts);
    }
}

proof fn lemma_total_in_use_prefix(parts: Seq<Seq<Record>>, n: int)
    requires
        0 <= n <= parts.len(),
    ensures
        total_in_use(parts.take(n)) <= total_in_use(parts),
    decreases parts.len(),
{
    if n < parts.len() {
        lemma_total_in_use_prefix(parts.drop_last(), n);
        assert(parts.drop_last().take(n) =~= parts.take(n));
    } else {
        assert(parts.take(n) =~= parts);
    }
}

} // verus!
