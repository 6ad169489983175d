//! One mapped file of records: where a vector may lie in it, and how it is put
//! there, found, counted and taken out.
use crate::lsh::{bucket, inner_bucket, lemma_hash_bounds, INNER_BUCKETS, INNER_PROJECTIONS};
use crate::record::{
    mapped, read_active, read_payload_id, read_record, records, region_bytes, region_bytes_mut,
    write_active, write_record, Record, RECORD_SIZE,
};
use crate::u1024::{hamming, law_hamming_at_most_1024, U1024};
use memmap2::MmapMut;
use vstd::prelude::*;

verus! {

/// The slot at which inner hash `proj` starts to look, among `capacity` slots.
pub open spec fn start_slot(words: Seq<u64>, capacity: nat, proj: int) -> nat {
    bucket(words, proj) * (capacity / (INNER_BUCKETS as nat))
}

/// The `depth` slots from `start` on, around the end of the file.
pub open spec fn probe_run(start: nat, capacity: nat, depth: nat) -> Seq<int> {
    Seq::new(depth, |j: int| (start + j) % (capacity as int))
}

/// The slots that the first `n` inner hashes have a vector tried in, in order.
pub open spec fn probes_of(words: Seq<u64>, capacity: nat, depth: nat, n: nat) -> Seq<int>
    decreases n,
{
    if n == 0 {
        Seq::empty()
    } else {
        probes_of(words, capacity, depth, (n - 1) as nat) + probe_run(
            start_slot(words, capacity, n - 1),
            capacity,
            depth,
        )
    }
}

/// The slots that a vector may lie in, in the order in which they are tried.
pub open spec fn probes(words: Seq<u64>, capacity: nat, depth: nat) -> Seq<int> {
    probes_of(words, capacity, depth, INNER_PROJECTIONS as nat)
}

/// The first free slot among `tried`.
pub open spec fn first_free(slots: Seq<Record>, tried: Seq<int>) -> Option<int>
    decreases tried.len(),
{
    if tried.len() == 0 {
        None
    } else {
        match first_free(slots, tried.drop_last()) {
            Some(i) => Some(i),
            None => if slots[tried.last()].is_active == 0 {
                Some(tried.last())
            } else {
                None
            },
        }
    }
}

/// `slots` with a record in use put into slot `i`.
pub open spec fn with_record(
    slots: Seq<Record>,
    i: int,
    words: Seq<u64>,
    payload_id: u64,
) -> Seq<Record> {
    slots.update(i, Record { vector: words, payload_id, is_active: 1, ..slots[i] })
}

/// `slots` with slot `i` set free.
pub open spec fn without_record(slots: Seq<Record>, i: int) -> Seq<Record> {
    slots.update(i, Record { is_active: 0, ..slots[i] })
}

/// The records in use among the slots `tried`, as id and distance to `query`.
pub open spec fn hits(slots: Seq<Record>, tried: Seq<int>, query: Seq<u64>) -> Seq<(u64, u32)>
    decreases tried.len(),
{
    if tried.len() == 0 {
        Seq::empty()
    } else {
        let before = hits(slots, tried.drop_last(), query);
        let r = slots[tried.last()];
        if r.is_active == 1 {
            before.push((r.payload_id, hamming(r.vector, query) as u32))
        } else {
            before
        }
    }
}

/// Whether slot `i` holds a record in use with the given id.
pub open spec fn holds_id(slots: Seq<Record>, payload_id: u64, i: int) -> bool {
    slots[i].is_active == 1 && slots[i].payload_id == payload_id
}

/// The first slot from `from` on that holds a record in use with the given id.
pub open spec fn find_from(slots: Seq<Record>, payload_id: u64, from: int) -> Option<int>
    decreases slots.len() - from,
{
    if from >= slots.len() {
        None
    } else if holds_id(slots, payload_id, from) {
        Some(from)
    } else {
        find_from(slots, payload_id, from + 1)
    }
}

/// The first slot that holds a record in use with the given id.
pub open spec fn find(slots: Seq<Record>, payload_id: u64) -> Option<int> {
    find_from(slots, payload_id, 0)
}

/// How many slots hold a record in use.
pub open spec fn in_use(slots: Seq<Record>) -> nat
    decreases slots.len(),
{
    if slots.len() == 0 {
        0
    } else {
        in_use(slots.drop_last()) + if slots.last().is_active == 1 {
            1nat
        } else {
            0nat
        }
    }
}

/// Whether slots can be tried to `depth` without a machine limit or an empty
/// file being in the way.
pub open spec fn can_probe(capacity: nat, depth: nat) -> bool {
    &&& capacity + depth <= usize::MAX
    &&& depth > 0 ==> capacity > 0
}

/// Whether a file of `capacity` slots can be probed to the given depth.
pub fn probeable(capacity: usize, depth: usize) -> (b: bool)
    ensures
        b == can_probe(capacity as nat, depth as nat),
{
    capacity <= usize::MAX - depth && (depth == 0 || capacity > 0)
}

/// The start of every inner hash lies in the file.
pub proof fn lemma_start_slot(words: Seq<u64>, capacity: nat, proj: int)
    requires
        0 <= proj < INNER_PROJECTIONS,
    ensures
        start_slot(words, capacity, proj) <= capacity,
        capacity > 0 ==> start_slot(words, capacity, proj) < capacity,
{
    lemma_hash_bounds(words);
    let h = bucket(words, proj);
    let s = capacity / (INNER_BUCKETS as nat);
    assert(h < INNER_BUCKETS);
    assert(h * s <= 1023 * s) by (nonlinear_arith)
        requires
            h < 1024,
    ;
}

/// Every slot that a vector is tried in is a slot of the file.
pub proof fn law_probes_in_file(words: Seq<u64>, capacity: nat, depth: nat, k: int)
    requires
        depth > 0 ==> capacity > 0,
        0 <= k < probes(words, capacity, depth).len(),
    ensures
        0 <= probes(words, capacity, depth)[k] < capacity,
{
    lemma_probes_of_in_file(words, capacity, depth, INNER_PROJECTIONS as nat);
}

/// Every inner hash has a vector tried in `depth` slots.
pub proof fn lemma_probes_len(words: Seq<u64>, capacity: nat, depth: nat)
    requires
        depth > 0 ==> capacity > 0,
    ensures
        probes(words, capacity, depth).len() == INNER_PROJECTIONS * depth,
{
    lemma_probes_of_in_file(words, capacity, depth, INNER_PROJECTIONS as nat);
}

proof fn lemma_probes_of_in_file(words: Seq<u64>, capacity: nat, depth: nat, n: nat)
    requires
        depth > 0 ==> capacity > 0,
    ensures
        probes_of(words, capacity, depth, n).len() == n * depth,
        forall|k: int|
            0 <= k < probes_of(words, capacity, depth, n).len() ==> 0 <= #[trigger] probes_of(
                words,
                capacity,
                depth,
                n,
            )[k] < capacity,
    decreases n,
{
    if n > 0 {
        let m = (n - 1) as nat;
        lemma_probes_of_in_file(words, capacity, depth, m);
        assert(n * depth == m * depth + depth) by (nonlinear_arith)
            requires
                n == m + 1,
        ;
        let run = probe_run(start_slot(words, capacity, m as int), capacity, depth);
        assert forall|j: int| 0 <= j < run.len() implies 0 <= #[trigger] run[j] < capacity by {
            let x = start_slot(words, capacity, m as int) + j;
            vstd::arithmetic::div_mod::lemma_mod_bound(x, capacity as int);
        }
    } else {
        assert(n * depth == 0) by (nonlinear_arith)
            requires
                n == 0,
        ;
    }
}

/// The slot found first stays the one found, whatever is tried after it.
proof fn lemma_first_free_prefix(slots: Seq<Record>, tried: Seq<int>, more: Seq<int>)
    requires
        first_free(slots, tried) is Some,
    ensures
        first_free(slots, tried + more) == first_free(slots, tried),
    decreases more.len(),
{
    if more.len() == 0 {
        assert(tried + more =~= tried);
    } else {
        assert((tried + more).drop_last() =~= tried + more.drop_last());
        lemma_first_free_prefix(slots, tried, more.drop_last());
    }
}

/// The runs of later hashes come after those of earlier ones.
proof fn lemma_probes_of_prefix(words: Seq<u64>, capacity: nat, depth: nat, m: nat, n: nat)
    requires
        m <= n,
    ensures
        exists|more: Seq<int>|
            probes_of(words, capacity, depth, n) == #[trigger] (probes_of(
                words,
                capacity,
                depth,
                m,
            ) + more),
    decreases n,
{
    let head = probes_of(words, capacity, depth, m);
    if m == n {
        assert(head =~= head + Seq::<int>::empty());
    } else {
        lemma_probes_of_prefix(words, capacity, depth, m, (n - 1) as nat);
        let more = choose|more: Seq<int>|
            probes_of(words, capacity, depth, (n - 1) as nat) == #[trigger] (head + more);
        let run = probe_run(start_slot(words, capacity, n - 1), capacity, depth);
        assert(probes_of(words, capacity, depth, n) =~= head + (more + run));
    }
}

/// A file of record slots, mapped into memory.
pub struct Segment {
    region: MmapMut,
    capacity: usize,
}

impl View for Segment {
    type V = Seq<Record>;

    open spec fn view(&self) -> Seq<Record> {
        records(mapped(self.mapping()))
    }
}

impl Segment {
    /// The mapping is exactly as long as its slots.
    pub closed spec fn wf(self) -> bool {
        mapped(self.region).len() == self.capacity * RECORD_SIZE
    }

    /// The mapping that holds the slots.
    pub closed spec fn mapping(self) -> MmapMut {
        self.region
    }

    /// What the invariant says of the mapping: it is exactly as long as its slots.
    pub proof fn lemma_wf(self)
        requires
            self.wf(),
        ensures
            mapped(self.mapping()).len() == self@.len() * RECORD_SIZE,
    {
    }

    /// Takes a mapping that has room for exactly `capacity` slots; any other is
    /// refused.
    pub fn new(region: MmapMut, capacity: usize) -> (r: Option<Segment>)
        ensures
            r is Some <==> mapped(region).len() == capacity * RECORD_SIZE,
            r matches Some(s) ==> s.wf() && s@ == records(mapped(region)) && s@.len() == capacity
                && s.mapping() == region,
    {
        let len = region_bytes(&region).len();
        if len % RECORD_SIZE == 0 && len / RECORD_SIZE == capacity {
            Some(Segment { region, capacity })
        } else {
            None
        }
    }

    /// The mapping that holds the slots.
    pub fn region(&self) -> (r: &MmapMut)
        ensures
            *r == self.mapping(),
    {
        &self.region
    }

    /// Gives the mapping back.
    pub fn into_region(self) -> (r: MmapMut)
        ensures
            r == self.mapping(),
    {
        self.region
    }

    /// How many slots there are.
    pub fn capacity(&self) -> (n: usize)
        requires
            self.wf(),
        ensures
            n == self@.len(),
    {
        self.capacity
    }

    /// Whether the slots can be probed to the given depth.
    pub fn is_probeable(&self, depth: usize) -> (b: bool)
        requires
            self.wf(),
        ensures
            b == can_probe(self@.len(), depth as nat),
    {
        probeable(self.capacity, depth)
    }

    /// The slots at which the inner hashes start to look for `vector`.
    pub fn lsh_indices(&self, vector: &U1024) -> (starts: [usize; 8])
        requires
            self.wf(),
        ensures
            starts@ == Seq::new(
                INNER_PROJECTIONS as nat,
                |p: int| start_slot(vector@, self@.len(), p) as usize,
            ),
            forall|p: int|
                0 <= p < INNER_PROJECTIONS ==> #[trigger] starts@[p] == start_slot(
                    vector@,
                    self@.len(),
                    p,
                ),
    {
        let slots_per_bucket: usize = self.capacity / INNER_BUCKETS;
        let mut out: [usize; 8] = [0; 8];
        let mut proj: usize = 0;
        while proj < INNER_PROJECTIONS
            invariant
                self.wf(),
                proj <= INNER_PROJECTIONS,
                slots_per_bucket == self@.len() / (INNER_BUCKETS as nat),
                self@.len() == self.capacity,
                forall|p: int|
                    0 <= p < proj ==> #[trigger] out@[p] == start_slot(vector@, self@.len(), p),
            decreases INNER_PROJECTIONS - proj,
        {
            proof {
                lemma_start_slot(vector@, self@.len(), proj as int);
            }
            out[proj] = inner_bucket(vector, proj) * slots_per_bucket;
            proj += 1;
        }
        assert(out@ =~= Seq::new(
            INNER_PROJECTIONS as nat,
            |p: int| start_slot(vector@, self@.len(), p) as usize,
        ));
        out
    }

    /// The first free slot that `vector` may lie in.
    fn free_slot(&self, vector: &U1024, depth: usize) -> (slot: Option<usize>)
        requires
            self.wf(),
            can_probe(self@.len(), depth as nat),
        ensures
            match slot {
                Some(i) => i < self@.len() && first_free(
                    self@,
                    probes(vector@, self@.len(), depth as nat),
                ) == Some(i as int),
                None => first_free(self@, probes(vector@, self@.len(), depth as nat)) is None,
            },
    {
        let starts = self.lsh_indices(vector);
        let max_size: usize = self.capacity;
        let ghost cap = self@.len();
        let bytes = region_bytes(&self.region);
        let mut proj: usize = 0;
        while proj < INNER_PROJECTIONS
            invariant
                self.wf(),
                proj <= INNER_PROJECTIONS,
                cap == self@.len(),
                can_probe(cap, depth as nat),
                max_size == cap,
                bytes@ == mapped(self.region),
                bytes@.len() == cap * RECORD_SIZE,
                starts@.len() == INNER_PROJECTIONS,
                forall|p: int|
                    0 <= p < INNER_PROJECTIONS ==> #[trigger] starts@[p] == start_slot(
                        vector@,
                        cap,
                        p,
                    ),
                first_free(self@, probes_of(vector@, cap, depth as nat, proj as nat)) is None,
            decreases INNER_PROJECTIONS - proj,
        {
            let start: usize = starts[proj];
            let mut probe: usize = 0;
            let ghost head = probes_of(vector@, cap, depth as nat, proj as nat);
            let ghost run = probe_run(start_slot(vector@, cap, proj as int), cap, depth as nat);
            assert(head + run.take(0) =~= head);
            while probe < depth
                invariant
                    self.wf(),
                    proj < INNER_PROJECTIONS,
                    probe <= depth,
                    cap == self@.len(),
                    can_probe(cap, depth as nat),
                    max_size == cap,
                    bytes@ == mapped(self.region),
                    bytes@.len() == cap * RECORD_SIZE,
                    start == start_slot(vector@, cap, proj as int),
                    head == probes_of(vector@, cap, depth as nat, proj as nat),
                    run == probe_run(start as nat, cap, depth as nat),
                    first_free(self@, head + run.take(probe as int)) is None,
                decreases depth - probe,
            {
                proof {
                    lemma_start_slot(vector@, cap, proj as int);
                }
                let idx: usize = (start + probe) % max_size;
                let ghost seen = head + run.take(probe + 1);
                proof {
                    assert(run[probe as int] == idx as int);
                    assert(seen.drop_last() =~= head + run.take(probe as int));
                    assert(seen.last() == idx as int);
                }
                if read_active(bytes, idx) == 0 {
                    proof {
                        let done = (proj + 1) as nat;
                        lemma_first_free_prefix(self@, seen, run.skip(probe + 1));
                        assert(seen + run.skip(probe + 1) =~= probes_of(
                            vector@,
                            cap,
                            depth as nat,
                            done,
                        ));
                        lemma_probes_of_prefix(
                            vector@,
                            cap,
                            depth as nat,
                            done,
                            INNER_PROJECTIONS as nat,
                        );
                        let more = choose|more: Seq<int>|
                            probes(vector@, cap, depth as nat) == #[trigger] (probes_of(
                                vector@,
                                cap,
                                depth as nat,
                                done,
                            ) + more);
                        lemma_first_free_prefix(
                            self@,
                            probes_of(vector@, cap, depth as nat, done),
                            more,
                        );
                    }
                    return Some(idx);
                }
                probe += 1;
            }
            assert(run.take(depth as int) =~= run);
            proj += 1;
        }
        None
    }

    /// Puts a record into the first free slot that `vector` may lie in; without
    /// one, leaves the file as it is.
    pub fn try_insert_local(&mut self, vector: &U1024, payload_id: u64, depth: usize) -> (stored:
        bool)
        requires
            old(self).wf(),
            can_probe(old(self)@.len(), depth as nat),
        ensures
            final(self).wf(),
            final(self)@.len() == old(self)@.len(),
            match first_free(old(self)@, probes(vector@, old(self)@.len(), depth as nat)) {
                Some(i) => stored && final(self)@ == with_record(
                    old(self)@,
                    i,
                    vector@,
                    payload_id,
                ),
                None => !stored && *final(self) == *old(self),
            },
    {
        match self.free_slot(vector, depth) {
            Some(i) => {
                write_record(region_bytes_mut(&mut self.region), i, vector, payload_id);
                true
            },
            None => false,
        }
    }

    /// The records in use that lie where `query` may lie, with their distances,
    /// in the order of the search.
    pub fn search_local(&self, query: &U1024, depth: usize) -> (found: Vec<(u64, u32)>)
        requires
            self.wf(),
            can_probe(self@.len(), depth as nat),
        ensures
            found@ == hits(self@, probes(query@, self@.len(), depth as nat), query@),
    {
        let starts = self.lsh_indices(query);
        let max_size: usize = self.capacity;
        let ghost cap = self@.len();
        let bytes = region_bytes(&self.region);
        let mut found: Vec<(u64, u32)> = Vec::new();
        let mut proj: usize = 0;
        while proj < INNER_PROJECTIONS
            invariant
                self.wf(),
                proj <= INNER_PROJECTIONS,
                cap == self@.len(),
                can_probe(cap, depth as nat),
                max_size == cap,
                bytes@ == mapped(self.region),
                bytes@.len() == cap * RECORD_SIZE,
                starts@.len() == INNER_PROJECTIONS,
                forall|p: int|
                    0 <= p < INNER_PROJECTIONS ==> #[trigger] starts@[p] == start_slot(
                        query@,
                        cap,
                        p,
                    ),
                found@ == hits(
                    self@,
                    probes_of(query@, cap, depth as nat, proj as nat),
                    query@,
                ),
            decreases INNER_PROJECTIONS - proj,
        {
            let start: usize = starts[proj];
            let mut probe: usize = 0;
            let ghost head = probes_of(query@, cap, depth as nat, proj as nat);
            let ghost run = probe_run(start_slot(query@, cap, proj as int), cap, depth as nat);
            assert(head + run.take(0) =~= head);
            while probe < depth
                invariant
                    self.wf(),
                    proj < INNER_PROJECTIONS,
                    probe <= depth,
                    cap == self@.len(),
                    can_probe(cap, depth as nat),
                    max_size == cap,
                    bytes@ == mapped(self.region),
                    bytes@.len() == cap * RECORD_SIZE,
                    start == start_slot(query@, cap, proj as int),
                    run == probe_run(start as nat, cap, depth as nat),
                    found@ == hits(self@, head + run.take(probe as int), query@),
                decreases depth - probe,
            {
                proof {
                    lemma_start_slot(query@, cap, proj as int);
                }
                let idx: usize = (start + probe) % max_size;
                proof {
                    let seen = head + run.take(probe + 1);
                    assert(run[probe as int] == idx as int);
                    assert(seen.drop_last() =~= head + run.take(probe as int));
                    assert(seen.last() == idx as int);
                }
                if read_active(bytes, idx) == 1 {
                    let record = read_record(bytes, idx);
                    let distance: u32 = (record.vector ^ *query).count_ones();
                    proof {
                        law_hamming_at_most_1024(record.vector, *query);
                    }
                    found.push((record.payload_id, distance));
                }
                probe += 1;
            }
            assert(run.take(depth as int) =~= run);
            proj += 1;
        }
        found
    }

    /// The first slot that holds a record in use with the given id.
    pub fn find_slot(&self, payload_id: u64) -> (slot: Option<usize>)
        requires
            self.wf(),
        ensures
            match slot {
                Some(i) => find(self@, payload_id) == Some(i as int),
                None => find(self@, payload_id) is None,
            },
    {
        let bytes = region_bytes(&self.region);
        let mut i: usize = 0;
        while i < self.capacity
            invariant
                self.wf(),
                i <= self.capacity,
                bytes@ == mapped(self.region),
                self@.len() == self.capacity,
                find(self@, payload_id) == find_from(self@, payload_id, i as int),
            decreases self.capacity - i,
        {
            if read_active(bytes, i) == 1 && read_payload_id(bytes, i) == payload_id {
                return Some(i);
            }
            i += 1;
        }
        None
    }

    /// The vector of the first record in use with the given id.
    pub fn get(&self, payload_id: u64) -> (vector: Option<U1024>)
        requires
            self.wf(),
        ensures
            match find(self@, payload_id) {
                Some(i) => vector is Some && vector->0@ == self@[i].vector,
                None => vector is None,
            },
    {
        proof {
            lemma_find_from(self@, payload_id, 0);
        }
        match self.find_slot(payload_id) {
            Some(i) => Some(read_record(region_bytes(&self.region), i).vector),
            None => None,
        }
    }

    /// Frees the slot of the first record in use with the given id.
    pub fn delete(&mut self, payload_id: u64) -> (deleted: bool)
        requires
            old(self).wf(),
        ensures
            final(self).wf(),
            final(self)@.len() == old(self)@.len(),
            match find(old(self)@, payload_id) {
                Some(i) => deleted && final(self)@ == without_record(old(self)@, i),
                None => !deleted && *final(self) == *old(self),
            },
    {
        proof {
            lemma_find_from(self@, payload_id, 0);
        }
        match self.find_slot(payload_id) {
            Some(i) => {
                write_active(region_bytes_mut(&mut self.region), i, 0);
                true
            },
            None => false,
        }
    }

    /// How many slots hold a record in use.
    pub fn len(&self) -> (n: usize)
        requires
            self.wf(),
        ensures
            n == in_use(self@),
            n <= self@.len(),
    {
        let bytes = region_bytes(&self.region);
        let mut n: usize = 0;
        let mut i: usize = 0;
        while i < self.capacity
            invariant
                self.wf(),
                i <= self.capacity,
                bytes@ == mapped(self.region),
                self@.len() == self.capacity,
                n == in_use(self@.take(i as int)),
                n <= i,
            decreases self.capacity - i,
        {
            proof {
                assert(self@.take(i + 1).drop_last() =~= self@.take(i as int));
            }
            if read_active(bytes, i) == 1 {
                n += 1;
            }
            i += 1;
        }
        assert(self@.take(self.capacity as int) =~= self@);
        n
    }
}

/// What is found lies in the file, holds the id, and nothing before it does.
pub proof fn lemma_find_from(slots: Seq<Record>, payload_id: u64, from: int)
    requires
        0 <= from,
    ensures
        match find_from(slots, payload_id, from) {
            Some(i) => from <= i < slots.len() && holds_id(slots, payload_id, i) && (forall|j: int|
                from <= j < i ==> !holds_id(slots, payload_id, j)),
            None => forall|j: int| from <= j < slots.len() ==> !holds_id(slots, payload_id, j),
        },
    decreases slots.len() - from,
{
    if from < slots.len() && !holds_id(slots, payload_id, from) {
        lemma_find_from(slots, payload_id, from + 1);
    }
}

proof fn lemma_probes_of_at(
    words: Seq<u64>,
    capacity: nat,
    depth: nat,
    n: nat,
    p: nat,
    k: nat,
)
    requires
        capacity > 0,
        p < n,
        k < depth,
    ensures
        p * depth + k < probes_of(words, capacity, depth, n).len(),
        probes_of(words, capacity, depth, n)[(p * depth + k) as int] == (start_slot(
            words,
            capacity,
            p as int,
        ) + k) % capacity,
    decreases n,
{
    let m = (n - 1) as nat;
    lemma_probes_of_in_file(words, capacity, depth, m);
    lemma_probes_of_in_file(words, capacity, depth, n);
    assert(n * depth == m * depth + depth) by (nonlinear_arith)
        requires
            n == m + 1,
    ;
    if p < m {
        lemma_probes_of_at(words, capacity, depth, m, p, k);
    }
}

/// Where a vector is looked for in a file, and in what order: each of the eight
/// inner hashes gives a bucket, a bucket is a share of the file, and from its start
/// on `depth` slots are tried one after another, around the end of the file.
pub proof fn law_probes_walk_from_each_bucket(
    words: Seq<u64>,
    capacity: nat,
    depth: nat,
    p: nat,
    k: nat,
)
    requires
        capacity > 0,
        p < 8,
        k < depth,
    ensures
        probes(words, capacity, depth).len() == 8 * depth,
        start_slot(words, capacity, p as int) == bucket(words, p as int) * (capacity / 1024),
        p * depth + k < probes(words, capacity, depth).len(),
        probes(words, capacity, depth)[(p * depth + k) as int] == (bucket(words, p as int) * (
        capacity / 1024) + k) % capacity,
{
    lemma_probes_len(words, capacity, depth);
    lemma_probes_of_at(words, capacity, depth, 8, p, k);
}

/// The slot that a record goes into is the first of those tried that is free, and
/// there is none exactly where none of them is free.
pub proof fn law_first_free_slot_is_taken(slots: Seq<Record>, tried: Seq<int>)
    ensures
        match first_free(slots, tried) {
            Some(i) => exists|k: int|
                #![trigger tried[k]]
                0 <= k < tried.len() && tried[k] == i && slots[i].is_active == 0 && forall|j: int|
                    0 <= j < k ==> slots[#[trigger] tried[j]].is_active != 0,
            None => forall|j: int|
                0 <= j < tried.len() ==> slots[#[trigger] tried[j]].is_active != 0,
        },
    decreases tried.len(),
{
    if tried.len() > 0 {
        let front = tried.drop_last();
        law_first_free_slot_is_taken(slots, front);
        match first_free(slots, front) {
            Some(i) => {
                let k = choose|k: int|
                    #![trigger front[k]]
                    0 <= k < front.len() && front[k] == i && slots[i].is_active == 0 && forall|
                        j: int,
                    |
                        0 <= j < k ==> slots[#[trigger] front[j]].is_active != 0;
                assert(tried[k] == i);
                assert forall|j: int| 0 <= j < k implies slots[#[trigger] tried[j]].is_active
                    != 0 by {
                    assert(front[j] == tried[j]);
                }
            },
            None => {
                assert forall|j: int| 0 <= j < front.len() implies slots[#[trigger] tried[
                    j]].is_active != 0 by {
                    assert(front[j] == tried[j]);
                }
                assert(tried[tried.len() - 1] == tried.last());
            },
        }
    }
}

/// Putting a record into a slot sets its vector, its id and its flag; freeing a
/// slot clears the flag. Nothing else changes.
pub proof fn law_only_the_slot_changes(
    slots: Seq<Record>,
    i: int,
    words: Seq<u64>,
    payload_id: u64,
    j: int,
)
    requires
        0 <= i < slots.len(),
        0 <= j < slots.len(),
    ensures
        with_record(slots, i, words, payload_id).len() == slots.len(),
        without_record(slots, i).len() == slots.len(),
        j != i ==> with_record(slots, i, words, payload_id)[j] == slots[j] && without_record(
            slots,
            i,
        )[j] == slots[j],
        ({
            let put = with_record(slots, i, words, payload_id)[i];
            let freed = without_record(slots, i)[i];
            &&& put.vector == words && put.payload_id == payload_id && put.is_active == 1
                && put.pad == slots[i].pad
            &&& freed.vector == slots[i].vector && freed.payload_id == slots[i].payload_id
                && freed.is_active == 0 && freed.pad == slots[i].pad
        }),
{
}

/// What is found in some slots and then in others is what is found in the first,
/// then what is found in the others.
pub proof fn law_hits_follow_the_order_of_slots(
    slots: Seq<Record>,
    a: Seq<int>,
    b: Seq<int>,
    query: Seq<u64>,
)
    ensures
        hits(slots, a + b, query) == hits(slots, a, query) + hits(slots, b, query),
    decreases b.len(),
{
    if b.len() == 0 {
        assert(a + b =~= a);
        assert(hits(slots, a, query) + hits(slots, b, query) =~= hits(slots, a, query));
    } else {
        assert((a + b).drop_last() =~= a + b.drop_last());
        law_hits_follow_the_order_of_slots(slots, a, b.drop_last(), query);
        assert(hits(slots, a + b, query) =~= hits(slots, a, query) + hits(slots, b, query));
    }
}

/// In one slot a record is found exactly where its flag is 1, with its id and its
/// distance.
pub proof fn law_hit_of_one_slot(slots: Seq<Record>, i: int, query: Seq<u64>)
    ensures
        hits(slots, seq![i], query) == if slots[i].is_active == 1 {
            seq![(slots[i].payload_id, hamming(slots[i].vector, query) as u32)]
        } else {
            Seq::empty()
        },
{
    assert(seq![i].drop_last() =~= Seq::<int>::empty());
    assert(hits(slots, Seq::<int>::empty(), query) =~= Seq::empty());
    assert(hits(slots, seq![i], query) =~= if slots[i].is_active == 1 {
        seq![(slots[i].payload_id, hamming(slots[i].vector, query) as u32)]
    } else {
        Seq::empty()
    });
}

/// What is found under an id is the first slot whose flag is 1 and that carries the
/// id, and nothing is found exactly where there is none.
pub proof fn law_first_slot_with_id_is_found(slots: Seq<Record>, payload_id: u64)
    ensures
        match find(slots, payload_id) {
            Some(i) => {
                &&& 0 <= i < slots.len()
                &&& slots[i].is_active == 1 && slots[i].payload_id == payload_id
                &&& forall|j: int|
                    0 <= j < i ==> !((#[trigger] slots[j]).is_active == 1 && slots[j].payload_id
                        == payload_id)
            },
            None => forall|j: int|
                0 <= j < slots.len() ==> !((#[trigger] slots[j]).is_active == 1
                    && slots[j].payload_id == payload_id),
        },
{
    lemma_first_with_id(slots, payload_id, 0);
}

proof fn lemma_first_with_id(slots: Seq<Record>, payload_id: u64, from: int)
    requires
        0 <= from,
    ensures
        match find_from(slots, payload_id, from) {
            Some(i) => {
                &&& from <= i < slots.len()
                &&& slots[i].is_active == 1 && slots[i].payload_id == payload_id
                &&& forall|j: int|
                    from <= j < i ==> !((#[trigger] slots[j]).is_active == 1
                        && slots[j].payload_id == payload_id)
            },
            None => forall|j: int|
                from <= j < slots.len() ==> !((#[trigger] slots[j]).is_active == 1
                    && slots[j].payload_id == payload_id),
        },
    decreases slots.len() - from,
{
    if from < slots.len() {
        lemma_first_with_id(slots, payload_id, from + 1);
    }
}

/// The records in use are counted slot by slot, each whose flag is 1 once.
pub proof fn law_records_in_use_are_counted(a: Seq<Record>, b: Seq<Record>, r: Record)
    ensures
        in_use(a + b) == in_use(a) + in_use(b),
        in_use(seq![r]) == if r.is_active == 1 {
            1nat
        } else {
            0
        },
    decreases b.len(),
{
    assert(seq![r].drop_last() =~= Seq::<Record>::empty());
    assert(in_use(Seq::<Record>::empty()) == 0);
    if b.len() == 0 {
        assert(a + b =~= a);
    } else {
        assert((a + b).drop_last() =~= a + b.drop_last());
        law_records_in_use_are_counted(a, b.drop_last(), r);
    }
}

/// A file can be probed where a machine word can hold the number of its last probe,
/// and where there is a slot to probe if any is to be.
pub proof fn law_what_can_be_probed(capacity: nat, depth: nat)
    ensures
        can_probe(capacity, depth) <==> capacity + depth <= usize::MAX && (depth == 0 || capacity
            > 0),
{
}

} // verus!
