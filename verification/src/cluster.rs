//! The cluster: chunks, the routing tables that spread vectors over them, and
//! what an operation has to write to the logs.
use crate::db::{
    all_hits, files_fit, opened_parts, overflows_fit, total_in_use, total_slots, DbState, Overflow,
    Placement, ThrushDB,
};
use crate::db_laws::{lemma_can_probe_extended, lemma_can_probe_kept};
use crate::lsh::{cluster_table_hash, lemma_hash_bounds, table_hash, NUM_TABLES, TABLE_SLOTS};
use crate::metadata::{delete_bytes, put_bytes, MetadataStore};
use crate::ranking::{best, is_ranking, sort_by_distance, top_hits};
use crate::record::{mapped, RECORD_SIZE};
use crate::segment::can_probe;
use crate::u1024::U1024;
use crate::wal::{delete_record, insert_record, op_bytes, LoggedOp};
use memmap2::MmapMut;
use vstd::prelude::*;
use vstd::utf8::encode_utf8;

verus! {

/// The sizes of a cluster.
#[derive(Clone, Copy, Debug)]
pub struct ClusterConfig {
    pub initial_chunks: usize,
    /// How many chunks there may be; 0 sets no limit.
    pub max_chunks: usize,
    pub chunk_capacity: usize,
    pub overflow_capacity: usize,
    pub probe_depth: usize,
}

impl Default for ClusterConfig {
    fn default() -> (config: ClusterConfig)
        ensures
            config == (ClusterConfig {
                initial_chunks: 16,
                max_chunks: 0,
                chunk_capacity: 1_048_576,
                overflow_capacity: 1_048_576,
                probe_depth: 256,
            }),
    {
        ClusterConfig {
            initial_chunks: 16,
            max_chunks: 0,
            chunk_capacity: 1_048_576,
            overflow_capacity: 1_048_576,
            probe_depth: 256,
        }
    }
}

impl ClusterConfig {
    /// How many chunks a cluster starts with: the number asked for, within the
    /// limit.
    pub open spec fn start_count(self) -> nat {
        if self.max_chunks > 0 && self.initial_chunks > self.max_chunks {
            self.max_chunks as nat
        } else {
            self.initial_chunks as nat
        }
    }

    /// Whether a cluster of `count` chunks may have one more.
    pub fn allows_more(&self, count: usize) -> (b: bool)
        ensures
            b == may_grow(*self, count as nat),
    {
        self.max_chunks == 0 || count < self.max_chunks
    }

    /// How many chunks a cluster starts with.
    pub fn initial_chunk_count(&self) -> (n: usize)
        ensures
            n == self.start_count(),
    {
        if self.max_chunks > 0 && self.initial_chunks > self.max_chunks {
            self.max_chunks
        } else {
            self.initial_chunks
        }
    }
}

/// How many bytes a file of `capacity` records has, if a file can be so long.
pub fn region_len(capacity: usize) -> (len: Option<usize>)
    ensures
        match len {
            Some(n) => n == capacity * RECORD_SIZE,
            None => capacity * RECORD_SIZE > usize::MAX,
        },
{
    capacity.checked_mul(RECORD_SIZE)
}

/// The length that a file must be given before it is mapped; none, where it has
/// that length.
pub fn resized(current: u64, needed: u64) -> (len: Option<u64>)
    ensures
        len == if current == needed {
            None::<u64>
        } else {
            Some(needed)
        },
{
    if current != needed {
        Some(needed)
    } else {
        None
    }
}

/// What the chunks of a cluster hold, which chunk each slot of the routing tables
/// leads to, the sizes, and where in the metadata log the text of each id is.
#[verifier::ext_equal]
pub struct ClusterState {
    pub chunks: Seq<DbState>,
    pub routes: Seq<Seq<usize>>,
    pub config: ClusterConfig,
    pub texts: Map<u64, u64>,
}

/// The first chunk from `from` on that holds a record with the given id.
pub open spec fn chunk_with_id(chunks: Seq<DbState>, payload_id: u64, from: int) -> Option<int>
    decreases chunks.len() - from,
{
    if from >= chunks.len() {
        None
    } else if chunks[from].lookup(payload_id) is Some {
        Some(from)
    } else {
        chunk_with_id(chunks, payload_id, from + 1)
    }
}

/// The chunks after each freed its first record with the given id.
pub open spec fn each_deleted(chunks: Seq<DbState>, payload_id: u64) -> Seq<DbState> {
    Seq::new(chunks.len(), |i: int| chunks[i].deleted(payload_id))
}

/// How many slots the chunks have.
pub open spec fn cluster_slots(chunks: Seq<DbState>) -> nat
    decreases chunks.len(),
{
    if chunks.len() == 0 {
        0
    } else {
        cluster_slots(chunks.drop_last()) + total_slots(chunks.last().parts)
    }
}

/// How many records are in use in the chunks.
pub open spec fn cluster_in_use(chunks: Seq<DbState>) -> nat
    decreases chunks.len(),
{
    if chunks.len() == 0 {
        0
    } else {
        cluster_in_use(chunks.drop_last()) + total_in_use(chunks.last().parts)
    }
}

/// What the first `n` of the given chunks find for a query, one after another.
pub open spec fn found_in(
    chunks: Seq<DbState>,
    picked: Seq<usize>,
    words: Seq<u64>,
    n: nat,
) -> Seq<(u64, u32)>
    decreases n,
{
    if n == 0 {
        Seq::empty()
    } else {
        let chunk = chunks[picked[n - 1] as int];
        found_in(chunks, picked, words, (n - 1) as nat) + all_hits(
            chunk.parts,
            words,
            chunk.probe_depth,
        )
    }
}

/// A hit with the place of the text of its id.
pub open spec fn with_text(index: Map<u64, u64>, hit: (u64, u32)) -> (u64, u32, Option<u64>) {
    (hit.0, hit.1, text_place(index, hit.0))
}

/// The place of the text of an id.
pub open spec fn text_place(index: Map<u64, u64>, id: u64) -> Option<u64> {
    if index.contains_key(id) {
        Some(index[id])
    } else {
        None
    }
}

/// An insertion under way.
#[verifier::ext_equal]
pub struct InsertionState {
    pub words: Seq<u64>,
    pub payload_id: u64,
    /// The chunks that the record goes to.
    pub targets: Seq<usize>,
    /// How many of them were dealt with.
    pub next: nat,
    /// Whether one of them took the record.
    pub any_ok: bool,
    /// The overflow files that were made for the target at hand and have no room
    /// for the record.
    pub files: Seq<MmapMut>,
}

impl InsertionState {
    /// The insertion after the target at hand was dealt with.
    pub open spec fn advanced(self, ok: bool) -> InsertionState {
        InsertionState {
            next: self.next + 1,
            any_ok: self.any_ok || ok,
            files: Seq::empty(),
            ..self
        }
    }
}

/// The chunks and the insertion after the record went to every target up to
/// the first that has no room for it.
pub open spec fn placed(chunks: Seq<DbState>, ins: InsertionState) -> (Seq<DbState>, InsertionState)
    decreases ins.targets.len() - ins.next,
{
    if ins.next >= ins.targets.len() {
        (chunks, ins)
    } else {
        let c = ins.targets[ins.next as int] as int;
        if chunks[c].has_room(ins.words) {
            placed(
                chunks.update(c, chunks[c].stored(ins.words, ins.payload_id)),
                ins.advanced(true),
            )
        } else {
            (chunks, ins)
        }
    }
}

/// The chunks and the insertion after an overflow file was made for the target at
/// hand, or could not be. Where none could be, or it has not the right size, the
/// target is passed over as it is. Where the files that were made have no room,
/// they are kept aside and one more is waited for. Otherwise they all belong to
/// the target, and the record lies in one of its files. Where no slot is ever
/// probed, the files are added without the record.
pub open spec fn answered(
    chunks: Seq<DbState>,
    ins: InsertionState,
    region: Option<MmapMut>,
) -> (Seq<DbState>, InsertionState) {
    let c = ins.targets[ins.next as int] as int;
    match region {
        Some(m) if overflows_fit(ins.files.push(m), chunks[c].overflow_capacity) => {
            let more = chunks[c].extended(opened_parts(ins.files.push(m)));
            if more.has_room(ins.words) || more.probe_depth == 0 {
                (chunks.update(c, more.stored(ins.words, ins.payload_id)), ins.advanced(true))
            } else {
                (chunks, InsertionState { files: ins.files.push(m), ..ins })
            }
        },
        _ => (chunks, ins.advanced(false)),
    }
}

impl ClusterState {
    /// The cluster with other chunks.
    pub open spec fn with_chunks(self, chunks: Seq<DbState>) -> ClusterState {
        ClusterState { chunks, ..self }
    }

    /// The chunks that the routing tables give a vector.
    pub open spec fn targets(self, words: Seq<u64>) -> Seq<usize> {
        Seq::new(
            NUM_TABLES as nat,
            |t: int| self.routes[t][table_hash(words, t) as int],
        )
    }

    /// All that a search for a vector finds, before it is ranked.
    pub open spec fn candidates(self, words: Seq<u64>) -> Seq<(u64, u32)> {
        found_in(self.chunks, self.targets(words), words, NUM_TABLES as nat)
    }

    /// Whether vectors can be placed and searched: there is a chunk, and every
    /// chunk can be probed.
    pub open spec fn ready(self) -> bool {
        &&& self.chunks.len() > 0
        &&& forall|c: int|
            0 <= c < self.chunks.len() ==> (#[trigger] self.chunks[c]).can_probe()
    }

    /// The vector of the first record with the given id.
    pub open spec fn lookup(self, payload_id: u64) -> Option<Seq<u64>> {
        match chunk_with_id(self.chunks, payload_id, 0) {
            Some(c) => self.chunks[c].lookup(payload_id),
            None => None,
        }
    }

    /// The cluster with one more chunk, to which one slot of a routing table
    /// leads.
    pub open spec fn expanded(self, table: int, slot: int, chunk: DbState) -> ClusterState {
        ClusterState {
            chunks: self.chunks.push(chunk),
            routes: self.routes.update(
                table,
                self.routes[table].update(slot, self.chunks.len() as usize),
            ),
            ..self
        }
    }

    /// The start of an insertion.
    pub open spec fn insertion(self, words: Seq<u64>, payload_id: u64) -> InsertionState {
        InsertionState {
            words,
            payload_id,
            targets: self.targets(words),
            next: 0,
            any_ok: false,
            files: Seq::empty(),
        }
    }
}

/// An insertion under way: the record, the chunks it goes to, and how far it
/// has come.
pub struct Insertion {
    vector: U1024,
    payload_id: u64,
    targets: [usize; 3],
    next: usize,
    any_ok: bool,
    files: Vec<MmapMut>,
}

impl View for Insertion {
    type V = InsertionState;

    closed spec fn view(&self) -> InsertionState {
        InsertionState {
            words: self.vector@,
            payload_id: self.payload_id,
            targets: self.targets@,
            next: self.next as nat,
            any_ok: self.any_ok,
            files: self.files@,
        }
    }
}

impl Insertion {
    /// Whether every target was dealt with.
    pub fn is_complete(&self) -> (complete: bool)
        ensures
            complete == (self@.next >= NUM_TABLES),
    {
        self.next >= NUM_TABLES
    }
}

/// Whether an insertion belongs to the given chunks.
pub open spec fn fits(ins: InsertionState, chunks: Seq<DbState>) -> bool {
    &&& ins.targets.len() == NUM_TABLES
    &&& forall|t: int| 0 <= t < NUM_TABLES ==> (#[trigger] ins.targets[t]) < chunks.len()
    &&& ins.files.len() > 0 ==> ins.next < NUM_TABLES && chunks[ins.targets[ins.next as int] as int]
        .parts.len() + ins.files.len() <= usize::MAX
}

/// The overflow file that an insertion waits for.
pub struct OverflowRequest {
    pub chunk: usize,
    pub overflow: usize,
    pub capacity: usize,
    /// How many slots from each start will be probed in it.
    pub depth: usize,
}

/// What has to be appended to the logs for an insertion.
pub struct InsertRecords {
    pub metadata: Option<Vec<u8>>,
    pub wal: Vec<u8>,
}

/// What has to be appended to the logs for a deletion.
pub struct DeleteRecords {
    pub metadata: Option<Vec<u8>>,
    pub wal: Vec<u8>,
}

/// A thing that a flush has to do.
pub enum FlushStep<'a> {
    /// Write a mapping to disk.
    Region(&'a MmapMut),
    /// Write the metadata log to disk.
    Metadata,
    /// Empty the write-ahead log.
    EmptyWal,
    /// Nothing: all was done.
    Done,
}

/// Chunks, routing tables and the index of the metadata log.
pub struct ThrushCluster {
    chunks: Vec<ThrushDB>,
    routing_tables: [[usize; 256]; 3],
    pub config: ClusterConfig,
    pub metadata: MetadataStore,
}

impl View for ThrushCluster {
    type V = ClusterState;

    closed spec fn view(&self) -> ClusterState {
        ClusterState {
            chunks: Seq::new(self.chunks@.len(), |i: int| self.chunks@[i]@),
            routes: Seq::new(NUM_TABLES as nat, |t: int| self.routing_tables@[t]@),
            config: self.config,
            texts: self.metadata@,
        }
    }
}

impl ThrushCluster {
    /// Every chunk is sound and of the sizes that the configuration sets, and
    /// every route leads to a chunk, or to the first one while there is none.
    pub closed spec fn wf(self) -> bool {
        &&& forall|i: int| 0 <= i < self.chunks@.len() ==> (#[trigger] self.chunks@[i]).wf()
        &&& routes_lead_to_chunks(self@)
        &&& keeps_config(self@)
    }

    /// The mappings of the files of each chunk.
    pub closed spec fn chunk_mappings(self) -> Seq<Seq<MmapMut>> {
        Seq::new(self.chunks@.len(), |i: int| self.chunks@[i].mappings())
    }

    /// The mappings of all files, chunk by chunk.
    pub open spec fn mappings(self) -> Seq<MmapMut> {
        self.chunk_mappings().flatten_alt()
    }

    /// What the invariant says of the routes and the sizes, and that the mappings
    /// hold the records of the chunks and nothing else: what a flush writes to
    /// disk.
    pub proof fn lemma_wf(self)
        requires
            self.wf(),
        ensures
            routes_lead_to_chunks(self@),
            keeps_config(self@),
            self.chunk_mappings().len() == self@.chunks.len(),
            forall|c: int|
                #![trigger self.chunk_mappings()[c]]
                0 <= c < self@.chunks.len() ==> {
                    let files = self.chunk_mappings()[c];
                    let chunk = self@.chunks[c];
                    &&& opened_parts(files) == chunk.parts
                    &&& files_fit(files, chunk.parts[0].len(), chunk.overflow_capacity)
                    &&& forall|p: int|
                        0 <= p < chunk.parts.len() ==> mapped(#[trigger] files[p]).len()
                            == chunk.parts[p].len() * RECORD_SIZE
                },
    {
        assert forall|c: int|
            #![trigger self.chunk_mappings()[c]]
            0 <= c < self@.chunks.len() implies {
            let files = self.chunk_mappings()[c];
            let chunk = self@.chunks[c];
            &&& opened_parts(files) == chunk.parts
            &&& files_fit(files, chunk.parts[0].len(), chunk.overflow_capacity)
            &&& forall|p: int|
                0 <= p < chunk.parts.len() ==> mapped(#[trigger] files[p]).len()
                    == chunk.parts[p].len() * RECORD_SIZE
        } by {
            assert(self.chunks@[c].wf());
            self.chunks@[c].lemma_wf();
        }
    }

    /// Opens a cluster over the mappings of its chunks: for each, its file and
    /// its overflow files. There must be as many chunks as the configuration
    /// starts with, or more, within its limit, and every mapping must be as long
    /// as its records; otherwise the cluster is refused.
    pub fn new(
        regions: Vec<Vec<MmapMut>>,
        config: ClusterConfig,
        metadata: MetadataStore,
    ) -> (r: Option<ThrushCluster>)
        ensures
            r is Some <==> openable(lists(regions@), config),
            r matches Some(cluster) ==> {
                &&& cluster.wf()
                &&& cluster@ == opened(lists(regions@), config, metadata@)
                &&& cluster.chunk_mappings() == lists(regions@)
            },
    {
        let initial: usize = config.initial_chunk_count();
        let ghost all = lists(regions@);
        let given: usize = regions.len();
        if given < initial || (config.max_chunks > 0 && given > config.max_chunks) {
            return None;
        }
        let mut regions = regions;
        let mut chunks: Vec<ThrushDB> = Vec::new();
        #[verifier::loop_isolation(false)]
        while regions.len() > 0
            invariant
                chunks@.len() + regions@.len() == all.len(),
                lists(regions@) == all.skip(chunks@.len() as int),
                forall|i: int|
                    0 <= i < chunks@.len() ==> (#[trigger] chunks@[i]).wf() && chunks@[i]@
                        == opened_chunk(all[i], config) && chunks@[i].mappings() == all[i]
                        && chunks@[i]@.parts[0].len() == config.chunk_capacity && files_fit(
                        all[i],
                        config.chunk_capacity as nat,
                        config.overflow_capacity as nat,
                    ),
            decreases regions@.len(),
        {
            let ghost n = chunks@.len() as int;
            assert(lists(regions@)[0] == all[n]);
            let ghost before = regions@;
            let files = regions.remove(0);
            assert(lists(regions@) =~= lists(before).skip(1));
            assert(lists(regions@) =~= all.skip(n + 1));
            match ThrushDB::new_at(
                files,
                config.chunk_capacity,
                config.overflow_capacity,
                config.probe_depth,
            ) {
                Some(db) => {
                    chunks.push(db);
                },
                None => {
                    assert(!files_fit(
                        all[n],
                        config.chunk_capacity as nat,
                        config.overflow_capacity as nat,
                    ));
                    return None;
                },
            }
        }
        let count: usize = if initial > 1 {
            initial
        } else {
            1
        };
        let mut row: [usize; 256] = [0; 256];
        let mut slot: usize = 0;
        while slot < TABLE_SLOTS
            invariant
                slot <= TABLE_SLOTS,
                count > 0,
                count as nat == (if initial > 1 {
                    initial as nat
                } else {
                    1
                }),
                forall|s: int| 0 <= s < slot ==> row@[s] == first_route(s, initial as nat),
            decreases TABLE_SLOTS - slot,
        {
            row[slot] = slot % count;
            slot += 1;
        }
        let cluster = ThrushCluster { chunks, routing_tables: [row, row, row], config, metadata };
        proof {
            assert forall|i: int| 0 <= i < all.len() implies files_fit(
                #[trigger] all[i],
                config.chunk_capacity as nat,
                config.overflow_capacity as nat,
            ) by {
                assert(chunks@[i].wf());
            }
            assert(cluster@.chunks =~= opened(all, config, metadata@).chunks);
            assert(cluster.chunk_mappings() =~= all);
            assert(row@ =~= Seq::new(
                TABLE_SLOTS as nat,
                |slot: int| first_route(slot, config.start_count()),
            ));
            assert(cluster@.routes =~= first_routes(config.start_count()));
        }
        Some(cluster)
    }

    /// Whether vectors can be placed and searched.
    pub fn is_ready(&self) -> (ready: bool)
        requires
            self.wf(),
        ensures
            ready == self@.ready(),
    {
        let mut i: usize = 0;
        while i < self.chunks.len()
            invariant
                i <= self.chunks@.len(),
                self.wf(),
                forall|c: int|
                    0 <= c < i ==> (#[trigger] self@.chunks[c]).can_probe(),
            decreases self.chunks@.len() - i,
        {
            assert(self@.chunks[i as int] == self.chunks@[i as int]@);
            if !self.chunks[i].is_probeable() {
                return false;
            }
            i += 1;
        }
        self.chunks.len() > 0
    }

    /// The chunks that the routing tables give `vector`.
    pub fn target_chunks(&self, vector: &U1024) -> (targets: [usize; 3])
        requires
            self.wf(),
        ensures
            targets@ == self@.targets(vector@),
            self@.chunks.len() > 0 ==> forall|t: int|
                0 <= t < NUM_TABLES ==> (#[trigger] targets@[t]) < self@.chunks.len(),
    {
        let h0: usize = cluster_table_hash(vector, 0);
        let h1: usize = cluster_table_hash(vector, 1);
        let h2: usize = cluster_table_hash(vector, 2);
        let targets: [usize; 3] = [
            self.routing_tables[0][h0],
            self.routing_tables[1][h1],
            self.routing_tables[2][h2],
        ];
        proof {
            lemma_hash_bounds(vector@);
            assert(targets@ =~= self@.targets(vector@));
            assert forall|t: int|
                0 <= t < NUM_TABLES && self@.chunks.len() > 0 implies (#[trigger] targets@[t])
                < self@.chunks.len() by {
                assert(self@.routes[t][table_hash(vector@, t) as int] == targets@[t]);
            }
        }
        targets
    }

    /// Starts the insertion of a record. It then goes on with `insert_internal`.
    pub fn begin_insert(&self, vector: U1024, payload_id: u64) -> (ins: Insertion)
        requires
            self.wf(),
            self@.chunks.len() > 0,
        ensures
            ins@ == self@.insertion(vector@, payload_id),
            fits(ins@, self@.chunks),
    {
        let targets = self.target_chunks(&vector);
        let ins = Insertion {
            vector,
            payload_id,
            targets,
            next: 0,
            any_ok: false,
            files: Vec::new(),
        };
        assert(ins@ =~= self@.insertion(vector@, payload_id));
        ins
    }

    /// Stores the record in its target chunks, one after another, until one of
    /// them has no room for it: then the overflow file to be handed to
    /// `overflow_internal` is named. Where none is, all targets were dealt
    /// with.
    pub fn insert_internal(&mut self, ins: &mut Insertion) -> (want: Option<OverflowRequest>)
        requires
            old(self).wf(),
            old(self)@.ready(),
            fits(old(ins)@, old(self)@.chunks),
        ensures
            final(self).wf(),
            final(self)@.ready(),
            fits(final(ins)@, final(self)@.chunks),
            (final(self)@.chunks, final(ins)@) == placed(old(self)@.chunks, old(ins)@),
            final(self)@.routes == old(self)@.routes,
            final(self)@.config == old(self)@.config,
            final(self)@.texts == old(self)@.texts,
            match want {
                Some(request) => {
                    &&& final(ins)@.next < NUM_TABLES
                    &&& request.chunk == final(ins)@.targets[final(ins)@.next as int]
                    &&& request.overflow == final(self)@.chunks[request.chunk as int].parts.len()
                        + final(ins)@.files.len()
                    &&& request.capacity == final(self)@.chunks[request.chunk as int].overflow_capacity
                    &&& request.depth == final(self)@.chunks[request.chunk as int].probe_depth
                },
                None => final(ins)@.next >= NUM_TABLES,
            },
    {
        while ins.next < NUM_TABLES
            invariant
                self.wf(),
                self@.ready(),
                fits(ins@, self@.chunks),
                placed(self@.chunks, ins@) == placed(old(self)@.chunks, old(ins)@),
                self@.routes == old(self)@.routes,
                self@.config == old(self)@.config,
                self@.texts == old(self)@.texts,
            decreases NUM_TABLES - ins.next,
        {
            let ghost before = self@.chunks;
            let ghost state = ins@;
            let chunk: usize = ins.targets[ins.next];
            proof {
                assert(ins@.targets[ins@.next as int] == chunk);
                assert(self@.chunks[chunk as int] == self.chunks@[chunk as int]@);
                assert(self@.chunks[chunk as int].can_probe());
            }
            let ghost old_chunks = self.chunks@;
            let placement = self.chunks[chunk].insert(ins.vector, ins.payload_id);
            proof {
                lemma_can_probe_kept(before[chunk as int], ins.vector@, ins.payload_id);
                assert(self.chunks@ =~= old_chunks.update(
                    chunk as int,
                    self.chunks@[chunk as int],
                ));
                assert(self@.chunks =~= before.update(
                    chunk as int,
                    before[chunk as int].stored(state.words, state.payload_id),
                ));
                assert forall|c: int| 0 <= c < self@.chunks.len() implies (
                #[trigger] self@.chunks[c]).can_probe() by {
                    assert(before[c].can_probe());
                }
            }
            match placement {
                Placement::Stored => {
                    ins.any_ok = true;
                    ins.next = ins.next + 1;
                    ins.files = Vec::new();
                    assert(ins@ =~= state.advanced(true));
                },
                Placement::Full { overflow } => {
                    assert(self@.chunks =~= before);
                    return Some(
                        OverflowRequest {
                            chunk,
                            overflow: overflow + ins.files.len(),
                            capacity: self.chunks[chunk].overflow_capacity(),
                            depth: self.chunks[chunk].probe_depth(),
                        },
                    );
                },
            }
        }
        None
    }

    /// Gives the target chunk that an insertion waits at its overflow file, or
    /// passes over the chunk where there is no mapping of the right size. Where
    /// the file has no room for the record, it is kept until one has. The
    /// insertion then goes on with `insert_internal`.
    pub fn overflow_internal(&mut self, ins: &mut Insertion, region: Option<MmapMut>)
        requires
            old(self).wf(),
            old(self)@.ready(),
            fits(old(ins)@, old(self)@.chunks),
            old(ins)@.next < NUM_TABLES,
            region is Some ==> can_probe(
                old(self)@.chunks[old(ins)@.targets[old(ins)@.next as int] as int].overflow_capacity,
                old(self)@.chunks[old(ins)@.targets[old(ins)@.next as int] as int].probe_depth,
            ),
        ensures
            final(self).wf(),
            final(self)@.ready(),
            fits(final(ins)@, final(self)@.chunks),
            final(self)@.routes == old(self)@.routes,
            final(self)@.config == old(self)@.config,
            final(self)@.texts == old(self)@.texts,
            (final(self)@.chunks, final(ins)@) == answered(
                old(self)@.chunks,
                old(ins)@,
                region,
            ),
    {
        let ghost before = self@.chunks;
        let ghost old_chunks = self.chunks@;
        let ghost state = ins@;
        let chunk: usize = ins.targets[ins.next];
        proof {
            assert(ins@.targets[ins@.next as int] == chunk);
            assert(self@.chunks[chunk as int] == self.chunks@[chunk as int]@);
            assert(self@.chunks[chunk as int].can_probe());
        }
        let mut files: Vec<MmapMut> = Vec::new();
        std::mem::swap(&mut files, &mut ins.files);
        if let Some(m) = region {
            files.push(m);
            let ghost handed = files@;
            let r = self.chunks[chunk].insert_overflow(files, ins.vector, ins.payload_id);
            proof {
                assert(self.chunks@ =~= old_chunks.update(
                    chunk as int,
                    self.chunks@[chunk as int],
                ));
                assert(self@.chunks =~= before.update(chunk as int, self.chunks@[chunk as int]@));
                let parts = opened_parts(handed);
                if overflows_fit(handed, before[chunk as int].overflow_capacity) {
                    assert forall|i: int| 0 <= i < parts.len() implies can_probe(
                        (#[trigger] parts[i]).len(),
                        before[chunk as int].probe_depth,
                    ) by {
                        assert(mapped(handed[i]).len() == before[chunk as int].overflow_capacity
                            * RECORD_SIZE);
                    }
                    lemma_can_probe_extended(before[chunk as int], parts);
                    lemma_can_probe_kept(
                        before[chunk as int].extended(parts),
                        ins.vector@,
                        ins.payload_id,
                    );
                }
                assert forall|c: int| 0 <= c < self@.chunks.len() implies (
                #[trigger] self@.chunks[c]).can_probe() by {
                    assert(before[c].can_probe());
                }
            }
            match r {
                Ok(Overflow::Added) => {
                    ins.any_ok = true;
                    ins.next = ins.next + 1;
                    assert(ins@ =~= state.advanced(true));
                },
                Ok(Overflow::Full { files, overflow }) => {
                    ins.files = files;
                    assert(self@.chunks =~= before);
                    assert(ins@ =~= (InsertionState { files: handed, ..state }));
                },
                Err(_) => {
                    ins.next = ins.next + 1;
                    assert(self@.chunks =~= before);
                    assert(ins@ =~= state.advanced(false));
                },
            }
        } else {
            ins.next = ins.next + 1;
            assert(ins@ =~= state.advanced(false));
        }
    }

    /// Ends an insertion: it failed where no target took the record; otherwise
    /// the records for the logs are handed out.
    pub fn insert(ins: &Insertion, text_metadata: Option<&str>) -> (r: Result<
        InsertRecords,
        &'static str,
    >)
        requires
            ins@.next >= NUM_TABLES,
        ensures
            match r {
                Ok(out) => {
                    &&& ins@.any_ok
                    &&& out.wal@ == op_bytes(
                        LoggedOp::Insert { payload_id: ins@.payload_id, words: ins@.words },
                    )
                    &&& match text_metadata {
                        Some(text) => out.metadata is Some && out.metadata->0@ == put_bytes(
                            ins@.payload_id,
                            encode_utf8(text@),
                        ),
                        None => out.metadata is None,
                    }
                },
                Err(e) => !ins@.any_ok && e@ == "Insertion failed across all targets."@,
            },
    {
        if !ins.any_ok {
            return Err("Insertion failed across all targets.");
        }
        let metadata: Option<Vec<u8>> = match text_metadata {
            Some(text) => Some(MetadataStore::put_record(ins.payload_id, text)),
            None => None,
        };
        Ok(InsertRecords { metadata, wal: insert_record(ins.payload_id, &ins.vector) })
    }

    /// The `k` nearest records in the chunks that `query` is routed to, each
    /// with the place of its text, nearest first. An id can come up again where
    /// another hit at the same distance stands between.
    pub fn search(&self, query: U1024, k: usize) -> (top: Vec<(u64, u32, Option<u64>)>)
        requires
            self.wf(),
            self@.ready(),
        ensures
            exists|ranking: Seq<(u64, u32)>| #[trigger]
                is_ranking(ranking, self@.candidates(query@)) && top@ == best(
                    ranking,
                    k as nat,
                ).map_values(|hit: (u64, u32)| with_text(self@.texts, hit)),
    {
        let targets = self.target_chunks(&query);
        let mut all: Vec<(u64, u32)> = Vec::new();
        let mut t: usize = 0;
        while t < NUM_TABLES
            invariant
                t <= NUM_TABLES,
                self.wf(),
                self@.ready(),
                targets@ == self@.targets(query@),
                forall|i: int|
                    0 <= i < NUM_TABLES ==> (#[trigger] targets@[i]) < self@.chunks.len(),
                all@ == found_in(self@.chunks, targets@, query@, t as nat),
            decreases NUM_TABLES - t,
        {
            let chunk: usize = targets[t];
            proof {
                assert(targets@[t as int] < self@.chunks.len());
                assert(self@.chunks[chunk as int] == self.chunks@[chunk as int]@);
                assert(self@.chunks[chunk as int].can_probe());
            }
            let mut more = self.chunks[chunk].search(query, k);
            all.append(&mut more);
            t += 1;
        }
        sort_by_distance(&mut all);
        let ghost ranking = all@;
        let hits = top_hits(&all, k);
        let mut top: Vec<(u64, u32, Option<u64>)> = Vec::new();
        let mut i: usize = 0;
        while i < hits.len()
            invariant
                i <= hits@.len(),
                top@.len() == i,
                forall|j: int| 0 <= j < i ==> #[trigger] top@[j] == with_text(
                    self.metadata@,
                    hits@[j],
                ),
            decreases hits@.len() - i,
        {
            let (id, distance) = hits[i];
            top.push((id, distance, self.metadata.locate(id)));
            i += 1;
        }
        proof {
            let expected = best(ranking, k as nat).map_values(
                |hit: (u64, u32)| with_text(self@.texts, hit),
            );
            assert(top@ =~= expected);
            assert(is_ranking(ranking, self@.candidates(query@)));
        }
        top
    }

    /// Deletes an id. Where a chunk held it, the records for the logs are
    /// handed out.
    pub fn delete(&mut self, payload_id: u64) -> (deleted: Option<DeleteRecords>)
        requires
            old(self).wf(),
        ensures
            final(self).wf(),
            final(self)@.chunks == each_deleted(old(self)@.chunks, payload_id),
            final(self)@.routes == old(self)@.routes,
            final(self)@.config == old(self)@.config,
            old(self)@.ready() ==> final(self)@.ready(),
            match deleted {
                Some(out) => {
                    &&& old(self)@.lookup(payload_id) is Some
                    &&& final(self)@.texts == old(self)@.texts.remove(payload_id)
                    &&& out.wal@ == op_bytes(LoggedOp::Delete { payload_id })
                    &&& match out.metadata {
                        Some(bytes) => old(self)@.texts.contains_key(payload_id) && bytes@
                            == delete_bytes(payload_id),
                        None => !old(self)@.texts.contains_key(payload_id),
                    }
                },
                None => old(self)@.lookup(payload_id) is None && final(self)@.texts == old(self)@.texts,
            },
    {
        if self.delete_internal(payload_id) {
            let metadata = self.metadata.delete(payload_id);
            Some(DeleteRecords { metadata, wal: delete_record(payload_id) })
        } else {
            None
        }
    }

    /// Frees the first record with the given id in every chunk.
    pub fn delete_internal(&mut self, payload_id: u64) -> (deleted: bool)
        requires
            old(self).wf(),
        ensures
            final(self).wf(),
            final(self)@.chunks == each_deleted(old(self)@.chunks, payload_id),
            final(self)@.routes == old(self)@.routes,
            final(self)@.config == old(self)@.config,
            final(self)@.texts == old(self)@.texts,
            deleted <==> old(self)@.lookup(payload_id) is Some,
            old(self)@.ready() ==> final(self)@.ready(),
    {
        let mut deleted: bool = false;
        let mut i: usize = 0;
        let ghost before = self@.chunks;
        while i < self.chunks.len()
            invariant
                i <= self.chunks@.len(),
                self.wf(),
                before == old(self)@.chunks,
                self@.chunks.len() == before.len(),
                forall|c: int|
                    0 <= c < i ==> #[trigger] self@.chunks[c] == before[c].deleted(payload_id),
                forall|c: int|
                    i <= c < before.len() ==> #[trigger] self@.chunks[c] == before[c],
                self@.routes == old(self)@.routes,
                self@.config == old(self)@.config,
                self@.texts == old(self)@.texts,
                deleted ==> chunk_with_id(before, payload_id, 0) is Some,
                !deleted ==> chunk_with_id(before, payload_id, 0) == chunk_with_id(
                    before,
                    payload_id,
                    i as int,
                ),
            decreases self.chunks@.len() - i,
        {
            let ghost old_chunks = self.chunks@;
            let ghost state = self@.chunks;
            proof {
                assert(self@.chunks[i as int] == self.chunks@[i as int]@);
            }
            let gone: bool = self.chunks[i].delete(payload_id);
            proof {
                assert(self.chunks@ =~= old_chunks.update(i as int, self.chunks@[i as int]));
                assert(self@.chunks =~= state.update(i as int, self.chunks@[i as int]@));
            }
            if gone {
                deleted = true;
            }
            i += 1;
        }
        proof {
            lemma_chunk_with_id(before, payload_id, 0);
            assert(self@.chunks =~= each_deleted(before, payload_id));
            if old(self)@.ready() {
                assert forall|c: int| 0 <= c < self@.chunks.len() implies (
                #[trigger] self@.chunks[c]).can_probe() by {
                    assert(before[c].can_probe());
                    lemma_can_probe_kept(before[c], Seq::empty(), payload_id);
                }
            }
        }
        deleted
    }

    /// The vector of the first record with the given id, and the place of its
    /// text.
    pub fn get(&self, payload_id: u64) -> (r: Option<(U1024, Option<u64>)>)
        requires
            self.wf(),
        ensures
            match self@.lookup(payload_id) {
                Some(words) => r is Some && (r->0).0@ == words && (r->0).1 == text_place(
                    self@.texts,
                    payload_id,
                ),
                None => r is None,
            },
    {
        let mut i: usize = 0;
        while i < self.chunks.len()
            invariant
                i <= self.chunks@.len(),
                self.wf(),
                chunk_with_id(self@.chunks, payload_id, 0) == chunk_with_id(
                    self@.chunks,
                    payload_id,
                    i as int,
                ),
            decreases self.chunks@.len() - i,
        {
            proof {
                assert(self@.chunks[i as int] == self.chunks@[i as int]@);
            }
            if let Some(vector) = self.chunks[i].get(payload_id) {
                return Some((vector, self.metadata.locate(payload_id)));
            }
            i += 1;
        }
        None
    }

    /// Notes that the record of the text of an id was written to the metadata
    /// log at `end`.
    pub fn text_written(&mut self, payload_id: u64, end: u64)
        requires
            old(self).wf(),
            end < u64::MAX,
        ensures
            final(self).wf(),
            final(self)@ == (ClusterState {
                texts: old(self)@.texts.insert(payload_id, (end + 1) as u64),
                ..old(self)@
            }),
    {
        self.metadata.put(payload_id, end);
    }

    /// What a flush has to do once it did `done` things without a failure: every
    /// mapping is written to disk, then the metadata log is, and only then is
    /// the write-ahead log emptied. A failure ends the flush where it is.
    pub fn flush(&self, done: usize) -> (step: FlushStep<'_>)
        requires
            self.wf(),
        ensures
            match step {
                FlushStep::Region(region) => done < self.mappings().len() && *region
                    == self.mappings()[done as int],
                FlushStep::Metadata => done == self.mappings().len(),
                FlushStep::EmptyWal => done == self.mappings().len() + 1,
                FlushStep::Done => done > self.mappings().len() + 1,
            },
    {
        let mut rest: usize = done;
        let mut i: usize = 0;
        let ghost lists = self.chunk_mappings();
        assert(lists.take(0) =~= Seq::empty());
        while i < self.chunks.len()
            invariant
                i <= self.chunks@.len(),
                self.wf(),
                lists == self.chunk_mappings(),
                done == lists.take(i as int).flatten_alt().len() + rest,
            decreases self.chunks@.len() - i,
        {
            let ghost before = lists.take(i as int).flatten_alt();
            proof {
                assert(lists.take(i + 1).drop_last() =~= lists.take(i as int));
                lemma_joined_prefix(lists, i + 1);
                assert(self.chunks@[i as int].wf());
            }
            let count: usize = self.chunks[i].mapping_count();
            if rest < count {
                if let Some(region) = self.chunks[i].flush(rest) {
                    assert(self.mappings()[done as int] == (before
                        + self.chunks@[i as int].mappings())[done as int]);
                    return FlushStep::Region(region);
                }
            } else {
                rest = rest - count;
            }
            i += 1;
        }
        assert(lists.take(self.chunks@.len() as int) =~= lists);
        if rest == 0 {
            FlushStep::Metadata
        } else if rest == 1 {
            FlushStep::EmptyWal
        } else {
            FlushStep::Done
        }
    }

    /// The number of the chunk that the cluster may grow by; none, where it has
    /// as many as it may have.
    pub fn next_chunk(&self) -> (next: Option<usize>)
        requires
            self.wf(),
        ensures
            match next {
                Some(n) => n == self@.chunks.len() && may_grow(self@.config, self@.chunks.len()),
                None => !may_grow(self@.config, self@.chunks.len()),
            },
    {
        let count: usize = self.chunks.len();
        if self.config.allows_more(count) {
            Some(count)
        } else {
            None
        }
    }

    /// Adds a chunk over `region` and leads one slot of a routing table to it.
    pub fn try_expand(
        &mut self,
        table_idx: usize,
        slot_idx: usize,
        region: Option<MmapMut>,
    ) -> (r: Result<(), &'static str>)
        requires
            old(self).wf(),
            table_idx < NUM_TABLES,
            slot_idx < TABLE_SLOTS,
        ensures
            final(self).wf(),
            final(self)@.config == old(self)@.config,
            final(self)@.texts == old(self)@.texts,
            match region {
                _ if !may_grow(old(self)@.config, old(self)@.chunks.len()) => {
                    &&& r is Err
                    &&& r->Err_0@ == "Max chunks reached."@
                    &&& final(self)@ == old(self)@
                },
                Some(m) if mapped(m).len() == old(self)@.config.chunk_capacity * RECORD_SIZE => {
                    &&& r is Ok
                    &&& final(self)@ == old(self)@.expanded(
                        table_idx as int,
                        slot_idx as int,
                        opened_chunk(seq![m], old(self)@.config),
                    )
                    &&& final(self).chunk_mappings() == old(self).chunk_mappings().push(seq![m])
                },
                _ => {
                    &&& r is Err
                    &&& r->Err_0@ == "Disk allocation failed"@
                    &&& final(self)@ == old(self)@
                },
            },
    {
        let count: usize = match self.next_chunk() {
            Some(n) => n,
            None => {
                return Err("Max chunks reached.");
            },
        };
        if let Some(m) = region {
            let mut files: Vec<MmapMut> = Vec::new();
            files.push(m);
            assert(files@ =~= seq![m]);
            if let Some(db) = ThrushDB::new_at(
                files,
                self.config.chunk_capacity,
                self.config.overflow_capacity,
                self.config.probe_depth,
            ) {
                self.chunks.push(db);
                self.routing_tables[table_idx][slot_idx] = count;
                proof {
                    assert(self@.chunks =~= old(self)@.chunks.push(
                        opened_chunk(seq![m], old(self)@.config),
                    ));
                    assert(self.chunk_mappings() =~= old(self).chunk_mappings().push(seq![m]));
                    assert(self@.routes =~= old(self)@.routes.update(
                        table_idx as int,
                        old(self)@.routes[table_idx as int].update(slot_idx as int, count),
                    ));
                    assert forall|t: int, s: int|
                        0 <= t < NUM_TABLES && 0 <= s < TABLE_SLOTS implies (
                    #[trigger] self@.routes[t][s]) < (if self@.chunks.len() > 0 {
                        self@.chunks.len()
                    } else {
                        1
                    }) by {
                        assert(old(self)@.routes[t][s] <= old(self)@.chunks.len());
                    }
                }
                return Ok(());
            }
        }
        Err("Disk allocation failed")
    }

    /// How many slots all the chunks have, where a word can hold it.
    pub fn checked_capacity(&self) -> (n: Option<usize>)
        requires
            self.wf(),
        ensures
            match n {
                Some(slots) => slots == cluster_slots(self@.chunks),
                None => cluster_slots(self@.chunks) > usize::MAX,
            },
    {
        let mut n: usize = 0;
        let mut i: usize = 0;
        while i < self.chunks.len()
            invariant
                i <= self.chunks@.len(),
                self.wf(),
                n == cluster_slots(self@.chunks.take(i as int)),
            decreases self.chunks@.len() - i,
        {
            proof {
                assert(self@.chunks.take(i + 1).drop_last() =~= self@.chunks.take(i as int));
                lemma_cluster_slots_prefix(self@.chunks, i + 1);
            }
            let more: usize = match self.chunks[i].checked_capacity() {
                Some(more) => more,
                None => {
                    return None;
                },
            };
            match n.checked_add(more) {
                Some(sum) => {
                    n = sum;
                },
                None => {
                    return None;
                },
            }
            i += 1;
        }
        assert(self@.chunks.take(self.chunks@.len() as int) =~= self@.chunks);
        Some(n)
    }

    /// How many slots all the chunks have.
    pub fn total_capacity(&self) -> (n: usize)
        requires
            self.wf(),
            cluster_slots(self@.chunks) <= usize::MAX,
        ensures
            n == cluster_slots(self@.chunks),
    {
        match self.checked_capacity() {
            Some(n) => n,
            None => usize::MAX,
        }
    }

    /// How many records are in use in the chunks.
    pub fn total_len(&self) -> (n: usize)
        requires
            self.wf(),
            cluster_in_use(self@.chunks) <= usize::MAX,
        ensures
            n == cluster_in_use(self@.chunks),
    {
        let mut n: usize = 0;
        let mut i: usize = 0;
        while i < self.chunks.len()
            invariant
                i <= self.chunks@.len(),
                self.wf(),
                cluster_in_use(self@.chunks) <= usize::MAX,
                n == cluster_in_use(self@.chunks.take(i as int)),
            decreases self.chunks@.len() - i,
        {
            proof {
                assert(self@.chunks.take(i + 1).drop_last() =~= self@.chunks.take(i as int));
                lemma_cluster_in_use_prefix(self@.chunks, i + 1);
            }
            n = n + self.chunks[i].len();
            i += 1;
        }
        assert(self@.chunks.take(self.chunks@.len() as int) =~= self@.chunks);
        n
    }
}

/// The lists that some vectors hold.
pub open spec fn lists(regions: Seq<Vec<MmapMut>>) -> Seq<Seq<MmapMut>> {
    regions.map_values(|files: Vec<MmapMut>| files@)
}

/// Whether a cluster can be opened over the given mappings, a list for each
/// chunk.
pub open spec fn openable(regions: Seq<Seq<MmapMut>>, config: ClusterConfig) -> bool {
    &&& config.start_count() <= regions.len()
    &&& config.max_chunks > 0 ==> regions.len() <= config.max_chunks
    &&& forall|c: int|
        0 <= c < regions.len() ==> files_fit(
            #[trigger] regions[c],
            config.chunk_capacity as nat,
            config.overflow_capacity as nat,
        )
}

/// The cluster that is opened over the given mappings.
pub open spec fn opened(
    regions: Seq<Seq<MmapMut>>,
    config: ClusterConfig,
    texts: Map<u64, u64>,
) -> ClusterState {
    ClusterState {
        chunks: regions.map_values(|files: Seq<MmapMut>| opened_chunk(files, config)),
        routes: first_routes(config.start_count()),
        config,
        texts,
    }
}

/// The routing tables of a cluster that was just opened.
pub open spec fn first_routes(chunks: nat) -> Seq<Seq<usize>> {
    Seq::new(
        NUM_TABLES as nat,
        |t: int| Seq::new(TABLE_SLOTS as nat, |slot: int| first_route(slot, chunks)),
    )
}

/// Whether there are as many chunks as the configuration allows, and each has the
/// sizes that it sets.
pub open spec fn keeps_config(st: ClusterState) -> bool {
    &&& st.config.start_count() <= st.chunks.len()
    &&& st.config.max_chunks > 0 ==> st.chunks.len() <= st.config.max_chunks
    &&& forall|c: int|
        0 <= c < st.chunks.len() ==> {
            &&& (#[trigger] st.chunks[c]).parts[0].len() == st.config.chunk_capacity
            &&& st.chunks[c].overflow_capacity == st.config.overflow_capacity
            &&& st.chunks[c].probe_depth == st.config.probe_depth
        }
}

/// The chunk that the mappings of its files open as.
pub open spec fn opened_chunk(files: Seq<MmapMut>, config: ClusterConfig) -> DbState {
    DbState {
        parts: opened_parts(files),
        overflow_capacity: config.overflow_capacity as nat,
        probe_depth: config.probe_depth as nat,
    }
}

/// The chunk that a slot of a routing table leads to at first: the slots go
/// round the chunks.
pub open spec fn first_route(slot: int, chunks: nat) -> usize {
    (slot % (if chunks > 1 {
        chunks as int
    } else {
        1
    })) as usize
}

/// Whether a cluster of `count` chunks may have one more.
pub open spec fn may_grow(config: ClusterConfig, count: nat) -> bool {
    config.max_chunks == 0 || count < config.max_chunks
}

/// Whether there are three tables of 256 routes and every route leads to a
/// chunk, or to the first one while there is none.
pub open spec fn routes_lead_to_chunks(st: ClusterState) -> bool {
    &&& st.routes.len() == NUM_TABLES
    &&& forall|t: int| 0 <= t < NUM_TABLES ==> (#[trigger] st.routes[t]).len() == TABLE_SLOTS
    &&& forall|t: int, s: int|
        0 <= t < NUM_TABLES && 0 <= s < TABLE_SLOTS ==> (#[trigger] st.routes[t][s]) < (if st.chunks.len()
            > 0 {
            st.chunks.len()
        } else {
            1
        })
}

pub proof fn lemma_chunk_with_id(chunks: Seq<DbState>, payload_id: u64, from: int)
    requires
        0 <= from,
    ensures
        match chunk_with_id(chunks, payload_id, from) {
            Some(c) => from <= c < chunks.len() && chunks[c].lookup(payload_id) is Some && (forall|
                d: int,
            |
                from <= d < c ==> (#[trigger] chunks[d]).lookup(payload_id) is None),
            None => forall|d: int|
                from <= d < chunks.len() ==> (#[trigger] chunks[d]).lookup(payload_id) is None,
        },
    decreases chunks.len() - from,
{
    if from < chunks.len() && chunks[from].lookup(payload_id) is None {
        lemma_chunk_with_id(chunks, payload_id, from + 1);
    }
}

/// What the first lists hold comes first in what all of them hold.
proof fn lemma_joined_prefix(lists: Seq<Seq<MmapMut>>, n: int)
    requires
        0 <= n <= lists.len(),
    ensures
        lists.take(n).flatten_alt().len() <= lists.flatten_alt().len(),
        forall|i: int|
            0 <= i < lists.take(n).flatten_alt().len() ==> #[trigger] lists.flatten_alt()[i]
                == lists.take(n).flatten_alt()[i],
    decreases lists.len(),
{
    if n < lists.len() {
        lemma_joined_prefix(lists.drop_last(), n);
        assert(lists.drop_last().take(n) =~= lists.take(n));
    } else {
        assert(lists.take(n) =~= lists);
    }
}

proof fn lemma_cluster_slots_prefix(chunks: Seq<DbState>, n: int)
    requires
        0 <= n <= chunks.len(),
    ensures
        cluster_slots(chunks.take(n)) <= cluster_slots(chunks),
    decreases chunks.len(),
{
    if n < chunks.len() {
        lemma_cluster_slots_prefix(chunks.drop_last(), n);
        assert(chunks.drop_last().take(n) =~= chunks.take(n));
    } else {
        assert(chunks.take(n) =~= chunks);
    }
}

proof fn lemma_cluster_in_use_prefix(chunks: Seq<DbState>, n: int)
    requires
        0 <= n <= chunks.len(),
    ensures
        cluster_in_use(chunks.take(n)) <= cluster_in_use(chunks),
    decreases chunks.len(),
{
    if n < chunks.len() {
        lemma_cluster_in_use_prefix(chunks.drop_last(), n);
        assert(chunks.drop_last().take(n) =~= chunks.take(n));
    } else {
        assert(chunks.take(n) =~= chunks);
    }
}

} // verus!
