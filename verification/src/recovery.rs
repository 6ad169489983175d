//! Recovery: the operations of the write-ahead log are done again on the chunks
//! as they were found on disk.
use crate::cluster::{
    answered, each_deleted, fits, placed, routes_lead_to_chunks, ClusterState, Insertion,
    InsertionState, OverflowRequest, ThrushCluster,
};
use crate::cluster_laws::{
    answerable, at_hand, honest, knows_not, law_delete_forgets, law_delete_keeps_forgotten,
    law_delete_keeps_others, law_delete_keeps_sole, law_insert_keeps_other_lookups,
    law_insert_keeps_records, law_insert_keeps_sole, law_insert_lands, law_landed_is_reachable,
    law_lookup_finds_what_is_reachable, law_overflow_keeps_other_lookups,
    law_overflow_keeps_records, law_overflow_keeps_sole, law_overflow_lands,
    law_search_finds_what_is_reachable, law_sole_vector_is_looked_up, lemma_insertion_fits,
    lies_in, one_vector, reachable, sole,
};
use crate::db_laws::{copies, lemma_can_probe_kept};
use crate::lsh::NUM_TABLES;
use crate::segment::can_probe;
use crate::wal::{
    law_cut_short_append, op_bytes, op_wf, parse_wal, parsed, LoggedOp, WalOp,
};
use memmap2::MmapMut;
use vstd::prelude::*;

verus! {

/// A replay under way.
#[verifier::ext_equal]
pub struct ReplayState {
    pub ops: Seq<LoggedOp>,
    /// How many of the operations were begun.
    pub next: nat,
    /// The insertion that the last of them is, where it is not done yet.
    pub current: Option<InsertionState>,
}

/// The cluster and the replay after the operations were done up to the first
/// insertion that waits for an overflow file.
pub open spec fn replayed(st: ClusterState, replay: ReplayState) -> (ClusterState, ReplayState)
    decreases
            replay.ops.len() - replay.next,
            (if replay.current is Some {
                1int
            } else {
                0int
            }),
{
    match replay.current {
        Some(ins) => {
            let (chunks, after) = placed(st.chunks, ins);
            let moved = st.with_chunks(chunks);
            if after.next < NUM_TABLES {
                (moved, ReplayState { current: Some(after), ..replay })
            } else {
                replayed(moved, ReplayState { current: None, ..replay })
            }
        },
        None => {
            if replay.next >= replay.ops.len() {
                (st, replay)
            } else {
                match replay.ops[replay.next as int] {
                    LoggedOp::Insert { payload_id, words } => replayed(
                        st,
                        ReplayState {
                            next: replay.next + 1,
                            current: Some(st.insertion(words, payload_id)),
                            ..replay
                        },
                    ),
                    LoggedOp::Delete { payload_id } => replayed(
                        st.with_chunks(each_deleted(st.chunks, payload_id)),
                        ReplayState { next: replay.next + 1, ..replay },
                    ),
                }
            }
        },
    }
}

/// What a replay has to do next.
pub enum ReplayStep {
    /// Make an overflow file, and hand it to `replay_overflow`.
    Overflow(OverflowRequest),
    /// Empty the log: all its whole operations were done.
    EmptyWal,
}

/// Operations of the log that are done again, and how far that has come.
pub struct Replay {
    ops: Vec<WalOp>,
    next: usize,
    current: Option<Insertion>,
}

impl View for Replay {
    type V = ReplayState;

    closed spec fn view(&self) -> ReplayState {
        ReplayState {
            ops: self.ops@.map_values(|op: WalOp| op@),
            next: self.next as nat,
            current: match self.current {
                Some(ins) => Some(ins@),
                None => None,
            },
        }
    }
}

/// The start of the replay of a log.
pub open spec fn replay_of(log: Seq<u8>) -> ReplayState {
    ReplayState { ops: parsed(log).ops, next: 0, current: None }
}

/// Whether a replay has an insertion left to be done.
pub open spec fn insertion_left(replay: ReplayState) -> bool {
    ||| replay.current is Some
    ||| exists|j: int|
        replay.next <= j < replay.ops.len() && (#[trigger] replay.ops[j]) is Insert
}

/// Whether a replay did all operations.
pub open spec fn all_done(replay: ReplayState) -> bool {
    replay.current is None && replay.next == replay.ops.len()
}

/// Whether a replay belongs to a cluster.
pub open spec fn replay_fits(replay: ReplayState, st: ClusterState) -> bool {
    &&& replay.next <= replay.ops.len()
    &&& replay.current matches Some(ins) ==> fits(ins, st.chunks)
}

impl Replay {
    /// The start of the replay of a log. An operation that is cut short at its
    /// end is no part of it.
    pub fn new(log: &[u8]) -> (replay: Replay)
        ensures
            replay@ == replay_of(log@),
    {
        let read = parse_wal(log);
        Replay { ops: read.ops, next: 0, current: None }
    }

    /// Whether an insertion is left to be done, for which the cluster must be
    /// ready.
    pub fn has_insertion_left(&self) -> (left: bool)
        ensures
            left == insertion_left(self@),
    {
        if self.current.is_some() {
            return true;
        }
        let mut i: usize = self.next;
        while i < self.ops.len()
            invariant
                self.next <= i,
                self.current is None,
                forall|j: int|
                    self.next <= j < i && j < self.ops@.len() ==> !((#[trigger] self@.ops[j])
                        is Insert),
            decreases self.ops@.len() - i,
        {
            assert(self@.ops[i as int] == self.ops@[i as int]@);
            if let WalOp::Insert { .. } = self.ops[i] {
                assert(self@.ops[i as int] is Insert);
                return true;
            }
            i += 1;
        }
        false
    }
}

impl ThrushCluster {
    /// Does the operations of the log again, one after another, until an
    /// insertion needs an overflow file or all were done. An insertion that
    /// fails is passed over.
    pub fn replay_wal(&mut self, replay: &mut Replay) -> (step: ReplayStep)
        requires
            old(self).wf(),
            insertion_left(old(replay)@) ==> old(self)@.ready(),
            replay_fits(old(replay)@, old(self)@),
        ensures
            final(self).wf(),
            old(self)@.ready() ==> final(self)@.ready(),
            insertion_left(final(replay)@) ==> final(self)@.ready(),
            replay_fits(final(replay)@, final(self)@),
            (final(self)@, final(replay)@) == replayed(old(self)@, old(replay)@),
            match step {
                ReplayStep::Overflow(request) => {
                    &&& final(replay)@.current matches Some(ins)
                    &&& ins.next < NUM_TABLES
                    &&& request.chunk == ins.targets[ins.next as int]
                    &&& request.overflow == final(self)@.chunks[request.chunk as int].parts.len()
                        + ins.files.len()
                    &&& request.capacity == final(
                        self
                    )@.chunks[request.chunk as int].overflow_capacity
                    &&& request.depth == final(self)@.chunks[request.chunk as int].probe_depth
                },
                ReplayStep::EmptyWal => all_done(final(replay)@),
            },
    {
        loop
            invariant
                self.wf(),
                insertion_left(replay@) ==> self@.ready(),
                old(self)@.ready() ==> self@.ready(),
                replay_fits(replay@, self@),
                replayed(self@, replay@) == replayed(old(self)@, old(replay)@),
            decreases
                    replay@.ops.len() - replay@.next,
                    (if replay@.current is Some {
                        1int
                    } else {
                        0int
                    }),
        {
            let ghost st = self@;
            let ghost before = replay@;
            match replay.current.take() {
                Some(ins) => {
                    let mut ins = ins;
                    let want = self.insert_internal(&mut ins);
                    let ghost (chunks, after) = placed(st.chunks, before.current->0);
                    assert(self@ =~= st.with_chunks(chunks));
                    if let Some(request) = want {
                        replay.current = Some(ins);
                        assert(replay@ =~= (ReplayState { current: Some(after), ..before }));
                        return ReplayStep::Overflow(request);
                    }
                    assert(replay@ =~= (ReplayState { current: None, ..before }));
                },
                None => {
                    assert(replay@ =~= before);
                    if replay.next >= replay.ops.len() {
                        return ReplayStep::EmptyWal;
                    }
                    assert(before.ops[replay.next as int] == replay.ops@[replay.next as int]@);
                    match replay.ops[replay.next] {
                        WalOp::Insert { payload_id, vector } => {
                            replay.current = Some(self.begin_insert(vector, payload_id));
                        },
                        WalOp::Delete { payload_id } => {
                            self.delete_internal(payload_id);
                            assert(self@ =~= (st.with_chunks(each_deleted(st.chunks, payload_id))));
                        },
                    }
                    replay.next = replay.next + 1;
                },
            }
        }
    }

    /// Gives the chunk that a replay waits at its overflow file, or passes over
    /// the chunk where there is no mapping of the right size. Where the file has
    /// no room for the record, it is kept until one has. The replay then goes on
    /// with `replay_wal`.
    pub fn replay_overflow(&mut self, replay: &mut Replay, region: Option<MmapMut>)
        requires
            old(self).wf(),
            old(self)@.ready(),
            replay_fits(old(replay)@, old(self)@),
            old(replay)@.current matches Some(ins) && ins.next < NUM_TABLES && (region is Some
                ==> can_probe(
                old(self)@.chunks[ins.targets[ins.next as int] as int].overflow_capacity,
                old(self)@.chunks[ins.targets[ins.next as int] as int].probe_depth,
            )),
        ensures
            final(self).wf(),
            final(self)@.ready(),
            replay_fits(final(replay)@, final(self)@),
            ({
                let ins = old(replay)@.current->0;
                let (chunks, after) = answered(old(self)@.chunks, ins, region);
                &&& final(self)@ == old(self)@.with_chunks(chunks)
                &&& final(replay)@ == ReplayState { current: Some(after), ..old(replay)@ }
            }),
    {
        if let Some(ins) = replay.current.take() {
            let mut ins = ins;
            self.overflow_internal(&mut ins, region);
            replay.current = Some(ins);
        }
    }
}

/// Whether the operation at `i` inserts the given record, and none between it and
/// `end` deletes the id.
pub open spec fn logged_alive(
    ops: Seq<LoggedOp>,
    i: int,
    end: int,
    payload_id: u64,
    words: Seq<u64>,
) -> bool {
    &&& ops[i] == LoggedOp::Insert { payload_id, words }
    &&& forall|j: int| i < j < end ==> #[trigger] ops[j] != LoggedOp::Delete { payload_id }
}

/// Whether some operation inserts a record.
pub open spec fn logs_insertion(ops: Seq<LoggedOp>) -> bool {
    exists|j: int| 0 <= j < ops.len() && (#[trigger] ops[j]) is Insert
}

/// Whether every record whose insertion a replay did again, and that was not
/// deleted since, is where a search finds it; and whether the record of the
/// insertion under way is, once that counts as a success.
pub open spec fn restored(st: ClusterState, replay: ReplayState) -> bool {
    let done = if replay.current is Some {
        replay.next - 1
    } else {
        replay.next as int
    };
    &&& replay.next <= replay.ops.len()
    &&& forall|i: int, payload_id: u64, words: Seq<u64>|
        0 <= i < done && #[trigger] logged_alive(
            replay.ops,
            i,
            replay.next as int,
            payload_id,
            words,
        ) ==> reachable(st, words, payload_id)
    &&& replay.current matches Some(ins) ==> {
        &&& replay.next > 0
        &&& replay.ops[replay.next - 1] == LoggedOp::Insert {
            payload_id: ins.payload_id,
            words: ins.words,
        }
        &&& ins.targets == st.targets(ins.words)
        &&& honest(st.chunks, ins)
    }
}

/// At its start a replay has restored all that it did, which is nothing.
pub proof fn law_replay_starts_restored(st: ClusterState, replay: ReplayState)
    requires
        replay.next == 0,
        replay.current is None,
    ensures
        restored(st, replay),
{
}

proof fn lemma_placed_keeps_reachable(
    st: ClusterState,
    ins: InsertionState,
    words: Seq<u64>,
    payload_id: u64,
)
    requires
        routes_lead_to_chunks(st),
        st.ready(),
        fits(ins, st.chunks),
        reachable(st, words, payload_id),
    ensures
        reachable(
            st.with_chunks(placed(st.chunks, ins).0),
            words,
            payload_id,
        ),
{
    let after = st.with_chunks(placed(st.chunks, ins).0);
    let t = choose|t: int|
        0 <= t < NUM_TABLES && lies_in(
            st.chunks[#[trigger] st.targets(words)[t] as int],
            words,
            payload_id,
        );
    lemma_insertion_fits(st, words, payload_id);
    assert(st.insertion(words, payload_id).targets[t] < st.chunks.len());
    law_insert_keeps_records(
        st.chunks,
        ins,
        st.targets(words)[t] as int,
        words,
        payload_id,
    );
    assert(after.targets(words) =~= st.targets(words));
    assert(lies_in(after.chunks[after.targets(words)[t] as int], words, payload_id));
}

proof fn lemma_ready_after_placed(st: ClusterState, ins: InsertionState)
    requires
        routes_lead_to_chunks(st),
        st.ready(),
        fits(ins, st.chunks),
    ensures
        ({
            let after = st.with_chunks(placed(st.chunks, ins).0);
            &&& after.chunks.len() == st.chunks.len()
            &&& after.ready()
            &&& routes_lead_to_chunks(after)
        }),
    decreases ins.targets.len() - ins.next,
{
    if ins.next < ins.targets.len() {
        let c = ins.targets[ins.next as int] as int;
        if st.chunks[c].has_room(ins.words) {
            let more = st.chunks.update(c, st.chunks[c].stored(ins.words, ins.payload_id));
            let next = ins.advanced(true);
            assert(st.chunks[c].can_probe());
            lemma_can_probe_kept(st.chunks[c], ins.words, ins.payload_id);
            let mid = st.with_chunks(more);
            assert forall|d: int| 0 <= d < more.len() implies (
            #[trigger] mid.chunks[d]).can_probe() by {
                assert(st.chunks[d].can_probe());
            }
            lemma_ready_after_placed(mid, next);
        }
    }
}

proof fn lemma_routes_after_deleted(st: ClusterState, payload_id: u64)
    requires
        routes_lead_to_chunks(st),
    ensures
        ({
            let after = st.with_chunks(each_deleted(st.chunks, payload_id));
            &&& st.ready() ==> after.ready()
            &&& routes_lead_to_chunks(after)
        }),
{
    let after = st.with_chunks(each_deleted(st.chunks, payload_id));
    if st.ready() {
        assert forall|d: int| 0 <= d < after.chunks.len() implies (
        #[trigger] after.chunks[d]).can_probe() by {
            assert(st.chunks[d].can_probe());
            lemma_can_probe_kept(st.chunks[d], Seq::empty(), payload_id);
        }
    }
}

/// What a replay restored stays restored as it goes on, and what it does next is
/// restored too, whatever the chunks held at first, unless the insertion under way
/// fails at all its targets.
pub proof fn law_replay_restores(st: ClusterState, replay: ReplayState)
    requires
        routes_lead_to_chunks(st),
        logs_insertion(replay.ops) ==> st.ready(),
        replay_fits(replay, st),
        restored(st, replay),
        replay.current matches Some(ins) ==> placed(st.chunks, ins).1.next >= NUM_TABLES
            ==> placed(st.chunks, ins).1.any_ok,
    ensures
        restored(replayed(st, replay).0, replayed(st, replay).1),
    decreases
            replay.ops.len() - replay.next,
            (if replay.current is Some {
                1int
            } else {
                0int
            }),
{
    match replay.current {
        Some(ins) => {
            assert(replay.ops[replay.next - 1] is Insert);
            let (chunks, after) = placed(st.chunks, ins);
            let moved = st.with_chunks(chunks);
            lemma_ready_after_placed(st, ins);
            law_insert_lands(st.chunks, ins);
            assert(moved.targets(ins.words) =~= st.targets(ins.words));
            assert forall|i: int, payload_id: u64, words: Seq<u64>|
                0 <= i < replay.next - 1 && #[trigger] logged_alive(
                    replay.ops,
                    i,
                    replay.next as int,
                    payload_id,
                    words,
                ) implies reachable(moved, words, payload_id) by {
                lemma_placed_keeps_reachable(st, ins, words, payload_id);
            }
            if after.next >= NUM_TABLES {
                law_landed_is_reachable(moved, after);
                let rest = ReplayState { current: None, ..replay };
                assert(restored(moved, rest));
                law_replay_restores(moved, rest);
            }
        },
        None => {
            if replay.next < replay.ops.len() {
                match replay.ops[replay.next as int] {
                    LoggedOp::Insert { payload_id, words } => {
                        let begun = ReplayState {
                            next: replay.next + 1,
                            current: Some(st.insertion(words, payload_id)),
                            ..replay
                        };
                        assert(replay.ops[replay.next as int] is Insert);
                        lemma_insertion_fits(st, words, payload_id);
                        assert forall|i: int, id: u64, w: Seq<u64>|
                            0 <= i < replay.next && #[trigger] logged_alive(
                                begun.ops,
                                i,
                                begun.next as int,
                                id,
                                w,
                            ) implies reachable(st, w, id) by {
                            assert(logged_alive(replay.ops, i, replay.next as int, id, w));
                        }
                        law_insert_lands(st.chunks, st.insertion(words, payload_id));
                        law_replay_restores(st, begun);
                    },
                    LoggedOp::Delete { payload_id } => {
                        let moved = st.with_chunks(each_deleted(st.chunks, payload_id));
                        let rest = ReplayState { next: replay.next + 1, ..replay };
                        lemma_routes_after_deleted(st, payload_id);
                        assert forall|i: int, id: u64, w: Seq<u64>|
                            0 <= i < rest.next && #[trigger] logged_alive(
                                rest.ops,
                                i,
                                rest.next as int,
                                id,
                                w,
                            ) implies reachable(moved, w, id) by {
                            assert(rest.ops[i] is Insert);
                            assert(i < replay.next);
                            assert(logged_alive(replay.ops, i, replay.next as int, id, w));
                            assert(rest.ops[replay.next as int] != LoggedOp::Delete {
                                payload_id: id,
                            });
                            law_delete_keeps_others(st, payload_id, w, id);
                        }
                        law_replay_restores(moved, rest);
                    },
                }
            }
        },
    }
}

/// The answer to a request for an overflow file, whatever it is, keeps what a
/// replay restored, where slots are probed at all.
pub proof fn law_replay_overflow_restores(
    st: ClusterState,
    replay: ReplayState,
    region: Option<MmapMut>,
)
    requires
        routes_lead_to_chunks(st),
        restored(st, replay),
        replay.current matches Some(ins) && answerable(st.chunks, ins, region) && st.chunks[
            ins.targets[ins.next as int] as int].probe_depth > 0,
    ensures
        ({
            let (chunks, after) = answered(st.chunks, replay.current->0, region);
            restored(
                st.with_chunks(chunks),
                ReplayState { current: Some(after), ..replay },
            )
        }),
{
    let ins = replay.current->0;
    let (chunks, after) = answered(st.chunks, ins, region);
    let moved = st.with_chunks(chunks);
    law_overflow_lands(st.chunks, ins, region);
    assert(moved.targets(ins.words) =~= st.targets(ins.words));
    assert forall|i: int, payload_id: u64, words: Seq<u64>|
        0 <= i < replay.next - 1 && #[trigger] logged_alive(
            replay.ops,
            i,
            replay.next as int,
            payload_id,
            words,
        ) implies reachable(moved, words, payload_id) by {
        let t = choose|t: int|
            0 <= t < NUM_TABLES && lies_in(
                st.chunks[#[trigger] st.targets(words)[t] as int],
                words,
                payload_id,
            );
        lemma_insertion_fits(st, words, payload_id);
        assert(st.insertion(words, payload_id).targets[t] < st.chunks.len());
        law_overflow_keeps_records(
            st.chunks,
            ins,
            region,
            st.targets(words)[t] as int,
            words,
            payload_id,
        );
        assert(moved.targets(words) =~= st.targets(words));
        assert(lies_in(moved.chunks[moved.targets(words)[t] as int], words, payload_id));
    }
}

/// After a replay of a whole log, a search for the vector of any record that the
/// log inserts and does not delete later finds the record, at distance zero, and
/// a lookup finds its id: what was logged survives the loss of what the chunks
/// did not write in time.
pub proof fn law_logged_records_survive(
    st: ClusterState,
    replay: ReplayState,
    i: int,
    payload_id: u64,
    words: Seq<u64>,
)
    requires
        routes_lead_to_chunks(st),
        st.chunks.len() > 0,
        restored(st, replay),
        all_done(replay),
        0 <= i < replay.ops.len(),
        logged_alive(replay.ops, i, replay.ops.len() as int, payload_id, words),
    ensures
        st.candidates(words).contains((payload_id, 0u32)),
        st.lookup(payload_id) is Some,
{
    law_search_finds_what_is_reachable(st, words, payload_id);
    law_lookup_finds_what_is_reachable(st, words, payload_id);
}

/// Whether all insertions of an id carry the given vector.
pub open spec fn logs_one_vector(ops: Seq<LoggedOp>, payload_id: u64, words: Seq<u64>) -> bool {
    forall|j: int|
        0 <= j < ops.len() ==> ((#[trigger] ops[j]) matches LoggedOp::Insert {
            payload_id: id,
            words: w,
        } ==> id == payload_id ==> w == words)
}

/// Whether the insertion under way, where it is one of the given id, carries the
/// given vector.
pub open spec fn carries(replay: ReplayState, payload_id: u64, words: Seq<u64>) -> bool {
    replay.current matches Some(ins) ==> ins.payload_id == payload_id ==> ins.words == words
}

/// A replay of a log that gives an id one vector leaves that vector the only one
/// of the id.
pub proof fn law_replay_keeps_sole(
    st: ClusterState,
    replay: ReplayState,
    payload_id: u64,
    words: Seq<u64>,
)
    requires
        routes_lead_to_chunks(st),
        insertion_left(replay) ==> st.ready(),
        replay_fits(replay, st),
        logs_one_vector(replay.ops, payload_id, words),
        carries(replay, payload_id, words),
        sole(st.chunks, words, payload_id),
    ensures
        sole(replayed(st, replay).0.chunks, words, payload_id),
        carries(replayed(st, replay).1, payload_id, words),
        replayed(st, replay).1.ops == replay.ops,
    decreases
            replay.ops.len() - replay.next,
            (if replay.current is Some {
                1int
            } else {
                0int
            }),
{
    match replay.current {
        Some(ins) => {
            let (chunks, after) = placed(st.chunks, ins);
            let moved = st.with_chunks(chunks);
            lemma_ready_after_placed(st, ins);
            law_insert_lands(st.chunks, ins);
            law_insert_keeps_sole(st.chunks, ins, words, payload_id);
            if after.next >= NUM_TABLES {
                let rest = ReplayState { current: None, ..replay };
                law_replay_keeps_sole(moved, rest, payload_id, words);
            }
        },
        None => {
            if replay.next < replay.ops.len() {
                match replay.ops[replay.next as int] {
                    LoggedOp::Insert { payload_id: id, words: w } => {
                        let begun = ReplayState {
                            next: replay.next + 1,
                            current: Some(st.insertion(w, id)),
                            ..replay
                        };
                        assert(replay.ops[replay.next as int] is Insert);
                        lemma_insertion_fits(st, w, id);
                        law_replay_keeps_sole(st, begun, payload_id, words);
                    },
                    LoggedOp::Delete { payload_id: gone } => {
                        let moved = st.with_chunks(each_deleted(st.chunks, gone));
                        let rest = ReplayState { next: replay.next + 1, ..replay };
                        lemma_routes_after_deleted(st, gone);
                        law_delete_keeps_sole(st.chunks, gone, words, payload_id);
                        if insertion_left(rest) {
                            let j = choose|j: int|
                                rest.next <= j < rest.ops.len() && (#[trigger] rest.ops[j])
                                    is Insert;
                            assert(replay.ops[j] is Insert);
                        }
                        law_replay_keeps_sole(moved, rest, payload_id, words);
                    },
                }
            }
        },
    }
}

/// After a replay of a whole log that gives an id one vector and does not delete
/// it later, a lookup of the id gives that vector, where the chunks held no other
/// of the id, nor did the overflow files that were handed over.
pub proof fn law_logged_vector_survives(
    st: ClusterState,
    replay: ReplayState,
    i: int,
    payload_id: u64,
    words: Seq<u64>,
)
    requires
        routes_lead_to_chunks(st),
        st.chunks.len() > 0,
        restored(st, replay),
        all_done(replay),
        0 <= i < replay.ops.len(),
        logged_alive(replay.ops, i, replay.ops.len() as int, payload_id, words),
        sole(st.chunks, words, payload_id),
    ensures
        st.lookup(payload_id) == Some(words),
{
    law_logged_records_survive(st, replay, i, payload_id, words);
    law_sole_vector_is_looked_up(st, words, payload_id);
}

/// A log that is replayed without a request for an overflow file gives back every
/// vector that it inserts and does not delete later, where it gives the id one
/// vector and the chunks held no other.
pub proof fn law_replay_gives_vectors_back(
    st: ClusterState,
    log: Seq<u8>,
    i: int,
    payload_id: u64,
    words: Seq<u64>,
)
    requires
        routes_lead_to_chunks(st),
        st.ready(),
        all_done(replayed(st, replay_of(log)).1),
        0 <= i < parsed(log).ops.len(),
        logged_alive(
            parsed(log).ops,
            i,
            parsed(log).ops.len() as int,
            payload_id,
            words,
        ),
        logs_one_vector(parsed(log).ops, payload_id, words),
        sole(st.chunks, words, payload_id),
    ensures
        replayed(st, replay_of(log)).0.lookup(payload_id) == Some(words),
        replayed(st, replay_of(log)).0.candidates(words).contains((payload_id, 0u32)),
{
    let replay = replay_of(log);
    let (after, done) = replayed(st, replay);
    law_replay_starts_restored(st, replay);
    law_replay_restores(st, replay);
    law_replay_keeps_sole(st, replay, payload_id, words);
    lemma_routes_after_replay(st, replay);
    law_logged_records_survive(after, done, i, payload_id, words);
    law_logged_vector_survives(after, done, i, payload_id, words);
}

proof fn lemma_routes_after_replay(st: ClusterState, replay: ReplayState)
    requires
        routes_lead_to_chunks(st),
        insertion_left(replay) ==> st.ready(),
        replay_fits(replay, st),
    ensures
        routes_lead_to_chunks(replayed(st, replay).0),
        replayed(st, replay).0.chunks.len() == st.chunks.len(),
    decreases
            replay.ops.len() - replay.next,
            (if replay.current is Some {
                1int
            } else {
                0int
            }),
{
    match replay.current {
        Some(ins) => {
            let (chunks, after) = placed(st.chunks, ins);
            let moved = st.with_chunks(chunks);
            lemma_ready_after_placed(st, ins);
            if after.next >= NUM_TABLES {
                lemma_routes_after_replay(moved, ReplayState { current: None, ..replay });
            }
        },
        None => {
            if replay.next < replay.ops.len() {
                match replay.ops[replay.next as int] {
                    LoggedOp::Insert { payload_id, words } => {
                        assert(replay.ops[replay.next as int] is Insert);
                        lemma_insertion_fits(st, words, payload_id);
                        lemma_routes_after_replay(
                            st,
                            ReplayState {
                                next: replay.next + 1,
                                current: Some(st.insertion(words, payload_id)),
                                ..replay
                            },
                        );
                    },
                    LoggedOp::Delete { payload_id } => {
                        let rest = ReplayState { next: replay.next + 1, ..replay };
                        lemma_routes_after_deleted(st, payload_id);
                        if insertion_left(rest) {
                            let j = choose|j: int|
                                rest.next <= j < rest.ops.len() && (#[trigger] rest.ops[j])
                                    is Insert;
                            assert(replay.ops[j] is Insert);
                        }
                        lemma_routes_after_replay(
                            st.with_chunks(each_deleted(st.chunks, payload_id)),
                            rest,
                        );
                    },
                }
            }
        },
    }
}

/// The answer to a request for an overflow file leaves the one vector of an id the
/// only one, where the files carry no other.
pub proof fn law_replay_overflow_keeps_sole(
    st: ClusterState,
    replay: ReplayState,
    region: Option<MmapMut>,
    payload_id: u64,
    words: Seq<u64>,
)
    requires
        carries(replay, payload_id, words),
        sole(st.chunks, words, payload_id),
        replay.current matches Some(ins) && answerable(st.chunks, ins, region) && one_vector(
            at_hand(ins, region),
            words,
            payload_id,
        ),
    ensures
        ({
            let (chunks, after) = answered(st.chunks, replay.current->0, region);
            &&& sole(chunks, words, payload_id)
            &&& carries(ReplayState { current: Some(after), ..replay }, payload_id, words)
        }),
{
    law_overflow_keeps_sole(st.chunks, replay.current->0, region, words, payload_id);
}

/// A log whose last append a crash cut short is replayed as if that append had
/// never begun: it restores what the log without it restores.
pub proof fn law_cut_short_log_restores_the_rest(log: Seq<u8>, op: LoggedOp, n: int)
    requires
        !parsed(log).torn,
        op_wf(op),
        0 <= n < op_bytes(op).len(),
    ensures
        replay_of(log + op_bytes(op).take(n)) == replay_of(log),
{
    if n == 0 {
        assert(log + op_bytes(op).take(n) =~= log);
    } else {
        law_cut_short_append(log, op, n);
    }
}

/// The replay of a log begins with all operations of the log left to do.
pub proof fn law_replay_begins(log: Seq<u8>)
    ensures
        replay_of(log).ops == parsed(log).ops,
        replay_of(log).next == 0,
        replay_of(log).current is None,
{
}

/// A replay did all operations exactly where it began the last and no insertion is
/// under way, and an insertion is left exactly where one is under way or logged
/// behind what it began.
pub proof fn law_what_is_left_of_a_replay(replay: ReplayState)
    ensures
        all_done(replay) <==> replay.next == replay.ops.len() && replay.current is None,
        insertion_left(replay) <==> replay.current is Some || exists|j: int|
            replay.next <= j < replay.ops.len() && (#[trigger] replay.ops[j]) is Insert,
{
}

/// A replay of no operations changes nothing.
pub proof fn law_nothing_logged_changes_nothing(st: ClusterState, ops: Seq<LoggedOp>)
    ensures
        ({
            let done = ReplayState { ops, next: ops.len(), current: None };
            replayed(st, done) == (st, done)
        }),
{
}

/// A replay that comes to a deletion deletes the id in every chunk, whatever was
/// done before and whatever follows.
pub proof fn law_replay_does_a_deletion(
    st: ClusterState,
    ops: Seq<LoggedOp>,
    i: nat,
    payload_id: u64,
)
    requires
        i < ops.len(),
        ops[i as int] == (LoggedOp::Delete { payload_id }),
    ensures
        replayed(st, (ReplayState { ops, next: i, current: None })) == replayed(
            st.with_chunks(each_deleted(st.chunks, payload_id)),
            (ReplayState { ops, next: i + 1, current: None }),
        ),
{
}

/// A replay that comes to an insertion has the record placed in the chunks that its
/// vector is routed to: it waits there for an overflow file, or it goes on.
pub proof fn law_replay_does_an_insertion(
    st: ClusterState,
    ops: Seq<LoggedOp>,
    i: nat,
    payload_id: u64,
    words: Seq<u64>,
)
    requires
        i < ops.len(),
        ops[i as int] == (LoggedOp::Insert { payload_id, words }),
    ensures
        replayed(st, (ReplayState { ops, next: i, current: None })) == replayed(
            st,
            (ReplayState { ops, next: i + 1, current: Some(st.insertion(words, payload_id)) }),
        ),
{
}

/// A replay with an insertion under way has the record placed in the targets that
/// are left: it waits where one of them has no room, and goes on with the operations
/// behind where all were dealt with.
pub proof fn law_replay_goes_on_with_an_insertion(
    st: ClusterState,
    ops: Seq<LoggedOp>,
    next: nat,
    ins: InsertionState,
)
    ensures
        ({
            let (chunks, after) = placed(st.chunks, ins);
            let under_way = ReplayState { ops, next, current: Some(ins) };
            &&& after.next < 3 ==> replayed(st, under_way) == (
                st.with_chunks(chunks),
                (ReplayState { ops, next, current: Some(after) }),
            )
            &&& after.next >= 3 ==> replayed(st, under_way) == replayed(
                st.with_chunks(chunks),
                (ReplayState { ops, next, current: None }),
            )
        }),
{
}

/// What follows in the log is done after what stands before it: where a replay of
/// the first operations waits, a replay of all of them waits with the same chunks;
/// else it does the others on what the first left.
pub proof fn law_replay_goes_in_order(
    st: ClusterState,
    a: Seq<LoggedOp>,
    b: Seq<LoggedOp>,
    next: nat,
    current: Option<InsertionState>,
)
    requires
        next <= a.len(),
    ensures
        ({
            let (mid, first) = replayed(st, (ReplayState { ops: a, next, current }));
            let (end, second) = replayed(mid, (ReplayState { ops: b, next: 0, current: None }));
            let whole = replayed(st, (ReplayState { ops: a + b, next, current }));
            &&& first.ops == a
            &&& first.current is Some ==> next <= first.next <= a.len() && whole == (
                mid,
                (ReplayState { ops: a + b, next: first.next, current: first.current }),
            )
            &&& first.current is None ==> first.next == a.len() && whole == (
                end,
                (ReplayState {
                    ops: a + b,
                    next: a.len() + second.next,
                    current: second.current,
                }),
            )
        }),
{
    lemma_replay_first(st, a, b, next, current);
    let (mid, first) = replayed(st, (ReplayState { ops: a, next, current }));
    if first.current is None {
        lemma_replay_second(mid, a, b, 0, None);
    }
}

proof fn lemma_replay_first(
    st: ClusterState,
    a: Seq<LoggedOp>,
    b: Seq<LoggedOp>,
    next: nat,
    current: Option<InsertionState>,
)
    requires
        next <= a.len(),
    ensures
        ({
            let (mid, first) = replayed(st, (ReplayState { ops: a, next, current }));
            let whole = replayed(st, (ReplayState { ops: a + b, next, current }));
            &&& first.ops == a
            &&& next <= first.next <= a.len()
            &&& first.current is Some ==> whole == (
                mid,
                (ReplayState { ops: a + b, next: first.next, current: first.current }),
            )
            &&& first.current is None ==> first.next == a.len() && whole == replayed(
                mid,
                (ReplayState { ops: a + b, next: a.len(), current: None }),
            )
        }),
    decreases
            a.len() - next,
            (if current is Some {
                1int
            } else {
                0int
            }),
{
    match current {
        Some(ins) => {
            let (chunks, after) = placed(st.chunks, ins);
            if after.next >= NUM_TABLES {
                lemma_replay_first(st.with_chunks(chunks), a, b, next, None);
            }
        },
        None => {
            if next < a.len() {
                assert((a + b)[next as int] == a[next as int]);
                match a[next as int] {
                    LoggedOp::Insert { payload_id, words } => {
                        lemma_replay_first(
                            st,
                            a,
                            b,
                            next + 1,
                            Some(st.insertion(words, payload_id)),
                        );
                    },
                    LoggedOp::Delete { payload_id } => {
                        lemma_replay_first(
                            st.with_chunks(each_deleted(st.chunks, payload_id)),
                            a,
                            b,
                            next + 1,
                            None,
                        );
                    },
                }
            }
        },
    }
}

proof fn lemma_replay_second(
    st: ClusterState,
    a: Seq<LoggedOp>,
    b: Seq<LoggedOp>,
    next: nat,
    current: Option<InsertionState>,
)
    requires
        next <= b.len(),
    ensures
        ({
            let (end, second) = replayed(st, (ReplayState { ops: b, next, current }));
            replayed(st, (ReplayState { ops: a + b, next: a.len() + next, current })) == (
                end,
                (ReplayState {
                    ops: a + b,
                    next: a.len() + second.next,
                    current: second.current,
                }),
            )
        }),
    decreases
            b.len() - next,
            (if current is Some {
                1int
            } else {
                0int
            }),
{
    match current {
        Some(ins) => {
            let (chunks, after) = placed(st.chunks, ins);
            if after.next >= NUM_TABLES {
                lemma_replay_second(st.with_chunks(chunks), a, b, next, None);
            }
        },
        None => {
            if next < b.len() {
                assert((a + b)[(a.len() + next) as int] == b[next as int]);
                match b[next as int] {
                    LoggedOp::Insert { payload_id, words } => {
                        lemma_replay_second(
                            st,
                            a,
                            b,
                            next + 1,
                            Some(st.insertion(words, payload_id)),
                        );
                    },
                    LoggedOp::Delete { payload_id } => {
                        lemma_replay_second(
                            st.with_chunks(each_deleted(st.chunks, payload_id)),
                            a,
                            b,
                            next + 1,
                            None,
                        );
                    },
                }
            }
        },
    }
}

/// A deletion at the end of a log deletes the id in every chunk as the operations
/// before it left them.
pub proof fn law_last_deletion_takes_effect(
    st: ClusterState,
    ops: Seq<LoggedOp>,
    payload_id: u64,
)
    requires
        replayed(st, (ReplayState { ops, next: 0, current: None })).1.current is None,
    ensures
        ({
            let before = replayed(st, (ReplayState { ops, next: 0, current: None })).0;
            let longer = ops.push(LoggedOp::Delete { payload_id });
            replayed(st, (ReplayState { ops: longer, next: 0, current: None })) == (
                before.with_chunks(each_deleted(before.chunks, payload_id)),
                (ReplayState { ops: longer, next: longer.len(), current: None }),
            )
        }),
{
    let before = replayed(st, (ReplayState { ops, next: 0, current: None })).0;
    let one = seq![LoggedOp::Delete { payload_id }];
    assert(ops.push(LoggedOp::Delete { payload_id }) =~= ops + one);
    law_replay_goes_in_order(st, ops, one, 0, None);
    law_replay_does_a_deletion(before, one, 0, payload_id);
    law_nothing_logged_changes_nothing(
        before.with_chunks(each_deleted(before.chunks, payload_id)),
        one,
    );
}

/// Whether no operation from `from` on inserts a record with the given id, nor does
/// an insertion under way.
pub open spec fn never_inserted(replay: ReplayState, from: int, payload_id: u64) -> bool {
    &&& forall|j: int|
        from <= j < replay.ops.len() ==> ((#[trigger] replay.ops[j]) matches LoggedOp::Insert {
            payload_id: id,
            words,
        } ==> id != payload_id)
    &&& replay.current matches Some(ins) ==> ins.payload_id != payload_id
}

/// A replay that inserts no record with an id leaves the id one that is not found.
pub proof fn law_replay_finds_no_forgotten_id(
    st: ClusterState,
    replay: ReplayState,
    payload_id: u64,
)
    requires
        routes_lead_to_chunks(st),
        insertion_left(replay) ==> st.ready(),
        replay_fits(replay, st),
        never_inserted(replay, replay.next as int, payload_id),
        st.lookup(payload_id) is None,
    ensures
        replayed(st, replay).0.lookup(payload_id) is None,
        never_inserted(
            replayed(st, replay).1,
            replayed(st, replay).1.next as int,
            payload_id,
        ),
    decreases
            replay.ops.len() - replay.next,
            (if replay.current is Some {
                1int
            } else {
                0int
            }),
{
    match replay.current {
        Some(ins) => {
            let (chunks, after) = placed(st.chunks, ins);
            let moved = st.with_chunks(chunks);
            lemma_ready_after_placed(st, ins);
            law_insert_lands(st.chunks, ins);
            law_insert_keeps_other_lookups(st, ins, payload_id);
            if after.next >= NUM_TABLES {
                let rest = ReplayState { current: None, ..replay };
                law_replay_finds_no_forgotten_id(moved, rest, payload_id);
            }
        },
        None => {
            if replay.next < replay.ops.len() {
                match replay.ops[replay.next as int] {
                    LoggedOp::Insert { payload_id: id, words } => {
                        let begun = ReplayState {
                            next: replay.next + 1,
                            current: Some(st.insertion(words, id)),
                            ..replay
                        };
                        assert(replay.ops[replay.next as int] is Insert);
                        lemma_insertion_fits(st, words, id);
                        law_replay_finds_no_forgotten_id(st, begun, payload_id);
                    },
                    LoggedOp::Delete { payload_id: gone } => {
                        let moved = st.with_chunks(each_deleted(st.chunks, gone));
                        let rest = ReplayState { next: replay.next + 1, ..replay };
                        lemma_routes_after_deleted(st, gone);
                        law_delete_keeps_forgotten(st, gone, payload_id);
                        if insertion_left(rest) {
                            let j = choose|j: int|
                                rest.next <= j < rest.ops.len() && (#[trigger] rest.ops[j])
                                    is Insert;
                            assert(replay.ops[j] is Insert);
                        }
                        law_replay_finds_no_forgotten_id(moved, rest, payload_id);
                    },
                }
            }
        },
    }
}

/// The answer to a request for an overflow file leaves an id one that is not found,
/// where the files do not know it and the insertion under way is one of another.
pub proof fn law_replay_overflow_finds_no_forgotten_id(
    st: ClusterState,
    replay: ReplayState,
    region: Option<MmapMut>,
    payload_id: u64,
)
    requires
        st.lookup(payload_id) is None,
        replay.current matches Some(ins) && ins.payload_id != payload_id && answerable(
            st.chunks,
            ins,
            region,
        ) && knows_not(at_hand(ins, region), payload_id),
    ensures
        ({
            let (chunks, after) = answered(st.chunks, replay.current->0, region);
            &&& st.with_chunks(chunks).lookup(payload_id) is None
            &&& after.payload_id != payload_id
        }),
{
    law_overflow_keeps_other_lookups(st, replay.current->0, region, payload_id);
}

/// A deletion in the log that no insertion of the id follows takes effect wherever
/// it stands: after the log was replayed the id is not found, where no chunk held
/// more than one record with it when the replay came to the deletion.
pub proof fn law_deleted_id_is_not_found_after_replay(
    st: ClusterState,
    ops: Seq<LoggedOp>,
    i: int,
    payload_id: u64,
)
    requires
        routes_lead_to_chunks(st),
        st.ready(),
        0 <= i < ops.len(),
        ops[i] == (LoggedOp::Delete { payload_id }),
        forall|j: int|
            i < j < ops.len() ==> ((#[trigger] ops[j]) matches LoggedOp::Insert {
                payload_id: id,
                words,
            } ==> id != payload_id),
        replayed(st, (ReplayState { ops, next: 0, current: None })).1.current is None,
        forall|c: int|
            #![trigger replayed(
                st,
                (ReplayState { ops: ops.take(i), next: 0, current: None }),
            ).0.chunks[c]]
            0 <= c < st.chunks.len() ==> copies(
                replayed(
                    st,
                    (ReplayState { ops: ops.take(i), next: 0, current: None }),
                ).0.chunks[c].parts,
                payload_id,
            ) <= 1,
    ensures
        replayed(st, (ReplayState { ops, next: 0, current: None })).0.lookup(payload_id) is None,
{
    let a = ops.take(i);
    let b = ops.skip(i);
    let start = ReplayState { ops: a, next: 0, current: None };
    let (mid, first) = replayed(st, start);
    assert(ops =~= a + b);
    law_replay_goes_in_order(st, a, b, 0, None);
    lemma_routes_after_replay(st, start);
    lemma_ready_after_replay(st, start);
    law_replay_does_a_deletion(mid, b, 0, payload_id);
    law_delete_forgets(mid, payload_id);
    lemma_routes_after_deleted(mid, payload_id);
    let rest = ReplayState { ops: b, next: 1, current: None };
    assert forall|j: int| 1 <= j < b.len() implies ((#[trigger] b[j]) matches LoggedOp::Insert {
        payload_id: id,
        words,
    } ==> id != payload_id) by {
        assert(b[j] == ops[i + j]);
    }
    law_replay_finds_no_forgotten_id(
        mid.with_chunks(each_deleted(mid.chunks, payload_id)),
        rest,
        payload_id,
    );
}

proof fn lemma_ready_after_replay(st: ClusterState, replay: ReplayState)
    requires
        routes_lead_to_chunks(st),
        st.ready(),
        replay_fits(replay, st),
    ensures
        replayed(st, replay).0.ready(),
    decreases
            replay.ops.len() - replay.next,
            (if replay.current is Some {
                1int
            } else {
                0int
            }),
{
    match replay.current {
        Some(ins) => {
            let (chunks, after) = placed(st.chunks, ins);
            lemma_ready_after_placed(st, ins);
            if after.next >= NUM_TABLES {
                lemma_ready_after_replay(
                    st.with_chunks(chunks),
                    ReplayState { current: None, ..replay },
                );
            }
        },
        None => {
            if replay.next < replay.ops.len() {
                match replay.ops[replay.next as int] {
                    LoggedOp::Insert { payload_id, words } => {
                        lemma_insertion_fits(st, words, payload_id);
                        lemma_ready_after_replay(
                            st,
                            ReplayState {
                                next: replay.next + 1,
                                current: Some(st.insertion(words, payload_id)),
                                ..replay
                            },
                        );
                    },
                    LoggedOp::Delete { payload_id } => {
                        lemma_routes_after_deleted(st, payload_id);
                        lemma_ready_after_replay(
                            st.with_chunks(each_deleted(st.chunks, payload_id)),
                            ReplayState { next: replay.next + 1, ..replay },
                        );
                    },
                }
            }
        },
    }
}

} // verus!
