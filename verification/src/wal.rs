//! The write-ahead log: what was inserted and deleted since the chunks were
//! last flushed, as bytes.
use crate::le::{
    law_byte_is_a_digit, le_bytes, le_value, lemma_le_bytes_len, lemma_u64_round_trip, push_u64,
    read_u64,
};
use crate::u1024::U1024;
use vstd::arithmetic::power::pow;
use vstd::prelude::*;

verus! {

/// The first byte of an insertion in the log.
pub const WAL_INSERT: u8 = 1;

/// The first byte of a deletion in the log.
pub const WAL_DELETE: u8 = 2;

/// An operation in the log.
#[derive(Clone, Copy, Debug)]
pub enum WalOp {
    Insert { payload_id: u64, vector: U1024 },
    Delete { payload_id: u64 },
}

/// What an operation in the log says.
pub enum LoggedOp {
    Insert { payload_id: u64, words: Seq<u64> },
    Delete { payload_id: u64 },
}

impl View for WalOp {
    type V = LoggedOp;

    open spec fn view(&self) -> LoggedOp {
        match *self {
            WalOp::Insert { payload_id, vector } => LoggedOp::Insert { payload_id, words: vector@ },
            WalOp::Delete { payload_id } => LoggedOp::Delete { payload_id },
        }
    }
}

/// The operations of a log, and whether the log ends in the middle of one.
#[verifier::ext_equal]
pub struct LoggedOps {
    pub ops: Seq<LoggedOp>,
    pub torn: bool,
}

/// The bytes of a sequence of words.
pub open spec fn words_bytes(words: Seq<u64>) -> Seq<u8>
    decreases words.len(),
{
    if words.len() == 0 {
        Seq::empty()
    } else {
        words_bytes(words.drop_last()) + le_bytes(words.last() as nat, 8)
    }
}

/// The `n` words that `b` starts with.
pub open spec fn words_of(b: Seq<u8>, n: nat) -> Seq<u64> {
    Seq::new(n, |w: int| le_value(b.subrange(8 * w, 8 * w + 8)) as u64)
}

/// The bytes of an operation: what it is, the id and, for an insertion, the
/// vector.
pub open spec fn op_bytes(op: LoggedOp) -> Seq<u8> {
    match op {
        LoggedOp::Insert { payload_id, words } => seq![WAL_INSERT] + le_bytes(payload_id as nat, 8)
            + words_bytes(words),
        LoggedOp::Delete { payload_id } => seq![WAL_DELETE] + le_bytes(payload_id as nat, 8),
    }
}

/// The bytes of a sequence of operations.
pub open spec fn ops_bytes(ops: Seq<LoggedOp>) -> Seq<u8>
    decreases ops.len(),
{
    if ops.len() == 0 {
        Seq::empty()
    } else {
        ops_bytes(ops.drop_last()) + op_bytes(ops.last())
    }
}

/// The operations that a log holds. Bytes that begin no operation are skipped;
/// an operation that is cut short ends the log.
pub open spec fn parsed(log: Seq<u8>) -> LoggedOps
    decreases log.len(),
{
    if log.len() == 0 {
        LoggedOps { ops: Seq::empty(), torn: false }
    } else if log[0] == WAL_INSERT {
        if log.len() < 137 {
            LoggedOps { ops: Seq::empty(), torn: true }
        } else {
            let op = LoggedOp::Insert {
                payload_id: le_value(log.subrange(1, 9)) as u64,
                words: words_of(log.subrange(9, 137), 16),
            };
            let rest = parsed(log.skip(137));
            LoggedOps { ops: seq![op] + rest.ops, ..rest }
        }
    } else if log[0] == WAL_DELETE {
        if log.len() < 9 {
            LoggedOps { ops: Seq::empty(), torn: true }
        } else {
            let op = LoggedOp::Delete { payload_id: le_value(log.subrange(1, 9)) as u64 };
            let rest = parsed(log.skip(9));
            LoggedOps { ops: seq![op] + rest.ops, ..rest }
        }
    } else {
        parsed(log.skip(1))
    }
}

/// The bytes that log an insertion.
pub fn insert_record(payload_id: u64, vector: &U1024) -> (bytes: Vec<u8>)
    ensures
        bytes@ == op_bytes(LoggedOp::Insert { payload_id, words: vector@ }),
{
    let mut bytes: Vec<u8> = Vec::new();
    bytes.push(WAL_INSERT);
    push_u64(&mut bytes, payload_id);
    let ghost head = bytes@;
    assert(head =~= seq![WAL_INSERT] + le_bytes(payload_id as nat, 8));
    let mut w: usize = 0;
    assert(words_bytes(vector@.take(0)) =~= Seq::empty());
    while w < 16
        invariant
            w <= 16,
            bytes@ == head + words_bytes(vector@.take(w as int)),
        decreases 16 - w,
    {
        push_u64(&mut bytes, vector.0[w]);
        w += 1;
        proof {
            assert(vector@.take(w as int).drop_last() =~= vector@.take(w - 1));
            assert(bytes@ =~= head + words_bytes(vector@.take(w as int)));
        }
    }
    assert(vector@.take(16) =~= vector@);
    bytes
}

/// The bytes that log a deletion.
pub fn delete_record(payload_id: u64) -> (bytes: Vec<u8>)
    ensures
        bytes@ == op_bytes(LoggedOp::Delete { payload_id }),
{
    let mut bytes: Vec<u8> = Vec::new();
    bytes.push(WAL_DELETE);
    push_u64(&mut bytes, payload_id);
    assert(bytes@ =~= seq![WAL_DELETE] + le_bytes(payload_id as nat, 8));
    bytes
}

/// The operations of a log, as far as they are complete.
pub struct WalReplay {
    pub ops: Vec<WalOp>,
    /// Whether the log ends in the middle of an operation.
    pub torn: bool,
}

impl View for WalReplay {
    type V = LoggedOps;

    open spec fn view(&self) -> LoggedOps {
        LoggedOps { ops: self.ops@.map_values(|op: WalOp| op@), torn: self.torn }
    }
}

fn read_vector(log: &[u8], at: usize) -> (vector: U1024)
    requires
        at + 128 <= log@.len(),
    ensures
        vector@ == words_of(log@.subrange(at as int, at + 128), 16),
{
    let mut words: [u64; 16] = [0; 16];
    let mut w: usize = 0;
    let ghost b = log@.subrange(at as int, at + 128);
    proof {
        assert(log.len() == log@.len());
    }
    while w < 16
        invariant
            w <= 16,
            at + 128 <= log.len(),
            log.len() == log@.len(),
            b == log@.subrange(at as int, at + 128),
            forall|j: int| 0 <= j < w ==> words@[j] == words_of(b, 16)[j],
        decreases 16 - w,
    {
        proof {
            assert(b.subrange(8 * w, 8 * w + 8) =~= log@.subrange(at + 8 * w, at + 8 * w + 8));
        }
        words[w] = read_u64(log, at + 8 * w);
        w += 1;
    }
    assert(words@ =~= words_of(b, 16));
    U1024(words)
}

/// Reads a log.
pub fn parse_wal(log: &[u8]) -> (r: WalReplay)
    ensures
        r@ == parsed(log@),
{
    let mut ops: Vec<WalOp> = Vec::new();
    let mut at: usize = 0;
    let ghost mut done: Seq<LoggedOp> = Seq::empty();
    proof {
        assert(log@.skip(0) =~= log@);
        assert(done + parsed(log@).ops =~= parsed(log@).ops);
        assert(ops@.map_values(|op: WalOp| op@) =~= done);
    }
    while at < log.len()
        invariant
            at <= log@.len(),
            log.len() == log@.len(),
            ops@.map_values(|op: WalOp| op@) == done,
            parsed(log@) == (LoggedOps {
                ops: done + parsed(log@.skip(at as int)).ops,
                torn: parsed(log@.skip(at as int)).torn,
            }),
        decreases log@.len() - at,
    {
        let ghost rest = log@.skip(at as int);
        let ghost before = done;
        let op: u8 = log[at];
        assert(rest[0] == op);
        if op == WAL_INSERT {
            if log.len() - at < 137 {
                let r = WalReplay { ops, torn: true };
                assert(r@ =~= parsed(log@));
                return r;
            }
            let payload_id: u64 = read_u64(log, at + 1);
            let vector = read_vector(log, at + 9);
            let next = WalOp::Insert { payload_id, vector };
            proof {
                assert(rest.subrange(1, 9) =~= log@.subrange(at + 1, at + 1 + 8));
                assert(rest.subrange(9, 137) =~= log@.subrange(at + 9, at + 9 + 128));
                assert(rest.skip(137) =~= log@.skip(at + 137));
                done = done.push(next@);
                assert(ops@.push(next).map_values(|op: WalOp| op@) =~= done);
                assert(done + parsed(rest.skip(137)).ops =~= before + parsed(rest).ops);
            }
            ops.push(next);
            at += 137;
        } else if op == WAL_DELETE {
            if log.len() - at < 9 {
                let r = WalReplay { ops, torn: true };
                assert(r@ =~= parsed(log@));
                return r;
            }
            let next = WalOp::Delete { payload_id: read_u64(log, at + 1) };
            proof {
                assert(rest.subrange(1, 9) =~= log@.subrange(at + 1, at + 1 + 8));
                assert(rest.skip(9) =~= log@.skip(at + 9));
                done = done.push(next@);
                assert(ops@.push(next).map_values(|op: WalOp| op@) =~= done);
                assert(done + parsed(rest.skip(9)).ops =~= before + parsed(rest).ops);
            }
            ops.push(next);
            at += 9;
        } else {
            proof {
                assert(rest.skip(1) =~= log@.skip(at + 1));
            }
            at += 1;
        }
    }
    let r = WalReplay { ops, torn: false };
    assert(log@.skip(at as int).len() == 0);
    assert(r@ =~= parsed(log@));
    r
}

proof fn lemma_words_bytes_len(words: Seq<u64>)
    ensures
        words_bytes(words).len() == 8 * words.len(),
    decreases words.len(),
{
    if words.len() > 0 {
        lemma_words_bytes_len(words.drop_last());
        lemma_le_bytes_len(words.last() as nat, 8);
    }
}

proof fn lemma_word_round_trip(words: Seq<u64>, w: int)
    requires
        0 <= w < words.len(),
    ensures
        le_value(words_bytes(words).subrange(8 * w, 8 * w + 8)) == words[w],
    decreases words.len(),
{
    let front = words.drop_last();
    let head = words_bytes(front);
    let tail = le_bytes(words.last() as nat, 8);
    lemma_words_bytes_len(front);
    lemma_u64_round_trip(words.last());
    if w < front.len() {
        lemma_word_round_trip(front, w);
        assert((head + tail).subrange(8 * w, 8 * w + 8) =~= head.subrange(8 * w, 8 * w + 8));
    } else {
        assert((head + tail).subrange(8 * w, 8 * w + 8) =~= tail);
    }
}

proof fn lemma_words_round_trip(words: Seq<u64>)
    ensures
        words_bytes(words).len() == 8 * words.len(),
        words_of(words_bytes(words), words.len()) == words,
{
    lemma_words_bytes_len(words);
    assert forall|w: int| 0 <= w < words.len() implies words_of(
        words_bytes(words),
        words.len(),
    )[w] == words[w] by {
        lemma_word_round_trip(words, w);
    }
    assert(words_of(words_bytes(words), words.len()) =~= words);
}

/// Whether an operation carries a whole vector, as every vector is.
pub open spec fn op_wf(op: LoggedOp) -> bool {
    match op {
        LoggedOp::Insert { words, .. } => words.len() == 16,
        LoggedOp::Delete { .. } => true,
    }
}

/// The bytes of one operation read back as that operation, whatever follows.
proof fn lemma_parse_op(op: LoggedOp, more: Seq<u8>)
    requires
        op_wf(op),
    ensures
        parsed(op_bytes(op) + more) == (LoggedOps {
            ops: seq![op] + parsed(more).ops,
            torn: parsed(more).torn,
        }),
{
    let log = op_bytes(op) + more;
    match op {
        LoggedOp::Insert { payload_id, words } => {
            lemma_u64_round_trip(payload_id);
            lemma_words_round_trip(words);
            assert(log.subrange(1, 9) =~= le_bytes(payload_id as nat, 8));
            assert(log.subrange(9, 137) =~= words_bytes(words));
            assert(log.skip(137) =~= more);
        },
        LoggedOp::Delete { payload_id } => {
            lemma_u64_round_trip(payload_id);
            assert(log.subrange(1, 9) =~= le_bytes(payload_id as nat, 8));
            assert(log.skip(9) =~= more);
        },
    }
}

/// A log that ends between operations is read the same whatever is appended,
/// and what is appended is read as if it stood alone.
pub proof fn law_appended_log(log: Seq<u8>, more: Seq<u8>)
    requires
        !parsed(log).torn,
    ensures
        parsed(log + more) == (LoggedOps {
            ops: parsed(log).ops + parsed(more).ops,
            torn: parsed(more).torn,
        }),
    decreases log.len(),
{
    if log.len() == 0 {
        assert(log + more =~= more);
        assert(parsed(log).ops + parsed(more).ops =~= parsed(more).ops);
    } else {
        let all = log + more;
        let n: int = if log[0] == WAL_INSERT {
            137
        } else if log[0] == WAL_DELETE {
            9
        } else {
            1
        };
        assert(all.skip(n) =~= log.skip(n) + more);
        law_appended_log(log.skip(n), more);
        assert(n > 1 ==> all.subrange(1, 9) =~= log.subrange(1, 9));
        assert(n == 137 ==> all.subrange(9, 137) =~= log.subrange(9, 137));
        if n > 1 {
            let rest = parsed(log.skip(n));
            let op = parsed(log).ops[0];
            assert(seq![op] + (rest.ops + parsed(more).ops) =~= seq![op] + rest.ops + parsed(
                more,
            ).ops);
        }
    }
}

/// Appending the bytes of an operation to a log adds that operation.
pub proof fn law_logged_op_reads_back(log: Seq<u8>, op: LoggedOp)
    requires
        !parsed(log).torn,
        op_wf(op),
    ensures
        parsed(log + op_bytes(op)) == (LoggedOps { ops: parsed(log).ops.push(op), torn: false }),
{
    law_appended_log(log, op_bytes(op));
    lemma_parse_op(op, Seq::empty());
    assert(op_bytes(op) + Seq::<u8>::empty() =~= op_bytes(op));
    assert(parsed(log).ops + (seq![op] + Seq::<LoggedOp>::empty()) =~= parsed(log).ops.push(op));
}

/// A log that was written operation by operation reads back as those
/// operations, in their order.
pub proof fn law_log_reads_back(ops: Seq<LoggedOp>)
    requires
        forall|i: int| 0 <= i < ops.len() ==> op_wf(#[trigger] ops[i]),
    ensures
        parsed(ops_bytes(ops)) == (LoggedOps { ops, torn: false }),
    decreases ops.len(),
{
    if ops.len() == 0 {
        assert(parsed(ops_bytes(ops)).ops =~= ops);
    } else {
        let front = ops.drop_last();
        assert forall|i: int| 0 <= i < front.len() implies op_wf(#[trigger] front[i]) by {
            assert(front[i] == ops[i]);
        }
        law_log_reads_back(front);
        law_logged_op_reads_back(ops_bytes(front), ops.last());
        assert(front.push(ops.last()) =~= ops);
    }
}

/// An append that was cut short costs that operation alone: the ones before it
/// are still read, and the log counts as torn.
pub proof fn law_cut_short_append(log: Seq<u8>, op: LoggedOp, n: int)
    requires
        !parsed(log).torn,
        op_wf(op),
        0 < n < op_bytes(op).len(),
    ensures
        parsed(log + op_bytes(op).take(n)) == (LoggedOps { ops: parsed(log).ops, torn: true }),
{
    let piece = op_bytes(op).take(n);
    law_appended_log(log, piece);
    match op {
        LoggedOp::Insert { payload_id, words } => {
            lemma_le_bytes_len(payload_id as nat, 8);
            lemma_words_round_trip(words);
        },
        LoggedOp::Delete { payload_id } => {
            lemma_le_bytes_len(payload_id as nat, 8);
        },
    }
    assert(piece[0] == op_bytes(op)[0]);
    assert(parsed(log).ops + Seq::<LoggedOp>::empty() =~= parsed(log).ops);
}

proof fn lemma_words_bytes_at(words: Seq<u64>, w: int, k: int)
    requires
        0 <= w < words.len(),
        0 <= k < 8,
    ensures
        words_bytes(words)[8 * w + k] == le_bytes(words[w] as nat, 8)[k],
    decreases words.len(),
{
    let front = words.drop_last();
    lemma_words_bytes_len(front);
    lemma_le_bytes_len(words.last() as nat, 8);
    if w < front.len() {
        lemma_words_bytes_at(front, w, k);
    }
}

/// How an operation lies in the log: an insertion is the byte 1, the eight bytes of
/// the id and the sixteen words of the vector, a deletion the byte 2 and the id,
/// every number with its least significant byte first.
pub proof fn law_operation_layout(payload_id: u64, words: Seq<u64>, w: int, k: nat)
    requires
        words.len() == 16,
        0 <= w < 16,
        k < 8,
    ensures
        ({
            let b = op_bytes(LoggedOp::Insert { payload_id, words });
            &&& b.len() == 137
            &&& b[0] == 1
            &&& b[1 + k as int] == (payload_id as int / pow(256, k)) % 256
            &&& b[9 + 8 * w + k] == (words[w] as int / pow(256, k)) % 256
        }),
        ({
            let b = op_bytes(LoggedOp::Delete { payload_id });
            &&& b.len() == 9
            &&& b[0] == 2
            &&& b[1 + k as int] == (payload_id as int / pow(256, k)) % 256
        }),
{
    law_byte_is_a_digit(payload_id as nat, 8, k);
    law_byte_is_a_digit(words[w] as nat, 8, k);
    lemma_words_bytes_len(words);
    lemma_words_bytes_at(words, w, k as int);
}

/// The operation that a log begins with is read first, whatever follows it.
pub proof fn law_operations_are_read_in_order(op: LoggedOp, more: Seq<u8>)
    requires
        op is Insert ==> op->words.len() == 16,
    ensures
        parsed(op_bytes(op) + more).ops.len() == parsed(more).ops.len() + 1,
        parsed(op_bytes(op) + more).ops[0] == op,
        parsed(op_bytes(op) + more).ops.skip(1) == parsed(more).ops,
        parsed(op_bytes(op) + more).torn == parsed(more).torn,
{
    lemma_parse_op(op, more);
    assert(parsed(op_bytes(op) + more).ops.skip(1) =~= parsed(more).ops);
}

/// A byte that begins no operation is passed over; an operation whose bytes are not
/// all there is none, and nothing is read behind it; the empty log holds nothing.
pub proof fn law_what_is_no_operation(log: Seq<u8>, b: u8)
    ensures
        b != 1 && b != 2 ==> parsed(seq![b] + log) == parsed(log),
        b == 1 && log.len() < 136 ==> parsed(seq![b] + log).ops.len() == 0 && parsed(
            seq![b] + log,
        ).torn,
        b == 2 && log.len() < 8 ==> parsed(seq![b] + log).ops.len() == 0 && parsed(
            seq![b] + log,
        ).torn,
        parsed(Seq::empty()).ops.len() == 0 && !parsed(Seq::empty()).torn,
{
    assert((seq![b] + log).skip(1) =~= log);
}

} // verus!
