//! The metadata store: texts in an append-only log, with an index in memory of
//! where the latest text of each id lies.
use crate::le::{
    law_byte_is_a_digit, le_bytes, le_value, lemma_le_bytes_len, lemma_u32_round_trip,
    lemma_u64_round_trip, push_bytes, push_u32, push_u64, read_u32, read_u64,
};
use std::collections::HashMap;
use vstd::arithmetic::power::pow;
use vstd::prelude::*;
use vstd::utf8::{decode_utf8, encode_utf8, valid_utf8};

verus! {

/// The first byte of a text in the log.
pub const META_PUT: u8 = 1;

/// The first byte of a deletion in the log.
pub const META_DELETE: u8 = 2;

/// How many bytes stand between the first byte of a text record and the text:
/// the id and the length of the text.
pub const META_HEAD: usize = 12;

/// The record that puts a text of the given bytes into the log. The length
/// field has 32 bits, so that it is right for texts below 4 GiB.
pub open spec fn put_bytes(id: u64, text: Seq<u8>) -> Seq<u8> {
    seq![META_PUT] + le_bytes(id as nat, 8) + le_bytes(text.len() % 0x1_0000_0000, 4) + text
}

/// The record that deletes an id.
pub open spec fn delete_bytes(id: u64) -> Seq<u8> {
    seq![META_DELETE] + le_bytes(id as nat, 8)
}

/// The id in the head of a text record at `at`.
pub open spec fn head_id(log: Seq<u8>, at: int) -> u64 {
    le_value(log.subrange(at, at + 8)) as u64
}

/// The length of the text in the head of a text record at `at`.
pub open spec fn head_len(log: Seq<u8>, at: int) -> nat {
    le_value(log.subrange(at + 8, at + 12))
}

/// Whether the record at `at` is cut short by the end of the log.
pub open spec fn cut_short(log: Seq<u8>, at: int) -> bool {
    if log[at] == META_PUT {
        at + 13 > log.len() || at + 13 + head_len(log, at + 1) > log.len()
    } else {
        log[at] == META_DELETE && at + 9 > log.len()
    }
}

/// The index after the log was read from `at` on: a text sets the place of its
/// id, a deletion takes it away, other bytes are skipped, and a record that is
/// cut short ends the log.
pub open spec fn scanned(log: Seq<u8>, at: int, index: Map<u64, u64>) -> Map<u64, u64>
    decreases
        (if at < log.len() {
            log.len() - at
        } else {
            0
        }),
{
    if at >= log.len() || cut_short(log, at) {
        index
    } else if log[at] == META_PUT {
        scanned(
            log,
            at + 13 + head_len(log, at + 1),
            index.insert(head_id(log, at + 1), (at + 1) as u64),
        )
    } else if log[at] == META_DELETE {
        scanned(log, at + 9, index.remove(head_id(log, at + 1)))
    } else {
        scanned(log, at + 1, index)
    }
}

/// Where the part of the log ends that is read from `at` on: before a record that
/// is cut short, or at the end.
pub open spec fn whole_part(log: Seq<u8>, at: int) -> int
    decreases
        (if at < log.len() {
            log.len() - at
        } else {
            0
        }),
{
    if at >= log.len() || cut_short(log, at) {
        at
    } else if log[at] == META_PUT {
        whole_part(log, at + 13 + head_len(log, at + 1))
    } else if log[at] == META_DELETE {
        whole_part(log, at + 9)
    } else {
        whole_part(log, at + 1)
    }
}

/// Whether the log from `at` on ends where a record ends.
pub open spec fn complete(log: Seq<u8>, at: int) -> bool
    decreases
        (if at < log.len() {
            log.len() - at
        } else {
            0
        }),
{
    if at >= log.len() {
        at == log.len()
    } else if log[at] == META_PUT {
        at + 13 <= log.len() && complete(log, at + 13 + head_len(log, at + 1))
    } else if log[at] == META_DELETE {
        at + 9 <= log.len() && complete(log, at + 9)
    } else {
        complete(log, at + 1)
    }
}

/// Whether the index is what the log says, with no record cut short.
pub open spec fn in_step(index: Map<u64, u64>, log: Seq<u8>) -> bool {
    complete(log, 0) && index == scanned(log, 0, Map::empty())
}

/// The text whose head lies at `at`, if it is there whole and is UTF-8.
pub open spec fn text_at(log: Seq<u8>, at: int) -> Option<Seq<char>> {
    if at + META_HEAD > log.len() || at + META_HEAD + head_len(log, at) > log.len() {
        None
    } else {
        text_of(log.subrange(at + META_HEAD, at + META_HEAD + head_len(log, at)))
    }
}

/// The text that bytes spell, if they are UTF-8.
pub open spec fn text_of(data: Seq<u8>) -> Option<Seq<char>> {
    if valid_utf8(data) {
        Some(decode_utf8(data))
    } else {
        None
    }
}

/// The text of an id.
pub open spec fn text_under(index: Map<u64, u64>, log: Seq<u8>, id: u64) -> Option<Seq<char>> {
    if index.contains_key(id) {
        text_at(log, index[id] as int)
    } else {
        None
    }
}

/// `String::from_utf8` of the standard library: a string of the bytes where
/// they are valid UTF-8, an error where they are not.
#[verifier::external_body]
fn string_from_utf8(data: Vec<u8>) -> (text: Option<String>)
    ensures
        match text {
            Some(s) => valid_utf8(data@) && s@ == decode_utf8(data@),
            None => !valid_utf8(data@),
        },
{
    String::from_utf8(data).ok()
}

/// The index of the metadata log.
pub struct MetadataStore {
    index: HashMap<u64, u64>,
}

impl View for MetadataStore {
    type V = Map<u64, u64>;

    closed spec fn view(&self) -> Map<u64, u64> {
        self.index@
    }
}

impl MetadataStore {
    /// Reads the log: the index, and how much of the log is whole.
    fn scan(log: &[u8]) -> (read: (HashMap<u64, u64>, usize))
        ensures
            read.0@ == scanned(log@, 0, Map::empty()),
            read.1 == whole_part(log@, 0),
    {
        broadcast use vstd::std_specs::hash::group_hash_axioms;

        let mut index: HashMap<u64, u64> = HashMap::new();
        let mut at: usize = 0;
        while at < log.len()
            invariant_except_break
                at <= log@.len(),
                scanned(log@, 0, Map::empty()) == scanned(log@, at as int, index@),
                whole_part(log@, 0) == whole_part(log@, at as int),
            invariant
                log.len() == log@.len(),
                vstd::std_specs::hash::obeys_key_model::<u64>(),
                vstd::std_specs::hash::builds_valid_hashers::<std::hash::RandomState>(),
            ensures
                scanned(log@, 0, Map::empty()) == index@,
                whole_part(log@, 0) == at,
            decreases log@.len() - at,
        {
            let op: u8 = log[at];
            if op == META_PUT {
                if log.len() - at < 13 {
                    break;
                }
                let id: u64 = read_u64(log, at + 1);
                let len: u32 = read_u32(log, at + 9);
                if log.len() - at - 13 < (len as usize) {
                    break;
                }
                index.insert(id, (at + 1) as u64);
                at = at + 13 + len as usize;
            } else if op == META_DELETE {
                if log.len() - at < 9 {
                    break;
                }
                let id: u64 = read_u64(log, at + 1);
                index.remove(&id);
                at += 9;
            } else {
                at += 1;
            }
        }
        (index, at)
    }

    /// Rebuilds the index from the log. A record that a crash cut short is no
    /// part of it.
    pub fn new(log: &[u8]) -> (store: MetadataStore)
        ensures
            store@ == scanned(log@, 0, Map::empty()),
    {
        MetadataStore { index: Self::scan(log).0 }
    }

    /// How much of the log is whole. The log must be cut back to it before
    /// anything is appended.
    pub fn whole_len(log: &[u8]) -> (n: usize)
        ensures
            n == whole_part(log@, 0),
            n <= log@.len(),
            complete(log@.take(n as int), 0),
            scanned(log@.take(n as int), 0, Map::empty()) == scanned(log@, 0, Map::empty()),
    {
        proof {
            lemma_whole_part(log@, 0, Map::empty());
        }
        Self::scan(log).1
    }

    /// The record that puts a text into the log.
    pub fn put_record(id: u64, data: &str) -> (record: Vec<u8>)
        ensures
            record@ == put_bytes(id, encode_utf8(data@)),
    {
        let bytes = data.as_bytes();
        let len: u32 = (bytes.len() as u64 % 0x1_0000_0000) as u32;
        let mut record: Vec<u8> = Vec::new();
        record.push(META_PUT);
        push_u64(&mut record, id);
        push_u32(&mut record, len);
        push_bytes(&mut record, bytes);
        assert(record@ =~= put_bytes(id, encode_utf8(data@)));
        record
    }

    /// Notes that the record of a text was written to the log at `end`.
    pub fn put(&mut self, id: u64, end: u64)
        requires
            end < u64::MAX,
        ensures
            final(self)@ == old(self)@.insert(id, (end + 1) as u64),
    {
        broadcast use vstd::std_specs::hash::group_hash_axioms;

        self.index.insert(id, end + 1);
    }

    /// Where in the log the head of the text of an id lies.
    pub fn locate(&self, id: u64) -> (at: Option<u64>)
        ensures
            match at {
                Some(place) => self@.contains_key(id) && self@[id] == place,
                None => !self@.contains_key(id),
            },
    {
        broadcast use vstd::std_specs::hash::group_hash_axioms;

        match self.index.get(&id) {
            Some(at) => Some(*at),
            None => None,
        }
    }

    /// How long the text is that follows the given head.
    pub fn text_len(head: &[u8]) -> (len: u32)
        requires
            head@.len() == META_HEAD,
        ensures
            len == head_len(head@, 0),
    {
        read_u32(head, 8)
    }

    /// The text that the given bytes spell, if they are UTF-8.
    pub fn text(data: Vec<u8>) -> (text: Option<String>)
        ensures
            match text_of(data@) {
                Some(chars) => text is Some && text->0@ == chars,
                None => text is None,
            },
    {
        string_from_utf8(data)
    }

    /// The text of an id, out of the log.
    pub fn get(&self, id: u64, log: &[u8]) -> (text: Option<String>)
        ensures
            match text_under(self@, log@, id) {
                Some(chars) => text is Some && text->0@ == chars,
                None => text is None,
            },
    {
        let place: u64 = match self.locate(id) {
            Some(place) => place,
            None => {
                return None;
            },
        };
        let end: u64 = log.len() as u64;
        if place > end || end - place < (META_HEAD as u64) {
            return None;
        }
        let at: usize = place as usize;
        let head = vstd::slice::slice_subrange(log, at, at + META_HEAD);
        let len: u32 = Self::text_len(head);
        proof {
            assert(head@.subrange(8, 12) =~= log@.subrange(at + 8, at + 12));
        }
        if end - place - (META_HEAD as u64) < (len as u64) {
            return None;
        }
        let from: usize = at + META_HEAD;
        let data = vstd::slice::slice_subrange(log, from, from + len as usize);
        Self::text(vstd::slice::slice_to_vec(data))
    }

    /// Takes an id out of the index. Where it was there, the record that has to
    /// go into the log is handed out.
    pub fn delete(&mut self, id: u64) -> (record: Option<Vec<u8>>)
        ensures
            final(self)@ == old(self)@.remove(id),
            match record {
                Some(bytes) => old(self)@.contains_key(id) && bytes@ == delete_bytes(id),
                None => !old(self)@.contains_key(id),
            },
    {
        broadcast use vstd::std_specs::hash::group_hash_axioms;

        if self.index.remove(&id).is_some() {
            let mut record: Vec<u8> = Vec::new();
            record.push(META_DELETE);
            push_u64(&mut record, id);
            assert(record@ =~= delete_bytes(id));
            Some(record)
        } else {
            assert(self@ =~= old(self)@.remove(id));
            None
        }
    }
}

/// Whether the text whose head lies at `at` is there whole.
pub open spec fn whole(log: Seq<u8>, at: int) -> bool {
    0 <= at && at + META_HEAD + head_len(log, at) <= log.len()
}

/// What is appended to a complete log is read after it, from where it begins.
proof fn lemma_scan_appended(log: Seq<u8>, more: Seq<u8>, at: int, index: Map<u64, u64>)
    requires
        0 <= at,
        complete(log, at),
    ensures
        scanned(log + more, at, index) == scanned(
            log + more,
            log.len() as int,
            scanned(log, at, index),
        ),
        complete(log + more, log.len() as int) ==> complete(log + more, at),
        whole_part(log + more, at) == whole_part(log + more, log.len() as int),
    decreases log.len() - at,
{
    let all = log + more;
    if at < log.len() {
        assert(all[at] == log[at]);
        if log[at] == META_PUT {
            assert(all.subrange(at + 1, at + 1 + 8) =~= log.subrange(at + 1, at + 1 + 8));
            assert(all.subrange(at + 1 + 8, at + 1 + 12) =~= log.subrange(at + 1 + 8, at + 1 + 12));
            let next = at + 13 + head_len(log, at + 1);
            lemma_complete_in_log(log, next);
            lemma_scan_appended(
                log,
                more,
                next,
                index.insert(head_id(log, at + 1), (at + 1) as u64),
            );
        } else if log[at] == META_DELETE {
            assert(all.subrange(at + 1, at + 1 + 8) =~= log.subrange(at + 1, at + 1 + 8));
            lemma_scan_appended(log, more, at + 9, index.remove(head_id(log, at + 1)));
        } else {
            lemma_scan_appended(log, more, at + 1, index);
        }
    }
}

proof fn lemma_complete_in_log(log: Seq<u8>, at: int)
    requires
        complete(log, at),
    ensures
        at <= log.len(),
{
}

/// What a log is read as is what its whole part is read as.
proof fn lemma_whole_part(log: Seq<u8>, at: int, index: Map<u64, u64>)
    requires
        0 <= at <= log.len(),
    ensures
        at <= whole_part(log, at) <= log.len(),
        complete(log.take(whole_part(log, at)), at),
        scanned(log.take(whole_part(log, at)), at, index) == scanned(log, at, index),
    decreases log.len() - at,
{
    let part = log.take(whole_part(log, at));
    if at < log.len() && !cut_short(log, at) {
        if log[at] == META_PUT {
            let next = at + 13 + head_len(log, at + 1);
            lemma_whole_part(
                log,
                next,
                index.insert(head_id(log, at + 1), (at + 1) as u64),
            );
            assert(part.subrange(at + 1, at + 1 + 8) =~= log.subrange(at + 1, at + 1 + 8));
            assert(part.subrange(at + 1 + 8, at + 1 + 12) =~= log.subrange(
                at + 1 + 8,
                at + 1 + 12,
            ));
        } else if log[at] == META_DELETE {
            lemma_whole_part(log, at + 9, index.remove(head_id(log, at + 1)));
            assert(part.subrange(at + 1, at + 1 + 8) =~= log.subrange(at + 1, at + 1 + 8));
        } else {
            lemma_whole_part(log, at + 1, index);
        }
    }
}

/// Every indexed text is in the log whole.
proof fn lemma_scan_whole(log: Seq<u8>, at: int, index: Map<u64, u64>)
    requires
        0 <= at,
        log.len() <= u64::MAX,
        forall|id: u64| #[trigger] index.contains_key(id) ==> whole(log, index[id] as int),
    ensures
        forall|id: u64| #[trigger]
            scanned(log, at, index).contains_key(id) ==> whole(
                log,
                scanned(log, at, index)[id] as int,
            ),
    decreases log.len() - at,
{
    if at < log.len() && !cut_short(log, at) {
        if log[at] == META_PUT {
            let next = at + 13 + head_len(log, at + 1);
            let more = index.insert(head_id(log, at + 1), (at + 1) as u64);
            assert(whole(log, at + 1));
            lemma_scan_whole(log, next, more);
            assert(scanned(log, at, index) == scanned(log, next, more));
        } else if log[at] == META_DELETE {
            let less = index.remove(head_id(log, at + 1));
            lemma_scan_whole(log, at + 9, less);
            assert(scanned(log, at, index) == scanned(log, at + 9, less));
        } else {
            lemma_scan_whole(log, at + 1, index);
            assert(scanned(log, at, index) == scanned(log, at + 1, index));
        }
    }
}

/// The empty index is what the empty log says.
pub proof fn law_empty_log_in_step()
    ensures
        in_step(Map::empty(), Seq::empty()),
{
}

proof fn lemma_put_record(log: Seq<u8>, id: u64, text: Seq<u8>)
    requires
        text.len() < 0x1_0000_0000,
    ensures
        ({
            let all = log + put_bytes(id, text);
            let at = log.len() as int;
            &&& all.len() == at + 13 + text.len()
            &&& all[at] == META_PUT
            &&& head_id(all, at + 1) == id
            &&& head_len(all, at + 1) == text.len()
            &&& all.subrange(at + 13, at + 13 + text.len()) == text
        }),
{
    let all = log + put_bytes(id, text);
    let at = log.len() as int;
    lemma_u64_round_trip(id);
    lemma_u32_round_trip(text.len() as u32);
    assert(text.len() % 0x1_0000_0000 == text.len());
    assert(all.subrange(at + 1, at + 1 + 8) =~= le_bytes(id as nat, 8));
    assert(all.subrange(at + 1 + 8, at + 1 + 12) =~= le_bytes(text.len(), 4));
    assert(all.subrange(at + 13, at + 13 + text.len()) =~= text);
}

/// Where index and log are in step, they are so after a text was appended to
/// the log and its place, one past the old end, was set in the index. An index
/// rebuilt from the log is then the index that was kept.
pub proof fn law_put_keeps_step(index: Map<u64, u64>, log: Seq<u8>, id: u64, text: Seq<u8>)
    requires
        in_step(index, log),
        text.len() < 0x1_0000_0000,
    ensures
        in_step(index.insert(id, (log.len() + 1) as u64), log + put_bytes(id, text)),
{
    let all = log + put_bytes(id, text);
    lemma_put_record(log, id, text);
    lemma_scan_appended(log, put_bytes(id, text), 0, Map::empty());
    let more = index.insert(id, (log.len() + 1) as u64);
    assert(scanned(all, all.len() as int, more) == more);
    assert(complete(all, all.len() as int));
}

/// Where index and log are in step, they are so after a deletion went into
/// both.
pub proof fn law_delete_keeps_step(index: Map<u64, u64>, log: Seq<u8>, id: u64)
    requires
        in_step(index, log),
    ensures
        in_step(index.remove(id), log + delete_bytes(id)),
{
    let all = log + delete_bytes(id);
    let at = log.len() as int;
    lemma_u64_round_trip(id);
    assert(all.len() == at + 9);
    assert(all.subrange(at + 1, at + 1 + 8) =~= le_bytes(id as nat, 8));
    lemma_scan_appended(log, delete_bytes(id), 0, Map::empty());
    let less = index.remove(id);
    assert(scanned(all, all.len() as int, less) == less);
    assert(complete(all, all.len() as int));
}

/// The text that was put under an id is the text that is read under it.
pub proof fn law_text_reads_back(
    index: Map<u64, u64>,
    log: Seq<u8>,
    id: u64,
    text: Seq<char>,
    more: Seq<u8>,
)
    requires
        encode_utf8(text).len() < 0x1_0000_0000,
        log.len() < u64::MAX,
    ensures
        text_under(
            index.insert(id, (log.len() + 1) as u64),
            log + put_bytes(id, encode_utf8(text)) + more,
            id,
        ) == Some(text),
{
    let data = encode_utf8(text);
    let all = log + put_bytes(id, data);
    let full = all + more;
    let at: int = log.len() as int + 1;
    lemma_put_record(log, id, data);
    assert(full.subrange(at + 8, at + 12) =~= all.subrange(at + 8, at + 12));
    assert(full.subrange(at + META_HEAD, at + META_HEAD + data.len()) =~= data);
    vstd::utf8::encode_utf8_valid_utf8(text);
    vstd::utf8::encode_utf8_decode_utf8(text);
}

/// A log that a crash left with a record cut short, and that was cut back to its
/// whole part, is in step with the index that was read from it, and every text
/// reads as before.
pub proof fn law_cut_back_log_is_in_step(log: Seq<u8>, id: u64)
    requires
        log.len() <= u64::MAX,
    ensures
        ({
            let index = scanned(log, 0, Map::empty());
            let part = log.take(whole_part(log, 0));
            &&& in_step(index, part)
            &&& text_under(index, part, id) == text_under(index, log, id)
        }),
{
    let index = scanned(log, 0, Map::empty());
    let n = whole_part(log, 0);
    lemma_whole_part(log, 0, Map::empty());
    law_append_keeps_texts(index, log.take(n), log.skip(n), id);
    assert(log.take(n) + log.skip(n) =~= log);
}

/// The record that puts a text under an id or, where there is none, deletes the
/// id.
pub open spec fn record_bytes(id: u64, text: Option<Seq<u8>>) -> Seq<u8> {
    match text {
        Some(data) => put_bytes(id, data),
        None => delete_bytes(id),
    }
}

/// A record that a crash cut short costs that record alone: the log is read as it
/// was before the record was begun, and is cut back to what it was.
pub proof fn law_cut_short_record_is_ignored(
    log: Seq<u8>,
    id: u64,
    text: Option<Seq<u8>>,
    n: int,
)
    requires
        complete(log, 0),
        text matches Some(data) ==> data.len() < 0x1_0000_0000,
        0 <= n < record_bytes(id, text).len(),
    ensures
        ({
            let torn = log + record_bytes(id, text).take(n);
            &&& scanned(torn, 0, Map::empty()) == scanned(log, 0, Map::empty())
            &&& torn.take(whole_part(torn, 0)) == log
        }),
{
    let record = record_bytes(id, text);
    let piece = record.take(n);
    let torn = log + piece;
    let at = log.len() as int;
    lemma_scan_appended(log, piece, 0, Map::empty());
    lemma_le_bytes_len(id as nat, 8);
    if n > 0 {
        assert(torn[at] == record[0]);
        if let Some(data) = text {
            lemma_le_bytes_len(data.len(), 4);
            if n >= 13 {
                lemma_u32_round_trip(data.len() as u32);
                assert(data.len() % 0x1_0000_0000 == data.len());
                assert(torn.subrange(at + 1 + 8, at + 1 + 12) =~= le_bytes(data.len(), 4));
            }
        }
        assert(cut_short(torn, at));
    }
    assert(torn.take(at) =~= log);
}

/// Whatever is appended to the log, the texts that are indexed read as before.
pub proof fn law_append_keeps_texts(
    index: Map<u64, u64>,
    log: Seq<u8>,
    more: Seq<u8>,
    id: u64,
)
    requires
        index == scanned(log, 0, Map::empty()),
        log.len() <= u64::MAX,
    ensures
        text_under(index, log + more, id) == text_under(index, log, id),
{
    lemma_scan_whole(log, 0, Map::empty());
    if index.contains_key(id) {
        let at = index[id] as int;
        let all = log + more;
        assert(whole(log, at));
        assert(all.subrange(at + 8, at + 12) =~= log.subrange(at + 8, at + 12));
        let n = head_len(log, at);
        assert(all.subrange(at + META_HEAD, at + META_HEAD + n) =~= log.subrange(
            at + META_HEAD,
            at + META_HEAD + n,
        ));
    }
}

/// Putting a text under one id leaves the texts under all others.
pub proof fn law_put_keeps_other_texts(
    index: Map<u64, u64>,
    log: Seq<u8>,
    id: u64,
    text: Seq<u8>,
    other: u64,
)
    requires
        index == scanned(log, 0, Map::empty()),
        log.len() < u64::MAX,
        other != id,
    ensures
        text_under(
            index.insert(id, (log.len() + 1) as u64),
            log + put_bytes(id, text),
            other,
        ) == text_under(index, log, other),
{
    law_append_keeps_texts(index, log, put_bytes(id, text), other);
}

/// Deleting an id leaves no text under it and the texts under all others.
pub proof fn law_delete_takes_the_text(index: Map<u64, u64>, log: Seq<u8>, id: u64, other: u64)
    requires
        index == scanned(log, 0, Map::empty()),
        log.len() <= u64::MAX,
    ensures
        text_under(index.remove(id), log + delete_bytes(id), other) == (if other == id {
            None
        } else {
            text_under(index, log, other)
        }),
{
    law_append_keeps_texts(index, log, delete_bytes(id), other);
}

/// How a record lies in the metadata log: a text is the byte 1, the eight bytes of
/// the id, the four bytes of its length and the text itself, a deletion the byte 2
/// and the id, every number with its least significant byte first.
pub proof fn law_metadata_layout(id: u64, text: Seq<u8>, k: nat, j: int)
    requires
        k < 8,
    ensures
        ({
            let b = put_bytes(id, text);
            &&& b.len() == 13 + text.len()
            &&& b[0] == 1
            &&& b[1 + k as int] == (id as int / pow(256, k)) % 256
            &&& k < 4 ==> b[9 + k as int] == (text.len() as int % 0x1_0000_0000 / pow(256, k))
                % 256
            &&& 0 <= j < text.len() ==> b[13 + j] == text[j]
        }),
        ({
            let b = delete_bytes(id);
            &&& b.len() == 9
            &&& b[0] == 2
            &&& b[1 + k as int] == (id as int / pow(256, k)) % 256
        }),
{
    law_byte_is_a_digit(id as nat, 8, k);
    lemma_le_bytes_len(text.len() % 0x1_0000_0000, 4);
    if k < 4 {
        law_byte_is_a_digit(text.len() % 0x1_0000_0000, 4, k);
    }
}

/// A byte that begins no record changes nothing.
pub proof fn law_other_byte_keeps_step(index: Map<u64, u64>, log: Seq<u8>, b: u8)
    requires
        in_step(index, log),
        b != 1 && b != 2,
    ensures
        in_step(index, log.push(b)),
{
    let all = log + seq![b];
    assert(log.push(b) =~= all);
    lemma_scan_appended(log, seq![b], 0, Map::empty());
    assert(all[log.len() as int] == b);
    assert(scanned(all, all.len() as int, index) == index);
    assert(complete(all, all.len() as int));
}

/// What is read under an id is what the bytes that were put under it spell, and
/// nothing where they spell no text.
pub proof fn law_bytes_read_back(
    index: Map<u64, u64>,
    log: Seq<u8>,
    id: u64,
    data: Seq<u8>,
    more: Seq<u8>,
)
    requires
        data.len() < 0x1_0000_0000,
        log.len() < u64::MAX,
    ensures
        text_under(
            index.insert(id, (log.len() + 1) as u64),
            log + put_bytes(id, data) + more,
            id,
        ) == if valid_utf8(data) {
            Some(decode_utf8(data))
        } else {
            None
        },
        !index.contains_key(id) ==> text_under(index, log, id) is None,
{
    let all = log + put_bytes(id, data);
    let full = all + more;
    let at: int = log.len() as int + 1;
    lemma_put_record(log, id, data);
    assert(full.subrange(at + 8, at + 12) =~= all.subrange(at + 8, at + 12));
    assert(full.subrange(at + META_HEAD, at + META_HEAD + data.len()) =~= data);
}

/// The length of a text stands at byte 8 of its head, and the text behind the head. A
/// text is read where all of its bytes are in the log and spell one.
pub proof fn law_where_a_text_is_read(log: Seq<u8>, at: int)
    requires
        0 <= at,
    ensures
        head_len(log, at) == le_value(log.subrange(at + 8, at + 12)),
        at + 12 + le_value(log.subrange(at + 8, at + 12)) <= log.len() ==> {
            let data = log.subrange(
                at + 12,
                at + 12 + le_value(log.subrange(at + 8, at + 12)),
            );
            &&& text_at(log, at) == text_of(data)
            &&& valid_utf8(data) ==> text_of(data) == Some(decode_utf8(data))
            &&& !valid_utf8(data) ==> text_of(data) is None
        },
        at + 12 > log.len() ==> text_at(log, at) is None,
        at + 12 <= log.len() && at + 12 + le_value(log.subrange(at + 8, at + 12)) > log.len()
            ==> text_at(log, at) is None,
{
}

/// The whole part of a log is a log without a record cut short, and all of it where
/// none is.
pub proof fn law_whole_part_is_all_that_is_whole(log: Seq<u8>)
    ensures
        0 <= whole_part(log, 0) <= log.len(),
        complete(log.take(whole_part(log, 0)), 0),
        complete(log, 0) ==> whole_part(log, 0) == log.len(),
{
    lemma_whole_part(log, 0, Map::empty());
    if complete(log, 0) {
        lemma_complete_is_whole(log, 0);
    }
}

proof fn lemma_complete_is_whole(log: Seq<u8>, at: int)
    requires
        0 <= at,
        complete(log, at),
    ensures
        whole_part(log, at) == log.len(),
    decreases log.len() - at,
{
    if at < log.len() {
        if log[at] == META_PUT {
            let next = at + 13 + head_len(log, at + 1);
            lemma_complete_in_log(log, next);
            lemma_complete_is_whole(log, next);
        } else if log[at] == META_DELETE {
            lemma_complete_in_log(log, at + 9);
            lemma_complete_is_whole(log, at + 9);
        } else {
            lemma_complete_is_whole(log, at + 1);
        }
    }
}

} // verus!
