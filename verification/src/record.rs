//! Vector records and their bytes in a mapped file.
use crate::le::{le_bytes, le_value, lemma_u64_round_trip, read_u64, write_u64};
use crate::u1024::U1024;
use memmap2::MmapMut;
use vstd::prelude::*;

verus! {

/// How many bytes a record takes.
pub const RECORD_SIZE: usize = 144;

/// `memmap2::MmapMut`, a writable mapping of a file.
#[verifier::external_type_specification]
#[verifier::external_body]
pub struct ExMmapMut(MmapMut);

/// The bytes of the memory behind a mapping. Nothing but the mapping changes them
/// as long as nobody else writes to the file, which memmap2 asks of whoever maps
/// it.
pub uninterp spec fn mapped(region: MmapMut) -> Seq<u8>;

/// `MmapMut::deref` of memmap2: the mapped memory as a slice, all of it.
#[verifier::external_body]
pub(crate) fn region_bytes(region: &MmapMut) -> (bytes: &[u8])
    ensures
        bytes@ == mapped(*region),
{
    std::ops::Deref::deref(region)
}

/// `MmapMut::deref_mut` of memmap2: the mapped memory as a slice to write
/// through; what the slice holds in the end, the mapping holds.
#[verifier::external_body]
pub(crate) fn region_bytes_mut(region: &mut MmapMut) -> (bytes: &mut [u8])
    ensures
        bytes@ == mapped(*old(region)),
        mapped(*final(region)) == final(bytes)@,
{
    std::ops::DerefMut::deref_mut(region)
}

/// `std::sync::atomic::compiler_fence`: keeps the compiler from moving the
/// stores before it behind the stores after it. Nothing is claimed of it.
#[verifier::external_body]
fn store_fence() {
    std::sync::atomic::compiler_fence(std::sync::atomic::Ordering::SeqCst)
}

/// A vector with the id of its payload, as it lies in a mapped file.
#[derive(Clone, Copy, Debug)]
pub struct VectorRecord {
    pub vector: U1024,
    pub payload_id: u64,
    pub is_active: u8,
    pub _pad: [u8; 7],
}

/// What a record holds.
#[verifier::ext_equal]
pub struct Record {
    pub vector: Seq<u64>,
    pub payload_id: u64,
    pub is_active: u8,
    pub pad: Seq<u8>,
}

impl View for VectorRecord {
    type V = Record;

    open spec fn view(&self) -> Record {
        Record {
            vector: self.vector@,
            payload_id: self.payload_id,
            is_active: self.is_active,
            pad: self._pad@,
        }
    }
}

impl Default for VectorRecord {
    fn default() -> (r: VectorRecord)
        ensures
            r@ == (Record {
                vector: Seq::new(16, |i: int| 0u64),
                payload_id: 0,
                is_active: 0,
                pad: Seq::new(7, |i: int| 0u8),
            }),
    {
        let r = VectorRecord { vector: U1024::zero(), payload_id: 0, is_active: 0, _pad: [0; 7] };
        assert(r._pad@ =~= Seq::new(7, |i: int| 0u8));
        r
    }
}

/// The record that 144 bytes spell: sixteen words of the vector, the id, the
/// flag that is 1 for a record in use and 0 for a free slot, and padding.
pub open spec fn decoded(b: Seq<u8>) -> Record {
    Record {
        vector: Seq::new(16, |w: int| le_value(b.subrange(8 * w, 8 * w + 8)) as u64),
        payload_id: le_value(b.subrange(128, 136)) as u64,
        is_active: b[136],
        pad: b.subrange(137, 144),
    }
}

/// The record in slot `i` of a mapped file.
pub open spec fn record_at(bytes: Seq<u8>, i: int) -> Record {
    decoded(bytes.subrange(RECORD_SIZE * i, RECORD_SIZE * i + RECORD_SIZE))
}

/// All slots of a mapped file.
pub open spec fn records(bytes: Seq<u8>) -> Seq<Record> {
    Seq::new(bytes.len() / (RECORD_SIZE as nat), |i: int| record_at(bytes, i))
}

/// Reads the flag of slot `i`.
pub fn read_active(bytes: &[u8], i: usize) -> (active: u8)
    requires
        RECORD_SIZE * i + RECORD_SIZE <= bytes@.len(),
    ensures
        active == record_at(bytes@, i as int).is_active,
{
    proof {
        assert(bytes.len() == bytes@.len());
    }
    bytes[RECORD_SIZE * i + 136]
}

/// Reads the id in slot `i`.
pub fn read_payload_id(bytes: &[u8], i: usize) -> (id: u64)
    requires
        RECORD_SIZE * i + RECORD_SIZE <= bytes@.len(),
    ensures
        id == record_at(bytes@, i as int).payload_id,
{
    proof {
        assert(bytes.len() == bytes@.len());
        let b = bytes@.subrange(RECORD_SIZE * i, RECORD_SIZE * i + RECORD_SIZE);
        assert(b.subrange(128, 136) =~= bytes@.subrange(
            RECORD_SIZE * i + 128,
            RECORD_SIZE * i + 128 + 8,
        ));
    }
    read_u64(bytes, RECORD_SIZE * i + 128)
}

/// Reads slot `i`.
pub fn read_record(bytes: &[u8], i: usize) -> (r: VectorRecord)
    requires
        RECORD_SIZE * i + RECORD_SIZE <= bytes@.len(),
    ensures
        r@ == record_at(bytes@, i as int),
{
    proof {
        assert(bytes.len() == bytes@.len());
    }
    let at: usize = RECORD_SIZE * i;
    let ghost b = bytes@.subrange(RECORD_SIZE * i, RECORD_SIZE * i + RECORD_SIZE);
    let mut words: [u64; 16] = [0; 16];
    let mut w: usize = 0;
    while w < 16
        invariant
            w <= 16,
            at == RECORD_SIZE * i,
            at + RECORD_SIZE <= bytes.len(),
            bytes.len() == bytes@.len(),
            b == bytes@.subrange(RECORD_SIZE * i, RECORD_SIZE * i + RECORD_SIZE),
            forall|j: int| 0 <= j < w ==> words@[j] == decoded(b).vector[j],
        decreases 16 - w,
    {
        proof {
            assert(b.subrange(8 * w, 8 * w + 8) =~= bytes@.subrange(at + 8 * w, at + 8 * w + 8));
        }
        words[w] = read_u64(bytes, at + 8 * w);
        w += 1;
    }
    let mut pad: [u8; 7] = [0; 7];
    let mut p: usize = 0;
    while p < 7
        invariant
            p <= 7,
            at == RECORD_SIZE * i,
            at + RECORD_SIZE <= bytes.len(),
            bytes.len() == bytes@.len(),
            b == bytes@.subrange(RECORD_SIZE * i, RECORD_SIZE * i + RECORD_SIZE),
            forall|j: int| 0 <= j < p ==> pad@[j] == decoded(b).pad[j],
        decreases 7 - p,
    {
        pad[p] = bytes[at + 137 + p];
        p += 1;
    }
    let r = VectorRecord {
        vector: U1024(words),
        payload_id: read_payload_id(bytes, i),
        is_active: read_active(bytes, i),
        _pad: pad,
    };
    assert(words@ =~= decoded(b).vector);
    assert(pad@ =~= decoded(b).pad);
    r
}

/// Bytes that agree in the place of a slot hold the same record there.
proof fn lemma_record_frame(a: Seq<u8>, b: Seq<u8>, i: int)
    requires
        0 <= i,
        a.len() == b.len(),
        RECORD_SIZE * i + RECORD_SIZE <= a.len(),
        forall|j: int| RECORD_SIZE * i <= j < RECORD_SIZE * i + RECORD_SIZE ==> a[j] == b[j],
    ensures
        record_at(a, i) == record_at(b, i),
{
    assert(a.subrange(RECORD_SIZE * i, RECORD_SIZE * i + RECORD_SIZE) =~= b.subrange(
        RECORD_SIZE * i,
        RECORD_SIZE * i + RECORD_SIZE,
    ));
}

/// Where only the bytes of slot `i` changed, only the record in slot `i` did.
proof fn lemma_records_update(a: Seq<u8>, b: Seq<u8>, i: int)
    requires
        0 <= i,
        a.len() == b.len(),
        RECORD_SIZE * i + RECORD_SIZE <= a.len(),
        forall|j: int|
            0 <= j < a.len() && !(RECORD_SIZE * i <= j < RECORD_SIZE * i + RECORD_SIZE) ==> a[j]
                == b[j],
    ensures
        records(b) == records(a).update(i, record_at(b, i)),
{
    assert forall|k: int| 0 <= k < records(a).len() implies records(b)[k] == records(a).update(
        i,
        record_at(b, i),
    )[k] by {
        if k != i {
            lemma_record_frame(a, b, k);
        }
    }
    assert(records(b) =~= records(a).update(i, record_at(b, i)));
}

/// Writes the flag of slot `i` and nothing else.
pub fn write_active(bytes: &mut [u8], i: usize, active: u8)
    requires
        RECORD_SIZE * i + RECORD_SIZE <= old(bytes)@.len(),
    ensures
        final(bytes)@.len() == old(bytes)@.len(),
        records(final(bytes)@) == records(old(bytes)@).update(
            i as int,
            Record { is_active: active, ..records(old(bytes)@)[i as int] },
        ),
{
    proof {
        assert(bytes.len() == bytes@.len());
    }
    bytes[RECORD_SIZE * i + 136] = active;
    proof {
        let a = old(bytes)@.subrange(RECORD_SIZE * i, RECORD_SIZE * i + RECORD_SIZE);
        let b = bytes@.subrange(RECORD_SIZE * i, RECORD_SIZE * i + RECORD_SIZE);
        assert forall|w: int| 0 <= w < 16 implies decoded(a).vector[w] == decoded(b).vector[w] by {
            assert(a.subrange(8 * w, 8 * w + 8) =~= b.subrange(8 * w, 8 * w + 8));
        }
        assert(decoded(a).vector =~= decoded(b).vector);
        assert(a.subrange(128, 136) =~= b.subrange(128, 136));
        assert(a.subrange(137, 144) =~= b.subrange(137, 144));
        lemma_records_update(old(bytes)@, bytes@, i as int);
    }
}

spec fn word_at(bytes: Seq<u8>, at: int, k: int) -> nat {
    le_value(bytes.subrange(at + 8 * k, at + 8 * k + 8))
}

/// Writes vector and id of slot `i` and leaves its flag as it was: a slot that
/// was free is still free.
fn fill_slot(bytes: &mut [u8], i: usize, vector: &U1024, payload_id: u64)
    requires
        RECORD_SIZE * i + RECORD_SIZE <= old(bytes)@.len(),
    ensures
        final(bytes)@.len() == old(bytes)@.len(),
        records(final(bytes)@) == records(old(bytes)@).update(
            i as int,
            Record { vector: vector@, payload_id, ..records(old(bytes)@)[i as int] },
        ),
{
    proof {
        assert(bytes.len() == bytes@.len());
    }
    let at: usize = RECORD_SIZE * i;
    let ghost before = bytes@;
    let mut w: usize = 0;
    while w < 16
        invariant
            w <= 16,
            at == RECORD_SIZE * i,
            bytes@.len() == before.len(),
            before.len() <= usize::MAX,
            at + RECORD_SIZE <= before.len(),
            forall|k: int| 0 <= k < w ==> #[trigger] word_at(bytes@, at as int, k) == vector@[k],
            forall|j: int|
                0 <= j < before.len() && !(at <= j < at + 8 * w) ==> bytes@[j] == before[j],
        decreases 16 - w,
    {
        let ghost prev = bytes@;
        write_u64(bytes, at + 8 * w, vector.0[w]);
        proof {
            let word = vector@[w as int];
            lemma_u64_round_trip(word);
            assert(bytes@.subrange(at + 8 * w, at + 8 * w + 8) =~= le_bytes(word as nat, 8));
            assert forall|k: int| 0 <= k < w + 1 implies #[trigger] word_at(bytes@, at as int, k)
                == vector@[k] by {
                if k < w {
                    assert(word_at(prev, at as int, k) == vector@[k]);
                    assert(bytes@.subrange(at + 8 * k, at + 8 * k + 8) =~= prev.subrange(
                        at + 8 * k,
                        at + 8 * k + 8,
                    ));
                }
            }
        }
        w += 1;
    }
    let ghost filled = bytes@;
    write_u64(bytes, at + 128, payload_id);
    proof {
        lemma_u64_round_trip(payload_id);
        let b = bytes@.subrange(at as int, at + RECORD_SIZE);
        let a = before.subrange(at as int, at + RECORD_SIZE);
        assert(b.subrange(128, 136) =~= le_bytes(payload_id as nat, 8));
        assert forall|k: int| 0 <= k < 16 implies decoded(b).vector[k] == vector@[k] by {
            assert(word_at(filled, at as int, k) == vector@[k]);
            assert(b.subrange(8 * k, 8 * k + 8) =~= filled.subrange(at + 8 * k, at + 8 * k + 8));
        }
        assert(decoded(b).vector =~= vector@);
        assert(a.subrange(137, 144) =~= b.subrange(137, 144));
        lemma_records_update(before, bytes@, i as int);
    }
}

/// Puts a record in use into slot `i`. The flag is written last, so that a
/// write that is cut short leaves a free slot free.
pub fn write_record(bytes: &mut [u8], i: usize, vector: &U1024, payload_id: u64)
    requires
        RECORD_SIZE * i + RECORD_SIZE <= old(bytes)@.len(),
    ensures
        final(bytes)@.len() == old(bytes)@.len(),
        records(final(bytes)@) == records(old(bytes)@).update(
            i as int,
            Record {
                vector: vector@,
                payload_id,
                is_active: 1,
                ..records(old(bytes)@)[i as int]
            },
        ),
{
    fill_slot(bytes, i, vector, payload_id);
    store_fence();
    write_active(bytes, i, 1);
    assert(records(bytes@) =~= records(old(bytes)@).update(
        i as int,
        Record { vector: vector@, payload_id, is_active: 1, ..records(old(bytes)@)[i as int] },
    ));
}

/// Where in a file a record lies: slot `i` begins at byte `144 * i` with the
/// sixteen words of the vector; the id follows at byte 128 of the slot, the flag
/// at 136, and seven bytes of padding.
pub proof fn law_record_layout(bytes: Seq<u8>, i: int, w: int)
    requires
        0 <= i,
        144 * i + 144 <= bytes.len(),
        0 <= w < 16,
    ensures
        records(bytes).len() == bytes.len() / 144,
        record_at(bytes, i) == records(bytes)[i],
        records(bytes)[i].vector.len() == 16,
        records(bytes)[i].vector[w] == le_value(
            bytes.subrange(144 * i + 8 * w, 144 * i + 8 * w + 8),
        ),
        records(bytes)[i].payload_id == le_value(
            bytes.subrange(144 * i + 128, 144 * i + 136),
        ),
        records(bytes)[i].is_active == bytes[144 * i + 136],
        records(bytes)[i].pad == bytes.subrange(144 * i + 137, 144 * i + 144),
{
    let b = bytes.subrange(144 * i, 144 * i + 144);
    assert(b.subrange(8 * w, 8 * w + 8) =~= bytes.subrange(
        144 * i + 8 * w,
        144 * i + 8 * w + 8,
    ));
    assert(b.subrange(128, 136) =~= bytes.subrange(144 * i + 128, 144 * i + 136));
    assert(b.subrange(137, 144) =~= bytes.subrange(144 * i + 137, 144 * i + 144));
    crate::le::lemma_le_limits();
    crate::le::lemma_le_value_bound(b.subrange(8 * w, 8 * w + 8));
    crate::le::lemma_le_value_bound(b.subrange(128, 136));
}

/// Files with the same bytes hold the same records, and a file is told apart from
/// any other of its length by its records.
pub proof fn law_records_tell_files_apart(a: Seq<u8>, b: Seq<u8>)
    requires
        a.len() == b.len(),
        a.len() % 144 == 0,
        records(a) == records(b),
    ensures
        a == b,
{
    assert forall|j: int| 0 <= j < a.len() implies a[j] == b[j] by {
        let i = j / 144;
        let k = j % 144;
        assert(144 * i + 144 <= a.len());
        let x = a.subrange(144 * i, 144 * i + 144);
        let y = b.subrange(144 * i, 144 * i + 144);
        assert(records(a)[i] == records(b)[i]);
        assert(x[k] == a[j] && y[k] == b[j]);
        law_record_layout(a, i, if k < 128 { k / 8 } else { 0 });
        law_record_layout(b, i, if k < 128 { k / 8 } else { 0 });
        if k < 128 {
            let w = k / 8;
            lemma_same_value(
                a.subrange(144 * i + 8 * w, 144 * i + 8 * w + 8),
                b.subrange(144 * i + 8 * w, 144 * i + 8 * w + 8),
                (k % 8) as nat,
            );
        } else if k < 136 {
            lemma_same_value(
                a.subrange(144 * i + 128, 144 * i + 136),
                b.subrange(144 * i + 128, 144 * i + 136),
                (k - 128) as nat,
            );
        } else if k > 136 {
            let p = a.subrange(144 * i + 137, 144 * i + 144);
            let q = b.subrange(144 * i + 137, 144 * i + 144);
            assert(p[k - 137] == q[k - 137]);
        }
    }
    assert(a =~= b);
}

proof fn lemma_same_value(x: Seq<u8>, y: Seq<u8>, k: nat)
    requires
        x.len() == y.len(),
        k < x.len(),
        le_value(x) == le_value(y),
    ensures
        x[k as int] == y[k as int],
{
    crate::le::law_digit_is_a_byte(x, k);
    crate::le::law_digit_is_a_byte(y, k);
}

} // verus!
