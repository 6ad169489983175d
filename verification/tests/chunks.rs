use memmap2::MmapMut;
use thrushdb::db::{Overflow, Placement};
use thrushdb::record::{VectorRecord, RECORD_SIZE};
use thrushdb::segment::{probeable, Segment};
use thrushdb::{ThrushDB, U1024};

fn region(capacity: usize) -> MmapMut {
    MmapMut::map_anon(capacity * RECORD_SIZE).unwrap()
}

fn chunk(capacity: usize, depth: usize) -> ThrushDB {
    ThrushDB::new_at(vec![region(capacity)], capacity, capacity, depth).unwrap()
}

fn vector(seed: u64) -> U1024 {
    let mut words = [0u64; 16];
    let mut x = seed.wrapping_mul(0x9e37_79b9_7f4a_7c15) | 1;
    for w in words.iter_mut() {
        x ^= x << 13;
        x ^= x >> 7;
        x ^= x << 17;
        *w = x;
    }
    U1024(words)
}

fn overflow(db: &mut ThrushDB, files: Vec<MmapMut>, v: U1024, id: u64) -> bool {
    matches!(db.insert_overflow(files, v, id), Ok(Overflow::Added))
}

fn store(db: &mut ThrushDB, v: U1024, id: u64) -> bool {
    matches!(db.insert(v, id), Placement::Stored)
}

#[test]
fn a_default_record_is_free() {
    let r = VectorRecord::default();
    assert_eq!(r.vector, U1024::zero());
    assert_eq!((r.payload_id, r.is_active, r._pad), (0, 0, [0; 7]));
}

#[test]
fn a_mapping_of_another_size_is_refused() {
    assert!(ThrushDB::new_at(vec![region(4)], 5, 5, 1).is_none());
    assert!(ThrushDB::new_at(vec![region(4)], 3, 3, 1).is_none());
    let odd = MmapMut::map_anon(4 * RECORD_SIZE + 1).unwrap();
    assert!(ThrushDB::new_at(vec![odd], 4, 4, 1).is_none());
    assert!(ThrushDB::new_at(vec![], 4, 4, 1).is_none());
    assert!(ThrushDB::new_at(vec![region(4), region(4)], 4, 3, 1).is_none());
    assert!(ThrushDB::new_at(vec![region(4), region(3)], 4, 3, 1).is_some());
    assert!(ThrushDB::new_at(vec![region(4)], 4, 4, 1).is_some());
}

#[test]
fn a_record_lies_in_its_slot_as_bytes() {
    let mut db = chunk(2048, 4);
    let mut words = [0u64; 16];
    words[0] = 1 << 3;
    words[1] = 0x0807_0605_0403_0201;
    assert!(store(&mut db, U1024(words), 0x1122_3344_5566_7788));
    let start = db.lsh_indices(U1024(words))[0];
    let bytes = db.flush(0).unwrap();
    let at = start * RECORD_SIZE;
    assert_eq!(bytes[at], 8);
    assert_eq!(bytes[at + 8..at + 16], [1, 2, 3, 4, 5, 6, 7, 8]);
    assert_eq!(
        bytes[at + 128..at + 136],
        [0x88, 0x77, 0x66, 0x55, 0x44, 0x33, 0x22, 0x11]
    );
    assert_eq!(bytes[at + 136], 1);
    assert_eq!(bytes[at + 137..at + 144], [0; 7]);
}

#[test]
fn starts_are_buckets_times_slots_per_bucket() {
    let mut words = [0u64; 16];
    words[0] = 1 << 3;
    assert_eq!(chunk(2048, 1).lsh_indices(U1024(words)), [2, 0, 0, 0, 0, 0, 0, 0]);
    assert_eq!(chunk(5000, 1).lsh_indices(U1024([u64::MAX; 16])), [1023 * 4; 8]);
    assert_eq!(chunk(1000, 1).lsh_indices(U1024([u64::MAX; 16])), [0; 8]);
}

#[test]
fn a_stored_vector_is_found_at_distance_zero() {
    let mut db = chunk(2048, 4);
    let v = vector(7);
    assert!(store(&mut db, v, 42));
    assert!(db.search(v, 10).contains(&(42, 0)));
    assert_eq!(db.get(42), Some(v));
    assert_eq!(db.get(43), None);
    assert_eq!(db.len(), 1);
}

#[test]
fn a_hit_carries_its_true_distance() {
    let mut db = chunk(16, 16);
    let mut near = [0u64; 16];
    near[5] = 0b111;
    assert!(store(&mut db, U1024(near), 1));
    for hit in db.search(U1024::zero(), 5) {
        assert_eq!(hit, (1, 3));
    }
}

#[test]
fn windows_that_overlap_hit_a_record_again() {
    let mut db = chunk(1, 2);
    assert!(store(&mut db, U1024::zero(), 9));
    assert_eq!(db.search(U1024::zero(), 1), vec![(9, 0); 16]);
}

#[test]
fn records_go_into_the_first_free_slot() {
    let mut db = chunk(8, 8);
    for id in 0..8 {
        assert!(store(&mut db, vector(id), id));
    }
    let ids: Vec<u64> = db.search(U1024::zero(), 0).iter().take(8).map(|h| h.0).collect();
    assert_eq!(ids, vec![0, 1, 2, 3, 4, 5, 6, 7]);
}

#[test]
fn a_window_wraps_at_the_end_of_the_file() {
    let mut db = ThrushDB::new_at(vec![region(1025)], 1025, 8, 4).unwrap();
    let full = U1024([u64::MAX; 16]);
    for id in 0..4 {
        assert!(store(&mut db, full, id));
    }
    assert!(!store(&mut db, full, 4));
    let bytes = db.flush(0).unwrap();
    assert_eq!(bytes[1023 * RECORD_SIZE + 136], 1);
    assert_eq!(bytes[1024 * RECORD_SIZE + 136], 1);
    assert_eq!(bytes[136], 1);
    assert_eq!(bytes[RECORD_SIZE + 136], 1);
}

#[test]
fn storing_keeps_other_records() {
    let mut db = chunk(64, 64);
    for id in 0..20 {
        assert!(store(&mut db, vector(id), id));
    }
    for id in 0..20 {
        assert_eq!(db.get(id), Some(vector(id)));
    }
    assert_eq!(db.len(), 20);
    assert_eq!(db.capacity(), 64);
}

#[test]
fn a_full_chunk_asks_for_an_overflow_file() {
    let mut db = chunk(2, 2);
    assert!(store(&mut db, vector(1), 1));
    assert!(store(&mut db, vector(2), 2));
    assert!(matches!(db.insert(vector(3), 3), Placement::Full { overflow: 1 }));
    assert_eq!(db.len(), 2);
    assert!(overflow(&mut db, vec![region(2)], vector(3), 3));
    assert_eq!(db.len(), 3);
    assert_eq!(db.capacity(), 4);
    assert_eq!(db.get(3), Some(vector(3)));
    assert!(db.search(vector(3), 1).contains(&(3, 0)));
    assert!(store(&mut db, vector(4), 4));
    assert!(matches!(db.insert(vector(5), 5), Placement::Full { overflow: 2 }));
}

#[test]
fn a_missing_overflow_file_is_an_error() {
    let mut db = chunk(1, 1);
    assert!(store(&mut db, vector(1), 1));
    let message = "Failed to map new overflow chunk to disk";
    assert_eq!(db.insert_overflow(vec![], vector(2), 2).err(), Some(message));
    assert_eq!(db.insert_overflow(vec![region(3)], vector(2), 2).err(), Some(message));
    assert_eq!(db.insert_overflow(vec![region(1), region(3)], vector(2), 2).err(), Some(message));
    assert_eq!((db.get(1), db.get(2)), (Some(vector(1)), None));
    assert_eq!((db.len(), db.capacity()), (1, 1));
}

fn copy_of(db: &ThrushDB) -> Vec<MmapMut> {
    (0..db.mapping_count())
        .map(|i| {
            let bytes = db.flush(i).unwrap();
            let mut copy = MmapMut::map_anon(bytes.len()).unwrap();
            copy.copy_from_slice(bytes);
            copy
        })
        .collect()
}

#[test]
fn an_overflow_file_without_room_asks_for_the_next() {
    let mut other = chunk(1, 1);
    assert!(store(&mut other, vector(8), 8));
    let mut db = chunk(1, 1);
    assert!(store(&mut db, vector(1), 1));
    let mut files = match db.insert_overflow(copy_of(&other), vector(2), 2) {
        Ok(Overflow::Full { files, overflow: 2 }) => files,
        _ => panic!("the file has no room"),
    };
    assert_eq!((db.len(), db.capacity(), db.get(8)), (1, 1, None));
    files.push(region(1));
    assert!(overflow(&mut db, files, vector(2), 2));
    assert_eq!((db.len(), db.capacity()), (3, 3));
    assert_eq!(db.get(2), Some(vector(2)));
    assert_eq!(db.get(8), Some(vector(8)));
}

#[test]
fn where_nothing_is_probed_a_file_is_added_without_the_record() {
    let mut db = chunk(1, 0);
    assert!(matches!(db.insert(vector(1), 1), Placement::Full { overflow: 1 }));
    assert!(overflow(&mut db, vec![region(1)], vector(1), 1));
    assert_eq!((db.len(), db.capacity(), db.get(1)), (0, 2, None));
}

#[test]
fn a_chunk_opens_again_with_its_overflow_files() {
    let mut db = chunk(1, 1);
    assert!(store(&mut db, vector(1), 1));
    assert!(overflow(&mut db, vec![region(1)], vector(2), 2));
    assert!(overflow(&mut db, vec![region(1)], vector(3), 3));
    let mut again = ThrushDB::new_at(copy_of(&db), 1, 1, 1).unwrap();
    for id in 1..4 {
        assert_eq!(again.get(id), Some(vector(id)));
        assert_eq!(again.search(vector(id), 9), db.search(vector(id), 9));
    }
    assert_eq!((again.len(), again.capacity()), (3, 3));
    assert!(matches!(again.insert(vector(4), 4), Placement::Full { overflow: 3 }));
}

#[test]
fn an_empty_file_has_room_for_any_vector() {
    for seed in 0..50 {
        assert!(store(&mut chunk(1, 1), vector(seed), seed));
        assert!(store(&mut chunk(4096, 1), vector(seed), seed));
    }
}

#[test]
fn deleting_takes_one_record() {
    let mut db = chunk(16, 16);
    assert!(store(&mut db, vector(1), 1));
    assert!(store(&mut db, vector(2), 2));
    assert!(store(&mut db, vector(3), 1));
    assert!(db.delete(1));
    assert_eq!(db.get(1), Some(vector(3)));
    assert_eq!(db.len(), 2);
    assert!(db.delete(1));
    assert_eq!(db.get(1), None);
    assert!(!db.delete(1));
    assert_eq!(db.get(2), Some(vector(2)));
}

#[test]
fn deleting_reaches_overflow_files() {
    let mut db = chunk(1, 1);
    assert!(store(&mut db, vector(1), 1));
    assert!(overflow(&mut db, vec![region(1)], vector(2), 2));
    assert!(db.delete(2));
    assert_eq!(db.len(), 1);
    assert_eq!(db.get(1), Some(vector(1)));
}

#[test]
fn deleting_undoes_storing() {
    let mut db = chunk(32, 32);
    assert!(store(&mut db, vector(1), 1));
    let before = db.search(vector(9), 0);
    assert!(store(&mut db, vector(2), 2));
    assert!(db.delete(2));
    assert_eq!(db.search(vector(9), 0), before);
    assert_eq!(db.len(), 1);
}

#[test]
fn a_slot_marked_otherwise_is_neither_free_nor_in_use() {
    let mut odd = region(1);
    odd[136] = 7;
    let mut db = ThrushDB::new_at(vec![odd], 1, 1, 1).unwrap();
    assert_eq!(db.len(), 0);
    assert_eq!(db.get(0), None);
    assert!(db.search(U1024::zero(), 1).is_empty());
    assert!(!store(&mut db, vector(1), 1));
}

#[test]
fn a_flush_goes_through_every_file() {
    let mut db = chunk(1, 1);
    assert!(store(&mut db, vector(1), 1));
    assert!(overflow(&mut db, vec![region(1)], vector(2), 2));
    assert_eq!(db.mapping_count(), 2);
    assert_eq!(db.flush(0).unwrap()[128], 1);
    assert_eq!(db.flush(1).unwrap()[128], 2);
    assert!(db.flush(2).is_none());
}

#[test]
fn probing_needs_slots() {
    assert!(probeable(1, 1));
    assert!(probeable(0, 0));
    assert!(!probeable(0, 1));
    assert!(!probeable(usize::MAX, 1));
    assert!(chunk(1, 1).is_probeable());
    assert_eq!((chunk(3, 2).probe_depth(), chunk(3, 2).overflow_capacity()), (2, 3));
}

#[test]
fn a_file_finds_its_records() {
    let mut s = Segment::new(region(4), 4).unwrap();
    assert!(s.try_insert_local(&vector(1), 11, 4));
    assert!(s.try_insert_local(&vector(2), 12, 4));
    assert_eq!(s.find_slot(12), Some(1));
    assert_eq!(s.find_slot(13), None);
    assert_eq!(s.get(11), Some(vector(1)));
    assert_eq!(s.search_local(&vector(1), 1)[0], (11, 0));
    assert!(s.delete(11));
    assert_eq!((s.len(), s.capacity()), (1, 4));
    assert!(s.try_insert_local(&vector(3), 13, 4));
    assert_eq!(s.find_slot(13), Some(0));
}
