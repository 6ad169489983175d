use thrushdb::metadata::MetadataStore;
use thrushdb::names::{chunk_file_name, chunk_stem, overflow_file_name};
use thrushdb::wal::{delete_record, insert_record, parse_wal, WalOp};
use thrushdb::U1024;

fn inserts(op: &WalOp, id: u64, v: U1024) -> bool {
    matches!(op, WalOp::Insert { payload_id, vector } if *payload_id == id && *vector == v)
}

fn deletes(op: &WalOp, id: u64) -> bool {
    matches!(op, WalOp::Delete { payload_id } if *payload_id == id)
}

#[test]
fn an_insertion_is_logged_as_bytes() {
    let mut words = [0u64; 16];
    words[0] = 0x0102;
    words[15] = u64::MAX;
    let bytes = insert_record(0xa1b2, &U1024(words));
    assert_eq!(bytes.len(), 137);
    assert_eq!(bytes[..11], [1, 0xb2, 0xa1, 0, 0, 0, 0, 0, 0, 2, 1]);
    assert_eq!(bytes[129..], [255; 8]);
}

#[test]
fn a_deletion_is_logged_as_bytes() {
    assert_eq!(delete_record(258), vec![2, 2, 1, 0, 0, 0, 0, 0, 0]);
}

#[test]
fn a_log_reads_back() {
    let v = U1024([0xdead_beef_0000_0001; 16]);
    let mut log = insert_record(5, &v);
    log.extend(delete_record(6));
    log.extend(insert_record(u64::MAX, &U1024::zero()));
    let r = parse_wal(&log);
    assert!(!r.torn);
    assert_eq!(r.ops.len(), 3);
    assert!(inserts(&r.ops[0], 5, v));
    assert!(deletes(&r.ops[1], 6));
    assert!(inserts(&r.ops[2], u64::MAX, U1024::zero()));
}

#[test]
fn an_empty_log_has_no_operations() {
    let r = parse_wal(&[]);
    assert!(r.ops.is_empty() && !r.torn);
}

#[test]
fn a_log_cut_short_keeps_what_is_whole() {
    let mut log = insert_record(5, &U1024::zero());
    log.extend(delete_record(6));
    for cut in 1..9 {
        let r = parse_wal(&log[..log.len() - cut]);
        assert!(r.torn);
        assert_eq!(r.ops.len(), 1);
    }
    let r = parse_wal(&log[..136]);
    assert!(r.torn && r.ops.is_empty());
    assert!(parse_wal(&[1]).torn);
    assert!(parse_wal(&[2]).torn);
}

#[test]
fn other_bytes_in_the_log_are_skipped() {
    let mut log = vec![0, 9, 255];
    log.extend(delete_record(6));
    log.push(3);
    let r = parse_wal(&log);
    assert!(!r.torn);
    assert_eq!(r.ops.len(), 1);
    assert!(deletes(&r.ops[0], 6));
}

#[test]
fn a_text_is_logged_as_bytes() {
    assert_eq!(
        MetadataStore::put_record(7, "hé"),
        vec![1, 7, 0, 0, 0, 0, 0, 0, 0, 3, 0, 0, 0, b'h', 0xc3, 0xa9]
    );
}

#[test]
fn a_text_reads_back() {
    let mut store = MetadataStore::new(&[]);
    let mut log: Vec<u8> = Vec::new();
    store.put(7, log.len() as u64);
    log.extend(MetadataStore::put_record(7, "first"));
    store.put(8, log.len() as u64);
    log.extend(MetadataStore::put_record(8, "größer"));
    assert_eq!(store.locate(7), Some(1));
    assert_eq!(store.locate(8), Some(19));
    assert_eq!(store.get(7, &log), Some(String::from("first")));
    assert_eq!(store.get(8, &log), Some(String::from("größer")));
    assert_eq!(store.get(9, &log), None);
    store.put(7, log.len() as u64);
    log.extend(MetadataStore::put_record(7, ""));
    assert_eq!(store.get(7, &log), Some(String::new()));
    assert_eq!(store.get(8, &log), Some(String::from("größer")));
}

#[test]
fn an_index_rebuilt_is_the_index_that_was_kept() {
    let mut store = MetadataStore::new(&[]);
    let mut log: Vec<u8> = Vec::new();
    for id in 0..20u64 {
        store.put(id, log.len() as u64);
        log.extend(MetadataStore::put_record(id, &format!("text {}", id)));
    }
    for id in (0..20u64).step_by(3) {
        log.extend(store.delete(id).unwrap());
    }
    let again = MetadataStore::new(&log);
    for id in 0..21u64 {
        assert_eq!(again.locate(id), store.locate(id));
        let text = if id < 20 && id % 3 != 0 { Some(format!("text {}", id)) } else { None };
        assert_eq!(again.get(id, &log), text);
    }
}

#[test]
fn deleting_a_text_is_logged_once() {
    let mut store = MetadataStore::new(&[]);
    store.put(3, 0);
    assert_eq!(store.delete(3), Some(vec![2, 3, 0, 0, 0, 0, 0, 0, 0]));
    assert_eq!(store.delete(3), None);
    assert_eq!(store.locate(3), None);
}

#[test]
fn a_cut_short_head_ends_the_metadata_log() {
    let mut log = MetadataStore::put_record(1, "a");
    log.extend([1, 2, 0, 0]);
    let store = MetadataStore::new(&log);
    assert_eq!(store.locate(1), Some(1));
    assert_eq!(store.locate(2), None);
    assert_eq!(MetadataStore::new(&[2, 1, 0]).locate(1), None);
}

#[test]
fn a_cut_short_text_is_not_read() {
    let log = MetadataStore::put_record(1, "abc");
    let short = &log[..log.len() - 1];
    assert_eq!(MetadataStore::new(short).locate(1), None);
    let store = MetadataStore::new(&log);
    assert_eq!(store.get(1, short), None);
    assert_eq!(store.get(1, &log[..5]), None);
}

#[test]
fn a_metadata_log_is_cut_back_to_its_whole_part() {
    let whole = MetadataStore::put_record(1, "old");
    for last in [MetadataStore::put_record(1, "new"), vec![2, 1, 0, 0, 0, 0, 0, 0, 0]] {
        for cut in 0..last.len() {
            let mut log = whole.clone();
            log.extend(&last[..cut]);
            assert_eq!(MetadataStore::whole_len(&log), whole.len());
            let mut store = MetadataStore::new(&log);
            log.truncate(whole.len());
            assert_eq!(store.get(1, &log), Some(String::from("old")));
            store.put(2, log.len() as u64);
            log.extend(MetadataStore::put_record(2, "later"));
            let again = MetadataStore::new(&log);
            assert_eq!(again.get(1, &log), Some(String::from("old")));
            assert_eq!(again.get(2, &log), Some(String::from("later")));
            assert_eq!(MetadataStore::whole_len(&log), log.len());
        }
    }
    assert_eq!(MetadataStore::whole_len(&[]), 0);
    assert_eq!(MetadataStore::whole_len(&[7, 7]), 2);
}

#[test]
fn other_bytes_in_the_metadata_log_are_skipped() {
    let mut log = vec![0, 200];
    log.extend(MetadataStore::put_record(4, "x"));
    let store = MetadataStore::new(&log);
    assert_eq!(store.locate(4), Some(3));
    assert_eq!(store.get(4, &log), Some(String::from("x")));
}

#[test]
fn bytes_that_are_no_text_are_not_read() {
    assert_eq!(MetadataStore::text(vec![b'o', b'k']), Some(String::from("ok")));
    assert_eq!(MetadataStore::text(vec![0xff]), None);
    assert_eq!(MetadataStore::text_len(&[0, 0, 0, 0, 0, 0, 0, 0, 4, 1, 0, 0]), 260);
}

#[test]
fn files_are_named_by_number() {
    assert_eq!(chunk_stem(3), "chunk_3");
    assert_eq!(chunk_file_name(0), "chunk_0.bin");
    assert_eq!(chunk_file_name(120), "chunk_120.bin");
    assert_eq!(overflow_file_name(&chunk_stem(12), 3), "chunk_12_overflow_3.bin");
}

#[test]
fn file_names_differ() {
    let mut names: Vec<String> = Vec::new();
    for i in 0..30 {
        names.push(chunk_file_name(i));
        for n in 1..12 {
            names.push(overflow_file_name(&chunk_stem(i), n));
        }
    }
    let count = names.len();
    names.sort();
    names.dedup();
    assert_eq!(names.len(), count);
}
