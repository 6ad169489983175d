use memmap2::MmapMut;
use thrushdb::api::{
    delete_status, get_response, insert_status, search_response, stats_response,
};
use thrushdb::cluster::{region_len, resized, FlushStep, Insertion};
use thrushdb::lsh::cluster_table_hash;
use thrushdb::metadata::MetadataStore;
use thrushdb::ranking::top_hits;
use thrushdb::record::RECORD_SIZE;
use thrushdb::recovery::{Replay, ReplayStep};
use thrushdb::wal::{delete_record, insert_record};
use thrushdb::{ClusterConfig, ThrushCluster, U1024};

fn region(capacity: usize) -> MmapMut {
    MmapMut::map_anon(capacity * RECORD_SIZE).unwrap()
}

fn config(chunks: usize, capacity: usize, depth: usize) -> ClusterConfig {
    ClusterConfig {
        initial_chunks: chunks,
        max_chunks: 0,
        chunk_capacity: capacity,
        overflow_capacity: capacity,
        probe_depth: depth,
    }
}

fn cluster(chunks: usize, capacity: usize, depth: usize) -> ThrushCluster {
    let regions = (0..chunks).map(|_| vec![region(capacity)]).collect();
    ThrushCluster::new(regions, config(chunks, capacity, depth), MetadataStore::new(&[])).unwrap()
}

fn vector(seed: u64) -> U1024 {
    let mut words = [0u64; 16];
    let mut x = seed.wrapping_mul(0x9e37_79b9_7f4a_7c15) | 1;
    for w in words.iter_mut() {
        x ^= x << 13;
        x ^= x >> 7;
        x ^= x << 17;
        *w = x;
    }
    U1024(words)
}

fn run(c: &mut ThrushCluster, v: U1024, id: u64, overflow: bool) -> Insertion {
    let mut ins = c.begin_insert(v, id);
    while let Some(want) = c.insert_internal(&mut ins) {
        let file = if overflow { Some(region(want.capacity)) } else { None };
        c.overflow_internal(&mut ins, file);
    }
    assert!(ins.is_complete());
    ins
}

fn insert(c: &mut ThrushCluster, v: U1024, id: u64) {
    let ins = run(c, v, id, true);
    assert!(ThrushCluster::insert(&ins, None).is_ok());
}

#[test]
fn the_default_sizes() {
    let c = ClusterConfig::default();
    assert_eq!((c.initial_chunks, c.max_chunks), (16, 0));
    assert_eq!((c.chunk_capacity, c.overflow_capacity), (1_048_576, 1_048_576));
    assert_eq!(c.probe_depth, 256);
}

#[test]
fn the_first_chunks_keep_within_the_limit() {
    let mut c = config(5, 1, 1);
    assert_eq!(c.initial_chunk_count(), 5);
    c.max_chunks = 3;
    assert_eq!(c.initial_chunk_count(), 3);
    assert!(c.allows_more(2) && !c.allows_more(3));
    c.max_chunks = 9;
    assert_eq!(c.initial_chunk_count(), 5);
    c.max_chunks = 0;
    assert!(c.allows_more(1_000_000));
}

#[test]
fn files_are_as_long_as_their_records() {
    assert_eq!(region_len(1_000_000), Some(144_000_000));
    assert_eq!(region_len(0), Some(0));
    assert_eq!(region_len(usize::MAX), None);
    assert_eq!(resized(0, 144), Some(144));
    assert_eq!(resized(288, 144), Some(144));
    assert_eq!(resized(144, 144), None);
}

#[test]
fn a_cluster_takes_the_mappings_it_starts_with() {
    let none = MetadataStore::new(&[]);
    assert!(ThrushCluster::new(vec![vec![region(4)]], config(2, 4, 1), none).is_none());
    let none = MetadataStore::new(&[]);
    let files = vec![vec![region(4)], vec![region(3)]];
    assert!(ThrushCluster::new(files, config(2, 4, 1), none).is_none());
    let none = MetadataStore::new(&[]);
    assert!(ThrushCluster::new(vec![vec![region(4)], vec![]], config(2, 4, 1), none).is_none());
    let none = MetadataStore::new(&[]);
    let mut limited = config(1, 4, 1);
    limited.max_chunks = 1;
    let files = vec![vec![region(4)], vec![region(4)]];
    assert!(ThrushCluster::new(files, limited, none).is_none());
    let none = MetadataStore::new(&[]);
    assert!(ThrushCluster::new(vec![], config(0, 4, 1), none).is_some());
}

#[test]
fn routes_go_round_the_chunks() {
    let c = cluster(3, 4, 1);
    for seed in 0..40 {
        let v = vector(seed);
        let expected = [
            cluster_table_hash(&v, 0) % 3,
            cluster_table_hash(&v, 1) % 3,
            cluster_table_hash(&v, 2) % 3,
        ];
        assert_eq!(c.target_chunks(&v), expected);
    }
}

#[test]
fn an_inserted_vector_is_found_first() {
    let mut c = cluster(4, 2048, 8);
    for seed in 0..60 {
        insert(&mut c, vector(seed), seed);
    }
    for seed in 0..60 {
        let top = c.search(vector(seed), 3);
        assert!(top.len() <= 3);
        assert_eq!(top[0], (seed, 0, None));
        for pair in top.windows(2) {
            assert!(pair[0].1 <= pair[1].1);
            assert_ne!(pair[0].0, pair[1].0);
        }
        assert_eq!(c.get(seed), Some((vector(seed), None)));
    }
    assert_eq!(c.total_len(), 180);
    assert_eq!(c.total_capacity(), 4 * 2048);
    assert_eq!(c.checked_capacity(), Some(4 * 2048));
}

#[test]
fn enough_results_name_every_record_found() {
    let mut c = cluster(1, 8, 8);
    for seed in 0..2 {
        insert(&mut c, vector(seed), seed);
    }
    let top = c.search(vector(0), 1000);
    assert!(top.iter().any(|hit| hit.0 == 0));
    assert!(top.iter().any(|hit| hit.0 == 1));
    let far = (vector(0) ^ vector(1)).count_ones();
    for hit in top {
        assert_eq!(hit.1, if hit.0 == 0 { 0 } else { far });
    }
}

#[test]
fn asking_for_nothing_gives_nothing() {
    let mut c = cluster(1, 8, 8);
    insert(&mut c, vector(1), 1);
    assert!(c.search(vector(1), 0).is_empty());
}

#[test]
fn hits_are_cut_to_the_number_asked_for() {
    let ranked = vec![(1, 0), (1, 0), (2, 0), (1, 0), (3, 4), (3, 9)];
    assert_eq!(top_hits(&ranked, 10), vec![(1, 0), (2, 0), (1, 0), (3, 4)]);
    assert_eq!(top_hits(&ranked, 2), vec![(1, 0), (2, 0)]);
    assert_eq!(top_hits(&ranked, 0), vec![]);
    assert_eq!(top_hits(&vec![], 3), vec![]);
}

#[test]
fn nearer_records_come_first() {
    let mut c = cluster(1, 8, 8);
    let mut near = [0u64; 16];
    near[1] = 1;
    let mut far = [0u64; 16];
    far[1] = 0b111;
    insert(&mut c, U1024(far), 20);
    insert(&mut c, U1024(near), 10);
    assert_eq!(c.search(U1024::zero(), 2), vec![(10, 1, None), (20, 3, None)]);
}

#[test]
fn an_insertion_is_handed_out_for_the_logs() {
    let mut c = cluster(1, 64, 8);
    let ins = run(&mut c, vector(5), 5, true);
    let out = ThrushCluster::insert(&ins, Some("note")).ok().unwrap();
    assert_eq!(out.wal, insert_record(5, &vector(5)));
    let bytes = out.metadata.unwrap();
    assert_eq!(bytes, MetadataStore::put_record(5, "note"));
    c.text_written(5, 0);
    assert_eq!(c.search(vector(5), 1), vec![(5, 0, Some(1))]);
    assert_eq!(c.get(5), Some((vector(5), Some(1))));
    assert_eq!(c.metadata.get(5, &bytes), Some(String::from("note")));
    let ins = run(&mut c, vector(6), 6, true);
    assert!(ThrushCluster::insert(&ins, None).ok().unwrap().metadata.is_none());
}

#[test]
fn an_insertion_without_room_or_file_fails() {
    let mut c = cluster(1, 1, 1);
    insert(&mut c, vector(1), 1);
    let before = c.total_capacity();
    let ins = run(&mut c, vector(2), 2, false);
    assert_eq!(
        ThrushCluster::insert(&ins, Some("lost")).err(),
        Some("Insertion failed across all targets.")
    );
    assert_eq!(c.get(2), None);
    assert_eq!(c.total_capacity(), before);
}

#[test]
fn a_chunk_grows_by_overflow_files() {
    let mut c = cluster(1, 1, 1);
    let mut ins = c.begin_insert(vector(1), 1);
    let want = c.insert_internal(&mut ins).unwrap();
    assert_eq!((want.chunk, want.overflow, want.capacity, want.depth), (0, 1, 1, 1));
    c.overflow_internal(&mut ins, Some(region(1)));
    let want = c.insert_internal(&mut ins).unwrap();
    assert_eq!((want.chunk, want.overflow), (0, 2));
    c.overflow_internal(&mut ins, None);
    assert!(c.insert_internal(&mut ins).is_none());
    assert!(ThrushCluster::insert(&ins, None).is_ok());
    assert_eq!((c.total_len(), c.total_capacity()), (2, 2));
    assert_eq!(c.get(1), Some((vector(1), None)));
}

#[test]
fn a_record_in_an_overflow_file_is_found() {
    let mut c = cluster(1, 1, 1);
    for id in 0..5 {
        insert(&mut c, vector(id), id);
        assert_eq!(c.search(vector(id), 1), vec![(id, 0, None)]);
        assert!(c.total_len() <= c.total_capacity());
    }
    for id in 0..5 {
        assert_eq!(c.get(id), Some((vector(id), None)));
    }
}

#[test]
fn deleting_undoes_inserting() {
    let mut c = cluster(3, 64, 8);
    insert(&mut c, vector(9), 9);
    let before = (c.total_len(), c.search(vector(9), 4), c.search(U1024::zero(), 4));
    insert(&mut c, spread(), 1);
    assert!(c.delete(1).is_some());
    assert_eq!((c.total_len(), c.search(vector(9), 4), c.search(U1024::zero(), 4)), before);
}

#[test]
fn a_record_goes_to_each_target_once_per_table() {
    let mut c = cluster(1, 64, 8);
    insert(&mut c, vector(3), 3);
    assert_eq!(c.total_len(), 3);
}

fn spread() -> U1024 {
    let mut words = [0u64; 16];
    words[1] = 1 << 3;
    words[2] = 1 << 47;
    U1024(words)
}

#[test]
fn a_deleted_record_is_gone() {
    let mut c = cluster(3, 64, 8);
    assert_eq!(c.target_chunks(&spread()), [0, 1, 2]);
    insert(&mut c, vector(9), 9);
    let len = c.total_len();
    insert(&mut c, spread(), 1);
    assert_eq!(c.total_len(), len + 3);
    let other = c.get(9);
    let out = c.delete(1).unwrap();
    assert_eq!(out.wal, delete_record(1));
    assert!(out.metadata.is_none());
    assert_eq!(c.get(1), None);
    assert!(c.search(spread(), 10).iter().all(|hit| hit.0 != 1));
    assert_eq!(c.total_len(), len);
    assert_eq!(c.get(9), other);
    assert!(c.delete(1).is_none());
}

#[test]
fn deleting_takes_one_copy_of_each_chunk() {
    let mut c = cluster(1, 64, 8);
    insert(&mut c, vector(3), 3);
    assert!(c.delete(3).is_some());
    assert_eq!(c.get(3), Some((vector(3), None)));
    assert!(c.delete_internal(3));
    assert!(c.delete_internal(3));
    assert!(!c.delete_internal(3));
    assert_eq!(c.get(3), None);
}

#[test]
fn deleting_takes_the_text() {
    let mut c = cluster(3, 64, 8);
    insert(&mut c, spread(), 1);
    c.text_written(1, 40);
    let out = c.delete(1).unwrap();
    assert_eq!(out.metadata, Some(vec![2, 1, 0, 0, 0, 0, 0, 0, 0]));
    assert_eq!(c.metadata.locate(1), None);
}

#[test]
fn a_cluster_expands_by_a_chunk() {
    let mut c = cluster(3, 4, 2);
    assert_eq!(c.next_chunk(), Some(3));
    assert_eq!(c.try_expand(1, 1, Some(region(4))), Ok(()));
    assert_eq!(c.target_chunks(&spread()), [0, 3, 2]);
    assert_eq!(c.target_chunks(&U1024::zero()), [0, 0, 0]);
    assert_eq!(c.total_capacity(), 16);
    insert(&mut c, spread(), 8);
    assert_eq!(c.search(spread(), 1), vec![(8, 0, None)]);
}

#[test]
fn a_cluster_expands_up_to_its_limit() {
    let mut sizes = config(2, 4, 2);
    sizes.max_chunks = 3;
    let mut c =
        ThrushCluster::new(vec![vec![region(4)], vec![region(4)]], sizes, MetadataStore::new(&[]))
            .unwrap();
    assert_eq!(c.try_expand(0, 0, Some(region(4))), Ok(()));
    assert_eq!(c.next_chunk(), None);
    assert_eq!(c.try_expand(0, 1, Some(region(4))), Err("Max chunks reached."));
    assert_eq!(c.total_capacity(), 12);
}

#[test]
fn a_cluster_needs_a_file_to_expand() {
    let mut c = cluster(2, 4, 2);
    assert_eq!(c.try_expand(0, 0, None), Err("Disk allocation failed"));
    assert_eq!(c.try_expand(0, 0, Some(region(5))), Err("Disk allocation failed"));
    assert_eq!(c.next_chunk(), Some(2));
}

#[test]
fn the_log_is_emptied_last() {
    let mut c = cluster(2, 1, 1);
    for id in 0..3 {
        insert(&mut c, vector(id), id);
    }
    let files = c.total_capacity();
    assert!(files > 2);
    for done in 0..files {
        assert!(matches!(c.flush(done), FlushStep::Region(_)));
    }
    assert!(matches!(c.flush(files), FlushStep::Metadata));
    assert!(matches!(c.flush(files + 1), FlushStep::EmptyWal));
    assert!(matches!(c.flush(files + 2), FlushStep::Done));
}

#[test]
fn a_cluster_without_chunks_is_not_ready() {
    assert!(!cluster(0, 4, 1).is_ready());
    assert!(cluster(1, 4, 1).is_ready());
}

fn replay(c: &mut ThrushCluster, log: &[u8]) {
    let mut replay = Replay::new(log);
    while let ReplayStep::Overflow(want) = c.replay_wal(&mut replay) {
        c.replay_overflow(&mut replay, Some(region(want.capacity)));
    }
    assert!(!replay.has_insertion_left());
}

#[test]
fn logged_records_survive() {
    let mut log: Vec<u8> = Vec::new();
    for id in 0..12 {
        log.extend(insert_record(id, &vector(id)));
    }
    log.extend(delete_record(4));
    log.extend(insert_record(5, &vector(50)));
    let mut c = cluster(2, 2, 2);
    replay(&mut c, &log);
    for id in 0..12 {
        if id != 4 {
            assert!(c.search(vector(id), 5).contains(&(id, 0, None)));
        }
    }
    assert!(c.search(vector(50), 5).contains(&(5, 0, None)));
    assert_eq!(c.get(11), Some((vector(11), None)));
}

#[test]
fn a_replay_does_what_was_done() {
    let mut first = cluster(3, 16, 4);
    let mut log: Vec<u8> = Vec::new();
    for id in 0..10 {
        let ins = run(&mut first, vector(id), id, true);
        log.extend(ThrushCluster::insert(&ins, None).ok().unwrap().wal);
    }
    log.extend(first.delete(3).unwrap().wal);
    let mut second = cluster(3, 16, 4);
    replay(&mut second, &log);
    assert_eq!(second.total_len(), first.total_len());
    assert_eq!(second.total_capacity(), first.total_capacity());
    for id in 0..11 {
        assert_eq!(second.get(id), first.get(id));
    }
}

#[test]
fn a_log_cut_short_is_replayed_without_its_last_record() {
    let whole = insert_record(1, &vector(1));
    for cut in [1, 9, 60, 136] {
        let mut log = whole.clone();
        log.extend(&insert_record(2, &vector(2))[..cut]);
        let mut c = cluster(2, 16, 4);
        let mut torn = Replay::new(&log);
        assert!(matches!(c.replay_wal(&mut torn), ReplayStep::EmptyWal));
        assert_eq!(c.get(1), Some((vector(1), None)));
        assert_eq!(c.get(2), None);
        let mut other = cluster(2, 16, 4);
        replay(&mut other, &whole);
        assert_eq!(c.total_len(), other.total_len());
    }
}

#[test]
fn deletions_are_replayed_on_any_cluster() {
    let mut c = cluster(0, 4, 1);
    let mut log = delete_record(1);
    let mut deletions = Replay::new(&log);
    assert!(!deletions.has_insertion_left());
    assert!(matches!(c.replay_wal(&mut deletions), ReplayStep::EmptyWal));
    log.extend(insert_record(1, &vector(1)));
    assert!(Replay::new(&log).has_insertion_left());
}

fn files_of(c: &ThrushCluster, chunks: usize, files: usize) -> Vec<Vec<MmapMut>> {
    let mut lists: Vec<Vec<MmapMut>> = Vec::new();
    let mut done = 0;
    for _ in 0..chunks {
        let mut list = Vec::new();
        for _ in 0..files {
            if let FlushStep::Region(bytes) = c.flush(done) {
                let mut copy = MmapMut::map_anon(bytes.len()).unwrap();
                copy.copy_from_slice(bytes);
                list.push(copy);
            }
            done += 1;
        }
        lists.push(list);
    }
    assert!(matches!(c.flush(done), FlushStep::Metadata));
    lists
}

#[test]
fn a_cluster_opens_again_with_what_was_flushed() {
    let mut c = cluster(3, 1, 1);
    let mut log = Vec::new();
    for id in 0..2 {
        let mut words = spread().0;
        words[7] = id;
        let ins = run(&mut c, U1024(words), id, true);
        let out = ThrushCluster::insert(&ins, Some("note")).ok().unwrap();
        c.text_written(id, log.len() as u64);
        log.extend(out.metadata.unwrap());
    }
    assert_eq!(c.total_capacity(), 6);
    let again = ThrushCluster::new(files_of(&c, 3, 2), c.config, MetadataStore::new(&log)).unwrap();
    assert_eq!((again.total_len(), again.total_capacity()), (6, 6));
    for id in 0..2 {
        let (found, place) = again.get(id).unwrap();
        assert_eq!(found.0[7], id);
        assert_eq!(Some((found, place)), c.get(id));
        assert_eq!(again.metadata.get(id, &log), Some(String::from("note")));
        assert_eq!(again.search(found, 1), vec![(id, 0, place)]);
    }
}

#[test]
fn a_chunk_that_was_added_opens_again() {
    let mut c = cluster(3, 8, 2);
    assert_eq!(c.try_expand(0, 0, Some(region(8))), Ok(()));
    insert(&mut c, spread(), 5);
    let again =
        ThrushCluster::new(files_of(&c, 4, 1), c.config, MetadataStore::new(&[])).unwrap();
    assert_eq!(again.get(5), Some((spread(), None)));
    assert_eq!((again.total_len(), again.total_capacity()), (3, 32));
}

fn used_file() -> MmapMut {
    let mut used = region(1);
    used[128] = 77;
    used[136] = 1;
    used
}

#[test]
fn an_overflow_file_without_room_is_followed_by_the_next() {
    let mut c = cluster(3, 1, 1);
    insert(&mut c, spread(), 1);
    let mut ins = c.begin_insert(spread(), 2);
    let want = c.insert_internal(&mut ins).unwrap();
    assert_eq!((want.chunk, want.overflow), (0, 1));
    c.overflow_internal(&mut ins, Some(used_file()));
    let want = c.insert_internal(&mut ins).unwrap();
    assert_eq!((want.chunk, want.overflow), (0, 2));
    assert_eq!((c.total_capacity(), c.get(77)), (3, None));
    c.overflow_internal(&mut ins, Some(region(1)));
    while c.insert_internal(&mut ins).is_some() {
        c.overflow_internal(&mut ins, None);
    }
    assert!(ThrushCluster::insert(&ins, None).is_ok());
    assert_eq!(c.get(2), Some((spread(), None)));
    assert_eq!(c.total_capacity(), 5);
    assert!(c.get(77).is_some());
}

#[test]
fn a_failed_insertion_changes_nothing() {
    let mut c = cluster(3, 1, 1);
    insert(&mut c, spread(), 1);
    let before = (c.total_len(), c.total_capacity(), c.get(1), c.search(spread(), 9));
    let mut ins = c.begin_insert(spread(), 2);
    while let Some(want) = c.insert_internal(&mut ins) {
        let file = if want.overflow == 1 { Some(used_file()) } else { None };
        c.overflow_internal(&mut ins, file);
    }
    assert_eq!(
        ThrushCluster::insert(&ins, Some("lost")).err(),
        Some("Insertion failed across all targets.")
    );
    let after = (c.total_len(), c.total_capacity(), c.get(1), c.search(spread(), 9));
    assert_eq!(after, before);
    assert_eq!((c.get(2), c.get(77)), (None, None));
}

#[test]
fn other_records_keep_their_vectors() {
    let mut c = cluster(3, 1, 1);
    insert(&mut c, spread(), 1);
    for id in 2..6 {
        insert(&mut c, vector(id), id);
        assert_eq!(c.get(1), Some((spread(), None)));
    }
    assert_eq!(c.try_expand(0, 0, Some(region(1))), Ok(()));
    assert_eq!(c.get(1), Some((spread(), None)));
    assert!(c.delete(3).is_some());
    assert_eq!(c.get(1), Some((spread(), None)));
}

#[test]
fn a_replay_passes_over_an_insertion_that_fails() {
    let mut c = cluster(1, 1, 1);
    insert(&mut c, vector(1), 1);
    let len = c.total_len();
    let mut log = insert_record(2, &vector(2));
    log.extend(delete_record(1));
    let mut replay = Replay::new(&log);
    while matches!(c.replay_wal(&mut replay), ReplayStep::Overflow(_)) {
        c.replay_overflow(&mut replay, None);
    }
    assert_eq!(c.get(2), None);
    assert_eq!(c.total_len(), len - 1);
}

#[test]
fn the_server_answers_by_status() {
    assert_eq!(insert_status(&Ok(())), 200);
    assert_eq!(insert_status(&Err("full")), 507);
    assert_eq!(delete_status(true), 200);
    assert_eq!(delete_status(false), 404);
    let (status, body) = get_response(6, Some(vector(6)));
    let body = body.unwrap();
    assert_eq!((status, body.payload_id, body.vector), (200, 6, vector(6).0));
    let (status, body) = get_response(6, None);
    assert!(status == 404 && body.is_none());
}

#[test]
fn the_server_answers_with_ids_and_distances() {
    let results = search_response(&vec![(4, 0, Some(9)), (5, 7, None)]);
    let pairs: Vec<(u64, u32)> = results.iter().map(|r| (r.payload_id, r.distance)).collect();
    assert_eq!(pairs, vec![(4, 0), (5, 7)]);
}

#[test]
fn the_server_tells_its_size() {
    let mut c = cluster(2, 8, 4);
    insert(&mut c, vector(1), 1);
    let stats = stats_response(&c);
    assert_eq!((stats.capacity, stats.active_records), (16, 3));
}
