use thrushdb::lsh::{cluster_table_hash, inner_bucket};
use thrushdb::U1024;

fn bit(word: usize, at: u64) -> U1024 {
    let mut words = [0u64; 16];
    words[word] = 1 << at;
    U1024(words)
}

fn distance(a: U1024, b: U1024) -> u32 {
    (a ^ b).count_ones()
}

#[test]
fn count_ones_counts_every_word() {
    assert_eq!(U1024([3; 16]).count_ones(), 32);
    assert_eq!(U1024([u64::MAX; 16]).count_ones(), 1024);
    assert_eq!(U1024::zero().count_ones(), 0);
}

#[test]
fn zero_has_no_bits() {
    assert_eq!(U1024::zero(), U1024([0; 16]));
}

#[test]
fn bit_operations_work_word_by_word() {
    let mut a = [0u64; 16];
    let mut b = [0u64; 16];
    for i in 0..16 {
        a[i] = 0b1100 + ((i as u64) << 8);
        b[i] = 0b1010;
    }
    let (x, y) = (U1024(a), U1024(b));
    for i in 0..16 {
        assert_eq!((x & y).0[i], 0b1000);
        assert_eq!((x | y).0[i], 0b1110 + ((i as u64) << 8));
        assert_eq!((x ^ y).0[i], 0b0110 + ((i as u64) << 8));
    }
}

#[test]
fn distance_is_a_metric() {
    let a = U1024([0x0123_4567_89ab_cdef; 16]);
    let b = U1024([0xfedc_ba98_7654_3210; 16]);
    let c = U1024([0xffff_0000_ffff_0000; 16]);
    assert_eq!(distance(a, a), 0);
    assert_eq!(distance(a, b), 1024);
    assert_eq!(distance(a, c), distance(c, a));
    assert!(distance(a, b) <= distance(a, c) + distance(c, b));
    assert_ne!(distance(a, bit(0, 0)), 0);
}

#[test]
fn routing_hashes_sample_their_bits() {
    assert_eq!(cluster_table_hash(&bit(0, 5), 0), 1);
    assert_eq!(cluster_table_hash(&bit(14, 47), 0), 128);
    assert_eq!(cluster_table_hash(&bit(3, 7), 1), 2);
    assert_eq!(cluster_table_hash(&bit(8, 7), 2), 16);
    assert_eq!(cluster_table_hash(&bit(0, 5), 1), 0);
    assert_eq!(cluster_table_hash(&U1024([u64::MAX; 16]), 2), 255);
}

#[test]
fn inner_hashes_sample_their_bits() {
    assert_eq!(inner_bucket(&bit(0, 3), 0), 1);
    assert_eq!(inner_bucket(&bit(3, 59), 0), 512);
    assert_eq!(inner_bucket(&bit(10, 7), 7), 512);
    assert_eq!(inner_bucket(&bit(4, 5), 2), 2);
    assert_eq!(inner_bucket(&bit(0, 3), 1), 0);
    assert_eq!(inner_bucket(&U1024([u64::MAX; 16]), 5), 1023);
}

#[test]
fn hashes_differ_as_vectors_do() {
    let a = U1024([0x0123_4567_89ab_cdef; 16]);
    let b = U1024([0xf00f_1221_8765_3c3c; 16]);
    for table in 0..3 {
        assert_eq!(
            cluster_table_hash(&(a ^ b), table),
            cluster_table_hash(&a, table) ^ cluster_table_hash(&b, table)
        );
    }
    for proj in 0..8 {
        assert_eq!(inner_bucket(&(a ^ b), proj), inner_bucket(&a, proj) ^ inner_bucket(&b, proj));
    }
}

#[test]
fn hashes_read_only_their_bits() {
    let near = bit(0, 0);
    for table in 0..3 {
        assert_eq!(cluster_table_hash(&near, table), cluster_table_hash(&U1024::zero(), table));
    }
    for proj in 0..8 {
        assert_eq!(inner_bucket(&near, proj), inner_bucket(&U1024::zero(), proj));
    }
}
