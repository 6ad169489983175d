//! Locality-sensitive hashing. Every hash reads a few fixed bits of a vector,
//! so that near vectors mostly share it. One family picks the chunks a vector
//! belongs to, the other the places inside a chunk.
use crate::u1024::{xor_words, U1024};
use vstd::arithmetic::div_mod::lemma_div_denominator;
use vstd::arithmetic::power2::{lemma2_to64, lemma_pow2_pos, lemma_pow2_unfold, pow2};
use vstd::prelude::*;

verus! {

/// How many routing tables pick chunks.
pub const NUM_TABLES: usize = 3;

/// How many slots a routing table has.
pub const TABLE_SLOTS: usize = 256;

/// The bits that each routing hash reads, as word and bit in the word.
pub const CLUSTER_HASH_BITS: [[(usize, u64); 8]; 3] = [
    [(0, 5), (2, 11), (4, 17), (6, 23), (8, 29), (10, 37), (12, 41), (14, 47)],
    [(1, 3), (3, 7), (5, 13), (7, 19), (9, 31), (11, 43), (13, 53), (15, 59)],
    [(0, 41), (2, 47), (4, 53), (6, 59), (8, 7), (10, 13), (12, 19), (14, 29)],
];

/// How many inner hashes place a vector inside a chunk.
pub const INNER_PROJECTIONS: usize = 8;

/// How many buckets an inner hash tells apart.
pub const INNER_BUCKETS: usize = 1024;

/// The bits that each inner hash reads, as word and bit in the word.
pub const INNER_HASH_BITS: [[(usize, u64); 10]; 8] = [
    [(0, 3), (2, 7), (4, 11), (6, 17), (8, 23), (10, 29), (12, 37), (14, 41), (1, 53), (3, 59)],
    [(1, 5), (3, 9), (5, 13), (7, 19), (9, 27), (11, 31), (13, 43), (15, 47), (0, 57), (2, 61)],
    [(2, 1), (4, 5), (6, 9), (8, 13), (10, 19), (12, 23), (14, 31), (0, 37), (3, 47), (5, 53)],
    [(3, 11), (5, 17), (7, 21), (9, 29), (11, 37), (13, 43), (15, 53), (1, 59), (4, 7), (6, 13)],
    [(4, 19), (6, 23), (8, 29), (10, 37), (12, 41), (14, 47), (0, 53), (2, 59), (5, 3), (7, 11)],
    [(5, 31), (7, 37), (9, 41), (11, 47), (13, 53), (15, 59), (1, 7), (3, 13), (6, 19), (8, 29)],
    [(6, 43), (8, 47), (10, 53), (12, 59), (14, 7), (0, 13), (2, 19), (4, 29), (7, 41), (9, 53)],
    [(7, 51), (9, 57), (11, 11), (13, 17), (15, 23), (1, 43), (3, 49), (5, 37), (8, 61), (10, 7)],
];

/// Whether `place` names a bit of a vector.
pub open spec fn in_vector(place: (usize, u64)) -> bool {
    place.0 < 16 && place.1 < 64
}

/// The bit of the vector at `place`, as a number.
pub open spec fn bit_at(words: Seq<u64>, place: (usize, u64)) -> nat {
    ((words[place.0 as int] >> place.1) & 1) as nat
}

/// The number that the bits at `places` spell, least significant first.
pub open spec fn sampled(words: Seq<u64>, places: Seq<(usize, u64)>) -> nat
    decreases places.len(),
{
    if places.len() == 0 {
        0
    } else {
        bit_at(words, places[0]) + 2 * sampled(words, places.drop_first())
    }
}

/// The slot of routing table `table` that a vector falls into.
pub open spec fn table_hash(words: Seq<u64>, table: int) -> nat {
    sampled(words, CLUSTER_HASH_BITS@[table]@)
}

/// The bucket that inner hash `proj` gives a vector.
pub open spec fn bucket(words: Seq<u64>, proj: int) -> nat {
    sampled(words, INNER_HASH_BITS@[proj]@)
}

proof fn lemma_bit_at(words: Seq<u64>, place: (usize, u64))
    ensures
        bit_at(words, place) <= 1,
{
    let w = words[place.0 as int];
    let b = place.1;
    assert((w >> b) & 1 <= 1) by (bit_vector);
}

/// `n` bits spell a number below 2 to the `n`.
pub proof fn lemma_sampled_bound(words: Seq<u64>, places: Seq<(usize, u64)>)
    ensures
        sampled(words, places) < pow2(places.len()),
    decreases places.len(),
{
    lemma2_to64();
    if places.len() > 0 {
        lemma_sampled_bound(words, places.drop_first());
        lemma_pow2_unfold(places.len());
        lemma_bit_at(words, places[0]);
    }
}

/// Routing hashes fall into the slots of a table, inner hashes into the
/// buckets.
pub proof fn lemma_hash_bounds(words: Seq<u64>)
    ensures
        forall|t: int| 0 <= t < NUM_TABLES ==> #[trigger] table_hash(words, t) < TABLE_SLOTS,
        forall|p: int| 0 <= p < INNER_PROJECTIONS ==> #[trigger] bucket(words, p) < INNER_BUCKETS,
{
    lemma2_to64();
    assert forall|t: int| 0 <= t < NUM_TABLES implies #[trigger] table_hash(words, t)
        < TABLE_SLOTS by {
        lemma_sampled_bound(words, CLUSTER_HASH_BITS@[t]@);
    }
    assert forall|p: int| 0 <= p < INNER_PROJECTIONS implies #[trigger] bucket(words, p)
        < INNER_BUCKETS by {
        lemma_sampled_bound(words, INNER_HASH_BITS@[p]@);
    }
}

/// A hash looks at nothing but the bits it samples: vectors that agree there
/// share it, however they differ elsewhere.
pub proof fn law_hash_reads_only_its_bits(
    a: Seq<u64>,
    b: Seq<u64>,
    places: Seq<(usize, u64)>,
)
    requires
        forall|i: int|
            0 <= i < places.len() ==> bit_at(a, #[trigger] places[i]) == bit_at(b, places[i]),
    ensures
        sampled(a, places) == sampled(b, places),
    decreases places.len(),
{
    if places.len() > 0 {
        let rest = places.drop_first();
        assert forall|i: int| 0 <= i < rest.len() implies bit_at(a, #[trigger] rest[i]) == bit_at(
            b,
            rest[i],
        ) by {
            assert(rest[i] == places[i + 1]);
        }
        law_hash_reads_only_its_bits(a, b, rest);
    }
}

/// The hash of what two vectors differ in is what their hashes differ in.
pub proof fn law_hash_of_difference(a: Seq<u64>, b: Seq<u64>, places: Seq<(usize, u64)>)
    requires
        a.len() == b.len() == 16,
        places.len() <= 10,
        forall|i: int| 0 <= i < places.len() ==> in_vector(#[trigger] places[i]),
    ensures
        sampled(xor_words(a, b), places) == (sampled(a, places) as u64) ^ (sampled(
            b,
            places,
        ) as u64),
    decreases places.len(),
{
    if places.len() == 0 {
        assert(0u64 ^ 0u64 == 0) by (bit_vector);
    } else {
        let rest = places.drop_first();
        assert forall|i: int| 0 <= i < rest.len() implies in_vector(#[trigger] rest[i]) by {
            assert(rest[i] == places[i + 1]);
        }
        law_hash_of_difference(a, b, rest);
        assert(in_vector(places[0]));
        let wa = a[places[0].0 as int];
        let wb = b[places[0].0 as int];
        let shift = places[0].1;
        let x = (wa >> shift) & 1;
        let y = (wb >> shift) & 1;
        assert(((wa ^ wb) >> shift) & 1 == x ^ y && x <= 1 && y <= 1) by (bit_vector)
            requires
                x == (wa >> shift) & 1,
                y == (wb >> shift) & 1,
        ;
        lemma_sampled_bound(a, rest);
        lemma_sampled_bound(b, rest);
        lemma2_to64();
        if rest.len() < 9 {
            vstd::arithmetic::power2::lemma_pow2_strictly_increases(rest.len(), 9);
        }
        let p = sampled(a, rest) as u64;
        let q = sampled(b, rest) as u64;
        assert(((x + 2 * p) as u64) ^ ((y + 2 * q) as u64) == (x ^ y) + 2 * (p ^ q))
            by (bit_vector)
            requires
                x <= 1,
                y <= 1,
                p < 512,
                q < 512,
        ;
    }
}

fn sample(vector: &U1024, places: &[(usize, u64)]) -> (h: usize)
    requires
        places@.len() <= 10,
        forall|i: int| 0 <= i < places@.len() ==> in_vector(#[trigger] places@[i]),
    ensures
        h == sampled(vector@, places@),
{
    let mut h: usize = 0;
    let mut k: usize = places.len();
    proof {
        assert(places@.skip(k as int).len() == 0);
    }
    while k > 0
        invariant
            k <= places@.len() <= 10,
            forall|i: int| 0 <= i < places@.len() ==> in_vector(#[trigger] places@[i]),
            h == sampled(vector@, places@.skip(k as int)),
        decreases k,
    {
        k -= 1;
        let (word, shift) = places[k];
        proof {
            assert(in_vector(places@[k as int]));
            assert(places@.skip(k as int).drop_first() =~= places@.skip(k + 1));
            lemma_bit_at(vector@, places@[k as int]);
            let rest = places@.skip(k + 1);
            lemma_sampled_bound(vector@, rest);
            lemma2_to64();
            if rest.len() < 9 {
                vstd::arithmetic::power2::lemma_pow2_strictly_increases(rest.len(), 9);
            }
        }
        h = ((vector.0[word] >> shift) & 1) as usize + 2 * h;
    }
    assert(places@.skip(0) =~= places@);
    h
}

/// The slot of routing table `table` that `vector` falls into.
pub fn cluster_table_hash(vector: &U1024, table: usize) -> (h: usize)
    requires
        table < NUM_TABLES,
    ensures
        h == table_hash(vector@, table as int),
        h < TABLE_SLOTS,
{
    proof {
        lemma_hash_bounds(vector@);
        assert forall|k: int| 0 <= k < 8 implies in_vector(
            #[trigger] CLUSTER_HASH_BITS@[table as int]@[k],
        ) by {}
    }
    sample(vector, &CLUSTER_HASH_BITS[table])
}

/// The bucket that inner hash `proj` gives `vector`.
pub fn inner_bucket(vector: &U1024, proj: usize) -> (h: usize)
    requires
        proj < INNER_PROJECTIONS,
    ensures
        h == bucket(vector@, proj as int),
        h < INNER_BUCKETS,
{
    proof {
        lemma_hash_bounds(vector@);
        assert forall|k: int| 0 <= k < 10 implies in_vector(
            #[trigger] INNER_HASH_BITS@[proj as int]@[k],
        ) by {}
    }
    sample(vector, &INNER_HASH_BITS[proj])
}

/// Bit `k` of a hash is the bit of the vector at place `k`, and a hash has no
/// other bits.
pub proof fn law_hash_spells_its_bits(words: Seq<u64>, places: Seq<(usize, u64)>, k: nat)
    requires
        k < places.len(),
    ensures
        (sampled(words, places) / pow2(k)) % 2 == (words[places[k as int].0 as int]
            >> places[k as int].1) & 1,
        sampled(words, places) < pow2(places.len()),
    decreases k,
{
    lemma2_to64();
    lemma_sampled_bound(words, places);
    lemma_bit_at(words, places[0]);
    let rest = places.drop_first();
    let h = sampled(words, places);
    assert(h == bit_at(words, places[0]) + 2 * sampled(words, rest));
    if k == 0 {
        assert(h / pow2(0) == h);
        assert(h % 2 == bit_at(words, places[0]));
    } else {
        let m = (k - 1) as nat;
        law_hash_spells_its_bits(words, rest, m);
        lemma_pow2_unfold(k);
        lemma_pow2_pos(m);
        lemma_div_denominator(h as int, 2, pow2(m) as int);
        assert(h / 2 == sampled(words, rest));
        assert(h / pow2(k) == (h / 2) / pow2(m));
        assert(rest[m as int] == places[k as int]);
    }
}

/// Bit `bit` of word `word`.
pub open spec fn bit_of(words: Seq<u64>, word: int, bit: u64) -> nat {
    ((words[word] >> bit) & 1) as nat
}

/// Which bits of a vector pick its chunks: the routing hashes are spelled by
/// these, least significant first.
pub proof fn law_routing_hashes_read_these_bits(words: Seq<u64>)
    ensures
        table_hash(words, 0) == bit_of(words, 0, 5) + 2 * bit_of(words, 2, 11)
            + 4 * bit_of(words, 4, 17) + 8 * bit_of(words, 6, 23) + 16 * bit_of(words, 8, 29)
            + 32 * bit_of(words, 10, 37) + 64 * bit_of(words, 12, 41) + 128 * bit_of(words, 14, 47),
        table_hash(words, 1) == bit_of(words, 1, 3) + 2 * bit_of(words, 3, 7)
            + 4 * bit_of(words, 5, 13) + 8 * bit_of(words, 7, 19) + 16 * bit_of(words, 9, 31)
            + 32 * bit_of(words, 11, 43) + 64 * bit_of(words, 13, 53) + 128 * bit_of(words, 15, 59),
        table_hash(words, 2) == bit_of(words, 0, 41) + 2 * bit_of(words, 2, 47)
            + 4 * bit_of(words, 4, 53) + 8 * bit_of(words, 6, 59) + 16 * bit_of(words, 8, 7)
            + 32 * bit_of(words, 10, 13) + 64 * bit_of(words, 12, 19) + 128 * bit_of(words, 14, 29),
{
    assert(CLUSTER_HASH_BITS@[0]@ =~= seq![
        (0usize, 5u64), (2usize, 11u64), (4usize, 17u64), (6usize, 23u64),
        (8usize, 29u64), (10usize, 37u64), (12usize, 41u64), (14usize, 47u64),
    ]);
    lemma_spelled_8(
        words,
        seq![
            (0usize, 5u64), (2usize, 11u64), (4usize, 17u64), (6usize, 23u64),
            (8usize, 29u64), (10usize, 37u64), (12usize, 41u64), (14usize, 47u64),
        ],
    );
    assert(CLUSTER_HASH_BITS@[1]@ =~= seq![
        (1usize, 3u64), (3usize, 7u64), (5usize, 13u64), (7usize, 19u64),
        (9usize, 31u64), (11usize, 43u64), (13usize, 53u64), (15usize, 59u64),
    ]);
    lemma_spelled_8(
        words,
        seq![
            (1usize, 3u64), (3usize, 7u64), (5usize, 13u64), (7usize, 19u64),
            (9usize, 31u64), (11usize, 43u64), (13usize, 53u64), (15usize, 59u64),
        ],
    );
    assert(CLUSTER_HASH_BITS@[2]@ =~= seq![
        (0usize, 41u64), (2usize, 47u64), (4usize, 53u64), (6usize, 59u64),
        (8usize, 7u64), (10usize, 13u64), (12usize, 19u64), (14usize, 29u64),
    ]);
    lemma_spelled_8(
        words,
        seq![
            (0usize, 41u64), (2usize, 47u64), (4usize, 53u64), (6usize, 59u64),
            (8usize, 7u64), (10usize, 13u64), (12usize, 19u64), (14usize, 29u64),
        ],
    );
}

proof fn lemma_spelled_8(words: Seq<u64>, p: Seq<(usize, u64)>)
    requires
        p.len() == 8,
    ensures
        sampled(words, p) == bit_at(words, p[0]) + 2 * bit_at(words, p[1]) + 4 * bit_at(
            words,
            p[2],
        ) + 8 * bit_at(words, p[3]) + 16 * bit_at(words, p[4]) + 32 * bit_at(words, p[5]) + 64
            * bit_at(words, p[6]) + 128 * bit_at(words, p[7]),
{
    reveal_with_fuel(sampled, 9);
}

proof fn lemma_spelled_10(words: Seq<u64>, p: Seq<(usize, u64)>)
    requires
        p.len() == 10,
    ensures
        sampled(words, p) == bit_at(words, p[0]) + 2 * bit_at(words, p[1]) + 4 * bit_at(
            words,
            p[2],
        ) + 8 * bit_at(words, p[3]) + 16 * bit_at(words, p[4]) + 32 * bit_at(words, p[5]) + 64
            * bit_at(words, p[6]) + 128 * bit_at(words, p[7]) + 256 * bit_at(words, p[8]) + 512
            * bit_at(words, p[9]),
{
    reveal_with_fuel(sampled, 11);
}

/// Which bits of a vector pick its places in a chunk: the inner hashes are spelled
/// by these, least significant first.
pub proof fn law_inner_hashes_read_these_bits(words: Seq<u64>)
    ensures
        bucket(words, 0) == bit_of(words, 0, 3) + 2 * bit_of(words, 2, 7)
            + 4 * bit_of(words, 4, 11) + 8 * bit_of(words, 6, 17) + 16 * bit_of(words, 8, 23)
            + 32 * bit_of(words, 10, 29) + 64 * bit_of(words, 12, 37) + 128 * bit_of(words, 14, 41)
            + 256 * bit_of(words, 1, 53) + 512 * bit_of(words, 3, 59),
        bucket(words, 1) == bit_of(words, 1, 5) + 2 * bit_of(words, 3, 9)
            + 4 * bit_of(words, 5, 13) + 8 * bit_of(words, 7, 19) + 16 * bit_of(words, 9, 27)
            + 32 * bit_of(words, 11, 31) + 64 * bit_of(words, 13, 43) + 128 * bit_of(words, 15, 47)
            + 256 * bit_of(words, 0, 57) + 512 * bit_of(words, 2, 61),
        bucket(words, 2) == bit_of(words, 2, 1) + 2 * bit_of(words, 4, 5) + 4 * bit_of(words, 6, 9)
            + 8 * bit_of(words, 8, 13) + 16 * bit_of(words, 10, 19) + 32 * bit_of(words, 12, 23)
            + 64 * bit_of(words, 14, 31) + 128 * bit_of(words, 0, 37) + 256 * bit_of(words, 3, 47)
            + 512 * bit_of(words, 5, 53),
        bucket(words, 3) == bit_of(words, 3, 11) + 2 * bit_of(words, 5, 17)
            + 4 * bit_of(words, 7, 21) + 8 * bit_of(words, 9, 29) + 16 * bit_of(words, 11, 37)
            + 32 * bit_of(words, 13, 43) + 64 * bit_of(words, 15, 53) + 128 * bit_of(words, 1, 59)
            + 256 * bit_of(words, 4, 7) + 512 * bit_of(words, 6, 13),
        bucket(words, 4) == bit_of(words, 4, 19) + 2 * bit_of(words, 6, 23)
            + 4 * bit_of(words, 8, 29) + 8 * bit_of(words, 10, 37) + 16 * bit_of(words, 12, 41)
            + 32 * bit_of(words, 14, 47) + 64 * bit_of(words, 0, 53) + 128 * bit_of(words, 2, 59)
            + 256 * bit_of(words, 5, 3) + 512 * bit_of(words, 7, 11),
        bucket(words, 5) == bit_of(words, 5, 31) + 2 * bit_of(words, 7, 37)
            + 4 * bit_of(words, 9, 41) + 8 * bit_of(words, 11, 47) + 16 * bit_of(words, 13, 53)
            + 32 * bit_of(words, 15, 59) + 64 * bit_of(words, 1, 7) + 128 * bit_of(words, 3, 13)
            + 256 * bit_of(words, 6, 19) + 512 * bit_of(words, 8, 29),
        bucket(words, 6) == bit_of(words, 6, 43) + 2 * bit_of(words, 8, 47)
            + 4 * bit_of(words, 10, 53) + 8 * bit_of(words, 12, 59) + 16 * bit_of(words, 14, 7)
            + 32 * bit_of(words, 0, 13) + 64 * bit_of(words, 2, 19) + 128 * bit_of(words, 4, 29)
            + 256 * bit_of(words, 7, 41) + 512 * bit_of(words, 9, 53),
        bucket(words, 7) == bit_of(words, 7, 51) + 2 * bit_of(words, 9, 57)
            + 4 * bit_of(words, 11, 11) + 8 * bit_of(words, 13, 17) + 16 * bit_of(words, 15, 23)
            + 32 * bit_of(words, 1, 43) + 64 * bit_of(words, 3, 49) + 128 * bit_of(words, 5, 37)
            + 256 * bit_of(words, 8, 61) + 512 * bit_of(words, 10, 7),
{
    assert(INNER_HASH_BITS@[0]@ =~= seq![
        (0usize, 3u64), (2usize, 7u64), (4usize, 11u64), (6usize, 17u64),
        (8usize, 23u64), (10usize, 29u64), (12usize, 37u64), (14usize, 41u64),
        (1usize, 53u64), (3usize, 59u64),
    ]);
    lemma_spelled_10(
        words,
        seq![
            (0usize, 3u64), (2usize, 7u64), (4usize, 11u64), (6usize, 17u64),
            (8usize, 23u64), (10usize, 29u64), (12usize, 37u64), (14usize, 41u64),
            (1usize, 53u64), (3usize, 59u64),
        ],
    );
    assert(INNER_HASH_BITS@[1]@ =~= seq![
        (1usize, 5u64), (3usize, 9u64), (5usize, 13u64), (7usize, 19u64),
        (9usize, 27u64), (11usize, 31u64), (13usize, 43u64), (15usize, 47u64),
        (0usize, 57u64), (2usize, 61u64),
    ]);
    lemma_spelled_10(
        words,
        seq![
            (1usize, 5u64), (3usize, 9u64), (5usize, 13u64), (7usize, 19u64),
            (9usize, 27u64), (11usize, 31u64), (13usize, 43u64), (15usize, 47u64),
            (0usize, 57u64), (2usize, 61u64),
        ],
    );
    assert(INNER_HASH_BITS@[2]@ =~= seq![
        (2usize, 1u64), (4usize, 5u64), (6usize, 9u64), (8usize, 13u64),
        (10usize, 19u64), (12usize, 23u64), (14usize, 31u64), (0usize, 37u64),
        (3usize, 47u64), (5usize, 53u64),
    ]);
    lemma_spelled_10(
        words,
        seq![
            (2usize, 1u64), (4usize, 5u64), (6usize, 9u64), (8usize, 13u64),
            (10usize, 19u64), (12usize, 23u64), (14usize, 31u64), (0usize, 37u64),
            (3usize, 47u64), (5usize, 53u64),
        ],
    );
    assert(INNER_HASH_BITS@[3]@ =~= seq![
        (3usize, 11u64), (5usize, 17u64), (7usize, 21u64), (9usize, 29u64),
        (11usize, 37u64), (13usize, 43u64), (15usize, 53u64), (1usize, 59u64),
        (4usize, 7u64), (6usize, 13u64),
    ]);
    lemma_spelled_10(
        words,
        seq![
            (3usize, 11u64), (5usize, 17u64), (7usize, 21u64), (9usize, 29u64),
            (11usize, 37u64), (13usize, 43u64), (15usize, 53u64), (1usize, 59u64),
            (4usize, 7u64), (6usize, 13u64),
        ],
    );
    assert(INNER_HASH_BITS@[4]@ =~= seq![
        (4usize, 19u64), (6usize, 23u64), (8usize, 29u64), (10usize, 37u64),
        (12usize, 41u64), (14usize, 47u64), (0usize, 53u64), (2usize, 59u64),
        (5usize, 3u64), (7usize, 11u64),
    ]);
    lemma_spelled_10(
        words,
        seq![
            (4usize, 19u64), (6usize, 23u64), (8usize, 29u64), (10usize, 37u64),
            (12usize, 41u64), (14usize, 47u64), (0usize, 53u64), (2usize, 59u64),
            (5usize, 3u64), (7usize, 11u64),
        ],
    );
    assert(INNER_HASH_BITS@[5]@ =~= seq![
        (5usize, 31u64), (7usize, 37u64), (9usize, 41u64), (11usize, 47u64),
        (13usize, 53u64), (15usize, 59u64), (1usize, 7u64), (3usize, 13u64),
        (6usize, 19u64), (8usize, 29u64),
    ]);
    lemma_spelled_10(
        words,
        seq![
            (5usize, 31u64), (7usize, 37u64), (9usize, 41u64), (11usize, 47u64),
            (13usize, 53u64), (15usize, 59u64), (1usize, 7u64), (3usize, 13u64),
            (6usize, 19u64), (8usize, 29u64),
        ],
    );
    assert(INNER_HASH_BITS@[6]@ =~= seq![
        (6usize, 43u64), (8usize, 47u64), (10usize, 53u64), (12usize, 59u64),
        (14usize, 7u64), (0usize, 13u64), (2usize, 19u64), (4usize, 29u64),
        (7usize, 41u64), (9usize, 53u64),
    ]);
    lemma_spelled_10(
        words,
        seq![
            (6usize, 43u64), (8usize, 47u64), (10usize, 53u64), (12usize, 59u64),
            (14usize, 7u64), (0usize, 13u64), (2usize, 19u64), (4usize, 29u64),
            (7usize, 41u64), (9usize, 53u64),
        ],
    );
    assert(INNER_HASH_BITS@[7]@ =~= seq![
        (7usize, 51u64), (9usize, 57u64), (11usize, 11u64), (13usize, 17u64),
        (15usize, 23u64), (1usize, 43u64), (3usize, 49u64), (5usize, 37u64),
        (8usize, 61u64), (10usize, 7u64),
    ]);
    lemma_spelled_10(
        words,
        seq![
            (7usize, 51u64), (9usize, 57u64), (11usize, 11u64), (13usize, 17u64),
            (15usize, 23u64), (1usize, 43u64), (3usize, 49u64), (5usize, 37u64),
            (8usize, 61u64), (10usize, 7u64),
        ],
    );
}

} // verus!
