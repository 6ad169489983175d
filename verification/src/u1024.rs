//! 1024-bit binary signatures and their Hamming distance.
use std::ops::{BitAnd, BitOr, BitXor};
use vstd::prelude::*;
use vstd::std_specs::ops::{BitAndSpecImpl, BitOrSpecImpl, BitXorSpecImpl};

verus! {

/// How many bits of `w` are set.
pub open spec fn ones(w: u64) -> nat
    decreases w,
{
    if w == 0 {
        0
    } else {
        (w % 2) as nat + ones(w / 2)
    }
}

/// How many bits of a sequence of words are set.
pub open spec fn weight(words: Seq<u64>) -> nat
    decreases words.len(),
{
    if words.len() == 0 {
        0
    } else {
        weight(words.drop_last()) + ones(words.last())
    }
}

pub open spec fn and_words(a: Seq<u64>, b: Seq<u64>) -> Seq<u64> {
    Seq::new(a.len(), |i: int| a[i] & b[i])
}

pub open spec fn or_words(a: Seq<u64>, b: Seq<u64>) -> Seq<u64> {
    Seq::new(a.len(), |i: int| a[i] | b[i])
}

pub open spec fn xor_words(a: Seq<u64>, b: Seq<u64>) -> Seq<u64> {
    Seq::new(a.len(), |i: int| a[i] ^ b[i])
}

/// The Hamming distance: how many bits differ between `a` and `b`.
pub open spec fn hamming(a: Seq<u64>, b: Seq<u64>) -> nat {
    weight(xor_words(a, b))
}

/// `u64::count_ones` of the standard library: "the number of ones in the binary
/// representation".
pub assume_specification[ u64::count_ones ](w: u64) -> (n: u32)
    ensures
        n == ones(w),
;

/// A vector quantized to 1024 bits, as sixteen words.
#[derive(Clone, Copy, PartialEq, Eq, Hash, Debug)]
pub struct U1024(pub [u64; 16]);

impl View for U1024 {
    type V = Seq<u64>;

    open spec fn view(&self) -> Seq<u64> {
        self.0@
    }
}

/// The vector that holds the sixteen given words.
pub open spec fn with_words(words: Seq<u64>) -> U1024 {
    choose|v: U1024| v@ == words
}

/// Vectors that hold the same words are equal.
pub proof fn lemma_same_words(a: U1024, b: U1024)
    requires
        a@ == b@,
    ensures
        a == b,
{
    assert forall|i: int| 0 <= i < 16 implies a.0[i] == b.0[i] by {
        assert(a@[i] == b@[i]);
    }
    assert(a.0 =~= b.0);
}

proof fn lemma_with_words(v: U1024)
    ensures
        with_words(v@) == v,
{
    lemma_same_words(v, with_words(v@));
}

impl U1024 {
    /// The vector with no bit set.
    pub fn zero() -> (v: U1024)
        ensures
            v@ == Seq::new(16, |i: int| 0u64),
    {
        let v = U1024([0; 16]);
        assert(v@ =~= Seq::new(16, |i: int| 0u64));
        v
    }

    /// How many bits are set.
    pub fn count_ones(&self) -> (n: u32)
        ensures
            n == weight(self@),
            n <= 1024,
    {
        let mut n: u32 = 0;
        let mut i: usize = 0;
        proof {
            assert(self@.take(0).len() == 0);
        }
        while i < 16
            invariant
                i <= 16,
                n == weight(self@.take(i as int)),
                n <= 64 * i,
            decreases 16 - i,
        {
            proof {
                assert(self@.take(i + 1).drop_last() =~= self@.take(i as int));
                lemma_ones_bound(self@[i as int]);
            }
            n = n + self.0[i].count_ones();
            i += 1;
        }
        assert(self@.take(16) =~= self@);
        n
    }
}

impl BitAnd for U1024 {
    type Output = U1024;

    fn bitand(self, rhs: U1024) -> (out: U1024)
        ensures
            out@ == and_words(self@, rhs@),
    {
        let mut out: [u64; 16] = [0; 16];
        let mut i: usize = 0;
        while i < 16
            invariant
                i <= 16,
                forall|j: int| 0 <= j < i ==> out@[j] == self@[j] & rhs@[j],
            decreases 16 - i,
        {
            out[i] = self.0[i] & rhs.0[i];
            i += 1;
        }
        assert(out@ =~= and_words(self@, rhs@));
        proof {
            lemma_with_words(U1024(out));
        }
        U1024(out)
    }
}

impl BitAndSpecImpl for U1024 {
    open spec fn obeys_bitand_spec() -> bool {
        true
    }

    open spec fn bitand_req(self, rhs: U1024) -> bool {
        true
    }

    open spec fn bitand_spec(self, rhs: U1024) -> U1024 {
        with_words(and_words(self@, rhs@))
    }
}

impl BitOr for U1024 {
    type Output = U1024;

    fn bitor(self, rhs: U1024) -> (out: U1024)
        ensures
            out@ == or_words(self@, rhs@),
    {
        let mut out: [u64; 16] = [0; 16];
        let mut i: usize = 0;
        while i < 16
            invariant
                i <= 16,
                forall|j: int| 0 <= j < i ==> out@[j] == self@[j] | rhs@[j],
            decreases 16 - i,
        {
            out[i] = self.0[i] | rhs.0[i];
            i += 1;
        }
        assert(out@ =~= or_words(self@, rhs@));
        proof {
            lemma_with_words(U1024(out));
        }
        U1024(out)
    }
}

impl BitOrSpecImpl for U1024 {
    open spec fn obeys_bitor_spec() -> bool {
        true
    }

    open spec fn bitor_req(self, rhs: U1024) -> bool {
        true
    }

    open spec fn bitor_spec(self, rhs: U1024) -> U1024 {
        with_words(or_words(self@, rhs@))
    }
}

impl BitXor for U1024 {
    type Output = U1024;

    fn bitxor(self, rhs: U1024) -> (out: U1024)
        ensures
            out@ == xor_words(self@, rhs@),
    {
        let mut out: [u64; 16] = [0; 16];
        let mut i: usize = 0;
        while i < 16
            invariant
                i <= 16,
                forall|j: int| 0 <= j < i ==> out@[j] == self@[j] ^ rhs@[j],
            decreases 16 - i,
        {
            out[i] = self.0[i] ^ rhs.0[i];
            i += 1;
        }
        assert(out@ =~= xor_words(self@, rhs@));
        proof {
            lemma_with_words(U1024(out));
        }
        U1024(out)
    }
}

impl BitXorSpecImpl for U1024 {
    open spec fn obeys_bitxor_spec() -> bool {
        true
    }

    open spec fn bitxor_req(self, rhs: U1024) -> bool {
        true
    }

    open spec fn bitxor_spec(self, rhs: U1024) -> U1024 {
        with_words(xor_words(self@, rhs@))
    }
}

proof fn lemma_ones_below(w: u64, bits: nat)
    requires
        w < vstd::arithmetic::power2::pow2(bits),
    ensures
        ones(w) <= bits,
    decreases bits,
{
    if bits == 0 {
        vstd::arithmetic::power2::lemma2_to64();
    } else if w != 0 {
        vstd::arithmetic::power2::lemma_pow2_unfold(bits);
        lemma_ones_below(w / 2, (bits - 1) as nat);
    }
}

proof fn lemma_ones_zero(w: u64)
    ensures
        ones(w) == 0 <==> w == 0,
    decreases w,
{
    if w != 0 {
        lemma_ones_zero(w / 2);
    }
}

proof fn lemma_ones_xor(x: u64, y: u64)
    ensures
        ones(x ^ y) <= ones(x) + ones(y),
    decreases x + y,
{
    assert(x ^ 0 == x) by (bit_vector);
    assert(0 ^ y == y) by (bit_vector);
    if x != 0 && y != 0 {
        assert((x ^ y) / 2 == (x / 2) ^ (y / 2)) by (bit_vector);
        assert((x ^ y) % 2 == 0 || x % 2 == 1 || y % 2 == 1) by (bit_vector);
        lemma_ones_xor(x / 2, y / 2);
    }
}

proof fn lemma_weight_bound(words: Seq<u64>)
    ensures
        weight(words) <= 64 * words.len(),
    decreases words.len(),
{
    if words.len() > 0 {
        lemma_weight_bound(words.drop_last());
        lemma_ones_bound(words.last());
    }
}

/// Two vectors of sixteen words differ in at most 1024 bits.
pub proof fn law_hamming_at_most_1024(a: U1024, b: U1024)
    ensures
        hamming(a@, b@) <= 1024,
{
    lemma_weight_bound(xor_words(a@, b@));
}

/// The distance between two vectors is zero exactly where they are equal.
pub proof fn law_hamming_zero_iff_equal(a: Seq<u64>, b: Seq<u64>)
    requires
        a.len() == b.len(),
    ensures
        hamming(a, b) == 0 <==> a == b,
    decreases a.len(),
{
    if a.len() > 0 {
        let x = a.last();
        let y = b.last();
        law_hamming_zero_iff_equal(a.drop_last(), b.drop_last());
        assert(xor_words(a, b).drop_last() =~= xor_words(a.drop_last(), b.drop_last()));
        lemma_ones_zero(x ^ y);
        assert(x ^ y == 0 <==> x == y) by (bit_vector);
        if a.drop_last() == b.drop_last() && x == y {
            assert(a =~= a.drop_last().push(x));
            assert(b =~= b.drop_last().push(y));
        }
    } else {
        assert(a =~= b);
    }
}

/// The distance is the same in both directions.
pub proof fn law_hamming_symmetric(a: Seq<u64>, b: Seq<u64>)
    requires
        a.len() == b.len(),
    ensures
        hamming(a, b) == hamming(b, a),
{
    assert forall|i: int| 0 <= i < a.len() implies a[i] ^ b[i] == b[i] ^ a[i] by {
        let x = a[i];
        let y = b[i];
        assert(x ^ y == y ^ x) by (bit_vector);
    }
    assert(xor_words(a, b) =~= xor_words(b, a));
}

/// A detour over `b` is never shorter than the way from `a` to `c`.
pub proof fn law_hamming_triangle(a: Seq<u64>, b: Seq<u64>, c: Seq<u64>)
    requires
        a.len() == b.len(),
        b.len() == c.len(),
    ensures
        hamming(a, c) <= hamming(a, b) + hamming(b, c),
    decreases a.len(),
{
    if a.len() > 0 {
        let x = a.last();
        let y = b.last();
        let z = c.last();
        law_hamming_triangle(a.drop_last(), b.drop_last(), c.drop_last());
        assert(xor_words(a, b).drop_last() =~= xor_words(a.drop_last(), b.drop_last()));
        assert(xor_words(b, c).drop_last() =~= xor_words(b.drop_last(), c.drop_last()));
        assert(xor_words(a, c).drop_last() =~= xor_words(a.drop_last(), c.drop_last()));
        lemma_ones_xor(x ^ y, y ^ z);
        assert((x ^ y) ^ (y ^ z) == x ^ z) by (bit_vector);
    }
}

/// A word has at most 64 set bits.
pub proof fn lemma_ones_bound(w: u64)
    ensures
        ones(w) <= 64,
{
    vstd::arithmetic::power2::lemma2_to64();
    lemma_ones_below(w, 64);
}

proof fn lemma_ones_set_bit(w: u64, b: u64)
    requires
        b < 64,
        (w >> b) & 1 == 0,
    ensures
        ones(w | (1u64 << b)) == ones(w) + 1,
    decreases b,
{
    let v = w | (1u64 << b);
    if b == 0 {
        assert(v % 2 == 1 && w % 2 == 0 && v / 2 == w / 2) by (bit_vector)
            requires
                v == w | (1u64 << b),
                b == 0,
                (w >> b) & 1 == 0,
        ;
    } else {
        let c: u64 = (b - 1) as u64;
        assert(v != 0 && v % 2 == w % 2 && v / 2 == (w / 2) | (1u64 << c) && ((w / 2) >> c) & 1
            == 0) by (bit_vector)
            requires
                v == w | (1u64 << b),
                0 < b < 64,
                c == b - 1,
                (w >> b) & 1 == 0,
        ;
        lemma_ones_set_bit(w / 2, c);
    }
}

proof fn lemma_weight_update(words: Seq<u64>, i: int, w: u64)
    requires
        0 <= i < words.len(),
    ensures
        weight(words.update(i, w)) + ones(words[i]) == weight(words) + ones(w),
    decreases words.len(),
{
    let front = words.drop_last();
    if i == words.len() - 1 {
        assert(words.update(i, w).drop_last() =~= front);
    } else {
        assert(words.update(i, w).drop_last() =~= front.update(i, w));
        lemma_weight_update(front, i, w);
    }
}

/// Setting any one bit that is clear adds one to the weight, whichever bit of
/// whichever word it is.
pub proof fn law_each_bit_weighs_one(words: Seq<u64>, i: int, b: u64)
    requires
        0 <= i < words.len(),
        b < 64,
        (words[i] >> b) & 1 == 0,
    ensures
        weight(words.update(i, words[i] | (1u64 << b))) == weight(words) + 1,
{
    lemma_ones_set_bit(words[i], b);
    lemma_weight_update(words, i, words[i] | (1u64 << b));
}

/// Words without a bit set weigh nothing.
pub proof fn law_no_bits_weigh_nothing(words: Seq<u64>)
    requires
        forall|i: int| 0 <= i < words.len() ==> words[i] == 0,
    ensures
        weight(words) == 0,
    decreases words.len(),
{
    if words.len() > 0 {
        law_no_bits_weigh_nothing(words.drop_last());
    }
}

/// Flipping in one of two vectors a bit in which they agree moves them apart by
/// one.
pub proof fn law_each_bit_that_differs_counts_one(a: Seq<u64>, b: Seq<u64>, i: int, k: u64)
    requires
        a.len() == b.len(),
        0 <= i < a.len(),
        k < 64,
        (a[i] >> k) & 1 == (b[i] >> k) & 1,
    ensures
        hamming(a, b.update(i, b[i] ^ (1u64 << k))) == hamming(a, b) + 1,
{
    let x = a[i];
    let y = b[i];
    let d = x ^ y;
    assert((d >> k) & 1 == 0 && x ^ (y ^ (1u64 << k)) == d | (1u64 << k)) by (bit_vector)
        requires
            d == x ^ y,
            k < 64,
            (x >> k) & 1 == (y >> k) & 1,
    ;
    assert(xor_words(a, b.update(i, y ^ (1u64 << k))) =~= xor_words(a, b).update(
        i,
        d | (1u64 << k),
    ));
    law_each_bit_weighs_one(xor_words(a, b), i, k);
}

/// Vectors are combined word by word.
pub proof fn law_words_are_combined_in_place(a: Seq<u64>, b: Seq<u64>, i: int)
    requires
        a.len() == b.len(),
        0 <= i < a.len(),
    ensures
        and_words(a, b).len() == a.len() && and_words(a, b)[i] == a[i] & b[i],
        or_words(a, b).len() == a.len() && or_words(a, b)[i] == a[i] | b[i],
        xor_words(a, b).len() == a.len() && xor_words(a, b)[i] == a[i] ^ b[i],
{
}

} // verus!
