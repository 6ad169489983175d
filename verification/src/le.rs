//! Little-endian integers in byte sequences: the number format of every file
//! the database writes.
use vstd::arithmetic::div_mod::lemma_div_denominator;
use vstd::arithmetic::power::pow;
use vstd::prelude::*;

verus! {

/// The number that `b` spells with its least significant byte first.
pub open spec fn le_value(b: Seq<u8>) -> nat
    decreases b.len(),
{
    if b.len() == 0 {
        0
    } else {
        b[0] as nat + 256 * le_value(b.drop_first())
    }
}

/// The `n` least significant bytes of `x`, least significant first.
pub open spec fn le_bytes(x: nat, n: nat) -> Seq<u8>
    decreases n,
{
    if n == 0 {
        Seq::empty()
    } else {
        seq![(x % 256) as u8] + le_bytes(x / 256, (n - 1) as nat)
    }
}

/// How many numbers `n` bytes can spell.
pub open spec fn le_limit(n: nat) -> nat
    decreases n,
{
    if n == 0 {
        1
    } else {
        256 * le_limit((n - 1) as nat)
    }
}

/// `s` with `piece` written over it from position `at` on.
pub open spec fn splice(s: Seq<u8>, at: int, piece: Seq<u8>) -> Seq<u8> {
    Seq::new(s.len(), |j: int| if at <= j < at + piece.len() { piece[j - at] } else { s[j] })
}

pub proof fn lemma_le_bytes_len(x: nat, n: nat)
    ensures
        le_bytes(x, n).len() == n,
    decreases n,
{
    if n > 0 {
        lemma_le_bytes_len(x / 256, (n - 1) as nat);
    }
}

/// Reading back the bytes of a number that fits gives the number.
pub proof fn lemma_le_round_trip(x: nat, n: nat)
    requires
        x < le_limit(n),
    ensures
        le_bytes(x, n).len() == n,
        le_value(le_bytes(x, n)) == x,
    decreases n,
{
    if n > 0 {
        let m = (n - 1) as nat;
        assert(x / 256 < le_limit(m)) by {
            assert(le_limit(n) == 256 * le_limit(m));
        }
        lemma_le_round_trip(x / 256, m);
        assert(le_bytes(x, n).drop_first() =~= le_bytes(x / 256, m));
    }
}

pub proof fn lemma_le_value_bound(b: Seq<u8>)
    ensures
        le_value(b) < le_limit(b.len()),
    decreases b.len(),
{
    if b.len() > 0 {
        lemma_le_value_bound(b.drop_first());
    }
}

pub proof fn lemma_le_limits()
    ensures
        le_limit(4) == 0x1_0000_0000,
        le_limit(8) == 0x1_0000_0000_0000_0000,
{
    reveal_with_fuel(le_limit, 9);
}

/// A 64-bit word survives being written and read back.
pub proof fn lemma_u64_round_trip(x: u64)
    ensures
        le_bytes(x as nat, 8).len() == 8,
        le_value(le_bytes(x as nat, 8)) == x,
{
    lemma_le_limits();
    lemma_le_round_trip(x as nat, 8);
}

/// A 32-bit word survives being written and read back.
pub proof fn lemma_u32_round_trip(x: u32)
    ensures
        le_bytes(x as nat, 4).len() == 4,
        le_value(le_bytes(x as nat, 4)) == x,
{
    lemma_le_limits();
    lemma_le_round_trip(x as nat, 4);
}

/// Reads the 64-bit word at `at`.
pub fn read_u64(b: &[u8], at: usize) -> (x: u64)
    requires
        at + 8 <= b@.len(),
    ensures
        x == le_value(b@.subrange(at as int, at + 8)),
{
    let mut x: u64 = 0;
    let mut i: usize = 8;
    proof {
        assert(b@.subrange(at + 8, at + 8).len() == 0);
    }
    while i > 0
        invariant
            i <= 8,
            at + 8 <= b.len(),
            b.len() == b@.len(),
            x == le_value(b@.subrange(at + i, at + 8)),
        decreases i,
    {
        proof {
            let rest = b@.subrange(at + i, at + 8);
            let more = b@.subrange(at + i - 1, at + 8);
            assert(more.drop_first() =~= rest);
            lemma_le_value_bound(more);
            lemma_le_limits();
            lemma_le_limit_monotonic(more.len(), 8);
        }
        i -= 1;
        x = 256 * x + b[at + i] as u64;
    }
    x
}

proof fn lemma_le_limit_monotonic(m: nat, n: nat)
    requires
        m <= n,
    ensures
        1 <= le_limit(m) <= le_limit(n),
    decreases n,
{
    if m < n {
        lemma_le_limit_monotonic(m, (n - 1) as nat);
    } else if m > 0 {
        lemma_le_limit_monotonic((m - 1) as nat, (n - 1) as nat);
    }
}

/// Reads the 32-bit word at `at`.
pub fn read_u32(b: &[u8], at: usize) -> (x: u32)
    requires
        at + 4 <= b@.len(),
    ensures
        x == le_value(b@.subrange(at as int, at + 4)),
{
    let mut x: u32 = 0;
    let mut i: usize = 4;
    proof {
        assert(b@.subrange(at + 4, at + 4).len() == 0);
    }
    while i > 0
        invariant
            i <= 4,
            at + 4 <= b.len(),
            b.len() == b@.len(),
            x == le_value(b@.subrange(at + i, at + 4)),
        decreases i,
    {
        proof {
            let rest = b@.subrange(at + i, at + 4);
            let more = b@.subrange(at + i - 1, at + 4);
            assert(more.drop_first() =~= rest);
            lemma_le_value_bound(more);
            lemma_le_limits();
            lemma_le_limit_monotonic(more.len(), 4);
        }
        i -= 1;
        x = 256 * x + b[at + i] as u32;
    }
    x
}

/// Appends the `n` bytes of `x`.
fn push_le(out: &mut Vec<u8>, x: u64, n: usize)
    ensures
        final(out)@ == old(out)@ + le_bytes(x as nat, n as nat),
{
    let mut rest: u64 = x;
    let mut left: usize = n;
    while left > 0
        invariant
            out@ + le_bytes(rest as nat, left as nat) == old(out)@ + le_bytes(x as nat, n as nat),
        decreases left,
    {
        let ghost before = out@;
        out.push((rest % 256) as u8);
        proof {
            let m = (left - 1) as nat;
            assert(before + le_bytes(rest as nat, left as nat) =~= out@ + le_bytes(
                (rest / 256) as nat,
                m,
            ));
        }
        rest = rest / 256;
        left -= 1;
    }
    assert(out@ + le_bytes(rest as nat, 0) =~= out@);
}

/// Appends a 64-bit word.
pub fn push_u64(out: &mut Vec<u8>, x: u64)
    ensures
        final(out)@ == old(out)@ + le_bytes(x as nat, 8),
{
    push_le(out, x, 8);
}

/// Appends a 32-bit word.
pub fn push_u32(out: &mut Vec<u8>, x: u32)
    ensures
        final(out)@ == old(out)@ + le_bytes(x as nat, 4),
{
    push_le(out, x as u64, 4);
}

/// Appends a run of bytes.
pub fn push_bytes(out: &mut Vec<u8>, piece: &[u8])
    ensures
        final(out)@ == old(out)@ + piece@,
{
    let mut i: usize = 0;
    while i < piece.len()
        invariant
            i <= piece@.len(),
            out@ == old(out)@ + piece@.take(i as int),
        decreases piece@.len() - i,
    {
        proof {
            assert(piece@.take(i + 1) =~= piece@.take(i as int).push(piece@[i as int]));
        }
        out.push(piece[i]);
        i += 1;
    }
    assert(piece@.take(piece@.len() as int) =~= piece@);
}

/// Writes a 64-bit word over the eight bytes at `at`.
pub fn write_u64(b: &mut [u8], at: usize, x: u64)
    requires
        at + 8 <= old(b)@.len(),
    ensures
        final(b)@ == splice(old(b)@, at as int, le_bytes(x as nat, 8)),
{
    let mut rest: u64 = x;
    let mut i: usize = 0;
    proof {
        lemma_le_bytes_len(x as nat, 8);
        assert(le_bytes(x as nat, 8) =~= Seq::<u8>::empty() + le_bytes(rest as nat, 8));
    }
    let ghost mut done: Seq<u8> = Seq::empty();
    while i < 8
        invariant
            i <= 8,
            at + 8 <= old(b).len(),
            old(b).len() == old(b)@.len(),
            done.len() == i,
            done + le_bytes(rest as nat, (8 - i) as nat) == le_bytes(x as nat, 8),
            le_bytes(x as nat, 8).len() == 8,
            b@ == splice(old(b)@, at as int, done),
        decreases 8 - i,
    {
        let ghost prev = done;
        b[at + i] = (rest % 256) as u8;
        proof {
            done = done.push((rest % 256) as u8);
            assert(prev + le_bytes(rest as nat, (8 - i) as nat) =~= done + le_bytes(
                (rest / 256) as nat,
                (8 - i - 1) as nat,
            ));
            assert(b@ =~= splice(old(b)@, at as int, done));
        }
        rest = rest / 256;
        i += 1;
    }
    assert(done =~= le_bytes(x as nat, 8));
}

proof fn lemma_pow_positive(k: nat)
    ensures
        pow(256, k) > 0,
        pow(256, k + 1) == 256 * pow(256, k),
    decreases k,
{
    reveal(pow);
    if k > 0 {
        lemma_pow_positive((k - 1) as nat);
    }
}

/// Byte `k` of a number is its digit `k` to the base 256.
pub proof fn law_byte_is_a_digit(x: nat, n: nat, k: nat)
    requires
        k < n,
    ensures
        le_bytes(x, n).len() == n,
        le_bytes(x, n)[k as int] == (x as int / pow(256, k)) % 256,
    decreases k,
{
    lemma_le_bytes_len(x, n);
    reveal(pow);
    if k > 0 {
        let m = (k - 1) as nat;
        law_byte_is_a_digit(x / 256, (n - 1) as nat, m);
        lemma_pow_positive(m);
        lemma_div_denominator(x as int, 256, pow(256, m));
        assert(le_bytes(x, n)[k as int] == le_bytes(x / 256, (n - 1) as nat)[m as int]);
    }
}

/// Byte `k` of what is read is digit `k` of the number that it is read as, and
/// there are no other digits.
pub proof fn law_digit_is_a_byte(b: Seq<u8>, k: nat)
    requires
        k < b.len(),
    ensures
        (le_value(b) as int / pow(256, k)) % 256 == b[k as int],
        le_value(b) < pow(256, b.len()),
    decreases b.len(),
{
    reveal(pow);
    let rest = b.drop_first();
    let v = le_value(b) as int;
    lemma_le_value_below_pow(b);
    if k > 0 {
        let m = (k - 1) as nat;
        law_digit_is_a_byte(rest, m);
        lemma_pow_positive(m);
        lemma_div_denominator(v, 256, pow(256, m));
        assert(v / 256 == le_value(rest));
    }
}

proof fn lemma_le_value_below_pow(b: Seq<u8>)
    ensures
        le_value(b) < pow(256, b.len()),
    decreases b.len(),
{
    reveal(pow);
    if b.len() > 0 {
        lemma_le_value_below_pow(b.drop_first());
        lemma_pow_positive((b.len() - 1) as nat);
    }
}

/// Writing over some bytes changes those and no others.
pub proof fn law_splice_changes_only_its_place(s: Seq<u8>, at: int, piece: Seq<u8>, j: int)
    requires
        0 <= at,
        at + piece.len() <= s.len(),
        0 <= j < s.len(),
    ensures
        splice(s, at, piece).len() == s.len(),
        splice(s, at, piece)[j] == if j < at || at + piece.len() <= j {
            s[j]
        } else {
            piece[j - at]
        },
{
}

} // verus!
