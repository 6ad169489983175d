//! The names of the chunk files.
use vstd::prelude::*;
use vstd::string::StringExecFns;

verus! {

/// The character of a decimal digit.
pub open spec fn digit(d: nat) -> char {
    ('0' as u32 + d) as char
}

/// A number in decimal.
pub open spec fn decimal(n: nat) -> Seq<char>
    decreases n,
{
    if n < 10 {
        seq![digit(n)]
    } else {
        decimal(n / 10).push(digit(n % 10))
    }
}

/// The name of chunk `i` without its extension.
pub open spec fn chunk_stem_of(i: nat) -> Seq<char> {
    "chunk_"@ + decimal(i)
}

/// The name of the file of chunk `i`.
pub open spec fn chunk_name(i: nat) -> Seq<char> {
    chunk_stem_of(i) + ".bin"@
}

/// The name of overflow file `n` of the chunk file with the given stem.
pub open spec fn overflow_name(stem: Seq<char>, n: nat) -> Seq<char> {
    stem + "_overflow_"@ + decimal(n) + ".bin"@
}

fn digit_str(d: usize) -> (s: &'static str)
    requires
        d < 10,
    ensures
        s@ == seq![digit(d as nat)],
{
    proof {
        reveal_strlit("0");
        reveal_strlit("1");
        reveal_strlit("2");
        reveal_strlit("3");
        reveal_strlit("4");
        reveal_strlit("5");
        reveal_strlit("6");
        reveal_strlit("7");
        reveal_strlit("8");
        reveal_strlit("9");
    }
    let s = if d == 0 {
        "0"
    } else if d == 1 {
        "1"
    } else if d == 2 {
        "2"
    } else if d == 3 {
        "3"
    } else if d == 4 {
        "4"
    } else if d == 5 {
        "5"
    } else if d == 6 {
        "6"
    } else if d == 7 {
        "7"
    } else if d == 8 {
        "8"
    } else {
        "9"
    };
    assert(s@ =~= seq![digit(d as nat)]);
    s
}

fn push_decimal(out: &mut String, n: usize)
    ensures
        final(out)@ == old(out)@ + decimal(n as nat),
    decreases n,
{
    if n >= 10 {
        push_decimal(out, n / 10);
    }
    out.append(digit_str(n % 10));
    assert(out@ =~= old(out)@ + decimal(n as nat));
}

/// The name of chunk `i` without its extension.
pub fn chunk_stem(i: usize) -> (name: String)
    ensures
        name@ == chunk_stem_of(i as nat),
{
    let mut name = String::new();
    name.append("chunk_");
    push_decimal(&mut name, i);
    assert(name@ =~= chunk_stem_of(i as nat));
    name
}

/// The name of the file of chunk `i`.
pub fn chunk_file_name(i: usize) -> (name: String)
    ensures
        name@ == chunk_name(i as nat),
{
    let mut name = chunk_stem(i);
    name.append(".bin");
    name
}

/// The name of overflow file `n` of the chunk file with the given stem.
pub fn overflow_file_name(stem: &str, n: usize) -> (name: String)
    ensures
        name@ == overflow_name(stem@, n as nat),
{
    let mut name = String::new();
    name.append(stem);
    name.append("_overflow_");
    push_decimal(&mut name, n);
    name.append(".bin");
    assert(name@ =~= overflow_name(stem@, n as nat));
    name
}

spec fn is_digit(c: char) -> bool {
    '0' as u32 <= c as u32 <= '9' as u32
}

proof fn lemma_decimal_digits(n: nat)
    ensures
        decimal(n).len() >= 1,
        forall|i: int| 0 <= i < decimal(n).len() ==> is_digit(#[trigger] decimal(n)[i]),
    decreases n,
{
    if n >= 10 {
        lemma_decimal_digits(n / 10);
    }
}

/// Different numbers are written differently.
pub proof fn lemma_decimal_injective(m: nat, n: nat)
    requires
        decimal(m) == decimal(n),
    ensures
        m == n,
    decreases m,
{
    lemma_decimal_digits(m / 10);
    lemma_decimal_digits(n / 10);
    assert(decimal(m).last() == digit(m % 10));
    assert(decimal(n).last() == digit(n % 10));
    if m >= 10 && n >= 10 {
        assert(decimal(m).drop_last() =~= decimal(m / 10));
        assert(decimal(n).drop_last() =~= decimal(n / 10));
        lemma_decimal_injective(m / 10, n / 10);
    }
}

/// A number and what follows it can be told apart in what they spell together,
/// where what follows begins with no digit.
proof fn lemma_split_number(m: nat, a: Seq<char>, n: nat, b: Seq<char>)
    requires
        decimal(m) + a == decimal(n) + b,
        a.len() > 0,
        b.len() > 0,
        !is_digit(a[0]),
        !is_digit(b[0]),
    ensures
        m == n,
        a == b,
{
    let x = decimal(m);
    let y = decimal(n);
    lemma_decimal_digits(m);
    lemma_decimal_digits(n);
    if x.len() < y.len() {
        assert((x + a)[x.len() as int] == a[0]);
        assert((y + b)[x.len() as int] == y[x.len() as int]);
    }
    if y.len() < x.len() {
        assert((y + b)[y.len() as int] == b[0]);
        assert((x + a)[y.len() as int] == x[y.len() as int]);
    }
    assert(x =~= (x + a).take(x.len() as int));
    assert(y =~= (y + b).take(x.len() as int));
    assert(a =~= (x + a).skip(x.len() as int));
    assert(b =~= (y + b).skip(x.len() as int));
    lemma_decimal_injective(m, n);
}

/// No two chunks share a file.
pub proof fn law_chunk_names_differ(i: nat, j: nat)
    requires
        chunk_name(i) == chunk_name(j),
    ensures
        i == j,
{
    reveal_strlit("chunk_");
    reveal_strlit(".bin");
    assert(chunk_name(i).skip(6) =~= decimal(i) + ".bin"@);
    assert(chunk_name(j).skip(6) =~= decimal(j) + ".bin"@);
    lemma_split_number(i, ".bin"@, j, ".bin"@);
}

/// No two overflow files of the chunks share a name.
pub proof fn law_overflow_names_differ(i: nat, m: nat, j: nat, n: nat)
    requires
        overflow_name(chunk_stem_of(i), m) == overflow_name(chunk_stem_of(j), n),
    ensures
        i == j,
        m == n,
{
    reveal_strlit("chunk_");
    reveal_strlit("_overflow_");
    reveal_strlit(".bin");
    let a = "_overflow_"@ + decimal(m) + ".bin"@;
    let b = "_overflow_"@ + decimal(n) + ".bin"@;
    assert(overflow_name(chunk_stem_of(i), m).skip(6) =~= decimal(i) + a);
    assert(overflow_name(chunk_stem_of(j), n).skip(6) =~= decimal(j) + b);
    lemma_split_number(i, a, j, b);
    assert(a.skip(10) =~= decimal(m) + ".bin"@);
    assert(b.skip(10) =~= decimal(n) + ".bin"@);
    lemma_split_number(m, ".bin"@, n, ".bin"@);
}

/// No overflow file has the name of a chunk's own file.
pub proof fn law_overflow_is_no_chunk(i: nat, j: nat, n: nat)
    ensures
        chunk_name(i) != overflow_name(chunk_stem_of(j), n),
{
    if chunk_name(i) == overflow_name(chunk_stem_of(j), n) {
        reveal_strlit("chunk_");
        reveal_strlit("_overflow_");
        reveal_strlit(".bin");
        let b = "_overflow_"@ + decimal(n) + ".bin"@;
        assert(chunk_name(i).skip(6) =~= decimal(i) + ".bin"@);
        assert(overflow_name(chunk_stem_of(j), n).skip(6) =~= decimal(j) + b);
        lemma_split_number(i, ".bin"@, j, b);
        assert(b[0] == '_');
    }
}

/// The number that decimal digits spell.
pub open spec fn number_of(digits: Seq<char>) -> int
    decreases digits.len(),
{
    if digits.len() == 0 {
        0
    } else {
        10 * number_of(digits.drop_last()) + (digits.last() as u32 - '0' as u32)
    }
}

/// A number is written with decimal digits that spell it, without a leading zero.
pub proof fn law_decimal_spells_the_number(n: nat, i: int)
    ensures
        number_of(decimal(n)) == n,
        decimal(n).len() >= 1,
        0 <= i < decimal(n).len() ==> '0' <= decimal(n)[i] <= '9',
        decimal(n).len() > 1 ==> decimal(n)[0] != '0',
    decreases n,
{
    lemma_decimal_digits(n);
    assert(digit(n % 10) as u32 == '0' as u32 + n % 10);
    if n >= 10 {
        law_decimal_spells_the_number(n / 10, i);
        lemma_decimal_digits(n / 10);
        assert(decimal(n).drop_last() =~= decimal(n / 10));
        assert(n / 10 > 0);
        if decimal(n / 10).len() == 1 {
            assert(decimal(n / 10).drop_last() =~= Seq::<char>::empty());
            assert(number_of(Seq::<char>::empty()) == 0);
        }
    } else {
        assert(decimal(n).drop_last() =~= Seq::<char>::empty());
        assert(number_of(Seq::<char>::empty()) == 0);
    }
}

/// How files are named: `chunk_I.bin` and `chunk_I_overflow_N.bin`.
pub proof fn law_file_names(i: nat, stem: Seq<char>, n: nat)
    ensures
        chunk_stem_of(i) == "chunk_"@ + decimal(i),
        overflow_name(stem, n) == stem + "_overflow_"@ + decimal(n) + ".bin"@,
        chunk_name(i) == "chunk_"@ + decimal(i) + ".bin"@,
        overflow_name(chunk_stem_of(i), n) == "chunk_"@ + decimal(i) + "_overflow_"@ + decimal(n)
            + ".bin"@,
{
}

} // verus!
