//! Decimal rendering of integers, as `Display` writes them.

use vstd::prelude::*;

verus! {

/// The character of the decimal digit `d` (`0 <= d < 10`).
pub open spec fn digit_char(d: nat) -> char {
    ((d + 48) as u8) as char
}

/// The decimal digits of `n`, most significant first, with no leading zero
/// (zero itself is the single digit `0`).
pub open spec fn decimal_digits(n: nat) -> Seq<char>
    decreases n,
{
    if n < 10 {
        seq![digit_char(n)]
    } else {
        decimal_digits(n / 10).push(digit_char(n % 10))
    }
}

/// The decimal rendering of the signed integer `i`: a leading `-` for a negative
/// number, then the digits of its magnitude.
pub open spec fn signed_decimal(i: int) -> Seq<char> {
    if i < 0 {
        seq!['-'] + decimal_digits((-i) as nat)
    } else {
        decimal_digits(i as nat)
    }
}

/// The number that the decimal digits `s` stand for, read most significant
/// digit first (each character counts for its distance from `'0'`).
pub open spec fn decimal_value(s: Seq<char>) -> int
    decreases s.len(),
{
    if s.len() == 0 {
        0
    } else {
        decimal_value(s.drop_last()) * 10 + ((s.last() as u32) as int - ('0' as u32) as int)
    }
}

/// Whether `c` is one of `'0'` to `'9'`.
pub open spec fn is_decimal_digit(c: char) -> bool {
    ('0' as u32) <= (c as u32) <= ('9' as u32)
}

/// The character of a digit stands `d` places after `'0'`.
proof fn lemma_digit_char(d: nat)
    requires
        d < 10,
    ensures
        (digit_char(d) as u32) as int == ('0' as u32) as int + d,
        is_decimal_digit(digit_char(d)),
{
}

/// Rendering reads back: `decimal_digits(n)` is a non-empty string of decimal
/// digits whose value is `n`, with no leading zero (zero is the single `0`).
pub proof fn lemma_decimal_digits_read_back(n: nat)
    ensures
        decimal_digits(n).len() >= 1,
        forall|i: int|
            0 <= i < decimal_digits(n).len() ==> is_decimal_digit(#[trigger] decimal_digits(n)[i]),
        decimal_value(decimal_digits(n)) == n,
        n > 0 ==> decimal_digits(n)[0] != '0',
        n == 0 ==> decimal_digits(n) == seq!['0'],
    decreases n,
{
    if n < 10 {
        lemma_digit_char(n);
        let s = decimal_digits(n);
        assert(s.drop_last() =~= Seq::<char>::empty());
        assert(decimal_value(s.drop_last()) == 0);
        assert(s.last() == digit_char(n));
        assert(decimal_value(s) == n);
    } else {
        lemma_decimal_digits_read_back(n / 10);
        lemma_digit_char(n % 10);
        let s = decimal_digits(n);
        let h = decimal_digits(n / 10);
        assert(s.drop_last() =~= h);
        assert(s.last() == digit_char(n % 10));
        assert(n == (n / 10) * 10 + n % 10);
        assert(s[0] == h[0]);
        assert forall|i: int| 0 <= i < s.len() implies is_decimal_digit(#[trigger] s[i]) by {
            if i < h.len() {
                assert(s[i] == h[i]);
            }
        }
    }
}

/// Appends `c` to `s` (`String::push`).
#[verifier::external_body]
fn string_push(s: &mut String, c: char)
    ensures
        final(s)@ == old(s)@.push(c),
{
    s.push(c);
}

fn digit(d: u64) -> (c: char)
    requires
        d < 10,
    ensures
        c == digit_char(d as nat),
{
    let b: u8 = d as u8 + 48;
    b as char
}

/// Appends the decimal digits of `n` to `out`.
pub fn push_decimal(out: &mut String, n: u64)
    ensures
        final(out)@ == old(out)@ + decimal_digits(n as nat),
        final(out)@.len() > old(out)@.len(),
        final(out)@.subrange(0, old(out)@.len() as int) == old(out)@,
        decimal_value(final(out)@.skip(old(out)@.len() as int)) == n,
        n > 0 ==> final(out)@[old(out)@.len() as int] != '0',
        forall|i: int|
            old(out)@.len() <= i < final(out)@.len() ==> is_decimal_digit(#[trigger] final(out)@[i]),
{
    proof {
        lemma_decimal_digits_read_back(n as nat);
    }
    // Digits, least significant first.
    let mut rev: Vec<char> = Vec::new();
    let mut m: u64 = n;
    loop
        invariant_except_break
            decimal_digits(n as nat) == decimal_digits(m as nat) + rev@.reverse(),
        ensures
            decimal_digits(n as nat) == rev@.reverse(),
        decreases m,
    {
        let d = digit(m % 10);
        let ghost old_rev = rev@;
        rev.push(d);
        assert(rev@.reverse() =~= seq![d] + old_rev.reverse());
        if m < 10 {
            assert(decimal_digits(m as nat) == seq![d]);
            break;
        }
        assert(decimal_digits(m as nat) == decimal_digits((m / 10) as nat).push(d));
        assert(decimal_digits((m / 10) as nat).push(d) + old_rev.reverse()
            =~= decimal_digits((m / 10) as nat) + rev@.reverse());
        m = m / 10;
    }
    let ghost start = out@;
    let mut i: usize = rev.len();
    while i > 0
        invariant
            i <= rev.len(),
            out@ == start + rev@.subrange(i as int, rev.len() as int).reverse(),
        decreases i,
    {
        i = i - 1;
        let ghost before = out@;
        string_push(out, rev[i]);
        assert(rev@.subrange(i as int, rev.len() as int).reverse() =~= rev@.subrange(
            (i + 1) as int,
            rev.len() as int,
        ).reverse().push(rev@[i as int]));
    }
    assert(rev@.subrange(0, rev.len() as int) =~= rev@);
    assert(out@.skip(start.len() as int) =~= decimal_digits(n as nat));
    assert(out@.subrange(0, start.len() as int) =~= start);
}

/// Appends the decimal rendering of `i` (with a leading `-` when negative) to `out`.
pub fn push_signed_decimal(out: &mut String, i: i64)
    ensures
        final(out)@ == old(out)@ + signed_decimal(i as int),
        final(out)@.subrange(0, old(out)@.len() as int) == old(out)@,
        i >= 0 ==> decimal_value(final(out)@.skip(old(out)@.len() as int)) == i,
        i < 0 ==> final(out)@[old(out)@.len() as int] == '-' && decimal_value(
            final(out)@.skip(old(out)@.len() + 1int),
        ) == -i,
{
    proof {
        if i < 0 {
            lemma_decimal_digits_read_back((-i) as nat);
        } else {
            lemma_decimal_digits_read_back(i as nat);
        }
    }
    if i < 0 {
        string_push(out, '-');
        let magnitude: u64 = if i == i64::MIN {
            9_223_372_036_854_775_808u64
        } else {
            (-i) as u64
        };
        let ghost mid = out@;
        push_decimal(out, magnitude);
        assert(out@ =~= old(out)@ + (seq!['-'] + decimal_digits(magnitude as nat)));
        assert(out@.skip(old(out)@.len() + 1int) =~= decimal_digits(magnitude as nat));
        assert(out@.subrange(0, old(out)@.len() as int) =~= old(out)@);
    } else {
        push_decimal(out, i as u64);
    }
}

} // verus!
