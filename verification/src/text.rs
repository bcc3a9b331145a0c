use vstd::prelude::*;
use vstd::string::StringExecFns;

verus! {

/// The decimal digit character for `d` in `0..10`.
pub open spec fn digit_char(d: int) -> char {
    (('0' as int) + d) as char
}

/// The decimal digits of a natural number, most significant first.
pub open spec fn spec_digits(n: nat) -> Seq<char>
    decreases n,
{
    if n < 10 {
        seq![digit_char(n as int)]
    } else {
        spec_digits(n / 10).push(digit_char((n % 10) as int))
    }
}

/// The decimal text of an integer, with a leading `-` when it is negative.
pub open spec fn spec_decimal(n: int) -> Seq<char> {
    if n < 0 {
        seq!['-'] + spec_digits((-n) as nat)
    } else {
        spec_digits(n as nat)
    }
}

/// Appends a character to a string (`String::push`).
#[verifier::external_body]
pub(crate) fn push_char(s: &mut String, c: char)
    ensures
        final(s)@ == old(s)@.push(c),
{
    s.push(c);
}

/// Appends a string slice to a string.
pub(crate) fn push_str(s: &mut String, t: &str)
    ensures
        final(s)@ == old(s)@ + t@,
{
    s.append(t);
}

/// The decimal digit character for `d`.
fn digit(d: u64) -> (r: char)
    requires
        d < 10,
    ensures
        r == digit_char(d as int),
{
    match d {
        0 => '0',
        1 => '1',
        2 => '2',
        3 => '3',
        4 => '4',
        5 => '5',
        6 => '6',
        7 => '7',
        8 => '8',
        _ => '9',
    }
}

/// Appends the decimal digits of `m` to a string.
fn push_digits(s: &mut String, m: u64)
    ensures
        final(s)@ == old(s)@ + spec_digits(m as nat),
    decreases m,
{
    if m >= 10 {
        push_digits(s, m / 10);
    }
    push_char(s, digit(m % 10));
    assert(s@ =~= old(s)@ + spec_digits(m as nat));
}

/// The decimal text of an integer, as `Display` for `i64` writes it.
pub(crate) fn decimal(n: i64) -> (r: String)
    ensures
        r@ == spec_decimal(n as int),
{
    let mut out = empty_string();
    if n < 0 {
        push_char(&mut out, '-');
        let m: u64 = ((-(n + 1)) as u64) + 1;
        push_digits(&mut out, m);
        assert(out@ =~= spec_decimal(n as int));
    } else {
        push_digits(&mut out, n as u64);
        assert(out@ =~= spec_decimal(n as int));
    }
    out
}

/// A new empty string (`String::new`).
pub(crate) fn empty_string() -> (r: String)
    ensures
        r@ == Seq::<char>::empty(),
{
    String::new()
}

}
