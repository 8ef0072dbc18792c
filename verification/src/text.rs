//! Building text: decimal numbers, zero-padded fields and the debug form of a
//! duration.
use vstd::prelude::*;


verus! {

/// The character of a decimal digit.
pub open spec fn digit_char(d: nat) -> char
    recommends
        d < 10,
{
    (d + 48) as char
}

/// The decimal digits of `n`, without sign or leading zeros.
pub open spec fn decimal(n: nat) -> Seq<char>
    decreases n,
{
    if n < 10 {
        seq![digit_char(n)]
    } else {
        decimal(n / 10).push(digit_char(n % 10))
    }
}

/// The decimal digits of `n`, padded with a leading zero to at least two digits.
pub open spec fn zero_padded(n: nat) -> Seq<char> {
    if n < 10 {
        seq!['0', digit_char(n)]
    } else {
        decimal(n)
    }
}

/// The debug form of a duration of `nanos` nanoseconds, as the standard library
/// writes it (for instance `2.1s` or `100ms`).
pub uninterp spec fn duration_debug(nanos: nat) -> Seq<char>;

/// Appends one character to a string.
///
/// Calls `String::push`, which appends the character at the end.
#[verifier::external_body]
pub(crate) fn push_char(s: &mut String, c: char)
    ensures
        final(s)@ == old(s)@.push(c),
{
    s.push(c);
}

/// The debug form of a duration of `secs` seconds and `nanos` nanoseconds.
///
/// Formats `std::time::Duration::new(secs, nanos)` with `{:?}`; the contract only names
/// the text, whose exact shape the standard library decides, as a function of the total
/// nanoseconds.
#[verifier::external_body]
pub(crate) fn duration_debug_string(secs: u64, nanos: u32) -> (s: String)
    requires
        nanos < 1_000_000_000,
    ensures
        s@ == duration_debug(secs as nat * 1_000_000_000 + nanos as nat),
{
    format!("{:?}", std::time::Duration::new(secs, nanos))
}

/// The character of a decimal digit.
pub fn digit(d: u128) -> (c: char)
    requires
        d < 10,
    ensures
        c == digit_char(d as nat),
{
    let b: u8 = 48 + d as u8;
    b as char
}

/// Appends the decimal digits of `n`.
pub fn push_decimal(out: &mut String, n: u128)
    ensures
        final(out)@ == old(out)@ + decimal(n as nat),
    decreases n,
{
    if n >= 10 {
        push_decimal(out, n / 10);
    }
    push_char(out, digit(n % 10));
    proof {
        if n >= 10 {
            assert(old(out)@ + decimal(n as nat) =~= old(out)@ + decimal((n / 10) as nat) + seq![digit_char((n % 10) as nat)]);
        } else {
            assert(old(out)@ + decimal(n as nat) =~= old(out)@ + seq![digit_char((n % 10) as nat)]);
        }
    }
}

/// Appends the decimal digits of `n`, padded to at least two digits.
pub fn push_zero_padded(out: &mut String, n: u128)
    ensures
        final(out)@ == old(out)@ + zero_padded(n as nat),
{
    if n < 10 {
        push_char(out, '0');
        push_char(out, digit(n));
        assert(final(out)@ =~= old(out)@ + zero_padded(n as nat));
    } else {
        push_decimal(out, n);
    }
}

} // verus!
