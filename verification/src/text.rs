//! Rendering of numbers and byte strings as text.

use vstd::prelude::*;

verus! {

/// The lower-case hexadecimal digit for `d` (`d < 16`).
pub open spec fn hex_digit(d: nat) -> char {
    if d < 10 {
        (d + 48) as char
    } else {
        (d + 87) as char
    }
}

/// Decimal rendering of a natural number, without leading zeros.
pub open spec fn decimal(n: nat) -> Seq<char>
    decreases n,
{
    if n < 10 {
        seq![hex_digit(n)]
    } else {
        decimal(n / 10).push(hex_digit(n % 10))
    }
}

/// Lower-case hexadecimal rendering of a natural number, without leading zeros.
pub open spec fn hexadecimal(n: nat) -> Seq<char>
    decreases n,
{
    if n < 16 {
        seq![hex_digit(n)]
    } else {
        hexadecimal(n / 16).push(hex_digit(n % 16))
    }
}

/// Decimal rendering of a signed integer: a minus sign before negative values.
pub open spec fn signed_decimal(n: int) -> Seq<char> {
    if n < 0 {
        seq!['-'] + decimal((-n) as nat)
    } else {
        decimal(n as nat)
    }
}

/// Two lower-case hexadecimal digits per byte, most significant digit first.
pub open spec fn hex_bytes(bytes: Seq<u8>) -> Seq<char>
    decreases bytes.len(),
{
    if bytes.len() == 0 {
        Seq::empty()
    } else {
        hex_bytes(bytes.drop_last()) + seq![
            hex_digit((bytes.last() / 16) as nat),
            hex_digit((bytes.last() % 16) as nat),
        ]
    }
}

/// Whether `s` begins with `prefix`.
pub open spec fn starts_with(s: Seq<char>, prefix: Seq<char>) -> bool {
    prefix.len() <= s.len() && s.take(prefix.len() as int) == prefix
}

/// A concatenation begins with its first part.
pub proof fn lemma_starts_with_concat(a: Seq<char>, b: Seq<char>)
    ensures
        starts_with(a + b, a),
{
    assert((a + b).take(a.len() as int) =~= a);
}

/// The concatenation of two strings.
pub fn concat(prefix: &str, rest: &str) -> (s: String)
    ensures
        s@ == prefix@ + rest@,
        starts_with(s@, prefix@),
{
    let mut s = String::from_str(prefix);
    s.append(rest);
    assert(s@.take(prefix@.len() as int) =~= prefix@);
    s
}

/// Whether two string slices hold the same characters: std's `<str as PartialEq>::eq`,
/// which compares the two strings byte for byte, hence character for character.
#[verifier::external_body]
pub(crate) fn text_eq(a: &str, b: &str) -> (r: bool)
    ensures
        r == (a@ == b@),
{
    a == b
}

/// The one-character string of the digit `d`.
pub fn digit_str(d: u64) -> (s: &'static str)
    requires
        d < 16,
    ensures
        s@ == seq![hex_digit(d as nat)],
{
    proof {
        reveal_strlit("0");
        reveal_strlit("1");
        reveal_strlit("2");
        reveal_strlit("3");
        reveal_strlit("4");
        reveal_strlit("5");
        reveal_strlit("6");
        reveal_strlit("7");
        reveal_strlit("8");
        reveal_strlit("9");
        reveal_strlit("a");
        reveal_strlit("b");
        reveal_strlit("c");
        reveal_strlit("d");
        reveal_strlit("e");
        reveal_strlit("f");
    }
    match d {
        0 => "0",
        1 => "1",
        2 => "2",
        3 => "3",
        4 => "4",
        5 => "5",
        6 => "6",
        7 => "7",
        8 => "8",
        9 => "9",
        10 => "a",
        11 => "b",
        12 => "c",
        13 => "d",
        14 => "e",
        _ => "f",
    }
}

/// Appends the decimal rendering of `n` to `s`.
pub fn push_decimal(s: &mut String, n: u64)
    ensures
        final(s)@ == old(s)@ + decimal(n as nat),
    decreases n,
{
    if n >= 10 {
        push_decimal(s, n / 10);
    }
    s.append(digit_str(n % 10));
}

/// Appends the lower-case hexadecimal rendering of `n` to `s`.
pub fn push_hexadecimal(s: &mut String, n: u64)
    ensures
        final(s)@ == old(s)@ + hexadecimal(n as nat),
    decreases n,
{
    if n >= 16 {
        push_hexadecimal(s, n / 16);
    }
    s.append(digit_str(n % 16));
}

/// Appends the decimal rendering of a signed `n` to `s`.
pub fn push_signed_decimal(s: &mut String, n: i64)
    ensures
        final(s)@ == old(s)@ + signed_decimal(n as int),
{
    if n < 0 {
        proof {
            reveal_strlit("-");
        }
        s.append("-");
        let magnitude: u64 = if n == i64::MIN {
            9223372036854775808u64
        } else {
            (-n) as u64
        };
        push_decimal(s, magnitude);
        assert(s@ == old(s)@ + (seq!['-'] + decimal((-n) as nat)));
    } else {
        push_decimal(s, n as u64);
    }
}

} // verus!
