//! Text encodings of bytes: hexadecimal (the `hex` crate), Base58 (`bs58`) and
//! Bech32 (`bech32`).

use vstd::prelude::*;

use bech32::ToBase32;

use crate::text::{hex_bytes, hex_digit};

verus! {

#[verifier::external_type_specification]
#[verifier::external_body]
pub struct ExFromHexError(hex::FromHexError);

#[verifier::external_type_specification]
#[verifier::external_body]
pub struct ExBech32Error(bech32::Error);

/// Whether `c` is a hexadecimal digit of either case.
pub open spec fn is_hex_char(c: char) -> bool {
    ('0' <= c && c <= '9') || ('a' <= c && c <= 'f') || ('A' <= c && c <= 'F')
}

/// The value of a hexadecimal digit.
pub open spec fn hex_char_value(c: char) -> int {
    if '0' <= c && c <= '9' {
        c as int - 48
    } else if 'a' <= c && c <= 'f' {
        c as int - 87
    } else {
        c as int - 55
    }
}

/// Whether `s` is an even number of hexadecimal digits.
pub open spec fn hex_decodable(s: Seq<char>) -> bool {
    s.len() % 2 == 0 && forall|i: int| 0 <= i < s.len() ==> is_hex_char(#[trigger] s[i])
}

/// The bytes that pairs of hexadecimal digits stand for, high digit first.
pub open spec fn hex_decoding(s: Seq<char>) -> Seq<u8> {
    Seq::new(
        (s.len() / 2) as nat,
        |i: int| (16 * hex_char_value(s[2 * i]) + hex_char_value(s[2 * i + 1])) as u8,
    )
}

/// `hex::encode`: two lower-case hexadecimal digits per byte, as the crate's
/// table `0123456789abcdef` gives them.
#[verifier::external_body]
pub(crate) fn hex_encode(data: &[u8]) -> (s: String)
    ensures
        s@ == hex_bytes(data@),
{
    hex::encode(data)
}

/// `hex::decode`: succeeds exactly on an even number of hexadecimal digits of
/// either case, and gives the byte of each pair of digits.
#[verifier::external_body]
pub(crate) fn hex_decode(text: &str) -> (r: Result<Vec<u8>, hex::FromHexError>)
    ensures
        r is Ok <==> hex_decodable(text@),
        r matches Ok(v) ==> v@ == hex_decoding(text@),
{
    hex::decode(text)
}

/// The `Display` text of a `hex::FromHexError`; nothing is stated of it.
#[verifier::external_body]
pub(crate) fn hex_error_text(e: &hex::FromHexError) -> String {
    e.to_string()
}

/// The Base58 text of `data` (Bitcoin alphabet), as `bs58::encode` gives it.
pub uninterp spec fn base58_text(data: Seq<u8>) -> Seq<char>;

/// `bs58::encode(data).into_string()`, named by `base58_text`.
#[verifier::external_body]
pub(crate) fn base58_encode(data: &[u8]) -> (s: String)
    ensures
        s@ == base58_text(data@),
{
    bs58::encode(data).into_string()
}

/// The Bech32 text of `data`, grouped into 5-bit words, under the human-readable part `hrp`.
pub uninterp spec fn bech32_text(hrp: Seq<char>, data: Seq<u8>) -> Seq<char>;

/// Whether `hrp` is a human-readable part that Bech32 accepts: 1 to 83 printable
/// ASCII characters (`!` to `~`), not mixing lower and upper case letters.
pub open spec fn bech32_hrp_valid(hrp: Seq<char>) -> bool {
    &&& 1 <= hrp.len() <= 83
    &&& forall|i: int| 0 <= i < hrp.len() ==> '!' <= #[trigger] hrp[i] <= '~'
    &&& !((exists|i: int| 0 <= i < hrp.len() && 'a' <= #[trigger] hrp[i] <= 'z') && (exists|j: int|
        0 <= j < hrp.len() && 'A' <= #[trigger] hrp[j] <= 'Z'))
}

/// A word of 1 to 83 lower-case letters is a valid human-readable part.
pub proof fn lemma_lowercase_hrp_valid(hrp: Seq<char>)
    requires
        1 <= hrp.len() <= 83,
        forall|i: int| 0 <= i < hrp.len() ==> 'a' <= #[trigger] hrp[i] <= 'z',
    ensures
        bech32_hrp_valid(hrp),
{
    assert forall|j: int| 0 <= j < hrp.len() implies !('A' <= #[trigger] hrp[j] <= 'Z') by {
        assert('a' <= hrp[j]);
    }
}

/// `bech32::encode(hrp, data.to_base32(), Variant::Bech32)`: it fails exactly when
/// its check of the human-readable part does (writing to a `String` cannot fail),
/// and what it gives on success is named by `bech32_text`.
#[verifier::external_body]
pub(crate) fn bech32_encode(hrp: &str, data: &[u8]) -> (r: Result<String, bech32::Error>)
    ensures
        r is Ok <==> bech32_hrp_valid(hrp@),
        r matches Ok(s) ==> s@ == bech32_text(hrp@, data@),
{
    bech32::encode(hrp, data.to_base32(), bech32::Variant::Bech32)
}

/// The `Display` text of a `bech32::Error`; nothing is stated of it.
#[verifier::external_body]
pub(crate) fn bech32_error_text(e: &bech32::Error) -> String {
    e.to_string()
}

/// Hexadecimal text has two digits per byte: the high one, then the low one.
pub proof fn lemma_hex_bytes_digits(bytes: Seq<u8>)
    ensures
        hex_bytes(bytes).len() == 2 * bytes.len(),
        forall|i: int| 0 <= i < bytes.len() ==> #[trigger] hex_bytes(bytes)[2 * i] == hex_digit(
            (bytes[i] / 16) as nat,
        ) && hex_bytes(bytes)[2 * i + 1] == hex_digit((bytes[i] % 16) as nat),
    decreases bytes.len(),
{
    if bytes.len() > 0 {
        let rest = bytes.drop_last();
        lemma_hex_bytes_digits(rest);
        assert forall|i: int| 0 <= i < bytes.len() implies #[trigger] hex_bytes(bytes)[2 * i] == hex_digit(
            (bytes[i] / 16) as nat,
        ) && hex_bytes(bytes)[2 * i + 1] == hex_digit((bytes[i] % 16) as nat) by {
            if i < rest.len() {
                assert(hex_bytes(rest)[2 * i] == hex_digit((rest[i] / 16) as nat));
                assert(rest[i] == bytes[i]);
            }
        }
    }
}

/// Decoding the hexadecimal text of bytes gives the bytes back.
pub proof fn lemma_hex_round_trip(bytes: Seq<u8>)
    ensures
        hex_decodable(hex_bytes(bytes)),
        hex_decoding(hex_bytes(bytes)) == bytes,
{
    lemma_hex_bytes_digits(bytes);
    let s = hex_bytes(bytes);
    assert forall|i: int| 0 <= i < s.len() implies is_hex_char(#[trigger] s[i]) by {
        let j = i / 2;
        assert(i == 2 * j || i == 2 * j + 1);
        assert(s[2 * j] == hex_digit((bytes[j] / 16) as nat));
    }
    assert forall|j: int| 0 <= j < bytes.len() implies #[trigger] hex_decoding(s)[j] == bytes[j] by {
        assert(s[2 * j] == hex_digit((bytes[j] / 16) as nat));
        let hi = (bytes[j] / 16) as nat;
        let lo = (bytes[j] % 16) as nat;
        assert(hex_char_value(hex_digit(hi)) == hi);
        assert(hex_char_value(hex_digit(lo)) == lo);
    }
    assert(hex_decoding(s) =~= bytes);
}

/// Hexadecimal text with its upper-case digits `A` to `F` written in lower case.
pub open spec fn hex_lowercase(s: Seq<char>) -> Seq<char> {
    s.map_values(|c: char| if 'A' <= c && c <= 'F' { ((c as int) + 32) as char } else { c })
}

/// The lower-case digit of a hexadecimal digit's value is the digit, in lower case.
proof fn lemma_hex_digit_of_value(c: char)
    requires
        is_hex_char(c),
    ensures
        0 <= hex_char_value(c) < 16,
        hex_digit(hex_char_value(c) as nat) == if 'A' <= c && c <= 'F' { ((c as int) + 32) as char } else { c },
{
}

/// Encoding the bytes that hexadecimal text decodes to gives the text back, in lower case.
pub proof fn lemma_hex_decoding_reencodes(s: Seq<char>)
    requires
        hex_decodable(s),
    ensures
        hex_bytes(hex_decoding(s)) == hex_lowercase(s),
{
    let bytes = hex_decoding(s);
    lemma_hex_bytes_digits(bytes);
    let t = hex_bytes(bytes);
    assert forall|i: int| 0 <= i < s.len() implies #[trigger] t[i] == hex_lowercase(s)[i] by {
        let j = i / 2;
        lemma_hex_digit_of_value(s[2 * j]);
        lemma_hex_digit_of_value(s[2 * j + 1]);
        let hi = hex_char_value(s[2 * j]);
        let lo = hex_char_value(s[2 * j + 1]);
        assert(bytes[j] == (16 * hi + lo) as u8);
        assert((16 * hi + lo) / 16 == hi && (16 * hi + lo) % 16 == lo) by (nonlinear_arith)
            requires
                0 <= hi < 16,
                0 <= lo < 16,
        ;
        assert(t[2 * j] == hex_digit((bytes[j] / 16) as nat));
        assert(t[2 * j + 1] == hex_digit((bytes[j] % 16) as nat));
        assert(i == 2 * j || i == 2 * j + 1);
    }
    assert(t =~= hex_lowercase(s));
}

} // verus!
