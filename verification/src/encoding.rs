//! Lowercase hexadecimal text and its decoding, as the `hex` crate defines
//! them, and the UTF-8 view of ASCII text.
use vstd::prelude::*;
use vstd::string::*;
use vstd::utf8::*;

verus! {

/// The ASCII digit that stands for a nibble (`0..16`): `0`-`9`, then `a`-`f`.
pub open spec fn hex_digit(nibble: int) -> u8 {
    if nibble < 10 {
        (48 + nibble) as u8
    } else {
        (87 + nibble) as u8
    }
}

/// A byte that is an ASCII hexadecimal digit, in either case.
pub open spec fn is_hex_digit(b: u8) -> bool {
    (48 <= b <= 57) || (97 <= b <= 102) || (65 <= b <= 70)
}

/// The nibble that a hexadecimal digit stands for.
pub open spec fn hex_value(b: u8) -> int {
    if 48 <= b <= 57 {
        b - 48
    } else if 97 <= b <= 102 {
        b - 87
    } else {
        b - 55
    }
}

/// Every byte of `text` is a hexadecimal digit.
pub open spec fn all_hex_digits(text: Seq<u8>) -> bool {
    forall|i: int| 0 <= i < text.len() ==> is_hex_digit(#[trigger] text[i])
}

/// The position of the first byte of `text` that is not a hexadecimal digit
/// (`text.len()` where there is none).
pub open spec fn first_non_hex_digit(text: Seq<u8>) -> int
    decreases text.len(),
{
    if text.len() == 0 {
        0
    } else if !is_hex_digit(text[0]) {
        0
    } else {
        1 + first_non_hex_digit(text.drop_first())
    }
}

/// Lowercase hexadecimal text of `bytes`: two digits per byte, high nibble first.
pub open spec fn hex_encode(bytes: Seq<u8>) -> Seq<u8> {
    Seq::new(
        2 * bytes.len(),
        |i: int|
            if i % 2 == 0 {
                hex_digit((bytes[i / 2] / 16) as int)
            } else {
                hex_digit((bytes[i / 2] % 16) as int)
            },
    )
}

/// The bytes that hexadecimal `text` of even length stands for.
pub open spec fn hex_decode(text: Seq<u8>) -> Seq<u8> {
    Seq::new(
        text.len() / 2,
        |i: int| (hex_value(text[2 * i]) * 16 + hex_value(text[2 * i + 1])) as u8,
    )
}

/// The characters of the lowercase hexadecimal text of `bytes`.
pub open spec fn hex_chars(bytes: Seq<u8>) -> Seq<char> {
    hex_encode(bytes).map_values(|b: u8| b as char)
}

/// ASCII upper-case letters turned to lower case, all other bytes kept.
pub open spec fn ascii_lowercase(text: Seq<u8>) -> Seq<u8> {
    text.map_values(|b: u8| if 65 <= b <= 90 { (b + 32) as u8 } else { b })
}

/// The error that names the first byte of `text` that is not a hexadecimal
/// digit, as a character, and its position.
pub open spec fn first_hex_error(text: Seq<u8>) -> HexDecodeError {
    HexDecodeError::InvalidHexCharacter {
        c: text[first_non_hex_digit(text)] as char,
        index: first_non_hex_digit(text) as usize,
    }
}

/// Thirty-two bytes, the size of a hash.
pub type HashBytes = [u8; 32];

/// Why `hex::decode_to_slice` refused its input.
#[derive(Clone, Copy, Debug, PartialEq, Eq)]
pub enum HexDecodeError {
    InvalidHexCharacter { c: char, index: usize },
    OddLength,
    InvalidStringLength,
}

/// Calls `hex::encode_to_slice` on 32 bytes. Its source writes, for each
/// input byte, the lowercase digit of the high nibble and then that of the
/// low nibble; with an output exactly twice the input it does not fail.
#[verifier::external_body]
pub(crate) fn hex_encode_32(input: &[u8; 32]) -> (out: [u8; 64])
    ensures
        out@ == hex_encode(input@),
{
    let mut out = [0u8; 64];
    hex::encode_to_slice(input, &mut out).expect("hex::encode_to_slice failed");
    out
}

/// Calls `hex::decode_to_slice` on 64 bytes of text into 32 bytes. Its source
/// decodes pair by pair, accepting `0-9`, `a-f` and `A-F`, and stops at the
/// first byte that is not a digit, naming that byte (as a `char`) and its
/// position. The buffer is returned only when the whole text decoded.
#[verifier::external_body]
pub(crate) fn hex_decode_32(text: &[u8]) -> (r: Result<HashBytes, HexDecodeError>)
    requires
        text@.len() == 64,
    ensures
        all_hex_digits(text@) ==> r is Ok,
        r matches Ok(out) ==> out@ == hex_decode(text@),
        !all_hex_digits(text@) ==> r is Err,
        r matches Err(e) ==> e == first_hex_error(text@),
{
    let mut out = [0u8; 32];
    match hex::decode_to_slice(text, &mut out) {
        Ok(()) => Ok(out),
        Err(hex::FromHexError::InvalidHexCharacter { c, index }) => Err(
            HexDecodeError::InvalidHexCharacter { c, index },
        ),
        Err(hex::FromHexError::OddLength) => Err(HexDecodeError::OddLength),
        Err(hex::FromHexError::InvalidStringLength) => Err(HexDecodeError::InvalidStringLength),
    }
}

/// Calls `std::str::from_utf8`, which by its documentation succeeds exactly
/// on valid UTF-8 and then hands back a string slice of those same bytes.
#[verifier::external_body]
pub(crate) fn str_from_utf8(bytes: &[u8]) -> (r: Option<&str>)
    ensures
        r is Some <==> valid_utf8(bytes@),
        r matches Some(s) ==> s.spec_bytes() == bytes@,
{
    std::str::from_utf8(bytes).ok()
}

/// One byte survives encoding then decoding.
pub proof fn lemma_hex_byte_roundtrip(b: u8)
    ensures
        is_hex_digit(hex_digit((b / 16) as int)),
        is_hex_digit(hex_digit((b % 16) as int)),
        (hex_value(hex_digit((b / 16) as int)) * 16 + hex_value(hex_digit((b % 16) as int))) as u8 == b,
{
}

/// Decoding the hexadecimal text of some bytes gives those bytes back.
pub proof fn lemma_hex_decode_encode(bytes: Seq<u8>)
    ensures
        hex_encode(bytes).len() == 2 * bytes.len(),
        all_hex_digits(hex_encode(bytes)),
        hex_decode(hex_encode(bytes)) == bytes,
{
    let text = hex_encode(bytes);
    assert forall|i: int| 0 <= i < text.len() implies is_hex_digit(#[trigger] text[i]) by {
        lemma_hex_byte_roundtrip(bytes[i / 2]);
    }
    assert forall|i: int| 0 <= i < bytes.len() implies #[trigger] hex_decode(text)[i] == bytes[i] by {
        lemma_hex_byte_roundtrip(bytes[i]);
        assert((2 * i) / 2 == i);
        assert((2 * i + 1) / 2 == i);
        assert((2 * i) % 2 == 0);
        assert((2 * i + 1) % 2 == 1);
    }
    assert(hex_decode(text) =~= bytes);
}

/// Hexadecimal text is ASCII, so its characters encode to its bytes.
pub proof fn lemma_hex_chars_utf8(bytes: Seq<u8>)
    ensures
        is_ascii_chars(hex_chars(bytes)),
        encode_utf8(hex_chars(bytes)) == hex_encode(bytes),
        valid_utf8(hex_encode(bytes)),
{
    let chars = hex_chars(bytes);
    let text = hex_encode(bytes);
    assert forall|i: int| 0 <= i < chars.len() implies '\0' <= #[trigger] chars[i] <= '\u{7f}' by {
        lemma_hex_byte_roundtrip(bytes[i / 2]);
    }
    is_ascii_chars_encode_utf8(chars);
    assert forall|i: int| 0 <= i < text.len() implies #[trigger] encode_utf8(chars)[i] == text[i] by {
        lemma_hex_byte_roundtrip(bytes[i / 2]);
        assert(chars[i] as u8 == encode_utf8(chars)[i]);
    }
    assert(encode_utf8(chars) =~= text);
    encode_utf8_valid_utf8(chars);
}

} // verus!
