//! Content hashes and the two JSON records the cache serves.
use vstd::prelude::*;
use vstd::string::*;
use vstd::utf8::*;

use crate::encoding::{
    all_hex_digits, ascii_lowercase, first_non_hex_digit, hex_chars, hex_decode, hex_decode_32,
    hex_encode, hex_encode_32, hex_value, is_hex_digit, lemma_hex_chars_utf8, lemma_hex_decode_encode,
    str_from_utf8, HexDecodeError,
};

verus! {

/// A 32-byte content hash, written as 64 hexadecimal digits.
#[derive(Clone, Copy, PartialEq, Eq, PartialOrd, Ord, Hash, Debug)]
pub struct HashId(pub(crate) [u8; 32]);

impl View for HashId {
    type V = Seq<u8>;

    closed spec fn view(&self) -> Seq<u8> {
        self.0@
    }
}

/// Why a text is not a hash.
#[derive(Clone, Copy, Debug, PartialEq, Eq)]
pub enum HashIdError {
    /// The text is not `expected` bytes long.
    WrongLength { expected: usize, actual: usize },
    /// The byte at `index`, shown as `c`, is not a hexadecimal digit.
    InvalidHexCharacter { c: char, index: usize },
}

/// The outcome of reading the UTF-8 bytes `text` as a hash: its 32 bytes, or
/// the error. The length is checked first, then the digits in order.
pub open spec fn parse_hash_spec(text: Seq<u8>) -> Result<Seq<u8>, HashIdError> {
    if text.len() != 64 {
        Err(HashIdError::WrongLength { expected: 64, actual: text.len() as usize })
    } else if !all_hex_digits(text) {
        Err(
            HashIdError::InvalidHexCharacter {
                c: text[first_non_hex_digit(text)] as char,
                index: first_non_hex_digit(text) as usize,
            },
        )
    } else {
        Ok(hex_decode(text))
    }
}

/// `r` is the executable form of the outcome `spec`.
pub open spec fn hash_result_matches(
    r: Result<HashId, HashIdError>,
    spec: Result<Seq<u8>, HashIdError>,
) -> bool {
    match (r, spec) {
        (Ok(h), Ok(bytes)) => h@ == bytes,
        (Err(e1), Err(e2)) => e1 == e2,
        _ => false,
    }
}

impl HashId {
    /// The number of bytes in a hash.
    pub const LEN: usize = 32;

    /// The length (in bytes) of a hexadecimal representation of a hash.
    pub const STR_LEN: usize = 64;

    /// The hash made of these bytes.
    pub fn from_bytes(bytes: [u8; 32]) -> (h: HashId)
        ensures
            h@ == bytes@,
    {
        HashId(bytes)
    }

    /// The bytes of the hash.
    pub fn to_bytes(&self) -> (bytes: [u8; 32])
        ensures
            bytes@ == self@,
    {
        self.0
    }

    /// Reads a hash from exactly 64 hexadecimal digits (either case).
    pub fn parse(s: &str) -> (r: Result<HashId, HashIdError>)
        ensures
            hash_result_matches(r, parse_hash_spec(s.spec_bytes())),
    {
        let text = s.as_bytes();
        if text.len() != Self::STR_LEN {
            return Err(HashIdError::WrongLength { expected: Self::STR_LEN, actual: text.len() });
        }
        match hex_decode_32(text) {
            Ok(bytes) => Ok(HashId(bytes)),
            Err(e) => Err(
                match e {
                    HexDecodeError::InvalidHexCharacter { c, index } => {
                        HashIdError::InvalidHexCharacter { c, index }
                    },
                    HexDecodeError::OddLength => {
                        HashIdError::WrongLength { expected: Self::STR_LEN, actual: text.len() }
                    },
                    HexDecodeError::InvalidStringLength => {
                        HashIdError::WrongLength { expected: Self::STR_LEN, actual: text.len() }
                    },
                },
            ),
        }
    }

    /// The hash as 64 lowercase hexadecimal digits.
    pub fn to_hex_string(&self) -> (s: String)
        ensures
            s@ == hex_chars(self@),
    {
        let hex = hex_encode_32(&self.0);
        proof {
            lemma_hex_chars_utf8(self@);
        }
        match str_from_utf8(hex.as_slice()) {
            Some(text) => {
                proof {
                    encode_utf8_decode_utf8(text@);
                    encode_utf8_decode_utf8(hex_chars(self@));
                }
                text.to_owned()
            },
            None => {
                proof {
                    assert(false);
                }
                String::new()
            },
        }
    }
}

/// Reading back the text of a hash gives the hash.
pub proof fn law_hash_text_roundtrip(bytes: Seq<u8>)
    requires
        bytes.len() == 32,
    ensures
        parse_hash_spec(encode_utf8(hex_chars(bytes))) == Ok::<Seq<u8>, HashIdError>(bytes),
{
    lemma_hex_chars_utf8(bytes);
    lemma_hex_decode_encode(bytes);
}

/// Writing a read hash gives its text in lower case.
pub proof fn law_hash_text_canonical(text: Seq<u8>)
    requires
        parse_hash_spec(text) is Ok,
    ensures
        hex_encode(parse_hash_spec(text)->Ok_0) == ascii_lowercase(text),
{
    let bytes = hex_decode(text);
    assert forall|i: int| 0 <= i < text.len() implies #[trigger] hex_encode(bytes)[i]
        == ascii_lowercase(text)[i] by {
        let j = i / 2;
        assert(is_hex_digit(text[2 * j]));
        assert(is_hex_digit(text[2 * j + 1]));
        let hi = hex_value(text[2 * j]);
        let lo = hex_value(text[2 * j + 1]);
        assert(0 <= hi < 16 && 0 <= lo < 16);
        assert(bytes[j] == (hi * 16 + lo) as u8);
        assert((hi * 16 + lo) / 16 == hi && (hi * 16 + lo) % 16 == lo) by (nonlinear_arith)
            requires
                0 <= hi < 16,
                0 <= lo < 16,
        ;
        if i % 2 == 0 {
            assert(i == 2 * j);
        } else {
            assert(i == 2 * j + 1);
        }
    }
    assert(hex_encode(bytes) =~= ascii_lowercase(text));
}

/// Where a project's source is stored: the hash of its artifact.
#[derive(Clone, Copy, PartialEq, Eq, Debug)]
pub struct ProjectSource {
    pub artifact_hash: HashId,
}

/// The result of baking a recipe: the hash of its output artifact.
#[derive(Clone, Copy, PartialEq, Eq, Debug)]
pub struct BakeOutput {
    pub output_hash: HashId,
}

} // verus!
