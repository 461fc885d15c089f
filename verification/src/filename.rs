//! The file names under which chunks and artifacts are requested.
use vstd::prelude::*;
use vstd::string::*;
use vstd::utf8::*;

use crate::encoding::hex_chars;
use crate::models::{law_hash_text_roundtrip, parse_hash_spec, HashId, HashIdError};

verus! {

/// The suffix of a chunk's file name.
pub open spec fn chunk_suffix() -> Seq<char> {
    seq!['.', 'z', 's', 't']
}

/// The suffix of an artifact's file name.
pub open spec fn artifact_suffix() -> Seq<char> {
    seq!['.', 'b', 'a', 'r', '.', 'z', 's', 't']
}

/// `s` ends with `suffix`.
pub open spec fn ends_with(s: Seq<char>, suffix: Seq<char>) -> bool {
    suffix.len() <= s.len() && s.subrange(s.len() - suffix.len(), s.len() as int) == suffix
}

/// `s` with its last `suffix.len()` characters cut off.
pub open spec fn without_suffix(s: Seq<char>, suffix: Seq<char>) -> Seq<char> {
    s.subrange(0, s.len() - suffix.len())
}

/// Why a text is not a file name of the expected kind.
#[derive(Clone, Copy, Debug, PartialEq, Eq)]
pub enum FilenameError {
    /// The name does not end with the kind's suffix.
    WrongSuffix,
    /// What comes before the suffix is not a hash.
    InvalidHashId(HashIdError),
}

/// The outcome of reading `s` as a hash followed by `suffix`: the hash's
/// bytes, or the error.
pub open spec fn parse_filename_spec(s: Seq<char>, suffix: Seq<char>) -> Result<Seq<u8>, FilenameError> {
    if !ends_with(s, suffix) {
        Err(FilenameError::WrongSuffix)
    } else {
        match parse_hash_spec(encode_utf8(without_suffix(s, suffix))) {
            Ok(bytes) => Ok(bytes),
            Err(e) => Err(FilenameError::InvalidHashId(e)),
        }
    }
}

/// Calls `str::strip_suffix`, which by its documentation hands back the
/// string without the suffix exactly when the string ends with it.
#[verifier::external_body]
fn str_strip_suffix<'a>(s: &'a str, suffix: &str) -> (r: Option<&'a str>)
    ensures
        r is Some <==> ends_with(s@, suffix@),
        r matches Some(rest) ==> rest@ == without_suffix(s@, suffix@),
{
    s.strip_suffix(suffix)
}

/// The name of a compressed chunk file.
#[derive(Clone, Copy, Debug, PartialEq, Eq)]
pub enum ChunkFilename {
    Zst { chunk_id: HashId },
}

/// The name of a compressed artifact archive.
#[derive(Clone, Copy, Debug, PartialEq, Eq)]
pub enum ArtifactFilename {
    BarZst { artifact_id: HashId },
}

impl ChunkFilename {
    /// The hash that the name is for.
    pub open spec fn hash(self) -> Seq<u8> {
        match self {
            ChunkFilename::Zst { chunk_id } => chunk_id@,
        }
    }

    /// Reads `<hash>.zst`.
    pub fn parse(s: &str) -> (r: Result<ChunkFilename, FilenameError>)
        ensures
            match (r, parse_filename_spec(s@, chunk_suffix())) {
                (Ok(name), Ok(bytes)) => name.hash() == bytes,
                (Err(e1), Err(e2)) => e1 == e2,
                _ => false,
            },
    {
        let suffix = ".zst";
        proof {
            reveal_strlit(".zst");
            assert(suffix@ =~= chunk_suffix());
        }
        match str_strip_suffix(s, suffix) {
            Some(rest) => {
                let parsed = HashId::parse(rest);
                match parsed {
                    Ok(chunk_id) => Ok(ChunkFilename::Zst { chunk_id }),
                    Err(e) => Err(FilenameError::InvalidHashId(e)),
                }
            },
            None => Err(FilenameError::WrongSuffix),
        }
    }

    /// Writes `<hash>.zst`, the hash in lowercase digits.
    pub fn to_filename_string(&self) -> (s: String)
        ensures
            s@ == hex_chars(self.hash()) + chunk_suffix(),
    {
        match self {
            ChunkFilename::Zst { chunk_id } => {
                let mut s = chunk_id.to_hex_string();
                let suffix = ".zst";
                proof {
                    reveal_strlit(".zst");
                    assert(suffix@ =~= chunk_suffix());
                }
                s.append(suffix);
                s
            },
        }
    }
}

impl ArtifactFilename {
    /// The hash that the name is for.
    pub open spec fn hash(self) -> Seq<u8> {
        match self {
            ArtifactFilename::BarZst { artifact_id } => artifact_id@,
        }
    }

    /// Reads `<hash>.bar.zst`.
    pub fn parse(s: &str) -> (r: Result<ArtifactFilename, FilenameError>)
        ensures
            match (r, parse_filename_spec(s@, artifact_suffix())) {
                (Ok(name), Ok(bytes)) => name.hash() == bytes,
                (Err(e1), Err(e2)) => e1 == e2,
                _ => false,
            },
    {
        let suffix = ".bar.zst";
        proof {
            reveal_strlit(".bar.zst");
            assert(suffix@ =~= artifact_suffix());
        }
        match str_strip_suffix(s, suffix) {
            Some(rest) => {
                let parsed = HashId::parse(rest);
                match parsed {
                    Ok(artifact_id) => Ok(ArtifactFilename::BarZst { artifact_id }),
                    Err(e) => Err(FilenameError::InvalidHashId(e)),
                }
            },
            None => Err(FilenameError::WrongSuffix),
        }
    }

    /// Writes `<hash>.bar.zst`, the hash in lowercase digits.
    pub fn to_filename_string(&self) -> (s: String)
        ensures
            s@ == hex_chars(self.hash()) + artifact_suffix(),
    {
        match self {
            ArtifactFilename::BarZst { artifact_id } => {
                let mut s = artifact_id.to_hex_string();
                let suffix = ".bar.zst";
                proof {
                    reveal_strlit(".bar.zst");
                    assert(suffix@ =~= artifact_suffix());
                }
                s.append(suffix);
                s
            },
        }
    }
}

/// Reading back a written file name gives the same hash, for either kind of
/// name.
pub proof fn law_filename_roundtrip(bytes: Seq<u8>, suffix: Seq<char>)
    requires
        bytes.len() == 32,
    ensures
        parse_filename_spec(hex_chars(bytes) + suffix, suffix) == Ok::<Seq<u8>, FilenameError>(
            bytes,
        ),
{
    let s = hex_chars(bytes) + suffix;
    assert(s.subrange(s.len() - suffix.len(), s.len() as int) =~= suffix);
    assert(without_suffix(s, suffix) =~= hex_chars(bytes));
    law_hash_text_roundtrip(bytes);
}

} // verus!
