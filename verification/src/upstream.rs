//! Where the upstream store keeps each resource, and what its responses
//! say about their size.
use vstd::prelude::*;
use vstd::string::*;

use crate::encoding::hex_chars;
use crate::models::HashId;
use crate::response::BodySizeHint;

verus! {

/// A resource that the upstream store serves.
#[derive(Clone, Copy, Debug, PartialEq, Eq)]
pub enum UpstreamResource {
    Chunk { chunk_id: HashId },
    Artifact { artifact_id: HashId },
    ProjectSource { project_id: HashId },
    BakeOutput { recipe_id: HashId },
}

impl UpstreamResource {
    /// The resource's path below the store's base URL.
    pub open spec fn path_spec(self) -> Seq<char> {
        match self {
            UpstreamResource::Chunk { chunk_id } => "chunks/"@ + hex_chars(chunk_id@) + ".zst"@,
            UpstreamResource::Artifact { artifact_id } => "artifacts/"@ + hex_chars(artifact_id@)
                + ".bar.zst"@,
            UpstreamResource::ProjectSource { project_id } => "projects/"@ + hex_chars(
                project_id@,
            ) + "/source.json"@,
            UpstreamResource::BakeOutput { recipe_id } => "bakes/"@ + hex_chars(recipe_id@)
                + "/output.json"@,
        }
    }

    /// The resource's path below the store's base URL.
    pub fn path(&self) -> (p: String)
        ensures
            p@ == self.path_spec(),
    {
        let (prefix, id, suffix) = match self {
            UpstreamResource::Chunk { chunk_id } => ("chunks/", chunk_id, ".zst"),
            UpstreamResource::Artifact { artifact_id } => ("artifacts/", artifact_id, ".bar.zst"),
            UpstreamResource::ProjectSource { project_id } => (
                "projects/",
                project_id,
                "/source.json",
            ),
            UpstreamResource::BakeOutput { recipe_id } => ("bakes/", recipe_id, "/output.json"),
        };
        let mut p = prefix.to_owned();
        let hex = id.to_hex_string();
        p.append(hex.as_str());
        p.append(suffix);
        p
    }
}

#[verifier::external_type_specification]
#[verifier::external_body]
pub struct ExUrlParseError(url::ParseError);

/// What `url::Url::join` makes of `input` relative to the URL whose text is
/// `base`: the joined URL's text, or nothing when it refuses (or `base` is
/// not the text of a URL).
pub uninterp spec fn url_join_spec(base: Seq<char>, input: Seq<char>) -> Option<Seq<char>>;

/// Calls `url::Url::join` on the URL whose text is `base`, giving the text
/// of the result. A URL is held here by its text (the type has no view), so
/// `url::Url::parse` turns that text back into the URL it was written from,
/// and `into` turns the result into its text. The result depends on the two
/// texts only; it is named, not described.
#[verifier::external_body]
fn url_join(base: &str, input: &str) -> (r: Result<String, url::ParseError>)
    ensures
        r is Ok <==> url_join_spec(base@, input@) is Some,
        r matches Ok(joined) ==> url_join_spec(base@, input@) == Some(joined@),
{
    let base = url::Url::parse(base)?;
    let joined = base.join(input)?;
    Ok(joined.into())
}

/// The URL of `resource` in the store at `base`.
pub fn upstream_url(base: &str, resource: &UpstreamResource) -> (r: Result<String, url::ParseError>)
    ensures
        r is Ok <==> url_join_spec(base@, resource.path_spec()) is Some,
        r matches Ok(url) ==> url_join_spec(base@, resource.path_spec()) == Some(url@),
{
    let path = resource.path();
    url_join(base, path.as_str())
}

/// An ASCII decimal digit.
pub open spec fn is_decimal_digit(b: u8) -> bool {
    48 <= b <= 57
}

/// The number that ASCII decimal digits stand for.
pub open spec fn decimal_value(digits: Seq<u8>) -> nat
    decreases digits.len(),
{
    if digits.len() == 0 {
        0
    } else {
        decimal_value(digits.drop_last()) * 10 + (digits.last() - 48) as nat
    }
}

/// The digits of a number's text: all of it, or what follows a leading `+`.
pub open spec fn unsigned_digits(text: Seq<u8>) -> Seq<u8> {
    if text.len() > 0 && text[0] == 43 {
        text.drop_first()
    } else {
        text
    }
}

/// What `u64::from_str` makes of the text with these bytes: an optional
/// `+`, then one or more decimal digits, whose value must fit in 64 bits.
pub open spec fn parse_u64_spec(text: Seq<u8>) -> Option<u64> {
    let digits = unsigned_digits(text);
    if digits.len() == 0 {
        None
    } else if exists|i: int| 0 <= i < digits.len() && !is_decimal_digit(#[trigger] digits[i]) {
        None
    } else if decimal_value(digits) > u64::MAX {
        None
    } else {
        Some(decimal_value(digits) as u64)
    }
}

/// Reads an unsigned 64-bit number from text, as `u64::from_str` does
/// (see `parse_u64_spec`).
pub fn parse_u64(text: &[u8]) -> (r: Option<u64>)
    ensures
        r == parse_u64_spec(text@),
{
    let start: usize = if text.len() > 0 && text[0] == 43 {
        1
    } else {
        0
    };
    let ghost digits = unsigned_digits(text@);
    proof {
        assert(digits =~= text@.subrange(start as int, text@.len() as int));
    }
    if start == text.len() {
        return None;
    }
    let mut value: u64 = 0;
    let mut overflowed = false;
    let mut i: usize = start;
    while i < text.len()
        invariant
            start <= i <= text@.len(),
            digits == text@.subrange(start as int, text@.len() as int),
            digits == unsigned_digits(text@),
            forall|j: int| 0 <= j < i - start ==> is_decimal_digit(#[trigger] digits[j]),
            !overflowed ==> value == decimal_value(digits.subrange(0, i - start)),
            overflowed ==> decimal_value(digits.subrange(0, i - start)) > u64::MAX,
        decreases text@.len() - i,
    {
        let b = text[i];
        if b < 48 || b > 57 {
            proof {
                assert(digits[i - start] == b);
                assert(!is_decimal_digit(digits[i - start]));
                assert(digits.len() > 0);
            }
            return None;
        }
        let ghost prefix = digits.subrange(0, i - start);
        proof {
            assert(digits.subrange(0, i + 1 - start).drop_last() =~= prefix);
            assert(digits.subrange(0, i + 1 - start).last() == b);
        }
        if !overflowed {
            match value.checked_mul(10) {
                Some(scaled) => match scaled.checked_add((b - 48) as u64) {
                    Some(next) => {
                        value = next;
                    },
                    None => {
                        overflowed = true;
                    },
                },
                None => {
                    overflowed = true;
                },
            }
        }
        i = i + 1;
    }
    proof {
        assert(digits.subrange(0, digits.len() as int) =~= digits);
    }
    if overflowed {
        None
    } else {
        Some(value)
    }
}

/// The bytes of a header value are all visible ASCII (printable, or a tab),
/// as `http::HeaderValue::to_str` requires of a value it reads as text.
pub open spec fn is_visible_text(bytes: Seq<u8>) -> bool {
    forall|i: int| 0 <= i < bytes.len() ==> ((32 <= #[trigger] bytes[i] < 127) || bytes[i] == 9)
}

/// Whether a header value's bytes can be read as text.
pub fn header_is_text(bytes: &[u8]) -> (r: bool)
    ensures
        r == is_visible_text(bytes@),
{
    let mut i: usize = 0;
    while i < bytes.len()
        invariant
            i <= bytes@.len(),
            forall|j: int| 0 <= j < i ==> ((32 <= #[trigger] bytes@[j] < 127) || bytes@[j] == 9),
        decreases bytes@.len() - i,
    {
        let b = bytes[i];
        if !((32 <= b && b < 127) || b == 9) {
            return false;
        }
        i = i + 1;
    }
    true
}

/// The exact size announced by a `Content-Length` header's bytes, when it
/// is there, reads as text and the text is a number.
pub fn content_length_hint(header: Option<&[u8]>) -> (h: Option<BodySizeHint>)
    ensures
        match header {
            None => h is None,
            Some(bytes) => if is_visible_text(bytes@) {
                match parse_u64_spec(bytes@) {
                    Some(n) => h matches Some(hint) && hint@ == (n, Some(n)),
                    None => h is None,
                }
            } else {
                h is None
            },
        },
{
    match header {
        None => None,
        Some(bytes) => {
            if !header_is_text(bytes) {
                return None;
            }
            match parse_u64(bytes) {
                Some(n) => Some(BodySizeHint::with_exact(n)),
                None => None,
            }
        },
    }
}

/// The nibble that a lowercase hexadecimal digit character stands for:
/// `0`-`9`, then `a`-`f`. Other characters stand for none.
pub open spec fn lower_hex_nibble(c: char) -> Option<int> {
    if '0' <= c <= '9' {
        Some(c as int - 48)
    } else if 'a' <= c <= 'f' {
        Some(c as int - 87)
    } else {
        None
    }
}

/// `p` is `prefix`, then two lowercase hexadecimal digits for each byte of
/// `id` (high nibble first), then `suffix`.
pub open spec fn names_id(p: Seq<char>, prefix: Seq<char>, id: Seq<u8>, suffix: Seq<char>) -> bool {
    &&& p.len() == prefix.len() + 2 * id.len() + suffix.len()
    &&& p.subrange(0, prefix.len() as int) == prefix
    &&& p.subrange((prefix.len() + 2 * id.len()) as int, p.len() as int) == suffix
    &&& forall|i: int|
        0 <= i < id.len() ==> lower_hex_nibble(#[trigger] p[prefix.len() + 2 * i]) == Some(
            (id[i] / 16) as int,
        ) && lower_hex_nibble(p[prefix.len() + 2 * i + 1]) == Some((id[i] % 16) as int)
}

proof fn lemma_names_id(prefix: Seq<char>, id: Seq<u8>, suffix: Seq<char>)
    ensures
        names_id(prefix + hex_chars(id) + suffix, prefix, id, suffix),
{
    let mid = hex_chars(id);
    let p = prefix + mid + suffix;
    assert(mid.len() == 2 * id.len());
    assert(p.subrange(0, prefix.len() as int) =~= prefix);
    assert(p.subrange((prefix.len() + 2 * id.len()) as int, p.len() as int) =~= suffix);
    assert forall|i: int| 0 <= i < id.len() implies lower_hex_nibble(
        #[trigger] p[prefix.len() + 2 * i],
    ) == Some((id[i] / 16) as int) && lower_hex_nibble(p[prefix.len() + 2 * i + 1]) == Some(
        (id[i] % 16) as int,
    ) by {
        assert(p[prefix.len() + 2 * i] == mid[2 * i]);
        assert(p[prefix.len() + 2 * i + 1] == mid[2 * i + 1]);
        assert((2 * i) / 2 == i);
        assert((2 * i + 1) / 2 == i);
        assert((2 * i) % 2 == 0);
        assert((2 * i + 1) % 2 == 1);
    }
}

/// Every resource's path is its kind's directory, the resource's id as
/// lowercase hexadecimal text (the form the store keeps its objects under),
/// and its kind's file name.
pub proof fn law_path_names_id(r: UpstreamResource)
    ensures
        r matches UpstreamResource::Chunk { chunk_id } ==> names_id(
            r.path_spec(),
            "chunks/"@,
            chunk_id@,
            ".zst"@,
        ),
        r matches UpstreamResource::Artifact { artifact_id } ==> names_id(
            r.path_spec(),
            "artifacts/"@,
            artifact_id@,
            ".bar.zst"@,
        ),
        r matches UpstreamResource::ProjectSource { project_id } ==> names_id(
            r.path_spec(),
            "projects/"@,
            project_id@,
            "/source.json"@,
        ),
        r matches UpstreamResource::BakeOutput { recipe_id } ==> names_id(
            r.path_spec(),
            "bakes/"@,
            recipe_id@,
            "/output.json"@,
        ),
{
    match r {
        UpstreamResource::Chunk { chunk_id } => lemma_names_id("chunks/"@, chunk_id@, ".zst"@),
        UpstreamResource::Artifact { artifact_id } => lemma_names_id(
            "artifacts/"@,
            artifact_id@,
            ".bar.zst"@,
        ),
        UpstreamResource::ProjectSource { project_id } => lemma_names_id(
            "projects/"@,
            project_id@,
            "/source.json"@,
        ),
        UpstreamResource::BakeOutput { recipe_id } => lemma_names_id(
            "bakes/"@,
            recipe_id@,
            "/output.json"@,
        ),
    }
}

/// The text of a hash (as `HashId::to_hex_string` writes it) is two
/// lowercase hexadecimal digits per byte, high nibble first.
pub proof fn law_hex_text_is_lowercase(bytes: Seq<u8>)
    ensures
        names_id(hex_chars(bytes), Seq::empty(), bytes, Seq::empty()),
{
    lemma_names_id(Seq::empty(), bytes, Seq::empty());
    assert(Seq::<char>::empty() + hex_chars(bytes) + Seq::<char>::empty() =~= hex_chars(bytes));
}

/// The decimal text of `n`: its digits, most significant first, with no
/// leading zero.
pub open spec fn decimal_text(n: nat) -> Seq<u8>
    decreases n,
{
    if n < 10 {
        seq![(48 + n) as u8]
    } else {
        decimal_text(n / 10).push((48 + n % 10) as u8)
    }
}

proof fn lemma_decimal_text(n: nat)
    ensures
        decimal_text(n).len() > 0,
        forall|i: int| 0 <= i < decimal_text(n).len() ==> 48 <= #[trigger] decimal_text(n)[i] <= 57,
        decimal_value(decimal_text(n)) == n,
    decreases n,
{
    if n < 10 {
        let t = decimal_text(n);
        assert(t.drop_last() =~= Seq::<u8>::empty());
        assert(decimal_value(t.drop_last()) == 0);
    } else {
        lemma_decimal_text(n / 10);
        let t = decimal_text(n);
        assert(t.drop_last() =~= decimal_text(n / 10));
        assert forall|i: int| 0 <= i < t.len() implies 48 <= #[trigger] t[i] <= 57 by {
            if i < t.len() - 1 {
                assert(t[i] == decimal_text(n / 10)[i]);
            }
        }
    }
}

/// Header bytes are text exactly when each is visible ASCII (a space to a
/// tilde) or a tab.
pub proof fn law_visible_text(bytes: Seq<u8>)
    ensures
        (forall|i: int| 0 <= i < bytes.len() ==> 32 <= #[trigger] bytes[i] <= 126 || bytes[i] == 9)
            ==> is_visible_text(bytes),
        (exists|i: int| 0 <= i < bytes.len() && !(32 <= #[trigger] bytes[i] <= 126) && bytes[i] != 9)
            ==> !is_visible_text(bytes),
{
}

/// Every number that fits in 64 bits, written in decimal, is header text
/// and reads back as itself; so a `Content-Length` header with that text
/// gives an exact size hint of that number.
pub proof fn law_decimal_content_length(n: u64)
    ensures
        is_visible_text(decimal_text(n as nat)),
        parse_u64_spec(decimal_text(n as nat)) == Some(n),
{
    let t = decimal_text(n as nat);
    lemma_decimal_text(n as nat);
    assert(unsigned_digits(t) == t);
}

} // verus!
