use brioche_cache::models::{BakeOutput, HashId, HashIdError, ProjectSource};

fn fake_hash_id(n: u64) -> HashId {
    let bytes = n.to_be_bytes();
    let mut hash_bytes = [0; HashId::LEN];
    hash_bytes[(HashId::LEN - bytes.len())..].copy_from_slice(&bytes);
    HashId::from_bytes(hash_bytes)
}

#[test]
fn hash_id_text_is_lowercase_hex() {
    let id = fake_hash_id(0x1234);
    assert_eq!(
        id.to_hex_string(),
        "0000000000000000000000000000000000000000000000000000000000001234"
    );
    let mut bytes = [0u8; 32];
    bytes[0] = 0xab;
    bytes[31] = 0xf0;
    assert_eq!(
        HashId::from_bytes(bytes).to_hex_string(),
        "ab000000000000000000000000000000000000000000000000000000000000f0"
    );
}

#[test]
fn hash_id_text_roundtrip() {
    for n in [0u64, 1, 0x1234, 0x9999, u64::MAX] {
        let id = fake_hash_id(n);
        assert_eq!(HashId::parse(&id.to_hex_string()), Ok(id));
    }
}

#[test]
fn hash_id_parse_accepts_upper_case() {
    let text = "AB000000000000000000000000000000000000000000000000000000000000F0";
    let id = HashId::parse(text).unwrap();
    assert_eq!(
        id.to_hex_string(),
        "ab000000000000000000000000000000000000000000000000000000000000f0"
    );
    assert_eq!(id.to_bytes()[0], 0xab);
    assert_eq!(id.to_bytes()[31], 0xf0);
}

#[test]
fn hash_id_parse_rejects_wrong_length() {
    assert_eq!(
        HashId::parse("abc"),
        Err(HashIdError::WrongLength { expected: 64, actual: 3 })
    );
    assert_eq!(
        HashId::parse(""),
        Err(HashIdError::WrongLength { expected: 64, actual: 0 })
    );
    let long = "0".repeat(65);
    assert_eq!(
        HashId::parse(&long),
        Err(HashIdError::WrongLength { expected: 64, actual: 65 })
    );
}

#[test]
fn hash_id_parse_names_first_bad_digit() {
    let mut text = "0".repeat(64);
    text.replace_range(5..6, "g");
    text.replace_range(9..10, "z");
    assert_eq!(
        HashId::parse(&text),
        Err(HashIdError::InvalidHexCharacter { c: 'g', index: 5 })
    );
}

#[test]
fn hash_id_parse_counts_bytes_not_characters() {
    // "é" is two bytes, so 62 digits and one "é" make 64 bytes.
    let text = format!("é{}", "0".repeat(62));
    assert_eq!(
        HashId::parse(&text),
        Err(HashIdError::InvalidHexCharacter { c: 0xc3 as char, index: 0 })
    );
    let short = format!("é{}", "0".repeat(63));
    assert_eq!(
        HashId::parse(&short),
        Err(HashIdError::WrongLength { expected: 64, actual: 65 })
    );
}

#[test]
fn records_hold_their_hash() {
    let source = ProjectSource { artifact_hash: fake_hash_id(0x9999) };
    assert_eq!(source.artifact_hash, fake_hash_id(0x9999));
    let output = BakeOutput { output_hash: fake_hash_id(0x8888) };
    assert_eq!(output.output_hash, fake_hash_id(0x8888));
}
