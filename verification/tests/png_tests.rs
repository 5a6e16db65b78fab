use pngme::{Chunk, ChunkError, ChunkType, Png};

const SIGNATURE: [u8; 8] = [137, 80, 78, 71, 13, 10, 26, 10];

fn chunk_of(tag: &str, data: &[u8]) -> Chunk {
    Chunk::new(ChunkType::from_text(tag).unwrap(), data.to_vec())
}

fn testing_png() -> Png {
    Png::from_chunks(vec![
        chunk_of("FrSt", b"I am the first chunk"),
        chunk_of("miDl", b"I am another chunk"),
        chunk_of("LASt", b"I am the last chunk"),
    ])
}

#[test]
fn test_serialize_starts_with_signature() {
    let png = testing_png();
    let bytes = png.as_bytes();
    assert_eq!(&bytes[0..8], &SIGNATURE);
}

#[test]
fn test_empty_container_round_trip() {
    let png = Png::from_chunks(Vec::new());
    let bytes = png.as_bytes();
    assert_eq!(bytes, SIGNATURE.to_vec());
    let parsed = Png::parse(bytes.as_ref()).unwrap();
    assert_eq!(parsed.chunks().len(), 0);
}

#[test]
fn test_container_round_trip() {
    let png = testing_png();
    let bytes = png.as_bytes();
    let parsed = Png::parse(bytes.as_ref()).unwrap();
    assert_eq!(parsed, png);
    assert_eq!(parsed.as_bytes(), bytes);
}

#[test]
fn test_parse_rejects_bad_signature() {
    let mut bytes = testing_png().as_bytes();
    bytes[0] = 0;
    assert_eq!(Png::parse(bytes.as_ref()), Err(ChunkError::InvalidSignature));
    assert_eq!(Png::parse(&[1, 2, 3]), Err(ChunkError::InvalidSignature));
}

#[test]
fn test_parse_propagates_chunk_error() {
    let mut bytes = testing_png().as_bytes();
    // flip one payload bit of the first chunk (signature 8 + header 8 = 16)
    bytes[16] ^= 0x01;
    match Png::parse(bytes.as_ref()) {
        Err(ChunkError::InvalidChunkCrc { .. }) => {}
        other => panic!("expected a checksum failure, got {:?}", other),
    }
}

#[test]
fn test_parse_rejects_trailing_garbage() {
    let mut bytes = testing_png().as_bytes();
    bytes.push(0);
    assert_eq!(Png::parse(bytes.as_ref()), Err(ChunkError::TruncatedInput));
}

#[test]
fn test_append_then_lookup() {
    let mut png = testing_png();
    png.append_chunk(chunk_of("TeSt", b"Message"));
    let chunk = png.chunk_by_type("TeSt").expect("appended chunk not found");
    assert_eq!(chunk.chunk_type().to_text(), String::from("TeSt"));
    assert_eq!(chunk.data_as_string().unwrap(), String::from("Message"));
    assert_eq!(png.chunks().len(), 4);
}

#[test]
fn test_lookup_returns_first_match() {
    let mut png = testing_png();
    png.append_chunk(chunk_of("miDl", b"a second middle chunk"));
    let chunk = png.chunk_by_type("miDl").unwrap();
    assert_eq!(
        chunk.data_as_string().unwrap(),
        String::from("I am another chunk")
    );
}

#[test]
fn test_lookup_absent_or_invalid_tag() {
    let png = testing_png();
    assert!(png.chunk_by_type("NoPe").is_none());
    assert!(png.chunk_by_type("Ru1t").is_none());
    assert!(png.chunk_by_type("toolong").is_none());
}

#[test]
fn test_remove_unique_tag() {
    let mut png = testing_png();
    assert_eq!(png.remove_chunk("miDl"), Ok(()));
    assert!(png.chunk_by_type("miDl").is_none());
    assert_eq!(png.chunks().len(), 2);
}

#[test]
fn test_remove_takes_only_first_of_two() {
    let mut png = testing_png();
    png.append_chunk(chunk_of("miDl", b"a second middle chunk"));
    assert_eq!(png.remove_chunk("miDl"), Ok(()));
    assert_eq!(png.chunks().len(), 3);
    let chunk = png.chunk_by_type("miDl").unwrap();
    assert_eq!(
        chunk.data_as_string().unwrap(),
        String::from("a second middle chunk")
    );
}

#[test]
fn test_remove_absent_tag_fails_and_keeps_chunks() {
    let mut png = testing_png();
    let before = png.clone();
    assert_eq!(png.remove_chunk("NoPe"), Err(ChunkError::ChunkNotFound));
    assert_eq!(png, before);
}

#[test]
fn test_remove_invalid_tag_fails_with_tag_error() {
    let mut png = testing_png();
    assert_eq!(png.remove_chunk("Ru1t"), Err(ChunkError::InvalidTagBytes));
    assert_eq!(png.chunks().len(), 3);
}

#[test]
fn test_secret_message_scenario() {
    let tag = ChunkType::from_bytes([82, 117, 83, 116]).unwrap();
    assert!(tag.is_critical());
    assert!(!tag.is_public());
    assert!(tag.is_reserved_bit_valid());
    assert!(tag.is_safe_to_copy());

    let chunk = Chunk::new(
        tag,
        b"This is where your secret message will be!".to_vec(),
    );
    assert_eq!(chunk.crc(), 2882656334);

    let lower_reserved = ChunkType::from_text("Rust").unwrap();
    assert!(!lower_reserved.is_reserved_bit_valid());
    assert!(!lower_reserved.is_valid());
}

#[test]
fn test_chunks_preserve_order() {
    let png = testing_png();
    let tags: Vec<String> = png
        .chunks()
        .iter()
        .map(|c| c.chunk_type().to_text())
        .collect();
    assert_eq!(tags, vec!["FrSt", "miDl", "LASt"]);
}
