use pngme::{Chunk, ChunkError, ChunkType};

fn testing_chunk() -> Chunk {
    let data_length: u32 = 42;
    let chunk_type = "RuSt".as_bytes();
    let message_bytes = "This is where your secret message will be!".as_bytes();
    let crc: u32 = 2882656334;

    let chunk_data: Vec<u8> = data_length
        .to_be_bytes()
        .iter()
        .chain(chunk_type.iter())
        .chain(message_bytes.iter())
        .chain(crc.to_be_bytes().iter())
        .copied()
        .collect();

    Chunk::decode(chunk_data.as_ref()).unwrap()
}

#[test]
fn test_new_chunk() {
    let chunk_type = ChunkType::from_text("RuSt").unwrap();
    let data = "This is where your secret message will be!"
        .as_bytes()
        .to_vec();
    let chunk = Chunk::new(chunk_type, data);
    assert_eq!(chunk.length(), 42);
    assert_eq!(chunk.crc(), 2882656334);
}

#[test]
fn test_chunk_length() {
    let chunk = testing_chunk();
    assert_eq!(chunk.length(), 42);
}

#[test]
fn test_chunk_type() {
    let chunk = testing_chunk();
    assert_eq!(chunk.chunk_type().to_text(), String::from("RuSt"));
}

#[test]
fn test_chunk_string() {
    let chunk = testing_chunk();
    let chunk_string = chunk.data_as_string().unwrap();
    let expected_chunk_string = String::from("This is where your secret message will be!");
    assert_eq!(chunk_string, expected_chunk_string);
}

#[test]
fn test_chunk_crc() {
    let chunk = testing_chunk();
    assert_eq!(chunk.crc(), 2882656334);
}

#[test]
fn test_valid_chunk_from_bytes() {
    let data_length: u32 = 42;
    let chunk_type = "RuSt".as_bytes();
    let message_bytes = "This is where your secret message will be!".as_bytes();
    let crc: u32 = 2882656334;

    let chunk_data: Vec<u8> = data_length
        .to_be_bytes()
        .iter()
        .chain(chunk_type.iter())
        .chain(message_bytes.iter())
        .chain(crc.to_be_bytes().iter())
        .copied()
        .collect();

    let chunk = Chunk::decode(chunk_data.as_ref()).unwrap();

    let chunk_string = chunk.data_as_string().unwrap();
    let expected_chunk_string = String::from("This is where your secret message will be!");

    assert_eq!(chunk.length(), 42);
    assert_eq!(chunk.chunk_type().to_text(), String::from("RuSt"));
    assert_eq!(chunk_string, expected_chunk_string);
    assert_eq!(chunk.crc(), 2882656334);
}

#[test]
fn test_invalid_chunk_from_bytes() {
    let data_length: u32 = 42;
    let chunk_type = "RuSt".as_bytes();
    let message_bytes = "This is where your secret message will be!".as_bytes();
    let crc: u32 = 2882656333;

    let chunk_data: Vec<u8> = data_length
        .to_be_bytes()
        .iter()
        .chain(chunk_type.iter())
        .chain(message_bytes.iter())
        .chain(crc.to_be_bytes().iter())
        .copied()
        .collect();

    let chunk = Chunk::decode(chunk_data.as_ref());

    assert!(chunk.is_err());
}

#[test]
pub fn test_chunk_trait_impls() {
    let data_length: u32 = 42;
    let chunk_type = "RuSt".as_bytes();
    let message_bytes = "This is where your secret message will be!".as_bytes();
    let crc: u32 = 2882656334;

    let chunk_data: Vec<u8> = data_length
        .to_be_bytes()
        .iter()
        .chain(chunk_type.iter())
        .chain(message_bytes.iter())
        .chain(crc.to_be_bytes().iter())
        .copied()
        .collect();

    let chunk: Chunk = Chunk::decode(chunk_data.as_ref()).unwrap();

    let _chunk_string = format!("{}", chunk.data_as_string().unwrap());
}

#[test]
fn test_chunk_round_trip() {
    let chunk_type = ChunkType::from_text("ruSt").unwrap();
    let chunk = Chunk::new(chunk_type, vec![1, 2, 3, 4, 5]);
    let bytes = chunk.as_bytes();
    let decoded = Chunk::decode(bytes.as_ref()).unwrap();
    assert_eq!(decoded, chunk);
    assert_eq!(decoded.as_bytes(), bytes);
}

#[test]
fn test_empty_payload_round_trip() {
    let chunk_type = ChunkType::from_text("teSt").unwrap();
    let chunk = Chunk::new(chunk_type, Vec::new());
    assert_eq!(chunk.length(), 0);
    let bytes = chunk.as_bytes();
    assert_eq!(bytes.len(), 12);
    let decoded = Chunk::decode(bytes.as_ref()).unwrap();
    assert_eq!(decoded, chunk);
}

#[test]
fn test_truncated_input_two_bytes() {
    let result = Chunk::decode(&[1, 2]);
    assert_eq!(result, Err(ChunkError::TruncatedInput));
}

#[test]
fn test_tampered_payload_fails_crc() {
    let chunk_type = ChunkType::from_text("RuSt").unwrap();
    let chunk = Chunk::new(chunk_type, b"hello".to_vec());
    let mut bytes = chunk.as_bytes();
    bytes[9] ^= 0x01;
    match Chunk::decode(bytes.as_ref()) {
        Err(ChunkError::InvalidChunkCrc { expected, computed }) => {
            assert_eq!(expected, chunk.crc());
            assert_ne!(computed, chunk.crc());
        }
        other => panic!("expected a checksum failure, got {:?}", other),
    }
}

#[test]
fn test_tampered_checksum_fails_crc() {
    let chunk_type = ChunkType::from_text("RuSt").unwrap();
    let chunk = Chunk::new(chunk_type, b"hello".to_vec());
    let mut bytes = chunk.as_bytes();
    let last = bytes.len() - 1;
    bytes[last] ^= 0x80;
    match Chunk::decode(bytes.as_ref()) {
        Err(ChunkError::InvalidChunkCrc { expected, computed }) => {
            assert_ne!(expected, chunk.crc());
            assert_eq!(computed, chunk.crc());
        }
        other => panic!("expected a checksum failure, got {:?}", other),
    }
}

#[test]
fn test_truncated_payload_fails_length() {
    let chunk_type = ChunkType::from_text("RuSt").unwrap();
    let chunk = Chunk::new(chunk_type, b"hello".to_vec());
    let mut bytes = chunk.as_bytes();
    bytes.remove(8);
    assert_eq!(
        Chunk::decode(bytes.as_ref()),
        Err(ChunkError::InvalidChunkLength {
            expected: 5,
            received: 4
        })
    );
}

#[test]
fn test_padded_payload_fails_length() {
    let chunk_type = ChunkType::from_text("RuSt").unwrap();
    let chunk = Chunk::new(chunk_type, b"hello".to_vec());
    let mut bytes = chunk.as_bytes();
    bytes.insert(8, 0);
    assert_eq!(
        Chunk::decode(bytes.as_ref()),
        Err(ChunkError::InvalidChunkLength {
            expected: 5,
            received: 6
        })
    );
}

#[test]
fn test_chunk_with_bad_tag_fails_after_crc() {
    // length 0, tag "Ru1t" (digit), correct CRC over the tag alone
    let tag = [82u8, 117, 49, 116];
    let crc = pngme::compute_crc(&tag);
    let mut bytes: Vec<u8> = vec![0, 0, 0, 0];
    bytes.extend_from_slice(&tag);
    bytes.extend_from_slice(&crc.to_be_bytes());
    assert_eq!(
        Chunk::decode(bytes.as_ref()),
        Err(ChunkError::InvalidTagBytes)
    );
}

#[test]
fn test_data_as_string_invalid_utf8() {
    let chunk_type = ChunkType::from_text("RuSt").unwrap();
    let chunk = Chunk::new(chunk_type, vec![0xff, 0xfe, 0xfd]);
    assert_eq!(chunk.data_as_string(), Err(ChunkError::InvalidUtf8));
}

#[test]
fn test_compute_crc_known_value() {
    let bytes: Vec<u8> = "RuSt"
        .as_bytes()
        .iter()
        .chain("This is where your secret message will be!".as_bytes().iter())
        .copied()
        .collect();
    assert_eq!(pngme::compute_crc(&bytes), 2882656334);
}

#[test]
fn test_chunk_accessors() {
    let chunk = testing_chunk();
    assert_eq!(chunk.chunk_type().bytes(), [82, 117, 83, 116]);
    assert_eq!(
        chunk.data(),
        "This is where your secret message will be!".as_bytes()
    );
}
