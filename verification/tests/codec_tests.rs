use block_sync::codec::decode_block_bodies;
use block_sync::codec::decode_block_headers;
use block_sync::codec::decode_get_block_bodies;
use block_sync::codec::decode_get_block_headers;
use block_sync::codec::encode_block_bodies;
use block_sync::codec::encode_block_headers;
use block_sync::codec::encode_get_block_bodies;
use block_sync::codec::encode_get_block_headers;
use block_sync::types::BlockBody;
use block_sync::types::BlockId;
use block_sync::types::DecodeError;
use block_sync::types::GetBlockHeaders;
use block_sync::types::Hash256;

fn header_fixture() -> Vec<u8> {
    vec![
        249, 2, 26, 249, 2, 23, 160, 150, 107, 246, 132, 157, 169, 47, 242, 160, 227, 219, 154,
        55, 31, 91, 159, 7, 221, 96, 1, 226, 119, 10, 66, 105, 165, 193, 52, 241, 191, 156, 76,
        160, 29, 204, 77, 232, 222, 199, 93, 122, 171, 133, 181, 103, 182, 204, 212, 26, 211, 18,
        69, 27, 148, 138, 116, 19, 240, 161, 66, 253, 64, 212, 147, 71, 148, 234, 103, 79, 221,
        231, 20, 253, 151, 157, 227, 237, 240, 245, 106, 169, 113, 107, 137, 142, 200, 160, 116,
        71, 126, 170, 190, 206, 107, 206, 0, 195, 70, 220, 18, 39, 91, 46, 215, 78, 201, 214, 199,
        88, 196, 2, 60, 32, 64, 186, 14, 114, 224, 93, 160, 20, 230, 203, 133, 194, 42, 226, 253,
        119, 79, 24, 204, 214, 103, 211, 254, 150, 125, 110, 57, 235, 197, 34, 70, 131, 127, 35,
        15, 2, 248, 69, 221, 160, 195, 99, 51, 64, 229, 167, 39, 232, 170, 29, 41, 163, 175, 206,
        149, 210, 126, 85, 90, 49, 167, 176, 151, 41, 103, 47, 55, 108, 47, 63, 78, 46, 185, 1, 0,
        136, 100, 128, 192, 2, 0, 98, 13, 132, 24, 13, 4, 112, 0, 12, 80, 48, 129, 22, 0, 68, 208,
        80, 21, 128, 128, 3, 116, 1, 16, 112, 96, 18, 0, 64, 16, 82, 129, 16, 1, 0, 16, 69, 0, 65,
        66, 3, 4, 10, 32, 128, 3, 72, 20, 32, 6, 16, 218, 18, 8, 166, 56, 209, 110, 68, 12, 2, 72,
        128, 128, 3, 1, 225, 0, 76, 43, 2, 40, 80, 96, 32, 0, 8, 76, 50, 73, 160, 192, 132, 86,
        156, 144, 194, 0, 32, 1, 88, 98, 65, 4, 30, 128, 4, 3, 90, 68, 0, 160, 16, 9, 56, 0, 30,
        4, 17, 128, 8, 49, 128, 176, 52, 6, 97, 55, 32, 96, 64, 20, 40, 192, 32, 8, 116, 16, 64,
        43, 148, 132, 2, 129, 0, 4, 148, 129, 144, 12, 8, 3, 72, 100, 49, 70, 136, 208, 1, 84,
        140, 48, 0, 130, 142, 84, 34, 132, 24, 2, 128, 0, 100, 2, 162, 138, 2, 100, 218, 0, 172,
        34, 48, 4, 0, 98, 9, 96, 152, 50, 6, 96, 50, 0, 8, 64, 64, 18, 42, 71, 57, 8, 5, 1, 37,
        21, 66, 8, 32, 32, 164, 8, 124, 0, 2, 129, 192, 136, 0, 137, 141, 9, 0, 2, 64, 71, 56, 0,
        0, 18, 112, 56, 9, 142, 9, 8, 1, 8, 0, 0, 66, 144, 200, 66, 1, 102, 16, 64, 32, 2, 1, 192,
        0, 75, 132, 144, 173, 88, 136, 4, 135, 8, 121, 44, 111, 71, 247, 15, 131, 152, 150, 128,
        131, 152, 112, 92, 131, 152, 36, 179, 132, 94, 176, 23, 5, 150, 80, 80, 89, 69, 45, 101,
        116, 104, 101, 114, 109, 105, 110, 101, 45, 97, 115, 105, 97, 49, 45, 49, 160, 55, 253,
        227, 17, 117, 254, 24, 3, 70, 68, 77, 21, 180, 223, 198, 169, 218, 59, 43, 65, 238, 34,
        152, 206, 236, 202, 248, 136, 178, 212, 93, 244, 136, 47, 105, 35, 248, 4, 38, 241, 87,
    ]
}

#[test]
fn test_encode_get_block_headers() {
    let request = GetBlockHeaders::new(BlockId::Number(1024), 128u64, 0u64, true);
    let encoded = encode_get_block_headers(&request);
    assert_eq!(encoded, [0xc7, 0x82, 0x04, 0x00, 0x81, 0x80, 0x80, 0x01]);
    let request = GetBlockHeaders::new(BlockId::Number(4096), 1u64, 10, false);
    let encoded = encode_get_block_headers(&request);
    assert_eq!(encoded, [0xc6, 0x82, 0x10, 0x00, 0x01, 0x0a, 0x80]);
}

#[test]
fn test_decode_get_block_headers_with_hash_as_id() {
    let data: Vec<u8> = vec![
        228, 160, 229, 229, 95, 194, 152, 198, 135, 130, 236, 183, 27, 149, 246, 32, 35, 98, 190,
        1, 185, 199, 112, 109, 151, 50, 226, 8, 58, 130, 147, 155, 184, 73, 1, 128, 128,
    ];
    let expected_hash = BlockId::Hash(Hash256::from_vec(data[2..34].to_vec()).unwrap());
    let expected = GetBlockHeaders::new(expected_hash, 1, 0, false);
    let decoded = decode_get_block_headers(&data).unwrap();
    assert_eq!(decoded, expected);
}

#[test]
fn test_get_block_headers_roundtrip() {
    let test_cases = vec![
        GetBlockHeaders::new(BlockId::Number(2283397), 100, 0, false),
        GetBlockHeaders::new(BlockId::Number(2700031), 1024, 8, true),
        GetBlockHeaders::new(BlockId::Hash(Hash256::repeat_byte(0x22)), 10, 1, false),
    ];
    for test_case in test_cases {
        let encoded = encode_get_block_headers(&test_case);
        let decoded = decode_get_block_headers(&encoded).unwrap();
        assert_eq!(test_case, decoded);
    }
}

#[test]
fn test_decode_block_header() {
    let header = header_fixture();
    let decoded = decode_block_headers(&header);
    assert!(decoded.is_ok());
}

#[test]
fn test_fixture_header_number() {
    let blob = header_fixture();
    let decoded = decode_block_headers(&blob).unwrap();
    assert_eq!(decoded.len(), 1);
    assert_eq!(decoded[0].number, 10_000_000);
    assert_eq!(decoded[0].parent_hash.bytes.len(), 32);
    assert_eq!(decoded[0].logs_bloom.len(), 256);
    assert_eq!(decoded[0].extra_data.len(), 22);
}

#[test]
fn test_header_list_reencode_matches_fixture() {
    let blob = header_fixture();
    let decoded = decode_block_headers(&blob).unwrap();
    let reencoded = encode_block_headers(&decoded);
    assert_eq!(reencoded, blob);
}

#[test]
fn test_block_id_disambiguation() {
    // A 32-byte first element always decodes as a hash.
    let hash = Hash256::repeat_byte(0x07);
    let req = GetBlockHeaders::new(BlockId::Hash(hash), 5, 0, false);
    let bytes = encode_get_block_headers(&req);
    let back = decode_get_block_headers(&bytes).unwrap();
    assert!(matches!(back.block_id, BlockId::Hash(_)));
    // Any shorter element decodes as a number.
    let req = GetBlockHeaders::new(BlockId::Number(0x1234_5678), 5, 0, false);
    let bytes = encode_get_block_headers(&req);
    let back = decode_get_block_headers(&bytes).unwrap();
    assert_eq!(back.block_id, BlockId::Number(0x1234_5678));
    // A 31-byte element is treated as a number and is too wide to be one.
    let mut data: Vec<u8> = vec![0xc0 + 32, 0x80 + 31];
    data.extend(std::iter::repeat(0x55).take(31));
    assert_eq!(decode_get_block_headers(&data), Err(DecodeError::Overflow));
}

#[test]
fn test_empty_list_canon() {
    assert_eq!(encode_block_headers(&vec![]), [0xc0]);
    assert_eq!(encode_block_bodies(&vec![]), [0xc0]);
}

#[test]
fn test_empty_list_decodes_to_nothing() {
    let empty = vec![0xc0u8];
    assert_eq!(decode_block_headers(&empty).unwrap(), vec![]);
    assert_eq!(decode_block_bodies(&empty).unwrap(), vec![]);
    assert_eq!(decode_get_block_bodies(&empty).unwrap(), vec![]);
}

#[test]
fn test_no_panic_on_garbage() {
    let blob = header_fixture();
    // Every strict prefix of a valid message is rejected, never a panic.
    for cut in 0..blob.len() {
        let prefix: Vec<u8> = blob[..cut].to_vec();
        assert!(decode_block_headers(&prefix).is_err());
        assert!(decode_get_block_headers(&prefix).is_err());
        assert!(decode_block_bodies(&prefix).is_err());
        assert!(decode_get_block_bodies(&prefix).is_err());
    }
    // Corrupted copies must decode without crashing, whatever the result.
    for step in 1..8 {
        let mut corrupt = blob.clone();
        let mut i = 0;
        while i < corrupt.len() {
            corrupt[i] = corrupt[i].wrapping_add(step as u8).wrapping_mul(31);
            i += step;
        }
        let _ = decode_block_headers(&corrupt);
        let _ = decode_get_block_headers(&corrupt);
        let _ = decode_block_bodies(&corrupt);
        let _ = decode_get_block_bodies(&corrupt);
    }
    // Short hostile patterns: every two-byte combination of key prefix bytes.
    let interesting = [
        0x00u8, 0x01, 0x7f, 0x80, 0x81, 0xb7, 0xb8, 0xbf, 0xc0, 0xc1, 0xf7, 0xf8, 0xff,
    ];
    for &a in &interesting {
        for &b in &interesting {
            let data = vec![a, b];
            let _ = decode_block_headers(&data);
            let _ = decode_get_block_headers(&data);
            let _ = decode_block_bodies(&data);
            let _ = decode_get_block_bodies(&data);
        }
    }
}

#[test]
fn test_decode_error_variants() {
    // List header promises more bytes than exist.
    assert_eq!(
        decode_get_block_headers(&vec![0xc8, 0x01]),
        Err(DecodeError::Truncated)
    );
    // The message is not a list at all.
    assert_eq!(
        decode_get_block_headers(&vec![0x05]),
        Err(DecodeError::ExpectedList)
    );
    // The block-id slot holds a nested list where a string belongs.
    assert_eq!(
        decode_get_block_headers(&vec![0xc2, 0xc0, 0xc0]),
        Err(DecodeError::ExpectedString)
    );
    // A single byte below 0x80 must encode as itself, not behind a prefix.
    assert_eq!(
        decode_get_block_headers(&vec![0xc2, 0x81, 0x05]),
        Err(DecodeError::NonCanonical)
    );
    // A boolean field may only be empty or 0x01.
    assert_eq!(
        decode_get_block_headers(&vec![0xc4, 0x01, 0x01, 0x80, 0x02]),
        Err(DecodeError::NotBoolean)
    );
    // Bytes after the end of the outer list.
    assert_eq!(
        decode_get_block_headers(&vec![0xc7, 0x82, 0x04, 0x00, 0x81, 0x80, 0x80, 0x01, 0x00]),
        Err(DecodeError::TrailingData)
    );
    // An integer wider than eight bytes.
    let mut too_wide: Vec<u8> = vec![0xc0 + 10, 0x80 + 9];
    too_wide.extend(std::iter::repeat(0x11).take(9));
    assert_eq!(decode_get_block_headers(&too_wide), Err(DecodeError::Overflow));
    // A hash field of the wrong byte length.
    let mut short_hash: Vec<u8> = vec![0xc0 + 32, 0x80 + 31];
    short_hash.extend(std::iter::repeat(0x22).take(31));
    assert_eq!(
        decode_get_block_bodies(&short_hash),
        Err(DecodeError::WrongFieldSize)
    );
}

#[test]
fn test_get_block_bodies_roundtrip() {
    let hashes = vec![
        Hash256::repeat_byte(0xfe),
        Hash256::repeat_byte(0x01),
        Hash256::from_vec((0u8..32).collect()).unwrap(),
    ];
    let encoded = encode_get_block_bodies(&hashes);
    let decoded = decode_get_block_bodies(&encoded).unwrap();
    assert_eq!(decoded, hashes);
}

#[test]
fn test_block_bodies_roundtrip() {
    let bodies = vec![
        BlockBody { bytes: vec![0xc0] },
        BlockBody { bytes: vec![0xc3, 0x01, 0x02, 0x03] },
        BlockBody { bytes: vec![0x83, 0x61, 0x62, 0x63] },
    ];
    let encoded = encode_block_bodies(&bodies);
    let decoded = decode_block_bodies(&encoded).unwrap();
    assert_eq!(decoded, bodies);
}

#[test]
fn test_uint_boundary_encodings() {
    // Zero is the empty string; 0x7f stands for itself; 0x80 needs a prefix.
    let cases: Vec<(u64, Vec<u8>)> = vec![
        (0, vec![0xc4, 0x80, 0x80, 0x80, 0x80]),
        (0x7f, vec![0xc4, 0x7f, 0x80, 0x80, 0x80]),
        (0x80, vec![0xc5, 0x81, 0x80, 0x80, 0x80, 0x80]),
        (
            u64::MAX,
            vec![0xcc, 0x88, 0xff, 0xff, 0xff, 0xff, 0xff, 0xff, 0xff, 0xff, 0x80, 0x80, 0x80],
        ),
    ];
    for (value, expected) in cases {
        let req = GetBlockHeaders::new(BlockId::Number(value), 0, 0, false);
        assert_eq!(encode_get_block_headers(&req), expected);
        let back = decode_get_block_headers(&expected).unwrap();
        assert_eq!(back, req);
    }
}

#[test]
fn test_header_roundtrip_long_fields() {
    let decoded = decode_block_headers(&header_fixture()).unwrap();
    let base = decoded.into_iter().next().unwrap();
    let mut long = base;
    long.extra_data = (0u8..60).collect();
    long.number = 42;
    let list = vec![long];
    let encoded = encode_block_headers(&list);
    let back = decode_block_headers(&encoded).unwrap();
    assert_eq!(back, list);
}
