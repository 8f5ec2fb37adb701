use blindmark::error::BlindMarkError;
use blindmark::hex::{bytes_to_hex, hex_to_bytes};
use blindmark::payload::{WatermarkEncoder, TEXT_WATERMARK_TOTAL_BITS};

#[test]
fn test_encode_known_text() {
    let text = "Hello, World!";
    let watermark = WatermarkEncoder::encode(text);
    assert_eq!(watermark.md5_hash, "65a8e27d8879283831b664bd8b7f0ad4");
    assert_eq!(watermark.binary_sequence.len(), 128);
}

#[test]
fn test_encode_decode_roundtrip() {
    let text = "Test watermark 123";
    let watermark = WatermarkEncoder::encode(text);
    let decoded = WatermarkEncoder::decode(&watermark.binary_sequence).unwrap();
    assert_eq!(watermark.md5_hash, decoded);
}

#[test]
fn test_decode_invalid_length() {
    let invalid_sequence = vec![0u8; 100];
    let result = WatermarkEncoder::decode(&invalid_sequence);
    assert!(result.is_err());
    if let Err(BlindMarkError::ExtractionFailed(msg)) = result {
        assert!(msg.contains("Invalid binary sequence length"));
    }
}

#[test]
fn test_decode_invalid_bit_values() {
    let mut invalid_sequence = vec![0u8; 128];
    invalid_sequence[0] = 2;
    let result = WatermarkEncoder::decode(&invalid_sequence);
    assert!(result.is_err());
}

#[test]
fn test_binary_sequence_all_bits() {
    let watermark = WatermarkEncoder::encode("test");
    for bit in &watermark.binary_sequence {
        assert!(*bit == 0 || *bit == 1);
    }
}

#[test]
fn test_text_to_bits_length() {
    let bits = WatermarkEncoder::text_to_bits("Hello").unwrap();
    assert_eq!(bits.len(), TEXT_WATERMARK_TOTAL_BITS);
}

#[test]
fn test_text_roundtrip_ascii() {
    let text = "购买者:张三";
    let bits = WatermarkEncoder::text_to_bits(text).unwrap();
    let decoded = WatermarkEncoder::bits_to_text(&bits).unwrap();
    assert_eq!(decoded, text);
}

#[test]
fn test_text_roundtrip_chinese() {
    let text = "购买者:张三李四 ID:12345";
    let bits = WatermarkEncoder::text_to_bits(text).unwrap();
    let decoded = WatermarkEncoder::bits_to_text(&bits).unwrap();
    assert_eq!(decoded, text);
}

#[test]
fn test_text_too_long() {
    let long_text = "a".repeat(65);
    let result = WatermarkEncoder::text_to_bits(&long_text);
    assert!(result.is_err());
}

#[test]
fn test_bits_to_text_invalid_magic() {
    let mut bits = vec![0u8; TEXT_WATERMARK_TOTAL_BITS];
    assert!(WatermarkEncoder::bits_to_text(&bits).is_none());
    bits[0] = 1;
    assert!(WatermarkEncoder::bits_to_text(&bits).is_none());
}

#[test]
fn md5_bits_follow_digest_bytes_msb_first() {
    // 0x65 = 0110_0101, the first digest byte of "Hello, World!"
    let watermark = WatermarkEncoder::encode("Hello, World!");
    assert_eq!(&watermark.binary_sequence[0..8], &[0, 1, 1, 0, 0, 1, 0, 1]);
    // 0xd4 = 1101_0100, the last byte
    assert_eq!(&watermark.binary_sequence[120..128], &[1, 1, 0, 1, 0, 1, 0, 0]);
}

#[test]
fn md5_of_empty_text() {
    assert_eq!(WatermarkEncoder::encode("").md5_hash, "d41d8cd98f00b204e9800998ecf8427e");
}

#[test]
fn text_frame_header_layout() {
    let bits = WatermarkEncoder::text_to_bits("Hi").unwrap();
    // magic 0x57 0x4D
    assert_eq!(&bits[0..8], &[0, 1, 0, 1, 0, 1, 1, 1]);
    assert_eq!(&bits[8..16], &[0, 1, 0, 0, 1, 1, 0, 1]);
    // length 2, big-endian u16
    let mut len_bits = vec![0u8; 16];
    len_bits[14] = 1;
    assert_eq!(&bits[16..32], &len_bits[..]);
    // 'H' = 0x48
    assert_eq!(&bits[32..40], &[0, 1, 0, 0, 1, 0, 0, 0]);
    // zero padding
    assert!(bits[48..].iter().all(|b| *b == 0));
}

#[test]
fn text_of_zero_and_sixty_four_bytes_round_trips() {
    let empty = WatermarkEncoder::text_to_bits("").unwrap();
    assert_eq!(WatermarkEncoder::bits_to_text(&empty).unwrap(), "");
    let full = "b".repeat(64);
    let bits = WatermarkEncoder::text_to_bits(&full).unwrap();
    assert_eq!(bits.len(), 544);
    assert_eq!(WatermarkEncoder::bits_to_text(&bits).unwrap(), full);
    let over = "c".repeat(65);
    assert!(matches!(WatermarkEncoder::text_to_bits(&over), Err(BlindMarkError::InvalidConfig(_))));
}

#[test]
fn multibyte_text_over_sixty_four_bytes_fails() {
    // 22 characters of three bytes each: 66 bytes
    let text = "张".repeat(22);
    assert!(WatermarkEncoder::text_to_bits(&text).is_err());
    let text = "张".repeat(21);
    assert!(WatermarkEncoder::text_to_bits(&text).is_ok());
}

#[test]
fn bits_to_text_rejects_length_over_sixty_four() {
    let mut bits = WatermarkEncoder::text_to_bits("x").unwrap();
    // announce 65 bytes
    for b in bits[16..32].iter_mut() {
        *b = 0;
    }
    bits[25] = 1;
    bits[31] = 1;
    assert!(WatermarkEncoder::bits_to_text(&bits).is_none());
}

#[test]
fn bits_to_text_rejects_truncated_frame_and_bad_utf8() {
    let bits = WatermarkEncoder::text_to_bits("hello").unwrap();
    assert!(WatermarkEncoder::bits_to_text(&bits[..40]).is_none());
    assert!(WatermarkEncoder::bits_to_text(&bits[..31]).is_none());
    let mut bad = WatermarkEncoder::text_to_bits("a").unwrap();
    // make the single byte 0xFF, which is not UTF-8
    for b in bad[32..40].iter_mut() {
        *b = 1;
    }
    assert!(WatermarkEncoder::bits_to_text(&bad).is_none());
}

#[test]
fn hex_round_trip_and_errors() {
    assert_eq!(bytes_to_hex(&[0x00, 0xab, 0x7f]), "00ab7f");
    assert_eq!(hex_to_bytes("00ab7F").unwrap(), vec![0x00, 0xab, 0x7f]);
    assert!(hex_to_bytes("+f").is_err());
    assert!(hex_to_bytes("+a").is_err());
    assert!(hex_to_bytes("aé").is_err());
    assert!(matches!(hex_to_bytes("abc"), Err(BlindMarkError::ImageProcessing(_))));
    assert!(hex_to_bytes("zz").is_err());
    assert!(hex_to_bytes("").unwrap().is_empty());
}

#[test]
fn error_message_names_its_kind() {
    let e = BlindMarkError::InvalidConfig("bad".to_string());
    assert_eq!(e.message(), "Invalid configuration: bad");
    let e = BlindMarkError::UnsupportedArchive(".rar".to_string());
    assert_eq!(e.message(), "Unsupported archive format: .rar");
}
