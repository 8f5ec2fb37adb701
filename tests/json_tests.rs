use blindmark::json_marker::{JsonWatermarker, DEFAULT_WATERMARK_KEY};
use blindmark::payload::WatermarkEncoder;
use blindmark::token::{is_md5_like, is_watermark_value};
use serde_json::Value;

fn count_tokens(json: &str) -> usize {
    let parsed: Value = serde_json::from_str(json).unwrap();
    parsed
        .as_object()
        .unwrap()
        .values()
        .filter(|v| v.as_str().map(is_watermark_value).unwrap_or(false))
        .count()
}

#[test]
fn test_embed_md5_mode() {
    let json = r#"{"name": "test", "version": "1.0"}"#;
    let result =
        JsonWatermarker::embed(json, "hello world", DEFAULT_WATERMARK_KEY, "md5", None).unwrap();
    let parsed: Value = serde_json::from_str(&result).unwrap();
    let wm = parsed["_watermark"].as_str().unwrap();
    assert!(is_md5_like(wm), "MD5 mode stores a 32-digit hash");
    assert!(parsed.get("name").is_some());
    assert!(parsed.get("version").is_some());
}

#[test]
fn test_embed_plaintext_mode() {
    let json = r#"{"name": "test"}"#;
    let result =
        JsonWatermarker::embed(json, "张三", DEFAULT_WATERMARK_KEY, "plaintext", None).unwrap();
    let parsed: Value = serde_json::from_str(&result).unwrap();
    let wm = parsed["_watermark"].as_str().unwrap();
    assert_eq!(wm, "txt:张三");
}

#[test]
fn test_embed_aes_mode() {
    let json = r#"{"name": "test"}"#;
    let result =
        JsonWatermarker::embed(json, "张三", DEFAULT_WATERMARK_KEY, "aes", Some("mykey")).unwrap();
    let parsed: Value = serde_json::from_str(&result).unwrap();
    let wm = parsed["_watermark"].as_str().unwrap();
    assert!(wm.starts_with("aes:"), "AES mode starts with aes:");
}

#[test]
fn test_aes_roundtrip() {
    let json = r#"{"name": "test"}"#;
    let watermarked =
        JsonWatermarker::embed(json, "购买者:李四", DEFAULT_WATERMARK_KEY, "aes", Some("secret"))
            .unwrap();
    let findings = JsonWatermarker::scan_watermark_values(&watermarked, Some("secret"));
    assert_eq!(findings.len(), 1);
    let (value, mode, decrypted) = &findings[0];
    assert_eq!(value, "购买者:李四");
    assert_eq!(mode, "aes");
    assert!(decrypted);
}

#[test]
fn test_aes_wrong_key() {
    let json = r#"{"name": "test"}"#;
    let watermarked =
        JsonWatermarker::embed(json, "秘密", DEFAULT_WATERMARK_KEY, "aes", Some("correct")).unwrap();
    let findings = JsonWatermarker::scan_watermark_values(&watermarked, Some("wrong"));
    assert_eq!(findings.len(), 1);
    let (value, mode, decrypted) = &findings[0];
    assert_eq!(mode, "aes");
    assert!(!decrypted, "a wrong key fails to decrypt");
    assert!(value.starts_with("aes:"));
}

#[test]
fn test_decode_watermark_plaintext() {
    let (val, mode, ok) = JsonWatermarker::decode_watermark("txt:hello", None);
    assert_eq!(val, "hello");
    assert_eq!(mode, "plaintext");
    assert!(ok);
}

#[test]
fn test_decode_watermark_md5() {
    let (val, mode, ok) = JsonWatermarker::decode_watermark("5d41402abc4b2a76b9719d911017c592", None);
    assert_eq!(mode, "md5");
    assert!(ok);
    assert_eq!(val.len(), 32);
}

#[test]
fn test_extract_roundtrip() {
    let json = r#"{"licenseType": "CC BY-NC-SA", "packageName": "test"}"#;
    let watermark_text = "Dnaddr.Mica_v2";
    let watermarked =
        JsonWatermarker::embed(json, watermark_text, DEFAULT_WATERMARK_KEY, "md5", None).unwrap();
    let extracted = JsonWatermarker::extract(&watermarked, DEFAULT_WATERMARK_KEY).unwrap();
    let expected = WatermarkEncoder::encode(watermark_text).md5_hash;
    assert_eq!(extracted, expected);
}

#[test]
fn test_overwrite_existing_watermark() {
    let json = r#"{"key": "value", "_watermark": "old_hash_xxxxxxxxxxxxxxxxxxxxxxxxxxxxxxxx"}"#;
    let result = JsonWatermarker::embed(json, "new text", DEFAULT_WATERMARK_KEY, "md5", None).unwrap();
    let extracted = JsonWatermarker::extract(&result, DEFAULT_WATERMARK_KEY).unwrap();
    let new_expected = WatermarkEncoder::encode("new text").md5_hash;
    assert_eq!(extracted, new_expected);
}

#[test]
fn test_non_object_json() {
    let json = r#"[1, 2, 3]"#;
    let result = JsonWatermarker::embed(json, "test", DEFAULT_WATERMARK_KEY, "md5", None).unwrap();
    let parsed: Value = serde_json::from_str(&result).unwrap();
    assert!(parsed.is_array());
}

#[test]
fn test_obfuscated_three_modes() {
    let meta = r#"{"licenseType": "CC BY-NC-SA", "creatorName": "Dnaddr"}"#;

    let wm1 = JsonWatermarker::embed_obfuscated(meta, "张三", "plaintext", None).unwrap();
    let findings1 = JsonWatermarker::scan_watermark_values(&wm1, None);
    assert!(!findings1.is_empty());
    assert_eq!(findings1[0].1, "plaintext");
    assert_eq!(findings1[0].0, "张三");

    let wm2 = JsonWatermarker::embed_obfuscated(meta, "张三", "md5", None).unwrap();
    let findings2 = JsonWatermarker::scan_watermark_values(&wm2, None);
    assert!(!findings2.is_empty());
    assert_eq!(findings2[0].1, "md5");

    let wm3 = JsonWatermarker::embed_obfuscated(meta, "张三", "aes", Some("key123")).unwrap();
    let findings3 = JsonWatermarker::scan_watermark_values(&wm3, Some("key123"));
    assert!(!findings3.is_empty());
    assert_eq!(findings3[0].1, "aes");
    assert_eq!(findings3[0].0, "张三");
    assert!(findings3[0].2);
}

#[test]
fn test_meta_json_simulation() {
    let meta = r#"{
  "licenseType": "CC BY-NC-SA",
  "creatorName": "Dnaddr",
  "packageName": "Mica_v2_P",
  "programVersion": "1.22.0.3",
  "contentList": ["Saves/scene/scene.json"],
  "dependencies": {}
}"#;
    let watermarked =
        JsonWatermarker::embed(meta, "购买者:张三", DEFAULT_WATERMARK_KEY, "md5", None).unwrap();
    let extracted = JsonWatermarker::extract(&watermarked, DEFAULT_WATERMARK_KEY).unwrap();
    let parsed: Value = serde_json::from_str(&watermarked).unwrap();
    assert_eq!(parsed["licenseType"], "CC BY-NC-SA");
    assert_eq!(parsed["creatorName"], "Dnaddr");
    assert!(parsed["contentList"].is_array());
    let expected = WatermarkEncoder::encode("购买者:张三").md5_hash;
    assert_eq!(extracted, expected);
}

#[test]
fn camouflage_injection_keeps_keys_and_scans_back() {
    let meta = r#"{"licenseType":"CC BY-NC-SA","creatorName":"Dnaddr","packageName":"Mica_v2_P"}"#;
    let out = JsonWatermarker::embed_obfuscated(meta, "购买者:张三", "plaintext", None).unwrap();
    let parsed: Value = serde_json::from_str(&out).unwrap();
    let obj = parsed.as_object().unwrap();
    assert_eq!(obj.len(), 4);
    let txt_values: Vec<&str> = obj
        .values()
        .filter_map(|v| v.as_str())
        .filter(|s| s.starts_with("txt:") && s.len() > 4)
        .collect();
    assert_eq!(txt_values.len(), 1);
    let findings = JsonWatermarker::scan_watermark_values(&out, None);
    assert_eq!(findings, vec![("购买者:张三".to_string(), "plaintext".to_string(), true)]);
    // the original keys keep their relative order
    let keys: Vec<&String> = obj.keys().filter(|k| obj[k.as_str()] != Value::String("txt:购买者:张三".into())).collect();
    assert_eq!(keys, vec!["licenseType", "creatorName", "packageName"]);
}

#[test]
fn camouflage_replaces_prior_watermarks() {
    let json = r#"{"_watermark":"5d41402abc4b2a76b9719d911017c592","pkgHash":"txt:old","name":"x"}"#;
    let out = JsonWatermarker::embed_obfuscated(json, "new", "plaintext", None).unwrap();
    assert_eq!(count_tokens(&out), 1);
    let findings = JsonWatermarker::scan_watermark_values(&out, None);
    assert_eq!(findings.len(), 1);
    assert_eq!(findings[0].0, "new");
    let parsed: Value = serde_json::from_str(&out).unwrap();
    // one original field survives, plus the watermark
    assert_eq!(parsed.as_object().unwrap().len(), 2);
}

#[test]
fn camouflage_into_empty_and_tiny_objects() {
    for json in [r#"{}"#, r#"{"a":1}"#, r#"{"ab":1,"cd":2}"#] {
        let out = JsonWatermarker::embed_obfuscated(json, "w", "md5", None).unwrap();
        let findings = JsonWatermarker::scan_watermark_values(&out, None);
        assert_eq!(findings.len(), 1);
        assert_eq!(findings[0].0, WatermarkEncoder::encode("w").md5_hash);
        assert_eq!(findings[0].1, "md5");
    }
}

#[test]
fn camouflage_never_duplicates_keys() {
    // every suffix of "abc" and every pool name is taken
    let json = r#"{"abcHash":"1","abcId":"2","abcCode":"3","abcKey":"4","abcSig":"5","abcRef":"6"}"#;
    for _ in 0..20 {
        let out = JsonWatermarker::embed_obfuscated(json, "w", "plaintext", None).unwrap();
        let parsed: Value = serde_json::from_str(&out).unwrap();
        assert_eq!(parsed.as_object().unwrap().len(), 7);
    }
}

#[test]
fn obfuscated_root_array_is_reprinted() {
    let out = JsonWatermarker::embed_obfuscated("[1,2]", "w", "md5", None).unwrap();
    let parsed: Value = serde_json::from_str(&out).unwrap();
    assert_eq!(parsed, serde_json::from_str::<Value>("[1,2]").unwrap());
    assert!(JsonWatermarker::scan_watermark_values(&out, None).is_empty());
}

#[test]
fn invalid_json_is_an_error_and_scans_empty() {
    assert!(JsonWatermarker::embed_obfuscated("{not json", "w", "md5", None).is_err());
    assert!(JsonWatermarker::embed("{not json", "w", "k", "md5", None).is_err());
    assert!(JsonWatermarker::scan_watermark_values("{not json", None).is_empty());
}

#[test]
fn aes_without_key_is_an_error() {
    assert!(JsonWatermarker::encode_watermark("w", "aes", None).is_err());
    assert!(JsonWatermarker::embed_obfuscated(r#"{"a":"b"}"#, "w", "aes", None).is_err());
}

#[test]
fn encode_watermark_modes() {
    assert_eq!(JsonWatermarker::encode_watermark("abc", "plaintext", None).unwrap(), "txt:abc");
    assert_eq!(
        JsonWatermarker::encode_watermark("Hello, World!", "md5", None).unwrap(),
        "65a8e27d8879283831b664bd8b7f0ad4"
    );
    assert_eq!(
        JsonWatermarker::encode_watermark("Hello, World!", "other", None).unwrap(),
        "65a8e27d8879283831b664bd8b7f0ad4"
    );
    let aes = JsonWatermarker::encode_watermark("abc", "aes", Some("k")).unwrap();
    // 12-byte nonce + 3-byte ciphertext + 16-byte tag, in hex
    assert_eq!(aes.len(), 4 + 2 * (12 + 3 + 16));
    let (text, mode, ok) = JsonWatermarker::decode_watermark(&aes, Some("k"));
    assert_eq!((text.as_str(), mode.as_str(), ok), ("abc", "aes", true));
    let (raw, mode, ok) = JsonWatermarker::decode_watermark(&aes, None);
    assert_eq!((raw.as_str(), mode.as_str(), ok), (aes.as_str(), "aes", false));
}

#[test]
fn decode_watermark_unknown_and_bad_aes() {
    let (v, m, ok) = JsonWatermarker::decode_watermark("hello", None);
    assert_eq!((v.as_str(), m.as_str(), ok), ("hello", "unknown", false));
    let (v, m, ok) = JsonWatermarker::decode_watermark("aes:zz", Some("k"));
    assert_eq!((v.as_str(), m.as_str(), ok), ("aes:zz", "aes", false));
    let (v, m, ok) = JsonWatermarker::decode_watermark("aes:0011", Some("k"));
    assert_eq!((v.as_str(), m.as_str(), ok), ("aes:0011", "aes", false));
}

#[test]
fn value_shapes() {
    assert!(is_md5_like("5d41402abc4b2a76b9719d911017c592"));
    assert!(!is_md5_like("5D41402ABC4B2A76B9719D911017C592"));
    assert!(!is_md5_like("5d41402abc4b2a76b9719d911017c59"));
    assert!(is_watermark_value("txt:"));
    assert!(is_watermark_value("aes:00"));
    assert!(!is_watermark_value("aes:"));
    assert!(!is_watermark_value("aes:zz"));
    assert!(!is_watermark_value("aes:00AB"));
    assert!(!is_watermark_value("Dnaddr"));
}

#[test]
fn extract_and_has_watermark() {
    let json = r#"{"a":"x","b":1}"#;
    assert_eq!(JsonWatermarker::extract(json, "a").unwrap(), "x");
    assert!(JsonWatermarker::extract(json, "b").is_err());
    assert!(JsonWatermarker::extract(json, "c").is_err());
    assert!(JsonWatermarker::has_watermark(json, "b"));
    assert!(!JsonWatermarker::has_watermark(json, "c"));
    assert!(!JsonWatermarker::has_watermark("[1]", "a"));
}

#[test]
fn byte_variants() {
    let out = JsonWatermarker::embed_bytes(br#"{"a":"x"}"#, "w", "k", "plaintext", None).unwrap();
    assert_eq!(JsonWatermarker::extract_bytes(&out, "k").unwrap(), "txt:w");
    assert!(JsonWatermarker::embed_bytes(&[0xff, 0xfe], "w", "k", "md5", None).is_err());
    assert!(JsonWatermarker::extract_bytes(&[0xff], "k").is_err());
}

#[test]
fn scan_ignores_other_shapes() {
    let json = r#"{"a":"aes:xyz","b":"5d41402abc4b2a76b9719d911017c59","c":"txt:hi","d":3}"#;
    let findings = JsonWatermarker::scan_watermark_values(json, None);
    assert_eq!(findings, vec![("hi".to_string(), "plaintext".to_string(), true)]);
}

#[test]
fn non_object_roots_are_reprinted_by_both_injections() {
    for json in ["[1, 2, 3]", "42", "\"text\"", "null"] {
        let expected = serde_json::to_string_pretty(&serde_json::from_str::<Value>(json).unwrap()).unwrap();
        assert_eq!(JsonWatermarker::embed(json, "w", "_watermark", "md5", None).unwrap(), expected);
        assert_eq!(JsonWatermarker::embed_obfuscated(json, "w", "aes", None).unwrap(), expected);
    }
    // the fixed-key injection makes its token first
    assert!(JsonWatermarker::embed("[1]", "w", "_watermark", "aes", None).is_err());
}

#[test]
fn fixed_key_injection_replaces_and_appends() {
    let out = JsonWatermarker::embed(r#"{"_watermark":"old","a":"x"}"#, "w", "_watermark", "plaintext", None).unwrap();
    let parsed: Value = serde_json::from_str(&out).unwrap();
    let keys: Vec<&String> = parsed.as_object().unwrap().keys().collect();
    assert_eq!(keys, vec!["a", "_watermark"]);
    assert_eq!(parsed["_watermark"], "txt:w");
}

#[test]
fn byte_injection_matches_text_injection() {
    let json = r#"{"a":"x"}"#;
    let text = JsonWatermarker::embed(json, "w", "k", "plaintext", None).unwrap();
    let bytes = JsonWatermarker::embed_bytes(json.as_bytes(), "w", "k", "plaintext", None).unwrap();
    assert_eq!(bytes, text.into_bytes());
}
