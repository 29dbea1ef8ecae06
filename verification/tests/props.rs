use bson::{read_cstring, str_eq, write_cstring, BsonValue, Document, ErrorKind};

#[test]
fn test_empty_doc_bytes() {
    let doc = Document::new();
    let bytes = doc.to_bytes();
    assert_eq!(bytes, vec![0x05, 0x00, 0x00, 0x00, 0x00]);
    assert_eq!(Ok(doc), Document::from_bytes(&bytes));
}

#[test]
fn test_size_matches_write_length() {
    let mut doc = Document::new();
    doc.insert("int", 10i32);
    doc.insert("str", "abc".to_string());
    doc.insert("when", BsonValue::UTCDatetime(1234567890123i64));
    let mut inner = Document::new();
    inner.insert("deep", BsonValue::Double(1.5f64.to_bits()));
    doc.insert("doc", inner);
    assert_eq!(doc.size() as usize, doc.to_bytes().len());

    let empty = Document::new();
    assert_eq!(empty.size() as usize, empty.to_bytes().len());
    assert_eq!(empty.size_checked(), Some(5));
}

#[test]
fn test_tag_codes_on_wire() {
    let cases: Vec<(BsonValue, u8)> = vec![
        (BsonValue::Double(0), 0x01),
        (BsonValue::String("x".to_string()), 0x02),
        (BsonValue::Doc(Document::new()), 0x03),
        (BsonValue::Bool(false), 0x08),
        (BsonValue::UTCDatetime(7), 0x09),
        (BsonValue::Null, 0x0A),
        (
            BsonValue::Regex {
                pat: "a".to_string(),
                opts: "i".to_string(),
            },
            0x0B,
        ),
        (BsonValue::Int32(1), 0x10),
        (BsonValue::Int64(1), 0x12),
    ];
    for (value, code) in cases {
        let mut doc = Document::new();
        doc.insert("k", value);
        let bytes = doc.to_bytes();
        assert_eq!(bytes[4], code);
    }
}

#[test]
fn test_nested_doc_scenario() {
    let mut inner = Document::new();
    inner.insert("int", 1i32);
    let mut doc = Document::new();
    doc.insert("d", inner);
    let expected = vec![
        0x16, 0x00, 0x00, 0x00, 0x03, 0x64, 0x00, 0x0E, 0x00, 0x00, 0x00, 0x10, 0x69, 0x6E, 0x74,
        0x00, 0x01, 0x00, 0x00, 0x00, 0x00, 0x00,
    ];
    let bytes = doc.to_bytes();
    assert_eq!(bytes, expected);
    assert_eq!(Ok(doc), Document::from_bytes(&bytes));
}

#[test]
fn test_datetime_round_trip() {
    let mut doc = Document::new();
    doc.insert("t", BsonValue::UTCDatetime(0x0102030405060708i64));
    let bytes = doc.to_bytes();
    assert_eq!(
        bytes,
        vec![0x10, 0x00, 0x00, 0x00, 0x09, 0x74, 0x00, 0x08, 0x07, 0x06, 0x05, 0x04, 0x03, 0x02, 0x01, 0x00]
    );
    assert_eq!(Ok(doc), Document::from_bytes(&bytes));
}

#[test]
fn test_regex_round_trip() {
    let mut doc = Document::new();
    doc.insert(
        "r",
        BsonValue::Regex {
            pat: "a".to_string(),
            opts: "i".to_string(),
        },
    );
    let bytes = doc.to_bytes();
    assert_eq!(
        bytes,
        vec![0x0C, 0x00, 0x00, 0x00, 0x0B, 0x72, 0x00, 0x61, 0x00, 0x69, 0x00, 0x00]
    );
    assert_eq!(Ok(doc), Document::from_bytes(&bytes));
}

#[test]
fn test_insert_overwrites() {
    let mut doc = Document::new();
    doc.insert("k", 1i32);
    doc.insert("k", 2i32);
    let mut expected = Document::new();
    expected.insert("k", 2i32);
    assert_eq!(doc.to_bytes(), expected.to_bytes());
    assert_eq!(Ok(expected), Document::from_bytes(&doc.to_bytes()));
}

#[test]
fn test_wrong_length_prefix_fails() {
    // {"int": 10} with its prefix corrupted from 0x0E to 0x0F.
    let bytes = vec![
        0x0f, 0x00, 0x00, 0x00, 0x10, 0x69, 0x6e, 0x74, 0x00, 0x0a, 0x00, 0x00, 0x00, 0x00,
    ];
    let err = Document::from_bytes(&bytes).unwrap_err();
    assert_eq!(err.kind(), ErrorKind::IncorrectLength);
}

#[test]
fn test_unknown_tag_fails() {
    // declared size 6, tag 0xFF, key "x".
    let bytes = vec![0x06, 0x00, 0x00, 0x00, 0xFF, 0x78, 0x00, 0x00];
    let err = Document::from_bytes(&bytes).unwrap_err();
    assert_eq!(err.kind(), ErrorKind::UnrecognisedCode(0xFF));
}

#[test]
fn test_truncated_input_fails() {
    let bytes = vec![0x0e, 0x00, 0x00];
    let err = Document::from_bytes(&bytes).unwrap_err();
    assert_eq!(err.kind(), ErrorKind::IoError);

    // cut off in the middle of an entry's key
    let bytes = vec![0x0e, 0x00, 0x00, 0x00, 0x10, 0x69, 0x6e];
    let err = Document::from_bytes(&bytes).unwrap_err();
    assert_eq!(err.kind(), ErrorKind::IoError);
}

#[test]
fn test_invalid_utf8_string_fails() {
    // string entry under key "s" whose payload bytes are not valid UTF-8
    let bytes = vec![
        0x10, 0x00, 0x00, 0x00, 0x02, 0x73, 0x00, 0x02, 0x00, 0x00, 0x00, 0xFF, 0x00, 0x00,
    ];
    let err = Document::from_bytes(&bytes).unwrap_err();
    assert_eq!(err.kind(), ErrorKind::StringDecodeError);
}

#[test]
fn test_string_inner_length_mismatch_fails() {
    // string "ab" declared with inner length 5 instead of 3
    let bytes = vec![
        0x11, 0x00, 0x00, 0x00, 0x02, 0x73, 0x00, 0x05, 0x00, 0x00, 0x00, 0x61, 0x62, 0x00, 0x00,
    ];
    let err = Document::from_bytes(&bytes).unwrap_err();
    assert_eq!(err.kind(), ErrorKind::IncorrectLength);
}

#[test]
fn test_duplicate_keys_collapse_on_read() {
    // two entries under key "a"; the declared size is that of the collapsed
    // document, which is what the reader recomputes after insertion.
    let bytes = vec![
        0x0c, 0x00, 0x00, 0x00, // declared size of {"a": 2}
        0x10, 0x61, 0x00, 0x01, 0x00, 0x00, 0x00, // "a" -> 1
        0x10, 0x61, 0x00, 0x02, 0x00, 0x00, 0x00, // "a" -> 2
        0x00,
    ];
    let mut expected = Document::new();
    expected.insert("a", 2i32);
    assert_eq!(Ok(expected), Document::from_bytes(&bytes));
}

#[test]
fn test_trailing_bytes_ignored() {
    let mut doc = Document::new();
    doc.insert("int", 10i32);
    let mut bytes = doc.to_bytes();
    bytes.extend_from_slice(&[0xAA, 0xBB]);
    assert_eq!(Ok(doc), Document::from_bytes(&bytes));
}

#[test]
fn test_cstring_helpers() {
    let mut out: Vec<u8> = Vec::new();
    write_cstring(&mut out, "ab");
    assert_eq!(out, vec![0x61, 0x62, 0x00]);
    let mut pos: usize = 0;
    let s = read_cstring(&out, &mut pos).unwrap();
    assert_eq!(s, "ab".to_string());
    assert_eq!(pos, 3);

    let mut pos: usize = 0;
    let err = read_cstring(&[0x61, 0x62], &mut pos).unwrap_err();
    assert_eq!(err.kind(), ErrorKind::IoError);
}

#[test]
fn test_str_eq() {
    assert!(str_eq("abc", "abc"));
    assert!(!str_eq("abc", "abd"));
    assert!(!str_eq("abc", "ab"));
    assert!(str_eq("", ""));
}

#[test]
fn test_unicode_key_round_trip() {
    let mut doc = Document::new();
    doc.insert("cle\u{301}", "ou\u{300}".to_string());
    let bytes = doc.to_bytes();
    assert_eq!(Ok(doc), Document::from_bytes(&bytes));
}

#[test]
fn test_is_well_formed() {
    let mut doc = Document::new();
    doc.insert("a", 1i32);
    doc.insert("b", "x".to_string());
    assert!(doc.is_well_formed());

    let raw = Document {
        entries: vec![
            ("k".to_string(), BsonValue::Int32(1)),
            ("k".to_string(), BsonValue::Int32(2)),
        ],
    };
    assert!(!raw.is_well_formed());

    let nul_key = Document {
        entries: vec![("a\u{0}b".to_string(), BsonValue::Null)],
    };
    assert!(!nul_key.is_well_formed());
}

#[test]
fn test_nan_bits_round_trip() {
    let mut doc = Document::new();
    doc.insert("nan", BsonValue::Double(f64::NAN.to_bits()));
    let bytes = doc.to_bytes();
    assert_eq!(Ok(doc), Document::from_bytes(&bytes));
}

#[test]
fn test_error_description() {
    let err = Document::from_bytes(&[0x01]).unwrap_err();
    assert_eq!(err.kind(), ErrorKind::IoError);
    assert_eq!(err.description(), "Reader or writer call failed");
    assert_eq!(err.detail(), &None);
}
