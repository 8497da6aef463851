use meta_kv::errors::KeyError;
use meta_kv::escape::escape;
use meta_kv::escape::unescape;
use meta_kv::key::check_segment;
use meta_kv::key::check_segment_absent;
use meta_kv::key::check_segment_present;
use meta_kv::key::decode_id;
use meta_kv::key::split_segments;
use meta_kv::key::DatabaseNameKey;
use meta_kv::key::TableNameKey;
use meta_kv::key::Key;

#[test]
fn escape_plain_text_is_unchanged() {
    assert_eq!(escape("data_bend"), "data_bend".to_string());
    assert_eq!(escape("AZaz09_"), "AZaz09_".to_string());
    assert_eq!(escape(""), "".to_string());
}

#[test]
fn escape_special_characters() {
    assert_eq!(escape("data_bend!!"), "data_bend%21%21".to_string());
    assert_eq!(escape("my db!"), "my%20db%21".to_string());
    assert_eq!(escape("a/b"), "a%2fb".to_string());
    assert_eq!(escape("%"), "%25".to_string());
}

#[test]
fn unescape_inverts_escape() {
    assert_eq!(unescape("data_bend%21%21"), Ok("data_bend!!".to_string()));
    for s in [
        "",
        "plain",
        "with space",
        "sl/ash",
        "pct%pct",
        "unicode \u{00e9}\u{4e16}\u{754c}",
        "mixed/!@#$%^&*()\u{1f600}",
    ] {
        assert_eq!(unescape(&escape(s)), Ok(s.to_string()));
    }
}

#[test]
fn escape_is_injective_on_samples() {
    let inputs = ["", "a", "%", "%25", "a/b", "a%2fb", "my db!", "my%20db%21"];
    for (x, a) in inputs.iter().enumerate() {
        for (y, b) in inputs.iter().enumerate() {
            if x != y {
                assert_ne!(escape(a), escape(b));
            }
        }
    }
}

#[test]
fn unescape_rejects_truncated_escape() {
    assert!(matches!(unescape("abc%"), Err(KeyError::InvalidEscape { .. })));
    assert!(matches!(unescape("abc%2"), Err(KeyError::InvalidEscape { .. })));
}

#[test]
fn unescape_rejects_bad_hex_digits() {
    assert!(matches!(unescape("%zz"), Err(KeyError::InvalidEscape { .. })));
    assert!(matches!(unescape("%2G"), Err(KeyError::InvalidEscape { .. })));
    // uppercase hex is not in the escaper's output alphabet
    assert!(matches!(unescape("%2F"), Err(KeyError::InvalidEscape { .. })));
}

#[test]
fn unescape_rejects_invalid_text() {
    match unescape("%ff") {
        Err(KeyError::FromUtf8Error { bytes }) => assert_eq!(bytes, vec![0xffu8]),
        other => panic!("expected FromUtf8Error, got {:?}", other),
    }
}

#[test]
fn split_segments_matches_string_split() {
    let cases = ["", "a", "a/b", "/a", "a/", "a//b", "__fd_db/my%20db%21"];
    for s in cases {
        let got = split_segments(s);
        let want: Vec<String> = s.split('/').map(|p| p.to_string()).collect();
        assert_eq!(got, want);
    }
}

#[test]
fn decode_id_parses_decimal() {
    assert_eq!(decode_id("0"), Ok(0));
    assert_eq!(decode_id("123"), Ok(123));
    assert_eq!(decode_id("18446744073709551615"), Ok(u64::MAX));
    // one optional leading plus sign, as the standard parser reads it
    assert_eq!(decode_id("+42"), Ok(42));
    assert_eq!(decode_id("+0"), Ok(0));
}

#[test]
fn decode_id_rejects_bad_input() {
    assert_eq!(
        decode_id(""),
        Err(KeyError::InvalidId {
            s: "".to_string(),
            reason: "cannot parse integer from empty string".to_string(),
        })
    );
    assert_eq!(
        decode_id("12a"),
        Err(KeyError::InvalidId {
            s: "12a".to_string(),
            reason: "invalid digit found in string".to_string(),
        })
    );
    assert_eq!(
        decode_id("-3"),
        Err(KeyError::InvalidId {
            s: "-3".to_string(),
            reason: "invalid digit found in string".to_string(),
        })
    );
    assert_eq!(
        decode_id("18446744073709551616"),
        Err(KeyError::InvalidId {
            s: "18446744073709551616".to_string(),
            reason: "number too large to fit in target type".to_string(),
        })
    );
    // a bare plus sign has no digit, and only one sign is read
    assert_eq!(
        decode_id("+"),
        Err(KeyError::InvalidId {
            s: "+".to_string(),
            reason: "invalid digit found in string".to_string(),
        })
    );
    assert_eq!(
        decode_id("++1"),
        Err(KeyError::InvalidId {
            s: "++1".to_string(),
            reason: "invalid digit found in string".to_string(),
        })
    );
    assert_eq!(
        decode_id("+18446744073709551616"),
        Err(KeyError::InvalidId {
            s: "+18446744073709551616".to_string(),
            reason: "number too large to fit in target type".to_string(),
        })
    );
}

#[test]
fn check_segment_helpers() {
    assert_eq!(check_segment("abc", 0, "abc"), Ok(()));
    assert_eq!(
        check_segment("xyz", 0, "abc"),
        Err(KeyError::InvalidSegment {
            i: 0,
            expect: "abc".to_string(),
            got: "xyz".to_string(),
        })
    );
    assert_eq!(check_segment_present(Some("s"), 1, "k"), Ok("s"));
    assert_eq!(
        check_segment_present(None, 1, "the_key"),
        Err(KeyError::WrongNumberOfSegments { expect: 2, got: "the_key".to_string() })
    );
    assert_eq!(check_segment_absent(None, 2, "k"), Ok(()));
    assert_eq!(
        check_segment_absent(Some("extra"), 2, "the_key"),
        Err(KeyError::WrongNumberOfSegments { expect: 2, got: "the_key".to_string() })
    );
}

#[test]
fn database_key_encodes_with_prefix_and_escaping() {
    let k = DatabaseNameKey { db_name: "my db!".to_string() };
    let s = k.to_string_key();
    assert_eq!(s, "__fd_db/my%20db%21".to_string());
    let back = DatabaseNameKey::from_str_key(&s).unwrap();
    assert_eq!(back, k);
}

#[test]
fn database_key_round_trips() {
    for name in ["", "plain", "with space", "a/b", "%", "caf\u{00e9}"] {
        let k = DatabaseNameKey { db_name: name.to_string() };
        let back = DatabaseNameKey::from_str_key(&k.to_string_key()).unwrap();
        assert_eq!(back.db_name, name.to_string());
    }
}

#[test]
fn database_key_rejects_wrong_prefix() {
    assert_eq!(
        DatabaseNameKey::from_str_key("__wrong/abc"),
        Err(KeyError::InvalidSegment {
            i: 0,
            expect: "__fd_db".to_string(),
            got: "__wrong".to_string(),
        })
    );
}

#[test]
fn database_key_rejects_wrong_segment_count() {
    assert_eq!(
        DatabaseNameKey::from_str_key("__fd_db"),
        Err(KeyError::WrongNumberOfSegments { expect: 2, got: "__fd_db".to_string() })
    );
    assert_eq!(
        DatabaseNameKey::from_str_key("__fd_db/a/b"),
        Err(KeyError::WrongNumberOfSegments { expect: 2, got: "__fd_db/a/b".to_string() })
    );
}

#[test]
fn table_key_encodes_id_and_name() {
    let k = TableNameKey { db_id: 7, table_name: "my tbl!".to_string() };
    let s = k.to_string_key();
    assert_eq!(s, "__fd_table/7/my%20tbl%21".to_string());
    assert_eq!(TableNameKey::from_str_key(&s), Ok(k));
}

#[test]
fn table_key_round_trips() {
    for (id, name) in [(0u64, ""), (1, "t"), (u64::MAX, "a/b %"), (42, "caf\u{00e9}")] {
        let k = TableNameKey { db_id: id, table_name: name.to_string() };
        let back = TableNameKey::from_str_key(&k.to_string_key()).unwrap();
        assert_eq!(back.db_id, id);
        assert_eq!(back.table_name, name.to_string());
    }
}

#[test]
fn table_key_accepts_a_signed_id_segment() {
    let k = TableNameKey::from_str_key("__fd_table/+1/t").unwrap();
    assert_eq!(k.db_id, 1);
    assert_eq!(k.table_name, "t".to_string());
}

#[test]
fn table_key_rejects_bad_id_and_arity() {
    assert_eq!(
        TableNameKey::from_str_key("__fd_table/abc/t"),
        Err(KeyError::InvalidId {
            s: "abc".to_string(),
            reason: "invalid digit found in string".to_string(),
        })
    );
    assert_eq!(
        TableNameKey::from_str_key("__fd_table/1"),
        Err(KeyError::WrongNumberOfSegments { expect: 3, got: "__fd_table/1".to_string() })
    );
    assert_eq!(
        TableNameKey::from_str_key("__fd_table/1/t/x"),
        Err(KeyError::WrongNumberOfSegments {
            expect: 3,
            got: "__fd_table/1/t/x".to_string(),
        })
    );
}

#[test]
fn prefixes_name_the_key_families() {
    assert_eq!(String::prefix(), "");
    assert_eq!(DatabaseNameKey::prefix(), "__fd_db");
    assert_eq!(TableNameKey::prefix(), "__fd_table");
}

#[test]
fn string_key_is_the_identity_mapping() {
    let k = "anything at all, even / and %".to_string();
    assert_eq!(k.to_string_key(), k);
    assert_eq!(String::from_str_key(&k), Ok(k));
}
