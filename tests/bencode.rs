use bittorrent_core::decode::{decode, decode_bencoded_structure, decode_with, DecodeError};
use bittorrent_core::encode::{decimal_text, encode, encode_length_prefixed};
use bittorrent_core::text::{text_form, to_hex, TextForm};
use bittorrent_core::value::Value;

fn dec(s: &[u8]) -> Result<Value, DecodeError> {
    decode(&s.to_vec())
}

fn bytes_of(v: &Value) -> Vec<u8> {
    match v {
        Value::ByteString(b) => b.clone(),
        _ => panic!("not a byte string"),
    }
}

#[test]
fn decodes_byte_string() {
    let v = dec(b"4:spam").unwrap();
    assert_eq!(bytes_of(&v), b"spam".to_vec());
}

#[test]
fn decodes_integers() {
    assert!(matches!(dec(b"i42e"), Ok(Value::Integer(42))));
    assert!(matches!(dec(b"i-42e"), Ok(Value::Integer(-42))));
    assert!(matches!(dec(b"i0e"), Ok(Value::Integer(0))));
    assert!(matches!(dec(b"i9223372036854775807e"), Ok(Value::Integer(i64::MAX))));
    assert!(matches!(dec(b"i-9223372036854775808e"), Ok(Value::Integer(i64::MIN))));
}

#[test]
fn decodes_list() {
    match dec(b"l4:spam4:eggse").unwrap() {
        Value::List(items) => {
            assert_eq!(items.len(), 2);
            assert_eq!(bytes_of(&items[0]), b"spam".to_vec());
            assert_eq!(bytes_of(&items[1]), b"eggs".to_vec());
        }
        _ => panic!("not a list"),
    }
}

#[test]
fn decodes_dictionary() {
    let v = dec(b"d3:cow3:moo4:spam4:eggse").unwrap();
    match &v {
        Value::Dictionary(entries) => {
            assert_eq!(entries.len(), 2);
            assert_eq!(entries[0].0, b"cow".to_vec());
            assert_eq!(bytes_of(&entries[0].1), b"moo".to_vec());
            assert_eq!(entries[1].0, b"spam".to_vec());
            assert_eq!(bytes_of(&entries[1].1), b"eggs".to_vec());
        }
        _ => panic!("not a dictionary"),
    }
    assert_eq!(bytes_of(v.get(&b"spam".to_vec()).unwrap()), b"eggs".to_vec());
    assert!(v.get(&b"horse".to_vec()).is_none());
}

#[test]
fn repeated_key_last_wins() {
    let v = dec(b"d1:ai1e1:ai2ee").unwrap();
    assert!(matches!(v.get(&b"a".to_vec()), Some(Value::Integer(2))));
    let w = dec(b"d3:cowi1e3:cowi2ee").unwrap();
    match &w {
        Value::Dictionary(entries) => {
            assert_eq!(entries.len(), 1);
            assert_eq!(entries[0].0, b"cow".to_vec());
            assert!(matches!(entries[0].1, Value::Integer(2)));
        }
        _ => panic!("not a dictionary"),
    }
    assert_eq!(encode(&w), b"d3:cowi2ee".to_vec());
}

#[test]
fn repeated_key_keeps_first_position() {
    let w = dec(b"d1:ai1e1:bi2e1:ai3ee").unwrap();
    assert_eq!(encode(&w), b"d1:ai3e1:bi2ee".to_vec());
}

#[test]
fn reencodes_dictionary_exactly() {
    let v = dec(b"d3:cowi5ee").unwrap();
    assert_eq!(encode(&v), b"d3:cowi5ee".to_vec());
}

#[test]
fn keeps_key_order_on_reencoding() {
    let input = b"d4:spami1e3:cowl1:ai-3eee".to_vec();
    assert_eq!(encode(&decode(&input).unwrap()), input);
}

#[test]
fn truncated_string_fails() {
    assert!(matches!(dec(b"5:hel"), Err(DecodeError::TruncatedPayload)));
}

#[test]
fn empty_and_bare_end_fail() {
    assert!(matches!(dec(b""), Err(DecodeError::UnexpectedLeadingByte)));
    assert!(matches!(dec(b"e"), Err(DecodeError::UnexpectedLeadingByte)));
    assert!(matches!(dec(b"x"), Err(DecodeError::UnexpectedLeadingByte)));
}

#[test]
fn integer_key_fails() {
    assert!(matches!(dec(b"di5e3:fooe"), Err(DecodeError::NonStringKey)));
}

#[test]
fn malformed_lengths_fail() {
    assert!(matches!(dec(b"4spam"), Err(DecodeError::MalformedLength)));
    assert!(matches!(dec(b"04:spam"), Err(DecodeError::MalformedLength)));
    assert!(matches!(dec(b"12"), Err(DecodeError::MalformedLength)));
    assert!(matches!(dec(b"99999999999999999999:x"), Err(DecodeError::MalformedLength)));
    assert!(matches!(dec(b"18446744073709551616:x"), Err(DecodeError::MalformedLength)));
    assert!(matches!(dec(b"18446744073709551615:x"), Err(DecodeError::TruncatedPayload)));
}

#[test]
fn unterminated_values_fail() {
    assert!(matches!(dec(b"l4:spam"), Err(DecodeError::UnterminatedValue)));
    assert!(matches!(dec(b"d3:cowi5e"), Err(DecodeError::UnterminatedValue)));
    assert!(matches!(dec(b"i42"), Err(DecodeError::UnterminatedValue)));
}

#[test]
fn invalid_integers_fail() {
    for s in [&b"i04e"[..], b"i-0e", b"ie", b"i-e", b"i4.2e", b"i9223372036854775808e", b"i-9223372036854775809e"] {
        assert!(matches!(dec(s), Err(DecodeError::InvalidInteger)), "{:?}", s);
    }
}

#[test]
fn depth_limit_applies() {
    let nested = b"lllleeee".to_vec();
    assert!(decode_with(&nested, 4, true).is_ok());
    assert!(matches!(decode_with(&nested, 3, true), Err(DecodeError::TooDeep)));
}

#[test]
fn trailing_bytes_ignored_or_rejected() {
    let input = b"i1ei2e".to_vec();
    assert!(matches!(decode_with(&input, 8, false), Ok(Value::Integer(1))));
    assert!(matches!(decode_with(&input, 8, true), Err(DecodeError::TrailingBytes)));
}

#[test]
fn length_prefixed_round_trip() {
    for s in [&b""[..], b"spam", b"\x00\xff:e", &[7u8; 300][..]] {
        let b = s.to_vec();
        let enc = encode_length_prefixed(&b);
        let expected: Vec<u8> = [format!("{}:", b.len()).into_bytes(), b.clone()].concat();
        assert_eq!(enc, expected);
        let v = decode_with(&enc, 8, true).unwrap();
        assert_eq!(bytes_of(&v), b);
    }
}

#[test]
fn value_round_trip() {
    let v = Value::Dictionary(vec![
        (b"zeta".to_vec(), Value::List(vec![Value::Integer(-7), Value::ByteString(vec![0, 1, 2])])),
        (b"alpha".to_vec(), Value::Dictionary(vec![])),
        (b"mid".to_vec(), Value::Integer(1234567890123)),
    ]);
    let enc = encode(&v);
    assert_eq!(enc, b"d4:zetali-7e3:\x00\x01\x02e5:alphade3:midi1234567890123ee".to_vec());
    let back = decode_with(&enc, 8, true).unwrap();
    assert_eq!(encode(&back), enc);
}

#[test]
fn decode_entry_point_matches_decode() {
    assert!(matches!(decode_bencoded_structure(b"i7e".to_vec()), Ok(Value::Integer(7))));
}

#[test]
fn decimal_text_values() {
    assert_eq!(decimal_text(0), b"0".to_vec());
    assert_eq!(decimal_text(6881), b"6881".to_vec());
    assert_eq!(decimal_text(u64::MAX), b"18446744073709551615".to_vec());
}

#[test]
fn text_form_of_bytes() {
    assert!(matches!(text_form(&b"spam".to_vec()), TextForm::Utf8(s) if s == "spam"));
    assert!(matches!(text_form(&vec![0xffu8]), TextForm::Base64(s) if s == "/w=="));
}

#[test]
fn hex_of_bytes() {
    assert_eq!(to_hex(&vec![0xab, 0x01, 0x00]), "ab0100");
}
