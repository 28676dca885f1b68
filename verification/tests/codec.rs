//! Tests of the wire-format codec: encoding, parsing, and the round trip,
//! cross-checked against an independent JSON implementation.

use osascript::json::to_bytes;
use osascript::parse::parse_bytes;
use osascript::Json;

fn round_trips(j: Json) {
    let encoded = to_bytes(&j);
    let parsed = parse_bytes(&encoded);
    assert_eq!(parsed, Some(j));
}

#[test]
fn scalars_round_trip() {
    round_trips(Json::Null);
    round_trips(Json::Bool(true));
    round_trips(Json::Bool(false));
    round_trips(Json::Int(0));
    round_trips(Json::Int(42));
    round_trips(Json::Int(-7));
    round_trips(Json::Int(i64::MAX));
    round_trips(Json::Int(i64::MIN));
    round_trips(Json::Str(Vec::new()));
    round_trips(Json::Str(b"hello".to_vec()));
}

#[test]
fn escapes_round_trip() {
    round_trips(Json::Str(b"say \"hi\" \\ once".to_vec()));
    round_trips(Json::Str(b"line\nbreak\ttab\rret".to_vec()));
    round_trips(Json::Str(vec![8, 12, 34, 92]));
    round_trips(Json::Str("unicode \u{00e9}\u{6f22}".as_bytes().to_vec()));
    // control bytes without a short escape travel as \u00XX
    round_trips(Json::Str(vec![0, 1, 7, 11, 14, 27, 31]));
    let mut all_controls: Vec<u8> = (0u8..32u8).collect();
    all_controls.push(127);
    round_trips(Json::Str(all_controls));
}

#[test]
fn control_bytes_encode_as_hex_escapes() {
    assert_eq!(
        String::from_utf8(to_bytes(&Json::Str(vec![0, 1, 11, 27, 31]))).unwrap(),
        "\"\\u0000\\u0001\\u000b\\u001b\\u001f\""
    );
}

#[test]
fn unicode_escapes_decode_to_utf8_bytes() {
    // one-byte, two-byte and three-byte scalars, either hex case
    assert_eq!(
        parse_bytes(b"\"\\u0041\\u00e9\\u6F22\""),
        Some(Json::Str("A\u{e9}\u{6f22}".as_bytes().to_vec()))
    );
    // a surrogate pair denotes one supplementary scalar
    assert_eq!(
        parse_bytes(b"\"\\ud83d\\uDE00\""),
        Some(Json::Str("\u{1f600}".as_bytes().to_vec()))
    );
}

#[test]
fn bad_unicode_escapes_are_rejected() {
    assert_eq!(parse_bytes(b"\"\\ud800\""), None);  // lone high surrogate
    assert_eq!(parse_bytes(b"\"\\udc00\""), None);  // lone low surrogate
    assert_eq!(parse_bytes(b"\"\\ud83d\\u0041\""), None);  // pair not completed
    assert_eq!(parse_bytes(b"\"\\u12g4\""), None);  // not hexadecimal
    assert_eq!(parse_bytes(b"\"\\u12\""), None);  // truncated
}

#[test]
fn containers_round_trip() {
    round_trips(Json::Arr(Vec::new()));
    round_trips(Json::Obj(Vec::new()));
    round_trips(Json::Arr(vec![Json::Int(1), Json::Int(2), Json::Int(3)]));
    round_trips(Json::Obj(vec![
        (b"a".to_vec(), Json::Null),
        (b"b".to_vec(), Json::Arr(vec![Json::Bool(false), Json::Str(b"x".to_vec())])),
        (b"c".to_vec(), Json::Obj(vec![(b"inner".to_vec(), Json::Int(-12))])),
    ]));
}

#[test]
fn encoding_is_the_exact_wire_text() {
    let j = Json::Obj(vec![
        (b"title".to_vec(), Json::Str(b"T\n".to_vec())),
        (b"n".to_vec(), Json::Int(-10)),
        (b"ok".to_vec(), Json::Bool(true)),
        (b"xs".to_vec(), Json::Arr(vec![Json::Null])),
    ]);
    assert_eq!(
        String::from_utf8(to_bytes(&j)).unwrap(),
        "{\"title\":\"T\\n\",\"n\":-10,\"ok\":true,\"xs\":[null]}"
    );
}

#[test]
fn parser_accepts_standard_escapes() {
    let parsed = parse_bytes(b"\"a\\/b \\b\\f\\n\\r\\t\\\\ \\\"\"");
    assert_eq!(parsed, Some(Json::Str(b"a/b \x08\x0c\n\r\t\\ \"".to_vec())));
}

#[test]
fn parser_rejects_malformed_numbers() {
    assert_eq!(parse_bytes(b"042"), None);
    assert_eq!(parse_bytes(b"-"), None);
    assert_eq!(parse_bytes(b"4.2"), None);
    assert_eq!(parse_bytes(b"9223372036854775808"), None);
    assert_eq!(parse_bytes(b"-9223372036854775809"), None);
    assert_eq!(parse_bytes(b"9223372036854775807"), Some(Json::Int(i64::MAX)));
    assert_eq!(parse_bytes(b"-9223372036854775808"), Some(Json::Int(i64::MIN)));
}

#[test]
fn parser_rejects_unterminated_input() {
    assert_eq!(parse_bytes(b"\"open"), None);
    assert_eq!(parse_bytes(b"[1,2"), None);
    assert_eq!(parse_bytes(b"{\"a\":1"), None);
    assert_eq!(parse_bytes(b"[1,]"), None);
    assert_eq!(parse_bytes(b"{\"a\"}"), None);
    assert_eq!(parse_bytes(b"tru"), None);
}

#[test]
fn encoded_values_parse_with_an_independent_json_reader() {
    let j = Json::Obj(vec![
        (b"s".to_vec(), Json::Str(b"a \"quoted\" \\ line\nnext".to_vec())),
        (b"n".to_vec(), Json::Int(-42)),
        (b"xs".to_vec(), Json::Arr(vec![Json::Bool(true), Json::Null, Json::Int(7)])),
    ]);
    let bytes = to_bytes(&j);
    let v: serde_json::Value = serde_json::from_slice(&bytes).unwrap();
    assert_eq!(v["s"], serde_json::Value::String("a \"quoted\" \\ line\nnext".to_string()));
    assert_eq!(v["n"], serde_json::Value::from(-42i64));
    assert_eq!(v["xs"].as_array().unwrap().len(), 3);
}

#[test]
fn independent_json_writer_output_parses_back() {
    let mut map = serde_json::Map::new();
    map.insert("buttonReturned".to_string(), serde_json::Value::String("OK".to_string()));
    map.insert("count".to_string(), serde_json::Value::from(3i64));
    map.insert("ctl".to_string(), serde_json::Value::String("a\u{1}b".to_string()));
    let bytes = serde_json::to_vec(&serde_json::Value::Object(map)).unwrap();
    let parsed = parse_bytes(&bytes);
    assert_eq!(
        parsed,
        Some(Json::Obj(vec![
            (b"buttonReturned".to_vec(), Json::Str(b"OK".to_vec())),
            (b"count".to_vec(), Json::Int(3)),
            (b"ctl".to_vec(), Json::Str(vec![97, 1, 98])),
        ]))
    );
}
