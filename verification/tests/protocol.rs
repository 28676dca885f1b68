//! Tests of the wrapping and decoding protocol on concrete values.

use osascript::{decode, Error, ExecutionOutcome, JavaScript, Json};

fn ok_outcome(stdout: &[u8]) -> ExecutionOutcome {
    ExecutionOutcome { success: true, stdout: stdout.to_vec(), stderr: Vec::new() }
}

fn failed_outcome(stderr: &[u8]) -> ExecutionOutcome {
    ExecutionOutcome { success: false, stdout: Vec::new(), stderr: stderr.to_vec() }
}

#[test]
fn integer_result_decodes() {
    // a body `return 40 + 2;` prints `42`
    let r = decode(&ok_outcome(b"42"));
    assert_eq!(r, Ok(Json::Int(42)));
}

#[test]
fn object_result_decodes_with_field() {
    // a body `return {buttonReturned: "OK"};` prints this object
    let r = decode(&ok_outcome(b"{\"buttonReturned\":\"OK\"}"));
    let expected = Json::Obj(vec![(b"buttonReturned".to_vec(), Json::Str(b"OK".to_vec()))]);
    assert_eq!(r, Ok(expected));
}

#[test]
fn no_explicit_return_yields_null() {
    // the postamble prints `null` when the body returns nothing
    let script = JavaScript::new("var x = 1;");
    let program = script.wrap();
    let text = String::from_utf8(program).unwrap();
    assert!(text.ends_with(";return null;})());"));
    let r = decode(&ok_outcome(b"null"));
    assert_eq!(r, Ok(Json::Null));
}

#[test]
fn script_failure_carries_stderr_text() {
    let r = decode(&failed_outcome(b"Error: broken on line 1"));
    assert_eq!(r, Err(Error::Script("Error: broken on line 1".to_string())));
}

#[test]
fn script_failure_message_is_byte_for_byte() {
    let msg = "execution error: ReferenceError \u{2014} nope";
    let r = decode(&failed_outcome(msg.as_bytes()));
    match r {
        Err(Error::Script(m)) => assert_eq!(m, msg),
        other => panic!("expected a script failure, got {:?}", other),
    }
}

#[test]
fn invalid_utf8_stderr_is_io_failure() {
    let r = decode(&failed_outcome(&[0xff, 0xfe, 0x00]));
    match r {
        Err(Error::Io(m)) => assert!(m.contains("UTF-8")),
        other => panic!("expected an io failure, got {:?}", other),
    }
}

#[test]
fn malformed_stdout_is_deserialize_failure_not_script_failure() {
    let r = decode(&ok_outcome(b"not json at all"));
    match r {
        Err(Error::Deserialize(_)) => {}
        other => panic!("expected a deserialize failure, got {:?}", other),
    }
}

#[test]
fn trailing_content_is_deserialize_failure() {
    let r = decode(&ok_outcome(b"42 logging: done"));
    match r {
        Err(Error::Deserialize(_)) => {}
        other => panic!("expected a deserialize failure, got {:?}", other),
    }
}

#[test]
fn empty_stdout_is_deserialize_failure() {
    let r = decode(&ok_outcome(b""));
    match r {
        Err(Error::Deserialize(_)) => {}
        other => panic!("expected a deserialize failure, got {:?}", other),
    }
}

#[test]
fn control_characters_in_interpreter_output_decode() {
    // the interpreter's serializer escapes bare control characters as \u00XX
    let r = decode(&ok_outcome(b"\"ding\\u0007\""));
    assert_eq!(r, Ok(Json::Str(vec![100, 105, 110, 103, 7])));
    // and supplementary characters may arrive as surrogate pairs
    let r = decode(&ok_outcome(b"\"\\ud83d\\ude00\""));
    assert_eq!(r, Ok(Json::Str("\u{1f600}".as_bytes().to_vec())));
}

#[test]
fn surrounding_whitespace_is_accepted() {
    let r = decode(&ok_outcome(b" \t\r\n42\n"));
    assert_eq!(r, Ok(Json::Int(42)));
}

#[test]
fn params_appear_verbatim_in_wrapped_program() {
    let script = JavaScript::new("return $params.title;");
    let params = Json::Obj(vec![
        (b"title".to_vec(), Json::Str(b"T".to_vec())),
        (
            b"buttons".to_vec(),
            Json::Arr(vec![Json::Str(b"A".to_vec()), Json::Str(b"B".to_vec())]),
        ),
    ]);
    let program = String::from_utf8(script.wrap_with_params(&params)).unwrap();
    assert!(program.starts_with("var $params = {\"title\":\"T\",\"buttons\":[\"A\",\"B\"]};"));
    assert!(program.contains("return $params.title;"));
    assert!(program.ends_with(";return null;})());"));
}

#[test]
fn wrapped_program_layout_is_exact() {
    let script = JavaScript::new("return 1;");
    let params = Json::Obj(Vec::new());
    let program = String::from_utf8(script.wrap_with_params(&params)).unwrap();
    assert_eq!(
        program,
        "var $params = {};JSON.stringify((function() {return 1;;return null;})());"
    );
    let no_params = String::from_utf8(script.wrap()).unwrap();
    assert_eq!(program, no_params);
}

#[test]
fn script_code_is_kept_verbatim() {
    let script = JavaScript::new("  weird \"code\" \\ with $params  ");
    assert_eq!(script.code(), "  weird \"code\" \\ with $params  ");
}

#[test]
fn encoded_result_decodes_back_to_itself() {
    // round trip: what a correctly functioning interpreter prints for a
    // returned value decodes to exactly that value
    let v = Json::Obj(vec![
        (b"title".to_vec(), Json::Str(b"a \"quoted\" title\n".to_vec())),
        (b"n".to_vec(), Json::Int(-99)),
        (b"xs".to_vec(), Json::Arr(vec![Json::Null, Json::Bool(true), Json::Int(0)])),
    ]);
    let stdout = osascript::json::to_bytes(&v);
    let r = decode(&ok_outcome(&stdout));
    assert_eq!(r, Ok(v));
}

#[test]
fn shape_reading_accessors() {
    let decoded = decode(&ok_outcome(b"{\"buttonReturned\":\"OK\",\"count\":2}")).unwrap();
    // the requested-shape checks a typed caller makes
    match decoded.get(b"buttonReturned") {
        Some(Json::Str(s)) => assert_eq!(s, b"OK"),
        other => panic!("expected a string member, got {:?}", other),
    }
    assert_eq!(decoded.get(b"count").and_then(|j| j.as_int()), Some(2));
    assert_eq!(decoded.get(b"missing"), None);
    assert_eq!(decoded.as_int(), None);
    // a bare number where an object was expected: the shapes stay apart
    let bare = decode(&ok_outcome(b"42")).unwrap();
    assert_eq!(bare.get(b"buttonReturned"), None);
    assert_eq!(bare.as_int(), Some(42));
}

#[test]
fn error_message_accessor_returns_the_text() {
    assert_eq!(Error::Io("a".to_string()).message(), "a");
    assert_eq!(Error::Serialize("b".to_string()).message(), "b");
    assert_eq!(Error::Deserialize("c".to_string()).message(), "c");
    assert_eq!(Error::Script("d".to_string()).message(), "d");
}
