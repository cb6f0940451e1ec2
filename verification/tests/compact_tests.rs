use indolentjson::compact::compact;
use indolentjson::compact::compact_vector;

fn compact_str(input: &str) -> String {
    String::from_utf8(compact(input.as_bytes())).unwrap()
}

#[test]
fn compact_json_object() {
    assert_eq!("{}", compact_str("{ }"));
}

#[test]
fn compact_json_string() {
    assert_eq!(
        r#"{"key":"\"hello / world\""}"#,
        compact_str(r#" { "key" : "\"hello \/ world\"" } "#)
    );
}

#[test]
fn compact_unicode_escapes() {
    assert_eq!(
        r#"["\u0000\u0001\u0002\u0003\u0004\u0005\u0006\u0007"]"#,
        compact_str(r#"["\u0000\u0001\u0002\u0003\u0004\u0005\u0006\u0007"]"#)
    );
    assert_eq!(
        r#"["\b\t\n\u000B\f\r\u000E\u000F"]"#,
        compact_str(r#"["\u0008\u0009\u000A\u000B\u000C\u000D\u000E\u000F"]"#)
    );
    assert_eq!(
        r#"["\u0010\u0011\u0012\u0013\u0014\u0015\u0016\u0017"]"#,
        compact_str(r#"["\u0010\u0011\u0012\u0013\u0014\u0015\u0016\u0017"]"#)
    );
    assert_eq!(
        r#"["\u0018\u0019\u001A\u001B\u001C\u001D\u001E\u001F"]"#,
        compact_str(r#"["\u0018\u0019\u001A\u001B\u001C\u001D\u001E\u001F"]"#)
    );
}

#[test]
fn compact_unicode_utf8() {
    assert_eq!("[\"a\\\\B\\\"\"]", compact_str("[\"\\u0061\\u005C\\u0042\\u0022\"]"));
    assert_eq!("[\"\u{120}\"]", compact_str("[\"\\u0120\"]"));
    assert_eq!("[\"\u{FFF}\"]", compact_str("[\"\\u0FFF\"]"));
    assert_eq!("[\"\u{1820}\"]", compact_str("[\"\\u1820\"]"));
    assert_eq!("[\"\u{FFFF}\"]", compact_str("[\"\\uFFFF\"]"));
    assert_eq!("[\"\u{20820}\"]", compact_str("[\"\\uD842\\uDC20\"]"));
    assert_eq!("[\"\u{10FFFF}\"]", compact_str("[\"\\uDBFF\\uDFFF\"]"));
}

#[test]
fn compact_empty_input() {
    assert_eq!(b"".to_vec(), compact(b""));
}

#[test]
fn compact_lowercase_hex_digits() {
    assert_eq!("[\"\u{20820}\"]", compact_str("[\"\\ud842\\udc20\"]"));
}

#[test]
fn compact_appends_to_output() {
    let mut out = b"x".to_vec();
    assert_eq!(Ok(()), compact_vector(b" [1, 2] ", &mut out));
    assert_eq!(b"x[1,2]".to_vec(), out);
}

#[test]
fn compact_truncated_string_fails() {
    let mut out = Vec::new();
    assert_eq!(Err(()), compact_vector(b"\"abc", &mut out));
}

#[test]
fn compact_truncated_escape_fails() {
    let mut out = Vec::new();
    assert_eq!(Err(()), compact_vector(b"\"\\", &mut out));
}

#[test]
fn compact_truncated_unicode_escape_fails() {
    let mut out = Vec::new();
    assert_eq!(Err(()), compact_vector(b"\"\\u00", &mut out));
}

#[test]
fn compact_truncated_surrogate_pair_fails() {
    let mut out = Vec::new();
    assert_eq!(Err(()), compact_vector(b"\"\\uD842\\uDC2", &mut out));
}

#[test]
fn compact_idempotent_on_examples() {
    let inputs: [&[u8]; 4] = [
        b" { \"key\" : \"\\\"hello \\/ world\\\"\" } ",
        b"[\"\\u0008\\u0009\\u000A\\u000B\"]",
        b"[\"\\uD842\\uDC20\"]",
        b"[1, 2,  {\"a\": null} ]",
    ];
    for input in inputs {
        let once = compact(input);
        let twice = compact(&once);
        assert_eq!(once, twice);
    }
}

#[test]
fn compact_no_whitespace_outside_strings() {
    let out = compact(b" [ \"a b\\t c\" , 1 , \r\n\t {\"k\" : 2} ] ");
    let mut in_string = false;
    let mut escaped = false;
    for &b in &out {
        if in_string {
            if escaped {
                escaped = false;
            } else if b == b'\\' {
                escaped = true;
            } else if b == b'"' {
                in_string = false;
            }
        } else {
            assert!(b > 0x20);
            if b == b'"' {
                in_string = true;
            }
        }
    }
    assert_eq!(b"[\"a b\\t c\",1,{\"k\":2}]".to_vec(), out);
}
