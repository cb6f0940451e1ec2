use indolentjson::strings::escape_bytes;
use indolentjson::strings::unescape_bytes;

#[test]
fn escape_control_characters() {
    assert_eq!(
        &br#"\u0000\u0001\u0002\u0003\u0004\u0005\u0006\u0007"#[..],
        &escape_bytes(b"\x00\x01\x02\x03\x04\x05\x06\x07")[..]
    );
    assert_eq!(
        &br#"\b\t\n\u000B\f\r\u000E\u000F"#[..],
        &escape_bytes(b"\x08\x09\x0A\x0B\x0C\x0D\x0E\x0F")[..]
    );
    assert_eq!(
        &br#"\u0010\u0011\u0012\u0013\u0014\u0015\u0016\u0017"#[..],
        &escape_bytes(b"\x10\x11\x12\x13\x14\x15\x16\x17")[..]
    );
    assert_eq!(
        &br#"\u0018\u0019\u001A\u001B\u001C\u001D\u001E\u001F"#[..],
        &escape_bytes(b"\x18\x19\x1A\x1B\x1C\x1D\x1E\x1F")[..]
    );
    assert_eq!(&br#"\u0000 "#[..], &escape_bytes(b"\x00 ")[..]);
    assert_eq!(&br#" \u0000"#[..], &escape_bytes(b" \x00")[..]);
}

#[test]
fn unescape_control_characters() {
    assert_eq!(
        &b"\x00\x01\x02\x03\x04\x05\x06\x07"[..],
        &unescape_bytes(br#"\u0000\u0001\u0002\u0003\u0004\u0005\u0006\u0007"#).unwrap()[..]
    );
    assert_eq!(
        &b"\x08\x09\x0A\x0B\x0C\x0D\x0E\x0F"[..],
        &unescape_bytes(br#"\b\t\n\u000B\f\r\u000E\u000F"#).unwrap()[..]
    );
    assert_eq!(
        &b"\x10\x11\x12\x13\x14\x15\x16\x17"[..],
        &unescape_bytes(br#"\u0010\u0011\u0012\u0013\u0014\u0015\u0016\u0017"#).unwrap()[..]
    );
    assert_eq!(
        &b"\x18\x19\x1A\x1B\x1C\x1D\x1E\x1F"[..],
        &unescape_bytes(br#"\u0018\u0019\u001A\u001B\u001C\u001D\u001E\u001F"#).unwrap()[..]
    );
    assert_eq!(&b"\x00 "[..], &unescape_bytes(br#"\u0000 "#).unwrap()[..]);
    assert_eq!(&b" \x00"[..], &unescape_bytes(br#" \u0000"#).unwrap()[..]);
}

#[test]
fn escape_slash_and_quote() {
    assert_eq!(br#"\"\\"#, &escape_bytes(b"\"\\")[..]);
}

#[test]
fn unescape_slash_and_quote() {
    assert_eq!(b"\"\\", &unescape_bytes(br#"\"\\"#).unwrap()[..]);
}

#[test]
fn invalid_escape() {
    assert!(unescape_bytes(br#"\p"#).is_none());
    assert!(unescape_bytes(br#"\"#).is_none());
    assert!(unescape_bytes(br#"\u"#).is_none());
    assert!(unescape_bytes(br#"\u0"#).is_none());
    assert!(unescape_bytes(br#"\u00"#).is_none());
    assert!(unescape_bytes(br#"\u000"#).is_none());
}

#[test]
fn unescape_escape_round_trip() {
    // every byte value appears in the input
    let mut all: Vec<u8> = Vec::new();
    for b in 0u8..=255 {
        all.push(b);
    }
    let escaped = escape_bytes(&all);
    assert_eq!(all, unescape_bytes(&escaped).unwrap());
}

#[test]
fn escape_idempotent_on_plain_ascii() {
    let plain = b"The quick brown fox: 0123456789 [{}] (!?)";
    let once = escape_bytes(plain);
    assert_eq!(&plain[..], &once[..]);
    let twice = escape_bytes(&once);
    assert_eq!(once, twice);
}
