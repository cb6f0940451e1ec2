use indolentjson::parse::Node;

fn validate(input: &[u8]) -> bool {
    let mut parsed: Vec<Node> = Vec::new();
    let mut stack: Vec<u32> = Vec::new();
    indolentjson::parse::parse(input, &mut parsed, &mut stack).unwrap();
    indolentjson::validate::validate(input, parsed.as_slice()).is_ok()
}

#[test]
fn validate_mismatched_brackets() {
    assert_eq!(true, validate(b"{}"));
    assert_eq!(true, validate(b"[]"));
    assert_eq!(true, validate(b"[0]"));
    assert_eq!(true, validate(br#"{"":1}"#));

    assert_eq!(false, validate(b"{]"));
    assert_eq!(false, validate(b"[}"));
    assert_eq!(false, validate(b"[0}"));
    assert_eq!(false, validate(br#"{"":1]"#));
}

#[test]
fn validate_invalid_brackets() {
    assert_eq!(false, validate(b"{@"));
    assert_eq!(false, validate(b"[@"));
    assert_eq!(false, validate(br#"[""@"#));
}

#[test]
fn validate_empty() {
    assert_eq!(false, validate(b"[,]"));
}

#[test]
fn validate_invalid_object_key() {
    assert_eq!(false, validate(br#"{@":1}"#));
    assert_eq!(false, validate(br#"{""@1}"#));
}

#[test]
fn validate_literals() {
    assert_eq!(true, validate(b"[false]"));
    assert_eq!(true, validate(b"[true]"));
    assert_eq!(true, validate(b"[null]"));

    assert_eq!(false, validate(b"[fslae]"));
    assert_eq!(false, validate(b"[ture]"));
    assert_eq!(false, validate(b"[nlul]"));

    assert_eq!(false, validate(b"[FALSE]"));
    assert_eq!(false, validate(b"[TRUE]"));
    assert_eq!(false, validate(b"[NULL]"));
}

#[test]
fn validate_strings() {
    assert_eq!(true, validate(br#"["\"\\\b\f\n\r\t\u0000"]"#));
    assert_eq!(false, validate(br#"["\/"]"#));
    assert_eq!(false, validate(br#"["\g"]"#));
}

#[test]
fn validate_whitespace() {
    assert_eq!(false, validate(b"[\"\n\"]"));
}

#[test]
fn validate_decimals() {
    assert_eq!(true, validate(b"[0,1,2,3,4,5,6,7,8,9]"));
    assert_eq!(true, validate(b"[10,21,32,43,54,65,76,87,98]"));

    assert_eq!(false, validate(b"[00]"));
    assert_eq!(false, validate(b"[1A]"));
}

#[test]
fn validate_fractions() {
    assert_eq!(true, validate(b"[0.0,0.01,0.123456789]"));
    assert_eq!(false, validate(b"[0.]"));
    assert_eq!(false, validate(b"[0A0]"));
}

#[test]
fn validate_exponent() {
    assert_eq!(true, validate(b"[0e0,0e1,1e00,1e10,1e99]"));
    assert_eq!(true, validate(b"[0E0,0E1,1E00,1E10,1E99]"));
    assert_eq!(true, validate(b"[0.0e-0]"));
    assert_eq!(true, validate(b"[0.0e+0]"));

    assert_eq!(false, validate(b"[0eA]"));
    assert_eq!(false, validate(b"[0e0.1]"));
}

#[test]
fn validate_negative() {
    assert_eq!(true, validate(b"[-0,-1,-0.0,-0.0e1]"));

    assert_eq!(false, validate(b"[+1]"));
    assert_eq!(false, validate(b"[-00]"));
}

#[test]
fn validate_nested() {
    assert_eq!(true, validate(br#"[{"":[]},[],{}]"#));
}

#[test]
fn validate_equal_keys() {
    // the validator checks structure only: repeated keys pass
    assert_eq!(true, validate(br#"{"A":1,"A":2}"#));
}

#[test]
fn validate_deep_nesting() {
    assert_eq!(true, validate(br#"[[[[[[[[[[0]]]]]]]]]]"#));
    assert_eq!(false, validate(br#"[[[[[[[[[[0]]]]]]]]]}"#));
}

#[test]
fn validate_empty_fraction_before_exponent() {
    assert_eq!(false, validate(b"[0.e0]"));
}

#[test]
fn validate_compacted_parse_round_trip() {
    // validate(compact(J), parse(compact(J))) accepts well-formed inputs
    let inputs: [&[u8]; 5] = [
        b" { } ",
        b"[ 0.25e-3 , \"a\\tb\", [true, null] ]",
        b" { \"key\" : \"\\\"hello \\/ world\\\"\" } ",
        b"[\"\\uD842\\uDC20\", {\"k\": [-1, 2e9]}]",
        b"[[[]],[]]",
    ];
    for input in inputs {
        let compacted = indolentjson::compact::compact(input);
        let mut parsed: Vec<Node> = Vec::new();
        let mut stack: Vec<u32> = Vec::new();
        indolentjson::parse::parse(&compacted, &mut parsed, &mut stack).unwrap();
        assert!(indolentjson::validate::validate(&compacted, &parsed).is_ok());
    }
}

#[test]
fn validate_node_sums_match_compact_length() {
    // the root node's span, plus one byte for each separating or closing
    // byte of each direct child, accounts for the whole compact document
    let compacted = indolentjson::compact::compact(b"[false, null, true]");
    let mut parsed: Vec<Node> = Vec::new();
    let mut stack: Vec<u32> = Vec::new();
    indolentjson::parse::parse(&compacted, &mut parsed, &mut stack).unwrap();
    assert_eq!(compacted.len() as u32, parsed[0].length_in_bytes);
    let mut sum = 0u32;
    let mut child = 1;
    while child < parsed.len() {
        sum += 1 + parsed[child].length_in_bytes;
        child += 1 + parsed[child].children as usize;
    }
    assert_eq!(parsed[0].length_in_bytes, 1 + sum);
}

#[test]
fn validate_rejects_overrunning_nodes() {
    // a node array whose spans run past the byte array is rejected, not
    // trusted
    let bytes = b"[0]";
    let nodes = [
        Node { children: 1, length_in_bytes: 3 },
        Node { children: 0, length_in_bytes: 9 },
    ];
    assert!(indolentjson::validate::validate(bytes, &nodes).is_err());
}
