use indolentjson::parse::Node;

fn parse(input: &[u8]) -> Vec<Node> {
    let mut output: Vec<Node> = Vec::new();
    let mut stack: Vec<u32> = Vec::new();
    indolentjson::parse::parse(input, &mut output, &mut stack).unwrap();
    output
}

fn node(children: u32, length_in_bytes: u32) -> Node {
    Node { children, length_in_bytes }
}

#[test]
fn parse_empty_array() {
    let result = parse(b"[]");
    assert_eq!(vec![node(0, 2)], result);
}

#[test]
fn parse_nested_arrays() {
    let result = parse(b"[[[]],[]]");
    assert_eq!(vec![node(3, 9), node(1, 4), node(0, 2), node(0, 2)], result);
}

#[test]
fn parse_nested_objects() {
    let result = parse(br#"{"A":{"B":{}},"C":{}}"#);
    assert_eq!(
        vec![
            node(6, 21),
            node(0, 3),
            node(2, 8),
            node(0, 3),
            node(0, 2),
            node(0, 3),
            node(0, 2),
        ],
        result
    );
}

#[test]
fn parse_scalars() {
    let result = parse(br#"[false,null,true]"#);
    assert_eq!(vec![node(3, 17), node(0, 5), node(0, 4), node(0, 4)], result);
}

#[test]
fn parse_strings_and_numbers() {
    let result = parse(br#"{"a":"bc","d":12}"#);
    assert_eq!(
        vec![node(4, 17), node(0, 3), node(0, 4), node(0, 3), node(0, 2)],
        result
    );
}

#[test]
fn parse_unexpected_end_fails() {
    let mut output: Vec<Node> = Vec::new();
    let mut stack: Vec<u32> = Vec::new();
    assert_eq!(
        Err(()),
        indolentjson::parse::parse(b"[1,2", &mut output, &mut stack)
    );
}

#[test]
fn parse_sibling_offsets() {
    // each node's next sibling is found children + 1 entries further on
    let nodes = parse(br#"[[1,2],[3],[]]"#);
    assert_eq!(node(6, 14), nodes[0]);
    let first = 1;
    let second = first + 1 + nodes[first].children as usize;
    let third = second + 1 + nodes[second].children as usize;
    assert_eq!(node(2, 5), nodes[first]);
    assert_eq!(node(1, 3), nodes[second]);
    assert_eq!(node(0, 2), nodes[third]);
}

#[test]
fn parse_composite_length_equation() {
    // a composite's span is one byte plus, for each direct child, the
    // child's span plus its separating or closing byte
    let nodes = parse(br#"{"A":{"B":{}},"C":[0,[]]}"#);
    for i in 0..nodes.len() {
        if nodes[i].children > 0 {
            let mut sum = 0u32;
            let mut child = i + 1;
            let end = i + 1 + nodes[i].children as usize;
            while child < end {
                sum += 1 + nodes[child].length_in_bytes;
                child += 1 + nodes[child].children as usize;
            }
            assert_eq!(nodes[i].length_in_bytes, 1 + sum);
        }
    }
}

#[test]
fn parse_root_spans_whole_input() {
    for input in [
        &br#"[false,null,true]"#[..],
        &br#"{"A":{"B":{}},"C":{}}"#[..],
        &br#"[[[]],[]]"#[..],
    ] {
        let nodes = parse(input);
        assert_eq!(input.len() as u32, nodes[0].length_in_bytes);
    }
}

#[test]
fn parse_leaves_stack_empty_and_appends() {
    let mut output: Vec<Node> = vec![node(9, 9)];
    let mut stack: Vec<u32> = Vec::new();
    indolentjson::parse::parse(b"[1]", &mut output, &mut stack).unwrap();
    assert_eq!(vec![node(9, 9), node(1, 3), node(0, 1)], output);
    assert!(stack.is_empty());
}
