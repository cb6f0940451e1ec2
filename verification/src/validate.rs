//! Strict validation of compact JSON bytes against a parsed node array.
//!
//! The parser takes shortcuts that let it accept some malformed documents.
//! The validator closes that gap: it walks the compact bytes guided by the
//! node array and rejects any deviation from strict JSON.  Literals must be
//! lower case, numbers must have no leading zeros and no empty fraction or
//! exponent, strings may contain no raw control character and no escape
//! other than `\" \\ \b \f \n \r \t \u` (in particular `\/` is rejected:
//! the compactor strips it), and every bracket must match.
//!
//! This assumes the JSON was compacted before parsing.  Compacting may
//! inadvertently turn invalid JSON into valid JSON, so this checks the
//! compact output rather than the original input.

use vstd::prelude::*;

use crate::parse::lemma_members_parse_bounds;
use crate::parse::lemma_scalar_run_bounds;
use crate::parse::lemma_scan_string_bounds;
use crate::parse::lemma_value_parse_bounds;
use crate::parse::members_parse;
use crate::parse::opens_composite;
use crate::parse::parse_model;
use crate::parse::scalar_run;
use crate::parse::scan_string;
use crate::parse::value_parse;
use crate::parse::Node;

verus! {

/// An ASCII decimal digit.
pub open spec fn is_digit(b: u8) -> bool {
    0x30 <= b && b <= 0x39
}

/// Every byte from index `k` on is a decimal digit.
pub open spec fn all_digits_from(s: Seq<u8>, k: int) -> bool {
    forall|j: int| k <= j < s.len() ==> is_digit(#[trigger] s[j])
}

/// Number of leading decimal digits.
pub open spec fn digits_prefix(s: Seq<u8>) -> int
    decreases s.len(),
{
    if s.len() == 0 || !is_digit(s[0]) {
        0
    } else {
        1 + digits_prefix(s.skip(1))
    }
}

/// The digit prefix is as long as the run of digits and no longer.
pub proof fn lemma_digits_prefix_is(s: Seq<u8>, k: int)
    requires
        0 <= k <= s.len(),
        forall|j: int| 0 <= j < k ==> is_digit(#[trigger] s[j]),
        k == s.len() || !is_digit(s[k]),
    ensures
        digits_prefix(s) == k,
    decreases k,
{
    if k == 0 {
    } else {
        lemma_digits_prefix_is(s.skip(1), k - 1);
    }
}

/// A JSON exponent: `e` or `E`, an optional sign, then one or more digits.
pub open spec fn is_exponent(s: Seq<u8>) -> bool {
    if s.len() < 2 {
        false
    } else if s[0] != 0x45 && s[0] != 0x65 {
        false
    } else if s[1] == 0x2B || s[1] == 0x2D {
        s.len() >= 3 && all_digits_from(s, 2)
    } else {
        all_digits_from(s, 1)
    }
}

/// What may follow the integer part of a number: nothing, a fraction of
/// one or more digits with an optional exponent after it, or an exponent.
pub open spec fn is_fraction(s: Seq<u8>) -> bool {
    if s.len() == 0 {
        true
    } else if s.len() < 2 {
        false
    } else if s[0] != 0x2E {
        is_exponent(s)
    } else {
        let d = digits_prefix(s.skip(1));
        if d == 0 {
            false
        } else if d == s.len() - 1 {
            true
        } else {
            is_exponent(s.skip(1 + d))
        }
    }
}

/// Zero or more digits, then what may follow the integer part.
pub open spec fn digits_then_fraction(s: Seq<u8>) -> bool {
    let d = digits_prefix(s);
    if d == s.len() {
        true
    } else {
        is_fraction(s.skip(d))
    }
}

/// A JSON number after the optional minus sign: a single `0`, or a nonzero
/// digit followed by more digits, then an optional fraction and exponent.
pub open spec fn is_number_tail(s: Seq<u8>) -> bool {
    if s.len() == 0 {
        false
    } else if s[0] == 0x30 {
        is_fraction(s.skip(1))
    } else if 0x31 <= s[0] && s[0] <= 0x39 {
        digits_then_fraction(s.skip(1))
    } else {
        false
    }
}

/// String content between the outer quotes: no raw byte below 0x20, and
/// every backslash followed by one of `" \ b f n r t u`.
pub open spec fn string_content_ok(s: Seq<u8>) -> bool
    decreases s.len(),
{
    if s.len() == 0 {
        true
    } else if s[0] == 0x5C {
        if s.len() < 2 {
            false
        } else if s[1] == 0x22 || s[1] == 0x5C || s[1] == 0x62 || s[1] == 0x66 || s[1] == 0x6E
            || s[1] == 0x72 || s[1] == 0x74 || s[1] == 0x75 {
            string_content_ok(s.skip(2))
        } else {
            false
        }
    } else if s[0] < 0x20 {
        false
    } else {
        string_content_ok(s.skip(1))
    }
}

/// A string span as the parser delimits it: at least the two quotes, with
/// well-formed content between them.  (The quotes themselves were found by
/// the parser; only the content is re-checked here.)
pub open spec fn is_string_span(s: Seq<u8>) -> bool {
    s.len() >= 2 && string_content_ok(s.subrange(1, s.len() - 1))
}

/// An object key: a string span starting with a quote.
pub open spec fn is_key(s: Seq<u8>) -> bool {
    s.len() > 0 && s[0] == 0x22 && is_string_span(s)
}

/// An empty object or empty array, exactly two bytes.
pub open spec fn is_empty_composite(s: Seq<u8>) -> bool {
    s.len() == 2 && ((s[0] == 0x7B && s[1] == 0x7D) || (s[0] == 0x5B && s[1] == 0x5D))
}

/// A scalar span: an empty composite, a string, a lower-case literal, or a
/// number.
pub open spec fn is_scalar(s: Seq<u8>) -> bool {
    if is_empty_composite(s) {
        true
    } else if s.len() == 0 {
        false
    } else if s[0] == 0x22 {
        is_string_span(s)
    } else if s[0] == 0x74 {
        s == seq![0x74u8, 0x72u8, 0x75u8, 0x65u8]  // true
    } else if s[0] == 0x66 {
        s == seq![0x66u8, 0x61u8, 0x6Cu8, 0x73u8, 0x65u8]  // false
    } else if s[0] == 0x6E {
        s == seq![0x6Eu8, 0x75u8, 0x6Cu8, 0x6Cu8]  // null
    } else if s[0] == 0x2D {
        is_number_tail(s.skip(1))
    } else if is_digit(s[0]) {
        is_number_tail(s)
    } else {
        false
    }
}

/// A frame of the validator's stack: the index of the last descendant of
/// an open composite, and whether that composite is an object.
#[derive(Clone, Copy)]
pub struct ValidateStack {
    pub end: usize,
    pub is_object: bool,
}

/// The validator's walk from node `idx` on.  `end` is the index of the
/// last descendant of the current composite, `obj` its kind, `key` whether
/// the next node must be an object key, and `stk` the frames of the open
/// composites (the top frame mirrors `end` and `obj`).
pub open spec fn walk(
    bytes: Seq<u8>,
    nodes: Seq<Node>,
    idx: int,
    off: int,
    end: int,
    obj: bool,
    key: bool,
    stk: Seq<ValidateStack>,
) -> bool
    decreases nodes.len() - idx, stk.len() + 1,
{
    if idx < 0 || idx >= nodes.len() {
        false
    } else {
        let node = nodes[idx];
        if key {
            if off < 0 || off + node.length_in_bytes > bytes.len() {
                false
            } else if !is_key(bytes.subrange(off, off + node.length_in_bytes)) {
                false
            } else if off + node.length_in_bytes >= bytes.len() {
                false
            } else if bytes[off + node.length_in_bytes] != 0x3A {
                false
            } else {
                walk(bytes, nodes, idx + 1, off + node.length_in_bytes + 1, end, obj, false, stk)
            }
        } else if node.children > 0 {
            if off < 0 || off >= bytes.len() {
                false
            } else {
                let o = bytes[off];
                if o != 0x7B && o != 0x5B {
                    false
                } else if node.children > nodes.len() - idx - 1 {
                    false
                } else {
                    let obj1 = o == 0x7B;
                    let end1 = idx + node.children;
                    walk(
                        bytes,
                        nodes,
                        idx + 1,
                        off + 1,
                        end1,
                        obj1,
                        obj1,
                        stk.push(ValidateStack { end: end1 as usize, is_object: obj1 }),
                    )
                }
            }
        } else {
            if off < 0 || off + node.length_in_bytes > bytes.len() {
                false
            } else if !is_scalar(bytes.subrange(off, off + node.length_in_bytes)) {
                false
            } else {
                close(bytes, nodes, idx, off + node.length_in_bytes, end, obj, stk)
            }
        }
    }
}

/// After a scalar at node `idx`: as long as `idx` is the last descendant
/// of the current composite, its closing bracket must follow; when the
/// outermost composite closes, the walk accepts.  Otherwise one separator
/// byte is skipped and the walk continues.
pub open spec fn close(
    bytes: Seq<u8>,
    nodes: Seq<Node>,
    idx: int,
    off: int,
    end: int,
    obj: bool,
    stk: Seq<ValidateStack>,
) -> bool
    decreases nodes.len() - idx, stk.len(),
{
    if idx < 0 || idx >= nodes.len() {
        false
    } else if idx == end {
        if off < 0 || off >= bytes.len() {
            false
        } else if bytes[off] != (if obj {
            0x7Du8
        } else {
            0x5Du8
        }) {
            false
        } else if stk.len() <= 1 {
            true
        } else {
            let nxt = stk[stk.len() - 2];
            close(bytes, nodes, idx, off + 1, nxt.end as int, nxt.is_object, stk.drop_last())
        }
    } else {
        walk(bytes, nodes, idx + 1, off + 1, end, obj, obj, stk)
    }
}

/// What `validate` accepts: a single node must span an empty composite;
/// otherwise the walk from the root must accept.
pub open spec fn validate_model(bytes: Seq<u8>, nodes: Seq<Node>) -> bool {
    if nodes.len() == 1 {
        is_empty_composite(bytes)
    } else {
        walk(bytes, nodes, 0, 0, 0, false, false, Seq::empty())
    }
}

/// Validate an empty array or object at the start of the JSON.  The parser
/// assumes that all JSON of length 2 is a single empty array or object, so
/// both bytes are checked here.
fn validate_empty(bytes: &[u8]) -> (r: bool)
    ensures
        r == is_empty_composite(bytes@),
{
    if bytes.len() != 2 {
        return false;
    }
    let char1 = bytes[0];
    let char2 = bytes[1];
    if char1 == 0x7B {
        char2 == 0x7D
    } else if char1 == 0x5B {
        char2 == 0x5D
    } else {
        false
    }
}

/// Validate an exponent: `e` or `E`, an optional sign, then digits.
fn validate_exponent(bytes: &[u8]) -> (r: bool)
    ensures
        r == is_exponent(bytes@),
{
    if bytes.len() < 2 {
        return false;
    }
    let b0 = bytes[0];
    if b0 != 0x45 && b0 != 0x65 {
        return false;
    }
    let b1 = bytes[1];
    let offset: usize = if b1 == 0x2B || b1 == 0x2D {
        if bytes.len() < 3 {
            return false;
        }
        2
    } else {
        1
    };
    let mut j: usize = offset;
    while j < bytes.len()
        invariant
            offset <= j <= bytes@.len(),
            is_exponent(bytes@) == all_digits_from(bytes@, offset as int),
            forall|k: int| offset <= k < j ==> is_digit(#[trigger] bytes@[k]),
        decreases bytes@.len() - j,
    {
        let b = bytes[j];
        if b < 0x30 || b > 0x39 {
            proof {
                assert(!is_digit(bytes@[j as int]));
            }
            return false;
        }
        j = j + 1;
    }
    true
}

/// Count the decimal digits at the front of `bytes` from index `from`.
fn count_digits(bytes: &[u8], from: usize) -> (r: usize)
    requires
        from <= bytes@.len(),
    ensures
        from <= r <= bytes@.len(),
        digits_prefix(bytes@.skip(from as int)) == r - from,
{
    let mut j: usize = from;
    while j < bytes.len()
        invariant
            from <= j <= bytes@.len(),
            forall|k: int| from <= k < j ==> is_digit(#[trigger] bytes@[k]),
        decreases bytes@.len() - j,
    {
        let b = bytes[j];
        if b < 0x30 || b > 0x39 {
            proof {
                let s = bytes@.skip(from as int);
                assert forall|k: int| 0 <= k < j - from implies is_digit(#[trigger] s[k]) by {
                    assert(s[k] == bytes@[from + k]);
                }
                assert(s[j - from] == bytes@[j as int]);
                lemma_digits_prefix_is(s, j - from);
            }
            return j;
        }
        j = j + 1;
    }
    proof {
        let s = bytes@.skip(from as int);
        assert forall|k: int| 0 <= k < j - from implies is_digit(#[trigger] s[k]) by {
            assert(s[k] == bytes@[from + k]);
        }
        lemma_digits_prefix_is(s, j - from);
    }
    j
}

/// Validate the number from a decimal point or exponent onwards.
fn validate_fraction(bytes: &[u8]) -> (r: bool)
    ensures
        r == is_fraction(bytes@),
{
    if bytes.len() == 0 {
        // the number had no fraction or exponent
        return true;
    }
    if bytes.len() < 2 {
        // a digit must follow the decimal point or exponent
        return false;
    }
    if bytes[0] != 0x2E {
        // no fraction, but an exponent
        return validate_exponent(bytes);
    }
    let d = count_digits(bytes, 1);
    if d == 1 {
        return false;
    }
    if d == bytes.len() {
        return true;
    }
    let r = validate_exponent(&bytes[d..bytes.len()]);
    proof {
        assert(bytes@.subrange(d as int, bytes@.len() as int) =~= bytes@.skip(1).skip(
            (d - 1) as int,
        ));
    }
    r
}

/// Validate the digits of a number up to a decimal point or exponent.
fn validate_digits(bytes: &[u8]) -> (r: bool)
    ensures
        r == digits_then_fraction(bytes@),
{
    let d = count_digits(bytes, 0);
    proof {
        assert(bytes@.skip(0) =~= bytes@);
    }
    if d == bytes.len() {
        return true;
    }
    let r = validate_fraction(&bytes[d..bytes.len()]);
    proof {
        assert(bytes@.subrange(d as int, bytes@.len() as int) =~= bytes@.skip(d as int));
    }
    r
}

/// Validate a negative number: the bytes after the minus sign.
fn validate_negative(bytes: &[u8]) -> (r: bool)
    ensures
        r == is_number_tail(bytes@),
{
    if bytes.len() == 0 {
        return false;
    }
    let b0 = bytes[0];
    if b0 == 0x30 {
        let r = validate_fraction(&bytes[1..bytes.len()]);
        proof {
            assert(bytes@.subrange(1, bytes@.len() as int) =~= bytes@.skip(1));
        }
        r
    } else if 0x31 <= b0 && b0 <= 0x39 {
        let r = validate_digits(&bytes[1..bytes.len()]);
        proof {
            assert(bytes@.subrange(1, bytes@.len() as int) =~= bytes@.skip(1));
        }
        r
    } else {
        false
    }
}

/// Validate a string span: the parser found the outer quotes, so only the
/// content between them is checked.
fn validate_string(bytes: &[u8]) -> (r: bool)
    ensures
        r == is_string_span(bytes@),
{
    if bytes.len() < 2 {
        return false;
    }
    let ghost content = bytes@.subrange(1, bytes@.len() - 1);
    let stop = bytes.len() - 1;
    let mut j: usize = 1;
    proof {
        assert(content.skip(0) =~= content);
    }
    while j < stop
        invariant
            1 <= j <= stop,
            stop == bytes@.len() - 1,
            bytes@.len() >= 2,
            content == bytes@.subrange(1, bytes@.len() - 1),
            string_content_ok(content) == string_content_ok(content.skip(j - 1)),
        decreases stop - j,
    {
        let ghost suffix = content.skip(j - 1);
        let c = bytes[j];
        proof {
            assert(suffix[0] == bytes@[j as int]);
        }
        if c == 0x5C {
            if j + 1 >= stop {
                proof {
                    assert(suffix.len() < 2);
                }
                return false;
            }
            let e = bytes[j + 1];
            proof {
                assert(suffix[1] == bytes@[j + 1]);
            }
            if e == 0x22 || e == 0x5C || e == 0x62 || e == 0x66 || e == 0x6E || e == 0x72 || e
                == 0x74 || e == 0x75 {
                j = j + 2;
                proof {
                    assert(suffix.skip(2) =~= content.skip(j - 1));
                }
            } else {
                return false;
            }
        } else if c < 0x20 {
            return false;
        } else {
            j = j + 1;
            proof {
                assert(suffix.skip(1) =~= content.skip(j - 1));
            }
        }
    }
    proof {
        assert(content.skip(stop - 1) =~= Seq::<u8>::empty());
    }
    true
}

/// Validate a JSON object key: it must start with a quote, since the
/// parser assumes the byte after `{` or `,` inside an object is one.
fn validate_key(bytes: &[u8]) -> (r: bool)
    ensures
        r == is_key(bytes@),
{
    if bytes.len() == 0 {
        return false;
    }
    if bytes[0] == 0x22 {
        validate_string(bytes)
    } else {
        false
    }
}

/// Validate a scalar span: an empty composite, a string, a literal, or a
/// number.
fn validate_scalar(bytes: &[u8]) -> (r: bool)
    ensures
        r == is_scalar(bytes@),
{
    if validate_empty(bytes) {
        return true;
    }
    if bytes.len() == 0 {
        return false;
    }
    let b0 = bytes[0];
    if b0 == 0x22 {
        validate_string(bytes)
    } else if b0 == 0x74 {
        let r = bytes.len() == 4 && bytes[1] == 0x72 && bytes[2] == 0x75 && bytes[3] == 0x65;
        proof {
            if r {
                assert(bytes@ =~= seq![0x74u8, 0x72u8, 0x75u8, 0x65u8]);
            }
        }
        r
    } else if b0 == 0x66 {
        let r = bytes.len() == 5 && bytes[1] == 0x61 && bytes[2] == 0x6C && bytes[3] == 0x73
            && bytes[4] == 0x65;
        proof {
            if r {
                assert(bytes@ =~= seq![0x66u8, 0x61u8, 0x6Cu8, 0x73u8, 0x65u8]);
            }
        }
        r
    } else if b0 == 0x6E {
        let r = bytes.len() == 4 && bytes[1] == 0x75 && bytes[2] == 0x6C && bytes[3] == 0x6C;
        proof {
            if r {
                assert(bytes@ =~= seq![0x6Eu8, 0x75u8, 0x6Cu8, 0x6Cu8]);
            }
        }
        r
    } else if b0 == 0x2D {
        let r = validate_negative(&bytes[1..bytes.len()]);
        proof {
            assert(bytes@.subrange(1, bytes@.len() as int) =~= bytes@.skip(1));
        }
        r
    } else if 0x30 <= b0 && b0 <= 0x39 {
        if b0 == 0x30 {
            let r = validate_fraction(&bytes[1..bytes.len()]);
            proof {
                assert(bytes@.subrange(1, bytes@.len() as int) =~= bytes@.skip(1));
            }
            r
        } else {
            let r = validate_digits(&bytes[1..bytes.len()]);
            proof {
                assert(bytes@.subrange(1, bytes@.len() as int) =~= bytes@.skip(1));
            }
            r
        }
    } else {
        false
    }
}

/// Validate that parsed JSON is actually strict JSON.
///
/// Walks the compact bytes guided by the node array and accepts exactly
/// when the walk model does: every deviation from strict JSON, and every
/// node span that would run past the byte array, is rejected.
pub fn validate(json_bytes: &[u8], json_nodes: &[Node]) -> (r: Result<(), ()>)
    requires
        json_bytes@.len() < usize::MAX,
    ensures
        r is Ok <==> validate_model(json_bytes@, json_nodes@),
{
    if validate_(json_bytes, json_nodes) {
        Ok(())
    } else {
        Err(())
    }
}

#[verifier::rlimit(100)]
fn validate_(json_bytes: &[u8], json_nodes: &[Node]) -> (r: bool)
    requires
        json_bytes@.len() < usize::MAX,
    ensures
        r == validate_model(json_bytes@, json_nodes@),
{
    let ghost bs = json_bytes@;
    let ghost ns = json_nodes@;
    let ghost target = validate_model(bs, ns);
    if json_nodes.len() == 1 {
        return validate_empty(json_bytes);
    }
    let mut stack: Vec<ValidateStack> = Vec::new();
    let mut expecting_key = false;
    let mut offset: usize = 0;
    let mut end: usize = 0;
    let mut is_object = false;
    let mut index: usize = 0;
    proof {
        assert(stack@ =~= Seq::<ValidateStack>::empty());
    }
    while index < json_nodes.len()
        invariant
            bs == json_bytes@,
            ns == json_nodes@,
            ns.len() != 1,
            index <= ns.len(),
            offset <= bs.len() + 1,
            bs.len() < usize::MAX,
            target == validate_model(bs, ns),
            walk(
                bs,
                ns,
                index as int,
                offset as int,
                end as int,
                is_object,
                expecting_key,
                stack@,
            ) == target,
        decreases ns.len() - index,
    {
        let node = json_nodes[index];
        let node_len = node.length_in_bytes as usize;
        if expecting_key {
            if offset > json_bytes.len() || json_bytes.len() - offset < node_len {
                return false;
            }
            let start = offset;
            let new_offset = offset + node_len;
            let ok = validate_key(&json_bytes[start..new_offset]);
            if !ok {
                return false;
            }
            if new_offset >= json_bytes.len() {
                return false;
            }
            if json_bytes[new_offset] != 0x3A {
                return false;
            }
            offset = new_offset + 1;
            expecting_key = false;
            index = index + 1;
        } else if node.children > 0 {
            if offset >= json_bytes.len() {
                return false;
            }
            let o = json_bytes[offset];
            if o != 0x7B && o != 0x5B {
                return false;
            }
            if node.children as usize > json_nodes.len() - index - 1 {
                return false;
            }
            is_object = o == 0x7B;
            end = index + node.children as usize;
            stack.push(ValidateStack { end: end, is_object: is_object });
            expecting_key = is_object;
            offset = offset + 1;
            index = index + 1;
        } else {
            if offset > json_bytes.len() || json_bytes.len() - offset < node_len {
                return false;
            }
            let start = offset;
            let new_offset = offset + node_len;
            let ok = validate_scalar(&json_bytes[start..new_offset]);
            if !ok {
                return false;
            }
            offset = new_offset;
            // close every composite whose last descendant this node is
            loop
                invariant_except_break
                    close(
                        bs,
                        ns,
                        index as int,
                        offset as int,
                        end as int,
                        is_object,
                        stack@,
                    ) == target,
                invariant
                    bs == json_bytes@,
                    ns == json_nodes@,
                    index < ns.len(),
                    offset <= bs.len(),
                    bs.len() < usize::MAX,
                    target == validate_model(bs, ns),
                ensures
                    index != end,
                    offset <= bs.len(),
                    walk(
                        bs,
                        ns,
                        index + 1,
                        offset + 1,
                        end as int,
                        is_object,
                        is_object,
                        stack@,
                    ) == target,
                decreases stack@.len(),
            {
                if index != end {
                    break ;
                }
                if offset >= json_bytes.len() {
                    proof {
                        assert(!close(bs, ns, index as int, offset as int, end as int, is_object,
                            stack@));
                    }
                    return false;
                }
                let closer: u8 = if is_object {
                    0x7D
                } else {
                    0x5D
                };
                if json_bytes[offset] != closer {
                    proof {
                        assert(!close(bs, ns, index as int, offset as int, end as int, is_object,
                            stack@));
                    }
                    return false;
                }
                offset = offset + 1;
                if stack.len() <= 1 {
                    // the outermost composite has closed
                    return true;
                }
                let ghost stk0 = stack@;
                let _ = stack.pop();
                let nxt = stack[stack.len() - 1];
                end = nxt.end;
                is_object = nxt.is_object;
                proof {
                    assert(stack@ =~= stk0.drop_last());
                    assert(stk0[stk0.len() - 2] == nxt);
                    assert(close(bs, ns, index as int, offset as int, end as int, is_object,
                        stack@) == target);
                }
                if index != end {
                    proof {
                        assert(walk(bs, ns, index + 1, offset + 1, end as int, is_object,
                            is_object, stack@) == target);
                    }
                    break ;
                }
            }
            offset = offset + 1;
            expecting_key = is_object;
            index = index + 1;
        }
    }
    // the node array ran out before the outermost composite closed
    false
}

/// Strictness of the well-formed value at the head of the input: every
/// scalar span is a valid strict scalar and every object key is a valid
/// string.  (The shape itself is `value_parse`'s.)
pub open spec fn strict_value(s: Seq<u8>) -> bool
    decreases s.len(), 0int,
    via strict_value_decreases
{
    if s.len() == 0 {
        false
    } else if s[0] == 0x22 {
        match scan_string(s.skip(1)) {
            None => false,
            Some(n) => is_scalar(s.take(1 + n)),
        }
    } else if s[0] == 0x5B || s[0] == 0x7B {
        if s.len() < 2 {
            false
        } else {
            let closer: u8 = if s[0] == 0x7B {
                0x7Du8
            } else {
                0x5Du8
            };
            if s[1] == closer {
                true
            } else {
                strict_members(s.skip(1), s[0] == 0x7B)
            }
        }
    } else {
        let run = scalar_run(s);
        run >= 1 && is_scalar(s.take(run))
    }
}

/// Strictness of a non-empty member list, starting just after the opening
/// bracket.
pub open spec fn strict_members(s: Seq<u8>, obj: bool) -> bool
    decreases s.len(), 1int,
    via strict_members_decreases
{
    let kl: int = if obj {
        if s.len() == 0 || s[0] != 0x22 {
            -1
        } else {
            match scan_string(s.skip(1)) {
                None => -1,
                Some(n) => if 1 <= n && 1 + n < s.len() && s[1 + n] == 0x3A {
                    2 + n
                } else {
                    -1
                },
            }
        }
    } else {
        0
    };
    if kl < 0 {
        false
    } else {
        &&& (obj ==> is_key(s.take(kl - 1)))
        &&& match value_parse(s.skip(kl)) {
            None => false,
            Some(v) => {
                if v.0 < 1 || v.0 >= s.skip(kl).len() {
                    false
                } else {
                    &&& strict_value(s.skip(kl))
                    &&& (s.skip(kl)[v.0] == 0x2C ==> strict_members(
                        s.skip(kl).skip(v.0 + 1),
                        obj,
                    ))
                }
            },
        }
    }
}

#[via_fn]
proof fn strict_value_decreases(s: Seq<u8>) {
}

#[via_fn]
proof fn strict_members_decreases(s: Seq<u8>, obj: bool) {
    if s.len() > 0 {
        lemma_scan_string_bounds(s.skip(1));
    }
    if s.len() > 0 {
        let kl: int = if obj {
            if s[0] != 0x22 {
                -1
            } else {
                match scan_string(s.skip(1)) {
                    None => -1,
                    Some(n) => if 1 <= n && 1 + n < s.len() && s[1 + n] == 0x3A {
                        2 + n
                    } else {
                        -1
                    },
                }
            }
        } else {
            0
        };
        if 0 <= kl <= s.len() {
            lemma_value_parse_bounds(s.skip(kl));
        }
    } else {
        lemma_value_parse_bounds(s);
    }
}

/// The last byte of a well-formed member list is the matching closing
/// bracket.
proof fn lemma_members_last_byte(s: Seq<u8>, obj: bool)
    requires
        members_parse(s, obj) is Some,
    ensures
        ({
            let m = members_parse(s, obj)->Some_0;
            &&& 0 < m.0 <= s.len()
            &&& s[m.0 - 1] == (if obj {
                0x7Du8
            } else {
                0x5Du8
            })
        }),
    decreases s.len(),
{
    crate::parse::lemma_members_parse_bounds(s, obj);
    let kl: int = if obj {
        2 + scan_string(s.skip(1))->Some_0
    } else {
        0
    };
    let s1 = s.skip(kl);
    let v = value_parse(s1)->Some_0;
    lemma_value_parse_bounds(s1);
    if obj {
        lemma_scan_string_bounds(s.skip(1));
    }
    if s1[v.0] == 0x2C {
        lemma_members_last_byte(s1.skip(v.0 + 1), obj);
        let m2 = members_parse(s1.skip(v.0 + 1), obj)->Some_0;
        assert(s1.skip(v.0 + 1)[m2.0 - 1] == s[kl + v.0 + 1 + m2.0 - 1]);
    } else {
        assert(s1[v.0] == s[kl + v.0]);
    }
}

/// The validator's walk over one strictly well-formed value whose node
/// region stands at `idx`: it checks the value's spans and ends in the
/// closing phase at the value's last node and last byte.  A non-empty
/// composite walked with an empty stack is the root: the walk accepts.
#[verifier::rlimit(100)]
proof fn lemma_walk_value(
    bytes: Seq<u8>,
    nodes: Seq<Node>,
    idx: int,
    off: int,
    end: int,
    obj: bool,
    stk: Seq<ValidateStack>,
)
    requires
        bytes.len() <= 0x7FFF_FFFF,
        nodes.len() <= 0x7FFF_FFFF,
        value_parse(bytes.skip(off)) is Some,
        strict_value(bytes.skip(off)),
        0 <= off,
        off + value_parse(bytes.skip(off))->Some_0.0 <= bytes.len(),
        0 <= idx,
        idx + value_parse(bytes.skip(off))->Some_0.1.len() <= nodes.len(),
        forall|j: int|
            0 <= j < value_parse(bytes.skip(off))->Some_0.1.len() ==> nodes[idx + j]
                == value_parse(bytes.skip(off))->Some_0.1[j],
        stk.len() > 0 ==> 0 <= end <= usize::MAX && stk.last() == (ValidateStack {
            end: end as usize,
            is_object: obj,
        }),
    ensures
        ({
            let v = value_parse(bytes.skip(off))->Some_0;
            if stk.len() == 0 && opens_composite(bytes.skip(off)) {
                walk(bytes, nodes, idx, off, end, obj, false, stk) == true
            } else {
                walk(bytes, nodes, idx, off, end, obj, false, stk) == close(
                    bytes,
                    nodes,
                    idx + v.1.len() - 1,
                    off + v.0,
                    end,
                    obj,
                    stk,
                )
            }
        }),
    decreases bytes.len() - off, 0int,
{
    let u = bytes.skip(off);
    let v = value_parse(u)->Some_0;
    lemma_value_parse_bounds(u);
    let c = u[0];
    assert(bytes[off] == c);
    let node0 = v.1[0];
    assert(nodes[idx] == node0);
    if c == 0x22 {
        let n = scan_string(u.skip(1))->Some_0;
        lemma_scan_string_bounds(u.skip(1));
        assert(node0 == Node { children: 0, length_in_bytes: (1 + n) as u32 });
        assert(bytes.subrange(off, off + node0.length_in_bytes) =~= u.take(1 + n));
        assert(is_scalar(u.take(1 + n)));
    } else if c == 0x5B || c == 0x7B {
        let closer: u8 = if c == 0x7B {
            0x7Du8
        } else {
            0x5Du8
        };
        if u[1] == closer {
            assert(node0 == Node { children: 0, length_in_bytes: 2 });
            assert(bytes.subrange(off, off + 2) =~= u.take(2));
            assert(is_scalar(u.take(2))) by {
                assert(u.take(2).len() == 2 && u.take(2)[0] == c && u.take(2)[1] == closer);
            }
        } else {
            let objv = c == 0x7B;
            let m = members_parse(u.skip(1), objv)->Some_0;
            lemma_members_parse_bounds(u.skip(1), objv);
            assert(v.1 == seq![
                Node { children: m.1.len() as u32, length_in_bytes: (1 + m.0) as u32 },
            ] + m.1);
            assert(node0.children == m.1.len());
            assert(node0.children > 0);
            let end1 = idx + node0.children;
            assert(end1 == idx + m.1.len());
            let frame = ValidateStack { end: end1 as usize, is_object: objv };
            let stk1 = stk.push(frame);
            assert(stk1.last() == frame && stk1[stk1.len() - 1] == frame);
            assert(u.skip(1) =~= bytes.skip(off + 1));
            assert forall|j: int| 0 <= j < m.1.len() implies nodes[idx + 1 + j] == m.1[j] by {
                assert(v.1[1 + j] == m.1[j]);
            }
            lemma_walk_members(bytes, nodes, idx + 1, off + 1, objv, stk1, end1);
            lemma_members_last_byte(u.skip(1), objv);
            assert(u.skip(1)[m.0 - 1] == bytes[off + m.0]);
            assert(bytes[off + m.0] == (if objv {
                0x7Du8
            } else {
                0x5Du8
            }));
            if stk.len() == 0 {
                assert(stk1.len() <= 1);
                assert(opens_composite(u));
                assert(close(bytes, nodes, end1, off + m.0, end1, objv, stk1) == true);
            } else {
                assert(stk1.len() > 1);
                assert(stk1[stk1.len() - 2] == stk.last());
                assert(stk1.drop_last() =~= stk);
                assert(close(bytes, nodes, end1, off + m.0, end1, objv, stk1) == close(
                    bytes,
                    nodes,
                    end1,
                    off + m.0 + 1,
                    end,
                    obj,
                    stk,
                ));
                assert(idx + v.1.len() - 1 == end1);
                assert(off + v.0 == off + m.0 + 1);
            }
        }
    } else {
        let run = scalar_run(u);
        lemma_scalar_run_bounds(u);
        assert(node0 == Node { children: 0, length_in_bytes: run as u32 });
        assert(bytes.subrange(off, off + run) =~= u.take(run));
        assert(is_scalar(u.take(run)));
    }
}

/// The validator's walk over a strictly well-formed member list: it checks
/// every key and value span and ends in the closing phase at the list's
/// last node, looking at the closing bracket.
#[verifier::rlimit(100)]
proof fn lemma_walk_members(
    bytes: Seq<u8>,
    nodes: Seq<Node>,
    idx: int,
    off: int,
    obj: bool,
    stk: Seq<ValidateStack>,
    end1: int,
)
    requires
        bytes.len() <= 0x7FFF_FFFF,
        nodes.len() <= 0x7FFF_FFFF,
        members_parse(bytes.skip(off), obj) is Some,
        strict_members(bytes.skip(off), obj),
        0 <= off,
        off + members_parse(bytes.skip(off), obj)->Some_0.0 <= bytes.len(),
        0 <= idx,
        idx + members_parse(bytes.skip(off), obj)->Some_0.1.len() <= nodes.len(),
        forall|j: int|
            0 <= j < members_parse(bytes.skip(off), obj)->Some_0.1.len() ==> nodes[idx + j]
                == members_parse(bytes.skip(off), obj)->Some_0.1[j],
        end1 == idx + members_parse(bytes.skip(off), obj)->Some_0.1.len() - 1,
        stk.len() > 0,
        stk.last() == (ValidateStack { end: end1 as usize, is_object: obj }),
    ensures
        walk(bytes, nodes, idx, off, end1, obj, obj, stk) == close(
            bytes,
            nodes,
            end1,
            off + members_parse(bytes.skip(off), obj)->Some_0.0 - 1,
            end1,
            obj,
            stk,
        ),
    decreases bytes.len() - off, 1int,
{
    let u = bytes.skip(off);
    let m = members_parse(u, obj)->Some_0;
    lemma_members_parse_bounds(u, obj);
    let kl: int = if obj {
        2 + scan_string(u.skip(1))->Some_0
    } else {
        0
    };
    let keyn: int = if obj {
        1
    } else {
        0
    };
    let s1 = u.skip(kl);
    let v = value_parse(s1)->Some_0;
    lemma_value_parse_bounds(s1);
    if obj {
        let n = scan_string(u.skip(1))->Some_0;
        lemma_scan_string_bounds(u.skip(1));
        assert(kl == 2 + n);
        assert(nodes[idx] == m.1[0]);
        assert(m.1[0] == Node { children: 0, length_in_bytes: (kl - 1) as u32 });
        assert(bytes.subrange(off, off + (kl - 1)) =~= u.take(kl - 1));
        assert(is_key(u.take(kl - 1)));
        assert(u[kl - 1] == bytes[off + kl - 1]);
        assert(bytes[off + kl - 1] == 0x3A);
    }
    assert(s1 =~= bytes.skip(off + kl));
    let sep = s1[v.0];
    assert(1 <= v.0 < s1.len());
    if sep == 0x2C {
        let nxt = s1.skip(v.0 + 1);
        let m2 = members_parse(nxt, obj)->Some_0;
        lemma_members_parse_bounds(nxt, obj);
        assert(m.1 == (if obj {
            seq![Node { children: 0, length_in_bytes: (kl - 1) as u32 }]
        } else {
            Seq::<Node>::empty()
        }) + v.1 + m2.1);
        assert forall|j: int| 0 <= j < v.1.len() implies nodes[idx + keyn + j] == v.1[j] by {
            assert(m.1[keyn + j] == v.1[j]);
        }
        lemma_walk_value(bytes, nodes, idx + keyn, off + kl, end1, obj, stk);
        let vl = idx + keyn + v.1.len() - 1;
        assert(vl < end1);
        assert(close(bytes, nodes, vl, off + kl + v.0, end1, obj, stk) == walk(
            bytes,
            nodes,
            vl + 1,
            off + kl + v.0 + 1,
            end1,
            obj,
            obj,
            stk,
        ));
        assert(nxt =~= bytes.skip(off + kl + v.0 + 1));
        assert forall|j: int| 0 <= j < m2.1.len() implies nodes[(idx + keyn + v.1.len()) + j]
            == m2.1[j] by {
            assert(m.1[keyn + v.1.len() + j] == m2.1[j]);
        }
        assert(end1 == (idx + keyn + v.1.len()) + m2.1.len() - 1);
        lemma_walk_members(bytes, nodes, idx + keyn + v.1.len(), off + kl + v.0 + 1, obj, stk, end1);
        assert(off + kl + v.0 + 1 + m2.0 - 1 == off + m.0 - 1);
    } else {
        assert(m.1 == (if obj {
            seq![Node { children: 0, length_in_bytes: (kl - 1) as u32 }]
        } else {
            Seq::<Node>::empty()
        }) + v.1);
        assert forall|j: int| 0 <= j < v.1.len() implies nodes[idx + keyn + j] == v.1[j] by {
            assert(m.1[keyn + j] == v.1[j]);
        }
        lemma_walk_value(bytes, nodes, idx + keyn, off + kl, end1, obj, stk);
        assert(idx + keyn + v.1.len() - 1 == end1);
        assert(off + kl + v.0 == off + m.0 - 1);
    }
}

/// Law: the validator accepts the node array of a strictly well-formed
/// compact document.
pub proof fn lemma_validate_complete(s: Seq<u8>, nodes: Seq<Node>)
    requires
        s.len() <= 0x7FFF_FFFF,
        s.len() >= 1,
        s[0] == 0x5B || s[0] == 0x7B,
        value_parse(s) matches Some(v) && v.0 == s.len(),
        strict_value(s),
        nodes == value_parse(s)->Some_0.1,
    ensures
        validate_model(s, nodes),
{
    let v = value_parse(s)->Some_0;
    lemma_value_parse_bounds(s);
    if nodes.len() == 1 {
        if opens_composite(s) {
            lemma_members_parse_bounds(s.skip(1), s[0] == 0x7B);
            assert(false);
        }
        assert(is_empty_composite(s));
    } else {
        assert(s.skip(0) =~= s);
        assert(opens_composite(s)) by {
            if s.len() >= 2 && s[1] == (if s[0] == 0x7B {
                0x7Du8
            } else {
                0x5Du8
            }) {
                assert(v.1.len() == 1);
            }
        }
        lemma_walk_value(s, nodes, 0, 0, 0, false, Seq::empty());
    }
}

/// Law: parsing a strictly well-formed compact document succeeds, and
/// validating its bytes against the parsed nodes succeeds too.
pub proof fn lemma_parse_validate_round_trip(s: Seq<u8>)
    requires
        s.len() <= 0x7FFF_FFFF,
        s.len() >= 1,
        s[0] == 0x5B || s[0] == 0x7B,
        value_parse(s) matches Some(v) && v.0 == s.len(),
        strict_value(s),
    ensures
        parse_model(s, Seq::empty()) is Some,
        validate_model(s, parse_model(s, Seq::empty())->Some_0),
{
    let v = value_parse(s)->Some_0;
    crate::parse::lemma_parse_complete(s, Seq::empty());
    assert(Seq::<Node>::empty() + v.1 =~= v.1);
    lemma_validate_complete(s, v.1);
}

} // verus!
