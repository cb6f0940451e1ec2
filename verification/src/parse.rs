//! Structural parsing of compact JSON into a flat node array.
//!
//! Parsed JSON is stored as a byte array of compact JSON and an array of
//! nodes.  Each node represents a JSON object, array or value.
//!
//! The `children` field is the total number of descendants under a node.
//! The child nodes come directly after their parent in the array, so the
//! next sibling of a node is found at an offset of `children + 1` into the
//! array.
//!
//! The `length_in_bytes` field gives the length of the value in bytes,
//! which lets a node's byte offset be computed: the root node is at byte 0,
//! the first child starts at its parent's offset + 1, and each subsequent
//! child starts 1 byte after the end of the previous one.
//!
//! JSON scalars never have children and are identified by their first byte:
//! `t` (true), `f` (false), `n` (null), `"` (string), `-` or a digit
//! (number).  Arrays start with `[`; objects start with `{`, and their
//! children alternate between string keys and values.
//!
//! The parser is a two-phase state machine over the remaining input, with a
//! stack of open composites.  It assumes its input has been compacted and
//! takes shortcuts that accept some malformed documents; the validator
//! closes that gap.  Its behaviour is specified exactly by the recursive
//! model below.

use vstd::prelude::*;

verus! {

/// A structural descriptor in the flat node array.
#[derive(Clone, Copy, PartialEq, Eq, Structural, Debug)]
pub struct Node {
    /// Total number of descendant nodes following this one in the array.
    pub children: u32,
    /// Length of this value's span in the compact byte stream.
    pub length_in_bytes: u32,
}

/// Bytes consumed by the string scanner after an opening quote, including
/// the closing quote; `None` when the input ends inside the string.  A
/// backslash unconditionally consumes the byte after it.
pub open spec fn scan_string(s: Seq<u8>) -> Option<int>
    decreases s.len(),
{
    if s.len() == 0 {
        None
    } else if s[0] == 0x22 {
        Some(1)
    } else if s[0] == 0x5C {
        if s.len() < 2 {
            None
        } else {
            match scan_string(s.skip(2)) {
                None => None,
                Some(n) => Some(2 + n),
            }
        }
    } else {
        match scan_string(s.skip(1)) {
            None => None,
            Some(n) => Some(1 + n),
        }
    }
}

/// Bytes consumed by the scalar scanner, terminator included, and whether
/// the terminator was a comma (`true`) or a closing bracket or brace
/// (`false`).  The fold `b & 0xDF == 0x5D` recognizes both `]` and `}`.
pub open spec fn scan_scalar(s: Seq<u8>) -> Option<(int, bool)>
    decreases s.len(),
{
    if s.len() == 0 {
        None
    } else if s[0] == 0x2C {
        Some((1, true))
    } else if (s[0] & 0xDF) == 0x5D {
        Some((1, false))
    } else {
        match scan_scalar(s.skip(1)) {
            None => None,
            Some(nc) => Some((1 + nc.0, nc.1)),
        }
    }
}

/// Phase of the parser that closes finished composites.  Pops the top
/// stack entry, finalizes the placeholder node it points at, and either
/// returns (stack empty), closes another composite, or starts the next
/// value after a comma.  With an empty stack it falls through to the
/// value phase (this is how parsing starts).
pub open spec fn phase_end(s: Seq<u8>, out: Seq<Node>, stk: Seq<u32>, pobj: bool) -> Option<
    Seq<Node>,
>
    decreases s.len(), 2int,
{
    if stk.len() == 0 {
        phase_b(s, out, stk, pobj)
    } else {
        let e = stk.last();
        let stk1 = stk.drop_last();
        let off = (e >> 1) as int;
        if off >= out.len() {
            None
        } else {
            let stored = out[off].length_in_bytes as int;
            if stored < s.len() {
                None
            } else {
                let out1 = out.update(
                    off,
                    Node {
                        children: (out.len() - off - 1) as u32,
                        length_in_bytes: (stored - s.len()) as u32,
                    },
                );
                if stk1.len() == 0 {
                    Some(out1)
                } else {
                    let pobj1 = (stk1.last() & 1) == 1;
                    if s.len() == 0 {
                        None
                    } else if s[0] == 0x2C {
                        phase_b(s.skip(1), out1, stk1, pobj1)
                    } else {
                        phase_end(s.skip(1), out1, stk1, pobj1)
                    }
                }
            }
        }
    }
}

/// A successful string scan consumes between one byte and the whole input.
pub proof fn lemma_scan_string_bounds(s: Seq<u8>)
    ensures
        scan_string(s) matches Some(n) ==> 1 <= n <= s.len(),
    decreases s.len(),
{
    if s.len() == 0 {
    } else if s[0] == 0x22 {
    } else if s[0] == 0x5C {
        if s.len() >= 2 {
            lemma_scan_string_bounds(s.skip(2));
        }
    } else {
        lemma_scan_string_bounds(s.skip(1));
    }
}

/// A successful scalar scan consumes between one byte and the whole input.
pub proof fn lemma_scan_scalar_bounds(s: Seq<u8>)
    ensures
        scan_scalar(s) matches Some(nc) ==> 1 <= nc.0 <= s.len(),
    decreases s.len(),
{
    if s.len() == 0 {
    } else if s[0] == 0x2C {
    } else if (s[0] & 0xDF) == 0x5D {
    } else {
        lemma_scan_scalar_bounds(s.skip(1));
    }
}

/// Phase of the parser that starts a value.  Inside an object it first
/// consumes a string key and the colon after it.
pub open spec fn phase_b(s: Seq<u8>, out: Seq<Node>, stk: Seq<u32>, pobj: bool) -> Option<
    Seq<Node>,
>
    decreases s.len(), 1int,
    via phase_b_decreases
{
    if pobj {
        if s.len() == 0 {
            None
        } else {
            match scan_string(s.skip(1)) {
                None => None,
                Some(n) => {
                    let out1 = out.push(Node { children: 0, length_in_bytes: (1 + n) as u32 });
                    if s.len() < 2 + n {
                        None
                    } else {
                        phase_value(s.skip(2 + n), out1, stk, pobj)
                    }
                },
            }
        }
    } else {
        phase_value(s, out, stk, pobj)
    }
}

#[via_fn]
proof fn phase_b_decreases(s: Seq<u8>, out: Seq<Node>, stk: Seq<u32>, pobj: bool) {
    if s.len() > 0 {
        lemma_scan_string_bounds(s.skip(1));
    }
}

/// The value part of the start phase: a composite opens (or is emitted
/// whole when empty), a string or scalar is scanned and emitted.
pub open spec fn phase_value(s: Seq<u8>, out: Seq<Node>, stk: Seq<u32>, pobj: bool) -> Option<
    Seq<Node>,
>
    decreases s.len(), 0int,
    via phase_value_decreases
{
    if s.len() == 0 {
        None
    } else {
        let start = s.len();
        let c = s[0];
        if c == 0x7B || c == 0x5B {
            if s.len() < 2 {
                None
            } else {
                let closer: u8 = if c == 0x7B {
                    0x7D
                } else {
                    0x5D
                };
                if s[1] == closer {
                    let out1 = out.push(Node { children: 0, length_in_bytes: 2 });
                    value_end(s.skip(2), out1, stk, pobj)
                } else {
                    let entry = ((out.len() as u32) << 1) | (if c == 0x7B {
                        1u32
                    } else {
                        0u32
                    });
                    let out1 = out.push(Node { children: 0, length_in_bytes: start as u32 });
                    phase_b(s.skip(1), out1, stk.push(entry), c == 0x7B)
                }
            }
        } else if c == 0x22 {
            match scan_string(s.skip(1)) {
                None => None,
                Some(n) => {
                    let out1 = out.push(Node { children: 0, length_in_bytes: (1 + n) as u32 });
                    value_end(s.skip(1 + n), out1, stk, pobj)
                },
            }
        } else {
            match scan_scalar(s.skip(1)) {
                None => None,
                Some(nc) => {
                    let out1 = out.push(Node { children: 0, length_in_bytes: nc.0 as u32 });
                    if nc.1 {
                        phase_b(s.skip(1 + nc.0), out1, stk, pobj)
                    } else {
                        phase_end(s.skip(1 + nc.0), out1, stk, pobj)
                    }
                },
            }
        }
    }
}

#[via_fn]
proof fn phase_value_decreases(s: Seq<u8>, out: Seq<Node>, stk: Seq<u32>, pobj: bool) {
    if s.len() > 0 {
        lemma_scan_string_bounds(s.skip(1));
        lemma_scan_scalar_bounds(s.skip(1));
    }
}

/// After a string or an empty composite: a comma starts the next value,
/// any other byte closes the enclosing composite.
pub open spec fn value_end(s: Seq<u8>, out: Seq<Node>, stk: Seq<u32>, pobj: bool) -> Option<
    Seq<Node>,
>
    decreases s.len(), 3int,
{
    if s.len() == 0 {
        None
    } else if s[0] == 0x2C {
        phase_b(s.skip(1), out, stk, pobj)
    } else {
        phase_end(s.skip(1), out, stk, pobj)
    }
}

/// What `parse` appends to `out` on input `s`: a single two-byte node for
/// length-two input, otherwise the outcome of the two-phase state machine.
pub open spec fn parse_model(s: Seq<u8>, out: Seq<Node>) -> Option<Seq<Node>> {
    if s.len() == 2 {
        Some(out.push(Node { children: 0, length_in_bytes: 2 }))
    } else {
        phase_end(s, out, Seq::empty(), false)
    }
}

/// Well-formedness of the parse stack against the node array: every entry
/// points past `base` at a placeholder inside the array whose stored
/// remaining-byte count is at least the current one `rem`, and entries
/// point at strictly increasing indices.
spec fn stack_ok(stk: Seq<u32>, out: Seq<Node>, base: int, rem: int) -> bool {
    &&& forall|k: int|
        0 <= k < stk.len() ==> {
            let off = (#[trigger] stk[k] >> 1) as int;
            &&& base <= off < out.len()
            &&& out[off].length_in_bytes >= rem
        }
    &&& forall|k1: int, k2: int|
        0 <= k1 < k2 < stk.len() ==> ((#[trigger] stk[k1] >> 1) as int) < ((#[trigger] stk[k2]
            >> 1) as int)
}

/// A well-formed stack stays well-formed when the node array grows or is
/// changed above the entries it points at, and when fewer bytes remain.
proof fn lemma_stack_ok_weaken(
    stk: Seq<u32>,
    out1: Seq<Node>,
    out2: Seq<Node>,
    base: int,
    rem1: int,
    rem2: int,
)
    requires
        stack_ok(stk, out1, base, rem1),
        rem2 <= rem1,
        out1.len() <= out2.len(),
        forall|j: int| 0 <= j < out1.len() ==> out2[j] == out1[j],
    ensures
        stack_ok(stk, out2, base, rem2),
{
    assert forall|k: int| 0 <= k < stk.len() implies {
        let off = (#[trigger] stk[k] >> 1) as int;
        &&& base <= off < out2.len()
        &&& out2[off].length_in_bytes >= rem2
    } by {
        let off = (stk[k] >> 1) as int;
        assert(out2[off] == out1[off]);
    }
}

/// Popping the top entry and finalizing the node it points at keeps the
/// rest of the stack well-formed: the remaining entries point strictly
/// below the finalized index.
proof fn lemma_stack_ok_pop(stk: Seq<u32>, out: Seq<Node>, node: Node, base: int, rem: int)
    requires
        stack_ok(stk, out, base, rem),
        stk.len() > 0,
    ensures
        stack_ok(stk.drop_last(), out.update((stk.last() >> 1) as int, node), base, rem),
{
    let stk1 = stk.drop_last();
    let off = (stk.last() >> 1) as int;
    let out1 = out.update(off, node);
    assert forall|k: int| 0 <= k < stk1.len() implies {
        let o = (#[trigger] stk1[k] >> 1) as int;
        &&& base <= o < out1.len()
        &&& out1[o].length_in_bytes >= rem
    } by {
        assert(stk1[k] == stk[k]);
        assert(stk.last() == stk[stk.len() - 1]);
        assert(((stk[k] >> 1) as int) < off);
        assert(out1[(stk1[k] >> 1) as int] == out[(stk[k] >> 1) as int]);
    }
    assert forall|k1: int, k2: int| 0 <= k1 < k2 < stk1.len() implies ((#[trigger] stk1[k1] >> 1)
        as int) < ((#[trigger] stk1[k2] >> 1) as int) by {
        assert(stk1[k1] == stk[k1] && stk1[k2] == stk[k2]);
    }
}

/// Append a node with no children and the given span length.
fn push_node(output: &mut Vec<Node>, len: usize)
    requires
        len <= u32::MAX,
    ensures
        final(output)@ == old(output)@.push(Node { children: 0, length_in_bytes: len as u32 }),
{
    output.push(Node { children: 0, length_in_bytes: len as u32 });
}

/// Advance `*i` past a string body (the opening quote already consumed),
/// leaving it just after the closing quote.
fn parse_string(input: &[u8], i: &mut usize) -> (r: bool)
    requires
        *old(i) <= input@.len(),
    ensures
        *old(i) <= *final(i) <= input@.len(),
        match scan_string(input@.skip(*old(i) as int)) {
            Some(n) => r && *final(i) == *old(i) + n,
            None => !r,
        },
{
    let ghost s = input@;
    let ghost i0 = *i;
    loop
        invariant
            i0 == *old(i),
            i0 <= *i <= s.len(),
            s == input@,
            match scan_string(s.skip(*i as int)) {
                Some(n) => scan_string(s.skip(i0 as int)) == Some(*i - i0 + n),
                None => scan_string(s.skip(i0 as int)) is None,
            },
        decreases s.len() - *i,
    {
        let ghost rest = s.skip(*i as int);
        if *i >= input.len() {
            proof {
                assert(rest.len() == 0);
            }
            return false;
        }
        let c = input[*i];
        proof {
            assert(rest[0] == s[*i as int]);
        }
        *i = *i + 1;
        if c == 0x22 {
            return true;
        }
        if c == 0x5C {
            if *i >= input.len() {
                proof {
                    assert(rest.len() < 2);
                }
                return false;
            }
            *i = *i + 1;
            proof {
                assert(rest.skip(2) =~= s.skip(*i as int));
            }
        } else {
            proof {
                assert(rest.skip(1) =~= s.skip(*i as int));
            }
        }
    }
}

/// Advance `*i` past a number or literal, consuming its terminator, and
/// report whether the terminator was a comma.
fn scan_scalar_ex(input: &[u8], i: &mut usize) -> (r: Option<bool>)
    requires
        *old(i) <= input@.len(),
    ensures
        *old(i) <= *final(i) <= input@.len(),
        match scan_scalar(input@.skip(*old(i) as int)) {
            Some(nc) => r == Some(nc.1) && *final(i) == *old(i) + nc.0,
            None => r is None,
        },
{
    let ghost s = input@;
    let ghost i0 = *i;
    loop
        invariant
            i0 == *old(i),
            i0 <= *i <= s.len(),
            s == input@,
            match scan_scalar(s.skip(*i as int)) {
                Some(nc) => scan_scalar(s.skip(i0 as int)) == Some((*i - i0 + nc.0, nc.1)),
                None => scan_scalar(s.skip(i0 as int)) is None,
            },
        decreases s.len() - *i,
    {
        let ghost rest = s.skip(*i as int);
        if *i >= input.len() {
            proof {
                assert(rest.len() == 0);
            }
            return None;
        }
        let c = input[*i];
        proof {
            assert(rest[0] == s[*i as int]);
        }
        *i = *i + 1;
        if c == 0x2C {
            return Some(true);
        }
        if (c & 0xDF) == 0x5D {
            return Some(false);
        }
        proof {
            assert(rest.skip(1) =~= s.skip(*i as int));
        }
    }
}

/// Parse compact JSON bytes, appending the flat node array to `output` and
/// using `stack` as scratch space.
///
/// Assumes the input came from the compactor.  Succeeds exactly when the
/// recursive parse model does, appends exactly the nodes it describes, and
/// leaves the scratch stack empty on success.
pub fn parse(input: &[u8], output: &mut Vec<Node>, stack: &mut Vec<u32>) -> (r: Result<(), ()>)
    requires
        old(stack)@.len() == 0,
        old(output)@.len() + input@.len() <= 0x4000_0000,
    ensures
        r is Ok <==> parse_model(input@, old(output)@) is Some,
        r is Ok ==> final(output)@ == parse_model(input@, old(output)@)->Some_0,
        r is Ok ==> final(stack)@.len() == 0,
        old(output)@.is_prefix_of(final(output)@),
{
    if parse_(input, output, stack) {
        Ok(())
    } else {
        Err(())
    }
}

enum Step {
    More(bool),
    Done,
    Fail,
}

/// One step of the closing phase: the stack is non-empty, so pop its top
/// entry and finalize the placeholder node it points at.
#[verifier::rlimit(100)]
fn step_close(
    input: &[u8],
    i: &mut usize,
    output: &mut Vec<Node>,
    stack: &mut Vec<u32>,
    parsing_object: &mut bool,
    Ghost(base): Ghost<int>,
) -> (r: Step)
    requires
        *old(i) <= input@.len(),
        old(stack)@.len() > 0,
        0 <= base <= old(output)@.len(),
        base + input@.len() <= 0x4000_0000,
        old(output)@.len() <= base + *old(i),
        stack_ok(old(stack)@, old(output)@, base, input@.len() - *old(i)),
    ensures
        *old(i) <= *final(i) <= input@.len(),
        old(output)@.len() <= final(output)@.len(),
        final(output)@.len() <= base + *final(i),
        final(output)@.subrange(0, base) == old(output)@.subrange(0, base),
        stack_ok(final(stack)@, final(output)@, base, input@.len() - *final(i)),
        ({
            let pe = phase_end(
                input@.skip(*old(i) as int),
                old(output)@,
                old(stack)@,
                *old(parsing_object),
            );
            match r {
                Step::Done => pe == Some(final(output)@) && final(stack)@.len() == 0 && *final(i)
                    == *old(i),
                Step::Fail => pe is None,
                Step::More(ae) => {
                    &&& *old(i) < *final(i)
                    &&& pe == (if ae {
                        phase_end(
                            input@.skip(*final(i) as int),
                            final(output)@,
                            final(stack)@,
                            *final(parsing_object),
                        )
                    } else {
                        phase_b(
                            input@.skip(*final(i) as int),
                            final(output)@,
                            final(stack)@,
                            *final(parsing_object),
                        )
                    })
                },
            }
        }),
{
    let ghost s = input@;
    let ghost rest = s.skip(*i as int);
    let ghost stk0 = stack@;
    let e = stack.pop().unwrap();
    let offset = (e >> 1) as usize;
    proof {
        assert(base <= ((stk0[stk0.len() - 1] >> 1) as int) && ((stk0[stk0.len() - 1] >> 1) as int)
            < output@.len());
        assert(output@[(stk0[stk0.len() - 1] >> 1) as int].length_in_bytes >= s.len() - *i);
    }
    let output_len = output.len();
    let rem_bytes = input.len() - *i;
    let stored = output[offset].length_in_bytes;
    let node = Node {
        children: (output_len - offset - 1) as u32,
        length_in_bytes: stored - (rem_bytes as u32),
    };
    let ghost outpre = output@;
    output[offset] = node;
    proof {
        assert(stack@ =~= stk0.drop_last());
        lemma_stack_ok_pop(stk0, outpre, node, base, s.len() - *i);
        assert(output@.subrange(0, base) =~= outpre.subrange(0, base));
    }
    if stack.len() == 0 {
        // the root composite has closed
        return Step::Done;
    }
    let top = stack[stack.len() - 1];
    *parsing_object = (top & 1) == 1;
    if *i >= input.len() {
        return Step::Fail;
    }
    let c = input[*i];
    proof {
        assert(rest[0] == s[*i as int]);
    }
    *i = *i + 1;
    proof {
        assert(rest.skip(1) =~= s.skip(*i as int));
        lemma_stack_ok_weaken(stack@, output@, output@, base, s.len() - (*i - 1), s.len() - *i);
    }
    Step::More(c != 0x2C)
}

/// One step of the value phase: a key (inside an object) and one value are
/// consumed and their nodes emitted; a non-empty composite opens instead.
#[verifier::rlimit(100)]
fn step_value(
    input: &[u8],
    i: &mut usize,
    output: &mut Vec<Node>,
    stack: &mut Vec<u32>,
    parsing_object: &mut bool,
    Ghost(base): Ghost<int>,
) -> (r: Step)
    requires
        *old(i) <= input@.len(),
        0 <= base <= old(output)@.len(),
        base + input@.len() <= 0x4000_0000,
        old(output)@.len() <= base + *old(i),
        stack_ok(old(stack)@, old(output)@, base, input@.len() - *old(i)),
    ensures
        *old(i) <= *final(i) <= input@.len(),
        old(output)@.len() <= final(output)@.len(),
        final(output)@.len() <= base + *final(i),
        final(output)@.subrange(0, base) == old(output)@.subrange(0, base),
        stack_ok(final(stack)@, final(output)@, base, input@.len() - *final(i)),
        ({
            let pb = phase_b(
                input@.skip(*old(i) as int),
                old(output)@,
                old(stack)@,
                *old(parsing_object),
            );
            match r {
                Step::Done => false,
                Step::Fail => pb is None,
                Step::More(ae) => {
                    &&& *old(i) < *final(i)
                    &&& pb == (if ae {
                        phase_end(
                            input@.skip(*final(i) as int),
                            final(output)@,
                            final(stack)@,
                            *final(parsing_object),
                        )
                    } else {
                        phase_b(
                            input@.skip(*final(i) as int),
                            final(output)@,
                            final(stack)@,
                            *final(parsing_object),
                        )
                    })
                },
            }
        }),
{
    let ghost s = input@;
    let ghost i00 = *i;
    let ghost rest = s.skip(*i as int);
    let ghost outb = output@;
    let ghost pb = phase_b(rest, outb, stack@, *parsing_object);
    if *parsing_object {
        // consume the string key and the colon after it
        let start = input.len() - *i;
        if *i >= input.len() {
            return Step::Fail;
        }
        *i = *i + 1;
        proof {
            assert(rest.skip(1) =~= s.skip(*i as int));
        }
        if !parse_string(input, i) {
            return Step::Fail;
        }
        proof {
            lemma_scan_string_bounds(rest.skip(1));
        }
        push_node(output, start - (input.len() - *i));
        if *i >= input.len() {
            return Step::Fail;
        }
        *i = *i + 1;
        proof {
            let n = scan_string(rest.skip(1))->Some_0;
            assert(rest.skip(2 + n) =~= s.skip(*i as int));
        }
    }
    let ghost vrest = s.skip(*i as int);
    let ghost vout = output@;
    proof {
        assert(phase_value(vrest, vout, stack@, *parsing_object) == pb);
        lemma_stack_ok_weaken(stack@, outb, vout, base, s.len() - i00, s.len() - *i);
        assert(vout.subrange(0, base) =~= outb.subrange(0, base));
    }
    value_part(input, i, output, stack, parsing_object, Ghost(base))
}

/// The value itself, with `*i` at its first byte.
#[verifier::rlimit(100)]
fn value_part(
    input: &[u8],
    i: &mut usize,
    output: &mut Vec<Node>,
    stack: &mut Vec<u32>,
    parsing_object: &mut bool,
    Ghost(base): Ghost<int>,
) -> (r: Step)
    requires
        *old(i) <= input@.len(),
        0 <= base <= old(output)@.len(),
        base + input@.len() <= 0x4000_0000,
        old(output)@.len() <= base + *old(i),
        stack_ok(old(stack)@, old(output)@, base, input@.len() - *old(i)),
    ensures
        *old(i) <= *final(i) <= input@.len(),
        old(output)@.len() <= final(output)@.len(),
        final(output)@.len() <= base + *final(i),
        final(output)@.subrange(0, base) == old(output)@.subrange(0, base),
        stack_ok(final(stack)@, final(output)@, base, input@.len() - *final(i)),
        ({
            let pv = phase_value(
                input@.skip(*old(i) as int),
                old(output)@,
                old(stack)@,
                *old(parsing_object),
            );
            match r {
                Step::Done => false,
                Step::Fail => pv is None,
                Step::More(ae) => {
                    &&& *old(i) < *final(i)
                    &&& pv == (if ae {
                        phase_end(
                            input@.skip(*final(i) as int),
                            final(output)@,
                            final(stack)@,
                            *final(parsing_object),
                        )
                    } else {
                        phase_b(
                            input@.skip(*final(i) as int),
                            final(output)@,
                            final(stack)@,
                            *final(parsing_object),
                        )
                    })
                },
            }
        }),
{
    let ghost s = input@;
    let ghost vrest = s.skip(*i as int);
    let ghost vout = output@;
    let ghost pb = phase_value(vrest, vout, stack@, *parsing_object);
    // parse one value
    let start = input.len() - *i;
    if *i >= input.len() {
        return Step::Fail;
    }
    let c = input[*i];
    proof {
        assert(vrest[0] == s[*i as int]);
    }
    *i = *i + 1;
    proof {
        assert(vrest.skip(1) =~= s.skip(*i as int));
    }
    if c == 0x7B || c == 0x5B {
        if *i >= input.len() {
            return Step::Fail;
        }
        let p = input[*i];
        proof {
            assert(vrest[1] == s[*i as int]);
        }
        let closer: u8 = if c == 0x7B {
            0x7D
        } else {
            0x5D
        };
        if p == closer {
            // empty composite
            push_node(output, 2);
            *i = *i + 1;
            let ghost verest = s.skip(*i as int);
            proof {
                assert(vrest.skip(2) =~= verest);
                assert(value_end(verest, output@, stack@, *parsing_object) == pb);
            }
            // value end: comma continues, anything else closes
            if *i >= input.len() {
                return Step::Fail;
            }
            let c2 = input[*i];
            proof {
                assert(verest[0] == s[*i as int]);
            }
            *i = *i + 1;
            proof {
                assert(verest.skip(1) =~= s.skip(*i as int));
                lemma_stack_ok_weaken(stack@, vout, output@, base, s.len() - (s.len()
                    - vrest.len()), s.len() - *i);
                assert(output@.subrange(0, base) =~= vout.subrange(0, base));
            }
            Step::More(c2 != 0x2C)
        } else {
            // non-empty composite: push a placeholder recording the
            // remaining-byte count at open time
            let index = output.len() as u32;
            let entry = (index << 1) | (if c == 0x7B {
                1u32
            } else {
                0u32
            });
            let ghost stk0 = stack@;
            stack.push(entry);
            push_node(output, start);
            *parsing_object = c == 0x7B;
            proof {
                assert(index < 0x80000000 ==> ((index << 1) | 1u32) >> 1 == index && ((index << 1)
                    | 0u32) >> 1 == index) by (bit_vector);
                lemma_stack_ok_weaken(stk0, vout, output@, base, s.len() - (s.len() - vrest.len()),
                    s.len() - *i);
                assert forall|k: int| 0 <= k < stack@.len() implies {
                    let off = (#[trigger] stack@[k] >> 1) as int;
                    &&& base <= off < output@.len()
                    &&& output@[off].length_in_bytes >= s.len() - *i
                } by {
                    if k < stack@.len() - 1 {
                        assert(stack@[k] == stk0[k]);
                    } else {
                        assert(stack@[k] == entry);
                        assert(output@[output@.len() - 1].length_in_bytes == start as u32);
                    }
                }
                assert forall|k1: int, k2: int| 0 <= k1 < k2 < stack@.len() implies ((
                #[trigger] stack@[k1] >> 1) as int) < ((#[trigger] stack@[k2] >> 1) as int) by {
                    assert(stack@[k1] == stk0[k1]);
                    if k2 < stack@.len() - 1 {
                        assert(stack@[k2] == stk0[k2]);
                    } else {
                        assert(stack@[k2] == entry);
                    }
                }
                assert(output@.subrange(0, base) =~= vout.subrange(0, base));
            }
            Step::More(false)
        }
    } else if c == 0x22 {
        if !parse_string(input, i) {
            return Step::Fail;
        }
        proof {
            lemma_scan_string_bounds(vrest.skip(1));
        }
        push_node(output, start - (input.len() - *i));
        let ghost verest = s.skip(*i as int);
        proof {
            let n = scan_string(vrest.skip(1))->Some_0;
            assert(vrest.skip(1 + n) =~= verest);
            assert(value_end(verest, output@, stack@, *parsing_object) == pb);
        }
        // value end
        if *i >= input.len() {
            return Step::Fail;
        }
        let c2 = input[*i];
        proof {
            assert(verest[0] == s[*i as int]);
        }
        *i = *i + 1;
        proof {
            assert(verest.skip(1) =~= s.skip(*i as int));
            lemma_stack_ok_weaken(stack@, vout, output@, base, s.len() - (s.len() - vrest.len()),
                s.len() - *i);
            assert(output@.subrange(0, base) =~= vout.subrange(0, base));
        }
        Step::More(c2 != 0x2C)
    } else {
        let comma = match scan_scalar_ex(input, i) {
            None => {
                return Step::Fail;
            },
            Some(b) => b,
        };
        proof {
            lemma_scan_scalar_bounds(vrest.skip(1));
        }
        push_node(output, start - (input.len() - *i) - 1);
        proof {
            let nc = scan_scalar(vrest.skip(1))->Some_0;
            assert(vrest.skip(1 + nc.0) =~= s.skip(*i as int));
            lemma_stack_ok_weaken(stack@, vout, output@, base, s.len() - (s.len() - vrest.len()),
                s.len() - *i);
            assert(output@.subrange(0, base) =~= vout.subrange(0, base));
        }
        Step::More(!comma)
    }
}

fn parse_(input: &[u8], output: &mut Vec<Node>, stack: &mut Vec<u32>) -> (r: bool)
    requires
        old(stack)@.len() == 0,
        old(output)@.len() + input@.len() <= 0x4000_0000,
    ensures
        r <==> parse_model(input@, old(output)@) is Some,
        r ==> final(output)@ == parse_model(input@, old(output)@)->Some_0,
        r ==> final(stack)@.len() == 0,
        old(output)@.is_prefix_of(final(output)@),
{
    let ghost s = input@;
    let ghost out0 = output@;
    let ghost target = parse_model(s, out0);
    if input.len() == 2 {
        // two bytes can only be an empty object or array; the validator
        // checks that it really is one
        push_node(output, 2);
        return true;
    }
    let mut i: usize = 0;
    let mut parsing_object = false;
    let mut at_end = true;
    proof {
        assert(s.skip(0) =~= s);
        assert(stack@ =~= Seq::<u32>::empty());
    }
    loop
        invariant
            i <= s.len(),
            s == input@,
            s.len() != 2,
            out0 == old(output)@,
            out0.len() <= output@.len(),
            output@.subrange(0, out0.len() as int) == out0,
            out0.len() + s.len() <= 0x4000_0000,
            output@.len() <= out0.len() + i,
            stack_ok(stack@, output@, out0.len() as int, s.len() - i),
            target == parse_model(s, out0),
            (if at_end {
                phase_end(s.skip(i as int), output@, stack@, parsing_object)
            } else {
                phase_b(s.skip(i as int), output@, stack@, parsing_object)
            }) == target,
        decreases
                s.len() - i,
                (if at_end {
                    1int
                } else {
                    0int
                }),
    {
        if at_end {
            if stack.len() == 0 {
                // first iteration: fall through to the value phase
                at_end = false;
                continue ;
            }
            let r = step_close(
                input,
                &mut i,
                output,
                stack,
                &mut parsing_object,
                Ghost(out0.len() as int),
            );
            match r {
                Step::Done => {
                    proof {
                        assert(out0.is_prefix_of(output@));
                    }
                    return true;
                },
                Step::Fail => {
                    proof {
                        assert(out0.is_prefix_of(output@));
                    }
                    return false;
                },
                Step::More(ae) => {
                    at_end = ae;
                },
            }
        } else {
            let r = step_value(
                input,
                &mut i,
                output,
                stack,
                &mut parsing_object,
                Ghost(out0.len() as int),
            );
            match r {
                Step::Done => {
                    return false;
                },
                Step::Fail => {
                    proof {
                        assert(out0.is_prefix_of(output@));
                    }
                    return false;
                },
                Step::More(ae) => {
                    at_end = ae;
                },
            }
        }
    }
}

/// Offset encoded in a parse-stack entry.
spec fn stk_off(e: u32) -> int {
    (e >> 1) as int
}

/// The sibling chain from `from` (each hop skips a whole subtree) lands
/// exactly on `to`.
pub open spec fn chain_to(out: Seq<Node>, from: int, to: int) -> bool
    decreases to - from,
{
    if from >= to {
        from == to
    } else {
        let nxt = from + 1 + out[from].children;
        nxt <= to && chain_to(out, nxt, to)
    }
}

/// One byte plus each sibling's span, summed along the chain from `from`
/// to `to`.
pub open spec fn child_sum(out: Seq<Node>, from: int, to: int) -> int
    decreases to - from,
{
    if from >= to {
        0
    } else {
        let nxt = from + 1 + out[from].children;
        if nxt > to {
            0
        } else {
            1 + out[from].length_in_bytes + child_sum(out, nxt, to)
        }
    }
}

/// Every composite node in `[from, to)` spans one byte plus, for each
/// direct child, the child's span plus one separating or closing byte,
/// and its descendants stay inside `[from, to)`.
pub open spec fn composite_lengths_ok(out: Seq<Node>, from: int, to: int) -> bool {
    forall|i: int|
        from <= i < to && (#[trigger] out[i]).children > 0 ==> {
            &&& i + 1 + out[i].children <= to
            &&& chain_to(out, i + 1, i + 1 + out[i].children)
            &&& out[i].length_in_bytes == 1 + child_sum(out, i + 1, i + 1 + out[i].children)
        }
}

/// Chains and their sums read only the entries of their interval.
proof fn lemma_chain_frame(out1: Seq<Node>, out2: Seq<Node>, from: int, to: int)
    requires
        0 <= from,
        to <= out1.len(),
        to <= out2.len(),
        forall|j: int| from <= j < to ==> out1[j] == out2[j],
    ensures
        chain_to(out1, from, to) == chain_to(out2, from, to),
        chain_to(out1, from, to) ==> child_sum(out1, from, to) == child_sum(out2, from, to),
    decreases to - from,
{
    if from >= to {
    } else {
        assert(out1[from] == out2[from]);
        let nxt = from + 1 + out1[from].children;
        if nxt <= to {
            lemma_chain_frame(out1, out2, nxt, to);
        }
    }
}

/// Chains and their sums compose at a midpoint.
proof fn lemma_chain_concat(out: Seq<Node>, a: int, b: int, c: int)
    requires
        a <= b <= c,
        chain_to(out, a, b),
        chain_to(out, b, c),
    ensures
        chain_to(out, a, c),
        child_sum(out, a, c) == child_sum(out, a, b) + child_sum(out, b, c),
    decreases b - a,
{
    if a >= b {
    } else {
        lemma_chain_concat(out, a + 1 + out[a].children, b, c);
    }
}

/// Invariant of the parse machine tying the open composites to the bytes
/// consumed so far.  `r` is the remaining byte count, `pending` is one
/// byte normally and zero between a value and its separator.  Placeholders
/// store the remaining count at open time, so for each open composite the
/// difference of stored counts equals the bytes its children have consumed
/// so far, which the separate-and-span sums below restate.
spec fn machine_inv(
    out: Seq<Node>,
    stk: Seq<u32>,
    base: int,
    r: int,
    pending: int,
) -> bool {
    &&& 0 <= base <= out.len()
    &&& 0 <= r
    &&& out.len() + r <= 0x7FFF_FFFF
    &&& stack_ok(stk, out, base, r)
    &&& forall|k: int| 0 <= k < stk.len() ==> out[stk_off(#[trigger] stk[k])].children == 0
    &&& composite_lengths_ok(out, base, out.len() as int)
    &&& forall|i: int, k: int|
        base <= i < out.len() && 0 <= k < stk.len() && (#[trigger] out[i]).children > 0 ==> !(i
            < stk_off(#[trigger] stk[k]) && stk_off(stk[k]) < i + 1 + out[i].children)
    &&& if stk.len() == 0 {
        chain_to(out, base, out.len() as int)
    } else {
        &&& chain_to(out, base, stk_off(stk[0]))
        &&& forall|k: int|
            0 <= k < stk.len() - 1 ==> {
                &&& chain_to(out, stk_off(#[trigger] stk[k]) + 1, stk_off(stk[k + 1]))
                &&& out[stk_off(stk[k])].length_in_bytes - out[stk_off(
                    stk[k + 1],
                )].length_in_bytes == 1 + child_sum(
                    out,
                    stk_off(stk[k]) + 1,
                    stk_off(stk[k + 1]),
                )
                &&& stk_off(stk[k + 1]) - stk_off(stk[k]) - 1 <= out[stk_off(
                    stk[k],
                )].length_in_bytes - out[stk_off(stk[k + 1])].length_in_bytes
            }
        &&& chain_to(out, stk_off(stk.last()) + 1, out.len() as int)
        &&& out[stk_off(stk.last())].length_in_bytes - r == pending + child_sum(
            out,
            stk_off(stk.last()) + 1,
            out.len() as int,
        )
        &&& out.len() - stk_off(stk.last()) - 1 <= out[stk_off(stk.last())].length_in_bytes - r
    }
}

/// Appending one childless node to the node array keeps the invariant,
/// with the consumed bytes growing by the node's span plus `pending` minus
/// the new `pending`.
proof fn lemma_inv_push_leaf(
    out: Seq<Node>,
    stk: Seq<u32>,
    base: int,
    r: int,
    pending: int,
    len: int,
    r1: int,
    pending1: int,
)
    requires
        machine_inv(out, stk, base, r, pending),
        0 <= len <= 0xFFFF_FFFF,
        0 <= r1 <= r,
        r - r1 == len + pending1 + 1 - pending || stk.len() == 0,
        r - r1 >= 1,
        pending1 == 0 || pending1 == 1,
    ensures
        machine_inv(
            out.push(Node { children: 0, length_in_bytes: len as u32 }),
            stk,
            base,
            r1,
            pending1,
        ),
{
    let node = Node { children: 0, length_in_bytes: len as u32 };
    let out1 = out.push(node);
    assert(forall|j: int| 0 <= j < out.len() ==> out1[j] == out[j]);
    assert forall|k: int| 0 <= k < stk.len() implies {
        let off = (#[trigger] stk[k] >> 1) as int;
        &&& base <= off < out1.len()
        &&& out1[off].length_in_bytes >= r1
    } by {
        assert(out1[(stk[k] >> 1) as int] == out[(stk[k] >> 1) as int]);
    }
    assert forall|i: int|
        base <= i < out1.len() && (#[trigger] out1[i]).children > 0 implies {
        &&& i + 1 + out1[i].children <= out1.len()
        &&& chain_to(out1, i + 1, i + 1 + out1[i].children)
        &&& out1[i].length_in_bytes == 1 + child_sum(out1, i + 1, i + 1 + out1[i].children)
    } by {
        assert(i < out.len() as int);
        lemma_chain_frame(out, out1, i + 1, i + 1 + out[i].children);
    }
    if stk.len() == 0 {
        lemma_chain_frame(out, out1, base, out.len() as int);
        assert(chain_to(out1, out1.len() as int, out1.len() as int));
        assert(chain_to(out1, out.len() as int, out1.len() as int));
        lemma_chain_concat(out1, base, out.len() as int, out1.len() as int);
    } else {
        let top = stk_off(stk.last());
        lemma_chain_frame(out, out1, base, stk_off(stk[0]));
        assert forall|k: int| 0 <= k < stk.len() - 1 implies {
            &&& chain_to(out1, stk_off(#[trigger] stk[k]) + 1, stk_off(stk[k + 1]))
            &&& out1[stk_off(stk[k])].length_in_bytes - out1[stk_off(
                stk[k + 1],
            )].length_in_bytes == 1 + child_sum(out1, stk_off(stk[k]) + 1, stk_off(stk[k + 1]))
            &&& stk_off(stk[k + 1]) - stk_off(stk[k]) - 1 <= out1[stk_off(
                stk[k],
            )].length_in_bytes - out1[stk_off(stk[k + 1])].length_in_bytes
        } by {
            lemma_chain_frame(out, out1, stk_off(stk[k]) + 1, stk_off(stk[k + 1]));
            assert(out1[stk_off(stk[k])] == out[stk_off(stk[k])]);
            assert(out1[stk_off(stk[k + 1])] == out[stk_off(stk[k + 1])]);
        }
        lemma_chain_frame(out, out1, top + 1, out.len() as int);
        assert(chain_to(out1, out1.len() as int, out1.len() as int));
        assert(chain_to(out1, out.len() as int, out1.len() as int));
        lemma_chain_concat(out1, top + 1, out.len() as int, out1.len() as int);
        assert(child_sum(out1, out1.len() as int, out1.len() as int) == 0);
        assert(child_sum(out1, out.len() as int, out1.len() as int) == 1 + len);
        assert(out1[top] == out[top]);
    }
}

/// Popping the top entry finalizes its placeholder: the finalized node
/// satisfies the length equation, every other composite keeps it, and the
/// remaining stack satisfies the invariant after the separator byte.
#[verifier::rlimit(100)]
proof fn lemma_inv_pop(out: Seq<Node>, stk: Seq<u32>, base: int, r: int)
    requires
        machine_inv(out, stk, base, r, 1),
        stk.len() > 0,
    ensures
        ({
            let off = stk_off(stk.last());
            let stored = out[off].length_in_bytes as int;
            let node = Node {
                children: (out.len() - off - 1) as u32,
                length_in_bytes: (stored - r) as u32,
            };
            let out1 = out.update(off, node);
            &&& base <= off < out.len()
            &&& stored >= r
            &&& composite_lengths_ok(out1, base, out1.len() as int)
            &&& (stk.drop_last().len() > 0 && r >= 1 ==> machine_inv(
                out1,
                stk.drop_last(),
                base,
                r - 1,
                1,
            ))
        }),
{
    let e = stk.last();
    let stk1 = stk.drop_last();
    let off = (e >> 1) as int;
    assert(stk[stk.len() - 1] == e);
    assert(base <= off < out.len());
    let stored = out[off].length_in_bytes as int;
    assert(stored >= r);
    assert(out.len() - off - 1 <= stored - r);
    let node = Node {
        children: (out.len() - off - 1) as u32,
        length_in_bytes: (stored - r) as u32,
    };
    let out1 = out.update(off, node);
    assert(node.children == out.len() - off - 1);
    assert(node.length_in_bytes == stored - r);
    assert(forall|j: int| 0 <= j < out.len() && j != off ==> out1[j] == out[j]);
    // the finalized node satisfies the equation
    lemma_chain_frame(out, out1, off + 1, out.len() as int);
    assert(chain_to(out1, out1.len() as int, out1.len() as int));
    assert(child_sum(out1, out1.len() as int, out1.len() as int) == 0);
    assert(chain_to(out1, off, out1.len() as int)) by {
        assert(chain_to(out1, off + 1 + node.children, out1.len() as int));
    }
    assert(child_sum(out1, off, out1.len() as int) == 1 + node.length_in_bytes) by {
        assert(child_sum(out1, off + 1 + node.children, out1.len() as int) == 0);
    }
    assert(child_sum(out1, off + 1, out.len() as int) == child_sum(out, off + 1, out.len() as int));
    assert(out1[off].length_in_bytes == 1 + child_sum(out1, off + 1, out.len() as int));
    // every other composite keeps it: its interval avoids `off`
    assert forall|i: int|
        base <= i < out1.len() && (#[trigger] out1[i]).children > 0 implies {
        &&& i + 1 + out1[i].children <= out1.len()
        &&& chain_to(out1, i + 1, i + 1 + out1[i].children)
        &&& out1[i].length_in_bytes == 1 + child_sum(out1, i + 1, i + 1 + out1[i].children)
    } by {
        if i != off {
            assert(out[i].children > 0);
            assert(!(i < off && off < i + 1 + out[i].children));
            lemma_chain_frame(out, out1, i + 1, i + 1 + out[i].children);
        }
    }
    if stk1.len() > 0 && r >= 1 {
        let j = stk_off(stk1.last());
        assert(stk1.last() == stk[stk.len() - 2] && stk1[stk1.len() - 1] == stk[stk.len() - 2]);
        assert(j < off);
        lemma_stack_ok_pop(stk, out, node, base, r);
        lemma_stack_ok_weaken(stk1, out1, out1, base, r, r - 1);
        assert(forall|k: int| 0 <= k < stk1.len() ==> stk1[k] == stk[k]);
        assert forall|k: int| 0 <= k < stk1.len() implies out1[stk_off(
            #[trigger] stk1[k],
        )].children == 0 by {
            assert(stk_off(stk1[k]) < off);
        }
        assert forall|i: int, k: int|
            base <= i < out1.len() && 0 <= k < stk1.len() && (#[trigger] out1[i]).children
                > 0 implies !(i < stk_off(#[trigger] stk1[k]) && stk_off(stk1[k]) < i + 1
            + out1[i].children) by {
            assert(stk1[k] == stk[k]);
            if i != off {
                assert(out[i] == out1[i]);
            } else {
                assert(stk_off(stk1[k]) < off);
            }
        }
        lemma_chain_frame(out, out1, base, stk_off(stk[0]));
        assert forall|k: int| 0 <= k < stk1.len() - 1 implies {
            &&& chain_to(out1, stk_off(#[trigger] stk1[k]) + 1, stk_off(stk1[k + 1]))
            &&& out1[stk_off(stk1[k])].length_in_bytes - out1[stk_off(
                stk1[k + 1],
            )].length_in_bytes == 1 + child_sum(
                out1,
                stk_off(stk1[k]) + 1,
                stk_off(stk1[k + 1]),
            )
            &&& stk_off(stk1[k + 1]) - stk_off(stk1[k]) - 1 <= out1[stk_off(
                stk1[k],
            )].length_in_bytes - out1[stk_off(stk1[k + 1])].length_in_bytes
        } by {
            assert(stk1[k] == stk[k] && stk1[k + 1] == stk[k + 1]);
            assert(stk_off(stk[k]) < off && stk_off(stk[k + 1]) < off);
            lemma_chain_frame(out, out1, stk_off(stk[k]) + 1, stk_off(stk[k + 1]));
            assert(out1[stk_off(stk[k])] == out[stk_off(stk[k])]);
            assert(out1[stk_off(stk[k + 1])] == out[stk_off(stk[k + 1])]);
        }
        // chain and sum for the new top segment
        lemma_chain_frame(out, out1, j + 1, off);
        assert(chain_to(out1, j + 1, off));
        lemma_chain_concat(out1, j + 1, off, out1.len() as int);
        assert(child_sum(out1, off, out1.len() as int) == 1 + node.length_in_bytes);
        assert(out1[j] == out[j]);
        let stored_j = out[j].length_in_bytes as int;
        assert(stored_j - stored == 1 + child_sum(out, j + 1, off));
        assert(child_sum(out1, j + 1, off) == child_sum(out, j + 1, off));
        assert(out1[j].length_in_bytes - (r - 1) == 1 + child_sum(out1, j + 1, out1.len() as int));
        assert(off - j - 1 <= stored_j - stored);
        assert(out1.len() - j - 1 <= out1[j].length_in_bytes - (r - 1));
        assert(machine_inv(out1, stk1, base, r - 1, 1));
    }
}

/// The machine preserves the length equation: whenever it succeeds, every
/// composite in the appended region satisfies it.
proof fn lemma_p3_end(s: Seq<u8>, out: Seq<Node>, stk: Seq<u32>, pobj: bool, base: int)
    requires
        machine_inv(out, stk, base, s.len() as int, 1),
    ensures
        phase_end(s, out, stk, pobj) matches Some(res) ==> composite_lengths_ok(
            res,
            base,
            res.len() as int,
        ),
    decreases s.len(), 2int,
{
    if stk.len() == 0 {
        lemma_p3_b(s, out, stk, pobj, base);
    } else {
        let e = stk.last();
        let stk1 = stk.drop_last();
        let off = (e >> 1) as int;
        let r = s.len() as int;
        lemma_inv_pop(out, stk, base, r);
        let stored = out[off].length_in_bytes as int;
        let node = Node {
            children: (out.len() - off - 1) as u32,
            length_in_bytes: (stored - r) as u32,
        };
        let out1 = out.update(off, node);
        if stk1.len() == 0 {
            // root closed: the machine returns this array
        } else {
            let pobj1 = (stk1.last() & 1) == 1;
            if s.len() == 0 {
            } else {
                if s[0] == 0x2C {
                    lemma_p3_b(s.skip(1), out1, stk1, pobj1, base);
                } else {
                    lemma_p3_end(s.skip(1), out1, stk1, pobj1, base);
                }
            }
        }
    }
}

proof fn lemma_p3_b(s: Seq<u8>, out: Seq<Node>, stk: Seq<u32>, pobj: bool, base: int)
    requires
        machine_inv(out, stk, base, s.len() as int, 1),
    ensures
        phase_b(s, out, stk, pobj) matches Some(res) ==> composite_lengths_ok(
            res,
            base,
            res.len() as int,
        ),
    decreases s.len(), 1int,
{
    if pobj {
        if s.len() == 0 {
        } else {
            match scan_string(s.skip(1)) {
                None => {},
                Some(n) => {
                    lemma_scan_string_bounds(s.skip(1));
                    if s.len() < 2 + n {
                    } else {
                        lemma_inv_push_leaf(
                            out,
                            stk,
                            base,
                            s.len() as int,
                            1,
                            1 + n,
                            s.len() - 2 - n,
                            1,
                        );
                        lemma_p3_value(
                            s.skip(2 + n),
                            out.push(Node { children: 0, length_in_bytes: (1 + n) as u32 }),
                            stk,
                            pobj,
                            base,
                        );
                    }
                },
            }
        }
    } else {
        lemma_p3_value(s, out, stk, pobj, base);
    }
}

proof fn lemma_p3_value(s: Seq<u8>, out: Seq<Node>, stk: Seq<u32>, pobj: bool, base: int)
    requires
        machine_inv(out, stk, base, s.len() as int, 1),
    ensures
        phase_value(s, out, stk, pobj) matches Some(res) ==> composite_lengths_ok(
            res,
            base,
            res.len() as int,
        ),
    decreases s.len(), 0int,
{
    if s.len() == 0 {
    } else {
        let r = s.len() as int;
        let c = s[0];
        if c == 0x7B || c == 0x5B {
            if s.len() < 2 {
            } else {
                let closer: u8 = if c == 0x7B {
                    0x7Du8
                } else {
                    0x5Du8
                };
                if s[1] == closer {
                    lemma_inv_push_leaf(out, stk, base, r, 1, 2, r - 2, 0);
                    lemma_p3_value_end(
                        s.skip(2),
                        out.push(Node { children: 0, length_in_bytes: 2 }),
                        stk,
                        pobj,
                        base,
                    );
                } else {
                    let entry = ((out.len() as u32) << 1) | (if c == 0x7B {
                        1u32
                    } else {
                        0u32
                    });
                    let node = Node { children: 0, length_in_bytes: r as u32 };
                    let out1 = out.push(node);
                    let stk1 = stk.push(entry);
                    lemma_inv_open(out, stk, base, r, entry, c == 0x7B);
                    lemma_p3_b(s.skip(1), out1, stk1, c == 0x7B, base);
                }
            }
        } else if c == 0x22 {
            match scan_string(s.skip(1)) {
                None => {},
                Some(n) => {
                    lemma_scan_string_bounds(s.skip(1));
                    lemma_inv_push_leaf(out, stk, base, r, 1, 1 + n, r - 1 - n, 0);
                    lemma_p3_value_end(
                        s.skip(1 + n),
                        out.push(Node { children: 0, length_in_bytes: (1 + n) as u32 }),
                        stk,
                        pobj,
                        base,
                    );
                },
            }
        } else {
            match scan_scalar(s.skip(1)) {
                None => {},
                Some(nc) => {
                    lemma_scan_scalar_bounds(s.skip(1));
                    let out1 = out.push(Node { children: 0, length_in_bytes: nc.0 as u32 });
                    if nc.1 {
                        lemma_inv_push_leaf(out, stk, base, r, 1, nc.0, r - 1 - nc.0, 1);
                        lemma_p3_b(s.skip(1 + nc.0), out1, stk, pobj, base);
                    } else {
                        lemma_inv_push_leaf(out, stk, base, r, 1, nc.0, r - 1 - nc.0, 1);
                        lemma_p3_end(s.skip(1 + nc.0), out1, stk, pobj, base);
                    }
                },
            }
        }
    }
}

proof fn lemma_p3_value_end(s: Seq<u8>, out: Seq<Node>, stk: Seq<u32>, pobj: bool, base: int)
    requires
        machine_inv(out, stk, base, s.len() as int, 0),
    ensures
        value_end(s, out, stk, pobj) matches Some(res) ==> composite_lengths_ok(
            res,
            base,
            res.len() as int,
        ),
    decreases s.len(), 3int,
{
    if s.len() == 0 {
    } else {
        if stk.len() > 0 {
            assert(out[stk_off(stk.last())].length_in_bytes - (s.len() - 1) == 1 + child_sum(
                out,
                stk_off(stk.last()) + 1,
                out.len() as int,
            ));
        }
        assert(machine_inv(out, stk, base, s.len() - 1, 1));
        if s[0] == 0x2C {
            lemma_p3_b(s.skip(1), out, stk, pobj, base);
        } else {
            lemma_p3_end(s.skip(1), out, stk, pobj, base);
        }
    }
}

/// Opening a composite pushes a placeholder and a stack entry; the new
/// segment is empty and accounts for the opening byte alone.
proof fn lemma_inv_open(out: Seq<Node>, stk: Seq<u32>, base: int, r: int, entry: u32, obj: bool)
    requires
        machine_inv(out, stk, base, r, 1),
        r >= 2,
        entry == ((out.len() as u32) << 1) | (if obj {
            1u32
        } else {
            0u32
        }),
    ensures
        machine_inv(
            out.push(Node { children: 0, length_in_bytes: r as u32 }),
            stk.push(entry),
            base,
            r - 1,
            1,
        ),
{
    let node = Node { children: 0, length_in_bytes: r as u32 };
    let out1 = out.push(node);
    let stk1 = stk.push(entry);
    let newoff = out.len() as int;
    assert(stk_off(entry) == newoff) by {
        let n = out.len() as u32;
        assert(n < 0x80000000 ==> ((n << 1) | 1u32) >> 1 == n && ((n << 1) | 0u32) >> 1 == n)
            by (bit_vector);
    }
    assert(forall|j: int| 0 <= j < out.len() ==> out1[j] == out[j]);
    assert(forall|k: int| 0 <= k < stk.len() ==> stk1[k] == stk[k]);
    assert(stk1[stk1.len() - 1] == entry && stk1.last() == entry);
    // stack well-formedness with the new entry
    assert forall|k: int| 0 <= k < stk1.len() implies {
        let off = (#[trigger] stk1[k] >> 1) as int;
        &&& base <= off < out1.len()
        &&& out1[off].length_in_bytes >= r - 1
    } by {
        if k < stk.len() {
            assert(stk1[k] == stk[k]);
            assert(out1[(stk[k] >> 1) as int] == out[(stk[k] >> 1) as int]);
        } else {
            assert(stk1[k] == entry);
        }
    }
    assert forall|k1: int, k2: int| 0 <= k1 < k2 < stk1.len() implies ((#[trigger] stk1[k1] >> 1)
        as int) < ((#[trigger] stk1[k2] >> 1) as int) by {
        assert(stk1[k1] == stk[k1]);
        if k2 < stk.len() {
            assert(stk1[k2] == stk[k2]);
        } else {
            assert(stk1[k2] == entry);
            assert(stk_off(stk[k1]) < out.len() as int);
        }
    }
    assert forall|k: int| 0 <= k < stk1.len() implies out1[stk_off(
        #[trigger] stk1[k],
    )].children == 0 by {
        if k < stk.len() {
            assert(stk1[k] == stk[k]);
            assert(out1[stk_off(stk[k])] == out[stk_off(stk[k])]);
        } else {
            assert(stk1[k] == entry);
        }
    }
    assert forall|i: int|
        base <= i < out1.len() && (#[trigger] out1[i]).children > 0 implies {
        &&& i + 1 + out1[i].children <= out1.len()
        &&& chain_to(out1, i + 1, i + 1 + out1[i].children)
        &&& out1[i].length_in_bytes == 1 + child_sum(out1, i + 1, i + 1 + out1[i].children)
    } by {
        assert(i < out.len() && out1[i] == out[i]);
        lemma_chain_frame(out, out1, i + 1, i + 1 + out[i].children);
    }
    assert forall|i: int, k: int|
        base <= i < out1.len() && 0 <= k < stk1.len() && (#[trigger] out1[i]).children > 0 implies
        !(i < stk_off(#[trigger] stk1[k]) && stk_off(stk1[k]) < i + 1 + out1[i].children) by {
        assert(i < out.len() && out1[i] == out[i]);
        if k < stk.len() {
            assert(stk1[k] == stk[k]);
        } else {
            assert(stk1[k] == entry);
            assert(i + 1 + out[i].children <= out.len() as int);
        }
    }
    // segments: the old top's segment is sealed, the new one is empty
    if stk.len() == 0 {
        lemma_chain_frame(out, out1, base, newoff);
    } else {
        lemma_chain_frame(out, out1, base, stk_off(stk[0]));
        assert forall|k: int| 0 <= k < stk1.len() - 1 implies {
            &&& chain_to(out1, stk_off(#[trigger] stk1[k]) + 1, stk_off(stk1[k + 1]))
            &&& out1[stk_off(stk1[k])].length_in_bytes - out1[stk_off(
                stk1[k + 1],
            )].length_in_bytes == 1 + child_sum(
                out1,
                stk_off(stk1[k]) + 1,
                stk_off(stk1[k + 1]),
            )
            &&& stk_off(stk1[k + 1]) - stk_off(stk1[k]) - 1 <= out1[stk_off(
                stk1[k],
            )].length_in_bytes - out1[stk_off(stk1[k + 1])].length_in_bytes
        } by {
            assert(stk1[k] == stk[k]);
            assert(out1[stk_off(stk[k])] == out[stk_off(stk[k])]);
            if k + 1 < stk.len() {
                assert(stk1[k + 1] == stk[k + 1]);
                assert(out1[stk_off(stk[k + 1])] == out[stk_off(stk[k + 1])]);
                lemma_chain_frame(out, out1, stk_off(stk[k]) + 1, stk_off(stk[k + 1]));
            } else {
                assert(stk1[k + 1] == entry);
                lemma_chain_frame(out, out1, stk_off(stk[k]) + 1, out.len() as int);
                assert(out1[newoff].length_in_bytes == r);
            }
        }
    }
    assert(chain_to(out1, newoff + 1, out1.len() as int));
    assert(out1[newoff].length_in_bytes - (r - 1) == 1 + child_sum(
        out1,
        newoff + 1,
        out1.len() as int,
    ));
}

/// Law: in a successful parse every composite node's span is one byte
/// plus, for each direct child, the child's span plus one byte (the
/// opening bracket and the separating or closing bytes, collectively).
pub proof fn lemma_parse_composite_lengths(s: Seq<u8>, out0: Seq<Node>)
    requires
        out0.len() + s.len() <= 0x7FFF_FFFF,
        parse_model(s, out0) is Some,
    ensures
        composite_lengths_ok(
            parse_model(s, out0)->Some_0,
            out0.len() as int,
            parse_model(s, out0)->Some_0.len() as int,
        ),
{
    let res = parse_model(s, out0)->Some_0;
    if s.len() == 2 {
        assert forall|i: int|
            out0.len() <= i < res.len() && (#[trigger] res[i]).children > 0 implies {
            &&& i + 1 + res[i].children <= res.len()
            &&& chain_to(res, i + 1, i + 1 + res[i].children)
            &&& res[i].length_in_bytes == 1 + child_sum(res, i + 1, i + 1 + res[i].children)
        } by {
            assert(res[i] == Node { children: 0, length_in_bytes: 2 });
        }
    } else {
        assert(machine_inv(out0, Seq::empty(), out0.len() as int, s.len() as int, 1));
        lemma_p3_end(s, out0, Seq::empty(), false, out0.len() as int);
    }
}

/// Number of leading bytes the scalar scanner passes over: bytes that are
/// not commas and do not fold to a closing bracket.
pub open spec fn scalar_run(s: Seq<u8>) -> int
    decreases s.len(),
{
    if s.len() == 0 || s[0] == 0x2C || (s[0] & 0xDF) == 0x5D {
        0
    } else {
        1 + scalar_run(s.skip(1))
    }
}

/// The scalar run is a prefix of the input.
pub proof fn lemma_scalar_run_bounds(s: Seq<u8>)
    ensures
        0 <= scalar_run(s) <= s.len(),
    decreases s.len(),
{
    if s.len() == 0 || s[0] == 0x2C || (s[0] & 0xDF) == 0x5D {
    } else {
        lemma_scalar_run_bounds(s.skip(1));
    }
}

/// After the first byte of a scalar, the scanner consumes the rest of the
/// run and its terminator, and reports whether that terminator is a comma.
proof fn lemma_scalar_run_scan(s: Seq<u8>)
    requires
        scalar_run(s) >= 1,
    ensures
        scalar_run(s) < s.len() ==> scan_scalar(s.skip(1)) == Some(
            (scalar_run(s), s[scalar_run(s)] == 0x2C),
        ),
        scalar_run(s) == s.len() ==> scan_scalar(s.skip(1)) is None,
    decreases s.len(),
{
    lemma_scalar_run_bounds(s.skip(1));
    assert(scalar_run(s) == 1 + scalar_run(s.skip(1)));
    if scalar_run(s.skip(1)) >= 1 {
        assert(s.skip(1)[0] == s[1]);
        lemma_scalar_run_scan(s.skip(1));
        assert(s.skip(1).skip(1) =~= s.skip(2));
        if scalar_run(s) < s.len() {
            assert(s.skip(1)[scalar_run(s.skip(1))] == s[scalar_run(s)]);
            assert(scan_scalar(s.skip(1)) == Some((scalar_run(s), s[scalar_run(s)] == 0x2C)));
        } else {
            assert(scan_scalar(s.skip(2)) is None);
            assert(scan_scalar(s.skip(1)) is None);
        }
    } else {
        // the run ends right after the first byte
        if s.len() >= 2 {
            assert(s.skip(1)[0] == s[1]);
            assert(s.skip(1).len() > 0);
            lemma_scalar_run_bounds(s.skip(1).skip(1));
            assert(s.skip(1)[0] == 0x2C || (s.skip(1)[0] & 0xDF) == 0x5D);
            assert(scan_scalar(s.skip(1)) == Some((1int, s[1] == 0x2C)));
        } else {
            assert(s.skip(1).len() == 0);
            assert(scan_scalar(s.skip(1)) is None);
        }
    }
}

/// Length and node array of the single well-formed value at the head of
/// the input: a string, an empty or non-empty composite, or a scalar run.
/// `None` when no well-formed value starts there.
pub open spec fn value_parse(s: Seq<u8>) -> Option<(int, Seq<Node>)>
    decreases s.len(), 0int,
    via value_parse_decreases
{
    if s.len() == 0 {
        None
    } else if s[0] == 0x22 {
        match scan_string(s.skip(1)) {
            None => None,
            Some(n) => Some((1 + n, seq![Node { children: 0, length_in_bytes: (1 + n) as u32 }])),
        }
    } else if s[0] == 0x5B || s[0] == 0x7B {
        if s.len() < 2 {
            None
        } else {
            let closer: u8 = if s[0] == 0x7B {
                0x7Du8
            } else {
                0x5Du8
            };
            if s[1] == closer {
                Some((2, seq![Node { children: 0, length_in_bytes: 2 }]))
            } else {
                match members_parse(s.skip(1), s[0] == 0x7B) {
                    None => None,
                    Some(m) => Some(
                        (
                            1 + m.0,
                            seq![
                                Node {
                                    children: m.1.len() as u32,
                                    length_in_bytes: (1 + m.0) as u32,
                                },
                            ] + m.1,
                        ),
                    ),
                }
            }
        }
    } else {
        let run = scalar_run(s);
        if run >= 1 {
            Some((run, seq![Node { children: 0, length_in_bytes: run as u32 }]))
        } else {
            None
        }
    }
}

/// Length (closing bracket included) and node array of a non-empty member
/// list, starting just after the opening bracket: values separated by
/// commas, each preceded inside an object by a string key and a colon, and
/// ended by the matching closing bracket.
pub open spec fn members_parse(s: Seq<u8>, obj: bool) -> Option<(int, Seq<Node>)>
    decreases s.len(), 1int,
    via members_parse_decreases
{
    let kl: int = if obj {
        if s.len() == 0 || s[0] != 0x22 {
            -1
        } else {
            match scan_string(s.skip(1)) {
                None => -1,
                Some(n) => if 1 <= n && 1 + n < s.len() && s[1 + n] == 0x3A {
                    2 + n
                } else {
                    -1
                },
            }
        }
    } else {
        0
    };
    if kl < 0 {
        None
    } else {
        let keynodes: Seq<Node> = if obj {
            seq![Node { children: 0, length_in_bytes: (kl - 1) as u32 }]
        } else {
            Seq::empty()
        };
        let s1 = s.skip(kl);
        match value_parse(s1) {
            None => None,
            Some(v) => {
                if v.0 < 1 || v.0 >= s1.len() {
                    None
                } else {
                    let sep = s1[v.0];
                    let closer: u8 = if obj {
                        0x7Du8
                    } else {
                        0x5Du8
                    };
                    if sep == 0x2C {
                        match members_parse(s1.skip(v.0 + 1), obj) {
                            None => None,
                            Some(m) => Some(
                                (kl + v.0 + 1 + m.0, keynodes + v.1 + m.1),
                            ),
                        }
                    } else if sep == closer {
                        Some((kl + v.0 + 1, keynodes + v.1))
                    } else {
                        None
                    }
                }
            },
        }
    }
}

#[via_fn]
proof fn value_parse_decreases(s: Seq<u8>) {
}

#[via_fn]
proof fn members_parse_decreases(s: Seq<u8>, obj: bool) {
    if s.len() > 0 {
        lemma_scan_string_bounds(s.skip(1));
    }
}

/// A well-formed value is at least one byte and at most the whole input,
/// and yields at least one node and no more nodes than bytes; a member
/// list likewise.
pub proof fn lemma_value_parse_bounds(s: Seq<u8>)
    ensures
        value_parse(s) matches Some(v) ==> {
            &&& 1 <= v.0 <= s.len()
            &&& 1 <= v.1.len() <= v.0
        },
    decreases s.len(), 0int,
{
    if s.len() == 0 {
    } else if s[0] == 0x22 {
        lemma_scan_string_bounds(s.skip(1));
    } else if s[0] == 0x5B || s[0] == 0x7B {
        if s.len() >= 2 {
            lemma_members_parse_bounds(s.skip(1), s[0] == 0x7B);
        }
    } else {
        lemma_scalar_run_bounds(s);
    }
}

pub proof fn lemma_members_parse_bounds(s: Seq<u8>, obj: bool)
    ensures
        members_parse(s, obj) matches Some(m) ==> {
            &&& 2 <= m.0 <= s.len()
            &&& 1 <= m.1.len() < m.0
        },
    decreases s.len(), 1int,
{
    let kl: int = if obj {
        if s.len() == 0 || s[0] != 0x22 {
            -1
        } else {
            match scan_string(s.skip(1)) {
                None => -1,
                Some(n) => if 1 <= n && 1 + n < s.len() && s[1 + n] == 0x3A {
                    2 + n
                } else {
                    -1
                },
            }
        }
    } else {
        0
    };
    if kl >= 0 {
        let s1 = s.skip(kl);
        lemma_value_parse_bounds(s1);
        match value_parse(s1) {
            None => {},
            Some(v) => {
                if 1 <= v.0 < s1.len() {
                    if s1[v.0] == 0x2C {
                        lemma_members_parse_bounds(s1.skip(v.0 + 1), obj);
                    }
                }
            },
        }
    }
}

/// Whether the value at the head of the input is a non-empty composite.
pub open spec fn opens_composite(u: Seq<u8>) -> bool {
    u.len() >= 2 && (u[0] == 0x5B || u[0] == 0x7B) && u[1] != (if u[0] == 0x7B {
        0x7Du8
    } else {
        0x5Du8
    })
}

/// Processing one well-formed value: the machine emits exactly the value's
/// node array and continues at the byte after the value.  A non-empty
/// composite with an empty stack is the root: the machine finishes with
/// exactly the value's nodes appended.
#[verifier::rlimit(100)]
proof fn lemma_complete_value(u: Seq<u8>, out: Seq<Node>, stk: Seq<u32>, pobj: bool)
    requires
        value_parse(u) is Some,
        stk.len() > 0 ==> pobj == ((stk.last() & 1) == 1),
        out.len() + u.len() <= 0x7FFF_FFFF,
    ensures
        ({
            let v = value_parse(u)->Some_0;
            if opens_composite(u) && stk.len() == 0 {
                phase_value(u, out, stk, pobj) == Some(out + v.1)
            } else {
                phase_value(u, out, stk, pobj) == value_end(u.skip(v.0), out + v.1, stk, pobj)
            }
        }),
    decreases u.len(), 0int,
{
    let v = value_parse(u)->Some_0;
    let c = u[0];
    if c == 0x22 {
        let n = scan_string(u.skip(1))->Some_0;
        lemma_scan_string_bounds(u.skip(1));
        let node = Node { children: 0, length_in_bytes: (1 + n) as u32 };
        assert(out.push(node) =~= out + seq![node]);
    } else if c == 0x5B || c == 0x7B {
        let closer: u8 = if c == 0x7B {
            0x7Du8
        } else {
            0x5Du8
        };
        if u[1] == closer {
            let node = Node { children: 0, length_in_bytes: 2 };
            assert(out.push(node) =~= out + seq![node]);
        } else {
            let obj = c == 0x7B;
            let m = members_parse(u.skip(1), obj)->Some_0;
            lemma_members_parse_bounds(u.skip(1), obj);
            let entry = ((out.len() as u32) << 1) | (if obj {
                1u32
            } else {
                0u32
            });
            let ph = Node { children: 0, length_in_bytes: u.len() as u32 };
            let out1 = out.push(ph);
            let stk1 = stk.push(entry);
            assert(stk1.last() == entry && stk1[stk1.len() - 1] == entry);
            assert(stk1.drop_last() =~= stk);
            assert(out.len() < 0x80000000);
            let nu32 = out.len() as u32;
            assert(nu32 < 0x80000000 ==> ((nu32 << 1) | 1u32) >> 1 == nu32 && ((nu32 << 1)
                | 0u32) >> 1 == nu32 && ((nu32 << 1) | 1u32) & 1 == 1 && ((nu32 << 1) | 0u32) & 1
                == 0) by (bit_vector);
            assert(((entry >> 1) as int) == out.len());
            assert(((entry & 1) == 1) == obj);
            lemma_complete_members(u.skip(1), out1, stk1, obj);
            assert(u.skip(1).skip(m.0) =~= u.skip(1 + m.0));
            let outm = out1 + m.1;
            let off = (entry >> 1) as int;
            assert(outm[off] == ph);
            let rem = u.skip(1 + m.0);
            let stored = ph.length_in_bytes as int;
            assert(stored == u.len());
            assert(stored >= rem.len());
            let fin = Node {
                children: (outm.len() - off - 1) as u32,
                length_in_bytes: (stored - rem.len()) as u32,
            };
            assert(outm.len() - off - 1 == m.1.len());
            assert(m.1.len() < u.len());
            assert(fin.children == m.1.len());
            assert(stored - rem.len() == 1 + m.0);
            let out2 = outm.update(off, fin);
            assert(fin == Node {
                children: m.1.len() as u32,
                length_in_bytes: (1 + m.0) as u32,
            });
            assert(v.1 == seq![fin] + m.1);
            assert(out2 =~= out + v.1);
            assert(u.skip(v.0) =~= rem);
            if stk.len() == 0 {
                assert(phase_end(rem, outm, stk1, obj) == Some(out2));
                assert(phase_value(u, out, stk, pobj) == Some(out + v.1));
            } else {
                assert(((stk.last() & 1) == 1) == pobj);
                assert(phase_end(rem, outm, stk1, obj) == value_end(rem, out2, stk, pobj));
            }
        }
    } else {
        let run = scalar_run(u);
        lemma_scalar_run_bounds(u);
        lemma_scalar_run_scan(u);
        let node = Node { children: 0, length_in_bytes: run as u32 };
        assert(out.push(node) =~= out + seq![node]);
        if run < u.len() {
            assert(u.skip(1 + run) =~= u.skip(run).skip(1));
            assert(u.skip(run)[0] == u[run]);
        } else {
            assert(u.skip(run).len() == 0);
        }
    }
}

/// Processing a well-formed member list: the machine emits the members'
/// nodes and enters the closing phase just after the closing bracket.
#[verifier::rlimit(100)]
proof fn lemma_complete_members(u: Seq<u8>, out: Seq<Node>, stk: Seq<u32>, obj: bool)
    requires
        members_parse(u, obj) is Some,
        stk.len() > 0,
        (stk.last() & 1) == (if obj {
            1u32
        } else {
            0u32
        }),
        out.len() + u.len() <= 0x7FFF_FFFF,
    ensures
        ({
            let m = members_parse(u, obj)->Some_0;
            phase_b(u, out, stk, obj) == phase_end(u.skip(m.0), out + m.1, stk, obj)
        }),
    decreases u.len(), 1int,
{
    let m = members_parse(u, obj)->Some_0;
    let kl: int = if obj {
        2 + scan_string(u.skip(1))->Some_0
    } else {
        0
    };
    let keynodes: Seq<Node> = if obj {
        seq![Node { children: 0, length_in_bytes: (kl - 1) as u32 }]
    } else {
        Seq::empty()
    };
    let s1 = u.skip(kl);
    let v = value_parse(s1)->Some_0;
    lemma_value_parse_bounds(s1);
    let out1 = out + keynodes;
    if obj {
        let n = scan_string(u.skip(1))->Some_0;
        lemma_scan_string_bounds(u.skip(1));
        assert(kl == 2 + n);
        assert(out.push(Node { children: 0, length_in_bytes: (1 + n) as u32 }) =~= out1);
    } else {
        assert(out1 =~= out);
        assert(s1 =~= u);
    }
    assert(obj == ((stk.last() & 1) == 1));
    lemma_complete_value(s1, out1, stk, obj);
    assert(phase_b(u, out, stk, obj) == phase_value(s1, out1, stk, obj));
    let rem1 = s1.skip(v.0);
    let sep = s1[v.0];
    assert(rem1[0] == sep);
    let out2 = out1 + v.1;
    let closer: u8 = if obj {
        0x7Du8
    } else {
        0x5Du8
    };
    if sep == 0x2C {
        let nxt = s1.skip(v.0 + 1);
        let m2 = members_parse(nxt, obj)->Some_0;
        lemma_members_parse_bounds(nxt, obj);
        assert(rem1.skip(1) =~= nxt);
        lemma_complete_members(nxt, out2, stk, obj);
        assert(nxt.skip(m2.0) =~= u.skip(m.0));
        assert(out2 + m2.1 =~= out + m.1);
    } else {
        assert(sep == closer);
        assert(rem1.skip(1) =~= u.skip(m.0));
        assert(out2 =~= out + m.1);
    }
}

/// Law: on a well-formed compact document the parser succeeds, appends
/// exactly the document's node array, and the root node spans the whole
/// compact input.
pub proof fn lemma_parse_complete(s: Seq<u8>, out0: Seq<Node>)
    requires
        out0.len() + s.len() <= 0x7FFF_FFFF,
        s.len() >= 1,
        s[0] == 0x5B || s[0] == 0x7B,
        value_parse(s) matches Some(v) && v.0 == s.len(),
    ensures
        parse_model(s, out0) == Some(out0 + value_parse(s)->Some_0.1),
        parse_model(s, out0)->Some_0.len() > out0.len(),
        parse_model(s, out0)->Some_0[out0.len() as int].length_in_bytes == s.len(),
        child_sum(
            parse_model(s, out0)->Some_0,
            out0.len() as int,
            parse_model(s, out0)->Some_0.len() as int,
        ) == 1 + s.len(),
{
    let v = value_parse(s)->Some_0;
    lemma_value_parse_bounds(s);
    assert(v.1[0].children == v.1.len() - 1) by {
        if s.len() >= 2 && s[1] != (if s[0] == 0x7B {
            0x7Du8
        } else {
            0x5Du8
        }) {
            lemma_members_parse_bounds(s.skip(1), s[0] == 0x7B);
        }
    }
    if s.len() == 2 {
        if s[1] != (if s[0] == 0x7B {
            0x7Du8
        } else {
            0x5Du8
        }) {
            lemma_members_parse_bounds(s.skip(1), s[0] == 0x7B);
            assert(false);
        }
        assert(v.1 =~= seq![Node { children: 0, length_in_bytes: 2 }]);
        assert(out0.push(Node { children: 0, length_in_bytes: 2 }) =~= out0 + v.1);
    } else {
        if !opens_composite(s) {
            // a two-byte empty composite is the only composite of its length
            assert(v.0 == 2);
        }
        assert(opens_composite(s));
        lemma_complete_value(s, out0, Seq::empty(), false);
        assert(phase_end(s, out0, Seq::empty(), false) == phase_b(s, out0, Seq::empty(), false));
    }
    let res = out0 + v.1;
    assert(res[out0.len() as int] == v.1[0]);
    assert(v.1[0].length_in_bytes == s.len());
    // the sibling chain from the root is the root alone, and each sibling
    // contributes its span plus one byte
    assert(child_sum(res, res.len() as int, res.len() as int) == 0);
    assert(out0.len() + 1 + res[out0.len() as int].children == res.len());
    assert(child_sum(res, out0.len() as int, res.len() as int) == 1 + s.len());
}

} // verus!
