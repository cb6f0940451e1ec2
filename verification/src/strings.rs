//! Byte-string escaping and unescaping.
//!
//! `escape_bytes` turns control characters, quotes and backslashes into JSON
//! string escapes; `unescape_bytes` decodes them back.  Both are specified by
//! recursive models over byte sequences, and unescaping an escaped string is
//! proved to give back the original bytes.

use vstd::prelude::*;

verus! {

/// Uppercase ASCII hex digit for a nibble value.
pub open spec fn hex_char(n: u8) -> u8
    recommends
        n < 16,
{
    if n < 10 {
        (0x30 + n) as u8
    } else {
        (0x41 + (n - 10)) as u8
    }
}

/// Executable form of `hex_char`.
pub(crate) fn hex_char_ex(n: u8) -> (r: u8)
    requires
        n < 16,
    ensures
        r == hex_char(n),
{
    if n < 10 {
        0x30 + n
    } else {
        0x41 + (n - 10)
    }
}

/// What `escape_bytes` emits for a single input byte: the canonical short
/// escape for the control characters that have one, `\u00XX` with uppercase
/// hex for the other control characters, `\"` and `\\` for quote and
/// backslash, and the byte itself otherwise.
pub open spec fn escape_byte(c: u8) -> Seq<u8> {
    if c == 0x08 {
        seq![0x5Cu8, 0x62u8]  // \b
    } else if c == 0x09 {
        seq![0x5Cu8, 0x74u8]  // \t
    } else if c == 0x0A {
        seq![0x5Cu8, 0x6Eu8]  // \n
    } else if c == 0x0C {
        seq![0x5Cu8, 0x66u8]  // \f
    } else if c == 0x0D {
        seq![0x5Cu8, 0x72u8]  // \r
    } else if c < 0x20 {
        seq![0x5Cu8, 0x75u8, 0x30u8, 0x30u8, (0x30 + c / 16) as u8, hex_char(c % 16)]
    } else if c == 0x22 || c == 0x5C {
        seq![0x5Cu8, c]
    } else {
        seq![c]
    }
}

/// The escaped form of a whole byte sequence.
pub open spec fn escape_model(s: Seq<u8>) -> Seq<u8>
    decreases s.len(),
{
    if s.len() == 0 {
        Seq::empty()
    } else {
        escape_byte(s[0]) + escape_model(s.skip(1))
    }
}

/// The byte that decoding `\u00XX` emits, given the last two hex digit bytes.
/// Only those two digits are read; the computation wraps on bytes that are
/// not hex digits, exactly as the executable code's does.
pub open spec fn unescape_u_value(h2: u8, h3: u8) -> u8 {
    let v = vstd::wrapping::u8_specs::wrapping_add(
        vstd::wrapping::u8_specs::wrapping_sub(h2, 0x30) << 4,
        vstd::wrapping::u8_specs::wrapping_sub(h3, 0x30) & 0x1F,
    );
    if h3 > 0x39 {
        vstd::wrapping::u8_specs::wrapping_sub(v, 7)
    } else {
        v
    }
}

/// The decoded form of an escaped byte sequence: `None` on a truncated or
/// unknown escape.
pub open spec fn unescape_model(s: Seq<u8>) -> Option<Seq<u8>>
    decreases s.len(),
{
    if s.len() == 0 {
        Some(Seq::empty())
    } else if s[0] != 0x5C {
        match unescape_model(s.skip(1)) {
            None => None,
            Some(t) => Some(seq![s[0]] + t),
        }
    } else if s.len() < 2 {
        None
    } else {
        let e = s[1];
        if e == 0x22 || e == 0x5C {
            match unescape_model(s.skip(2)) {
                None => None,
                Some(t) => Some(seq![e] + t),
            }
        } else if e == 0x62 || e == 0x66 || e == 0x6E || e == 0x72 || e == 0x74 {
            let decoded: u8 = if e == 0x62 {
                0x08
            } else if e == 0x66 {
                0x0C
            } else if e == 0x6E {
                0x0A
            } else if e == 0x72 {
                0x0D
            } else {
                0x09
            };
            match unescape_model(s.skip(2)) {
                None => None,
                Some(t) => Some(seq![decoded] + t),
            }
        } else if e == 0x75 {
            if s.len() < 6 {
                None
            } else {
                match unescape_model(s.skip(6)) {
                    None => None,
                    Some(t) => Some(seq![unescape_u_value(s[4], s[5])] + t),
                }
            }
        } else {
            None
        }
    }
}

/// Decoding one escaped byte recovers it: for `c < 0x20` the `\u00XX` form
/// decodes back to `c`.
proof fn lemma_u_escape_roundtrip(c: u8)
    requires
        c < 0x20,
    ensures
        unescape_u_value((0x30 + c / 16) as u8, hex_char((c % 16) as u8)) == c,
{
    let h2 = (0x30 + c / 16) as u8;
    let h3 = hex_char((c % 16) as u8);
    assert(unescape_u_value(h2, h3) == c) by (bit_vector)
        requires
            c < 0x20,
            h2 == (0x30 + c / 16) as u8,
            h3 == hex_char((c % 16) as u8),
    ;
}

/// Law: unescaping an escaped byte string gives back the original bytes,
/// for every byte string.
pub proof fn lemma_unescape_escape(s: Seq<u8>)
    ensures
        unescape_model(escape_model(s)) == Some(s),
    decreases s.len(),
{
    if s.len() == 0 {
        assert(escape_model(s) == Seq::<u8>::empty());
        assert(unescape_model(escape_model(s)) == Some(Seq::<u8>::empty()));
        assert(Seq::<u8>::empty() =~= s);
    } else {
        let c = s[0];
        let tail = s.skip(1);
        lemma_unescape_escape(tail);
        let e = escape_byte(c);
        let r = escape_model(tail);
        assert(escape_model(s) == e + r);
        assert((e + r).skip(e.len() as int) =~= r);
        assert(seq![c] + tail =~= s);
        if c == 0x08 || c == 0x09 || c == 0x0A || c == 0x0C || c == 0x0D {
            assert((e + r)[0] == 0x5C && (e + r)[1] == e[1]);
            assert(unescape_model(e + r) == Some(seq![c] + tail));
        } else if c < 0x20 {
            assert((e + r)[0] == 0x5C && (e + r)[1] == 0x75 && (e + r)[4] == e[4] && (e + r)[5]
                == e[5]);
            lemma_u_escape_roundtrip(c);
            assert(unescape_model(e + r) == Some(seq![c] + tail));
        } else if c == 0x22 || c == 0x5C {
            assert((e + r)[0] == 0x5C && (e + r)[1] == c);
            assert(unescape_model(e + r) == Some(seq![c] + tail));
        } else {
            assert((e + r)[0] == c && c != 0x5C);
            assert(unescape_model(e + r) == Some(seq![c] + tail));
        }
    }
}

/// True of a byte that escaping leaves alone: printable ASCII other than
/// the quote and the backslash.
pub open spec fn is_plain_ascii(c: u8) -> bool {
    0x20 <= c && c <= 0x7E && c != 0x22 && c != 0x5C
}

/// On bytes that escaping leaves alone, the escaped form is the input itself.
pub proof fn lemma_escape_plain_identity(s: Seq<u8>)
    requires
        forall|j: int| 0 <= j < s.len() ==> is_plain_ascii(s[j]),
    ensures
        escape_model(s) == s,
    decreases s.len(),
{
    if s.len() == 0 {
        assert(escape_model(s) =~= s);
    } else {
        lemma_escape_plain_identity(s.skip(1));
        assert(seq![s[0]] + s.skip(1) =~= s);
    }
}

/// Law: escaping is idempotent on byte strings of printable ASCII that
/// contain no quote and no backslash.
pub proof fn lemma_escape_idempotent(s: Seq<u8>)
    requires
        forall|j: int| 0 <= j < s.len() ==> is_plain_ascii(s[j]),
    ensures
        escape_model(escape_model(s)) == escape_model(s),
{
    lemma_escape_plain_identity(s);
}

/// Escape a byte string for use as JSON string content.
///
/// Control characters become their canonical short escape or `\u00XX` with
/// uppercase hex, `"` and `\` are backslash-escaped, and every other byte is
/// copied through unchanged.
pub fn escape_bytes(input: &[u8]) -> (r: Vec<u8>)
    ensures
        r@ == escape_model(input@),
{
    let ghost s = input@;
    let mut output: Vec<u8> = Vec::new();
    let mut i: usize = 0;
    proof {
        assert(s.skip(0) =~= s);
        assert(Seq::<u8>::empty() + escape_model(s) =~= escape_model(s));
    }
    while i < input.len()
        invariant
            i <= s.len(),
            s == input@,
            escape_model(s) == output@ + escape_model(s.skip(i as int)),
        decreases s.len() - i,
    {
        let c = input[i];
        let ghost out0 = output@;
        if c < 0x20 {
            output.push(0x5C);
            if c == 0x08 {
                output.push(0x62);
            } else if c == 0x09 {
                output.push(0x74);
            } else if c == 0x0A {
                output.push(0x6E);
            } else if c == 0x0C {
                output.push(0x66);
            } else if c == 0x0D {
                output.push(0x72);
            } else {
                output.push(0x75);
                output.push(0x30);
                output.push(0x30);
                proof {
                    assert(c < 0x20 ==> (c >> 4) == c / 16 && (c >> 4) < 2 && (c & 0xF) == c % 16
                        && (c & 0xF) < 16) by (bit_vector);
                }
                output.push(0x30 + (c >> 4));
                let low = hex_char_ex(c & 0xF);
                output.push(low);
            }
        } else {
            if c == 0x22 || c == 0x5C {
                output.push(0x5C);
            }
            output.push(c);
        }
        proof {
            assert(output@ =~= out0 + escape_byte(c));
            assert(s.skip(i as int).skip(1) =~= s.skip(i + 1));
            assert(escape_model(s.skip(i as int)) == escape_byte(c) + escape_model(s.skip(i + 1)));
            assert(out0 + (escape_byte(c) + escape_model(s.skip(i + 1))) =~= (out0 + escape_byte(c))
                + escape_model(s.skip(i + 1)));
        }
        i = i + 1;
    }
    proof {
        assert(s.skip(s.len() as int) =~= Seq::<u8>::empty());
        assert(output@ + escape_model(s.skip(s.len() as int)) =~= output@);
    }
    output
}

/// Decode JSON string escapes in a byte string.
///
/// Supported escapes are `\"`, `\\`, `\b`, `\f`, `\n`, `\r`, `\t` and
/// `\uXXXX`, of which only the last two hex digits are kept (the decoder is
/// the inverse of `escape_bytes`, which never emits a larger code point).
/// Returns `None` on a truncated or unknown escape.
pub fn unescape_bytes(input: &[u8]) -> (r: Option<Vec<u8>>)
    ensures
        match r {
            Some(v) => unescape_model(input@) == Some(v@),
            None => unescape_model(input@) is None,
        },
{
    let ghost s = input@;
    let mut output: Vec<u8> = Vec::new();
    let mut i: usize = 0;
    proof {
        assert(s.skip(0) =~= s);
    }
    while i < input.len()
        invariant
            i <= s.len(),
            s == input@,
            unescape_model(s) matches Some(t) ==> {
                &&& unescape_model(s.skip(i as int)) matches Some(u)
                &&& t == output@ + u
            },
            unescape_model(s.skip(i as int)) matches Some(u) ==> unescape_model(s) == Some(
                output@ + u,
            ),
        decreases s.len() - i,
    {
        let ghost rest = s.skip(i as int);
        let ghost out0 = output@;
        let ghost mut step: int = 0;
        let ghost mut emitted: Seq<u8> = Seq::empty();
        let c = input[i];
        proof {
            assert(rest[0] == s[i as int]);
        }
        if c != 0x5C {
            output.push(c);
            i = i + 1;
            proof {
                step = 1;
                emitted = seq![c];
            }
        } else {
            if input.len() - i < 2 {
                proof {
                    assert(rest.len() < 2);
                    assert(unescape_model(rest) is None);
                }
                return None;
            }
            let e = input[i + 1];
            proof {
                assert(rest[1] == s[i + 1]);
            }
            if e == 0x22 || e == 0x5C {
                output.push(e);
                i = i + 2;
                proof {
                    step = 2;
                    emitted = seq![e];
                }
            } else if e == 0x62 {
                output.push(0x08);
                i = i + 2;
                proof {
                    step = 2;
                    emitted = seq![0x08u8];
                }
            } else if e == 0x66 {
                output.push(0x0C);
                i = i + 2;
                proof {
                    step = 2;
                    emitted = seq![0x0Cu8];
                }
            } else if e == 0x6E {
                output.push(0x0A);
                i = i + 2;
                proof {
                    step = 2;
                    emitted = seq![0x0Au8];
                }
            } else if e == 0x72 {
                output.push(0x0D);
                i = i + 2;
                proof {
                    step = 2;
                    emitted = seq![0x0Du8];
                }
            } else if e == 0x74 {
                output.push(0x09);
                i = i + 2;
                proof {
                    step = 2;
                    emitted = seq![0x09u8];
                }
            } else if e == 0x75 {
                if input.len() - i < 6 {
                    proof {
                        assert(rest.len() < 6);
                        assert(unescape_model(rest) is None);
                    }
                    return None;
                }
                let h2 = input[i + 4];
                let h3 = input[i + 5];
                proof {
                    assert(rest[4] == s[i + 4] && rest[5] == s[i + 5]);
                }
                let v: u8 = (h2.wrapping_sub(0x30) << 4u8).wrapping_add(
                    h3.wrapping_sub(0x30) & 0x1F,
                );
                let decoded: u8 = if h3 > 0x39 {
                    v.wrapping_sub(7)
                } else {
                    v
                };
                proof {
                    assert(decoded == unescape_u_value(h2, h3));
                }
                output.push(decoded);
                i = i + 6;
                proof {
                    step = 6;
                    emitted = seq![unescape_u_value(s[i - 2], s[i - 1])];
                }
            } else {
                proof {
                    assert(unescape_model(rest) is None);
                }
                return None;
            }
        }
        proof {
            assert(output@ =~= out0 + emitted);
            assert(rest.skip(step) =~= s.skip(i as int));
            assert(unescape_model(rest) == match unescape_model(s.skip(i as int)) {
                None => None::<Seq<u8>>,
                Some(t) => Some(emitted + t),
            });
            if unescape_model(s.skip(i as int)) is Some {
                let u = unescape_model(s.skip(i as int))->Some_0;
                assert(out0 + (emitted + u) =~= output@ + u);
            }
        }
    }
    proof {
        assert(s.skip(s.len() as int) =~= Seq::<u8>::empty());
        assert(output@ + Seq::<u8>::empty() =~= output@);
    }
    Some(output)
}

} // verus!
