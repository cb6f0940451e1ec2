//! JSON compaction: strip whitespace outside strings and canonicalize
//! string escapes.
//!
//! The compactor is a two-state byte transducer.  Outside strings every byte
//! at or below 0x20 is dropped and every other byte is copied.  Inside
//! strings, `\/` loses its backslash, `\uXXXX` is re-encoded (shortest
//! canonical escape below 0x20, raw byte or UTF-8 above, surrogate pairs
//! combined into 4-byte UTF-8), and every other escape is passed through.
//! The transduction is specified by the recursive models below and the
//! executable code is proved to match them exactly.

use vstd::prelude::*;

use crate::parse::lemma_scan_string_bounds;
use crate::parse::scan_string;
use crate::readhex::read_hexdigits;
use crate::readhex::swar4;
use crate::strings::hex_char;
use crate::strings::hex_char_ex;

verus! {

/// Prepend a prefix onto the payload of an optional byte sequence.
pub open spec fn opt_prepend(p: Seq<u8>, o: Option<Seq<u8>>) -> Option<Seq<u8>> {
    match o {
        None => None,
        Some(t) => Some(p + t),
    }
}

proof fn lemma_opt_prepend_assoc(a: Seq<u8>, b: Seq<u8>, o: Option<Seq<u8>>)
    ensures
        opt_prepend(a, opt_prepend(b, o)) == opt_prepend(a + b, o),
{
    match o {
        None => {},
        Some(t) => {
            assert(a + (b + t) =~= (a + b) + t);
        },
    }
}

/// Whether a `\uXXXX` escape body (starting at the first hex digit) is
/// complete: four bytes, and six more after them when the first four spell
/// a high surrogate.
pub open spec fn unicode_ok(s: Seq<u8>) -> bool {
    if s.len() < 4 {
        false
    } else {
        let x = swar4(s[0], s[1], s[2], s[3]);
        if 0xD800 <= x && x < 0xDC00 {
            s.len() >= 10
        } else {
            true
        }
    }
}

/// How many input bytes the escape body consumes: ten for a surrogate
/// pair, four otherwise.
pub open spec fn unicode_len(s: Seq<u8>) -> int
    recommends
        unicode_ok(s),
{
    let x = swar4(s[0], s[1], s[2], s[3]);
    if 0xD800 <= x && x < 0xDC00 {
        10
    } else {
        4
    }
}

/// What the compactor emits for a `\uXXXX` escape body.
pub open spec fn unicode_emit(s: Seq<u8>) -> Seq<u8>
    recommends
        unicode_ok(s),
{
    let x = swar4(s[0], s[1], s[2], s[3]);
    if x < 0x20 {
        let b = x as u8;
        if b == 0x08 {
            seq![0x5Cu8, 0x62u8]  // \b
        } else if b == 0x09 {
            seq![0x5Cu8, 0x74u8]  // \t
        } else if b == 0x0A {
            seq![0x5Cu8, 0x6Eu8]  // \n
        } else if b == 0x0C {
            seq![0x5Cu8, 0x66u8]  // \f
        } else if b == 0x0D {
            seq![0x5Cu8, 0x72u8]  // \r
        } else {
            seq![0x5Cu8, 0x75u8, 0x30u8, 0x30u8, (0x30 + b / 16) as u8, hex_char(b % 16)]
        }
    } else if x < 0x80 {
        let b = x as u8;
        if b == 0x22 || b == 0x5C {
            seq![0x5Cu8, b]
        } else {
            seq![b]
        }
    } else if x < 0x800 {
        seq![((x >> 6) as u8) | 0xC0, ((x as u8) & 0x3F) | 0x80]
    } else if x < 0xD800 || x >= 0xDC00 {
        seq![
            ((x >> 12) as u8) | 0xE0,
            (((x >> 6) & 0x3F) as u8) | 0x80,
            ((x as u8) & 0x3F) | 0x80,
        ]
    } else {
        let y = swar4(s[6], s[7], s[8], s[9]);
        let cp = (0x10000 + (((x & 0x3FF) << 10) | (y & 0x3FF))) as u32;
        seq![
            ((cp >> 18) as u8) | 0xF0,
            (((cp >> 12) & 0x3F) as u8) | 0x80,
            (((cp >> 6) & 0x3F) as u8) | 0x80,
            ((cp as u8) & 0x3F) | 0x80,
        ]
    }
}

/// The compact form of the input read in outer mode (not inside a string):
/// `None` when the input is truncated inside a string or an escape.
pub open spec fn compact_model(s: Seq<u8>) -> Option<Seq<u8>>
    decreases s.len(), 1int,
{
    if s.len() == 0 {
        Some(Seq::empty())
    } else if s[0] <= 0x20 {
        compact_model(s.skip(1))
    } else if s[0] == 0x22 {
        opt_prepend(seq![0x22u8], compact_string_model(s.skip(1)))
    } else {
        opt_prepend(seq![s[0]], compact_model(s.skip(1)))
    }
}

/// The compact form of the input read in string mode, starting just after
/// an opening quote or after an already-handled escape.
pub open spec fn compact_string_model(s: Seq<u8>) -> Option<Seq<u8>>
    decreases s.len(), 0int,
{
    if s.len() == 0 {
        None
    } else if s[0] == 0x22 {
        opt_prepend(seq![0x22u8], compact_model(s.skip(1)))
    } else if s[0] == 0x5C {
        if s.len() < 2 {
            None
        } else if s[1] == 0x75 {
            if !unicode_ok(s.skip(2)) {
                None
            } else {
                opt_prepend(
                    unicode_emit(s.skip(2)),
                    compact_string_model(s.skip(2 + unicode_len(s.skip(2)))),
                )
            }
        } else if s[1] == 0x2F {
            opt_prepend(seq![0x2Fu8], compact_string_model(s.skip(2)))
        } else {
            opt_prepend(seq![0x5Cu8, s[1]], compact_string_model(s.skip(2)))
        }
    } else {
        opt_prepend(seq![s[0]], compact_string_model(s.skip(1)))
    }
}

/// No byte at or below 0x20 stands outside a string span.  Spans are read
/// as the parser reads them: a quote opens a span, and inside it a
/// backslash skips the byte after it.
pub open spec fn no_ws_outside_strings(s: Seq<u8>) -> bool
    decreases s.len(),
    via no_ws_outside_strings_decreases
{
    if s.len() == 0 {
        true
    } else if s[0] == 0x22 {
        match scan_string(s.skip(1)) {
            None => true,  // an unterminated span reaches the end
            Some(n) => no_ws_outside_strings(s.skip(1 + n)),
        }
    } else if s[0] <= 0x20 {
        false
    } else {
        no_ws_outside_strings(s.skip(1))
    }
}

#[via_fn]
proof fn no_ws_outside_strings_decreases(s: Seq<u8>) {
    if s.len() > 0 {
        lemma_scan_string_bounds(s.skip(1));
    }
}

/// A byte that is neither a quote nor a backslash steps the string
/// scanner forward by one.
proof fn lemma_scan_cons(b: u8, u: Seq<u8>)
    requires
        b != 0x22,
        b != 0x5C,
    ensures
        scan_string(seq![b] + u) == match scan_string(u) {
            None => None::<int>,
            Some(m) => Some(1 + m),
        },
{
    let t = seq![b] + u;
    assert(t[0] == b);
    assert(t.skip(1) =~= u);
}

/// A backslash and any byte after it step the string scanner by two.
proof fn lemma_scan_esc(x: u8, u: Seq<u8>)
    ensures
        scan_string(seq![0x5Cu8, x] + u) == match scan_string(u) {
            None => None::<int>,
            Some(m) => Some(2 + m),
        },
{
    let t = seq![0x5Cu8, x] + u;
    assert(t[0] == 0x5C && t.len() >= 2);
    assert(t.skip(2) =~= u);
}

/// What the compactor emits for one `\uXXXX` escape never opens or closes
/// a string span: the scanner steps straight through it.
proof fn lemma_scan_unicode(s: Seq<u8>, u: Seq<u8>)
    requires
        unicode_ok(s),
    ensures
        scan_string(unicode_emit(s) + u) == match scan_string(u) {
            None => None::<int>,
            Some(m) => Some(unicode_emit(s).len() + m),
        },
{
    let x = swar4(s[0], s[1], s[2], s[3]);
    let em = unicode_emit(s);
    if x < 0x20 {
        let b = x as u8;
        if b == 0x08 || b == 0x09 || b == 0x0A || b == 0x0C || b == 0x0D {
            lemma_scan_esc(em[1], u);
            assert(seq![0x5Cu8, em[1]] =~= em);
            assert(seq![0x5Cu8, em[1]] + u =~= em + u);
        } else {
            let h2 = (0x30 + b / 16) as u8;
            let h3 = hex_char(b % 16);
            assert(h2 != 0x22 && h2 != 0x5C);
            assert(h3 != 0x22 && h3 != 0x5C);
            lemma_scan_cons(h3, u);
            lemma_scan_cons(h2, seq![h3] + u);
            assert(seq![h2] + (seq![h3] + u) =~= seq![h2, h3] + u);
            lemma_scan_cons(0x30, seq![h2, h3] + u);
            assert(seq![0x30u8] + (seq![h2, h3] + u) =~= seq![0x30u8, h2, h3] + u);
            lemma_scan_cons(0x30, seq![0x30u8, h2, h3] + u);
            assert(seq![0x30u8] + (seq![0x30u8, h2, h3] + u) =~= seq![0x30u8, 0x30u8, h2, h3] + u);
            lemma_scan_esc(0x75, seq![0x30u8, 0x30u8, h2, h3] + u);
            assert(seq![0x5Cu8, 0x75u8] + (seq![0x30u8, 0x30u8, h2, h3] + u) =~= em + u);
        }
    } else if x < 0x80 {
        let b = x as u8;
        if b == 0x22 || b == 0x5C {
            lemma_scan_esc(b, u);
            assert(seq![0x5Cu8, b] + u =~= em + u);
        } else {
            lemma_scan_cons(b, u);
            assert(seq![b] + u =~= em + u);
        }
    } else if x < 0x800 {
        let b0 = ((x >> 6) as u8) | 0xC0;
        let b1 = ((x as u8) & 0x3F) | 0x80;
        assert((((x >> 6) as u8) | 0xC0) >= 0x80 && ((((x as u8) & 0x3F) | 0x80)) >= 0x80)
            by (bit_vector);
        lemma_scan_cons(b1, u);
        lemma_scan_cons(b0, seq![b1] + u);
        assert(seq![b0] + (seq![b1] + u) =~= em + u);
    } else if x < 0xD800 || x >= 0xDC00 {
        let b0 = ((x >> 12) as u8) | 0xE0;
        let b1 = (((x >> 6) & 0x3F) as u8) | 0x80;
        let b2 = ((x as u8) & 0x3F) | 0x80;
        assert((((x >> 12) as u8) | 0xE0) >= 0x80 && (((((x >> 6) & 0x3F) as u8) | 0x80)) >= 0x80
            && ((((x as u8) & 0x3F) | 0x80)) >= 0x80) by (bit_vector);
        lemma_scan_cons(b2, u);
        lemma_scan_cons(b1, seq![b2] + u);
        assert(seq![b1] + (seq![b2] + u) =~= seq![b1, b2] + u);
        lemma_scan_cons(b0, seq![b1, b2] + u);
        assert(seq![b0] + (seq![b1, b2] + u) =~= em + u);
    } else {
        let y = swar4(s[6], s[7], s[8], s[9]);
        let cp = (0x10000 + (((x & 0x3FF) << 10) | (y & 0x3FF))) as u32;
        let b0 = ((cp >> 18) as u8) | 0xF0;
        let b1 = (((cp >> 12) & 0x3F) as u8) | 0x80;
        let b2 = (((cp >> 6) & 0x3F) as u8) | 0x80;
        let b3 = ((cp as u8) & 0x3F) | 0x80;
        assert((((cp >> 18) as u8) | 0xF0) >= 0x80 && (((((cp >> 12) & 0x3F) as u8) | 0x80))
            >= 0x80 && (((((cp >> 6) & 0x3F) as u8) | 0x80)) >= 0x80 && ((((cp as u8) & 0x3F)
            | 0x80)) >= 0x80) by (bit_vector);
        lemma_scan_cons(b3, u);
        lemma_scan_cons(b2, seq![b3] + u);
        assert(seq![b2] + (seq![b3] + u) =~= seq![b2, b3] + u);
        lemma_scan_cons(b1, seq![b2, b3] + u);
        assert(seq![b1] + (seq![b2, b3] + u) =~= seq![b1, b2, b3] + u);
        lemma_scan_cons(b0, seq![b1, b2, b3] + u);
        assert(seq![b0] + (seq![b1, b2, b3] + u) =~= em + u);
    }
}

/// Law: the compact form of an accepted input holds no byte at or below
/// 0x20 outside a string span.
pub proof fn lemma_compact_no_ws_outside_strings(s: Seq<u8>)
    requires
        compact_model(s) is Some,
    ensures
        no_ws_outside_strings(compact_model(s)->Some_0),
    decreases s.len(), 1int,
{
    let t = compact_model(s)->Some_0;
    if s.len() == 0 {
        assert(t.len() == 0);
    } else if s[0] <= 0x20 {
        lemma_compact_no_ws_outside_strings(s.skip(1));
    } else if s[0] == 0x22 {
        let u = compact_string_model(s.skip(1))->Some_0;
        lemma_ws_string_part(s.skip(1));
        let m = scan_string(u)->Some_0;
        lemma_scan_string_bounds(u);
        assert(t =~= seq![0x22u8] + u);
        assert(t[0] == 0x22);
        assert(t.skip(1) =~= u);
        assert(t.skip(1 + m) =~= u.skip(m));
    } else {
        let u = compact_model(s.skip(1))->Some_0;
        lemma_compact_no_ws_outside_strings(s.skip(1));
        assert(t =~= seq![s[0]] + u);
        assert(t[0] == s[0]);
        assert(t.skip(1) =~= u);
    }
}

/// In string mode the emitted bytes form the rest of a string span: the
/// scanner finds its closing quote, and past it the output again holds no
/// whitespace outside strings.
proof fn lemma_ws_string_part(s: Seq<u8>)
    requires
        compact_string_model(s) is Some,
    ensures
        ({
            let t = compact_string_model(s)->Some_0;
            &&& scan_string(t) is Some
            &&& no_ws_outside_strings(t.skip(scan_string(t)->Some_0))
        }),
    decreases s.len(), 0int,
{
    let t = compact_string_model(s)->Some_0;
    if s[0] == 0x22 {
        let u = compact_model(s.skip(1))->Some_0;
        lemma_compact_no_ws_outside_strings(s.skip(1));
        assert(t =~= seq![0x22u8] + u);
        assert(t[0] == 0x22);
        assert(scan_string(t) == Some(1int));
        assert(t.skip(1) =~= u);
    } else if s[0] == 0x5C {
        if s[1] == 0x75 {
            let k = unicode_len(s.skip(2));
            let u = compact_string_model(s.skip(2 + k))->Some_0;
            lemma_ws_string_part(s.skip(2 + k));
            lemma_scan_unicode(s.skip(2), u);
            let m = scan_string(u)->Some_0;
            lemma_scan_string_bounds(u);
            assert(t =~= unicode_emit(s.skip(2)) + u);
            assert(scan_string(t) == Some(unicode_emit(s.skip(2)).len() + m));
            assert(t.skip(unicode_emit(s.skip(2)).len() + m) =~= u.skip(m));
        } else if s[1] == 0x2F {
            let u = compact_string_model(s.skip(2))->Some_0;
            lemma_ws_string_part(s.skip(2));
            lemma_scan_cons(0x2F, u);
            let m = scan_string(u)->Some_0;
            lemma_scan_string_bounds(u);
            assert(t =~= seq![0x2Fu8] + u);
            assert(t.skip(1 + m) =~= u.skip(m));
        } else {
            let u = compact_string_model(s.skip(2))->Some_0;
            lemma_ws_string_part(s.skip(2));
            lemma_scan_esc(s[1], u);
            let m = scan_string(u)->Some_0;
            lemma_scan_string_bounds(u);
            assert(t =~= seq![0x5Cu8, s[1]] + u);
            assert(t.skip(2 + m) =~= u.skip(m));
        }
    } else {
        let u = compact_string_model(s.skip(1))->Some_0;
        lemma_ws_string_part(s.skip(1));
        lemma_scan_cons(s[0], u);
        let m = scan_string(u)->Some_0;
        lemma_scan_string_bounds(u);
        assert(t =~= seq![s[0]] + u);
        assert(t.skip(1 + m) =~= u.skip(m));
    }
}

/// A byte that is neither a quote nor a backslash passes through string
/// mode unchanged.
proof fn lemma_string_mode_cons(b: u8, u: Seq<u8>)
    requires
        b != 0x22,
        b != 0x5C,
    ensures
        compact_string_model(seq![b] + u) == opt_prepend(seq![b], compact_string_model(u)),
{
    let t = seq![b] + u;
    assert(t[0] == b);
    assert(t.skip(1) =~= u);
}

/// A backslash escape other than `\u` and `\/` passes through string mode
/// unchanged.
proof fn lemma_string_mode_esc(e: u8, u: Seq<u8>)
    requires
        e != 0x75,
        e != 0x2F,
    ensures
        compact_string_model(seq![0x5Cu8, e] + u) == opt_prepend(
            seq![0x5Cu8, e],
            compact_string_model(u),
        ),
{
    let t = seq![0x5Cu8, e] + u;
    assert(t[0] == 0x5C && t.len() >= 2 && t[1] == e);
    assert(t.skip(2) =~= u);
}

/// A `\u00XX` emission decodes back to the same value and re-encodes to
/// itself.
#[verifier::rlimit(100)]
proof fn lemma_string_mode_u00(b: u8, u: Seq<u8>)
    requires
        b < 0x20,
        b != 0x08,
        b != 0x09,
        b != 0x0A,
        b != 0x0C,
        b != 0x0D,
    ensures
        ({
            let em = seq![0x5Cu8, 0x75u8, 0x30u8, 0x30u8, (0x30 + b / 16) as u8, hex_char(b % 16)];
            compact_string_model(em + u) == opt_prepend(em, compact_string_model(u))
        }),
{
    let h2 = (0x30 + b / 16) as u8;
    let h3 = hex_char(b % 16);
    let em = seq![0x5Cu8, 0x75u8, 0x30u8, 0x30u8, h2, h3];
    let t = em + u;
    assert(t[0] == 0x5C && t[1] == 0x75 && t[2] == 0x30 && t[3] == 0x30 && t[4] == h2 && t[5]
        == h3);
    let body = t.skip(2);
    assert(body[0] == 0x30 && body[1] == 0x30 && body[2] == h2 && body[3] == h3);
    crate::readhex::lemma_swar4_hex_digits(0x30, 0x30, h2, h3);
    assert(crate::readhex::hex_digit_value(h2) == b / 16);
    assert(crate::readhex::hex_digit_value(h3) == b % 16);
    assert(swar4(0x30, 0x30, h2, h3) == b);
    assert(unicode_ok(body) && unicode_len(body) == 4);
    assert(unicode_emit(body) =~= em);
    assert(body.skip(4) =~= u);
    assert(t.skip(2 + unicode_len(body)) =~= u);
}

/// A run of bytes free of quotes and backslashes passes through string
/// mode unchanged.
proof fn lemma_string_mode_plain(em: Seq<u8>, u: Seq<u8>)
    requires
        forall|j: int| 0 <= j < em.len() ==> em[j] != 0x22 && em[j] != 0x5C,
    ensures
        compact_string_model(em + u) == opt_prepend(em, compact_string_model(u)),
    decreases em.len(),
{
    if em.len() == 0 {
        assert(em + u =~= u);
        match compact_string_model(u) {
            None => {},
            Some(w) => {
                assert(em + w =~= w);
            },
        }
    } else {
        let t = em + u;
        assert(t[0] == em[0]);
        assert(t.skip(1) =~= em.skip(1) + u);
        lemma_string_mode_plain(em.skip(1), u);
        lemma_opt_prepend_assoc(seq![em[0]], em.skip(1), compact_string_model(u));
        assert(seq![em[0]] + em.skip(1) =~= em);
    }
}

/// What the compactor emits for a `\uXXXX` escape is already canonical:
/// string mode passes it through unchanged.
#[verifier::rlimit(100)]
proof fn lemma_string_mode_unicode(s: Seq<u8>, u: Seq<u8>)
    requires
        unicode_ok(s),
    ensures
        compact_string_model(unicode_emit(s) + u) == opt_prepend(
            unicode_emit(s),
            compact_string_model(u),
        ),
{
    let x = swar4(s[0], s[1], s[2], s[3]);
    let em = unicode_emit(s);
    if x < 0x20 {
        let b = x as u8;
        if b == 0x08 || b == 0x09 || b == 0x0A || b == 0x0C || b == 0x0D {
            lemma_string_mode_esc(em[1], u);
            assert(seq![0x5Cu8, em[1]] =~= em);
            assert(seq![0x5Cu8, em[1]] + u =~= em + u);
        } else {
            lemma_string_mode_u00(b, u);
            assert(seq![0x5Cu8, 0x75u8, 0x30u8, 0x30u8, (0x30 + b / 16) as u8, hex_char(b % 16)]
                =~= em);
        }
    } else if x < 0x80 {
        let b = x as u8;
        if b == 0x22 || b == 0x5C {
            lemma_string_mode_esc(b, u);
            assert(seq![0x5Cu8, b] + u =~= em + u);
        } else {
            lemma_string_mode_plain(em, u);
        }
    } else if x < 0x800 {
        assert((((x >> 6) as u8) | 0xC0) >= 0x80 && ((((x as u8) & 0x3F) | 0x80)) >= 0x80)
            by (bit_vector);
        lemma_string_mode_plain(em, u);
    } else if x < 0xD800 || x >= 0xDC00 {
        assert((((x >> 12) as u8) | 0xE0) >= 0x80 && (((((x >> 6) & 0x3F) as u8) | 0x80)) >= 0x80
            && ((((x as u8) & 0x3F) | 0x80)) >= 0x80) by (bit_vector);
        lemma_string_mode_plain(em, u);
    } else {
        let y = swar4(s[6], s[7], s[8], s[9]);
        let cp = (0x10000 + (((x & 0x3FF) << 10) | (y & 0x3FF))) as u32;
        assert((((cp >> 18) as u8) | 0xF0) >= 0x80 && (((((cp >> 12) & 0x3F) as u8) | 0x80))
            >= 0x80 && (((((cp >> 6) & 0x3F) as u8) | 0x80)) >= 0x80 && ((((cp as u8) & 0x3F)
            | 0x80)) >= 0x80) by (bit_vector);
        lemma_string_mode_plain(em, u);
    }
}

/// Law: compaction is idempotent: the compact form of compact output is
/// that output itself.
pub proof fn lemma_compact_idempotent(s: Seq<u8>)
    requires
        compact_model(s) is Some,
    ensures
        compact_model(compact_model(s)->Some_0) == compact_model(s),
    decreases s.len(), 1int,
{
    let t = compact_model(s)->Some_0;
    if s.len() == 0 {
        assert(t.len() == 0);
    } else if s[0] <= 0x20 {
        lemma_compact_idempotent(s.skip(1));
    } else if s[0] == 0x22 {
        let u = compact_string_model(s.skip(1))->Some_0;
        lemma_string_part_idempotent(s.skip(1));
        assert(t =~= seq![0x22u8] + u);
        assert(t[0] == 0x22);
        assert(t.skip(1) =~= u);
    } else {
        let u = compact_model(s.skip(1))->Some_0;
        lemma_compact_idempotent(s.skip(1));
        assert(t =~= seq![s[0]] + u);
        assert(t[0] == s[0]);
        assert(t.skip(1) =~= u);
    }
}

/// String-mode output re-reads as itself: every emitted escape is already
/// canonical.
proof fn lemma_string_part_idempotent(s: Seq<u8>)
    requires
        compact_string_model(s) is Some,
    ensures
        compact_string_model(compact_string_model(s)->Some_0) == compact_string_model(s),
    decreases s.len(), 0int,
{
    let t = compact_string_model(s)->Some_0;
    if s[0] == 0x22 {
        let u = compact_model(s.skip(1))->Some_0;
        lemma_compact_idempotent(s.skip(1));
        assert(t =~= seq![0x22u8] + u);
        assert(t[0] == 0x22);
        assert(t.skip(1) =~= u);
    } else if s[0] == 0x5C {
        if s[1] == 0x75 {
            let k = unicode_len(s.skip(2));
            let u = compact_string_model(s.skip(2 + k))->Some_0;
            lemma_string_part_idempotent(s.skip(2 + k));
            lemma_string_mode_unicode(s.skip(2), u);
            assert(t =~= unicode_emit(s.skip(2)) + u);
        } else if s[1] == 0x2F {
            let u = compact_string_model(s.skip(2))->Some_0;
            lemma_string_part_idempotent(s.skip(2));
            lemma_string_mode_cons(0x2F, u);
            assert(t =~= seq![0x2Fu8] + u);
        } else {
            let u = compact_string_model(s.skip(2))->Some_0;
            lemma_string_part_idempotent(s.skip(2));
            lemma_string_mode_esc(s[1], u);
            assert(t =~= seq![0x5Cu8, s[1]] + u);
        }
    } else {
        let u = compact_string_model(s.skip(1))->Some_0;
        lemma_string_part_idempotent(s.skip(1));
        lemma_string_mode_cons(s[0], u);
        assert(t =~= seq![s[0]] + u);
    }
}

/// Re-encode one `\uXXXX` escape, with `*i` at the first hex digit.
/// Relies on nothing outside this crate; the decode is `read_hexdigits`.
fn compact_unicode_escape(input: &[u8], i: &mut usize, output: &mut Vec<u8>) -> (r: bool)
    requires
        *old(i) <= input@.len(),
    ensures
        ({
            let rest = input@.skip(*old(i) as int);
            if unicode_ok(rest) {
                &&& r
                &&& *final(i) == *old(i) + unicode_len(rest)
                &&& *final(i) <= input@.len()
                &&& final(output)@ == old(output)@ + unicode_emit(rest)
            } else {
                &&& !r
                &&& final(output)@ == old(output)@
            }
        }),
{
    let ghost rest = input@.skip(*i as int);
    let ghost out0 = output@;
    if input.len() - *i < 4 {
        proof {
            assert(rest.len() < 4);
        }
        return false;
    }
    let h0 = input[*i];
    let h1 = input[*i + 1];
    let h2 = input[*i + 2];
    let h3 = input[*i + 3];
    proof {
        assert(rest[0] == h0 && rest[1] == h1 && rest[2] == h2 && rest[3] == h3);
    }
    let escaped = read_hexdigits(h0, h1, h2, h3);
    let ghost x = swar4(rest[0], rest[1], rest[2], rest[3]);
    if escaped < 0x20 {
        *i = *i + 4;
        output.push(0x5C);
        let b = escaped as u8;
        if b == 0x08 {
            output.push(0x62);
        } else if b == 0x09 {
            output.push(0x74);
        } else if b == 0x0A {
            output.push(0x6E);
        } else if b == 0x0C {
            output.push(0x66);
        } else if b == 0x0D {
            output.push(0x72);
        } else {
            output.push(0x75);
            output.push(0x30);
            output.push(0x30);
            proof {
                assert(b < 0x20 ==> (b >> 4) == b / 16 && (b >> 4) < 2 && (b & 0xF) == b % 16 && (b
                    & 0xF) < 16) by (bit_vector);
            }
            output.push(0x30 + (b >> 4));
            let low = hex_char_ex(b & 0xF);
            output.push(low);
        }
        proof {
            assert(output@ =~= out0 + unicode_emit(rest));
        }
        true
    } else if escaped < 0x80 {
        *i = *i + 4;
        let b = escaped as u8;
        if b == 0x22 || b == 0x5C {
            output.push(0x5C);
        }
        output.push(b);
        proof {
            assert(output@ =~= out0 + unicode_emit(rest));
        }
        true
    } else if escaped < 0x800 {
        *i = *i + 4;
        proof {
            assert(escaped < 0x800 ==> (escaped >> 6) < 0x100) by (bit_vector);
        }
        output.push(((escaped >> 6) as u8) | 0xC0);
        output.push(((escaped as u8) & 0x3F) | 0x80);
        proof {
            assert(output@ =~= out0 + unicode_emit(rest));
        }
        true
    } else if escaped < 0xD800 || escaped >= 0xDC00 {
        // includes a lone low surrogate, emitted as the 3-byte encoding of
        // the surrogate code point itself
        *i = *i + 4;
        proof {
            assert(escaped <= 0xFFFF ==> (escaped >> 12) < 0x100 && ((escaped >> 6) & 0x3F)
                < 0x100) by (bit_vector);
        }
        output.push(((escaped >> 12) as u8) | 0xE0);
        output.push((((escaped >> 6) & 0x3F) as u8) | 0x80);
        output.push(((escaped as u8) & 0x3F) | 0x80);
        proof {
            assert(output@ =~= out0 + unicode_emit(rest));
        }
        true
    } else {
        // surrogate pair: the next input must be \uYYYY; skip its two
        // leading bytes and read the four digits
        if input.len() - *i < 10 {
            proof {
                assert(rest.len() < 10);
            }
            return false;
        }
        let s0 = input[*i + 6];
        let s1 = input[*i + 7];
        let s2 = input[*i + 8];
        let s3 = input[*i + 9];
        proof {
            assert(rest[6] == s0 && rest[7] == s1 && rest[8] == s2 && rest[9] == s3);
        }
        *i = *i + 10;
        let surrogate = read_hexdigits(s0, s1, s2, s3);
        proof {
            assert((((escaped & 0x3FF) << 10) | (surrogate & 0x3FF)) <= 0xFFFFF) by (bit_vector);
        }
        let codepoint: u32 = 0x10000 + (((escaped & 0x3FF) << 10) | (surrogate & 0x3FF));
        proof {
            assert(codepoint <= 0x10FFFF ==> (codepoint >> 18) < 0x100 && ((codepoint >> 12)
                & 0x3F) < 0x100 && ((codepoint >> 6) & 0x3F) < 0x100) by (bit_vector);
        }
        output.push(((codepoint >> 18) as u8) | 0xF0);
        output.push((((codepoint >> 12) & 0x3F) as u8) | 0x80);
        output.push((((codepoint >> 6) & 0x3F) as u8) | 0x80);
        output.push(((codepoint as u8) & 0x3F) | 0x80);
        proof {
            assert(output@ =~= out0 + unicode_emit(rest));
        }
        true
    }
}

/// Compact the input, appending to `output`.  Returns `false` exactly when
/// the input ends inside a string, an escape, or a surrogate pair.
fn compact_vector_(input: &[u8], output: &mut Vec<u8>) -> (r: bool)
    ensures
        r <==> compact_model(input@) is Some,
        r ==> final(output)@ == old(output)@ + compact_model(input@)->Some_0,
        old(output)@.is_prefix_of(final(output)@),
{
    let ghost s = input@;
    let ghost out0 = output@;
    let mut i: usize = 0;
    proof {
        assert(s.skip(0) =~= s);
        assert(output@.skip(out0.len() as int) =~= Seq::<u8>::empty());
        assert(Seq::<u8>::empty() + compact_model(s)->Some_0 =~= compact_model(s)->Some_0);
    }
    loop
        invariant
            i <= s.len(),
            s == input@,
            out0 == old(output)@,
            out0.is_prefix_of(output@),
            compact_model(s) == opt_prepend(output@.skip(out0.len() as int), compact_model(
                s.skip(i as int),
            )),
        decreases s.len() - i,
    {
        if i >= input.len() {
            proof {
                assert(s.skip(i as int) =~= Seq::<u8>::empty());
                assert(compact_model(s.skip(i as int)) == Some(Seq::<u8>::empty()));
                assert(output@.skip(out0.len() as int) + Seq::<u8>::empty() =~= output@.skip(
                    out0.len() as int,
                ));
                assert(out0 + output@.skip(out0.len() as int) =~= output@);
            }
            return true;
        }
        let ghost rest = s.skip(i as int);
        let ghost e_pre = output@.skip(out0.len() as int);
        let c = input[i];
        proof {
            assert(rest[0] == s[i as int]);
        }
        i = i + 1;
        proof {
            assert(rest.skip(1) =~= s.skip(i as int));
        }
        if c <= 0x20 {
            // whitespace outside a string is dropped
            proof {
                assert(compact_model(rest) == compact_model(s.skip(i as int)));
            }
            continue ;
        }
        output.push(c);
        proof {
            assert(output@.skip(out0.len() as int) =~= e_pre + seq![c]);
            assert(compact_model(rest) == opt_prepend(seq![c], if c == 0x22 {
                compact_string_model(s.skip(i as int))
            } else {
                compact_model(s.skip(i as int))
            }));
            lemma_opt_prepend_assoc(e_pre, seq![c], if c == 0x22 {
                compact_string_model(s.skip(i as int))
            } else {
                compact_model(s.skip(i as int))
            });
        }
        if c == 0x22 {
            // string mode
            let ghost i0 = i;
            loop
                invariant_except_break
                    compact_model(s) == opt_prepend(output@.skip(out0.len() as int),
                    compact_string_model(s.skip(i as int))),
                invariant
                    i0 <= i <= s.len(),
                    s == input@,
                    out0 == old(output)@,
                    out0.is_prefix_of(output@),
                ensures
                    i0 < i <= s.len(),
                    s == input@,
                    out0.is_prefix_of(output@),
                    compact_model(s) == opt_prepend(output@.skip(out0.len() as int), compact_model(
                        s.skip(i as int),
                    )),
                decreases s.len() - i,
            {
                if i >= input.len() {
                    proof {
                        assert(s.skip(i as int) =~= Seq::<u8>::empty());
                        assert(compact_string_model(s.skip(i as int)) is None);
                    }
                    return false;
                }
                let ghost srest = s.skip(i as int);
                let ghost se_pre = output@.skip(out0.len() as int);
                let c2 = input[i];
                proof {
                    assert(srest[0] == s[i as int]);
                }
                i = i + 1;
                proof {
                    assert(srest.skip(1) =~= s.skip(i as int));
                }
                if c2 == 0x5C {
                    if i >= input.len() {
                        proof {
                            assert(srest.len() < 2);
                            assert(compact_string_model(srest) is None);
                        }
                        return false;
                    }
                    let e = input[i];
                    proof {
                        assert(srest[1] == s[i as int]);
                    }
                    i = i + 1;
                    proof {
                        assert(srest.skip(2) =~= s.skip(i as int));
                    }
                    if e == 0x75 {
                        if !compact_unicode_escape(input, &mut i, output) {
                            proof {
                                assert(compact_string_model(srest) is None);
                            }
                            return false;
                        }
                        proof {
                            let u = srest.skip(2);
                            assert(srest.skip(2 + unicode_len(u)) =~= s.skip(i as int));
                            assert(compact_string_model(srest) == opt_prepend(unicode_emit(u),
                                compact_string_model(s.skip(i as int))));
                            assert(output@.skip(out0.len() as int) =~= se_pre + unicode_emit(u));
                            lemma_opt_prepend_assoc(se_pre, unicode_emit(u), compact_string_model(
                                s.skip(i as int),
                            ));
                        }
                    } else if e == 0x2F {
                        output.push(0x2F);
                        proof {
                            assert(output@.skip(out0.len() as int) =~= se_pre + seq![0x2Fu8]);
                            assert(compact_string_model(srest) == opt_prepend(seq![0x2Fu8],
                                compact_string_model(s.skip(i as int))));
                            lemma_opt_prepend_assoc(se_pre, seq![0x2Fu8], compact_string_model(
                                s.skip(i as int),
                            ));
                        }
                    } else {
                        output.push(0x5C);
                        output.push(e);
                        proof {
                            assert(output@.skip(out0.len() as int) =~= se_pre + seq![0x5Cu8, e]);
                            assert(compact_string_model(srest) == opt_prepend(seq![0x5Cu8, e],
                                compact_string_model(s.skip(i as int))));
                            lemma_opt_prepend_assoc(se_pre, seq![0x5Cu8, e], compact_string_model(
                                s.skip(i as int),
                            ));
                        }
                    }
                } else {
                    output.push(c2);
                    proof {
                        assert(output@.skip(out0.len() as int) =~= se_pre + seq![c2]);
                        assert(compact_string_model(srest) == opt_prepend(seq![c2], if c2 == 0x22 {
                            compact_model(s.skip(i as int))
                        } else {
                            compact_string_model(s.skip(i as int))
                        }));
                        lemma_opt_prepend_assoc(se_pre, seq![c2], if c2 == 0x22 {
                            compact_model(s.skip(i as int))
                        } else {
                            compact_string_model(s.skip(i as int))
                        });
                    }
                    if c2 == 0x22 {
                        // closing quote: back to outer mode
                        break ;
                    }
                }
            }
        }
    }
}

/// Compact a JSON document, appending the compact bytes to `output`.
///
/// Succeeds exactly when the input does not end inside a string, an escape,
/// or a surrogate pair; on success the appended bytes are the compact model
/// of the input.
pub fn compact_vector(input: &[u8], output: &mut Vec<u8>) -> (r: Result<(), ()>)
    ensures
        r is Ok <==> compact_model(input@) is Some,
        r is Ok ==> final(output)@ == old(output)@ + compact_model(input@)->Some_0,
        old(output)@.is_prefix_of(final(output)@),
{
    if compact_vector_(input, output) {
        Ok(())
    } else {
        Err(())
    }
}

/// Compact a JSON document given as bytes, returning the compact bytes.
///
/// Requires an input that compaction accepts (one that does not end inside
/// a string, an escape, or a surrogate pair).
pub fn compact(input: &[u8]) -> (r: Vec<u8>)
    requires
        compact_model(input@) is Some,
    ensures
        r@ == compact_model(input@)->Some_0,
{
    let mut output: Vec<u8> = Vec::new();
    let _ = compact_vector(input, &mut output);
    proof {
        assert(Seq::<u8>::empty() + compact_model(input@)->Some_0 =~= compact_model(
            input@,
        )->Some_0);
    }
    output
}

} // verus!
