//! The script descriptor grammar.
//!
//! A descriptor is JSON text of the shape
//! `{ "script": "<expression>", "inputs": { "<name>": "<locator>", ... } }`.
//! The grammar here is the descriptor's own: an object holding the members
//! `script` (a string) and `inputs` (an object of strings), each exactly
//! once, in either order, with JSON whitespace and full JSON string syntax
//! — raw UTF-8 content, the simple escapes, and `\uXXXX` escapes including
//! surrogate pairs. Members of other names are held to the JSON value
//! grammar and discarded. The specification functions define the grammar
//! over the byte sequence; the executable parser is proved to return
//! exactly what they describe.

use vstd::pervasive::VecAdditionalExecFns;
use vstd::prelude::*;
use vstd::utf8::*;

verus! {

/// JSON whitespace: space, tab, line feed, carriage return.
pub open spec fn is_json_ws(b: u8) -> bool {
    b == 0x20 || b == 0x09 || b == 0x0a || b == 0x0d
}

/// The first position at or after `i` that holds no whitespace (or the end
/// of the input).
pub open spec fn spec_ws(b: Seq<u8>, i: int) -> int
    decreases b.len() - i,
    when 0 <= i <= b.len()
{
    if i < b.len() && is_json_ws(b[i]) {
        spec_ws(b, i + 1)
    } else {
        i
    }
}

/// The value of one hexadecimal digit, upper or lower case.
pub open spec fn spec_hex_digit(c: u8) -> Option<u32> {
    if 0x30 <= c <= 0x39 {
        Some((c - 0x30) as u32)
    } else if 0x41 <= c <= 0x46 {
        Some((c - 0x41 + 10) as u32)
    } else if 0x61 <= c <= 0x66 {
        Some((c - 0x61 + 10) as u32)
    } else {
        None
    }
}

/// The value of the four hexadecimal digits at `i`.
pub open spec fn spec_hex4(b: Seq<u8>, i: int) -> Option<u32> {
    if 0 <= i && i + 4 <= b.len() {
        match (spec_hex_digit(b[i]), spec_hex_digit(b[i + 1]), spec_hex_digit(b[i + 2]), spec_hex_digit(b[i + 3])) {
            (Some(d0), Some(d1), Some(d2), Some(d3)) => Some(
                (d0 * 0x1000 + d1 * 0x100 + d2 * 0x10 + d3) as u32,
            ),
            _ => None,
        }
    } else {
        None
    }
}

/// The scalar a surrogate pair stands for.
pub open spec fn spec_surrogate_pair(hi: u32, lo: u32) -> u32
    recommends
        0xD800 <= hi <= 0xDBFF,
        0xDC00 <= lo <= 0xDFFF,
{
    (0x10000 + (hi - 0xD800) * 0x400 + (lo - 0xDC00)) as u32
}

/// A `\uXXXX` escape starting at `i` (the first hex digit): the UTF-8
/// bytes it decodes to and the position after it. A leading surrogate must
/// be followed by a trailing one, which it combines with; a lone trailing
/// surrogate is malformed.
pub open spec fn spec_unicode_escape(b: Seq<u8>, i: int) -> Option<(Seq<u8>, int)> {
    match spec_hex4(b, i) {
        None => None,
        Some(v) => if 0xD800 <= v <= 0xDBFF {
            if i + 6 <= b.len() && b[i + 4] == 0x5C && b[i + 5] == 0x75 {
                match spec_hex4(b, i + 6) {
                    None => None,
                    Some(w) => if 0xDC00 <= w <= 0xDFFF {
                        Some((encode_scalar(spec_surrogate_pair(v, w)), i + 10))
                    } else {
                        None
                    },
                }
            } else {
                None
            }
        } else if 0xDC00 <= v <= 0xDFFF {
            None
        } else {
            Some((encode_scalar(v), i + 4))
        },
    }
}

/// An escape starting at `i` (the byte after the backslash): the UTF-8
/// bytes it decodes to and the position after it.
pub open spec fn spec_escape(b: Seq<u8>, i: int) -> Option<(Seq<u8>, int)> {
    if 0 <= i < b.len() {
        let e = b[i];
        if e == 0x22 {
            Some((seq![0x22u8], i + 1))
        } else if e == 0x5C {
            Some((seq![0x5Cu8], i + 1))
        } else if e == 0x2F {
            Some((seq![0x2Fu8], i + 1))
        } else if e == 0x62 {
            Some((seq![0x08u8], i + 1))
        } else if e == 0x66 {
            Some((seq![0x0Cu8], i + 1))
        } else if e == 0x6E {
            Some((seq![0x0Au8], i + 1))
        } else if e == 0x72 {
            Some((seq![0x0Du8], i + 1))
        } else if e == 0x74 {
            Some((seq![0x09u8], i + 1))
        } else if e == 0x75 {
            spec_unicode_escape(b, i + 1)
        } else {
            None
        }
    } else {
        None
    }
}

/// The body of a JSON string starting at `i`, just after the opening
/// quote: the decoded content bytes and the position after the closing
/// quote. `None` when the string is unterminated, holds a raw control
/// character, or holds a malformed escape.
pub open spec fn spec_string_body(b: Seq<u8>, i: int) -> Option<(Seq<u8>, int)>
    decreases b.len() - i,
    when 0 <= i <= b.len()
{
    if i >= b.len() {
        None
    } else {
        let c = b[i];
        if c == 0x22 {
            Some((seq![], i + 1))
        } else if c == 0x5C {
            match spec_escape(b, i + 1) {
                None => None,
                Some((ebytes, next)) => if i < next <= b.len() {
                    match spec_string_body(b, next) {
                        None => None,
                        Some((content, j)) => Some((ebytes + content, j)),
                    }
                } else {
                    None
                },
            }
        } else if c < 0x20 {
            None
        } else {
            match spec_string_body(b, i + 1) {
                None => None,
                Some((content, j)) => Some((seq![c] + content, j)),
            }
        }
    }
}

/// A quoted JSON string starting at `i`: its decoded content bytes and the
/// position after the closing quote.
pub open spec fn spec_string(b: Seq<u8>, i: int) -> Option<(Seq<u8>, int)> {
    if 0 <= i < b.len() && b[i] == 0x22 {
        spec_string_body(b, i + 1)
    } else {
        None
    }
}

/// How deeply values of unrecognized members may nest. Beyond the limit
/// the descriptor is refused rather than parsed with unbounded recursion.
pub const NESTING_LIMIT: u32 = 128;

/// The first position at or after `i` that holds no decimal digit.
pub open spec fn spec_digits_end(b: Seq<u8>, i: int) -> int
    decreases b.len() - i,
    when 0 <= i <= b.len()
{
    if i < b.len() && 0x30 <= b[i] <= 0x39 {
        spec_digits_end(b, i + 1)
    } else {
        i
    }
}

/// The position after the JSON number at `i`, or `None` where no
/// well-formed number starts there: an optional minus, an integer part
/// with no leading zero, an optional fraction, an optional exponent.
pub open spec fn spec_skip_number(b: Seq<u8>, i: int) -> Option<int> {
    if !(0 <= i < b.len()) {
        None
    } else {
        let s = if b[i] == 0x2D {
            i + 1
        } else {
            i
        };
        if !(s < b.len()) {
            None
        } else {
            let int_end = if b[s] == 0x30 {
                s + 1
            } else if 0x31 <= b[s] <= 0x39 {
                spec_digits_end(b, s)
            } else {
                -1
            };
            if !(s < int_end <= b.len()) {
                None
            } else {
                let frac_end = if int_end < b.len() && b[int_end] == 0x2E {
                    spec_digits_end(b, int_end + 1)
                } else {
                    int_end
                };
                if !(int_end <= frac_end <= b.len()) || (int_end < b.len() && b[int_end] == 0x2E
                    && frac_end == int_end + 1) {
                    None
                } else {
                    if frac_end < b.len() && (b[frac_end] == 0x65 || b[frac_end] == 0x45) {
                        let sign = if frac_end + 1 < b.len() && (b[frac_end + 1] == 0x2B || b[
                            frac_end + 1] == 0x2D) {
                            frac_end + 2
                        } else {
                            frac_end + 1
                        };
                        if !(sign <= b.len()) {
                            None
                        } else {
                            let exp_end = spec_digits_end(b, sign);
                            if sign < exp_end <= b.len() {
                                Some(exp_end)
                            } else {
                                None
                            }
                        }
                    } else {
                        Some(frac_end)
                    }
                }
            }
        }
    }
}

/// The position after the JSON value at `i`, whatever its kind — the
/// grammar a member of an unrecognized name is held to before it is
/// discarded. `None` where the value is malformed or nests deeper than
/// `depth` levels of objects and arrays.
pub open spec fn spec_skip_value(b: Seq<u8>, i: int, depth: int) -> Option<int>
    decreases depth, b.len() - i, 0int,
    when 0 <= i <= b.len()
{
    if i >= b.len() {
        None
    } else {
        let c = b[i];
        if c == 0x22 {
            match spec_string(b, i) {
                Some((_content, j)) => Some(j),
                None => None,
            }
        } else if c == 0x7B {
            if depth <= 0 {
                None
            } else {
                let j = spec_ws(b, i + 1);
                if !(i < j <= b.len()) {
                    None
                } else if j < b.len() && b[j] == 0x7D {
                    Some(j + 1)
                } else {
                    spec_skip_object_rest(b, j, depth - 1)
                }
            }
        } else if c == 0x5B {
            if depth <= 0 {
                None
            } else {
                let j = spec_ws(b, i + 1);
                if !(i < j <= b.len()) {
                    None
                } else if j < b.len() && b[j] == 0x5D {
                    Some(j + 1)
                } else {
                    spec_skip_array_rest(b, j, depth - 1)
                }
            }
        } else if c == 0x74 {
            // the literal `true`
            if i + 4 <= b.len() && b[i + 1] == 0x72 && b[i + 2] == 0x75 && b[i + 3] == 0x65 {
                Some(i + 4)
            } else {
                None
            }
        } else if c == 0x66 {
            // the literal `false`
            if i + 5 <= b.len() && b[i + 1] == 0x61 && b[i + 2] == 0x6C && b[i + 3] == 0x73 && b[i
                + 4] == 0x65 {
                Some(i + 5)
            } else {
                None
            }
        } else if c == 0x6E {
            // the literal `null`
            if i + 4 <= b.len() && b[i + 1] == 0x75 && b[i + 2] == 0x6C && b[i + 3] == 0x6C {
                Some(i + 4)
            } else {
                None
            }
        } else {
            spec_skip_number(b, i)
        }
    }
}

/// The members of an object being skipped, starting at the opening quote
/// of a member name: the position after the closing brace.
pub open spec fn spec_skip_object_rest(b: Seq<u8>, i: int, depth: int) -> Option<int>
    decreases depth, b.len() - i, 1int,
    when 0 <= i <= b.len()
{
    match spec_string(b, i) {
        None => None,
        Some((_name, p1)) => if !(i < p1 <= b.len()) {
            None
        } else {
            let p2 = spec_ws(b, p1);
            if !(p1 <= p2 <= b.len()) {
                None
            } else if p2 < b.len() && b[p2] == 0x3A {
                let p3 = spec_ws(b, p2 + 1);
                if !(p2 < p3 <= b.len()) {
                    None
                } else {
                    match spec_skip_value(b, p3, depth) {
                        None => None,
                        Some(p4) => if !(p3 < p4 <= b.len()) {
                            None
                        } else {
                            let p5 = spec_ws(b, p4);
                            if !(p4 <= p5 <= b.len()) {
                                None
                            } else if p5 < b.len() && b[p5] == 0x2C {
                                let p6 = spec_ws(b, p5 + 1);
                                if p5 < p6 <= b.len() {
                                    spec_skip_object_rest(b, p6, depth)
                                } else {
                                    None
                                }
                            } else if p5 < b.len() && b[p5] == 0x7D {
                                Some(p5 + 1)
                            } else {
                                None
                            }
                        },
                    }
                }
            } else {
                None
            }
        },
    }
}

/// The elements of an array being skipped, starting at the first element:
/// the position after the closing bracket.
pub open spec fn spec_skip_array_rest(b: Seq<u8>, i: int, depth: int) -> Option<int>
    decreases depth, b.len() - i, 1int,
    when 0 <= i <= b.len()
{
    match spec_skip_value(b, i, depth) {
        None => None,
        Some(p1) => if !(i < p1 <= b.len()) {
            None
        } else {
            let p2 = spec_ws(b, p1);
            if !(p1 <= p2 <= b.len()) {
                None
            } else if p2 < b.len() && b[p2] == 0x2C {
                let p3 = spec_ws(b, p2 + 1);
                if p2 < p3 <= b.len() {
                    spec_skip_array_rest(b, p3, depth)
                } else {
                    None
                }
            } else if p2 < b.len() && b[p2] == 0x5D {
                Some(p2 + 1)
            } else {
                None
            }
        },
    }
}

/// The byte spelling of the descriptor's `script` member name.
pub open spec fn spec_script_key() -> Seq<u8> {
    seq!['s' as u8, 'c' as u8, 'r' as u8, 'i' as u8, 'p' as u8, 't' as u8]
}

/// The byte spelling of the descriptor's `inputs` member name.
pub open spec fn spec_inputs_key() -> Seq<u8> {
    seq!['i' as u8, 'n' as u8, 'p' as u8, 'u' as u8, 't' as u8, 's' as u8]
}

/// The position of the member holding key `k`, or `-1` when there is none.
pub open spec fn spec_key_index(m: Seq<(Seq<u8>, Seq<u8>)>, k: Seq<u8>) -> int
    decreases m.len(),
{
    if m.len() == 0 {
        -1
    } else if m[0].0 == k {
        0
    } else {
        let r = spec_key_index(m.drop_first(), k);
        if r < 0 {
            -1
        } else {
            r + 1
        }
    }
}

/// Adds a member, or replaces the value of an existing one in place: a
/// duplicate declaration keeps the position of the first occurrence and
/// the value of the last.
pub open spec fn spec_upsert(m: Seq<(Seq<u8>, Seq<u8>)>, k: Seq<u8>, v: Seq<u8>) -> Seq<
    (Seq<u8>, Seq<u8>),
> {
    let i = spec_key_index(m, k);
    if i < 0 {
        m.push((k, v))
    } else {
        m.update(i, (k, v))
    }
}

/// Where the key index points: at the first member with that key, if any.
proof fn lemma_key_index(m: Seq<(Seq<u8>, Seq<u8>)>, k: Seq<u8>)
    ensures
        spec_key_index(m, k) < 0 ==> (forall|j: int| 0 <= j < m.len() ==> (#[trigger] m[j]).0 != k),
        spec_key_index(m, k) >= 0 ==> {
            let i = spec_key_index(m, k);
            &&& 0 <= i < m.len()
            &&& m[i].0 == k
            &&& forall|j: int| 0 <= j < i ==> (#[trigger] m[j]).0 != k
        },
    decreases m.len(),
{
    if m.len() > 0 && m[0].0 != k {
        lemma_key_index(m.drop_first(), k);
        let d = m.drop_first();
        let r = spec_key_index(d, k);
        if r < 0 {
            assert forall|j: int| 0 <= j < m.len() implies (#[trigger] m[j]).0 != k by {
                if j > 0 {
                    assert(m[j] == d[j - 1]);
                }
            }
        } else {
            assert(m[r + 1] == d[r]);
            assert forall|j: int| 0 <= j < r + 1 implies (#[trigger] m[j]).0 != k by {
                if j > 0 {
                    assert(m[j] == d[j - 1]);
                }
            }
        }
    }
}

/// The members of a string-valued object, starting at `i`, which must be
/// the opening quote of the first member's name: the accumulated members
/// after upserts, and the position after the closing brace.
pub open spec fn spec_members(b: Seq<u8>, i: int, acc: Seq<(Seq<u8>, Seq<u8>)>) -> Option<
    (Seq<(Seq<u8>, Seq<u8>)>, int),
>
    decreases b.len() - i,
    when 0 <= i <= b.len()
{
    match spec_string(b, i) {
        None => None,
        Some((name, p1)) => if !(i < p1 <= b.len()) {
            None
        } else {
            let p2 = spec_ws(b, p1);
            if !(p1 <= p2 <= b.len()) {
                None
            } else if p2 < b.len() && b[p2] == 0x3A {
                let p3 = spec_ws(b, p2 + 1);
                if !(p2 < p3 <= b.len()) {
                    None
                } else {
                    match spec_string(b, p3) {
                        None => None,
                        Some((value, p4)) => if !(p3 < p4 <= b.len()) {
                            None
                        } else {
                            let acc2 = spec_upsert(acc, name, value);
                            let p5 = spec_ws(b, p4);
                            if !(p4 <= p5 <= b.len()) {
                                None
                            } else if p5 < b.len() && b[p5] == 0x2C {
                                let p6 = spec_ws(b, p5 + 1);
                                if p5 < p6 <= b.len() {
                                    spec_members(b, p6, acc2)
                                } else {
                                    None
                                }
                            } else if p5 < b.len() && b[p5] == 0x7D {
                                Some((acc2, p5 + 1))
                            } else {
                                None
                            }
                        },
                    }
                }
            } else {
                None
            }
        },
    }
}

/// A string-valued object starting at `i` (its opening brace): its
/// members, in declaration order with duplicates upserted, and the
/// position after the closing brace.
pub open spec fn spec_inputs_object(b: Seq<u8>, i: int) -> Option<(Seq<(Seq<u8>, Seq<u8>)>, int)> {
    if 0 <= i < b.len() && b[i] == 0x7B {
        let j = spec_ws(b, i + 1);
        if i + 1 <= j <= b.len() {
            if j < b.len() && b[j] == 0x7D {
                Some((seq![], j + 1))
            } else {
                spec_members(b, j, seq![])
            }
        } else {
            None
        }
    } else {
        None
    }
}

/// The members of the top-level object, starting at the opening quote of a
/// member name. `script` must be a string and `inputs` an object of
/// strings; each must appear exactly once, in either order; a member of
/// any other name is checked against the value grammar and discarded.
/// Returns the script, the inputs and the position after the closing
/// brace.
pub open spec fn spec_top_members(
    b: Seq<u8>,
    i: int,
    script: Option<Seq<u8>>,
    inputs: Option<Seq<(Seq<u8>, Seq<u8>)>>,
) -> Option<(Seq<u8>, Seq<(Seq<u8>, Seq<u8>)>, int)>
    decreases b.len() - i, 1int,
    when 0 <= i <= b.len()
{
    match spec_string(b, i) {
        None => None,
        Some((key, p1)) => if !(i < p1 <= b.len()) {
            None
        } else {
            let p2 = spec_ws(b, p1);
            if !(p1 <= p2 <= b.len()) {
                None
            } else if p2 < b.len() && b[p2] == 0x3A {
                let p3 = spec_ws(b, p2 + 1);
                if !(p2 < p3 <= b.len()) {
                    None
                } else if key == spec_script_key() {
                    if script is Some {
                        None
                    } else {
                        match spec_string(b, p3) {
                            None => None,
                            Some((s, p4)) => if p3 < p4 <= b.len() {
                                spec_top_tail(b, p4, Some(s), inputs)
                            } else {
                                None
                            },
                        }
                    }
                } else if key == spec_inputs_key() {
                    if inputs is Some {
                        None
                    } else {
                        match spec_inputs_object(b, p3) {
                            None => None,
                            Some((ins, p4)) => if p3 < p4 <= b.len() {
                                spec_top_tail(b, p4, script, Some(ins))
                            } else {
                                None
                            },
                        }
                    }
                } else {
                    // an unrecognized member: its value is held to the value
                    // grammar and discarded
                    match spec_skip_value(b, p3, NESTING_LIMIT as int) {
                        None => None,
                        Some(p4) => if p3 < p4 <= b.len() {
                            spec_top_tail(b, p4, script, inputs)
                        } else {
                            None
                        },
                    }
                }
            } else {
                None
            }
        },
    }
}

/// After one top-level member: a comma continues with the next member, the
/// closing brace ends the object — which must by then have both members.
pub open spec fn spec_top_tail(
    b: Seq<u8>,
    p4: int,
    script: Option<Seq<u8>>,
    inputs: Option<Seq<(Seq<u8>, Seq<u8>)>>,
) -> Option<(Seq<u8>, Seq<(Seq<u8>, Seq<u8>)>, int)>
    decreases b.len() - p4, 0int,
    when 0 <= p4 <= b.len()
{
    let p5 = spec_ws(b, p4);
    if !(p4 <= p5 <= b.len()) {
        None
    } else if p5 < b.len() && b[p5] == 0x2C {
        let p6 = spec_ws(b, p5 + 1);
        if p5 < p6 <= b.len() {
            spec_top_members(b, p6, script, inputs)
        } else {
            None
        }
    } else if p5 < b.len() && b[p5] == 0x7D {
        match (script, inputs) {
            (Some(s), Some(ins)) => Some((s, ins, p5 + 1)),
            _ => None,
        }
    } else {
        None
    }
}

/// The abstract value of a well-formed descriptor: the script expression
/// and the named inputs, each as decoded UTF-8 bytes, the inputs in
/// declaration order.
pub struct DescriptorView {
    pub script: Seq<u8>,
    pub inputs: Seq<(Seq<u8>, Seq<u8>)>,
}

/// The descriptor a byte sequence spells, if it is well-formed: optional
/// whitespace around one top-level object holding the members `script`
/// and `inputs` exactly once each, and nothing after it.
pub open spec fn spec_parse_descriptor(b: Seq<u8>) -> Option<DescriptorView> {
    let i0 = spec_ws(b, 0);
    if 0 <= i0 < b.len() && b[i0] == 0x7B {
        let i1 = spec_ws(b, i0 + 1);
        if i0 < i1 <= b.len() {
            match spec_top_members(b, i1, None, None) {
                None => None,
                Some((s, ins, p)) => if 0 <= p <= b.len() && spec_ws(b, p) == b.len() {
                    Some(DescriptorView { script: s, inputs: ins })
                } else {
                    None
                },
            }
        } else {
            None
        }
    } else {
        None
    }
}

/// At a character boundary an ASCII byte forms a whole scalar, so the next
/// position is a boundary too.
proof fn lemma_boundary_after_ascii(b: Seq<u8>, i: int)
    requires
        valid_utf8(b),
        0 <= i < b.len(),
        is_char_boundary(b, i),
        b[i] < 0x80,
    ensures
        is_char_boundary(b, i + 1),
{
    valid_utf8_split(b, i);
    let s = b.subrange(i, b.len() as int);
    assert(s[0] == b[i]);
    assert(valid_first_scalar(s));
    assert(length_of_first_scalar(s) == 1);
    let rest = pop_first_scalar(s);
    assert(valid_utf8(rest));
    assert(rest =~= b.subrange(i + 1, b.len() as int));
    if i + 1 == b.len() {
        is_char_boundary_start_end_of_seq(b);
    } else {
        assert(valid_first_scalar(rest));
        assert(rest[0] == b[i + 1]);
        assert(!is_continuation_byte(b[i + 1]));
        is_char_boundary_iff_not_is_continuation_byte(b, i + 1);
    }
}

/// A run of ASCII bytes is crossed boundary by boundary.
proof fn lemma_boundary_ascii_run(b: Seq<u8>, i: int, j: int)
    requires
        valid_utf8(b),
        is_char_boundary(b, i),
        0 <= i <= j <= b.len(),
        forall|m: int| i <= m < j ==> b[m] < 0x80,
    ensures
        is_char_boundary(b, j),
    decreases j - i,
{
    if i < j {
        lemma_boundary_after_ascii(b, i);
        lemma_boundary_ascii_run(b, i + 1, j);
    }
}

/// The skipped whitespace run: its bounds, and that every byte in it is
/// whitespace.
proof fn lemma_ws_range(b: Seq<u8>, i: int)
    requires
        0 <= i <= b.len(),
    ensures
        i <= spec_ws(b, i) <= b.len(),
        forall|m: int| i <= m < spec_ws(b, i) ==> is_json_ws(b[m]),
        spec_ws(b, i) < b.len() ==> !is_json_ws(b[spec_ws(b, i)]),
    decreases b.len() - i,
{
    if i < b.len() && is_json_ws(b[i]) {
        lemma_ws_range(b, i + 1);
    }
}

/// Skipping whitespace stays on a character boundary.
proof fn lemma_ws_boundary(b: Seq<u8>, i: int)
    requires
        valid_utf8(b),
        is_char_boundary(b, i),
        0 <= i <= b.len(),
    ensures
        is_char_boundary(b, spec_ws(b, i)),
{
    lemma_ws_range(b, i);
    lemma_boundary_ascii_run(b, i, spec_ws(b, i));
}

/// A one-byte ASCII sequence is valid UTF-8.
proof fn lemma_valid_single_ascii(c: u8)
    requires
        c < 0x80,
    ensures
        valid_utf8(seq![c]),
{
    let s = seq![c];
    assert(valid_first_scalar(s));
    assert(length_of_first_scalar(s) == 1);
    assert(pop_first_scalar(s) =~= Seq::<u8>::empty());
    assert(valid_utf8(Seq::<u8>::empty()));
    assert(valid_utf8(s));
}

/// The encoding of any scalar is valid UTF-8.
proof fn lemma_valid_encode_scalar(v: u32)
    requires
        is_scalar(v),
    ensures
        valid_utf8(encode_scalar(v)),
{
    let c = v as char;
    assert(c as u32 == v);
    let chars = seq![c];
    encode_utf8_valid_utf8(chars);
    assert(chars.drop_first() =~= Seq::<char>::empty());
    assert(encode_utf8(Seq::<char>::empty()) =~= Seq::<u8>::empty());
    assert(encode_utf8(chars) == encode_scalar(chars[0] as u32) + encode_utf8(chars.drop_first()));
    assert(chars[0] as u32 == v);
    assert(encode_scalar(v) + Seq::<u8>::empty() =~= encode_scalar(v));
    assert(encode_utf8(chars) =~= encode_scalar(v));
}

/// Four hexadecimal digits are in bounds and ASCII.
proof fn lemma_hex4_ascii(b: Seq<u8>, i: int)
    requires
        spec_hex4(b, i) is Some,
    ensures
        0 <= i && i + 4 <= b.len(),
        forall|m: int| i <= m < i + 4 ==> b[m] < 0x80,
{
    assert forall|m: int| i <= m < i + 4 implies b[m] < 0x80 by {
        assert(spec_hex_digit(b[i]) is Some);
        assert(spec_hex_digit(b[i + 1]) is Some);
        assert(spec_hex_digit(b[i + 2]) is Some);
        assert(spec_hex_digit(b[i + 3]) is Some);
    }
}

/// A recognized escape decodes to valid UTF-8, moves forward within the
/// input, and spans ASCII bytes only.
proof fn lemma_escape_props(b: Seq<u8>, i: int)
    requires
        spec_escape(b, i) is Some,
    ensures
        ({
            let (ebytes, next) = spec_escape(b, i)->Some_0;
            &&& valid_utf8(ebytes)
            &&& i < next <= b.len()
            &&& forall|m: int| i <= m < next ==> b[m] < 0x80
        }),
{
    let e = b[i];
    let (ebytes, next) = spec_escape(b, i)->Some_0;
    if e == 0x75 {
        let h = i + 1;
        let v = spec_hex4(b, h)->Some_0;
        lemma_hex4_ascii(b, h);
        if 0xD800 <= v <= 0xDBFF {
            let w = spec_hex4(b, h + 6)->Some_0;
            lemma_hex4_ascii(b, h + 6);
            assert(is_scalar(spec_surrogate_pair(v, w)));
            lemma_valid_encode_scalar(spec_surrogate_pair(v, w));
        } else {
            assert(is_scalar(v));
            lemma_valid_encode_scalar(v);
        }
    } else {
        assert(ebytes =~= seq![ebytes[0]]);
        lemma_valid_single_ascii(ebytes[0]);
    }
}

/// A parsed string body decodes to valid UTF-8, moves forward within the
/// input, and ends on a character boundary.
proof fn lemma_string_body_valid(b: Seq<u8>, i: int)
    requires
        valid_utf8(b),
        0 <= i <= b.len(),
        is_char_boundary(b, i),
        spec_string_body(b, i) is Some,
    ensures
        ({
            let (content, j) = spec_string_body(b, i)->Some_0;
            &&& valid_utf8(content)
            &&& i < j <= b.len()
            &&& is_char_boundary(b, j)
        }),
    decreases b.len() - i, 1int,
{
    let (content, j) = spec_string_body(b, i)->Some_0;
    let c = b[i];
    if c == 0x22 {
        lemma_boundary_after_ascii(b, i);
        assert(valid_utf8(Seq::<u8>::empty()));
        assert(content =~= Seq::<u8>::empty());
    } else if c == 0x5C {
        let (ebytes, next) = spec_escape(b, i + 1)->Some_0;
        lemma_escape_props(b, i + 1);
        lemma_boundary_ascii_run(b, i, next);
        lemma_string_body_valid(b, next);
        let (c2, _j2) = spec_string_body(b, next)->Some_0;
        valid_utf8_concat(ebytes, c2);
    } else if c < 0x80 {
        lemma_boundary_after_ascii(b, i);
        lemma_string_body_valid(b, i + 1);
        let (c2, _j2) = spec_string_body(b, i + 1)->Some_0;
        lemma_valid_single_ascii(c);
        valid_utf8_concat(seq![c], c2);
    } else {
        lemma_string_body_valid_multibyte(b, i);
    }
}

/// The multi-byte case of [`lemma_string_body_valid`]: a non-ASCII scalar
/// is copied verbatim, byte by byte, and stays a valid scalar encoding.
proof fn lemma_string_body_valid_multibyte(b: Seq<u8>, i: int)
    requires
        valid_utf8(b),
        0 <= i < b.len(),
        is_char_boundary(b, i),
        spec_string_body(b, i) is Some,
        b[i] >= 0x80,
    ensures
        ({
            let (content, j) = spec_string_body(b, i)->Some_0;
            &&& valid_utf8(content)
            &&& i < j <= b.len()
            &&& is_char_boundary(b, j)
        }),
    decreases b.len() - i, 0int,
{
    let (content, j) = spec_string_body(b, i)->Some_0;
    valid_utf8_split(b, i);
    let s = b.subrange(i, b.len() as int);
    assert(s[0] == b[i]);
    assert(valid_first_scalar(s));
    let w = length_of_first_scalar(s);
    assert(2 <= w <= 4);
    assert(i + w <= b.len()) by {
        assert(valid_leading_and_continuation_bytes_first_codepoint(s));
    }
    assert(forall|m: int| 1 <= m < w ==> is_continuation_byte(#[trigger] s[m])) by {
        assert(valid_leading_and_continuation_bytes_first_codepoint(s));
    }
    assert(forall|m: int| i + 1 <= m < i + w ==> is_continuation_byte(#[trigger] b[m])) by {
        assert(forall|m: int| i + 1 <= m < i + w ==> b[m] == s[m - i]);
    }
    // boundary at i + w
    let rest = pop_first_scalar(s);
    assert(valid_utf8(rest));
    assert(rest =~= b.subrange(i + w, b.len() as int));
    if i + w == b.len() {
        is_char_boundary_start_end_of_seq(b);
    } else {
        assert(valid_first_scalar(rest));
        assert(rest[0] == b[i + w]);
        assert(!is_continuation_byte(b[i + w]));
        is_char_boundary_iff_not_is_continuation_byte(b, i + w);
    }
    assert(is_char_boundary(b, i + w));
    // the piece of the input holding this scalar is itself valid UTF-8
    let piece = b.subrange(i, i + w);
    assert(piece =~= take_first_scalar(s));
    assert(valid_first_scalar(piece)) by {
        assert(forall|m: int| 0 <= m < w ==> piece[m] == s[m]);
        assert(decode_first_codepoint(piece) == decode_first_codepoint(s));
        assert(length_of_first_codepoint(piece) == length_of_first_codepoint(s));
    }
    assert(pop_first_scalar(piece) =~= Seq::<u8>::empty());
    assert(valid_utf8(Seq::<u8>::empty()));
    assert(valid_utf8(piece));
    // unfold the byte-by-byte copy across the scalar
    assert(spec_string_body(b, i + 1) is Some);
    let t1 = spec_string_body(b, i + 1)->Some_0.0;
    assert(content =~= seq![b[i]] + t1);
    if w == 2 {
        lemma_string_body_valid(b, i + 2);
        let c2 = spec_string_body(b, i + 2)->Some_0.0;
        assert(t1 =~= seq![b[i + 1]] + c2);
        assert(content =~= piece + c2);
        valid_utf8_concat(piece, c2);
        assert(j == spec_string_body(b, i + 2)->Some_0.1);
    } else if w == 3 {
        let t2 = spec_string_body(b, i + 2)->Some_0.0;
        assert(t1 =~= seq![b[i + 1]] + t2);
        lemma_string_body_valid(b, i + 3);
        let c2 = spec_string_body(b, i + 3)->Some_0.0;
        assert(t2 =~= seq![b[i + 2]] + c2);
        assert(content =~= piece + c2);
        valid_utf8_concat(piece, c2);
        assert(j == spec_string_body(b, i + 3)->Some_0.1);
    } else {
        let t2 = spec_string_body(b, i + 2)->Some_0.0;
        assert(t1 =~= seq![b[i + 1]] + t2);
        let t3 = spec_string_body(b, i + 3)->Some_0.0;
        assert(t2 =~= seq![b[i + 2]] + t3);
        lemma_string_body_valid(b, i + 4);
        let c2 = spec_string_body(b, i + 4)->Some_0.0;
        assert(t3 =~= seq![b[i + 3]] + c2);
        assert(content =~= piece + c2);
        valid_utf8_concat(piece, c2);
        assert(j == spec_string_body(b, i + 4)->Some_0.1);
    }
}

/// A parsed string decodes to valid UTF-8, moves forward within the input,
/// and ends on a character boundary.
proof fn lemma_string_valid(b: Seq<u8>, i: int)
    requires
        valid_utf8(b),
        0 <= i <= b.len(),
        is_char_boundary(b, i),
        spec_string(b, i) is Some,
    ensures
        ({
            let (content, j) = spec_string(b, i)->Some_0;
            &&& valid_utf8(content)
            &&& i < j <= b.len()
            &&& is_char_boundary(b, j)
        }),
{
    lemma_boundary_after_ascii(b, i);
    lemma_string_body_valid(b, i + 1);
}

/// The digit run: its bounds, and that every byte in it is a digit.
proof fn lemma_digits_end_props(b: Seq<u8>, i: int)
    requires
        0 <= i <= b.len(),
    ensures
        i <= spec_digits_end(b, i) <= b.len(),
        forall|m: int| i <= m < spec_digits_end(b, i) ==> 0x30 <= #[trigger] b[m] <= 0x39,
    decreases b.len() - i,
{
    if i < b.len() && 0x30 <= b[i] <= 0x39 {
        lemma_digits_end_props(b, i + 1);
    }
}

/// A skipped number moves forward within the input and spans ASCII bytes
/// only.
proof fn lemma_skip_number_props(b: Seq<u8>, i: int)
    requires
        spec_skip_number(b, i) is Some,
    ensures
        ({
            let j = spec_skip_number(b, i)->Some_0;
            &&& 0 <= i < j <= b.len()
            &&& forall|m: int| i <= m < j ==> #[trigger] b[m] < 0x80
        }),
{
    let j = spec_skip_number(b, i)->Some_0;
    let s = if b[i] == 0x2D {
        i + 1
    } else {
        i
    };
    let int_end = if b[s] == 0x30 {
        s + 1
    } else if 0x31 <= b[s] <= 0x39 {
        spec_digits_end(b, s)
    } else {
        -1
    };
    lemma_digits_end_props(b, s);
    let frac_end = if int_end < b.len() && b[int_end] == 0x2E {
        spec_digits_end(b, int_end + 1)
    } else {
        int_end
    };
    if int_end < b.len() {
        lemma_digits_end_props(b, int_end + 1);
    }
    if frac_end < b.len() && (b[frac_end] == 0x65 || b[frac_end] == 0x45) {
        let sign = if frac_end + 1 < b.len() && (b[frac_end + 1] == 0x2B || b[frac_end + 1]
            == 0x2D) {
            frac_end + 2
        } else {
            frac_end + 1
        };
        lemma_digits_end_props(b, sign);
        assert forall|m: int| i <= m < j implies #[trigger] b[m] < 0x80 by {
            lemma_digits_end_props(b, s);
            if int_end < b.len() {
                lemma_digits_end_props(b, int_end + 1);
            }
            lemma_digits_end_props(b, sign);
        }
    } else {
        assert forall|m: int| i <= m < j implies #[trigger] b[m] < 0x80 by {
            lemma_digits_end_props(b, s);
            if int_end < b.len() {
                lemma_digits_end_props(b, int_end + 1);
            }
        }
    }
}

/// Skipping a value moves forward within the input and ends on a
/// character boundary.
proof fn lemma_skip_value_boundary(b: Seq<u8>, i: int, depth: int)
    requires
        valid_utf8(b),
        0 <= i <= b.len(),
        is_char_boundary(b, i),
        spec_skip_value(b, i, depth) is Some,
    ensures
        ({
            let j = spec_skip_value(b, i, depth)->Some_0;
            &&& i < j <= b.len()
            &&& is_char_boundary(b, j)
        }),
    decreases depth, b.len() - i, 0int,
{
    let c = b[i];
    if c == 0x22 {
        lemma_string_valid(b, i);
    } else if c == 0x7B {
        lemma_boundary_after_ascii(b, i);
        let j = spec_ws(b, i + 1);
        lemma_ws_boundary(b, i + 1);
        if j < b.len() && b[j] == 0x7D {
            lemma_boundary_after_ascii(b, j);
        } else {
            lemma_skip_object_rest_boundary(b, j, depth - 1);
        }
    } else if c == 0x5B {
        lemma_boundary_after_ascii(b, i);
        let j = spec_ws(b, i + 1);
        lemma_ws_boundary(b, i + 1);
        if j < b.len() && b[j] == 0x5D {
            lemma_boundary_after_ascii(b, j);
        } else {
            lemma_skip_array_rest_boundary(b, j, depth - 1);
        }
    } else if c == 0x74 || c == 0x6E {
        lemma_boundary_ascii_run(b, i, i + 4);
    } else if c == 0x66 {
        lemma_boundary_ascii_run(b, i, i + 5);
    } else {
        let j = spec_skip_number(b, i)->Some_0;
        lemma_skip_number_props(b, i);
        lemma_boundary_ascii_run(b, i, j);
    }
}

/// Skipping an object's members moves forward within the input and ends
/// on a character boundary.
proof fn lemma_skip_object_rest_boundary(b: Seq<u8>, i: int, depth: int)
    requires
        valid_utf8(b),
        0 <= i <= b.len(),
        is_char_boundary(b, i),
        spec_skip_object_rest(b, i, depth) is Some,
    ensures
        ({
            let j = spec_skip_object_rest(b, i, depth)->Some_0;
            &&& i < j <= b.len()
            &&& is_char_boundary(b, j)
        }),
    decreases depth, b.len() - i, 1int,
{
    let (_name, p1) = spec_string(b, i)->Some_0;
    lemma_string_valid(b, i);
    let p2 = spec_ws(b, p1);
    lemma_ws_boundary(b, p1);
    lemma_boundary_after_ascii(b, p2);
    let p3 = spec_ws(b, p2 + 1);
    lemma_ws_boundary(b, p2 + 1);
    lemma_skip_value_boundary(b, p3, depth);
    let p4 = spec_skip_value(b, p3, depth)->Some_0;
    let p5 = spec_ws(b, p4);
    lemma_ws_boundary(b, p4);
    if p5 < b.len() && b[p5] == 0x2C {
        lemma_boundary_after_ascii(b, p5);
        let p6 = spec_ws(b, p5 + 1);
        lemma_ws_boundary(b, p5 + 1);
        lemma_skip_object_rest_boundary(b, p6, depth);
    } else {
        lemma_boundary_after_ascii(b, p5);
    }
}

/// Skipping an array's elements moves forward within the input and ends
/// on a character boundary.
proof fn lemma_skip_array_rest_boundary(b: Seq<u8>, i: int, depth: int)
    requires
        valid_utf8(b),
        0 <= i <= b.len(),
        is_char_boundary(b, i),
        spec_skip_array_rest(b, i, depth) is Some,
    ensures
        ({
            let j = spec_skip_array_rest(b, i, depth)->Some_0;
            &&& i < j <= b.len()
            &&& is_char_boundary(b, j)
        }),
    decreases depth, b.len() - i, 1int,
{
    lemma_skip_value_boundary(b, i, depth);
    let p1 = spec_skip_value(b, i, depth)->Some_0;
    let p2 = spec_ws(b, p1);
    lemma_ws_boundary(b, p1);
    if p2 < b.len() && b[p2] == 0x2C {
        lemma_boundary_after_ascii(b, p2);
        let p3 = spec_ws(b, p2 + 1);
        lemma_ws_boundary(b, p2 + 1);
        lemma_skip_array_rest_boundary(b, p3, depth);
    } else {
        lemma_boundary_after_ascii(b, p2);
    }
}

/// Every member name and value decodes to valid UTF-8.
pub open spec fn all_members_valid(m: Seq<(Seq<u8>, Seq<u8>)>) -> bool {
    forall|j: int|
        0 <= j < m.len() ==> valid_utf8((#[trigger] m[j]).0) && valid_utf8(m[j].1)
}

/// Member names are pairwise distinct.
pub open spec fn members_unique(m: Seq<(Seq<u8>, Seq<u8>)>) -> bool {
    forall|i: int, j: int| 0 <= i < j < m.len() ==> (#[trigger] m[i]).0 != (#[trigger] m[j]).0
}

/// An upsert of a valid member keeps the members valid and their names
/// distinct.
proof fn lemma_upsert_props(m: Seq<(Seq<u8>, Seq<u8>)>, k: Seq<u8>, v: Seq<u8>)
    requires
        all_members_valid(m),
        members_unique(m),
        valid_utf8(k),
        valid_utf8(v),
    ensures
        all_members_valid(spec_upsert(m, k, v)),
        members_unique(spec_upsert(m, k, v)),
{
    lemma_key_index(m, k);
    let i = spec_key_index(m, k);
    let r = spec_upsert(m, k, v);
    if i < 0 {
        assert forall|a: int, bb: int| 0 <= a < bb < r.len() implies (#[trigger] r[a]).0 != (
        #[trigger] r[bb]).0 by {
            if bb == r.len() - 1 {
                assert(r[a] == m[a]);
                assert(m[a].0 != k);
            }
        }
    } else {
        assert forall|a: int, bb: int| 0 <= a < bb < r.len() implies (#[trigger] r[a]).0 != (
        #[trigger] r[bb]).0 by {
            assert(r[a].0 == m[a].0);
            assert(r[bb].0 == m[bb].0);
        }
    }
}

/// Everything an accepted member list holds decodes to valid UTF-8, the
/// names stay pairwise distinct, and the parse ends on a character
/// boundary after the closing brace.
proof fn lemma_members_valid(b: Seq<u8>, i: int, acc: Seq<(Seq<u8>, Seq<u8>)>)
    requires
        valid_utf8(b),
        0 <= i <= b.len(),
        is_char_boundary(b, i),
        all_members_valid(acc),
        members_unique(acc),
        spec_members(b, i, acc) is Some,
    ensures
        ({
            let (ins, p) = spec_members(b, i, acc)->Some_0;
            &&& all_members_valid(ins)
            &&& members_unique(ins)
            &&& i < p <= b.len()
            &&& is_char_boundary(b, p)
        }),
    decreases b.len() - i,
{
    let (name, p1) = spec_string(b, i)->Some_0;
    lemma_string_valid(b, i);
    let p2 = spec_ws(b, p1);
    lemma_ws_boundary(b, p1);
    lemma_boundary_after_ascii(b, p2);
    let p3 = spec_ws(b, p2 + 1);
    lemma_ws_boundary(b, p2 + 1);
    let (value, p4) = spec_string(b, p3)->Some_0;
    lemma_string_valid(b, p3);
    let acc2 = spec_upsert(acc, name, value);
    lemma_upsert_props(acc, name, value);
    let p5 = spec_ws(b, p4);
    lemma_ws_boundary(b, p4);
    if p5 < b.len() && b[p5] == 0x2C {
        lemma_boundary_after_ascii(b, p5);
        let p6 = spec_ws(b, p5 + 1);
        lemma_ws_boundary(b, p5 + 1);
        lemma_members_valid(b, p6, acc2);
    } else {
        lemma_boundary_after_ascii(b, p5);
    }
}

/// Everything an accepted inputs object holds decodes to valid UTF-8, the
/// names stay pairwise distinct, and the parse ends on a character
/// boundary after the closing brace.
proof fn lemma_inputs_object_valid(b: Seq<u8>, i: int)
    requires
        valid_utf8(b),
        0 <= i <= b.len(),
        is_char_boundary(b, i),
        spec_inputs_object(b, i) is Some,
    ensures
        ({
            let (ins, p) = spec_inputs_object(b, i)->Some_0;
            &&& all_members_valid(ins)
            &&& members_unique(ins)
            &&& i < p <= b.len()
            &&& is_char_boundary(b, p)
        }),
{
    lemma_boundary_after_ascii(b, i);
    let j = spec_ws(b, i + 1);
    lemma_ws_boundary(b, i + 1);
    if j < b.len() && b[j] == 0x7D {
        lemma_boundary_after_ascii(b, j);
    } else {
        lemma_members_valid(b, j, seq![]);
    }
}

/// Everything an accepted top-level object holds decodes to valid UTF-8,
/// and the input names stay pairwise distinct.
proof fn lemma_top_valid(
    b: Seq<u8>,
    i: int,
    script: Option<Seq<u8>>,
    inputs: Option<Seq<(Seq<u8>, Seq<u8>)>>,
)
    requires
        valid_utf8(b),
        0 <= i <= b.len(),
        is_char_boundary(b, i),
        script matches Some(s) ==> valid_utf8(s),
        inputs matches Some(ins) ==> all_members_valid(ins) && members_unique(ins),
        spec_top_members(b, i, script, inputs) is Some,
    ensures
        ({
            let (s, ins, _p) = spec_top_members(b, i, script, inputs)->Some_0;
            valid_utf8(s) && all_members_valid(ins) && members_unique(ins)
        }),
    decreases b.len() - i, 1int,
{
    let (key, p1) = spec_string(b, i)->Some_0;
    lemma_string_valid(b, i);
    let p2 = spec_ws(b, p1);
    lemma_ws_boundary(b, p1);
    lemma_boundary_after_ascii(b, p2);
    let p3 = spec_ws(b, p2 + 1);
    lemma_ws_boundary(b, p2 + 1);
    if key == spec_script_key() {
        let (s, p4) = spec_string(b, p3)->Some_0;
        lemma_string_valid(b, p3);
        lemma_top_tail_valid(b, p4, Some(s), inputs);
    } else if key == spec_inputs_key() {
        let (ins, p4) = spec_inputs_object(b, p3)->Some_0;
        lemma_inputs_object_valid(b, p3);
        lemma_top_tail_valid(b, p4, script, Some(ins));
    } else {
        lemma_skip_value_boundary(b, p3, NESTING_LIMIT as int);
        let p4 = spec_skip_value(b, p3, NESTING_LIMIT as int)->Some_0;
        lemma_top_tail_valid(b, p4, script, inputs);
    }
}

/// The continuation half of [`lemma_top_valid`].
proof fn lemma_top_tail_valid(
    b: Seq<u8>,
    p4: int,
    script: Option<Seq<u8>>,
    inputs: Option<Seq<(Seq<u8>, Seq<u8>)>>,
)
    requires
        valid_utf8(b),
        0 <= p4 <= b.len(),
        is_char_boundary(b, p4),
        script matches Some(s) ==> valid_utf8(s),
        inputs matches Some(ins) ==> all_members_valid(ins) && members_unique(ins),
        spec_top_tail(b, p4, script, inputs) is Some,
    ensures
        ({
            let (s, ins, _p) = spec_top_tail(b, p4, script, inputs)->Some_0;
            valid_utf8(s) && all_members_valid(ins) && members_unique(ins)
        }),
    decreases b.len() - p4, 0int,
{
    let p5 = spec_ws(b, p4);
    lemma_ws_boundary(b, p4);
    if p5 < b.len() && b[p5] == 0x2C {
        lemma_boundary_after_ascii(b, p5);
        let p6 = spec_ws(b, p5 + 1);
        lemma_ws_boundary(b, p5 + 1);
        lemma_top_valid(b, p6, script, inputs);
    }
}

/// Everything an accepted descriptor holds decodes to valid UTF-8, and
/// its input names are pairwise distinct.
pub proof fn lemma_descriptor_valid(b: Seq<u8>)
    requires
        valid_utf8(b),
        spec_parse_descriptor(b) is Some,
    ensures
        ({
            let d = spec_parse_descriptor(b)->Some_0;
            &&& valid_utf8(d.script)
            &&& all_members_valid(d.inputs)
            &&& members_unique(d.inputs)
        }),
{
    is_char_boundary_start_end_of_seq(b);
    lemma_ws_boundary(b, 0);
    let i0 = spec_ws(b, 0);
    lemma_boundary_after_ascii(b, i0);
    let i1 = spec_ws(b, i0 + 1);
    lemma_ws_boundary(b, i0 + 1);
    lemma_top_valid(b, i1, None, None);
}

/// Skips JSON whitespace.
fn skip_ws(b: &[u8], i: usize) -> (j: usize)
    requires
        i <= b@.len(),
    ensures
        j == spec_ws(b@, i as int),
        i <= j <= b@.len(),
{
    let n: usize = b.len();
    let mut k: usize = i;
    while k < n && (b[k] == 0x20 || b[k] == 0x09 || b[k] == 0x0a || b[k] == 0x0d)
        invariant
            i <= k <= n,
            n == b@.len(),
            spec_ws(b@, i as int) == spec_ws(b@, k as int),
        decreases n - k,
    {
        k = k + 1;
    }
    k
}

/// The value of one hexadecimal digit.
fn hex_digit(c: u8) -> (r: Option<u32>)
    ensures
        r == spec_hex_digit(c),
{
    if 0x30 <= c && c <= 0x39 {
        Some((c - 0x30) as u32)
    } else if 0x41 <= c && c <= 0x46 {
        Some((c - 0x41 + 10) as u32)
    } else if 0x61 <= c && c <= 0x66 {
        Some((c - 0x61 + 10) as u32)
    } else {
        None
    }
}

/// The value of the four hexadecimal digits at `i`.
fn parse_hex4(b: &[u8], i: usize) -> (r: Option<u32>)
    ensures
        r == spec_hex4(b@, i as int),
        r is Some ==> i + 4 <= b@.len(),
{
    if b.len() < 4 || i > b.len() - 4 {
        return None;
    }
    match (hex_digit(b[i]), hex_digit(b[i + 1]), hex_digit(b[i + 2]), hex_digit(b[i + 3])) {
        (Some(d0), Some(d1), Some(d2), Some(d3)) => Some(d0 * 0x1000 + d1 * 0x100 + d2 * 0x10 + d3),
        _ => None,
    }
}

/// Appends the UTF-8 encoding of a scalar.
fn push_scalar_utf8(out: &mut Vec<u8>, v: u32)
    requires
        is_scalar(v),
    ensures
        final(out)@ == old(out)@ + encode_scalar(v),
{
    if v <= 0x7F {
        out.push((v & 0x7F) as u8);
        proof {
            assert(final(out)@ =~= old(out)@ + encode_scalar(v));
        }
    } else if v <= 0x7FF {
        out.push(0xC0u8 | ((v >> 6) & 0x1F) as u8);
        out.push(0x80u8 | (v & 0x3F) as u8);
        proof {
            assert(final(out)@ =~= old(out)@ + encode_scalar(v));
        }
    } else if v <= 0xFFFF {
        out.push(0xE0u8 | ((v >> 12) & 0x0F) as u8);
        out.push(0x80u8 | ((v >> 6) & 0x3F) as u8);
        out.push(0x80u8 | (v & 0x3F) as u8);
        proof {
            assert(final(out)@ =~= old(out)@ + encode_scalar(v));
        }
    } else {
        out.push(0xF0u8 | ((v >> 18) & 0x7) as u8);
        out.push(0x80u8 | ((v >> 12) & 0x3F) as u8);
        out.push(0x80u8 | ((v >> 6) & 0x3F) as u8);
        out.push(0x80u8 | (v & 0x3F) as u8);
        proof {
            assert(final(out)@ =~= old(out)@ + encode_scalar(v));
        }
    }
}

/// Decodes the escape at `i` (the byte after the backslash) onto `out`.
/// Returns the position after the escape, or `None` for a malformed one.
fn parse_escape(b: &[u8], i: usize, out: &mut Vec<u8>) -> (r: Option<usize>)
    requires
        i <= b@.len(),
    ensures
        match r {
            Some(next) => {
                &&& spec_escape(b@, i as int) matches Some((ebytes, n2))
                &&& final(out)@ == old(out)@ + spec_escape(b@, i as int)->Some_0.0
                &&& n2 == next
                &&& i < next <= b@.len()
            },
            None => spec_escape(b@, i as int) is None && *final(out) == *old(out),
        },
{
    if i >= b.len() {
        return None;
    }
    let e = b[i];
    if e == 0x22 || e == 0x5C || e == 0x2F {
        out.push(e);
        proof {
            assert(final(out)@ =~= old(out)@ + spec_escape(b@, i as int)->Some_0.0);
        }
        Some(i + 1)
    } else if e == 0x62 {
        out.push(0x08);
        proof {
            assert(final(out)@ =~= old(out)@ + spec_escape(b@, i as int)->Some_0.0);
        }
        Some(i + 1)
    } else if e == 0x66 {
        out.push(0x0C);
        proof {
            assert(final(out)@ =~= old(out)@ + spec_escape(b@, i as int)->Some_0.0);
        }
        Some(i + 1)
    } else if e == 0x6E {
        out.push(0x0A);
        proof {
            assert(final(out)@ =~= old(out)@ + spec_escape(b@, i as int)->Some_0.0);
        }
        Some(i + 1)
    } else if e == 0x72 {
        out.push(0x0D);
        proof {
            assert(final(out)@ =~= old(out)@ + spec_escape(b@, i as int)->Some_0.0);
        }
        Some(i + 1)
    } else if e == 0x74 {
        out.push(0x09);
        proof {
            assert(final(out)@ =~= old(out)@ + spec_escape(b@, i as int)->Some_0.0);
        }
        Some(i + 1)
    } else if e == 0x75 {
        match parse_hex4(b, i + 1) {
            None => None,
            Some(v) => {
                if 0xD800 <= v && v <= 0xDBFF {
                    if b.len() >= 7 && i <= b.len() - 7 && b[i + 5] == 0x5C && b[i + 6] == 0x75 {
                        match parse_hex4(b, i + 7) {
                            None => None,
                            Some(w) => {
                                if 0xDC00 <= w && w <= 0xDFFF {
                                    let scalar: u32 = 0x10000 + (v - 0xD800) * 0x400 + (w - 0xDC00);
                                    proof {
                                        assert(scalar == spec_surrogate_pair(v, w));
                                        assert(is_scalar(scalar));
                                    }
                                    push_scalar_utf8(out, scalar);
                                    Some(i + 11)
                                } else {
                                    None
                                }
                            },
                        }
                    } else {
                        None
                    }
                } else if 0xDC00 <= v && v <= 0xDFFF {
                    None
                } else {
                    proof {
                        assert(is_scalar(v));
                    }
                    push_scalar_utf8(out, v);
                    Some(i + 5)
                }
            },
        }
    } else {
        None
    }
}

/// Parses the quoted string at `i`: pushes its decoded content onto `out`
/// and returns the position after the closing quote.
fn parse_string(b: &[u8], i: usize) -> (r: Option<(Vec<u8>, usize)>)
    requires
        i <= b@.len(),
    ensures
        match r {
            Some((content, next)) => {
                &&& spec_string(b@, i as int) == Some((content@, next as int))
                &&& i < next <= b@.len()
            },
            None => spec_string(b@, i as int) is None,
        },
{
    if i >= b.len() || b[i] != 0x22 {
        return None;
    }
    let ghost start: int = i as int + 1;
    let mut out: Vec<u8> = Vec::new();
    let mut k: usize = i + 1;
    loop
        invariant
            start == i as int + 1,
            i as int + 1 <= k as int <= b@.len(),
            spec_string(b@, i as int) == spec_string_body(b@, start),
            spec_string_body(b@, start) == (match spec_string_body(b@, k as int) {
                Some((c, j)) => Some((out@ + c, j)),
                None => None::<(Seq<u8>, int)>,
            }),
        decreases b@.len() - k,
    {
        if k >= b.len() {
            return None;
        }
        let c = b[k];
        if c == 0x22 {
            proof {
                assert(spec_string_body(b@, k as int) == Some((Seq::<u8>::empty(), k as int + 1)));
                assert(out@ + Seq::<u8>::empty() =~= out@);
            }
            return Some((out, k + 1));
        } else if c == 0x5C {
            let ghost out0 = out@;
            match parse_escape(b, k + 1, &mut out) {
                None => {
                    return None;
                },
                Some(next) => {
                    proof {
                        let (ebytes, _n2) = spec_escape(b@, k as int + 1)->Some_0;
                        assert(spec_string_body(b@, k as int) == (
                        match spec_string_body(b@, next as int) {
                            Some((c2, j)) => Some((ebytes + c2, j)),
                            None => None::<(Seq<u8>, int)>,
                        }));
                        if spec_string_body(b@, next as int) is Some {
                            let (c2, j) = spec_string_body(b@, next as int)->Some_0;
                            assert((out0 + ebytes) + c2 =~= out0 + (ebytes + c2));
                        }
                    }
                    k = next;
                },
            }
        } else if c < 0x20 {
            return None;
        } else {
            let ghost out0 = out@;
            out.push(c);
            proof {
                if spec_string_body(b@, k as int + 1) is Some {
                    let (c2, j) = spec_string_body(b@, k as int + 1)->Some_0;
                    assert((out0 + seq![c]) + c2 =~= out0 + (seq![c] + c2));
                }
            }
            k = k + 1;
        }
    }
}

/// The abstract value of an executable member list.
pub open spec fn members_view(m: Seq<(Vec<u8>, Vec<u8>)>) -> Seq<(Seq<u8>, Seq<u8>)> {
    m.map_values(|p: (Vec<u8>, Vec<u8>)| (p.0@, p.1@))
}

/// Byte-for-byte comparison.
fn eq_bytes(a: &[u8], b: &[u8]) -> (r: bool)
    ensures
        r <==> a@ == b@,
{
    let n: usize = a.len();
    if n != b.len() {
        proof {
            assert(a@ != b@) by {
                if a@ == b@ {
                    assert(a@.len() == b@.len());
                }
            }
        }
        return false;
    }
    let mut k: usize = 0;
    while k < n
        invariant
            n == a@.len(),
            n == b@.len(),
            k <= n,
            forall|j: int| 0 <= j < k ==> a@[j] == b@[j],
        decreases n - k,
    {
        if a[k] != b[k] {
            return false;
        }
        k = k + 1;
    }
    proof {
        assert(a@ =~= b@);
    }
    true
}

/// Whether a member name spells `script`.
fn is_script_key(k: &Vec<u8>) -> (r: bool)
    ensures
        r <==> k@ == spec_script_key(),
{
    if k.len() != 6 {
        proof {
            assert(k@ != spec_script_key()) by {
                if k@ == spec_script_key() {
                    assert(k@.len() == 6);
                }
            }
        }
        return false;
    }
    let r = k[0] == 0x73 && k[1] == 0x63 && k[2] == 0x72 && k[3] == 0x69 && k[4] == 0x70 && k[5]
        == 0x74;
    proof {
        if r {
            assert(k@ =~= spec_script_key());
        } else {
            assert(k@ != spec_script_key()) by {
                if k@ == spec_script_key() {
                    assert(k@[0] == 0x73 && k@[1] == 0x63 && k@[2] == 0x72 && k@[3] == 0x69 && k@[4]
                        == 0x70 && k@[5] == 0x74);
                }
            }
        }
    }
    r
}

/// Whether a member name spells `inputs`.
fn is_inputs_key(k: &Vec<u8>) -> (r: bool)
    ensures
        r <==> k@ == spec_inputs_key(),
{
    if k.len() != 6 {
        proof {
            assert(k@ != spec_inputs_key()) by {
                if k@ == spec_inputs_key() {
                    assert(k@.len() == 6);
                }
            }
        }
        return false;
    }
    let r = k[0] == 0x69 && k[1] == 0x6E && k[2] == 0x70 && k[3] == 0x75 && k[4] == 0x74 && k[5]
        == 0x73;
    proof {
        if r {
            assert(k@ =~= spec_inputs_key());
        } else {
            assert(k@ != spec_inputs_key()) by {
                if k@ == spec_inputs_key() {
                    assert(k@[0] == 0x69 && k@[1] == 0x6E && k@[2] == 0x70 && k@[3] == 0x75 && k@[4]
                        == 0x74 && k@[5] == 0x73);
                }
            }
        }
    }
    r
}

/// Adds a member, or replaces the value of the member already holding that
/// name, keeping its position.
fn upsert_member(m: &mut Vec<(Vec<u8>, Vec<u8>)>, k: Vec<u8>, v: Vec<u8>)
    ensures
        members_view(final(m)@) == spec_upsert(members_view(old(m)@), k@, v@),
{
    let n: usize = m.len();
    let mut j: usize = 0;
    while j < n
        invariant
            n == m@.len(),
            j <= n,
            m@ == old(m)@,
            forall|t: int| 0 <= t < j ==> members_view(m@)[t].0 != k@,
        decreases n - j,
    {
        if eq_bytes(m[j].0.as_slice(), k.as_slice()) {
            proof {
                let mv = members_view(m@);
                lemma_key_index(mv, k@);
                let si = spec_key_index(mv, k@);
                assert(mv[j as int].0 == k@);
                if si < 0 {
                    assert(false);
                } else if si < j as int {
                    assert(mv[si].0 == k@);
                } else if si > j as int {
                    assert(mv[j as int].0 != k@);
                }
                assert(si == j as int);
            }
            m.set(j, (k, v));
            proof {
                assert(members_view(m@) =~= spec_upsert(members_view(old(m)@), k@, v@));
            }
            return ;
        }
        j = j + 1;
    }
    proof {
        let mv = members_view(m@);
        lemma_key_index(mv, k@);
        let si = spec_key_index(mv, k@);
        if si >= 0 {
            assert(mv[si].0 == k@);
        }
        assert(si < 0);
    }
    m.push((k, v));
    proof {
        assert(members_view(m@) =~= spec_upsert(members_view(old(m)@), k@, v@));
    }
}

/// Parses the string-valued object at `i` (its opening brace): its
/// members, in declaration order with duplicates upserted, and the
/// position after the closing brace.
fn parse_inputs_object(b: &[u8], i: usize) -> (r: Option<(Vec<(Vec<u8>, Vec<u8>)>, usize)>)
    requires
        i <= b@.len(),
    ensures
        match r {
            Some((ins, next)) => {
                &&& spec_inputs_object(b@, i as int) == Some(
                    (members_view(ins@), next as int),
                )
                &&& i < next <= b@.len()
            },
            None => spec_inputs_object(b@, i as int) is None,
        },
{
    if i >= b.len() || b[i] != 0x7B {
        return None;
    }
    let j = skip_ws(b, i + 1);
    if j < b.len() && b[j] == 0x7D {
        proof {
            assert(members_view(Seq::<(Vec<u8>, Vec<u8>)>::empty()) =~= Seq::<
                (Seq<u8>, Seq<u8>),
            >::empty());
        }
        let ins: Vec<(Vec<u8>, Vec<u8>)> = Vec::new();
        return Some((ins, j + 1));
    }
    let mut acc: Vec<(Vec<u8>, Vec<u8>)> = Vec::new();
    let mut k: usize = j;
    proof {
        assert(members_view(acc@) =~= Seq::<(Seq<u8>, Seq<u8>)>::empty());
    }
    loop
        invariant
            i < k,
            k as int <= b@.len(),
            spec_inputs_object(b@, i as int) == spec_members(b@, k as int, members_view(acc@)),
        decreases b@.len() - k,
    {
        match parse_string(b, k) {
            None => {
                return None;
            },
            Some((name, p1)) => {
                let p2 = skip_ws(b, p1);
                if !(p2 < b.len() && b[p2] == 0x3A) {
                    return None;
                }
                let p3 = skip_ws(b, p2 + 1);
                match parse_string(b, p3) {
                    None => {
                        return None;
                    },
                    Some((value, p4)) => {
                        upsert_member(&mut acc, name, value);
                        let p5 = skip_ws(b, p4);
                        if p5 < b.len() && b[p5] == 0x2C {
                            let p6 = skip_ws(b, p5 + 1);
                            k = p6;
                        } else if p5 < b.len() && b[p5] == 0x7D {
                            return Some((acc, p5 + 1));
                        } else {
                            return None;
                        }
                    },
                }
            },
        }
    }
}

/// The end of the digit run at `i`.
fn digits_end(b: &[u8], i: usize) -> (j: usize)
    requires
        i <= b@.len(),
    ensures
        j == spec_digits_end(b@, i as int),
        i <= j <= b@.len(),
{
    let n: usize = b.len();
    let mut k: usize = i;
    while k < n && 0x30 <= b[k] && b[k] <= 0x39
        invariant
            i <= k <= n,
            n == b@.len(),
            spec_digits_end(b@, i as int) == spec_digits_end(b@, k as int),
        decreases n - k,
    {
        k = k + 1;
    }
    k
}

/// Skips the JSON number at `i`; returns the position after it.
fn skip_number(b: &[u8], i: usize) -> (r: Option<usize>)
    requires
        i <= b@.len(),
    ensures
        match r {
            Some(j) => spec_skip_number(b@, i as int) == Some(j as int) && i < j <= b@.len(),
            None => spec_skip_number(b@, i as int) is None,
        },
{
    let n: usize = b.len();
    if i >= n {
        return None;
    }
    let s: usize = if b[i] == 0x2D {
        i + 1
    } else {
        i
    };
    if s >= n {
        return None;
    }
    let int_end: usize;
    if b[s] == 0x30 {
        int_end = s + 1;
    } else if 0x31 <= b[s] && b[s] <= 0x39 {
        int_end = digits_end(b, s);
        proof {
            lemma_digits_end_props(b@, s as int + 1);
            assert(spec_digits_end(b@, s as int) == spec_digits_end(b@, s as int + 1));
        }
    } else {
        return None;
    }
    let frac_end: usize;
    if int_end < n && b[int_end] == 0x2E {
        frac_end = digits_end(b, int_end + 1);
        if frac_end == int_end + 1 {
            return None;
        }
    } else {
        frac_end = int_end;
    }
    if frac_end < n && (b[frac_end] == 0x65 || b[frac_end] == 0x45) {
        let sign: usize = if frac_end + 1 < n && (b[frac_end + 1] == 0x2B || b[frac_end + 1]
            == 0x2D) {
            frac_end + 2
        } else {
            frac_end + 1
        };
        let exp_end = digits_end(b, sign);
        if exp_end > sign {
            Some(exp_end)
        } else {
            None
        }
    } else {
        Some(frac_end)
    }
}

/// Skips the JSON value at `i`; returns the position after it.
fn skip_value(b: &[u8], i: usize, depth: u32) -> (r: Option<usize>)
    requires
        i <= b@.len(),
    ensures
        match r {
            Some(j) => spec_skip_value(b@, i as int, depth as int) == Some(j as int) && i < j
                <= b@.len(),
            None => spec_skip_value(b@, i as int, depth as int) is None,
        },
    decreases depth, b@.len() - i, 0int,
{
    let n: usize = b.len();
    if i >= n {
        return None;
    }
    let c = b[i];
    if c == 0x22 {
        match parse_string(b, i) {
            Some((_content, j)) => Some(j),
            None => None,
        }
    } else if c == 0x7B {
        if depth == 0 {
            return None;
        }
        let j = skip_ws(b, i + 1);
        if j < n && b[j] == 0x7D {
            Some(j + 1)
        } else {
            skip_object_rest(b, j, depth - 1)
        }
    } else if c == 0x5B {
        if depth == 0 {
            return None;
        }
        let j = skip_ws(b, i + 1);
        if j < n && b[j] == 0x5D {
            Some(j + 1)
        } else {
            skip_array_rest(b, j, depth - 1)
        }
    } else if c == 0x74 {
        if n >= 4 && i <= n - 4 && b[i + 1] == 0x72 && b[i + 2] == 0x75 && b[i + 3] == 0x65 {
            Some(i + 4)
        } else {
            None
        }
    } else if c == 0x66 {
        if n >= 5 && i <= n - 5 && b[i + 1] == 0x61 && b[i + 2] == 0x6C && b[i + 3] == 0x73 && b[i
            + 4] == 0x65 {
            Some(i + 5)
        } else {
            None
        }
    } else if c == 0x6E {
        if n >= 4 && i <= n - 4 && b[i + 1] == 0x75 && b[i + 2] == 0x6C && b[i + 3] == 0x6C {
            Some(i + 4)
        } else {
            None
        }
    } else {
        skip_number(b, i)
    }
}

/// Skips the members of an object, starting at the opening quote of a
/// member name; returns the position after the closing brace.
fn skip_object_rest(b: &[u8], i: usize, depth: u32) -> (r: Option<usize>)
    requires
        i <= b@.len(),
    ensures
        match r {
            Some(j) => spec_skip_object_rest(b@, i as int, depth as int) == Some(j as int) && i < j
                <= b@.len(),
            None => spec_skip_object_rest(b@, i as int, depth as int) is None,
        },
    decreases depth, b@.len() - i, 1int,
{
    let n: usize = b.len();
    match parse_string(b, i) {
        None => None,
        Some((_name, p1)) => {
            let p2 = skip_ws(b, p1);
            if !(p2 < n && b[p2] == 0x3A) {
                return None;
            }
            let p3 = skip_ws(b, p2 + 1);
            match skip_value(b, p3, depth) {
                None => None,
                Some(p4) => {
                    let p5 = skip_ws(b, p4);
                    if p5 < n && b[p5] == 0x2C {
                        let p6 = skip_ws(b, p5 + 1);
                        skip_object_rest(b, p6, depth)
                    } else if p5 < n && b[p5] == 0x7D {
                        Some(p5 + 1)
                    } else {
                        None
                    }
                },
            }
        },
    }
}

/// Skips the elements of an array, starting at the first element; returns
/// the position after the closing bracket.
fn skip_array_rest(b: &[u8], i: usize, depth: u32) -> (r: Option<usize>)
    requires
        i <= b@.len(),
    ensures
        match r {
            Some(j) => spec_skip_array_rest(b@, i as int, depth as int) == Some(j as int) && i < j
                <= b@.len(),
            None => spec_skip_array_rest(b@, i as int, depth as int) is None,
        },
    decreases depth, b@.len() - i, 1int,
{
    let n: usize = b.len();
    match skip_value(b, i, depth) {
        None => None,
        Some(p1) => {
            let p2 = skip_ws(b, p1);
            if p2 < n && b[p2] == 0x2C {
                let p3 = skip_ws(b, p2 + 1);
                skip_array_rest(b, p3, depth)
            } else if p2 < n && b[p2] == 0x5D {
                Some(p2 + 1)
            } else {
                None
            }
        },
    }
}

/// The abstract value of an optional byte buffer.
pub open spec fn option_bytes_view(o: Option<Vec<u8>>) -> Option<Seq<u8>> {
    match o {
        Some(v) => Some(v@),
        None => None,
    }
}

/// The abstract value of an optional member list.
pub open spec fn option_members_view(o: Option<Vec<(Vec<u8>, Vec<u8>)>>) -> Option<
    Seq<(Seq<u8>, Seq<u8>)>,
> {
    match o {
        Some(v) => Some(members_view(v@)),
        None => None,
    }
}

/// Parses the members of the top-level object, starting at the opening
/// quote of the first member name.
#[verifier::rlimit(100)]
fn parse_top(b: &[u8], i: usize) -> (r: Option<(Vec<u8>, Vec<(Vec<u8>, Vec<u8>)>, usize)>)
    requires
        i <= b@.len(),
    ensures
        match r {
            Some((s, ins, next)) => {
                &&& spec_top_members(b@, i as int, None, None) == Some(
                    (s@, members_view(ins@), next as int),
                )
                &&& i < next <= b@.len()
            },
            None => spec_top_members(b@, i as int, None, None) is None,
        },
{
    let mut script: Option<Vec<u8>> = None;
    let mut inputs: Option<Vec<(Vec<u8>, Vec<u8>)>> = None;
    let mut k: usize = i;
    loop
        invariant
            i <= k,
            k as int <= b@.len(),
            spec_top_members(b@, i as int, None, None) == spec_top_members(
                b@,
                k as int,
                option_bytes_view(script),
                option_members_view(inputs),
            ),
        decreases b@.len() - k,
    {
        match parse_string(b, k) {
            None => {
                return None;
            },
            Some((key, p1)) => {
                let p2 = skip_ws(b, p1);
                if !(p2 < b.len() && b[p2] == 0x3A) {
                    return None;
                }
                let p3 = skip_ws(b, p2 + 1);
                let p4: usize;
                if is_script_key(&key) {
                    if script.is_some() {
                        return None;
                    }
                    match parse_string(b, p3) {
                        None => {
                            return None;
                        },
                        Some((s, pp)) => {
                            script = Some(s);
                            p4 = pp;
                        },
                    }
                } else if is_inputs_key(&key) {
                    if inputs.is_some() {
                        return None;
                    }
                    match parse_inputs_object(b, p3) {
                        None => {
                            return None;
                        },
                        Some((ins, pp)) => {
                            inputs = Some(ins);
                            p4 = pp;
                        },
                    }
                } else {
                    match skip_value(b, p3, NESTING_LIMIT) {
                        None => {
                            return None;
                        },
                        Some(pp) => {
                            p4 = pp;
                        },
                    }
                }
                proof {
                    assert(spec_top_members(b@, i as int, None, None) == spec_top_tail(
                        b@,
                        p4 as int,
                        option_bytes_view(script),
                        option_members_view(inputs),
                    ));
                }
                let p5 = skip_ws(b, p4);
                if p5 < b.len() && b[p5] == 0x2C {
                    let p6 = skip_ws(b, p5 + 1);
                    k = p6;
                } else if p5 < b.len() && b[p5] == 0x7D {
                    match (script, inputs) {
                        (Some(s), Some(ins)) => {
                            return Some((s, ins, p5 + 1));
                        },
                        _ => {
                            return None;
                        },
                    }
                } else {
                    return None;
                }
            },
        }
    }
}

/// Parses a whole descriptor: optional whitespace around one top-level
/// object holding exactly the members `script` and `inputs`, and nothing
/// after it. Returns the script bytes and the input members in
/// declaration order.
pub(crate) fn parse_descriptor_bytes(b: &[u8]) -> (r: Option<(Vec<u8>, Vec<(Vec<u8>, Vec<u8>)>)>)
    ensures
        match r {
            Some((s, ins)) => spec_parse_descriptor(b@) == Some(
                (DescriptorView { script: s@, inputs: members_view(ins@) }),
            ),
            None => spec_parse_descriptor(b@) is None,
        },
{
    let i0 = skip_ws(b, 0);
    if !(i0 < b.len() && b[i0] == 0x7B) {
        return None;
    }
    let i1 = skip_ws(b, i0 + 1);
    match parse_top(b, i1) {
        None => None,
        Some((s, ins, p)) => {
            let q = skip_ws(b, p);
            if q == b.len() {
                Some((s, ins))
            } else {
                None
            }
        },
    }
}


} // verus!
