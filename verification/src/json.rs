use vstd::prelude::*;
use crate::types::SnapshotError;
use crate::scan::{is_ws, skip_whitespace, first_of_two_from, ws_end, after_byte, occurs_at, digit_run_end, is_ascii_digit, lemma_digit_run_end};
use vstd::utf8::{valid_utf8, decode_utf8, encode_utf8};
use crate::bytes::bytes_eq;
use vstd::string::StringSliceAdditionalSpecFns;
use vstd::utf8::encode_scalar;

verus! {

/// A JSON value of the snapshot header. A number keeps the integer part
/// of its value, exponent applied, as a `u64` (negative numbers give 0,
/// larger ones saturate).
pub enum JsonValue {
    Null,
    Bool(bool),
    Number(u64),
    Str(String),
    Array(Vec<JsonValue>),
    Object(Vec<(String, JsonValue)>),
}

/// The value a parsed JSON value stands for.
pub enum JsonSpec {
    Null,
    Bool(bool),
    Number(u64),
    Str(Seq<char>),
    Array(Seq<JsonSpec>),
    Object(Seq<(Seq<char>, JsonSpec)>),
}

impl JsonValue {
    pub open spec fn view(&self) -> JsonSpec
        decreases self,
    {
        match self {
            JsonValue::Null => JsonSpec::Null,
            JsonValue::Bool(b) => JsonSpec::Bool(*b),
            JsonValue::Number(n) => JsonSpec::Number(*n),
            JsonValue::Str(s) => JsonSpec::Str(s@),
            JsonValue::Array(items) => JsonSpec::Array(
                Seq::new(items@.len(), |i: int| if 0 <= i < items@.len() { items@[i].view() } else { JsonSpec::Null }),
            ),
            JsonValue::Object(pairs) => JsonSpec::Object(
                Seq::new(pairs@.len(), |i: int| if 0 <= i < pairs@.len() { (pairs@[i].0@, pairs@[i].1.view()) } else { (Seq::empty(), JsonSpec::Null) }),
            ),
        }
    }
}

/// Hex digit value.
pub open spec fn hex_digit_value(b: u8) -> int {
    if 48 <= b <= 57 {
        b - 48
    } else if 97 <= b <= 102 {
        b - 87
    } else if 65 <= b <= 70 {
        b - 55
    } else {
        -1
    }
}

fn hex_value(b: u8) -> (r: Option<u32>)
    ensures
        match r {
            Some(v) => hex_digit_value(b) == v && v < 16,
            None => hex_digit_value(b) == -1,
        },
{
    if 48u8 <= b && b <= 57u8 {
        Some((b - 48u8) as u32)
    } else if 97u8 <= b && b <= 102u8 {
        Some((b - 87u8) as u32)
    } else if 65u8 <= b && b <= 70u8 {
        Some((b - 55u8) as u32)
    } else {
        None
    }
}

/// The value of the hex digits in `data[s..e)`.
pub open spec fn hex_run_value(data: Seq<u8>, s: int, e: int) -> int
    decreases e - s,
{
    if e <= s {
        0
    } else {
        hex_run_value(data, s, e - 1) * 16 + hex_digit_value(data[e - 1])
    }
}

/// `u16::from_str_radix(_, 16)` on the four bytes at `pos`: an optional
/// leading `+`, then hex digits only.
pub open spec fn hex4_value(data: Seq<u8>, pos: int) -> Option<u32> {
    let s = if data[pos] == 43 { pos + 1 } else { pos };
    if forall|j: int| s <= j < pos + 4 ==> hex_digit_value(#[trigger] data[j]) >= 0 {
        Some(hex_run_value(data, s, pos + 4) as u32)
    } else {
        None
    }
}

/// `u16::from_str_radix(_, 16)` on the four bytes at `pos`: an optional
/// leading `+`, then hex digits.
pub fn parse_hex4(data: &[u8], pos: usize) -> (r: Option<u32>)
    requires
        pos + 4 <= data@.len(),
    ensures
        r matches Some(v) ==> v < 0x10000,
        r == hex4_value(data@, pos as int),
{
    let mut k: usize = 0;
    if data[pos] == 43u8 {
        k = 1;
    }
    let ghost s = pos + k;
    let mut v: u32 = 0;
    let mut any = false;
    let dl = data.len();
    proof {
        reveal_with_fuel(pow16, 5);
    }
    while k < 4
        invariant
            dl == data@.len(),
            pos + 4 <= data@.len(),
            k <= 4,
            s == pos + (if data@[pos as int] == 43 { 1int } else { 0int }),
            s <= pos + k,
            v < 0x10000,
            v * 16 * 16 * 16 * 16 < 0x10000 * 0x10000,
            k >= 1 ==> v < pow16(k as int),
            k == 0 ==> v == 0,
            v == hex_run_value(data@, s, pos + k),
            forall|j: int| s <= j < pos + k ==> hex_digit_value(#[trigger] data@[j]) >= 0,
            !any ==> s == pos + k,
        decreases 4 - k,
    {
        match hex_value(data[pos + k]) {
            Some(d) => {
                proof {
                    lemma_pow16_step(v as int, d as int, k as int);
                }
                v = v * 16 + d;
                any = true;
            },
            None => {
                proof {
                    assert(hex_digit_value(data@[pos + k]) < 0);
                }
                return None;
            },
        }
        k += 1;
    }
    proof {
        assert(s < pos + 4);
    }
    if !any {
        return None;
    }
    Some(v)
}

pub open spec fn pow16(k: int) -> int
    decreases k,
{
    if k <= 0 {
        1
    } else {
        16 * pow16(k - 1)
    }
}

proof fn lemma_pow16_step(v: int, d: int, k: int)
    requires
        0 <= k < 4,
        0 <= d < 16,
        0 <= v,
        k >= 1 ==> v < pow16(k),
        k == 0 ==> v == 0,
    ensures
        v * 16 + d < pow16(k + 1),
        pow16(k + 1) <= 0x10000,
        v * 16 + d < 0x10000,
        (v * 16 + d) * 16 * 16 * 16 * 16 < 0x10000 * 0x10000,
{
    reveal_with_fuel(pow16, 5);
    if k >= 1 {
        assert(v * 16 + d < pow16(k) * 16) by (nonlinear_arith)
            requires v < pow16(k), 0 <= d < 16;
    }
    assert(pow16(k + 1) <= 0x10000);
    assert((v * 16 + d) * 16 * 16 * 16 * 16 < 0x10000 * 0x10000) by (nonlinear_arith)
        requires v * 16 + d < 0x10000, v * 16 + d >= 0;
}

/// `char::from_u32(cp).unwrap_or('\u{FFFD}')` as a code point.
pub open spec fn scalar_or_replacement(cp: u32) -> u32 {
    if cp <= 0x10FFFF && !(0xD800 <= cp <= 0xDFFF) {
        cp
    } else {
        0xFFFD
    }
}

/// Appends the UTF-8 encoding of `cp`, or of U+FFFD when `cp` is not a
/// Unicode scalar value.
pub fn push_code_point(out: &mut Vec<u8>, cp: u32)
    ensures
        final(out)@.len() > old(out)@.len(),
        final(out)@.subrange(0, old(out)@.len() as int) == old(out)@,
        final(out)@ == old(out)@ + encode_scalar(scalar_or_replacement(cp)),
{
    let c = if cp <= 0x10FFFFu32 && !(0xD800u32 <= cp && cp <= 0xDFFFu32) {
        cp
    } else {
        0xFFFDu32
    };
    assert(c == scalar_or_replacement(cp));
    if c < 0x80u32 {
        proof {
            assert((c as u8) == (c & 0x7F) as u8) by (bit_vector)
                requires c < 0x80u32;
        }
        out.push(c as u8);
    } else if c < 0x800u32 {
        proof {
            assert((0xC0u32 + c / 64) as u8 == (0xC0u8 | ((c >> 6) & 0x1F) as u8)) by (bit_vector)
                requires 0x80u32 <= c < 0x800u32;
            assert((0x80u32 + c % 64) as u8 == (0x80u8 | (c & 0x3F) as u8)) by (bit_vector);
        }
        out.push((0xC0u32 + c / 64) as u8);
        out.push((0x80u32 + c % 64) as u8);
    } else if c < 0x10000u32 {
        proof {
            assert((0xE0u32 + c / 4096) as u8 == (0xE0u8 | ((c >> 12) & 0x0F) as u8)) by (bit_vector)
                requires 0x800u32 <= c < 0x10000u32;
            assert((0x80u32 + (c / 64) % 64) as u8 == (0x80u8 | ((c >> 6) & 0x3F) as u8)) by (bit_vector);
            assert((0x80u32 + c % 64) as u8 == (0x80u8 | (c & 0x3F) as u8)) by (bit_vector);
        }
        out.push((0xE0u32 + c / 4096) as u8);
        out.push((0x80u32 + (c / 64) % 64) as u8);
        out.push((0x80u32 + c % 64) as u8);
    } else {
        proof {
            assert((0xF0u32 + c / 262144) as u8 == (0xF0u8 | ((c >> 18) & 0x7) as u8)) by (bit_vector)
                requires 0x10000u32 <= c <= 0x10FFFFu32;
            assert((0x80u32 + (c / 4096) % 64) as u8 == (0x80u8 | ((c >> 12) & 0x3F) as u8)) by (bit_vector);
            assert((0x80u32 + (c / 64) % 64) as u8 == (0x80u8 | ((c >> 6) & 0x3F) as u8)) by (bit_vector);
            assert((0x80u32 + c % 64) as u8 == (0x80u8 | (c & 0x3F) as u8)) by (bit_vector);
        }
        out.push((0xF0u32 + c / 262144) as u8);
        out.push((0x80u32 + (c / 4096) % 64) as u8);
        out.push((0x80u32 + (c / 64) % 64) as u8);
        out.push((0x80u32 + c % 64) as u8);
    }
    proof {
        assert(final(out)@.subrange(0, old(out)@.len() as int) =~= old(out)@);
        assert(final(out)@ =~= old(out)@ + encode_scalar(c));
    }
}

/// The code point of a `\u` escape with value `code` whose digits end at
/// `pos`, and the position after what is read: a high surrogate followed
/// by `\uXXXX` combines with it (wrapping arithmetic, as the code computes
/// it); a lone high surrogate gives U+FFFD; anything else is `code`.
pub open spec fn surrogate_value(data: Seq<u8>, pos: int, code: u32) -> Option<(u32, int)> {
    if 0xD800 <= code <= 0xDBFF {
        if data.len() - pos >= 6 && data[pos] == 92 && data[pos + 1] == 117 {
            match hex4_value(data, pos + 2) {
                Some(code2) => Some((
                    (0x10000u32).wrapping_add(((code - 0xD800) * 1024) as u32).wrapping_add(code2.wrapping_sub(0xDC00u32)),
                    pos + 6,
                )),
                None => None,
            }
        } else {
            Some((0xFFFD, pos))
        }
    } else {
        Some((code, pos))
    }
}

/// What the escape whose letter sits at `q` stands for, and the position
/// after it: the usual one-letter escapes, `\u` escapes as UTF-8 (U+FFFD
/// for what is no scalar value), and, for any other letter, the backslash
/// and the letter themselves.
pub open spec fn escape_value(data: Seq<u8>, q: int) -> Option<(Seq<u8>, int)> {
    let esc = data[q];
    let p = q + 1;
    if esc == 34 {
        Some((seq![34u8], p))
    } else if esc == 92 {
        Some((seq![92u8], p))
    } else if esc == 47 {
        Some((seq![47u8], p))
    } else if esc == 110 {
        Some((seq![10u8], p))
    } else if esc == 114 {
        Some((seq![13u8], p))
    } else if esc == 116 {
        Some((seq![9u8], p))
    } else if esc == 98 {
        Some((seq![8u8], p))
    } else if esc == 102 {
        Some((seq![12u8], p))
    } else if esc == 117 {
        if data.len() - p < 4 {
            None
        } else {
            match hex4_value(data, p) {
                Some(code) => match surrogate_value(data, p + 4, code) {
                    Some((cp, np)) => Some((encode_scalar(scalar_or_replacement(cp)), np)),
                    None => None,
                },
                None => None,
            }
        }
    } else {
        Some((seq![92u8, esc], p))
    }
}

/// `prefix` followed by the bytes `rest` holds, if it holds any.
pub open spec fn prepend_bytes(prefix: Seq<u8>, rest: Option<(Seq<u8>, int)>) -> Option<(Seq<u8>, int)> {
    match rest {
        Some((b, q)) => Some((prefix + b, q)),
        None => None,
    }
}

/// The decoded bytes of a JSON string from `p` (inside the string) up to
/// its closing quote, and the position after that quote.
pub open spec fn string_body(data: Seq<u8>, p: int) -> Option<(Seq<u8>, int)>
    decreases data.len() - p,
{
    if p < 0 || p >= data.len() {
        None
    } else if data[p] == 34 {
        Some((Seq::empty(), p + 1))
    } else if data[p] == 92 {
        if p + 1 >= data.len() {
            None
        } else {
            match escape_value(data, p + 1) {
                Some((b, np)) => if np <= p || np > data.len() {
                    None
                } else {
                    prepend_bytes(b, string_body(data, np))
                },
                None => None,
            }
        }
    } else {
        prepend_bytes(seq![data[p]], string_body(data, p + 1))
    }
}

/// The decoded bytes of the JSON string whose opening quote is at `pos`,
/// and the position after its closing quote.
pub open spec fn json_string_at(data: Seq<u8>, pos: int) -> Option<(Seq<u8>, int)> {
    if 0 <= pos < data.len() && data[pos] == 34 {
        string_body(data, pos + 1)
    } else {
        None
    }
}

proof fn lemma_prepend_bytes_assoc(a: Seq<u8>, b: Seq<u8>, rest: Option<(Seq<u8>, int)>)
    ensures
        prepend_bytes(a, prepend_bytes(b, rest)) == prepend_bytes(a + b, rest),
{
    match rest {
        Some((v, q)) => {
            assert(a + (b + v) =~= (a + b) + v);
        },
        None => {},
    }
}

/// A run of bytes other than quotes and backslashes is copied as it is.
proof fn lemma_plain_run(data: Seq<u8>, p: int, idx: int)
    requires
        0 <= p <= idx < data.len(),
        forall|j: int| p <= j < idx ==> data[j] != 34 && data[j] != 92,
    ensures
        string_body(data, p) == prepend_bytes(data.subrange(p, idx), string_body(data, idx)),
    decreases idx - p,
{
    if p == idx {
        match string_body(data, idx) {
            Some((b, q)) => {
                assert(data.subrange(p, idx) + b =~= b);
            },
            None => {},
        }
    } else {
        lemma_plain_run(data, p + 1, idx);
        lemma_prepend_bytes_assoc(seq![data[p]], data.subrange(p + 1, idx), string_body(data, idx));
        assert(seq![data[p]] + data.subrange(p + 1, idx) =~= data.subrange(p, idx));
    }
}

/// The code point of a `\u` escape whose four hex digits (already read)
/// give `code`, reading a following `\uXXXX` low surrogate when `code` is a
/// high surrogate; returns it with the position after what was read.
pub fn surrogate_pair(data: &[u8], pos: usize, code: u32) -> (r: Result<(u32, usize), SnapshotError>)
    requires
        pos <= data@.len(),
        code < 0x10000,
    ensures
        r matches Ok((_, p)) ==> pos <= p <= data@.len(),
        match r {
            Ok((cp, p)) => surrogate_value(data@, pos as int, code) == Some((cp, p as int)),
            Err(_) => surrogate_value(data@, pos as int, code) is None,
        },
{
    if 0xD800u32 <= code && code <= 0xDBFFu32 {
        if data.len() - pos >= 6 && data[pos] == 92u8 && data[pos + 1] == 117u8 {
            match parse_hex4(data, pos + 2) {
                Some(code2) => {
                    let cp = 0x10000u32.wrapping_add((code - 0xD800u32) * 1024).wrapping_add(code2.wrapping_sub(0xDC00u32));
                    Ok((cp, pos + 6))
                },
                None => Err(SnapshotError::Parse("invalid unicode escape".to_string())),
            }
        } else {
            Ok((0xFFFDu32, pos))
        }
    } else {
        Ok((code, pos))
    }
}

/// Decodes the escape whose letter sits at `pos` (just after a backslash),
/// appending what it stands for; returns the position after it.
fn decode_escape(data: &[u8], pos: usize, out: &mut Vec<u8>) -> (r: Result<usize, SnapshotError>)
    requires
        pos < data@.len(),
    ensures
        r matches Ok(p) ==> pos < p <= data@.len(),
        match escape_value(data@, pos as int) {
            Some((b, p)) => r == Ok::<usize, SnapshotError>(p as usize) && final(out)@ == old(out)@ + b,
            None => r is Err,
        },
{
    let esc = data[pos];
    let p = pos + 1;
    if esc == 34u8 {
        out.push(34u8);
    } else if esc == 92u8 {
        out.push(92u8);
    } else if esc == 47u8 {
        out.push(47u8);
    } else if esc == 110u8 {
        out.push(10u8);
    } else if esc == 114u8 {
        out.push(13u8);
    } else if esc == 116u8 {
        out.push(9u8);
    } else if esc == 98u8 {
        out.push(8u8);
    } else if esc == 102u8 {
        out.push(12u8);
    } else if esc == 117u8 {
        if data.len() - p < 4 {
            return Err(SnapshotError::Parse("unterminated unicode escape".to_string()));
        }
        match parse_hex4(data, p) {
            Some(code) => {
                let (cp, np) = surrogate_pair(data, p + 4, code)?;
                push_code_point(out, cp);
                return Ok(np);
            },
            None => {
                return Err(SnapshotError::Parse("invalid unicode escape".to_string()));
            },
        }
    } else {
        out.push(92u8);
        out.push(esc);
    }
    Ok(p)
}

/// A JSON string whose opening quote is at `pos`, with its escapes
/// decoded: the bytes and the position after the closing quote. Runs
/// without escapes are found with `memchr2`.
pub fn parse_json_string(data: &[u8], pos: usize) -> (r: Result<(Vec<u8>, usize), SnapshotError>)
    requires
        pos <= data@.len(),
    ensures
        r matches Ok((_, p)) ==> pos < p <= data@.len(),
        match r {
            Ok((b, p)) => json_string_at(data@, pos as int) == Some((b@, p as int)),
            Err(_) => json_string_at(data@, pos as int) is None,
        },
{
    if pos >= data.len() || data[pos] != 34u8 {
        return Err(SnapshotError::Parse("expected a string".to_string()));
    }
    let mut p = pos + 1;
    let mut bytes: Vec<u8> = Vec::new();
    proof {
        match string_body(data@, p as int) {
            Some((b, q)) => {
                assert(Seq::<u8>::empty() + b =~= b);
            },
            None => {},
        }
    }
    loop
        invariant
            pos < p <= data@.len(),
            json_string_at(data@, pos as int) == prepend_bytes(bytes@, string_body(data@, p as int)),
        decreases data@.len() - p,
    {
        match first_of_two_from(data, p, 34u8, 92u8) {
            Some(idx) => {
                let ghost b0 = bytes@;
                let mut k = p;
                while k < idx
                    invariant
                        p <= k <= idx,
                        idx < data@.len(),
                        bytes@ == b0 + data@.subrange(p as int, k as int),
                    decreases idx - k,
                {
                    bytes.push(data[k]);
                    k += 1;
                    proof {
                        assert(bytes@ =~= b0 + data@.subrange(p as int, k as int));
                    }
                }
                proof {
                    lemma_plain_run(data@, p as int, idx as int);
                    lemma_prepend_bytes_assoc(b0, data@.subrange(p as int, idx as int), string_body(data@, idx as int));
                }
                if data[idx] == 34u8 {
                    proof {
                        assert(bytes@ + Seq::<u8>::empty() =~= bytes@);
                    }
                    return Ok((bytes, idx + 1));
                }
                if idx + 1 >= data.len() {
                    return Err(SnapshotError::Parse("unterminated escape in string".to_string()));
                }
                let ghost b1 = bytes@;
                p = decode_escape(data, idx + 1, &mut bytes)?;
                proof {
                    let (eb, np) = escape_value(data@, idx + 1).unwrap();
                    lemma_prepend_bytes_assoc(b1, eb, string_body(data@, np));
                }
            },
            None => {
                proof {
                    lemma_no_close(data@, p as int);
                }
                return Err(SnapshotError::Parse("unterminated string".to_string()));
            },
        }
    }
}

/// With neither a quote nor a backslash left, a string never closes.
proof fn lemma_no_close(data: Seq<u8>, p: int)
    requires
        0 <= p <= data.len(),
        forall|j: int| p <= j < data.len() ==> data[j] != 34 && data[j] != 92,
    ensures
        string_body(data, p) is None,
    decreases data.len() - p,
{
    if p < data.len() {
        lemma_no_close(data, p + 1);
    }
}

/// `String::from_utf8`: the string the bytes encode, or an error when they
/// are not valid UTF-8.
#[verifier::external_body]
pub fn utf8_string(bytes: Vec<u8>) -> (r: Option<String>)
    ensures
        r is Some <==> vstd::utf8::valid_utf8(bytes@),
        r matches Some(s) ==> s@ == vstd::utf8::decode_utf8(bytes@),
{
    String::from_utf8(bytes).ok()
}

/// `prefix` followed by the strings `rest` holds, if it holds any.
pub open spec fn prepend_strings(prefix: Seq<Seq<char>>, rest: Option<(Seq<Seq<char>>, int)>) -> Option<(Seq<Seq<char>>, int)> {
    match rest {
        Some((v, q)) => Some((prefix + v, q)),
        None => None,
    }
}

/// The strings of a JSON array whose `[` has been read, up to its `]`, and
/// the position after the `]`: whitespace and commas separate the strings,
/// each of which must decode to valid UTF-8.
pub open spec fn string_array_from(data: Seq<u8>, p: int) -> Option<(Seq<Seq<char>>, int)>
    decreases data.len() - p,
{
    let q = ws_end(data, p);
    if p < 0 || q < p || q >= data.len() {
        None
    } else if data[q] == 93 {
        Some((Seq::empty(), q + 1))
    } else if data[q] == 44 {
        string_array_from(data, q + 1)
    } else if data[q] == 34 {
        match json_string_at(data, q) {
            Some((b, np)) => if !valid_utf8(b) || np <= q || np > data.len() {
                None
            } else {
                prepend_strings(seq![decode_utf8(b)], string_array_from(data, np))
            },
            None => None,
        }
    } else {
        None
    }
}

/// The strings of the JSON array whose `[` is the first at or after `p`,
/// and the position after its `]`.
pub open spec fn string_array_at(data: Seq<u8>, p: int) -> Option<(Seq<Seq<char>>, int)> {
    match after_byte(data, p, 91) {
        Some(q) => string_array_from(data, q),
        None => None,
    }
}

/// The characters of each string.
pub open spec fn string_views(v: Seq<String>) -> Seq<Seq<char>> {
    Seq::new(v.len(), |i: int| v[i]@)
}

proof fn lemma_prepend_strings_assoc(a: Seq<Seq<char>>, b: Seq<Seq<char>>, rest: Option<(Seq<Seq<char>>, int)>)
    ensures
        prepend_strings(a, prepend_strings(b, rest)) == prepend_strings(a + b, rest),
{
    match rest {
        Some((v, q)) => {
            assert(a + (b + v) =~= (a + b) + v);
        },
        None => {},
    }
}

/// A JSON array of strings, searched from `pos` for its `[`: the strings
/// and the position after the closing `]`.
pub fn parse_string_array(data: &[u8], pos: usize) -> (r: Result<(Vec<String>, usize), SnapshotError>)
    requires
        pos <= data@.len(),
    ensures
        r matches Ok((_, p)) ==> pos < p <= data@.len(),
        match r {
            Ok((v, p)) => string_array_at(data@, pos as int) == Some((string_views(v@), p as int)),
            Err(_) => string_array_at(data@, pos as int) is None,
        },
{
    let mut p = crate::scan::find_byte(data, pos, 91u8)?;
    let mut out: Vec<String> = Vec::new();
    proof {
        match string_array_from(data@, p as int) {
            Some((v, q)) => {
                assert(string_views(out@) + v =~= v);
            },
            None => {},
        }
    }
    loop
        invariant
            pos < p <= data@.len(),
            string_array_at(data@, pos as int) == prepend_strings(string_views(out@), string_array_from(data@, p as int)),
        decreases data@.len() - p,
    {
        let p0 = p;
        p = skip_whitespace(data, p);
        if p >= data.len() {
            return Err(SnapshotError::Parse("unexpected end of input in a string array".to_string()));
        }
        let b = data[p];
        if b == 93u8 {
            proof {
                assert(string_views(out@) + Seq::<Seq<char>>::empty() =~= string_views(out@));
            }
            return Ok((out, p + 1));
        } else if b == 44u8 {
            p = p + 1;
        } else if b == 34u8 {
            let (bytes, np) = parse_json_string(data, p)?;
            let ghost bv = bytes@;
            match utf8_string(bytes) {
                Some(s) => {
                    let ghost before = out@;
                    out.push(s);
                    proof {
                        assert(string_views(out@) =~= string_views(before) + seq![decode_utf8(bv)]);
                        lemma_prepend_strings_assoc(string_views(before), seq![decode_utf8(bv)], string_array_from(data@, np as int));
                    }
                },
                None => {
                    return Err(SnapshotError::Parse("invalid UTF-8 in a string".to_string()));
                },
            }
            p = np;
        } else {
            return Err(SnapshotError::Parse("unexpected byte in a string array".to_string()));
        }
    }
}

/// The saturating value of a run of digits, as the number parser
/// computes it: once the value exceeds `u64::MAX / 10` it stays at
/// `u64::MAX`.
pub open spec fn sat_decimal(s: Seq<u8>) -> u64
    decreases s.len(),
{
    if s.len() == 0 {
        0
    } else {
        let v = sat_decimal(s.drop_last());
        let d = (s.last() - 48) as int;
        if v > 1844674407370955161 {
            u64::MAX
        } else if v * 10 + d > u64::MAX {
            u64::MAX
        } else {
            (v * 10 + d) as u64
        }
    }
}

/// Ten times `v`, saturated to `u64`.
pub open spec fn times_ten_sat(v: u64) -> u64 {
    if v > 1844674407370955161 {
        u64::MAX
    } else if v * 10 > u64::MAX {
        u64::MAX
    } else {
        (v * 10) as u64
    }
}

/// `v` multiplied by ten `k` times, saturated to `u64`.
pub open spec fn shift_sat(v: u64, k: nat) -> u64
    decreases k,
{
    if k == 0 {
        v
    } else {
        shift_sat(times_ten_sat(v), (k - 1) as nat)
    }
}

/// The integer part of the decimal number whose digits are `all` with the
/// point after the first `shift` of them (zeros filled in past the end),
/// saturated to `u64`.
pub open spec fn shifted_value(all: Seq<u8>, shift: int) -> u64 {
    if shift <= 0 {
        0
    } else if shift <= all.len() {
        sat_decimal(all.subrange(0, shift))
    } else {
        shift_sat(sat_decimal(all), (shift - all.len()) as nat)
    }
}

/// A JSON number at `pos` and the position after it: an optional minus,
/// integer digits, an optional fraction, an optional exponent; at least
/// one digit before the exponent and, when there is an exponent, one in
/// it. Its value is the integer part of the number, saturated to `u64`,
/// 0 when negative.
pub open spec fn number_at(data: Seq<u8>, pos: int) -> Option<(u64, int)> {
    let neg = data[pos] == 45;
    let p1 = if neg { pos + 1 } else { pos };
    let e1 = digit_run_end(data, p1);
    let has_frac = e1 < data.len() && data[e1] == 46;
    let p2 = if has_frac { digit_run_end(data, e1 + 1) } else { e1 };
    let has_exp = p2 < data.len() && (data[p2] == 101 || data[p2] == 69);
    let q = p2 + 1;
    let signed = has_exp && q < data.len() && (data[q] == 43 || data[q] == 45);
    let exp_neg = signed && data[q] == 45;
    let q2 = if signed { q + 1 } else { q };
    let p3 = if has_exp { digit_run_end(data, q2) } else { p2 };
    let all = data.subrange(p1, e1) + if has_frac { data.subrange(e1 + 1, p2) } else { Seq::<u8>::empty() };
    let exp = if has_exp { sat_decimal(data.subrange(q2, p3)) as int } else { 0 };
    let shift = (e1 - p1) + if exp_neg { -exp } else { exp };
    if all.len() == 0 || (has_exp && p3 == q2) {
        None
    } else {
        Some((if neg { 0 } else { shifted_value(all, shift) }, p3))
    }
}

/// The position after the literal `lit` when it sits at `p`.
pub open spec fn literal_at(data: Seq<u8>, p: int, lit: Seq<u8>) -> Option<int> {
    if occurs_at(data, p, lit) {
        Some(p + lit.len())
    } else {
        None
    }
}

/// `v` followed by what `rest` holds, if it holds anything.
pub open spec fn prepend_json(v: JsonSpec, rest: Option<(Seq<JsonSpec>, int)>) -> Option<(Seq<JsonSpec>, int)> {
    match rest {
        Some((s, q)) => Some((seq![v] + s, q)),
        None => None,
    }
}

/// `m` followed by what `rest` holds, if it holds anything.
pub open spec fn prepend_member(
    m: (Seq<char>, JsonSpec),
    rest: Option<(Seq<(Seq<char>, JsonSpec)>, int)>,
) -> Option<(Seq<(Seq<char>, JsonSpec)>, int)> {
    match rest {
        Some((s, q)) => Some((seq![m] + s, q)),
        None => None,
    }
}

/// The JSON value that starts at the first non-whitespace byte at or after
/// `pos`, and the position after it.
pub open spec fn json_value_at(data: Seq<u8>, pos: int) -> Option<(JsonSpec, int)>
    decreases data.len() - pos, 2int,
{
    let p = ws_end(data, pos);
    if pos < 0 || p < pos || p >= data.len() {
        None
    } else {
        let b = data[p];
        if b == 34 {
            match json_string_at(data, p) {
                Some((bytes, np)) => if valid_utf8(bytes) {
                    Some((JsonSpec::Str(decode_utf8(bytes)), np))
                } else {
                    None
                },
                None => None,
            }
        } else if b == 123 {
            json_object_at(data, p)
        } else if b == 91 {
            json_array_at(data, p)
        } else if b == 116 {
            match literal_at(data, p, "true".spec_bytes()) {
                Some(np) => Some((JsonSpec::Bool(true), np)),
                None => None,
            }
        } else if b == 102 {
            match literal_at(data, p, "false".spec_bytes()) {
                Some(np) => Some((JsonSpec::Bool(false), np)),
                None => None,
            }
        } else if b == 110 {
            match literal_at(data, p, "null".spec_bytes()) {
                Some(np) => Some((JsonSpec::Null, np)),
                None => None,
            }
        } else if b == 45 || (48 <= b <= 57) {
            match number_at(data, p) {
                Some((v, np)) => Some((JsonSpec::Number(v), np)),
                None => None,
            }
        } else {
            None
        }
    }
}

/// The JSON array whose `[` is at `pos`, and the position after its `]`.
pub open spec fn json_array_at(data: Seq<u8>, pos: int) -> Option<(JsonSpec, int)>
    decreases data.len() - pos, 1int,
{
    let p = ws_end(data, pos + 1);
    if pos < 0 || pos >= data.len() || p <= pos || p > data.len() {
        None
    } else if p < data.len() && data[p] == 93 {
        Some((JsonSpec::Array(Seq::empty()), p + 1))
    } else {
        match json_array_items(data, p) {
            Some((items, e)) => Some((JsonSpec::Array(items), e)),
            None => None,
        }
    }
}

/// The items of a JSON array from the one at `p` on, and the position
/// after the array's `]`.
pub open spec fn json_array_items(data: Seq<u8>, p: int) -> Option<(Seq<JsonSpec>, int)>
    decreases data.len() - p, 3int,
{
    if p < 0 || p > data.len() {
        None
    } else {
        match json_value_at(data, p) {
            None => None,
            Some((v, np)) => {
                let q = ws_end(data, np);
                if np <= p || q < np || q >= data.len() {
                    None
                } else if data[q] == 44 {
                    prepend_json(v, json_array_items(data, q + 1))
                } else if data[q] == 93 {
                    Some((seq![v], q + 1))
                } else {
                    None
                }
            },
        }
    }
}

/// The JSON object whose `{` is at `pos`, and the position after its `}`.
pub open spec fn json_object_at(data: Seq<u8>, pos: int) -> Option<(JsonSpec, int)>
    decreases data.len() - pos, 1int,
{
    let p = ws_end(data, pos + 1);
    if pos < 0 || pos >= data.len() || p <= pos || p > data.len() {
        None
    } else if p < data.len() && data[p] == 125 {
        Some((JsonSpec::Object(Seq::empty()), p + 1))
    } else {
        match json_object_members(data, p) {
            Some((members, e)) => Some((JsonSpec::Object(members), e)),
            None => None,
        }
    }
}

/// The members of a JSON object from the one at or after `p` on, and the
/// position after the object's `}`.
pub open spec fn json_object_members(data: Seq<u8>, p: int) -> Option<(Seq<(Seq<char>, JsonSpec)>, int)>
    decreases data.len() - p, 3int,
{
    let p1 = ws_end(data, p);
    if p < 0 || p > data.len() || p1 < p {
        None
    } else {
        match json_string_at(data, p1) {
            None => None,
            Some((kb, kp)) => {
                let c = ws_end(data, kp);
                if !valid_utf8(kb) || kp <= p1 || c < kp || c >= data.len() || data[c] != 58 {
                    None
                } else {
                    match json_value_at(data, c + 1) {
                        None => None,
                        Some((v, np)) => {
                            let q = ws_end(data, np);
                            if np <= c || q < np || q >= data.len() {
                                None
                            } else if data[q] == 44 {
                                prepend_member((decode_utf8(kb), v), json_object_members(data, q + 1))
                            } else if data[q] == 125 {
                                Some((seq![(decode_utf8(kb), v)], q + 1))
                            } else {
                                None
                            }
                        },
                    }
                }
            },
        }
    }
}

/// The values the items stand for.
pub open spec fn json_views(items: Seq<JsonValue>) -> Seq<JsonSpec> {
    Seq::new(items.len(), |i: int| if 0 <= i < items.len() { items[i].view() } else { JsonSpec::Null })
}

/// The keys and values the members stand for.
pub open spec fn member_views(pairs: Seq<(String, JsonValue)>) -> Seq<(Seq<char>, JsonSpec)> {
    Seq::new(pairs.len(), |i: int| if 0 <= i < pairs.len() { (pairs[i].0@, pairs[i].1.view()) } else { (Seq::empty(), JsonSpec::Null) })
}

/// Skips whitespace, then consumes `ch`.
fn expect_byte(data: &[u8], pos: usize, ch: u8) -> (r: Result<usize, SnapshotError>)
    requires
        pos <= data@.len(),
    ensures
        r matches Ok(p) ==> pos < p <= data@.len(),
        match r {
            Ok(p) => ws_end(data@, pos as int) < data@.len() && data@[ws_end(data@, pos as int)] == ch && p == ws_end(data@, pos as int) + 1,
            Err(_) => !(ws_end(data@, pos as int) < data@.len() && data@[ws_end(data@, pos as int)] == ch),
        },
{
    let p = skip_whitespace(data, pos);
    if p < data.len() && data[p] == ch {
        Ok(p + 1)
    } else {
        Err(SnapshotError::Parse("unexpected byte in the snapshot header".to_string()))
    }
}

/// Consumes the bytes of `lit` at `pos`.
fn expect_literal(data: &[u8], pos: usize, lit: &[u8]) -> (r: Result<usize, SnapshotError>)
    requires
        pos <= data@.len(),
        lit@.len() > 0,
    ensures
        r matches Ok(p) ==> pos < p <= data@.len(),
        match r {
            Ok(p) => literal_at(data@, pos as int, lit@) == Some(p as int),
            Err(_) => literal_at(data@, pos as int, lit@) is None,
        },
{
    let mut p = pos;
    let mut k: usize = 0;
    while k < lit.len()
        invariant
            pos <= p <= data@.len(),
            p == pos + k,
            k <= lit@.len(),
            forall|j: int| 0 <= j < k ==> data@[pos + j] == lit@[j],
        decreases lit@.len() - k,
    {
        if p >= data.len() || data[p] != lit[k] {
            proof {
                if occurs_at(data@, pos as int, lit@) {
                    assert(data@.subrange(pos as int, pos + lit@.len())[k as int] == lit@[k as int]);
                }
            }
            return Err(SnapshotError::Parse("unexpected literal in the snapshot header".to_string()));
        }
        p += 1;
        k += 1;
    }
    proof {
        assert(data@.subrange(pos as int, pos + lit@.len()) =~= lit@);
    }
    Ok(p)
}

/// The value of the digits `s[..k]`, saturated to `u64`.
fn sat_decimal_prefix(s: &[u8], k: usize) -> (r: u64)
    requires
        k <= s@.len(),
        forall|j: int| 0 <= j < s@.len() ==> is_ascii_digit(#[trigger] s@[j]),
    ensures
        r == sat_decimal(s@.subrange(0, k as int)),
{
    let mut v: u64 = 0;
    let mut i: usize = 0;
    proof {
        assert(s@.subrange(0, 0) =~= Seq::<u8>::empty());
    }
    while i < k
        invariant
            i <= k <= s@.len(),
            forall|j: int| 0 <= j < s@.len() ==> is_ascii_digit(#[trigger] s@[j]),
            v == sat_decimal(s@.subrange(0, i as int)),
        decreases k - i,
    {
        let d = (s[i] - 48u8) as u64;
        proof {
            assert(s@.subrange(0, i + 1).drop_last() =~= s@.subrange(0, i as int));
        }
        v = if v > 1844674407370955161u64 {
            u64::MAX
        } else {
            (v * 10).saturating_add(d)
        };
        i += 1;
    }
    v
}

/// Appends the digits `data[from..to]` to `out`.
fn push_digits(out: &mut Vec<u8>, data: &[u8], from: usize, to: usize)
    requires
        from <= to <= data@.len(),
        forall|j: int| from <= j < to ==> is_ascii_digit(#[trigger] data@[j]),
        forall|j: int| 0 <= j < old(out)@.len() ==> is_ascii_digit(#[trigger] old(out)@[j]),
    ensures
        final(out)@ == old(out)@ + data@.subrange(from as int, to as int),
        forall|j: int| 0 <= j < final(out)@.len() ==> is_ascii_digit(#[trigger] final(out)@[j]),
{
    let mut i = from;
    while i < to
        invariant
            from <= i <= to <= data@.len(),
            forall|j: int| from <= j < to ==> is_ascii_digit(#[trigger] data@[j]),
            out@ == old(out)@ + data@.subrange(from as int, i as int),
            forall|j: int| 0 <= j < out@.len() ==> is_ascii_digit(#[trigger] out@[j]),
        decreases to - i,
    {
        out.push(data[i]);
        proof {
            assert(old(out)@ + data@.subrange(from as int, i + 1) =~= (old(out)@ + data@.subrange(from as int, i as int)).push(data@[i as int]));
        }
        i += 1;
    }
}

/// The end of the run of digits starting at `p`.
fn digit_run(data: &[u8], p: usize) -> (r: usize)
    requires
        p <= data@.len(),
    ensures
        p <= r <= data@.len(),
        r == digit_run_end(data@, p as int),
        forall|j: int| p <= j < r ==> is_ascii_digit(#[trigger] data@[j]),
{
    let mut q = p;
    while q < data.len() && 48u8 <= data[q] && data[q] <= 57u8
        invariant
            p <= q <= data@.len(),
            forall|j: int| p <= j < q ==> is_ascii_digit(#[trigger] data@[j]),
        decreases data@.len() - q,
    {
        q += 1;
    }
    proof {
        lemma_digit_run_end(data@, p as int, q as int);
    }
    q
}

proof fn lemma_shift_sat_max(k: nat)
    ensures
        shift_sat(u64::MAX, k) == u64::MAX,
    decreases k,
{
    if k > 0 {
        lemma_shift_sat_max((k - 1) as nat);
    }
}

proof fn lemma_shift_sat_zero(k: nat)
    ensures
        shift_sat(0, k) == 0,
    decreases k,
{
    if k > 0 {
        lemma_shift_sat_zero((k - 1) as nat);
    }
}

/// `v` multiplied by ten `k` times, saturated to `u64`.
fn shift_sat_exec(v: u64, k: u128) -> (r: u64)
    ensures
        r == shift_sat(v, k as nat),
{
    let mut w = v;
    let mut j = k;
    while j > 0
        invariant
            shift_sat(w, j as nat) == shift_sat(v, k as nat),
        decreases j,
    {
        if w == 0 {
            proof {
                lemma_shift_sat_zero(j as nat);
            }
            return 0;
        }
        if w == u64::MAX {
            proof {
                lemma_shift_sat_max(j as nat);
            }
            return u64::MAX;
        }
        w = if w > 1844674407370955161u64 {
            u64::MAX
        } else {
            w * 10
        };
        j -= 1;
    }
    w
}

/// The integer part of the number with digits `all`, `int_len` of them
/// before the point, times ten to the (signed) exponent, saturated.
fn number_value(all: &Vec<u8>, int_len: usize, exp: u64, exp_neg: bool) -> (r: u64)
    requires
        int_len <= all@.len(),
        forall|j: int| 0 <= j < all@.len() ==> is_ascii_digit(#[trigger] all@[j]),
    ensures
        r == shifted_value(all@, int_len + if exp_neg { -(exp as int) } else { exp as int }),
{
    let il = int_len as u128;
    if exp_neg && exp as u128 >= il {
        return 0;
    }
    let shift: u128 = if exp_neg { il - exp as u128 } else { il + exp as u128 };
    if shift <= all.len() as u128 {
        sat_decimal_prefix(all.as_slice(), shift as usize)
    } else {
        proof {
            assert(all@.subrange(0, all@.len() as int) =~= all@);
        }
        let whole = sat_decimal_prefix(all.as_slice(), all.len());
        shift_sat_exec(whole, shift - all.len() as u128)
    }
}

/// A JSON number at `pos`: the integer part of its value, saturated to
/// `u64` (0 when negative), and the position after it.
#[verifier::spinoff_prover]
fn parse_number(data: &[u8], pos: usize) -> (r: Result<(u64, usize), SnapshotError>)
    requires
        pos < data@.len(),
        data@[pos as int] == 45 || (48 <= data@[pos as int] <= 57),
    ensures
        r matches Ok((_, p)) ==> pos < p <= data@.len(),
        match r {
            Ok((v, p)) => number_at(data@, pos as int) == Some((v, p as int)),
            Err(_) => number_at(data@, pos as int) is None,
        },
{
    let negative = data[pos] == 45u8;
    let p1 = if negative { pos + 1 } else { pos };
    let e1 = digit_run(data, p1);
    let mut all: Vec<u8> = Vec::new();
    push_digits(&mut all, data, p1, e1);
    let has_frac = e1 < data.len() && data[e1] == 46u8;
    let p2 = if has_frac {
        let f = digit_run(data, e1 + 1);
        push_digits(&mut all, data, e1 + 1, f);
        f
    } else {
        e1
    };
    let has_exp = p2 < data.len() && (data[p2] == 101u8 || data[p2] == 69u8);
    let q = if has_exp { p2 + 1 } else { p2 };
    let signed = has_exp && q < data.len() && (data[q] == 43u8 || data[q] == 45u8);
    let exp_neg = signed && data[q] == 45u8;
    let q2 = if signed { q + 1 } else { q };
    let p3 = if has_exp { digit_run(data, q2) } else { p2 };
    proof {
        let spec_all = data@.subrange(p1 as int, e1 as int) + if has_frac { data@.subrange(e1 + 1, p2 as int) } else { Seq::<u8>::empty() };
        assert(all@ =~= spec_all);
    }
    if all.len() == 0 || (has_exp && p3 == q2) {
        return Err(SnapshotError::Parse("invalid number in the snapshot header".to_string()));
    }
    if negative {
        return Ok((0, p3));
    }
    let exp: u64 = if has_exp {
        let ed = vstd::slice::slice_subrange(data, q2, p3);
        proof {
            assert forall|j: int| 0 <= j < ed@.len() implies is_ascii_digit(#[trigger] ed@[j]) by {
                assert(ed@[j] == data@[q2 + j]);
            }
            assert(ed@.subrange(0, ed@.len() as int) =~= ed@);
        }
        sat_decimal_prefix(ed, ed.len())
    } else {
        0
    };
    let value = number_value(&all, e1 - p1, exp, exp_neg);
    Ok((value, p3))
}

/// A JSON value starting at the first non-whitespace byte at or after
/// `pos`, and the position after it.
pub fn parse_value(data: &[u8], pos: usize) -> (r: Result<(JsonValue, usize), SnapshotError>)
    requires
        pos <= data@.len(),
    ensures
        r matches Ok((_, p)) ==> pos < p <= data@.len(),
        match r {
            Ok((v, p)) => json_value_at(data@, pos as int) == Some((v@, p as int)),
            Err(_) => json_value_at(data@, pos as int) is None,
        },
    decreases data@.len() - pos, 1int,
{
    let p = skip_whitespace(data, pos);
    if p >= data.len() {
        return Err(SnapshotError::Parse("unexpected end of the snapshot header".to_string()));
    }
    let b = data[p];
    if b == 34u8 {
        let (bytes, np) = parse_json_string(data, p)?;
        match utf8_string(bytes) {
            Some(s) => Ok((JsonValue::Str(s), np)),
            None => Err(SnapshotError::Parse("invalid UTF-8 in the snapshot header".to_string())),
        }
    } else if b == 123u8 {
        parse_object(data, p)
    } else if b == 91u8 {
        parse_array(data, p)
    } else if b == 116u8 {
        proof {
            reveal_strlit("true");
        }
        let np = expect_literal(data, p, "true".as_bytes())?;
        Ok((JsonValue::Bool(true), np))
    } else if b == 102u8 {
        proof {
            reveal_strlit("false");
        }
        let np = expect_literal(data, p, "false".as_bytes())?;
        Ok((JsonValue::Bool(false), np))
    } else if b == 110u8 {
        proof {
            reveal_strlit("null");
        }
        let np = expect_literal(data, p, "null".as_bytes())?;
        Ok((JsonValue::Null, np))
    } else if b == 45u8 || (48u8 <= b && b <= 57u8) {
        let (v, np) = parse_number(data, p)?;
        Ok((JsonValue::Number(v), np))
    } else {
        Err(SnapshotError::Parse("unexpected byte in the snapshot header".to_string()))
    }
}

/// A JSON array whose `[` is at `pos`.
fn parse_array(data: &[u8], pos: usize) -> (r: Result<(JsonValue, usize), SnapshotError>)
    requires
        pos < data@.len(),
        data@[pos as int] == 91,
    ensures
        r matches Ok((_, p)) ==> pos < p <= data@.len(),
        match r {
            Ok((v, p)) => json_array_at(data@, pos as int) == Some((v@, p as int)),
            Err(_) => json_array_at(data@, pos as int) is None,
        },
    decreases data@.len() - pos, 0int,
{
    proof {
        lemma_ws_end_at(data@, pos as int);
    }
    let mut p = expect_byte(data, pos, 91u8)?;
    let mut items: Vec<JsonValue> = Vec::new();
    p = skip_whitespace(data, p);
    if p < data.len() && data[p] == 93u8 {
        proof {
            lemma_array_view(items);
            assert(json_views(items@) =~= Seq::empty());
        }
        return Ok((JsonValue::Array(items), p + 1));
    }
    proof {
        match json_array_items(data@, p as int) {
            Some((v, q)) => {
                assert(json_views(items@) + v =~= v);
            },
            None => {},
        }
    }
    loop
        invariant
            pos < p <= data@.len(),
            json_array_at(data@, pos as int) == match json_array_items(data@, p as int) {
                Some((v, e)) => Some((JsonSpec::Array(json_views(items@) + v), e)),
                None => None::<(JsonSpec, int)>,
            },
        decreases data@.len() - p,
    {
        let p0 = p;
        let (v, np) = parse_value(data, p)?;
        let ghost before = items@;
        let ghost vv = v@;
        items.push(v);
        proof {
            assert(json_views(items@) =~= json_views(before) + seq![vv]);
        }
        p = skip_whitespace(data, np);
        if p < data.len() && data[p] == 44u8 {
            proof {
                match json_array_items(data@, p + 1) {
                    Some((w, e)) => {
                        assert(json_views(before) + (seq![vv] + w) =~= json_views(items@) + w);
                    },
                    None => {},
                }
            }
            p = p + 1;
        } else if p < data.len() && data[p] == 93u8 {
            proof {
                assert(json_views(before) + seq![vv] =~= json_views(items@));
                lemma_array_view(items);
            }
            return Ok((JsonValue::Array(items), p + 1));
        } else {
            return Err(SnapshotError::Parse("expected ',' or ']' in the snapshot header".to_string()));
        }
    }
}

pub proof fn lemma_array_view(items: Vec<JsonValue>)
    ensures
        JsonValue::Array(items)@ == JsonSpec::Array(json_views(items@)),
{
    let v = JsonValue::Array(items);
    match v@ {
        JsonSpec::Array(s1) => {
            assert(s1 =~= json_views(items@));
        },
        _ => {},
    }
}

pub proof fn lemma_object_view(pairs: Vec<(String, JsonValue)>)
    ensures
        JsonValue::Object(pairs)@ == JsonSpec::Object(member_views(pairs@)),
{
    let v = JsonValue::Object(pairs);
    match v@ {
        JsonSpec::Object(s1) => {
            assert(s1 =~= member_views(pairs@));
        },
        _ => {},
    }
}

proof fn lemma_ws_end_at(data: Seq<u8>, p: int)
    requires
        0 <= p < data.len(),
        !is_ws(data[p]),
    ensures
        ws_end(data, p) == p,
{
}

/// A JSON object whose `{` is at `pos`.
#[verifier::spinoff_prover]
#[verifier::rlimit(30)]
fn parse_object(data: &[u8], pos: usize) -> (r: Result<(JsonValue, usize), SnapshotError>)
    requires
        pos < data@.len(),
        data@[pos as int] == 123,
    ensures
        r matches Ok((_, p)) ==> pos < p <= data@.len(),
        match r {
            Ok((v, p)) => json_object_at(data@, pos as int) == Some((v@, p as int)),
            Err(_) => json_object_at(data@, pos as int) is None,
        },
    decreases data@.len() - pos, 0int,
{
    proof {
        lemma_ws_end_at(data@, pos as int);
    }
    let mut p = expect_byte(data, pos, 123u8)?;
    let mut pairs: Vec<(String, JsonValue)> = Vec::new();
    p = skip_whitespace(data, p);
    if p < data.len() && data[p] == 125u8 {
        proof {
            lemma_object_view(pairs);
            assert(member_views(pairs@) =~= Seq::empty());
        }
        return Ok((JsonValue::Object(pairs), p + 1));
    }
    proof {
        match json_object_members(data@, p as int) {
            Some((v, q)) => {
                assert(member_views(pairs@) + v =~= v);
            },
            None => {},
        }
    }
    loop
        invariant
            pos < p <= data@.len(),
            json_object_at(data@, pos as int) == match json_object_members(data@, p as int) {
                Some((v, e)) => Some((JsonSpec::Object(member_views(pairs@) + v), e)),
                None => None::<(JsonSpec, int)>,
            },
        decreases data@.len() - p,
    {
        let p_entry = p;
        p = skip_whitespace(data, p);
        let (key_bytes, kp) = parse_json_string(data, p)?;
        let ghost kb = key_bytes@;
        let key = match utf8_string(key_bytes) {
            Some(k) => k,
            None => {
                return Err(SnapshotError::Parse("invalid UTF-8 in the snapshot header".to_string()));
            },
        };
        let cp = expect_byte(data, kp, 58u8)?;
        let (v, np) = parse_value(data, cp)?;
        let ghost before = pairs@;
        let ghost m = (decode_utf8(kb), v@);
        pairs.push((key, v));
        proof {
            assert(member_views(pairs@) =~= member_views(before) + seq![m]);
        }
        p = skip_whitespace(data, np);
        if p < data.len() && data[p] == 44u8 {
            proof {
                match json_object_members(data@, p + 1) {
                    Some((w, e)) => {
                        assert(member_views(before) + (seq![m] + w) =~= member_views(pairs@) + w);
                    },
                    None => {},
                }
            }
            p = p + 1;
        } else if p < data.len() && data[p] == 125u8 {
            proof {
                assert(member_views(before) + seq![m] =~= member_views(pairs@));
                lemma_object_view(pairs);
            }
            return Ok((JsonValue::Object(pairs), p + 1));
        } else {
            return Err(SnapshotError::Parse("expected ',' or '}' in the snapshot header".to_string()));
        }
    }
}

/// The value of the first member whose key encodes to `key`.
pub open spec fn first_member(members: Seq<(Seq<char>, JsonSpec)>, key: Seq<u8>) -> Option<JsonSpec>
    decreases members.len(),
{
    if members.len() == 0 {
        None
    } else if encode_utf8(members[0].0) == key {
        Some(members[0].1)
    } else {
        first_member(members.drop_first(), key)
    }
}

/// The value of the first member of object `v` whose key encodes to
/// `key`; none for other values.
pub open spec fn json_member(v: JsonSpec, key: Seq<u8>) -> Option<JsonSpec> {
    match v {
        JsonSpec::Object(members) => first_member(members, key),
        _ => None,
    }
}

/// The value of the first pair of an object with the given key.
pub fn json_get<'a>(v: &'a JsonValue, key: &[u8]) -> (r: Option<&'a JsonValue>)
    ensures
        match r {
            Some(x) => json_member(v@, key@) == Some(x@),
            None => json_member(v@, key@) is None,
        },
{
    match v {
        JsonValue::Object(pairs) => {
            proof {
                lemma_object_view(*pairs);
            }
            let ghost mv = member_views(pairs@);
            let mut i: usize = 0;
            proof {
                assert(mv.subrange(0, mv.len() as int) =~= mv);
            }
            while i < pairs.len()
                invariant
                    i <= pairs@.len(),
                    mv == member_views(pairs@),
                    v@ == JsonSpec::Object(mv),
                    first_member(mv, key@) == first_member(mv.subrange(i as int, mv.len() as int), key@),
                decreases pairs@.len() - i,
            {
                let ghost rest = mv.subrange(i as int, mv.len() as int);
                assert(rest[0] == mv[i as int]);
                if bytes_eq(pairs[i].0.as_str().as_bytes(), key) {
                    return Some(&pairs[i].1);
                }
                proof {
                    assert(rest.drop_first() =~= mv.subrange(i + 1, mv.len() as int));
                }
                i += 1;
            }
            None
        },
        _ => None,
    }
}

} // verus!
