use vstd::prelude::*;
use crate::types::SnapshotError;

verus! {

/// `memchr::memchr`: the index of the first byte of `hay` equal to
/// `needle`, or `None` when there is none.
#[verifier::external_body]
fn memchr_first(needle: u8, hay: &[u8]) -> (r: Option<usize>)
    ensures
        match r {
            Some(i) => i < hay@.len() && hay@[i as int] == needle && forall|j: int| 0 <= j < i ==> hay@[j] != needle,
            None => forall|j: int| 0 <= j < hay@.len() ==> hay@[j] != needle,
        },
{
    memchr::memchr(needle, hay)
}

/// `memchr::memchr2`: the index of the first byte of `hay` equal to either
/// needle, or `None` when there is none.
#[verifier::external_body]
fn memchr2_first(n1: u8, n2: u8, hay: &[u8]) -> (r: Option<usize>)
    ensures
        match r {
            Some(i) => i < hay@.len() && (hay@[i as int] == n1 || hay@[i as int] == n2) && forall|j: int|
                0 <= j < i ==> hay@[j] != n1 && hay@[j] != n2,
            None => forall|j: int| 0 <= j < hay@.len() ==> hay@[j] != n1 && hay@[j] != n2,
        },
{
    memchr::memchr2(n1, n2, hay)
}

/// JSON whitespace.
pub open spec fn is_ws(b: u8) -> bool {
    b == 32 || b == 9 || b == 10 || b == 13
}

/// `token` sits in `data` at `i`.
pub open spec fn occurs_at(data: Seq<u8>, i: int, token: Seq<u8>) -> bool {
    0 <= i && i + token.len() <= data.len() && data.subrange(i, i + token.len()) == token
}

/// The first position at or after `p` that is not JSON whitespace.
pub open spec fn ws_end(data: Seq<u8>, p: int) -> int
    decreases data.len() - p,
{
    if p < 0 || p >= data.len() || !is_ws(data[p]) {
        p
    } else {
        ws_end(data, p + 1)
    }
}

/// The position just after the first `b` at or after `p`, if there is one.
pub open spec fn after_byte(data: Seq<u8>, p: int, b: u8) -> Option<int>
    decreases data.len() - p,
{
    if p < 0 || p >= data.len() {
        None
    } else if data[p] == b {
        Some(p + 1)
    } else {
        after_byte(data, p + 1, b)
    }
}

/// The position just after the first occurrence of `token` at or after
/// `p`, if there is one.
pub open spec fn after_token(data: Seq<u8>, p: int, token: Seq<u8>) -> Option<int>
    decreases data.len() - p,
{
    if p < 0 || p >= data.len() || p + token.len() > data.len() {
        None
    } else if occurs_at(data, p, token) {
        Some(p + token.len())
    } else {
        after_token(data, p + 1, token)
    }
}

proof fn lemma_ws_end(data: Seq<u8>, p: int, r: int)
    requires
        0 <= p <= r <= data.len(),
        forall|j: int| p <= j < r ==> is_ws(data[j]),
        r < data.len() ==> !is_ws(data[r]),
    ensures
        ws_end(data, p) == r,
    decreases r - p,
{
    if p < r {
        lemma_ws_end(data, p + 1, r);
    }
}

proof fn lemma_after_byte(data: Seq<u8>, p: int, b: u8, q: int)
    requires
        0 <= p <= q <= data.len(),
        forall|j: int| p <= j < q ==> data[j] != b,
    ensures
        q < data.len() && data[q] == b ==> after_byte(data, p, b) == Some(q + 1),
        q == data.len() ==> after_byte(data, p, b) is None,
    decreases q - p,
{
    if p < q {
        lemma_after_byte(data, p + 1, b, q);
    }
}

proof fn lemma_after_token(data: Seq<u8>, p: int, token: Seq<u8>, q: int)
    requires
        0 <= p <= q,
        token.len() > 0,
        forall|i: int| p <= i < q ==> !occurs_at(data, i, token),
    ensures
        occurs_at(data, q, token) ==> after_token(data, p, token) == Some(q + token.len()),
        (forall|i: int| q <= i ==> !occurs_at(data, i, token)) ==> after_token(data, p, token) is None,
    decreases q - p,
{
    if p < q {
        if p + token.len() <= data.len() {
            lemma_after_token(data, p + 1, token, q);
        } else {
            if occurs_at(data, q, token) {
                assert(q + token.len() <= data.len());
            }
        }
    } else {
        lemma_after_token_none(data, p, token);
    }
}

proof fn lemma_after_token_none(data: Seq<u8>, p: int, token: Seq<u8>)
    requires
        0 <= p,
        token.len() > 0,
    ensures
        (forall|i: int| p <= i ==> !occurs_at(data, i, token)) ==> after_token(data, p, token) is None,
    decreases data.len() - p,
{
    if p + token.len() <= data.len() {
        lemma_after_token_none(data, p + 1, token);
    }
}

/// Where a balanced object or array that a scan has entered ends: the
/// scan reads byte by byte from `p` with `depth` brackets open, tracking
/// whether it is inside a string and just after a backslash there; the
/// object ends after the closing bracket that brings the depth down from
/// one (or less).
pub open spec fn balanced_end(data: Seq<u8>, p: int, depth: nat, in_string: bool, escape: bool) -> Option<int>
    decreases data.len() - p,
{
    if p < 0 || p >= data.len() {
        None
    } else {
        let b = data[p];
        if escape {
            balanced_end(data, p + 1, depth, in_string, false)
        } else if in_string {
            if b == 92 {
                balanced_end(data, p + 1, depth, true, true)
            } else if b == 34 {
                balanced_end(data, p + 1, depth, false, false)
            } else {
                balanced_end(data, p + 1, depth, true, false)
            }
        } else if b == 34 {
            balanced_end(data, p + 1, depth, true, false)
        } else if b == 123 || b == 91 {
            balanced_end(data, p + 1, depth + 1, false, false)
        } else if b == 125 || b == 93 {
            if depth <= 1 {
                Some(p + 1)
            } else {
                balanced_end(data, p + 1, (depth - 1) as nat, false, false)
            }
        } else {
            balanced_end(data, p + 1, depth, false, false)
        }
    }
}

/// The balanced JSON object or array that starts at the first
/// non-whitespace byte at or after `p`: its first position and the
/// position after it.
pub open spec fn balanced_span(data: Seq<u8>, p: int) -> Option<(int, int)> {
    let s = ws_end(data, p);
    if s >= data.len() || (data[s] != 123 && data[s] != 91) {
        None
    } else {
        match balanced_end(data, s, 0, false, false) {
            Some(e) => Some((s, e)),
            None => None,
        }
    }
}

/// The first position at or after `pos` that holds `b`, searched with
/// `memchr`.
pub fn first_byte_from(data: &[u8], pos: usize, b: u8) -> (r: Option<usize>)
    requires
        pos <= data@.len(),
    ensures
        match r {
            Some(i) => pos <= i < data@.len() && data@[i as int] == b && forall|j: int| pos <= j < i ==> data@[j] != b,
            None => forall|j: int| pos <= j < data@.len() ==> data@[j] != b,
        },
{
    let rest = vstd::slice::slice_subrange(data, pos, data.len());
    match memchr_first(b, rest) {
        Some(off) => {
            proof {
                assert forall|j: int| pos <= j < pos + off implies data@[j] != b by {
                    assert(rest@[j - pos] == data@[j]);
                }
                assert(rest@[off as int] == data@[pos + off]);
            }
            Some(pos + off)
        },
        None => {
            proof {
                assert forall|j: int| pos <= j < data@.len() implies data@[j] != b by {
                    assert(rest@[j - pos] == data@[j]);
                }
            }
            None
        },
    }
}

/// The first position at or after `pos` that holds `a` or `b`.
pub fn first_of_two_from(data: &[u8], pos: usize, a: u8, b: u8) -> (r: Option<usize>)
    requires
        pos <= data@.len(),
    ensures
        match r {
            Some(i) => pos <= i < data@.len() && (data@[i as int] == a || data@[i as int] == b) && forall|j: int|
                pos <= j < i ==> data@[j] != a && data@[j] != b,
            None => forall|j: int| pos <= j < data@.len() ==> data@[j] != a && data@[j] != b,
        },
{
    let rest = vstd::slice::slice_subrange(data, pos, data.len());
    match memchr2_first(a, b, rest) {
        Some(off) => {
            proof {
                assert forall|j: int| pos <= j < pos + off implies data@[j] != a && data@[j] != b by {
                    assert(rest@[j - pos] == data@[j]);
                }
                assert(rest@[off as int] == data@[pos + off]);
            }
            Some(pos + off)
        },
        None => {
            proof {
                assert forall|j: int| pos <= j < data@.len() implies data@[j] != a && data@[j] != b by {
                    assert(rest@[j - pos] == data@[j]);
                }
            }
            None
        },
    }
}

/// Moves past the byte `b`: the position after its first occurrence at or
/// after `pos`; fails when there is none.
pub fn find_byte(data: &[u8], pos: usize, b: u8) -> (r: Result<usize, SnapshotError>)
    requires
        pos <= data@.len(),
    ensures
        match r {
            Ok(p) => pos < p <= data@.len() && data@[p - 1] == b && forall|j: int| pos <= j < p - 1 ==> data@[j] != b,
            Err(_) => forall|j: int| pos <= j < data@.len() ==> data@[j] != b,
        },
        match r {
            Ok(p) => after_byte(data@, pos as int, b) == Some(p as int),
            Err(_) => after_byte(data@, pos as int, b) is None,
        },
{
    match first_byte_from(data, pos, b) {
        Some(i) => {
            assert(i < data.len());
            proof {
                lemma_after_byte(data@, pos as int, b, i as int);
            }
            Ok(i + 1)
        },
        None => {
            proof {
                lemma_after_byte(data@, pos as int, b, data@.len() as int);
            }
            Err(SnapshotError::Parse("expected byte not found".to_string()))
        },
    }
}

/// Whether `token` sits in `data` at `i`.
pub fn token_at(data: &[u8], i: usize, token: &[u8]) -> (r: bool)
    ensures
        r == occurs_at(data@, i as int, token@),
{
    if i > data.len() || token.len() > data.len() - i {
        return false;
    }
    let mut k: usize = 0;
    let dl = data.len();
    while k < token.len()
        invariant
            dl == data@.len(),
            i + token@.len() <= data@.len(),
            k <= token@.len(),
            forall|j: int| 0 <= j < k ==> data@[i + j] == token@[j],
        decreases token@.len() - k,
    {
        if data[i + k] != token[k] {
            assert(data@.subrange(i as int, i + token@.len())[k as int] != token@[k as int]);
            return false;
        }
        k += 1;
    }
    assert(data@.subrange(i as int, i + token@.len()) =~= token@);
    true
}

/// Moves past the first occurrence of `token` at or after `pos`; fails when
/// there is none.
pub fn find_token(data: &[u8], pos: usize, token: &[u8]) -> (r: Result<usize, SnapshotError>)
    requires
        pos <= data@.len(),
        token@.len() > 0,
    ensures
        match r {
            Ok(p) => p <= data@.len() && pos + token@.len() <= p && occurs_at(data@, p - token@.len(), token@)
                && forall|i: int| pos <= i < p - token@.len() ==> !occurs_at(data@, i, token@),
            Err(_) => forall|i: int| pos <= i ==> !occurs_at(data@, i, token@),
        },
        match r {
            Ok(p) => after_token(data@, pos as int, token@) == Some(p as int),
            Err(_) => after_token(data@, pos as int, token@) is None,
        },
{
    let mut p = pos;
    let dl = data.len();
    loop
        invariant
            dl == data@.len(),
            pos <= p <= data@.len(),
            token@.len() > 0,
            forall|i: int| pos <= i < p ==> !occurs_at(data@, i, token@),
        decreases data@.len() - p,
    {
        match first_byte_from(data, p, token[0]) {
            Some(idx) => {
                proof {
                    assert forall|i: int| p <= i < idx implies !occurs_at(data@, i, token@) by {
                        if occurs_at(data@, i, token@) {
                            assert(data@.subrange(i, i + token@.len())[0] == token@[0]);
                        }
                    }
                }
                if token_at(data, idx, token) {
                    assert(idx + token@.len() <= data@.len());
                    proof {
                        lemma_after_token(data@, pos as int, token@, idx as int);
                    }
                    return Ok(idx + token.len());
                }
                p = idx + 1;
            },
            None => {
                proof {
                    assert forall|i: int| pos <= i implies !occurs_at(data@, i, token@) by {
                        if occurs_at(data@, i, token@) && i >= p {
                            assert(data@.subrange(i, i + token@.len())[0] == token@[0]);
                            assert(data@[i] == token@[0]);
                        }
                    }
                    lemma_after_token(data@, pos as int, token@, pos as int);
                }
                return Err(SnapshotError::Parse("token not found".to_string()));
            },
        }
    }
}

/// The first position at or after `pos` that is not JSON whitespace.
pub fn skip_whitespace(data: &[u8], pos: usize) -> (r: usize)
    requires
        pos <= data@.len(),
    ensures
        pos <= r <= data@.len(),
        forall|j: int| pos <= j < r ==> is_ws(data@[j]),
        r < data@.len() ==> !is_ws(data@[r as int]),
        r == ws_end(data@, pos as int),
{
    let mut p = pos;
    while p < data.len() && (data[p] == 32u8 || data[p] == 9u8 || data[p] == 10u8 || data[p] == 13u8)
        invariant
            pos <= p <= data@.len(),
            forall|j: int| pos <= j < p ==> is_ws(data@[j]),
        decreases data@.len() - p,
    {
        p += 1;
    }
    proof {
        lemma_ws_end(data@, pos as int, p as int);
    }
    p
}

/// The balanced JSON object or array that starts at the first
/// non-whitespace byte at or after `pos`: its bounds. Brackets inside
/// strings, and escaped characters, do not count.
pub fn extract_balanced(data: &[u8], pos: usize) -> (r: Result<(usize, usize), SnapshotError>)
    requires
        pos <= data@.len(),
    ensures
        r matches Ok((start, end)) ==> pos <= start < end <= data@.len() && (data@[start as int] == 123
            || data@[start as int] == 91) && forall|j: int| pos <= j < start ==> is_ws(data@[j]),
        match r {
            Ok((start, end)) => balanced_span(data@, pos as int) == Some((start as int, end as int)),
            Err(_) => balanced_span(data@, pos as int) is None,
        },
{
    let p0 = skip_whitespace(data, pos);
    if p0 >= data.len() {
        return Err(SnapshotError::Parse("unexpected end of input before a balanced object".to_string()));
    }
    let start = p0;
    let opening = data[p0];
    if opening != 123u8 && opening != 91u8 {
        return Err(SnapshotError::Parse("expected '{' or '['".to_string()));
    }
    let mut p = p0;
    let mut balance: u64 = 0;
    let mut in_string = false;
    let mut escape = false;
    while p < data.len()
        invariant
            pos <= start <= p <= data@.len(),
            start < data@.len(),
            data@[start as int] == 123 || data@[start as int] == 91,
            forall|j: int| pos <= j < start ==> is_ws(data@[j]),
            balance <= p - start,
            p == start ==> balance == 0,
            p == start ==> !in_string && !escape,
            escape ==> in_string,
            ws_end(data@, pos as int) == start,
            balanced_end(data@, start as int, 0, false, false) == balanced_end(data@, p as int, balance as nat, in_string, escape),
        decreases data@.len() - p,
    {
        let b = data[p];
        p += 1;
        if escape {
            escape = false;
        } else if in_string {
            if b == 92u8 {
                escape = true;
            } else if b == 34u8 {
                in_string = false;
            }
        } else if b == 34u8 {
            in_string = true;
        } else if b == 123u8 || b == 91u8 {
            balance += 1;
        } else if b == 125u8 || b == 93u8 {
            if balance <= 1 {
                return Ok((start, p));
            }
            balance -= 1;
        }
    }
    Err(SnapshotError::Parse("unexpected end of input in a balanced object".to_string()))
}

/// ASCII digit.
pub open spec fn is_ascii_digit(b: u8) -> bool {
    48 <= b <= 57
}

/// The value of a digit run as `u32` arithmetic computes it: each step
/// multiplies by ten and adds the digit, wrapping on overflow.
pub open spec fn wrapped_decimal(s: Seq<u8>) -> u32
    decreases s.len(),
{
    if s.len() == 0 {
        0
    } else {
        (wrapped_decimal(s.drop_last()).wrapping_mul(10)).wrapping_add((s.last() - 48) as u32)
    }
}

/// The bytes from `pos` to `s` are not digits, those from `s` to `p` are,
/// the byte at `p` (if any) is not, and `v` is the run's value.
pub open spec fn uint_run(data: Seq<u8>, pos: int, s: int, p: int, v: u32) -> bool {
    &&& pos <= s < p <= data.len()
    &&& forall|j: int| pos <= j < s ==> !is_ascii_digit(#[trigger] data[j])
    &&& forall|j: int| s <= j < p ==> is_ascii_digit(#[trigger] data[j])
    &&& (p == data.len() || !is_ascii_digit(data[p]))
    &&& v == wrapped_decimal(data.subrange(s, p))
}

/// The first digit at or after `p`, or the end of the data.
pub open spec fn first_digit_from(data: Seq<u8>, p: int) -> int
    decreases data.len() - p,
{
    if p < 0 || p >= data.len() || is_ascii_digit(data[p]) {
        p
    } else {
        first_digit_from(data, p + 1)
    }
}

/// The end of the run of digits that starts at `p`.
pub open spec fn digit_run_end(data: Seq<u8>, p: int) -> int
    decreases data.len() - p,
{
    if p < 0 || p >= data.len() || !is_ascii_digit(data[p]) {
        p
    } else {
        digit_run_end(data, p + 1)
    }
}

/// The next unsigned number at or after `p` and the position after it:
/// bytes that are not digits are passed over, then a run of digits is
/// read; none when no digit is left.
pub open spec fn next_uint(data: Seq<u8>, p: int) -> Option<(u32, int)> {
    let s = first_digit_from(data, p);
    if s < 0 || s >= data.len() {
        None
    } else {
        let e = digit_run_end(data, s);
        Some((wrapped_decimal(data.subrange(s, e)), e))
    }
}

/// `prefix` followed by what `rest` holds, if it holds anything.
pub open spec fn prepend_uints(prefix: Seq<u32>, rest: Option<(Seq<u32>, int)>) -> Option<(Seq<u32>, int)> {
    match rest {
        Some((v, q)) => Some((prefix + v, q)),
        None => None,
    }
}

/// The next `count` unsigned numbers at or after `p` and the position
/// after the last; none when fewer are left.
pub open spec fn uints_from(data: Seq<u8>, p: int, count: nat) -> Option<(Seq<u32>, int)>
    decreases count,
{
    if count == 0 {
        Some((Seq::empty(), p))
    } else {
        match next_uint(data, p) {
            Some((v, q)) => prepend_uints(seq![v], uints_from(data, q, (count - 1) as nat)),
            None => None,
        }
    }
}

/// The unsigned numbers of a JSON array whose `[` has been read, up to its
/// `]`, and the position after the `]`: bytes that are neither digits nor
/// the `]` separate the numbers.
pub open spec fn uint_array_from(data: Seq<u8>, p: int) -> Option<(Seq<u32>, int)>
    decreases data.len() - p,
{
    if p < 0 || p >= data.len() {
        None
    } else if !is_ascii_digit(data[p]) {
        if data[p] == 93 {
            Some((Seq::empty(), p + 1))
        } else {
            uint_array_from(data, p + 1)
        }
    } else {
        let e = digit_run_end(data, p);
        if e <= p || e > data.len() {
            None
        } else {
            prepend_uints(seq![wrapped_decimal(data.subrange(p, e))], uint_array_from(data, e))
        }
    }
}

proof fn lemma_uint_run_spec(data: Seq<u8>, pos: int, s: int, p: int, v: u32)
    requires
        0 <= pos,
        uint_run(data, pos, s, p, v),
    ensures
        next_uint(data, pos) == Some((v, p)),
{
    lemma_first_digit(data, pos, s);
    lemma_digit_run_end(data, s, p);
}

pub proof fn lemma_first_digit(data: Seq<u8>, pos: int, s: int)
    requires
        0 <= pos <= s <= data.len(),
        forall|j: int| pos <= j < s ==> !is_ascii_digit(#[trigger] data[j]),
        s < data.len() ==> is_ascii_digit(data[s]),
    ensures
        first_digit_from(data, pos) == s,
    decreases s - pos,
{
    if pos < s {
        lemma_first_digit(data, pos + 1, s);
    }
}

pub proof fn lemma_digit_run_end(data: Seq<u8>, s: int, p: int)
    requires
        0 <= s <= p <= data.len(),
        forall|j: int| s <= j < p ==> is_ascii_digit(#[trigger] data[j]),
        p < data.len() ==> !is_ascii_digit(data[p]),
    ensures
        digit_run_end(data, s) == p,
    decreases p - s,
{
    if s < p {
        lemma_digit_run_end(data, s + 1, p);
    }
}

proof fn lemma_uints_step(data: Seq<u8>, p: int, count: nat, v: u32, q: int)
    requires
        count > 0,
        next_uint(data, p) == Some((v, q)),
    ensures
        uints_from(data, p, count) == prepend_uints(seq![v], uints_from(data, q, (count - 1) as nat)),
{
}

proof fn lemma_prepend_assoc(a: Seq<u32>, b: Seq<u32>, rest: Option<(Seq<u32>, int)>)
    ensures
        prepend_uints(a, prepend_uints(b, rest)) == prepend_uints(a + b, rest),
{
    match rest {
        Some((v, q)) => {
            assert(a + (b + v) =~= (a + b) + v);
        },
        None => {},
    }
}

/// The next unsigned number at or after `pos`: skips bytes that are not
/// digits, then reads the run of digits; `None` when no digit is left.
pub fn read_next_uint(data: &[u8], pos: usize) -> (r: Option<(u32, usize)>)
    requires
        pos <= data@.len(),
    ensures
        match r {
            Some(res) => pos < res.1 <= data@.len() && exists|s: int| #[trigger] uint_run(data@, pos as int, s, res.1 as int, res.0),
            None => forall|j: int| pos <= j < data@.len() ==> !is_ascii_digit(#[trigger] data@[j]),
        },
        match r {
            Some((v, p)) => next_uint(data@, pos as int) == Some((v, p as int)),
            None => next_uint(data@, pos as int) is None,
        },
{
    let mut p = pos;
    while p < data.len() && !(48u8 <= data[p] && data[p] <= 57u8)
        invariant
            pos <= p <= data@.len(),
            forall|j: int| pos <= j < p ==> !is_ascii_digit(#[trigger] data@[j]),
        decreases data@.len() - p,
    {
        p += 1;
    }
    if p >= data.len() {
        proof {
            lemma_first_digit(data@, pos as int, p as int);
        }
        return None;
    }
    let s = p;
    let mut num: u32 = 0;
    while p < data.len() && 48u8 <= data[p] && data[p] <= 57u8
        invariant
            pos <= s < data@.len(),
            s <= p <= data@.len(),
            is_ascii_digit(data@[s as int]),
            forall|j: int| pos <= j < s ==> !is_ascii_digit(#[trigger] data@[j]),
            forall|j: int| s <= j < p ==> is_ascii_digit(#[trigger] data@[j]),
            num == wrapped_decimal(data@.subrange(s as int, p as int)),
        decreases data@.len() - p,
    {
        let d = (data[p] - 48u8) as u32;
        proof {
            assert(data@.subrange(s as int, p + 1).drop_last() =~= data@.subrange(s as int, p as int));
        }
        num = num.wrapping_mul(10).wrapping_add(d);
        p += 1;
    }
    proof {
        let si = s as int;
        assert(uint_run(data@, pos as int, si, p as int, num));
    }
    let result = (num, p);
    proof {
        assert(uint_run(data@, pos as int, s as int, result.1 as int, result.0));
        lemma_uint_run_spec(data@, pos as int, s as int, p as int, num);
    }
    Some(result)
}

/// The next `count` unsigned numbers at or after `pos`, and the position
/// after the last; fails when fewer are left.
pub fn read_uints(data: &[u8], pos: usize, count: usize) -> (r: Result<(Vec<u32>, usize), SnapshotError>)
    requires
        pos <= data@.len(),
    ensures
        r matches Ok((v, p)) ==> v@.len() == count && pos <= p <= data@.len(),
        match r {
            Ok((v, p)) => uints_from(data@, pos as int, count as nat) == Some((v@, p as int)),
            Err(_) => uints_from(data@, pos as int, count as nat) is None,
        },
{
    let mut out: Vec<u32> = Vec::new();
    let mut p = pos;
    proof {
        assert(Seq::<u32>::empty() + Seq::<u32>::empty() =~= Seq::<u32>::empty());
        lemma_prepend_assoc(Seq::empty(), Seq::empty(), uints_from(data@, p as int, count as nat));
        match uints_from(data@, p as int, count as nat) {
            Some((v, q)) => {
                assert(Seq::<u32>::empty() + v =~= v);
            },
            None => {},
        }
    }
    while out.len() < count
        invariant
            pos <= p <= data@.len(),
            out@.len() <= count,
            uints_from(data@, pos as int, count as nat) == prepend_uints(out@, uints_from(data@, p as int, (count - out@.len()) as nat)),
        decreases count - out@.len(),
    {
        match read_next_uint(data, p) {
            Some((v, np)) => {
                proof {
                    lemma_uints_step(data@, p as int, (count - out@.len()) as nat, v, np as int);
                    lemma_prepend_assoc(out@, seq![v], uints_from(data@, np as int, (count - out@.len() - 1) as nat));
                }
                out.push(v);
                p = np;
            },
            None => {
                return Err(SnapshotError::Parse("unexpected end of input in a number array".to_string()));
            },
        }
    }
    proof {
        assert(out@ + Seq::<u32>::empty() =~= out@);
    }
    Ok((out, p))
}

/// The unsigned numbers of the JSON array whose `[` is the first at or
/// after `p`, and the position after its `]`.
pub open spec fn uint_array_at(data: Seq<u8>, p: int) -> Option<(Seq<u32>, int)> {
    match after_byte(data, p, 91) {
        Some(q) => uint_array_from(data, q),
        None => None,
    }
}

/// A JSON array of unsigned numbers, searched from `pos` for its `[`: the
/// numbers up to the closing `]`, and the position after it.
pub fn parse_uint_array(data: &[u8], pos: usize) -> (r: Result<(Vec<u32>, usize), SnapshotError>)
    requires
        pos <= data@.len(),
    ensures
        r matches Ok((v, p)) ==> pos < p <= data@.len(),
        match r {
            Ok((v, p)) => uint_array_at(data@, pos as int) == Some((v@, p as int)),
            Err(_) => uint_array_at(data@, pos as int) is None,
        },
{
    let mut p = find_byte(data, pos, 91u8)?;
    let mut out: Vec<u32> = Vec::new();
    proof {
        match uint_array_from(data@, p as int) {
            Some((v, q)) => {
                assert(Seq::<u32>::empty() + v =~= v);
            },
            None => {},
        }
    }
    loop
        invariant
            pos < p <= data@.len(),
            uint_array_at(data@, pos as int) == prepend_uints(out@, uint_array_from(data@, p as int)),
        decreases data@.len() - p,
    {
        let ghost p_start = p;
        while p < data.len() && !(48u8 <= data[p] && data[p] <= 57u8)
            invariant
                pos < p <= data@.len(),
                p_start <= p,
                uint_array_at(data@, pos as int) == prepend_uints(out@, uint_array_from(data@, p as int)),
            decreases data@.len() - p,
        {
            let b = data[p];
            p += 1;
            if b == 93u8 {
                proof {
                    assert(out@ + Seq::<u32>::empty() =~= out@);
                }
                return Ok((out, p));
            }
        }
        if p >= data.len() {
            return Err(SnapshotError::Parse("unexpected end of input in a number array".to_string()));
        }
        match read_next_uint(data, p) {
            Some((v, np)) => {
                proof {
                    lemma_first_digit(data@, p as int, p as int);
                    assert(next_uint(data@, p as int) == Some((v, np as int)));
                    lemma_prepend_assoc(out@, seq![v], uint_array_from(data@, np as int));
                }
                out.push(v);
                p = np;
            },
            None => {
                return Err(SnapshotError::Parse("unexpected end of input in a number array".to_string()));
            },
        }
    }
}

} // verus!
