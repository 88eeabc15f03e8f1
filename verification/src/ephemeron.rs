use vstd::prelude::*;
use vstd::string::StringSliceAdditionalSpecFns;
use crate::bytes::{starts_with, seq_starts_with};

verus! {

pub open spec fn is_digit(b: u8) -> bool {
    48 <= b <= 57
}

/// Length of the run of digits at the start of `s`.
pub open spec fn leading_digits(s: Seq<u8>) -> nat
    decreases s.len(),
{
    if s.len() > 0 && is_digit(s[0]) {
        1 + leading_digits(s.drop_first())
    } else {
        0
    }
}

/// Length of the run of digits at the end of `s`.
pub open spec fn trailing_digits(s: Seq<u8>) -> nat
    decreases s.len(),
{
    if s.len() > 0 && is_digit(s.last()) {
        1 + trailing_digits(s.drop_last())
    } else {
        0
    }
}

pub open spec fn part_of_key() -> Seq<u8> {
    seq![32u8, 47, 32, 112, 97, 114, 116, 32, 111, 102, 32, 107, 101, 121, 32, 40]
}

pub open spec fn value_sep() -> Seq<u8> {
    seq![41u8, 32, 45, 62, 32, 118, 97, 108, 117, 101, 32, 40]
}

pub open spec fn table_sep() -> Seq<u8> {
    seq![41u8, 32, 112, 97, 105, 114, 32, 105, 110, 32, 87, 101, 97, 107, 77, 97, 112, 32, 40, 116, 97, 98, 108, 101, 32, 64]
}

pub open spec fn at_sign_sep() -> Seq<u8> {
    seq![32u8, 64]
}

/// `x` ends with `" @"` and at least one digit.
pub open spec fn ends_with_at_digits(x: Seq<u8>) -> bool {
    let k = trailing_digits(x) as int;
    &&& k >= 1
    &&& k + 2 <= x.len()
    &&& x.subrange(x.len() - k - 2, x.len() - k) == at_sign_sep()
}

pub open spec fn no_newline(x: Seq<u8>) -> bool {
    forall|i: int| 0 <= i < x.len() ==> x[i] != 10
}

/// The part between `"part of key ("` and the table suffix:
/// `KEY @digits) -> value (VALUE @digits`, where KEY and VALUE hold no newline.
pub open spec fn key_value_part(m: Seq<u8>) -> bool {
    let k2 = trailing_digits(m) as int;
    let mp = m.subrange(0, m.len() - k2 - 2);
    &&& no_newline(m)
    &&& ends_with_at_digits(m)
    &&& exists|i: int|
        0 <= i && i + value_sep().len() <= mp.len() && #[trigger] mp.subrange(
            i,
            i + value_sep().len(),
        ) == value_sep() && ends_with_at_digits(mp.subrange(0, i))
}

/// The name of a WeakMap ephemeron edge:
/// `N / part of key (KEY @N) -> value (VALUE @N) pair in WeakMap (table @N)`.
/// The duplicated part starts after the leading digits; the table id is the
/// digit run before the final `)`.
pub open spec fn is_ephemeron_name(s: Seq<u8>) -> bool {
    let d = leading_digits(s) as int;
    let t = if s.len() > 0 { trailing_digits(s.drop_last()) as int } else { 0 };
    let mid_start = d + part_of_key().len();
    let mid_end = s.len() - 1 - t - table_sep().len();
    &&& d >= 1
    &&& seq_starts_with(s.subrange(d, s.len() as int), part_of_key())
    &&& s.len() > 0 && s.last() == 41u8
    &&& t >= 1
    &&& mid_start <= mid_end
    &&& s.subrange(mid_end, mid_end + table_sep().len()) == table_sep()
    &&& key_value_part(s.subrange(mid_start, mid_end))
}

} // verus!
verus! {

proof fn lemma_trailing_digits_char(x: Seq<u8>, k: int)
    requires
        0 <= k <= x.len(),
        forall|i: int| x.len() - k <= i < x.len() ==> is_digit(x[i]),
        k == x.len() || !is_digit(x[x.len() - k - 1]),
    ensures
        trailing_digits(x) == k,
    decreases k,
{
    if k > 0 {
        let y = x.drop_last();
        assert forall|i: int| y.len() - (k - 1) <= i < y.len() implies is_digit(y[i]) by {
            assert(y[i] == x[i]);
        }
        if k - 1 < y.len() {
            assert(y[y.len() - (k - 1) - 1] == x[x.len() - k - 1]);
        }
        lemma_trailing_digits_char(y, k - 1);
    } else {
        if x.len() > 0 {
            assert(!is_digit(x.last()));
        }
    }
}

proof fn lemma_leading_digits_char(x: Seq<u8>, k: int)
    requires
        0 <= k <= x.len(),
        forall|i: int| 0 <= i < k ==> is_digit(x[i]),
        k == x.len() || !is_digit(x[k]),
    ensures
        leading_digits(x) == k,
    decreases k,
{
    if k > 0 {
        let y = x.drop_first();
        assert forall|i: int| 0 <= i < k - 1 implies is_digit(y[i]) by {
            assert(y[i] == x[i + 1]);
        }
        if k - 1 < y.len() {
            assert(y[k - 1] == x[k]);
        }
        lemma_leading_digits_char(y, k - 1);
    }
}

/// Number of digits right before position `end` of `s`.
pub fn trailing_digit_count(s: &[u8], end: usize) -> (k: usize)
    requires
        end <= s@.len(),
    ensures
        k == trailing_digits(s@.subrange(0, end as int)),
        k <= end,
{
    let mut k: usize = 0;
    while k < end && 48u8 <= s[end - k - 1] && s[end - k - 1] <= 57u8
        invariant
            end <= s@.len(),
            k <= end,
            forall|i: int| end - k <= i < end ==> is_digit(s@[i]),
        decreases end - k,
    {
        k += 1;
    }
    proof {
        let x = s@.subrange(0, end as int);
        assert forall|i: int| x.len() - k <= i < x.len() implies is_digit(x[i]) by {
            assert(x[i] == s@[i]);
        }
        if k < end {
            assert(x[x.len() - k - 1] == s@[end - k - 1]);
        }
        lemma_trailing_digits_char(x, k as int);
    }
    k
}

/// Number of digits at the start of `s`.
pub fn leading_digit_count(s: &[u8]) -> (k: usize)
    ensures
        k == leading_digits(s@),
        k <= s@.len(),
{
    let mut k: usize = 0;
    while k < s.len() && 48u8 <= s[k] && s[k] <= 57u8
        invariant
            k <= s@.len(),
            forall|i: int| 0 <= i < k ==> is_digit(s@[i]),
        decreases s@.len() - k,
    {
        k += 1;
    }
    proof {
        lemma_leading_digits_char(s@, k as int);
    }
    k
}

/// `s[start..start + lit.len()]` equals `lit`.
fn slice_eq_at(s: &[u8], start: usize, lit: &[u8]) -> (r: bool)
    requires
        start <= s@.len(),
    ensures
        r == (start + lit@.len() <= s@.len() && s@.subrange(start as int, start + lit@.len())
            == lit@),
{
    let slen = s.len();
    if lit.len() > slen - start {
        return false;
    }
    let mut i: usize = 0;
    while i < lit.len()
        invariant
            slen == s@.len(),
            start + lit@.len() <= s@.len(),
            i <= lit@.len(),
            forall|j: int| 0 <= j < i ==> s@[start + j] == lit@[j],
        decreases lit@.len() - i,
    {
        if s[start + i] != lit[i] {
            assert(s@.subrange(start as int, start + lit@.len())[i as int] != lit@[i as int]);
            return false;
        }
        i += 1;
    }
    assert(s@.subrange(start as int, start + lit@.len()) =~= lit@);
    true
}

proof fn lemma_ascii_bytes(s: &str, b: Seq<u8>)
    requires
        vstd::string::is_ascii(s),
        s@.len() == b.len(),
        forall|i: int| 0 <= i < b.len() ==> s@[i] as u8 == b[i],
    ensures
        s.spec_bytes() == b,
{
    vstd::string::is_ascii_spec_bytes(s);
    assert(s.spec_bytes() =~= b);
}

fn part_of_key_bytes() -> (r: &'static [u8])
    ensures
        r@ == part_of_key(),
{
    let lit = " / part of key (";
    proof {
        reveal_strlit(" / part of key (");
        lemma_ascii_bytes(lit, part_of_key());
    }
    lit.as_bytes()
}

fn value_sep_bytes() -> (r: &'static [u8])
    ensures
        r@ == value_sep(),
{
    let lit = ") -> value (";
    proof {
        reveal_strlit(") -> value (");
        lemma_ascii_bytes(lit, value_sep());
    }
    lit.as_bytes()
}

fn table_sep_bytes() -> (r: &'static [u8])
    ensures
        r@ == table_sep(),
{
    let lit = ") pair in WeakMap (table @";
    proof {
        reveal_strlit(") pair in WeakMap (table @");
        lemma_ascii_bytes(lit, table_sep());
    }
    lit.as_bytes()
}

/// `s[..end]` ends with `" @"` and at least one digit.
fn ends_with_at_digits_exec(s: &[u8], end: usize) -> (r: bool)
    requires
        end <= s@.len(),
    ensures
        r == ends_with_at_digits(s@.subrange(0, end as int)),
{
    let k = trailing_digit_count(s, end);
    if k < 1 || end - k < 2 {
        return false;
    }
    let r = s[end - k - 2] == 32u8 && s[end - k - 1] == 64u8;
    proof {
        let x = s@.subrange(0, end as int);
        let y = x.subrange(x.len() - k - 2, x.len() - k);
        assert(y[0] == s@[end - k - 2]);
        assert(y[1] == s@[end - k - 1]);
        if r {
            assert(y =~= at_sign_sep());
        } else {
            assert(y != at_sign_sep());
        }
    }
    r
}

/// Whether `s[lo..hi]` is the key/value part of an ephemeron edge name.
fn key_value_part_exec(s: &[u8], lo: usize, hi: usize) -> (r: bool)
    requires
        lo <= hi <= s@.len(),
    ensures
        r == key_value_part(s@.subrange(lo as int, hi as int)),
{
    let ghost m = s@.subrange(lo as int, hi as int);
    let mut i: usize = lo;
    while i < hi
        invariant
            lo <= i <= hi <= s@.len(),
            m == s@.subrange(lo as int, hi as int),
            forall|j: int| lo <= j < i ==> s@[j] != 10,
        decreases hi - i,
    {
        if s[i] == 10u8 {
            assert(m[i - lo] == 10);
            return false;
        }
        i += 1;
    }
    assert(no_newline(m));
    let mslice = vstd::slice::slice_subrange(s, lo, hi);
    assert(mslice@ =~= m);
    let mlen = hi - lo;
    assert(mslice@.subrange(0, mlen as int) =~= m);
    if !ends_with_at_digits_exec(mslice, mlen) {
        return false;
    }
    let k2 = trailing_digit_count(mslice, mlen);
    let mp_len = mlen - k2 - 2;
    let ghost mp = m.subrange(0, mp_len as int);
    let sep = value_sep_bytes();
    if mp_len < 12 {
        assert forall|j: int|
            0 <= j && j + value_sep().len() <= mp.len() && #[trigger] mp.subrange(
                j,
                j + value_sep().len(),
            ) == value_sep() implies !ends_with_at_digits(mp.subrange(0, j)) by {}
        return false;
    }
    let mut j: usize = 0;
    while j <= mp_len - 12
        invariant
            12 <= mp_len <= mslice@.len(),
            mp == mslice@.subrange(0, mp_len as int),
            m == mslice@,
            m == s@.subrange(lo as int, hi as int),
            mp_len == m.len() - trailing_digits(m) - 2,
            mp == m.subrange(0, mp_len as int),
            no_newline(m),
            ends_with_at_digits(m),
            sep@ == value_sep(),
            j <= mp_len,
            forall|q: int|
                0 <= q < j && q + value_sep().len() <= mp.len() && #[trigger] mp.subrange(
                    q,
                    q + value_sep().len(),
                ) == value_sep() ==> !ends_with_at_digits(mp.subrange(0, q)),
        decreases mp_len - j,
    {
        if slice_eq_at(mslice, j, sep) {
            assert(mslice@.subrange(j as int, j + 12) =~= mp.subrange(j as int, j + 12));
            if ends_with_at_digits_exec(mslice, j) {
                assert(mslice@.subrange(0, j as int) =~= mp.subrange(0, j as int));
                assert(mp.subrange(j as int, j + value_sep().len()) == value_sep());
                assert(ends_with_at_digits(mp.subrange(0, j as int)));
                assert(key_value_part(m));
                return true;
            }
            assert(mslice@.subrange(0, j as int) =~= mp.subrange(0, j as int));
        } else {
            assert(mslice@.subrange(j as int, j + 12) =~= mp.subrange(j as int, j + 12));
        }
        j += 1;
    }
    false
}

/// Recognises a WeakMap ephemeron edge name; returns where its duplicated
/// part starts and the range of its table id digits.
pub fn ephemeron_match(s: &[u8]) -> (r: Option<(usize, usize, usize)>)
    ensures
        r is Some <==> is_ephemeron_name(s@),
        r matches Some((d, t0, t1)) ==> {
            &&& d == leading_digits(s@)
            &&& t1 == s@.len() - 1
            &&& t0 == t1 - trailing_digits(s@.drop_last())
            &&& d <= t0 < t1 < s@.len()
        },
{
    let d = leading_digit_count(s);
    if d == 0 {
        return None;
    }
    let pk = part_of_key_bytes();
    if !slice_eq_at(s, d, pk) {
        proof {
            if seq_starts_with(s@.subrange(d as int, s@.len() as int), part_of_key()) {
                assert(s@.subrange(d as int, d + 16) =~= s@.subrange(d as int, s@.len() as int).subrange(0, 16));
            }
        }
        return None;
    }
    assert(seq_starts_with(s@.subrange(d as int, s@.len() as int), part_of_key())) by {
        assert(s@.subrange(d as int, d + 16) =~= s@.subrange(d as int, s@.len() as int).subrange(0, 16));
    }
    let len = s.len();
    if s[len - 1] != 41u8 {
        return None;
    }
    let t = trailing_digit_count(s, len - 1);
    assert(s@.subrange(0, len - 1) =~= s@.drop_last());
    if t == 0 {
        return None;
    }
    let mid_start = d + 16;
    if len - 1 - t < 26 || len - 1 - t - 26 < mid_start {
        return None;
    }
    let mid_end = len - 1 - t - 26;
    let ts = table_sep_bytes();
    if !slice_eq_at(s, mid_end, ts) {
        return None;
    }
    if !key_value_part_exec(s, mid_start, mid_end) {
        return None;
    }
    Some((d, len - 1 - t, len - 1))
}

} // verus!
