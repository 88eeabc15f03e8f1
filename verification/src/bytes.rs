use vstd::prelude::*;

verus! {

/// `s` starts with `prefix`.
pub open spec fn seq_starts_with(s: Seq<u8>, prefix: Seq<u8>) -> bool {
    prefix.len() <= s.len() && s.subrange(0, prefix.len() as int) =~= prefix
}

/// Byte-wise equality of two byte strings.
pub fn bytes_eq(a: &[u8], b: &[u8]) -> (r: bool)
    ensures
        r == (a@ == b@),
{
    if a.len() != b.len() {
        return false;
    }
    let mut i: usize = 0;
    while i < a.len()
        invariant
            a@.len() == b@.len(),
            i <= a@.len(),
            forall|j: int| 0 <= j < i ==> a@[j] == b@[j],
        decreases a@.len() - i,
    {
        if a[i] != b[i] {
            return false;
        }
        i += 1;
    }
    assert(a@ =~= b@);
    true
}

/// `s` starts with `prefix`.
pub fn starts_with(s: &[u8], prefix: &[u8]) -> (r: bool)
    ensures
        r == seq_starts_with(s@, prefix@),
{
    if prefix.len() > s.len() {
        return false;
    }
    let mut i: usize = 0;
    while i < prefix.len()
        invariant
            prefix@.len() <= s@.len(),
            i <= prefix@.len(),
            forall|j: int| 0 <= j < i ==> s@[j] == prefix@[j],
        decreases prefix@.len() - i,
    {
        if s[i] != prefix[i] {
            assert(s@.subrange(0, prefix@.len() as int)[i as int] != prefix@[i as int]);
            return false;
        }
        i += 1;
    }
    assert(s@.subrange(0, prefix@.len() as int) =~= prefix@);
    true
}


/// `pat` occurs in `s` at `i`.
pub open spec fn occurs_in(s: Seq<u8>, i: int, pat: Seq<u8>) -> bool {
    0 <= i && i + pat.len() <= s.len() && s.subrange(i, i + pat.len()) == pat
}

/// The first position at or after `from` where `pat` occurs in `s`.
pub fn find_from(s: &[u8], pat: &[u8], from: usize) -> (r: Option<usize>)
    requires
        from <= s@.len(),
    ensures
        match r {
            Some(i) => from <= i && occurs_in(s@, i as int, pat@) && forall|j: int| from <= j < i ==> !occurs_in(s@, j, pat@),
            None => forall|j: int| from <= j ==> !occurs_in(s@, j, pat@),
        },
{
    if pat.len() > s.len() {
        return None;
    }
    if pat.len() == 0 {
        assert(s@.subrange(from as int, from as int) =~= pat@);
        return Some(from);
    }
    let sl = s.len();
    let last = s.len() - pat.len();
    let mut i = from;
    while i <= last
        invariant
            sl == s@.len(),
            pat@.len() > 0,
            from <= i,
            last == s@.len() - pat@.len(),
            pat@.len() <= s@.len(),
            forall|j: int| from <= j < i ==> !occurs_in(s@, j, pat@),
        decreases last + 1 - i,
    {
        let mut k: usize = 0;
        let mut matched = true;
        while k < pat.len() && matched
            invariant
                sl == s@.len(),
                i <= last,
                last == s@.len() - pat@.len(),
                k <= pat@.len(),
                matched ==> forall|t: int| 0 <= t < k ==> s@[i + t] == pat@[t],
                !matched ==> !occurs_in(s@, i as int, pat@),
            decreases pat@.len() - k, if matched { 1int } else { 0int },
        {
            if s[i + k] != pat[k] {
                assert(s@.subrange(i as int, i + pat@.len())[k as int] != pat@[k as int]);
                matched = false;
            } else {
                k += 1;
            }
        }
        if matched {
            assert(s@.subrange(i as int, i + pat@.len()) =~= pat@);
            return Some(i);
        }
        i += 1;
    }
    None
}

/// `a` sorts before `b` in byte-wise lexicographic order.
pub open spec fn seq_lt(a: Seq<u8>, b: Seq<u8>) -> bool
    decreases a.len(),
{
    if b.len() == 0 {
        false
    } else if a.len() == 0 {
        true
    } else if a[0] != b[0] {
        a[0] < b[0]
    } else {
        seq_lt(a.subrange(1, a.len() as int), b.subrange(1, b.len() as int))
    }
}

/// Byte-wise lexicographic `a < b`, as `str` and `String` compare.
pub fn bytes_lt(a: &[u8], b: &[u8]) -> (r: bool)
    ensures
        r == seq_lt(a@, b@),
{
    let mut i: usize = 0;
    proof {
        assert(a@.subrange(0, a@.len() as int) =~= a@);
        assert(b@.subrange(0, b@.len() as int) =~= b@);
    }
    while i < a.len() && i < b.len() && a[i] == b[i]
        invariant
            i <= a@.len(),
            i <= b@.len(),
            forall|j: int| 0 <= j < i ==> a@[j] == b@[j],
            seq_lt(a@, b@) == seq_lt(a@.subrange(i as int, a@.len() as int), b@.subrange(i as int, b@.len() as int)),
        decreases a@.len() - i,
    {
        proof {
            let sa = a@.subrange(i as int, a@.len() as int);
            let sb = b@.subrange(i as int, b@.len() as int);
            assert(sa.subrange(1, sa.len() as int) =~= a@.subrange(i + 1, a@.len() as int));
            assert(sb.subrange(1, sb.len() as int) =~= b@.subrange(i + 1, b@.len() as int));
        }
        i += 1;
    }
    if i >= b.len() {
        false
    } else if i >= a.len() {
        true
    } else {
        a[i] < b[i]
    }
}

/// `a` followed by `b`.
pub fn concat(a: &[u8], b: &[u8]) -> (r: Vec<u8>)
    ensures
        r@ == a@ + b@,
{
    let mut out: Vec<u8> = Vec::new();
    let mut i: usize = 0;
    while i < a.len()
        invariant
            i <= a@.len(),
            out@ == a@.subrange(0, i as int),
        decreases a@.len() - i,
    {
        out.push(a[i]);
        i += 1;
        proof {
            assert(out@ =~= a@.subrange(0, i as int));
        }
    }
    let mut j: usize = 0;
    while j < b.len()
        invariant
            i == a@.len(),
            j <= b@.len(),
            out@ == a@ + b@.subrange(0, j as int),
        decreases b@.len() - j,
    {
        out.push(b[j]);
        j += 1;
        proof {
            assert(out@ =~= a@ + b@.subrange(0, j as int));
        }
    }
    proof {
        assert(b@.subrange(0, b@.len() as int) =~= b@);
    }
    out
}

} // verus!
