//! Byte-level text helpers: ASCII whitespace, prefixes, substrings, lines.
use vstd::prelude::*;

verus! {

pub open spec fn is_space(b: u8) -> bool {
    b == 32 || (9 <= b && b <= 13)
}

pub open spec fn trim_start_bytes(s: Seq<u8>) -> Seq<u8>
    decreases s.len(),
{
    if s.len() > 0 && is_space(s[0]) {
        trim_start_bytes(s.drop_first())
    } else {
        s
    }
}

pub open spec fn trim_end_bytes(s: Seq<u8>) -> Seq<u8>
    decreases s.len(),
{
    if s.len() > 0 && is_space(s.last()) {
        trim_end_bytes(s.drop_last())
    } else {
        s
    }
}

/// `s` without leading and trailing ASCII whitespace.
pub open spec fn trim_bytes(s: Seq<u8>) -> Seq<u8> {
    trim_end_bytes(trim_start_bytes(s))
}

pub open spec fn has_prefix(s: Seq<u8>, p: Seq<u8>) -> bool {
    s.len() >= p.len() && s.subrange(0, p.len() as int) == p
}

pub open spec fn occurs_at(s: Seq<u8>, p: Seq<u8>, i: int) -> bool {
    0 <= i && i + p.len() <= s.len() && s.subrange(i, i + p.len()) == p
}

/// `p` occurs in `s` as a contiguous part.
pub open spec fn contains_bytes(s: Seq<u8>, p: Seq<u8>) -> bool {
    exists|i: int| occurs_at(s, p, i)
}

/// The lines of `t` from scan position `i`, the current line having begun
/// at `s`. Lines are separated by newline bytes; a final newline ends the
/// last line and opens none.
pub open spec fn lines_from(t: Seq<u8>, i: int, s: int) -> Seq<Seq<u8>>
    decreases t.len() - i,
{
    if i >= t.len() {
        if s < t.len() {
            seq![t.subrange(s, t.len() as int)]
        } else {
            seq![]
        }
    } else if t[i] == 10 {
        seq![t.subrange(s, i)] + lines_from(t, i + 1, i + 1)
    } else {
        lines_from(t, i + 1, s)
    }
}

pub open spec fn lines_of(t: Seq<u8>) -> Seq<Seq<u8>> {
    lines_from(t, 0, 0)
}

pub fn space_byte(b: u8) -> (r: bool)
    ensures
        r == is_space(b),
{
    b == 32 || (9 <= b && b <= 13)
}

/// The bytes of `s` from `a` up to `b`.
pub fn copy_range(s: &Vec<u8>, a: usize, b: usize) -> (r: Vec<u8>)
    requires
        a <= b <= s@.len(),
    ensures
        r@ == s@.subrange(a as int, b as int),
{
    let mut r: Vec<u8> = Vec::new();
    let mut k = a;
    while k < b
        invariant
            a <= k <= b,
            b <= s@.len(),
            r@ == s@.subrange(a as int, k as int),
        decreases b - k,
    {
        r.push(s[k]);
        k = k + 1;
        assert(r@ == s@.subrange(a as int, k as int));
    }
    r
}

/// Appends the bytes of `src` to `dst`.
pub fn push_all(dst: &mut Vec<u8>, src: &Vec<u8>)
    ensures
        final(dst)@ == old(dst)@ + src@,
{
    let mut k: usize = 0;
    while k < src.len()
        invariant
            k <= src@.len(),
            dst@ == old(dst)@ + src@.subrange(0, k as int),
        decreases src@.len() - k,
    {
        dst.push(src[k]);
        k = k + 1;
        assert(dst@ == old(dst)@ + src@.subrange(0, k as int));
    }
    assert(src@.subrange(0, src@.len() as int) == src@);
}

pub fn trim_line(l: &Vec<u8>) -> (r: Vec<u8>)
    ensures
        r@ == trim_bytes(l@),
{
    let n = l.len();
    let mut a: usize = 0;
    assert(l@.subrange(0, n as int) == l@);
    while a < n && space_byte(l[a])
        invariant
            a <= n,
            n == l@.len(),
            trim_start_bytes(l@) == trim_start_bytes(l@.subrange(a as int, n as int)),
        decreases n - a,
    {
        assert(l@.subrange(a as int, n as int).drop_first() == l@.subrange(a + 1, n as int));
        a = a + 1;
    }
    assert(trim_start_bytes(l@.subrange(a as int, n as int)) == l@.subrange(a as int, n as int));
    let mut b: usize = n;
    while b > a && space_byte(l[b - 1])
        invariant
            a <= b <= n,
            n == l@.len(),
            trim_bytes(l@) == trim_end_bytes(l@.subrange(a as int, b as int)),
        decreases b,
    {
        assert(l@.subrange(a as int, b as int).drop_last() == l@.subrange(a as int, b - 1));
        b = b - 1;
    }
    copy_range(l, a, b)
}

/// Whether `s` begins with `p`.
pub fn starts_with_bytes(s: &Vec<u8>, p: &Vec<u8>) -> (r: bool)
    ensures
        r == has_prefix(s@, p@),
{
    if s.len() < p.len() {
        return false;
    }
    let mut k: usize = 0;
    while k < p.len()
        invariant
            k <= p@.len() <= s@.len(),
            s@.subrange(0, k as int) == p@.subrange(0, k as int),
        decreases p@.len() - k,
    {
        if s[k] != p[k] {
            assert(s@.subrange(0, p@.len() as int)[k as int] != p@[k as int]);
            return false;
        }
        k = k + 1;
        assert(s@.subrange(0, k as int) == p@.subrange(0, k as int));
    }
    assert(p@.subrange(0, p@.len() as int) == p@);
    true
}

fn occurs_at_exec(s: &Vec<u8>, p: &Vec<u8>, i: usize) -> (r: bool)
    requires
        i + p@.len() <= s@.len(),
    ensures
        r == occurs_at(s@, p@, i as int),
{
    let n = s.len();
    let mut k: usize = 0;
    while k < p.len()
        invariant
            k <= p@.len(),
            i + p@.len() <= s@.len(),
            n == s@.len(),
            s@.subrange(i as int, i + k) == p@.subrange(0, k as int),
        decreases p@.len() - k,
    {
        if s[i + k] != p[k] {
            assert(s@.subrange(i as int, i + p@.len())[k as int] != p@[k as int]);
            return false;
        }
        k = k + 1;
        assert(s@.subrange(i as int, i + k) == p@.subrange(0, k as int));
    }
    assert(p@.subrange(0, p@.len() as int) == p@);
    true
}

/// Whether `p` occurs in `s`.
pub fn contains_exec(s: &Vec<u8>, p: &Vec<u8>) -> (r: bool)
    ensures
        r == contains_bytes(s@, p@),
{
    if p.len() > s.len() {
        return false;
    }
    if p.len() == 0 {
        assert(s@.subrange(0, 0) == p@);
        assert(occurs_at(s@, p@, 0));
        return true;
    }
    let last = s.len() - p.len();
    let mut i: usize = 0;
    while i <= last
        invariant
            i <= last + 1,
            last + p@.len() == s@.len(),
            p@.len() > 0,
            s@.len() <= usize::MAX,
            forall|j: int| 0 <= j < i ==> !occurs_at(s@, p@, j),
        decreases last + 1 - i,
    {
        if occurs_at_exec(s, p, i) {
            return true;
        }
        i = i + 1;
    }
    assert forall|j: int| !occurs_at(s@, p@, j) by {
        if 0 <= j && j + p@.len() <= s@.len() {
            assert(j < i);
        }
    }
    false
}

/// Splits `t` into lines at newline bytes.
pub fn split_lines(t: &Vec<u8>) -> (r: Vec<Vec<u8>>)
    ensures
        r@.len() == lines_of(t@).len(),
        forall|k: int| 0 <= k < r@.len() ==> (#[trigger] r@[k])@ == lines_of(t@)[k],
{
    let n = t.len();
    let mut r: Vec<Vec<u8>> = Vec::new();
    let mut s: usize = 0;
    let mut i: usize = 0;
    while i < n
        invariant
            s <= i <= n,
            n == t@.len(),
            r@.map_values(|v: Vec<u8>| v@) + lines_from(t@, i as int, s as int) == lines_of(t@),
        decreases n - i,
    {
        if t[i] == 10 {
            let line = copy_range(t, s, i);
            let ghost before = r@.map_values(|v: Vec<u8>| v@);
            r.push(line);
            assert(r@.map_values(|v: Vec<u8>| v@) == before.push(line@));
            assert(before.push(line@) + lines_from(t@, i + 1, i + 1)
                == before + (seq![line@] + lines_from(t@, i + 1, i + 1)));
            s = i + 1;
        }
        i = i + 1;
    }
    if s < n {
        let line = copy_range(t, s, n);
        let ghost before = r@.map_values(|v: Vec<u8>| v@);
        r.push(line);
        assert(r@.map_values(|v: Vec<u8>| v@) == before.push(line@));
    } else {
        assert(r@.map_values(|v: Vec<u8>| v@) + seq![] == r@.map_values(|v: Vec<u8>| v@));
    }
    assert forall|k: int| 0 <= k < r@.len() implies (#[trigger] r@[k])@ == lines_of(t@)[k] by {
        assert(r@.map_values(|v: Vec<u8>| v@)[k] == r@[k]@);
    }
    r
}

} // verus!
