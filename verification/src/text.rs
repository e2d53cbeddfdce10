//! Text on the level of bytes: words, the fields that commas part a line
//! into, and the white space around them.

use vstd::prelude::*;
use vstd::string::StringSliceAdditionalSpecFns;

verus! {

/// The bytes of a text of ASCII characters.
pub open spec fn ascii(s: Seq<char>) -> Seq<u8> {
    Seq::new(s.len(), |i: int| s[i] as u8)
}

/// Whether `s` is the ASCII text `word`.
pub fn equals_word(s: &[u8], word: &str) -> (r: bool)
    requires
        word.is_ascii(),
    ensures
        r == (s@ == ascii(word@)),
{
    broadcast use vstd::string::is_ascii_spec_bytes;

    let w = word.as_bytes();
    if s.len() != w.len() {
        return false;
    }
    let mut i: usize = 0;
    while i < s.len()
        invariant
            i <= s.len(),
            s.len() == w.len(),
            w@ == ascii(word@),
            forall|j: int| 0 <= j < i ==> s@[j] == w@[j],
        decreases s.len() - i,
    {
        if s[i] != w[i] {
            return false;
        }
        i += 1;
    }
    assert(s@ =~= w@);
    true
}

/// The index of the first `b` in `s`, or the length of `s` where it holds
/// none.
pub open spec fn first_index(s: Seq<u8>, b: u8) -> int
    decreases s.len(),
{
    if s.len() == 0 || s[0] == b {
        0
    } else {
        1 + first_index(s.drop_first(), b)
    }
}

/// [`first_index`] is within the text, no `b` stands before it, and one
/// stands at it unless it is the end.
pub proof fn lemma_first_index(s: Seq<u8>, b: u8)
    ensures
        0 <= first_index(s, b) <= s.len(),
        forall|i: int| 0 <= i < first_index(s, b) ==> s[i] != b,
        first_index(s, b) < s.len() ==> s[first_index(s, b)] == b,
    decreases s.len(),
{
    if !(s.len() == 0 || s[0] == b) {
        let rest = s.drop_first();
        lemma_first_index(rest, b);
        assert forall|i: int| 0 <= i < first_index(s, b) implies s[i] != b by {
            if i > 0 {
                assert(s[i] == rest[i - 1]);
            }
        }
    }
}

/// The index at or after `from` of the first `b` in `s`, or the length of
/// `s`.
pub fn find_byte(s: &[u8], from: usize, b: u8) -> (at: usize)
    requires
        from <= s.len(),
    ensures
        at == from + first_index(s@.skip(from as int), b),
        from <= at <= s.len(),
{
    let mut at: usize = from;
    while at < s.len() && s[at] != b
        invariant
            from <= at <= s.len(),
            first_index(s@.skip(from as int), b) == (at - from) + first_index(
                s@.skip(at as int),
                b,
            ),
        decreases s.len() - at,
    {
        assert(s@.skip(at as int).drop_first() =~= s@.skip(at + 1));
        at += 1;
    }
    at
}

/// The `k`-th of the fields that commas part `line` into, counted from 0:
/// `None` where the line has `k` commas or fewer.
pub open spec fn nth_field(line: Seq<u8>, k: nat) -> Option<Seq<u8>>
    decreases k,
{
    let end = first_index(line, ',' as u8);
    if k == 0 {
        Some(line.take(end))
    } else if end == line.len() {
        None
    } else {
        nth_field(line.skip(end + 1), (k - 1) as nat)
    }
}

/// Where the `k`-th field of `line` begins and ends, if the line has one.
pub fn field_range(line: &[u8], k: usize) -> (range: Option<(usize, usize)>)
    ensures
        match range {
            Some((lo, hi)) => lo <= hi <= line.len() && nth_field(line@, k as nat) == Some(
                line@.subrange(lo as int, hi as int),
            ),
            None => nth_field(line@, k as nat) is None,
        },
{
    let mut lo: usize = 0;
    let mut done: usize = 0;
    assert(line@.skip(0) =~= line@);
    while done < k
        invariant
            done <= k,
            lo <= line.len(),
            nth_field(line@, k as nat) == nth_field(line@.skip(lo as int), (k - done) as nat),
        decreases k - done,
    {
        let comma = find_byte(line, lo, ',' as u8);
        if comma == line.len() {
            return None;
        }
        assert(line@.skip(lo as int).skip(comma - lo + 1) =~= line@.skip(comma + 1));
        lo = comma + 1;
        done += 1;
    }
    let hi = find_byte(line, lo, ',' as u8);
    assert(line@.skip(lo as int).take(hi - lo) =~= line@.subrange(lo as int, hi as int));
    Some((lo, hi))
}

/// White space within a field: the space and the control characters from
/// tab to carriage return.
pub open spec fn is_space(b: u8) -> bool {
    b == 0x20 || (0x09 <= b && b <= 0x0d)
}

/// `s` without the white space it begins with.
pub open spec fn trim_start(s: Seq<u8>) -> Seq<u8>
    decreases s.len(),
{
    if s.len() > 0 && is_space(s[0]) {
        trim_start(s.drop_first())
    } else {
        s
    }
}

/// `s` without the white space it ends with.
pub open spec fn trim_end(s: Seq<u8>) -> Seq<u8>
    decreases s.len(),
{
    if s.len() > 0 && is_space(s.last()) {
        trim_end(s.drop_last())
    } else {
        s
    }
}

/// `s` without the white space at its two ends.
pub open spec fn trim(s: Seq<u8>) -> Seq<u8> {
    trim_end(trim_start(s))
}

/// Narrows the range `lo..hi` of `s` to what [`trim`] leaves of it.
pub fn trim_range(s: &[u8], lo: usize, hi: usize) -> (range: (usize, usize))
    requires
        lo <= hi <= s.len(),
    ensures
        lo <= range.0 <= range.1 <= hi,
        s@.subrange(range.0 as int, range.1 as int) == trim(s@.subrange(lo as int, hi as int)),
{
    let mut a: usize = lo;
    while a < hi && (s[a] == 0x20 || (0x09 <= s[a] && s[a] <= 0x0d))
        invariant
            lo <= a <= hi <= s.len(),
            trim_start(s@.subrange(lo as int, hi as int)) == trim_start(
                s@.subrange(a as int, hi as int),
            ),
        decreases hi - a,
    {
        assert(s@.subrange(a as int, hi as int).drop_first() =~= s@.subrange(a + 1, hi as int));
        a += 1;
    }
    let mut b: usize = hi;
    while a < b && (s[b - 1] == 0x20 || (0x09 <= s[b - 1] && s[b - 1] <= 0x0d))
        invariant
            a <= b <= hi <= s.len(),
            trim_end(s@.subrange(a as int, hi as int)) == trim_end(s@.subrange(a as int, b as int)),
        decreases b - a,
    {
        assert(s@.subrange(a as int, b as int).drop_last() =~= s@.subrange(a as int, b - 1));
        b -= 1;
    }
    (a, b)
}

} // verus!
