//! Character-level text helpers with exact specifications.
//!
//! Strings are modelled by their view, a `Seq<char>`. Every helper here states
//! its result over that view, so callers can reason about the text they build.

use vstd::prelude::*;

verus! {

// ----------------------------------------------------------------------------
// Specifications
// ----------------------------------------------------------------------------

/// Unicode `White_Space` characters, the set that `char::is_whitespace` tests.
pub open spec fn is_ws(c: char) -> bool {
    let u = c as u32;
    ||| 0x09 <= u <= 0x0d
    ||| u == 0x20
    ||| u == 0x85
    ||| u == 0xa0
    ||| u == 0x1680
    ||| 0x2000 <= u <= 0x200a
    ||| u == 0x2028
    ||| u == 0x2029
    ||| u == 0x202f
    ||| u == 0x205f
    ||| u == 0x3000
}

/// `s` without its leading whitespace.
pub open spec fn trim_start_ws(s: Seq<char>) -> Seq<char>
    decreases s.len(),
{
    if s.len() > 0 && is_ws(s[0]) {
        trim_start_ws(s.drop_first())
    } else {
        s
    }
}

/// `s` without its trailing whitespace.
pub open spec fn trim_end_ws(s: Seq<char>) -> Seq<char>
    decreases s.len(),
{
    if s.len() > 0 && is_ws(s.last()) {
        trim_end_ws(s.drop_last())
    } else {
        s
    }
}

/// `s` without leading and trailing whitespace (what `str::trim` returns).
pub open spec fn trim_ws(s: Seq<char>) -> Seq<char> {
    trim_end_ws(trim_start_ws(s))
}

/// `s` without any trailing copies of `c` (what `str::trim_end_matches(c)` returns).
pub open spec fn trim_end_char(s: Seq<char>, c: char) -> Seq<char>
    decreases s.len(),
{
    if s.len() > 0 && s.last() == c {
        trim_end_char(s.drop_last(), c)
    } else {
        s
    }
}

/// Whether `s` ends with `suffix`.
pub open spec fn ends_with(s: Seq<char>, suffix: Seq<char>) -> bool {
    suffix.len() <= s.len() && s.subrange(s.len() - suffix.len(), s.len() as int) == suffix
}

/// Whether `needle` occurs in `s` at position `i`.
pub open spec fn occurs_at(s: Seq<char>, needle: Seq<char>, i: int) -> bool {
    0 <= i && i + needle.len() <= s.len() && s.subrange(i, i + needle.len()) == needle
}

/// Whether `needle` occurs somewhere in `s` (what `str::contains` tests).
pub open spec fn contains_seq(s: Seq<char>, needle: Seq<char>) -> bool {
    exists|i: int| occurs_at(s, needle, i)
}

/// The decimal digit character for `d < 10`.
pub open spec fn digit_char(d: nat) -> char {
    if d == 0 {
        '0'
    } else if d == 1 {
        '1'
    } else if d == 2 {
        '2'
    } else if d == 3 {
        '3'
    } else if d == 4 {
        '4'
    } else if d == 5 {
        '5'
    } else if d == 6 {
        '6'
    } else if d == 7 {
        '7'
    } else if d == 8 {
        '8'
    } else {
        '9'
    }
}

/// The decimal representation of `n`, without leading zeros.
pub open spec fn decimal(n: nat) -> Seq<char>
    decreases n,
{
    if n < 10 {
        seq![digit_char(n)]
    } else {
        decimal(n / 10).push(digit_char(n % 10))
    }
}

/// Index of the first `'\n'` in `s`, or `s.len()` when there is none.
pub open spec fn newline_index(s: Seq<char>) -> nat
    decreases s.len(),
{
    if s.len() == 0 {
        0
    } else if s[0] == '\n' {
        0
    } else {
        1 + newline_index(s.drop_first())
    }
}

/// A line without its `'\r'` terminator, if it has one.
pub open spec fn strip_cr(line: Seq<char>) -> Seq<char> {
    if line.len() > 0 && line.last() == '\r' {
        line.drop_last()
    } else {
        line
    }
}

/// The lines of `s`, as `str::lines` yields them: split at `'\n'`, a `'\r'`
/// before the `'\n'` removed, and no empty line after a final line ending.
pub open spec fn lines(s: Seq<char>) -> Seq<Seq<char>>
    decreases s.len(),
{
    if s.len() == 0 {
        seq![]
    } else {
        let k = newline_index(s);
        if k >= s.len() {
            seq![s]
        } else {
            seq![strip_cr(s.take(k as int))] + lines(s.skip((k + 1) as int))
        }
    }
}

// ----------------------------------------------------------------------------
// Trusted primitive
// ----------------------------------------------------------------------------

/// Appends one character to a string.
///
/// Trusted: calls `String::push`, which the standard library documents as
/// appending the given `char` to the end of the string.
#[verifier::external_body]
pub(crate) fn push_char(s: &mut String, c: char)
    ensures
        final(s)@ == old(s)@.push(c),
{
    s.push(c);
}

// ----------------------------------------------------------------------------
// Building strings
// ----------------------------------------------------------------------------

/// The characters of a string slice, in order.
pub fn chars_of(s: &str) -> (v: Vec<char>)
    ensures
        v@ == s@,
{
    let mut v: Vec<char> = Vec::new();
    for c in it: s.chars()
        invariant
            v@ == it.seq().take(it.index() as int),
            it.seq() == s@,
    {
        v.push(c);
    }
    v
}

/// Appends the characters `v[lo..hi]` to `s`.
pub fn push_range(s: &mut String, v: &Vec<char>, lo: usize, hi: usize)
    requires
        lo <= hi <= v.len(),
    ensures
        final(s)@ == old(s)@ + v@.subrange(lo as int, hi as int),
{
    let mut i = lo;
    while i < hi
        invariant
            lo <= i <= hi <= v.len(),
            s@ == old(s)@ + v@.subrange(lo as int, i as int),
        decreases hi - i,
    {
        push_char(s, v[i]);
        proof {
            assert(v@.subrange(lo as int, i + 1) == v@.subrange(lo as int, i as int).push(v@[i as int]));
        }
        i = i + 1;
    }
}

/// The string made of `v[lo..hi]`.
pub fn string_of_range(v: &Vec<char>, lo: usize, hi: usize) -> (s: String)
    requires
        lo <= hi <= v.len(),
    ensures
        s@ == v@.subrange(lo as int, hi as int),
{
    let mut s = String::new();
    push_range(&mut s, v, lo, hi);
    s
}

/// Appends the characters of `t` to `s`.
pub fn push_str(s: &mut String, t: &str)
    ensures
        final(s)@ == old(s)@ + t@,
{
    let v = chars_of(t);
    push_range(s, &v, 0, v.len());
    proof {
        assert(v@.subrange(0, v@.len() as int) == v@);
    }
}

/// The decimal digit character for `d < 10`.
pub fn digit(d: u64) -> (c: char)
    requires
        d < 10,
    ensures
        c == digit_char(d as nat),
{
    if d == 0 {
        '0'
    } else if d == 1 {
        '1'
    } else if d == 2 {
        '2'
    } else if d == 3 {
        '3'
    } else if d == 4 {
        '4'
    } else if d == 5 {
        '5'
    } else if d == 6 {
        '6'
    } else if d == 7 {
        '7'
    } else if d == 8 {
        '8'
    } else {
        '9'
    }
}

/// Appends the decimal representation of `n` to `s`.
pub fn push_decimal(s: &mut String, n: u64)
    ensures
        final(s)@ == old(s)@ + decimal(n as nat),
    decreases n,
{
    if n >= 10 {
        push_decimal(s, n / 10);
    }
    push_char(s, digit(n % 10));
}

// ----------------------------------------------------------------------------
// Inspecting characters
// ----------------------------------------------------------------------------

/// Whether `c` is Unicode whitespace.
pub fn is_whitespace(c: char) -> (b: bool)
    ensures
        b == is_ws(c),
{
    let u = c as u32;
    (0x09 <= u && u <= 0x0d) || u == 0x20 || u == 0x85 || u == 0xa0 || u == 0x1680 || (0x2000
        <= u && u <= 0x200a) || u == 0x2028 || u == 0x2029 || u == 0x202f || u == 0x205f || u
        == 0x3000
}

// ----------------------------------------------------------------------------
// Trimming and matching on character vectors
// ----------------------------------------------------------------------------

/// Skips leading whitespace of `v[lo..hi]`.
pub fn skip_ws_start(v: &Vec<char>, lo: usize, hi: usize) -> (r: usize)
    requires
        lo <= hi <= v.len(),
    ensures
        lo <= r <= hi,
        v@.subrange(r as int, hi as int) == trim_start_ws(v@.subrange(lo as int, hi as int)),
{
    let mut i = lo;
    while i < hi && is_whitespace(v[i])
        invariant
            lo <= i <= hi <= v.len(),
            trim_start_ws(v@.subrange(i as int, hi as int)) == trim_start_ws(v@.subrange(lo as int, hi as int)),
        decreases hi - i,
    {
        proof {
            assert(v@.subrange(i as int, hi as int).drop_first() == v@.subrange(i + 1, hi as int));
        }
        i = i + 1;
    }
    i
}

/// Drops trailing whitespace of `v[lo..hi]`.
pub fn skip_ws_end(v: &Vec<char>, lo: usize, hi: usize) -> (r: usize)
    requires
        lo <= hi <= v.len(),
    ensures
        lo <= r <= hi,
        v@.subrange(lo as int, r as int) == trim_end_ws(v@.subrange(lo as int, hi as int)),
{
    let mut j = hi;
    while j > lo && is_whitespace(v[j - 1])
        invariant
            lo <= j <= hi <= v.len(),
            trim_end_ws(v@.subrange(lo as int, j as int)) == trim_end_ws(v@.subrange(lo as int, hi as int)),
        decreases j - lo,
    {
        proof {
            assert(v@.subrange(lo as int, j as int).drop_last() == v@.subrange(lo as int, j - 1));
        }
        j = j - 1;
    }
    j
}

/// Drops trailing copies of `c` from `v[lo..hi]`.
pub fn skip_char_end(v: &Vec<char>, lo: usize, hi: usize, c: char) -> (r: usize)
    requires
        lo <= hi <= v.len(),
    ensures
        lo <= r <= hi,
        v@.subrange(lo as int, r as int) == trim_end_char(v@.subrange(lo as int, hi as int), c),
{
    let mut j = hi;
    while j > lo && v[j - 1] == c
        invariant
            lo <= j <= hi <= v.len(),
            trim_end_char(v@.subrange(lo as int, j as int), c) == trim_end_char(v@.subrange(lo as int, hi as int), c),
        decreases j - lo,
    {
        proof {
            assert(v@.subrange(lo as int, j as int).drop_last() == v@.subrange(lo as int, j - 1));
        }
        j = j - 1;
    }
    j
}

/// The bounds of `v` without surrounding whitespace.
pub fn trim_bounds(v: &Vec<char>) -> (r: (usize, usize))
    ensures
        r.0 <= r.1 <= v.len(),
        v@.subrange(r.0 as int, r.1 as int) == trim_ws(v@),
{
    let lo = skip_ws_start(v, 0, v.len());
    let hi = skip_ws_end(v, lo, v.len());
    proof {
        assert(v@.subrange(0, v@.len() as int) == v@);
    }
    (lo, hi)
}

/// Whether `v[lo..hi]` ends with `suffix`.
pub fn range_ends_with(v: &Vec<char>, lo: usize, hi: usize, suffix: &Vec<char>) -> (b: bool)
    requires
        lo <= hi <= v.len(),
    ensures
        b == ends_with(v@.subrange(lo as int, hi as int), suffix@),
{
    let n = suffix.len();
    if n > hi - lo {
        return false;
    }
    let start = hi - n;
    let mut k: usize = 0;
    while k < n
        invariant
            lo <= start,
            start + n == hi <= v.len(),
            n == suffix@.len(),
            k <= n,
            forall|q: int| 0 <= q < k ==> v@[start + q] == suffix@[q],
        decreases n - k,
    {
        if v[start + k] != suffix[k] {
            proof {
                let s = v@.subrange(lo as int, hi as int);
                assert(s.subrange(s.len() - n, s.len() as int)[k as int] == v@[start + k]);
            }
            return false;
        }
        k = k + 1;
    }
    proof {
        let s = v@.subrange(lo as int, hi as int);
        assert(s.subrange(s.len() - n, s.len() as int) =~= suffix@);
    }
    true
}

/// Whether `needle` occurs in `v` at position `i`.
pub fn occurs_at_pos(v: &Vec<char>, needle: &Vec<char>, i: usize) -> (b: bool)
    ensures
        b == occurs_at(v@, needle@, i as int),
{
    let n = needle.len();
    if i > v.len() || n > v.len() - i {
        return false;
    }
    let mut k: usize = 0;
    while k < n
        invariant
            i + n <= v.len(),
            n == needle@.len(),
            k <= n,
            forall|q: int| 0 <= q < k ==> v@[i + q] == needle@[q],
        decreases n - k,
    {
        if v[i + k] != needle[k] {
            proof {
                assert(v@.subrange(i as int, i + n)[k as int] == v@[i + k]);
            }
            return false;
        }
        k = k + 1;
    }
    proof {
        assert(v@.subrange(i as int, i + n) =~= needle@);
    }
    true
}

/// Whether `needle` occurs in `v`.
pub fn contains_chars(v: &Vec<char>, needle: &Vec<char>) -> (b: bool)
    ensures
        b == contains_seq(v@, needle@),
{
    if needle.len() == 0 {
        proof {
            assert(v@.subrange(0, 0) =~= needle@);
            assert(occurs_at(v@, needle@, 0));
        }
        return true;
    }
    let mut i: usize = 0;
    while i < v.len()
        invariant
            i <= v.len(),
            needle@.len() > 0,
            forall|j: int| 0 <= j < i ==> !occurs_at(v@, needle@, j),
        decreases v.len() - i,
    {
        if occurs_at_pos(v, needle, i) {
            return true;
        }
        i = i + 1;
    }
    false
}

/// Whether `s` contains `needle`.
pub fn str_contains(s: &str, needle: &str) -> (b: bool)
    ensures
        b == contains_seq(s@, needle@),
{
    let v = chars_of(s);
    let w = chars_of(needle);
    contains_chars(&v, &w)
}

/// Whether two strings are equal.
pub fn str_eq(a: &str, b: &str) -> (r: bool)
    ensures
        r == (a@ == b@),
{
    let v = chars_of(a);
    let w = chars_of(b);
    if v.len() != w.len() {
        return false;
    }
    let mut k: usize = 0;
    while k < v.len()
        invariant
            v@ == a@,
            w@ == b@,
            v.len() == w.len(),
            k <= v.len(),
            forall|q: int| 0 <= q < k ==> v@[q] == w@[q],
        decreases v.len() - k,
    {
        if v[k] != w[k] {
            proof {
                assert(a@[k as int] != b@[k as int]);
            }
            return false;
        }
        k = k + 1;
    }
    proof {
        assert(v@ =~= w@);
    }
    true
}

/// Whether `s` holds nothing but whitespace.
pub fn is_blank(s: &str) -> (b: bool)
    ensures
        b == (trim_ws(s@).len() == 0),
{
    let v = chars_of(s);
    let (lo, hi) = trim_bounds(&v);
    lo == hi
}

/// The number of characters of `s`.
pub fn char_count(s: &str) -> (n: usize)
    ensures
        n == s@.len(),
{
    chars_of(s).len()
}

// ----------------------------------------------------------------------------
// Lines
// ----------------------------------------------------------------------------

/// The text of each line of a list.
pub open spec fn texts(ls: Seq<Vec<char>>) -> Seq<Seq<char>> {
    ls.map_values(|l: Vec<char>| l@)
}

proof fn lemma_lines_step(s: Seq<char>, k: int)
    requires
        0 <= k < s.len(),
        s[k] == '\n',
        forall|q: int| 0 <= q < k ==> s[q] != '\n',
    ensures
        newline_index(s) == k,
        lines(s) == seq![strip_cr(s.take(k))] + lines(s.skip(k + 1)),
    decreases k,
{
    if k > 0 {
        lemma_lines_step_index(s.drop_first(), k - 1);
    }
}

proof fn lemma_lines_step_index(s: Seq<char>, k: int)
    requires
        0 <= k < s.len(),
        s[k] == '\n',
        forall|q: int| 0 <= q < k ==> s[q] != '\n',
    ensures
        newline_index(s) == k,
    decreases k,
{
    if k > 0 {
        assert forall|q: int| 0 <= q < k - 1 implies s.drop_first()[q] != '\n' by {
            assert(s.drop_first()[q] == s[q + 1]);
        }
        lemma_lines_step_index(s.drop_first(), k - 1);
    }
}

proof fn lemma_no_newline(s: Seq<char>)
    requires
        forall|q: int| 0 <= q < s.len() ==> s[q] != '\n',
    ensures
        newline_index(s) == s.len(),
    decreases s.len(),
{
    if s.len() > 0 {
        assert forall|q: int| 0 <= q < s.len() - 1 implies s.drop_first()[q] != '\n' by {
            assert(s.drop_first()[q] == s[q + 1]);
        }
        lemma_no_newline(s.drop_first());
    }
}

/// The lines of `v`, as `str::lines` yields them.
pub fn lines_of(v: &Vec<char>) -> (out: Vec<Vec<char>>)
    ensures
        texts(out@) == lines(v@),
{
    let mut out: Vec<Vec<char>> = Vec::new();
    let mut start: usize = 0;
    proof {
        assert(v@.skip(0) == v@);
    }
    while start < v.len()
        invariant
            start <= v@.len(),
            texts(out@) + lines(v@.skip(start as int)) == lines(v@),
        decreases v@.len() - start,
    {
        let ghost rest = v@.skip(start as int);
        let mut i = start;
        while i < v.len() && v[i] != '\n'
            invariant
                start <= i <= v@.len(),
                rest == v@.skip(start as int),
                forall|q: int| 0 <= q < i - start ==> rest[q] != '\n',
            decreases v@.len() - i,
        {
            i = i + 1;
        }
        let ghost old_out = out@;
        if i < v.len() {
            let end = if i > start && v[i - 1] == '\r' {
                i - 1
            } else {
                i
            };
            let mut line: Vec<char> = Vec::new();
            let mut q = start;
            while q < end
                invariant
                    start <= q <= end <= v@.len(),
                    line@ == v@.subrange(start as int, q as int),
                decreases end - q,
            {
                line.push(v[q]);
                proof {
                    assert(v@.subrange(start as int, q + 1) == v@.subrange(start as int, q as int).push(v@[q as int]));
                }
                q = q + 1;
            }
            out.push(line);
            proof {
                let k = (i - start) as int;
                assert(rest[k] == '\n');
                lemma_lines_step(rest, k);
                assert(rest.take(k) == v@.subrange(start as int, i as int));
                assert(strip_cr(rest.take(k)) == v@.subrange(start as int, end as int));
                assert(rest.skip(k + 1) == v@.skip(i + 1));
                assert(texts(out@) == texts(old_out).push(line@));
                assert(texts(out@) + lines(v@.skip(i + 1)) == texts(old_out) + lines(rest));
            }
            start = i + 1;
        } else {
            let mut line: Vec<char> = Vec::new();
            let mut q = start;
            while q < v.len()
                invariant
                    start <= q <= v@.len(),
                    line@ == v@.subrange(start as int, q as int),
                decreases v@.len() - q,
            {
                line.push(v[q]);
                proof {
                    assert(v@.subrange(start as int, q + 1) == v@.subrange(start as int, q as int).push(v@[q as int]));
                }
                q = q + 1;
            }
            out.push(line);
            proof {
                lemma_no_newline(rest);
                assert(rest == v@.subrange(start as int, v@.len() as int));
                assert(lines(rest) == seq![rest]);
                assert(v@.skip(v@.len() as int) == Seq::<char>::empty());
                assert(texts(out@) == texts(old_out).push(line@));
                assert(texts(out@) + lines(v@.skip(v@.len() as int)) =~= texts(old_out) + lines(rest));
            }
            start = v.len();
        }
    }
    proof {
        assert(v@.skip(start as int) == Seq::<char>::empty());
        assert(texts(out@) + Seq::<Seq<char>>::empty() == texts(out@));
    }
    out
}

/// Whether two character vectors hold the same text.
pub fn chars_eq(a: &Vec<char>, b: &Vec<char>) -> (r: bool)
    ensures
        r == (a@ == b@),
{
    if a.len() != b.len() {
        return false;
    }
    let mut k: usize = 0;
    while k < a.len()
        invariant
            a.len() == b.len(),
            k <= a.len(),
            forall|q: int| 0 <= q < k ==> a@[q] == b@[q],
        decreases a.len() - k,
    {
        if a[k] != b[k] {
            return false;
        }
        k = k + 1;
    }
    proof {
        assert(a@ =~= b@);
    }
    true
}

/// Whether `ls` holds a line with the text of `l`.
pub fn has_line(ls: &Vec<Vec<char>>, l: &Vec<char>) -> (r: bool)
    ensures
        r == texts(ls@).contains(l@),
{
    let mut i: usize = 0;
    while i < ls.len()
        invariant
            i <= ls@.len(),
            forall|q: int| 0 <= q < i ==> ls@[q]@ != l@,
        decreases ls@.len() - i,
    {
        if chars_eq(&ls[i], l) {
            proof {
                assert(texts(ls@)[i as int] == l@);
            }
            return true;
        }
        i = i + 1;
    }
    proof {
        if texts(ls@).contains(l@) {
            let q = choose|q: int| 0 <= q < texts(ls@).len() && texts(ls@)[q] == l@;
            assert(ls@[q]@ == l@);
        }
    }
    false
}

} // verus!
