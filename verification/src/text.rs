//! Text as sequences of characters: whitespace, trimming, searching and lines.
//!
//! Every function here works on `Seq<char>` in contracts and on `[char]` in
//! executable code, so that a position always names a whole character.

use vstd::prelude::*;
use vstd::slice::slice_subrange;
use vstd::string::{StrSliceExecFns, StringExecFns};

verus! {

/// `String::push` puts the character at the end of the string and leaves the
/// characters before it as they were.
pub assume_specification[ String::push ](s: &mut String, ch: char)
    ensures
        final(s)@ == old(s)@.push(ch),
;

/// Whether `c` has the Unicode `White_Space` property.
pub open spec fn is_space(c: char) -> bool {
    let u = c as u32;
    u == 0x20 || (0x09 <= u && u <= 0x0d) || u == 0x85 || u == 0xa0 || u == 0x1680 || (0x2000 <= u
        && u <= 0x200a) || u == 0x2028 || u == 0x2029 || u == 0x202f || u == 0x205f || u == 0x3000
}

/// Whether `c` is one of the ASCII digits `0` to `9`.
pub open spec fn is_digit(c: char) -> bool {
    let u = c as u32;
    0x30 <= u && u <= 0x39
}

/// Whether every character of `s` is an ASCII digit.
pub open spec fn all_digits(s: Seq<char>) -> bool {
    forall|i: int| 0 <= i < s.len() ==> is_digit(#[trigger] s[i])
}

/// Whether every character of `s` is whitespace.
pub open spec fn is_blank(s: Seq<char>) -> bool {
    forall|i: int| 0 <= i < s.len() ==> is_space(#[trigger] s[i])
}

/// The number of bytes that `c` takes in UTF-8.
pub open spec fn utf8_width(c: char) -> nat {
    let u = c as u32;
    if u < 0x80 {
        1
    } else if u < 0x800 {
        2
    } else if u < 0x1_0000 {
        3
    } else {
        4
    }
}

/// The number of bytes that `s` takes in UTF-8.
pub open spec fn utf8_len(s: Seq<char>) -> nat
    decreases s.len(),
{
    if s.len() == 0 {
        0
    } else {
        utf8_len(s.drop_last()) + utf8_width(s.last())
    }
}

/// `s` without the whitespace at its end.
pub open spec fn trim_end(s: Seq<char>) -> Seq<char>
    decreases s.len(),
{
    if s.len() > 0 && is_space(s.last()) {
        trim_end(s.drop_last())
    } else {
        s
    }
}

/// `s` without the whitespace at its start.
pub open spec fn trim_start(s: Seq<char>) -> Seq<char>
    decreases s.len(),
{
    if s.len() > 0 && is_space(s.first()) {
        trim_start(s.drop_first())
    } else {
        s
    }
}

/// `s` without the whitespace at either end.
pub open spec fn trim(s: Seq<char>) -> Seq<char> {
    trim_start(trim_end(s))
}

/// Whether `s` begins with `pat`.
pub open spec fn starts_with(s: Seq<char>, pat: Seq<char>) -> bool {
    pat.is_prefix_of(s)
}

/// Whether `s` ends with `pat`.
pub open spec fn ends_with(s: Seq<char>, pat: Seq<char>) -> bool {
    pat.is_suffix_of(s)
}

/// `s` without `pat` at its start, if it starts with `pat`.
pub open spec fn without_prefix(s: Seq<char>, pat: Seq<char>) -> Option<Seq<char>> {
    if starts_with(s, pat) {
        Some(s.skip(pat.len() as int))
    } else {
        None
    }
}

/// `s` without `pat` at its end, if it ends with `pat`.
pub open spec fn without_suffix(s: Seq<char>, pat: Seq<char>) -> Option<Seq<char>> {
    if ends_with(s, pat) {
        Some(s.take(s.len() - pat.len()))
    } else {
        None
    }
}

/// Whether `pat` stands in `s` at position `k`.
pub open spec fn occurs_at(s: Seq<char>, pat: Seq<char>, k: int) -> bool {
    0 <= k <= s.len() && starts_with(s.skip(k), pat)
}

/// Whether `pat` stands somewhere in `s`.
pub open spec fn contains(s: Seq<char>, pat: Seq<char>) -> bool {
    exists|k: int| occurs_at(s, pat, k)
}

/// The position of the first line feed of `s`, or the length of `s` if it has none.
pub open spec fn first_newline(s: Seq<char>) -> nat
    decreases s.len(),
{
    if s.len() == 0 || s.first() == '\n' {
        0
    } else {
        1 + first_newline(s.drop_first())
    }
}

/// `line` without one carriage return at its end.
pub open spec fn strip_cr(line: Seq<char>) -> Seq<char> {
    if line.len() > 0 && line.last() == '\r' {
        line.drop_last()
    } else {
        line
    }
}

/// The lines of `s`. A line ends at a line feed, or at a carriage return directly
/// followed by one; neither belongs to the line. What follows the last line feed is
/// a line of its own, taken as it stands, unless it is empty.
pub open spec fn split_lines(s: Seq<char>) -> Seq<Seq<char>>
    decreases s.len(),
{
    if s.len() == 0 {
        Seq::empty()
    } else {
        let k = first_newline(s);
        if k >= s.len() {
            seq![s]
        } else {
            seq![strip_cr(s.take(k as int))] + split_lines(s.skip(k as int + 1))
        }
    }
}

/// The lines joined by single line feeds.
pub open spec fn join_lines(lines: Seq<Seq<char>>) -> Seq<char>
    decreases lines.len(),
{
    if lines.len() == 0 {
        Seq::empty()
    } else if lines.len() == 1 {
        lines[0]
    } else {
        join_lines(lines.drop_last()).push('\n') + lines.last()
    }
}

/// The texts held by a vector of character vectors.
pub open spec fn texts(v: Seq<Vec<char>>) -> Seq<Seq<char>> {
    v.map_values(|r: Vec<char>| r@)
}

/// A text whose end is trimmed is blank only if it is empty.
pub proof fn lemma_trim_end_shape(s: Seq<char>)
    ensures
        trim_end(s).is_prefix_of(s),
        trim_end(s).len() > 0 ==> !is_space(trim_end(s).last()),
        is_blank(s) <==> trim_end(s).len() == 0,
        trim_end(trim_end(s)) == trim_end(s),
    decreases s.len(),
{
    if s.len() > 0 && is_space(s.last()) {
        let t = s.drop_last();
        lemma_trim_end_shape(t);
        if is_blank(t) {
            assert forall|i: int| 0 <= i < s.len() implies is_space(#[trigger] s[i]) by {
                if i < t.len() {
                    assert(s[i] == t[i]);
                }
            }
        }
        if is_blank(s) {
            assert forall|i: int| 0 <= i < t.len() implies is_space(#[trigger] t[i]) by {
                assert(t[i] == s[i]);
            }
        }
    } else if s.len() > 0 {
        assert(!is_space(s[s.len() - 1]));
    }
}

/// Trimming the start leaves a suffix that is empty exactly for blank text.
pub proof fn lemma_trim_start_shape(s: Seq<char>)
    ensures
        trim_start(s).is_suffix_of(s),
        trim_start(s).len() > 0 ==> !is_space(trim_start(s).first()),
        is_blank(s) <==> trim_start(s).len() == 0,
    decreases s.len(),
{
    if s.len() > 0 && is_space(s.first()) {
        let t = s.drop_first();
        lemma_trim_start_shape(t);
        if is_blank(t) {
            assert forall|i: int| 0 <= i < s.len() implies is_space(#[trigger] s[i]) by {
                if i > 0 {
                    assert(s[i] == t[i - 1]);
                }
            }
        }
        if is_blank(s) {
            assert forall|i: int| 0 <= i < t.len() implies is_space(#[trigger] t[i]) by {
                assert(t[i] == s[i + 1]);
            }
        }
    } else if s.len() > 0 {
        assert(!is_space(s[0]));
    }
}

/// Whether `c` has the Unicode `White_Space` property.
pub fn is_whitespace(c: char) -> (b: bool)
    ensures
        b == is_space(c),
{
    let u: u32 = c as u32;
    u == 0x20 || (0x09 <= u && u <= 0x0d) || u == 0x85 || u == 0xa0 || u == 0x1680 || (0x2000 <= u
        && u <= 0x200a) || u == 0x2028 || u == 0x2029 || u == 0x202f || u == 0x205f || u == 0x3000
}

/// The number of bytes that `c` takes in UTF-8.
pub fn char_width(c: char) -> (w: usize)
    ensures
        w == utf8_width(c),
{
    let u: u32 = c as u32;
    if u < 0x80 {
        1
    } else if u < 0x800 {
        2
    } else if u < 0x1_0000 {
        3
    } else {
        4
    }
}

/// The characters of `s`.
pub fn to_chars(s: &str) -> (v: Vec<char>)
    ensures
        v@ == s@,
{
    let mut v: Vec<char> = Vec::new();
    for c in it: s.chars()
        invariant
            it.seq() == s@,
            v@ == s@.take(it.index() as int),
    {
        v.push(c);
    }
    v
}

/// The string made of the characters of `v`.
pub fn to_text(v: &[char]) -> (s: String)
    ensures
        s@ == v@,
{
    let mut s = String::new();
    let mut i: usize = 0;
    while i < v.len()
        invariant
            i <= v.len(),
            s@ == v@.take(i as int),
        decreases v.len() - i,
    {
        s.push(v[i]);
        i += 1;
    }
    s
}

/// The strings made of the given texts.
pub fn to_strings(items: &Vec<Vec<char>>) -> (out: Vec<String>)
    ensures
        out.deep_view() == texts(items@),
{
    let mut out: Vec<String> = Vec::new();
    let mut i: usize = 0;
    while i < items.len()
        invariant
            i <= items.len(),
            out.deep_view() == texts(items@).take(i as int),
        decreases items.len() - i,
    {
        let ghost before = out.deep_view();
        out.push(to_text(items[i].as_slice()));
        assert(out.deep_view() =~= before.push(items[i as int]@));
        assert(texts(items@).take(i as int + 1) =~= texts(items@).take(i as int).push(
            items[i as int]@,
        ));
        i += 1;
    }
    assert(texts(items@).take(items.len() as int) =~= texts(items@));
    out
}

/// A copy of the characters of `v`.
pub fn copy_chars(v: &[char]) -> (out: Vec<char>)
    ensures
        out@ == v@,
{
    let mut out: Vec<char> = Vec::new();
    let mut i: usize = 0;
    while i < v.len()
        invariant
            i <= v.len(),
            out@ == v@.take(i as int),
        decreases v.len() - i,
    {
        out.push(v[i]);
        i += 1;
    }
    out
}

/// Appends the characters of `tail` to `out`.
pub fn push_chars(out: &mut Vec<char>, tail: &[char])
    ensures
        final(out)@ == old(out)@ + tail@,
{
    let mut i: usize = 0;
    while i < tail.len()
        invariant
            i <= tail.len(),
            out@ == old(out)@ + tail@.take(i as int),
        decreases tail.len() - i,
    {
        out.push(tail[i]);
        i += 1;
    }
}

/// Appends the characters of `tail` to `out`.
pub fn push_str(out: &mut Vec<char>, tail: &str)
    ensures
        final(out)@ == old(out)@ + tail@,
{
    for c in it: tail.chars()
        invariant
            it.seq() == tail@,
            out@ == old(out)@ + tail@.take(it.index() as int),
    {
        out.push(c);
    }
}

/// Whether the two texts are the same.
pub fn same_chars(a: &[char], b: &[char]) -> (same: bool)
    ensures
        same == (a@ == b@),
{
    if a.len() != b.len() {
        return false;
    }
    let mut i: usize = 0;
    while i < a.len()
        invariant
            i <= a.len(),
            a.len() == b.len(),
            a@.take(i as int) == b@.take(i as int),
        decreases a.len() - i,
    {
        if a[i] != b[i] {
            return false;
        }
        i += 1;
    }
    assert(a@ =~= a@.take(a.len() as int));
    assert(b@ =~= b@.take(b.len() as int));
    true
}

/// The number of characters of `pat`, if `s` begins with `pat`.
pub fn prefix_len(s: &[char], pat: &str) -> (len: Option<usize>)
    ensures
        match len {
            Some(n) => starts_with(s@, pat@) && n == pat@.len(),
            None => !starts_with(s@, pat@),
        },
{
    let mut i: usize = 0;
    for c in it: pat.chars()
        invariant
            it.seq() == pat@,
            i == it.index(),
            i <= s.len(),
            s@.take(i as int) == pat@.take(i as int),
    {
        if i >= s.len() || s[i] != c {
            return None;
        }
        i += 1;
    }
    Some(i)
}

/// Whether `s` begins with `pat`.
pub fn has_prefix(s: &[char], pat: &str) -> (b: bool)
    ensures
        b == starts_with(s@, pat@),
{
    prefix_len(s, pat).is_some()
}

/// Whether `s` is exactly `pat`.
pub fn is_text(s: &[char], pat: &str) -> (b: bool)
    ensures
        b == (s@ == pat@),
{
    match prefix_len(s, pat) {
        Some(n) => {
            assert(n == s.len() ==> s@ =~= pat@);
            n == s.len()
        },
        None => false,
    }
}

/// `s` without `pat` at its start, if it starts with `pat`.
pub fn strip_prefix<'a>(s: &'a [char], pat: &str) -> (r: Option<&'a [char]>)
    ensures
        match r {
            Some(rest) => without_prefix(s@, pat@) == Some(rest@),
            None => without_prefix(s@, pat@) is None,
        },
{
    match prefix_len(s, pat) {
        Some(n) => Some(slice_subrange(s, n, s.len())),
        None => None,
    }
}

/// `s` without `pat` at its end, if it ends with `pat`.
pub fn strip_suffix<'a>(s: &'a [char], pat: &str) -> (r: Option<&'a [char]>)
    ensures
        match r {
            Some(rest) => without_suffix(s@, pat@) == Some(rest@),
            None => without_suffix(s@, pat@) is None,
        },
{
    let m: usize = pat.unicode_len();
    let n: usize = s.len();
    if m > n {
        return None;
    }
    if has_prefix(slice_subrange(s, n - m, n), pat) {
        Some(slice_subrange(s, 0, n - m))
    } else {
        None
    }
}

/// Whether `pat` stands somewhere in `s`.
pub fn has_infix(s: &[char], pat: &str) -> (b: bool)
    ensures
        b == contains(s@, pat@),
{
    let n: usize = s.len();
    let mut k: usize = 0;
    while k < n
        invariant
            k <= n,
            n == s.len(),
            forall|j: int| 0 <= j < k ==> !occurs_at(s@, pat@, j),
        decreases n - k,
    {
        if has_prefix(slice_subrange(s, k, n), pat) {
            assert(occurs_at(s@, pat@, k as int));
            return true;
        }
        k += 1;
    }
    let at_end: bool = has_prefix(slice_subrange(s, n, n), pat);
    assert(at_end == occurs_at(s@, pat@, n as int));
    at_end
}

/// `s` without the whitespace at its end.
pub fn strip_trailing_space(s: &[char]) -> (r: &[char])
    ensures
        r@ == trim_end(s@),
{
    let mut n: usize = s.len();
    assert(s@.take(n as int) =~= s@);
    while n > 0 && is_whitespace(s[n - 1])
        invariant
            n <= s.len(),
            trim_end(s@) == trim_end(s@.take(n as int)),
        decreases n,
    {
        assert(s@.take(n as int).drop_last() =~= s@.take(n as int - 1));
        n -= 1;
    }
    slice_subrange(s, 0, n)
}

/// `s` without the whitespace at its start.
pub fn strip_leading_space(s: &[char]) -> (r: &[char])
    ensures
        r@ == trim_start(s@),
{
    let mut i: usize = 0;
    assert(s@.skip(0) =~= s@);
    while i < s.len() && is_whitespace(s[i])
        invariant
            i <= s.len(),
            trim_start(s@) == trim_start(s@.skip(i as int)),
        decreases s.len() - i,
    {
        assert(s@.skip(i as int).drop_first() =~= s@.skip(i as int + 1));
        i += 1;
    }
    slice_subrange(s, i, s.len())
}

/// `s` without the whitespace at either end.
pub fn strip_space(s: &[char]) -> (r: &[char])
    ensures
        r@ == trim(s@),
{
    strip_leading_space(strip_trailing_space(s))
}

/// Whether every character of `s` is whitespace.
pub fn is_blank_text(s: &[char]) -> (b: bool)
    ensures
        b == is_blank(s@),
{
    proof {
        lemma_trim_end_shape(s@);
    }
    strip_trailing_space(s).len() == 0
}

/// Whether every character of `s` is an ASCII digit.
pub fn is_all_digits(s: &[char]) -> (b: bool)
    ensures
        b == all_digits(s@),
{
    let mut i: usize = 0;
    while i < s.len()
        invariant
            i <= s.len(),
            forall|j: int| 0 <= j < i ==> is_digit(#[trigger] s@[j]),
        decreases s.len() - i,
    {
        let u: u32 = s[i] as u32;
        if !(0x30 <= u && u <= 0x39) {
            return false;
        }
        i += 1;
    }
    true
}

/// The lines of `s`.
pub fn lines_of(s: &[char]) -> (lines: Vec<Vec<char>>)
    ensures
        texts(lines@) == split_lines(s@),
{
    let n: usize = s.len();
    let mut lines: Vec<Vec<char>> = Vec::new();
    let mut start: usize = 0;
    assert(s@.skip(0) =~= s@);
    while start < n
        invariant
            start <= n,
            n == s.len(),
            texts(lines@) + split_lines(s@.skip(start as int)) == split_lines(s@),
        decreases n - start,
    {
        let ghost rest = s@.skip(start as int);
        let mut end: usize = start;
        while end < n && s[end] != '\n'
            invariant
                start <= end <= n,
                n == s.len(),
                first_newline(s@.skip(start as int)) == (end - start) + first_newline(
                    s@.skip(end as int),
                ),
            decreases n - end,
        {
            assert(s@.skip(end as int).drop_first() =~= s@.skip(end as int + 1));
            end += 1;
        }
        assert(first_newline(rest) == end - start);
        let ghost before = texts(lines@);
        assert(s@.skip(end as int).len() == 0 || s@.skip(end as int).first() == '\n');
        if end == n {
            lines.push(copy_chars(slice_subrange(s, start, n)));
            proof {
                assert(s@.subrange(start as int, n as int) =~= rest);
                assert(split_lines(rest) =~= seq![rest]);
                assert(texts(lines@) =~= before.push(rest));
                assert(s@.skip(n as int).len() == 0);
                assert(texts(lines@) + split_lines(s@.skip(n as int)) =~= before + seq![rest]);
            }
            start = n;
        } else {
            let stop: usize = if end > start && s[end - 1] == '\r' {
                end - 1
            } else {
                end
            };
            lines.push(copy_chars(slice_subrange(s, start, stop)));
            proof {
                let line = rest.take(end - start);
                assert(line =~= s@.subrange(start as int, end as int));
                assert(strip_cr(line) =~= s@.subrange(start as int, stop as int));
                assert(rest.skip(end - start + 1) =~= s@.skip(end as int + 1));
                assert(texts(lines@) =~= before.push(strip_cr(line)));
                assert(texts(lines@) + split_lines(s@.skip(end as int + 1)) =~= before + (
                seq![strip_cr(line)] + split_lines(rest.skip(end - start + 1))));
            }
            start = end + 1;
        }
    }
    assert(s@.skip(n as int).len() == 0);
    assert(texts(lines@) + split_lines(s@.skip(n as int)) =~= texts(lines@));
    lines
}

/// The texts joined by single line feeds.
pub fn join_text(lines: &Vec<String>) -> (out: String)
    ensures
        out@ == join_lines(lines.deep_view()),
{
    let mut out = String::new();
    let mut i: usize = 0;
    while i < lines.len()
        invariant
            i <= lines.len(),
            out@ == join_lines(lines.deep_view().take(i as int)),
        decreases lines.len() - i,
    {
        let ghost done = lines.deep_view().take(i as int);
        let ghost next = lines.deep_view().take(i as int + 1);
        assert(next.drop_last() =~= done);
        assert(next.last() == lines[i as int]@);
        if i > 0 {
            out.push('\n');
        }
        out.append(lines[i].as_str());
        i += 1;
    }
    assert(lines.deep_view().take(lines.len() as int) =~= lines.deep_view());
    out
}

} // verus!
