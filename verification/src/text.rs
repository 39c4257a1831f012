//! Character-level helpers shared by the parsers: strings as sequences of
//! characters, white space, searching, and splitting a text into lines.

use vstd::prelude::*;

verus! {

/// White space as the configuration grammar understands it: the Unicode
/// `White_Space` characters.
pub open spec fn is_space(c: char) -> bool {
    ||| '\t' <= c <= '\r'
    ||| c == ' '
    ||| c == '\u{85}'
    ||| c == '\u{a0}'
    ||| c == '\u{1680}'
    ||| '\u{2000}' <= c <= '\u{200a}'
    ||| '\u{2028}' <= c <= '\u{2029}'
    ||| c == '\u{202f}'
    ||| c == '\u{205f}'
    ||| c == '\u{3000}'
}

/// Index of the first character at or after `i` that is not white space, or
/// the length of `s` when there is none.
pub open spec fn skip_spaces(s: Seq<char>, i: int) -> int
    decreases s.len() - i,
{
    if 0 <= i < s.len() && is_space(s[i]) {
        skip_spaces(s, i + 1)
    } else {
        i
    }
}

/// Index of the first occurrence of `c` at or after `i`, or the length of `s`
/// when there is none.
pub open spec fn find_char(s: Seq<char>, c: char, i: int) -> int
    decreases s.len() - i,
{
    if 0 <= i < s.len() && s[i] != c {
        find_char(s, c, i + 1)
    } else {
        i
    }
}

/// Index of the last occurrence of `c` in `s[lo..hi)`, or `lo - 1` when there
/// is none.
pub open spec fn rfind_char(s: Seq<char>, c: char, lo: int, hi: int) -> int
    decreases hi - lo,
{
    if lo < hi && s[hi - 1] != c {
        rfind_char(s, c, lo, hi - 1)
    } else {
        hi - 1
    }
}

/// Where `s[lo..hi)` ends once the white space at its end is left out.
pub open spec fn trim_end(s: Seq<char>, lo: int, hi: int) -> int
    decreases hi - lo,
{
    if lo < hi && is_space(s[hi - 1]) {
        trim_end(s, lo, hi - 1)
    } else {
        hi
    }
}

/// Whether `pat` occurs in `s` at index `i`.
pub open spec fn has_at(s: Seq<char>, i: int, pat: Seq<char>) -> bool {
    0 <= i && i + pat.len() <= s.len() && s.subrange(i, i + pat.len()) == pat
}

/// The white space from `i` ends within `s`; all of it is white space and
/// what follows it is not.
pub proof fn lemma_skip_spaces(s: Seq<char>, i: int)
    requires
        0 <= i <= s.len(),
    ensures
        i <= skip_spaces(s, i) <= s.len(),
        forall|k: int| i <= k < skip_spaces(s, i) ==> is_space(#[trigger] s[k]),
        skip_spaces(s, i) < s.len() ==> !is_space(s[skip_spaces(s, i)]),
    decreases s.len() - i,
{
    if i < s.len() && is_space(s[i]) {
        lemma_skip_spaces(s, i + 1);
    }
}

/// The first `c` from `i` lies within `s`, and no `c` stands before it.
pub proof fn lemma_find_char(s: Seq<char>, c: char, i: int)
    requires
        0 <= i <= s.len(),
    ensures
        i <= find_char(s, c, i) <= s.len(),
        forall|k: int| i <= k < find_char(s, c, i) ==> #[trigger] s[k] != c,
        find_char(s, c, i) < s.len() ==> s[find_char(s, c, i)] == c,
    decreases s.len() - i,
{
    if i < s.len() && s[i] != c {
        lemma_find_char(s, c, i + 1);
    }
}

/// The last `c` of `s[lo..hi)` lies in that range, and no `c` stands after
/// it there.
pub proof fn lemma_rfind_char(s: Seq<char>, c: char, lo: int, hi: int)
    requires
        0 <= lo <= hi <= s.len(),
    ensures
        lo - 1 <= rfind_char(s, c, lo, hi) < hi,
        forall|k: int| rfind_char(s, c, lo, hi) < k < hi ==> #[trigger] s[k] != c,
        rfind_char(s, c, lo, hi) >= lo ==> s[rfind_char(s, c, lo, hi)] == c,
    decreases hi - lo,
{
    if lo < hi && s[hi - 1] != c {
        lemma_rfind_char(s, c, lo, hi - 1);
    }
}

/// The white space from `i` ends at `r` when all of `s[i..r)` is white space
/// and `s[r]`, if there is one, is not.
pub proof fn lemma_skip_spaces_is(s: Seq<char>, i: int, r: int)
    requires
        0 <= i <= r <= s.len(),
        forall|k: int| i <= k < r ==> is_space(#[trigger] s[k]),
        r < s.len() ==> !is_space(s[r]),
    ensures
        skip_spaces(s, i) == r,
    decreases r - i,
{
    if i < r {
        lemma_skip_spaces_is(s, i + 1, r);
    }
}

/// The first `c` from `i` is at `r` when none of `s[i..r)` is `c` and
/// `s[r]`, if there is one, is.
pub proof fn lemma_find_char_is(s: Seq<char>, c: char, i: int, r: int)
    requires
        0 <= i <= r <= s.len(),
        forall|k: int| i <= k < r ==> #[trigger] s[k] != c,
        r < s.len() ==> s[r] == c,
    ensures
        find_char(s, c, i) == r,
    decreases r - i,
{
    if i < r {
        lemma_find_char_is(s, c, i + 1, r);
    }
}

/// Without the white space at its end, `s[lo..hi)` ends within itself; what
/// is left out is white space, and what stands before it is not.
pub proof fn lemma_trim_end(s: Seq<char>, lo: int, hi: int)
    requires
        0 <= lo <= hi <= s.len(),
    ensures
        lo <= trim_end(s, lo, hi) <= hi,
        forall|k: int| trim_end(s, lo, hi) <= k < hi ==> is_space(#[trigger] s[k]),
        trim_end(s, lo, hi) > lo ==> !is_space(s[trim_end(s, lo, hi) - 1]),
    decreases hi - lo,
{
    if lo < hi && is_space(s[hi - 1]) {
        lemma_trim_end(s, lo, hi - 1);
    }
}

/// Without the white space at its end, `s[lo..hi)` ends at `r` when all of
/// `s[r..hi)` is white space and the character before `r`, if `r` is not
/// `lo`, is not.
pub proof fn lemma_trim_end_is(s: Seq<char>, lo: int, hi: int, r: int)
    requires
        0 <= lo <= r <= hi <= s.len(),
        forall|k: int| r <= k < hi ==> is_space(#[trigger] s[k]),
        r > lo ==> !is_space(s[r - 1]),
    ensures
        trim_end(s, lo, hi) == r,
    decreases hi - r,
{
    if r < hi {
        lemma_trim_end_is(s, lo, hi - 1, r);
    }
}

/// Whether a character is white space.
pub fn is_space_char(c: char) -> (r: bool)
    ensures
        r == is_space(c),
{
    ('\t' <= c && c <= '\r') || c == ' ' || c == '\u{85}' || c == '\u{a0}' || c == '\u{1680}' || (
    '\u{2000}' <= c && c <= '\u{200a}') || ('\u{2028}' <= c && c <= '\u{2029}') || c == '\u{202f}'
        || c == '\u{205f}' || c == '\u{3000}'
}

/// `String::push`: the string afterwards is the string before with `c` at its
/// end.
#[verifier::external_body]
pub(crate) fn push_char(s: &mut String, c: char)
    ensures
        final(s)@ == old(s)@.push(c),
{
    s.push(c)
}

/// The characters of a string, in order.
pub fn chars_of(s: &str) -> (v: Vec<char>)
    ensures
        v@ == s@,
{
    let mut v: Vec<char> = Vec::new();
    for c in it: s.chars()
        invariant
            it.seq() == s@,
            v@ == it.seq().take(it.index() as int),
    {
        v.push(c);
    }
    assert(v@ == s@);
    v
}

/// The string made of the characters `v[from..to)`.
pub fn string_of(v: &Vec<char>, from: usize, to: usize) -> (s: String)
    requires
        from <= to <= v.len(),
    ensures
        s@ == v@.subrange(from as int, to as int),
{
    let mut s = String::new();
    let mut i: usize = from;
    while i < to
        invariant
            from <= i <= to <= v.len(),
            s@ == v@.subrange(from as int, i as int),
        decreases to - i,
    {
        push_char(&mut s, v[i]);
        i += 1;
        assert(v@.subrange(from as int, i as int) == v@.subrange(from as int, i - 1).push(v@[i - 1]));
    }
    s
}

/// Index of the first character at or after `i` that is not white space.
pub fn skip_spaces_from(v: &Vec<char>, i: usize) -> (r: usize)
    requires
        i <= v.len(),
    ensures
        r == skip_spaces(v@, i as int),
        i <= r <= v.len(),
{
    let mut k: usize = i;
    while k < v.len() && is_space_char(v[k])
        invariant
            i <= k <= v.len(),
            skip_spaces(v@, i as int) == skip_spaces(v@, k as int),
        decreases v.len() - k,
    {
        k += 1;
    }
    k
}

/// Where `v[lo..hi)` ends once the white space at its end is left out.
pub fn trim_end_index(v: &Vec<char>, lo: usize, hi: usize) -> (r: usize)
    requires
        lo <= hi <= v.len(),
    ensures
        r == trim_end(v@, lo as int, hi as int),
        lo <= r <= hi,
{
    let mut k: usize = hi;
    while k > lo && is_space_char(v[k - 1])
        invariant
            lo <= k <= hi <= v.len(),
            trim_end(v@, lo as int, hi as int) == trim_end(v@, lo as int, k as int),
        decreases k,
    {
        k -= 1;
    }
    k
}

/// Index of the first `c` at or after `i`, or the length of `v`.
pub fn find_char_from(v: &Vec<char>, c: char, i: usize) -> (r: usize)
    requires
        i <= v.len(),
    ensures
        r == find_char(v@, c, i as int),
        i <= r <= v.len(),
{
    let mut k: usize = i;
    while k < v.len() && v[k] != c
        invariant
            i <= k <= v.len(),
            find_char(v@, c, i as int) == find_char(v@, c, k as int),
        decreases v.len() - k,
    {
        k += 1;
    }
    k
}

/// Whether `pat` occurs in `v` at index `i`.
pub fn has_at_index(v: &Vec<char>, i: usize, pat: &Vec<char>) -> (r: bool)
    requires
        i <= v.len(),
    ensures
        r == has_at(v@, i as int, pat@),
{
    if pat.len() > v.len() - i {
        return false;
    }
    let mut k: usize = 0;
    while k < pat.len()
        invariant
            k <= pat.len(),
            i + pat.len() <= v.len(),
            v@.subrange(i as int, i + k) == pat@.take(k as int),
        decreases pat.len() - k,
    {
        if v[i + k] != pat[k] {
            proof {
                let full = v@.subrange(i as int, i + pat.len());
                assert(full[k as int] != pat@[k as int]);
            }
            return false;
        }
        k += 1;
        assert(v@.subrange(i as int, i + k) == v@.subrange(i as int, i + k - 1).push(v@[i + k - 1]));
        assert(pat@.take(k as int) == pat@.take(k - 1).push(pat@[k - 1]));
    }
    assert(pat@.take(pat.len() as int) == pat@);
    true
}

/// A line without the carriage return at its end, if it has one.
pub open spec fn strip_cr(s: Seq<char>) -> Seq<char> {
    if s.len() > 0 && s.last() == '\r' {
        s.drop_last()
    } else {
        s
    }
}

/// The lines of `s[i..]`. A line ends at a line feed, which is not part of
/// it, nor is a carriage return just before the line feed. What follows the
/// last line feed is a line if it is not empty.
pub open spec fn lines_from(s: Seq<char>, i: int) -> Seq<Seq<char>>
    decreases s.len() - i,
{
    if 0 <= i < s.len() {
        let n = find_char(s, '\n', i);
        if i <= n < s.len() {
            seq![strip_cr(s.subrange(i, n))] + lines_from(s, n + 1)
        } else {
            seq![s.subrange(i, s.len() as int)]
        }
    } else {
        Seq::empty()
    }
}

/// The lines of a text.
pub open spec fn lines(s: Seq<char>) -> Seq<Seq<char>> {
    lines_from(s, 0)
}

/// The model of a vector of lines.
pub open spec fn rows(v: Seq<Vec<char>>) -> Seq<Seq<char>> {
    Seq::new(v.len(), |i: int| v[i]@)
}

/// The characters `v[from..to)`.
pub fn slice_of(v: &Vec<char>, from: usize, to: usize) -> (r: Vec<char>)
    requires
        from <= to <= v.len(),
    ensures
        r@ == v@.subrange(from as int, to as int),
{
    let mut r: Vec<char> = Vec::new();
    let mut i: usize = from;
    while i < to
        invariant
            from <= i <= to <= v.len(),
            r@ == v@.subrange(from as int, i as int),
        decreases to - i,
    {
        r.push(v[i]);
        i += 1;
        assert(v@.subrange(from as int, i as int) == v@.subrange(from as int, i - 1).push(v@[i - 1]));
    }
    r
}

/// Splits a text into its lines.
pub fn split_lines(text: &str) -> (r: Vec<Vec<char>>)
    ensures
        rows(r@) == lines(text@),
{
    let chars = chars_of(text);
    let mut r: Vec<Vec<char>> = Vec::new();
    let mut i: usize = 0;
    while i < chars.len()
        invariant
            i <= chars.len(),
            chars@ == text@,
            lines(chars@) == rows(r@) + lines_from(chars@, i as int),
        decreases chars.len() - i,
    {
        let n = find_char_from(&chars, '\n', i);
        let ghost before = rows(r@);
        if n < chars.len() {
            let end = if n > i && chars[n - 1] == '\r' {
                n - 1
            } else {
                n
            };
            let line = slice_of(&chars, i, end);
            proof {
                let piece = chars@.subrange(i as int, n as int);
                assert(line@ =~= strip_cr(piece));
                assert(lines(chars@) == (before + seq![line@]) + lines_from(chars@, n + 1));
            }
            r.push(line);
            assert(rows(r@) =~= before + seq![line@]);
            i = n + 1;
        } else {
            let line = slice_of(&chars, i, n);
            r.push(line);
            assert(rows(r@) =~= before + seq![line@]);
            i = n;
            assert(lines_from(chars@, n as int) =~= Seq::<Seq<char>>::empty());
        }
    }
    assert(lines_from(chars@, chars.len() as int) =~= Seq::<Seq<char>>::empty());
    assert(rows(r@) + Seq::<Seq<char>>::empty() =~= rows(r@));
    r
}

/// Searching in the second part of a concatenation is searching in that
/// part.
pub proof fn lemma_find_char_shift(a: Seq<char>, b: Seq<char>, c: char, k: int)
    requires
        0 <= k <= b.len(),
    ensures
        find_char(a + b, c, a.len() + k) == a.len() + find_char(b, c, k),
{
    lemma_find_char(b, c, k);
    let r = find_char(b, c, k);
    let s = a + b;
    assert forall|j: int| a.len() + k <= j < a.len() + r implies #[trigger] s[j] != c by {
        assert(s[j] == b[j - a.len()]);
    }
    if r < b.len() {
        assert(s[a.len() + r] == b[r]);
    }
    lemma_find_char_is(s, c, a.len() + k, a.len() + r);
}

/// The lines of a concatenation from a place in its second part are the
/// lines of that part from that place.
pub proof fn lemma_lines_shift(a: Seq<char>, b: Seq<char>, k: int)
    requires
        0 <= k <= b.len(),
    ensures
        lines_from(a + b, a.len() + k) == lines_from(b, k),
    decreases b.len() - k,
{
    let s = a + b;
    if k < b.len() {
        lemma_find_char_shift(a, b, '\n', k);
        lemma_find_char(b, '\n', k);
        let n = find_char(b, '\n', k);
        if n < b.len() {
            assert(s.subrange(a.len() + k, a.len() + n) =~= b.subrange(k, n));
            lemma_lines_shift(a, b, n + 1);
        } else {
            assert(s.subrange(a.len() + k, s.len() as int) =~= b.subrange(k, b.len() as int));
        }
    }
}

/// Whether `line` is a line as it stands: not empty, without a line feed,
/// and not ending in a carriage return.
pub open spec fn plain_line(line: Seq<char>) -> bool {
    &&& forall|k: int| 0 <= k < line.len() ==> #[trigger] line[k] != '\n'
    &&& line.len() > 0
    &&& line.last() != '\r'
}

/// A stretch of `s` that holds no line feed, does not end in a carriage
/// return and is followed by a line feed is a line of `s`.
pub proof fn lemma_line_at(s: Seq<char>, i: int, line: Seq<char>)
    requires
        0 <= i,
        i + line.len() < s.len(),
        s.subrange(i, i + line.len()) == line,
        s[i + line.len()] == '\n',
        plain_line(line),
    ensures
        lines_from(s, i) == seq![line] + lines_from(s, i + line.len() + 1),
{
    let end = i + line.len();
    assert forall|k: int| i <= k < end implies #[trigger] s[k] != '\n' by {
        assert(s[k] == line[k - i]);
    }
    lemma_find_char_is(s, '\n', i, end);
}

/// After a text that is empty or ends in a line feed, the lines of what
/// follows come after the lines of the text.
pub proof fn lemma_lines_concat(a: Seq<char>, b: Seq<char>, i: int)
    requires
        0 <= i <= a.len(),
        a.len() == 0 || a.last() == '\n',
    ensures
        lines_from(a + b, i) == lines_from(a, i) + lines(b),
    decreases a.len() - i,
{
    let s = a + b;
    if i == a.len() {
        lemma_lines_shift(a, b, 0);
        assert(lines_from(a, i) + lines(b) =~= lines(b));
    } else {
        lemma_find_char(a, '\n', i);
        let na = find_char(a, '\n', i);
        if na == a.len() {
            assert(a[a.len() - 1] != '\n');
        }
        assert forall|k: int| i <= k < na implies #[trigger] s[k] != '\n' by {
            assert(s[k] == a[k]);
        }
        assert(s[na] == a[na]);
        lemma_find_char_is(s, '\n', i, na);
        assert(s.subrange(i, na) =~= a.subrange(i, na));
        lemma_lines_concat(a, b, na + 1);
        let line = strip_cr(a.subrange(i, na));
        assert(seq![line] + (lines_from(a, na + 1) + lines(b)) =~= (seq![line] + lines_from(a, na + 1)) + lines(
            b,
        ));
    }
}

} // verus!
