//! Why the override file is wired into the root configuration once and only
//! once: what the wiring adds is seen by the test that decides on it.

use crate::directive::{assign_at, include_at, include_key, names_override, override_name};
use crate::merge::{marker, override_count, wired, wiring};
use crate::text::{
    find_char, has_at, is_space, lemma_find_char, lemma_find_char_is, lemma_line_at, lemma_lines_shift,
    lemma_skip_spaces, lemma_skip_spaces_is, lemma_trim_end, lemma_trim_end_is, lines, lines_from, plain_line,
    skip_spaces, strip_cr, trim_end,
};
use vstd::prelude::*;

verus! {

/// The root configuration after a merge has wired the override file in.
pub open spec fn after_wiring(root: Seq<char>) -> Seq<char> {
    if wired(root) {
        root
    } else {
        root + wiring()
    }
}

/// The include directive that the wiring writes.
pub open spec fn wiring_directive() -> Seq<char> {
    include_key() + seq!['='] + override_name()
}

proof fn lemma_count_concat(x: Seq<Seq<char>>, y: Seq<Seq<char>>)
    ensures
        override_count(x + y) == override_count(x) + override_count(y),
    decreases y.len(),
{
    if y.len() == 0 {
        assert(x + y =~= x);
    } else {
        lemma_count_concat(x, y.drop_last());
        assert((x + y).drop_last() =~= x + y.drop_last());
        assert((x + y).last() == y.last());
    }
}

proof fn lemma_count_one(line: Seq<char>)
    ensures
        override_count(seq![line]) == if names_override(line) {
            1nat
        } else {
            0nat
        },
{
    assert(seq![line].drop_last() =~= Seq::<Seq<char>>::empty());
    assert(seq![line].last() == line);
    assert(override_count(Seq::<Seq<char>>::empty()) == 0);
}

proof fn lemma_skip_spaces_before_cr(x: Seq<char>, j: int)
    requires
        x.len() > 0,
        x.last() == '\r',
        0 <= j < x.len(),
    ensures
        skip_spaces(x.drop_last(), j) < x.len() - 1 ==> skip_spaces(x, j) == skip_spaces(x.drop_last(), j),
        skip_spaces(x.drop_last(), j) >= x.len() - 1 ==> skip_spaces(x, j) == x.len(),
{
    let y = x.drop_last();
    lemma_skip_spaces(y, j);
    let r = skip_spaces(y, j);
    assert forall|k: int| j <= k < r implies is_space(#[trigger] x[k]) by {
        assert(x[k] == y[k]);
    }
    if r < y.len() {
        assert(x[r] == y[r]);
        lemma_skip_spaces_is(x, j, r);
    } else {
        assert(is_space(x[x.len() - 1]));
        lemma_skip_spaces_is(x, j, x.len() as int);
    }
}

/// Where a stretch ends without its white space depends on the characters
/// before the end of the stretch alone.
proof fn lemma_trim_end_prefix(x: Seq<char>, y: Seq<char>, lo: int, hi: int)
    requires
        0 <= lo <= hi,
        hi <= x.len(),
        hi <= y.len(),
        forall|k: int| 0 <= k < hi ==> x[k] == y[k],
    ensures
        trim_end(x, lo, hi) == trim_end(y, lo, hi),
    decreases hi - lo,
{
    if lo < hi && is_space(x[hi - 1]) {
        lemma_trim_end_prefix(x, y, lo, hi - 1);
    }
}

proof fn lemma_include_at_before_cr(x: Seq<char>, i: int)
    requires
        x.len() > 0,
        x.last() == '\r',
        0 <= i < x.len(),
    ensures
        include_at(x, i) == if i < x.len() - 1 {
            include_at(x.drop_last(), i)
        } else {
            None
        },
{
    reveal_strlit("config-file");
    let y = x.drop_last();
    let key = include_key();
    let n = x.len() as int;
    if i + key.len() <= y.len() {
        assert(x.subrange(i, i + key.len()) =~= y.subrange(i, i + key.len()));
        lemma_skip_spaces_before_cr(x, i + key.len());
        lemma_skip_spaces(y, i + key.len());
        let a = skip_spaces(y, i + key.len());
        if a < y.len() {
            assert(x[a] == y[a]);
            if y[a] == '=' {
                let from = a + 1;
                lemma_skip_spaces_before_cr(x, from);
                lemma_skip_spaces(y, from);
                let c = skip_spaces(y, from);
                if c < y.len() {
                    assert(is_space(x[n - 1]));
                    assert(trim_end(x, c, n) == trim_end(x, c, n - 1));
                    lemma_trim_end_prefix(x, y, c, n - 1);
                    lemma_trim_end(y, c, n - 1);
                    let e = trim_end(y, c, n - 1);
                    assert(x[c] == y[c]);
                    if e > c {
                        assert(x[e - 1] == y[e - 1]);
                    }
                    assert(x.subrange(c, e) =~= y.subrange(c, e));
                    if c + 1 <= e - 1 {
                        assert(x.subrange(c + 1, e - 1) =~= y.subrange(c + 1, e - 1));
                    }
                }
            }
        }
    } else {
        if has_at(x, i, key) {
            assert(x.subrange(i, i + key.len())[key.len() - 1] == x[n - 1]);
        }
    }
}

/// A carriage return at the end of a line does not change whether the line
/// includes the override file.
pub proof fn lemma_override_ignores_cr(x: Seq<char>)
    ensures
        names_override(strip_cr(x)) == names_override(x),
{
    if x.len() > 0 && x.last() == '\r' {
        reveal_strlit("config-file");
        let y = x.drop_last();
        lemma_skip_spaces_before_cr(x, 0);
        lemma_skip_spaces(y, 0);
        let start = skip_spaces(y, 0);
        if start < y.len() {
            lemma_include_at_before_cr(x, start);
        }
    }
}

proof fn lemma_count_with_suffix(a: Seq<char>, b: Seq<char>, i: int)
    requires
        0 <= i <= a.len(),
        b.len() > 0,
        b[0] == '\n',
    ensures
        override_count(lines_from(a + b, i)) == override_count(lines_from(a, i)) + override_count(
            lines_from(b, 1),
        ),
    decreases a.len() - i,
{
    let s = a + b;
    let empty = Seq::<char>::empty();
    if i == a.len() {
        assert(s[i] == b[0]);
        lemma_find_char_is(s, '\n', i, i);
        assert(s.subrange(i, i) =~= empty);
        lemma_lines_shift(a, b, 1);
        assert(!names_override(empty));
        lemma_count_one(strip_cr(s.subrange(i, i)));
        lemma_count_concat(seq![strip_cr(s.subrange(i, i))], lines_from(s, i + 1));
    } else {
        lemma_find_char(a, '\n', i);
        let na = find_char(a, '\n', i);
        assert forall|k: int| i <= k < na implies #[trigger] s[k] != '\n' by {
            assert(s[k] == a[k]);
        }
        if na < a.len() {
            assert(s[na] == a[na]);
            lemma_find_char_is(s, '\n', i, na);
            assert(s.subrange(i, na) =~= a.subrange(i, na));
            lemma_count_with_suffix(a, b, na + 1);
            let line = strip_cr(a.subrange(i, na));
            lemma_count_concat(seq![line], lines_from(s, na + 1));
            lemma_count_concat(seq![line], lines_from(a, na + 1));
        } else {
            assert(s[a.len() as int] == b[0]);
            lemma_find_char_is(s, '\n', i, a.len() as int);
            let tail = a.subrange(i, a.len() as int);
            assert(s.subrange(i, a.len() as int) =~= tail);
            lemma_lines_shift(a, b, 1);
            lemma_override_ignores_cr(tail);
            lemma_count_one(strip_cr(tail));
            lemma_count_one(tail);
            lemma_count_concat(seq![strip_cr(tail)], lines_from(s, (a.len() + 1) as int));
        }
    }
}

/// The marker is a line as it stands.
proof fn lemma_marker_plain()
    ensures
        plain_line(marker()),
{
    reveal_strlit("# Added by ghosttify");
}

/// The marker includes nothing.
proof fn lemma_marker_count()
    ensures
        override_count(seq![marker()]) == 0,
{
    reveal_strlit("# Added by ghosttify");
    reveal_strlit("config-file");
    let m = marker();
    lemma_skip_spaces_is(m, 0, 0);
    if has_at(m, 0, include_key()) {
        assert(m.subrange(0, include_key().len() as int)[0] == m[0]);
    }
    lemma_count_one(m);
}

/// The directive of the wiring is a line as it stands.
proof fn lemma_directive_plain()
    ensures
        plain_line(wiring_directive()),
{
    reveal_strlit("config-file");
    reveal_strlit("gnome-shortcuts");
    let d = wiring_directive();
    let key = include_key();
    let name = override_name();
    let kl = key.len() as int;
    assert(d.len() == kl + 1 + name.len());
    assert forall|k: int| 0 <= k < d.len() implies #[trigger] d[k] != '\n' by {
        if k < key.len() {
            assert(d[k] == key[k]);
        } else if k > key.len() {
            assert(d[k] == name[k - key.len() - 1]);
        }
    }
    assert(d.last() == name[name.len() - 1]);
}

/// The directive of the wiring includes the override file.
proof fn lemma_directive_count()
    ensures
        override_count(seq![wiring_directive()]) == 1,
{
    reveal_strlit("config-file");
    reveal_strlit("gnome-shortcuts");
    let d = wiring_directive();
    let key = include_key();
    let name = override_name();
    let kl = key.len() as int;
    let n = d.len() as int;
    assert(n == kl + 1 + name.len());
    assert(d[0] == key[0]);
    lemma_skip_spaces_is(d, 0, 0);
    assert(d.subrange(0, kl) =~= key);
    assert(d[kl] == '=');
    lemma_skip_spaces_is(d, kl, kl);
    assert(assign_at(d, 0, key) == Some(kl + 1));
    assert(d[kl + 1] == name[0]);
    lemma_skip_spaces_is(d, kl + 1, kl + 1);
    assert(d[n - 1] == name[name.len() - 1]);
    lemma_trim_end_is(d, kl + 1, n, n);
    assert(d.subrange(kl + 1, n) =~= name);
    assert(include_at(d, 0) == Some(name));
    lemma_count_one(d);
}

/// What follows the first line feed of a line feed and two lines is the two
/// lines.
proof fn lemma_two_lines(m: Seq<char>, d: Seq<char>)
    requires
        plain_line(m),
        plain_line(d),
    ensures
        lines_from(seq!['\n'] + m + seq!['\n'] + d + seq!['\n'], 1) == seq![m, d],
{
    let w = seq!['\n'] + m + seq!['\n'] + d + seq!['\n'];
    let e1 = 1 + m.len() as int;
    let e2 = e1 + 1 + d.len() as int;
    assert(w.len() == e2 + 1);
    assert(w.subrange(1, e1) =~= m);
    assert(w.subrange(e1 + 1, e2) =~= d);
    lemma_line_at(w, 1, m);
    lemma_line_at(w, e1 + 1, d);
    assert(lines_from(w, e2 + 1) =~= Seq::<Seq<char>>::empty());
    assert(lines_from(w, 1) =~= seq![m, d]);
}

/// Of the marker and the directive of the wiring, one includes the override
/// file.
proof fn lemma_wiring_count()
    ensures
        override_count(seq![marker(), wiring_directive()]) == 1,
{
    let m = marker();
    let d = wiring_directive();
    lemma_marker_count();
    lemma_directive_count();
    lemma_count_concat(seq![m], seq![d]);
    assert(seq![m] + seq![d] =~= seq![m, d]);
}

/// What follows the first line feed of the wiring is two lines, the marker
/// and the directive.
proof fn lemma_wiring_lines()
    ensures
        wiring().len() > 0,
        wiring()[0] == '\n',
        lines_from(wiring(), 1) == seq![marker(), wiring_directive()],
{
    let m = marker();
    let d = wiring_directive();
    lemma_marker_plain();
    lemma_directive_plain();
    lemma_two_lines(m, d);
    assert(wiring() =~= seq!['\n'] + m + seq!['\n'] + d + seq!['\n']);
}

/// The wiring adds exactly one line that includes the override file,
/// whatever the root configuration holds.
pub proof fn lemma_wiring_adds_one(root: Seq<char>)
    ensures
        override_count(lines(root + wiring())) == override_count(lines(root)) + 1,
        wired(root + wiring()),
{
    lemma_wiring_lines();
    lemma_wiring_count();
    lemma_count_with_suffix(root, wiring(), 0);
}

/// Wiring is idempotent: a root configuration that a merge has wired is left
/// as it is by the next merge. And a root configuration that did not include
/// the override file includes it exactly once after any number of merges.
pub proof fn lemma_wiring_idempotent(root: Seq<char>)
    ensures
        wired(after_wiring(root)),
        after_wiring(after_wiring(root)) == after_wiring(root),
        !wired(root) ==> override_count(lines(after_wiring(root))) == 1,
        wired(root) ==> override_count(lines(after_wiring(root))) == override_count(lines(root)),
{
    lemma_wiring_adds_one(root);
}

} // verus!
