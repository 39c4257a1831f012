//! What a merge writes is what the next reading of the configuration finds:
//! the directive lines of shortcuts read back as these shortcuts.

use crate::config::bindings_in;
use crate::dictionary::Pairs;
use crate::directive::{assign_at, keybind_at, keybind_key, keybind_of};
use crate::merge::{keybind_line, keybind_lines};
use crate::text::{
    is_space, lemma_line_at, lemma_lines_concat, lemma_rfind_char, lemma_skip_spaces_is, lemma_trim_end_is, lines,
    lines_from, plain_line, rfind_char,
};
use vstd::prelude::*;

verus! {

/// Whether a shortcut can be read back from its directive line: neither
/// part holds a line feed or has white space at its beginning or its end,
/// and the action holds no `=`.
pub open spec fn readable(action: Seq<char>, binding: Seq<char>) -> bool {
    &&& forall|k: int| 0 <= k < binding.len() ==> #[trigger] binding[k] != '\n'
    &&& binding.len() > 0 ==> !is_space(binding[0]) && !is_space(binding.last())
    &&& forall|k: int| 0 <= k < action.len() ==> #[trigger] action[k] != '\n' && action[k] != '='
    &&& action.len() > 0 ==> !is_space(action[0]) && !is_space(action.last())
}

/// The directive line of a shortcut, without its line feed.
pub open spec fn directive_of(action: Seq<char>, binding: Seq<char>) -> Seq<char> {
    keybind_key() + seq![' ', '=', ' '] + binding + seq!['='] + action
}

/// The directive line of a readable shortcut is a line as it stands.
proof fn lemma_directive_plain(action: Seq<char>, binding: Seq<char>)
    requires
        readable(action, binding),
    ensures
        plain_line(directive_of(action, binding)),
{
    reveal_strlit("keybind");
    let l = directive_of(action, binding);
    let t = 10 + binding.len() as int;
    assert forall|k: int| 0 <= k < l.len() implies #[trigger] l[k] != '\n' by {
        if k < 7 {
            assert(l[k] == keybind_key()[k]);
        } else if 10 <= k < t {
            assert(l[k] == binding[k - 10]);
        } else if k > t {
            assert(l[k] == action[k - t - 1]);
        }
    }
    if action.len() > 0 {
        assert(l.last() == action[action.len() - 1]);
        assert(is_space('\r'));
    } else {
        assert(l.last() == '=');
    }
}

/// The directive line of a readable shortcut reads back as the shortcut.
pub proof fn lemma_line_reads_back(action: Seq<char>, binding: Seq<char>)
    requires
        readable(action, binding),
    ensures
        keybind_of(directive_of(action, binding)) == Some((binding, action)),
{
    reveal_strlit("keybind");
    let l = directive_of(action, binding);
    let key = keybind_key();
    let t = 10 + binding.len() as int;
    let n = l.len() as int;
    assert(n == t + 1 + action.len());
    assert(l[0] == key[0]);
    lemma_skip_spaces_is(l, 0, 0);
    assert(l.subrange(0, 7) =~= key);
    assert(l[7] == ' ' && l[8] == '=' && l[9] == ' ');
    lemma_skip_spaces_is(l, 7, 8);
    assert(assign_at(l, 0, key) == Some(9int));
    assert(l[t] == '=');
    lemma_rfind_char(l, '=', 9, n);
    let p = rfind_char(l, '=', 9, n);
    if p > t {
        assert(l[p] == action[p - t - 1]);
    }
    assert(p == t);
    if binding.len() > 0 {
        assert(l[10] == binding[0]);
        assert(l[t - 1] == binding[binding.len() - 1]);
    }
    lemma_skip_spaces_is(l, 9, 10);
    lemma_trim_end_is(l, 10, t, t);
    if action.len() > 0 {
        assert(l[t + 1] == action[0]);
        assert(l[n - 1] == action[action.len() - 1]);
    }
    lemma_skip_spaces_is(l, t + 1, t + 1);
    lemma_trim_end_is(l, t + 1, n, n);
    assert(l.subrange(10, t) =~= binding);
    assert(l.subrange(t + 1, n) =~= action);
    assert(keybind_at(l, 0) == Some((binding, action)));
}

/// The directive lines end in a line feed, if there is any.
proof fn lemma_lines_end(shortcuts: Pairs)
    ensures
        keybind_lines(shortcuts).len() == 0 || keybind_lines(shortcuts).last() == '\n',
{
    if shortcuts.len() > 0 {
        let line = keybind_line(shortcuts.last().0, shortcuts.last().1);
        assert(line.last() == '\n');
        assert(keybind_lines(shortcuts).last() == line.last());
    }
}

/// The directive lines of readable shortcuts read back as these shortcuts,
/// in their order.
pub proof fn lemma_text_reads_back(shortcuts: Pairs)
    requires
        forall|i: int| 0 <= i < shortcuts.len() ==> readable((#[trigger] shortcuts[i]).0, shortcuts[i].1),
    ensures
        bindings_in(lines(keybind_lines(shortcuts))) == shortcuts,
    decreases shortcuts.len(),
{
    if shortcuts.len() == 0 {
        assert(bindings_in(lines(keybind_lines(shortcuts))) =~= shortcuts);
    } else {
        let init = shortcuts.drop_last();
        let (action, binding) = shortcuts.last();
        assert(shortcuts[shortcuts.len() - 1] == (action, binding));
        assert forall|i: int| 0 <= i < init.len() implies readable((#[trigger] init[i]).0, init[i].1) by {
            assert(init[i] == shortcuts[i]);
        }
        lemma_text_reads_back(init);
        let x = keybind_lines(init);
        let l = directive_of(action, binding);
        let tail = l + seq!['\n'];
        assert(keybind_line(action, binding) =~= tail);
        lemma_lines_end(init);
        lemma_lines_concat(x, tail, 0);
        lemma_directive_plain(action, binding);
        assert(tail.subrange(0, l.len() as int) =~= l);
        lemma_line_at(tail, 0, l);
        assert(lines_from(tail, (l.len() + 1) as int) =~= Seq::<Seq<char>>::empty());
        assert(lines(tail) =~= seq![l]);
        let all = lines(x) + seq![l];
        assert(all.drop_last() =~= lines(x));
        assert(all.last() == l);
        lemma_line_reads_back(action, binding);
        assert(init.push((action, binding)) =~= shortcuts);
    }
}

} // verus!
