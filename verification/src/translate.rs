//! Translation of one shortcut, and of a whole set of them, from the source
//! notation (`<Primary><Shift>c`) to the target notation (`ctrl+shift+c`).

use crate::dictionary::{lookup, put_all, Dictionary, Pairs, ShortcutSet};
use crate::mapping::MappingTable;
use crate::text::{chars_of, lemma_rfind_char, push_char, rfind_char, string_of};
use vstd::prelude::*;

verus! {

/// The value that marks a key or a shortcut as unsupported.
pub open spec fn sentinel() -> Seq<char> {
    "disabled"@
}

/// The characters that bound a token in the source notation.
pub open spec fn is_bracket(c: char) -> bool {
    c == '<' || c == '>'
}

/// Index of the first bracket at or after `i`, or the length of `s`.
pub open spec fn next_bracket(s: Seq<char>, i: int) -> int
    decreases s.len() - i,
{
    if 0 <= i < s.len() && !is_bracket(s[i]) {
        next_bracket(s, i + 1)
    } else {
        i
    }
}

/// The tokens of `s[i..]`: the pieces between brackets that are not empty, in
/// the order in which they stand.
pub open spec fn tokens_from(s: Seq<char>, i: int) -> Seq<Seq<char>>
    decreases s.len() - i,
{
    if 0 <= i < s.len() {
        let n = next_bracket(s, i);
        if n == i {
            tokens_from(s, i + 1)
        } else if i < n < s.len() {
            seq![s.subrange(i, n)] + tokens_from(s, n + 1)
        } else {
            seq![s.subrange(i, s.len() as int)]
        }
    } else {
        Seq::empty()
    }
}

/// The tokens of a binding in the source notation.
pub open spec fn tokens(binding: Seq<char>) -> Seq<Seq<char>> {
    tokens_from(binding, 0)
}

/// What a token becomes: the name that the key table gives it, or the token
/// itself when the table has none.
pub open spec fn resolved(keys: Pairs, token: Seq<char>) -> Seq<char> {
    match lookup(keys, token) {
        Some(v) => v,
        None => token,
    }
}

/// Whether a token makes its whole binding unsupported: what it becomes is
/// the empty string or the sentinel.
pub open spec fn dropped(keys: Pairs, token: Seq<char>) -> bool {
    resolved(keys, token).len() == 0 || resolved(keys, token) == sentinel()
}

/// The tokens `parts`, each resolved, in the same order.
pub open spec fn resolved_all(keys: Pairs, parts: Seq<Seq<char>>) -> Seq<Seq<char>> {
    Seq::new(parts.len(), |i: int| resolved(keys, parts[i]))
}

/// Whether some token of `parts` is dropped.
pub open spec fn any_dropped(keys: Pairs, parts: Seq<Seq<char>>) -> bool {
    exists|i: int| 0 <= i < parts.len() && dropped(keys, #[trigger] parts[i])
}

/// `parts` joined by `+`.
pub open spec fn joined(parts: Seq<Seq<char>>) -> Seq<char>
    decreases parts.len(),
{
    if parts.len() == 0 {
        Seq::empty()
    } else if parts.len() == 1 {
        parts[0]
    } else {
        joined(parts.drop_last()) + seq!['+'] + parts.last()
    }
}

/// The binding in the target notation, or `None` when the binding has no
/// token or one of its tokens is dropped.
pub open spec fn converted(binding: Seq<char>, keys: Pairs) -> Option<Seq<char>> {
    let parts = tokens(binding);
    if parts.len() == 0 || any_dropped(keys, parts) {
        None
    } else {
        Some(joined(resolved_all(keys, parts)))
    }
}

/// The translation of one shortcut, or `None` when the action table has no
/// target for the action, or an empty one, or the binding does not convert.
pub open spec fn translated(action: Seq<char>, binding: Seq<char>, keys: Pairs, actions: Pairs) -> Option<
    (Seq<char>, Seq<char>),
> {
    match lookup(actions, action) {
        Some(target) => if target.len() == 0 {
            None
        } else {
            match converted(binding, keys) {
                Some(b) => Some((target, b)),
                None => None,
            }
        },
        None => None,
    }
}

/// The translations of the shortcuts of `source` that have one, in the order
/// of `source`.
pub open spec fn translated_all(source: Pairs, keys: Pairs, actions: Pairs) -> Pairs
    decreases source.len(),
{
    if source.len() == 0 {
        Pairs::empty()
    } else {
        let rest = translated_all(source.drop_last(), keys, actions);
        match translated(source.last().0, source.last().1, keys, actions) {
            Some(t) => rest.push(t),
            None => rest,
        }
    }
}

/// The next bracket from `i` lies within `s`, and no bracket stands before
/// it.
pub proof fn lemma_next_bracket(s: Seq<char>, i: int)
    requires
        0 <= i <= s.len(),
    ensures
        i <= next_bracket(s, i) <= s.len(),
        forall|k: int| i <= k < next_bracket(s, i) ==> !is_bracket(#[trigger] s[k]),
        next_bracket(s, i) < s.len() ==> is_bracket(s[next_bracket(s, i)]),
    decreases s.len() - i,
{
    if i < s.len() && !is_bracket(s[i]) {
        lemma_next_bracket(s, i + 1);
    }
}

/// The pieces of a binding in the target notation: what stands between the
/// `+` signs.
pub open spec fn pieces(s: Seq<char>) -> Seq<Seq<char>>
    decreases s.len(),
{
    let p = rfind_char(s, '+', 0, s.len() as int);
    if 0 <= p < s.len() {
        pieces(s.take(p)).push(s.skip(p + 1))
    } else {
        seq![s]
    }
}

/// Whether no token holds a `+`.
pub open spec fn plus_free(parts: Seq<Seq<char>>) -> bool {
    forall|i: int, k: int| 0 <= i < parts.len() && 0 <= k < parts[i].len() ==> #[trigger] parts[i][k] != '+'
}

/// A binding joined from tokens that hold no `+` falls back into these
/// tokens, in the same order, when it is cut at `+`. So, if the tokens are
/// not empty either, the binding holds no empty token and neither starts nor
/// ends with `+`.
pub proof fn lemma_pieces_of_joined(parts: Seq<Seq<char>>)
    requires
        parts.len() > 0,
        plus_free(parts),
    ensures
        pieces(joined(parts)) == parts,
    decreases parts.len(),
{
    let s = joined(parts);
    if parts.len() == 1 {
        lemma_rfind_char(s, '+', 0, s.len() as int);
        let p = rfind_char(s, '+', 0, s.len() as int);
        if p >= 0 {
            assert(parts[0][p] != '+');
        }
        assert(seq![s] =~= parts);
    } else {
        let init = parts.drop_last();
        let last = parts.last();
        let at = joined(init).len() as int;
        assert(s[at] == '+');
        lemma_rfind_char(s, '+', 0, s.len() as int);
        let p = rfind_char(s, '+', 0, s.len() as int);
        if p > at {
            assert(s[p] == last[p - at - 1]);
            assert(parts[parts.len() - 1][p - at - 1] != '+');
        }
        assert(p == at);
        assert(s.take(p) =~= joined(init));
        assert(s.skip(p + 1) =~= last);
        assert forall|i: int, k: int| 0 <= i < init.len() && 0 <= k < init[i].len() implies #[trigger] init[i][k]
            != '+' by {
            assert(init[i] == parts[i]);
        }
        lemma_pieces_of_joined(init);
        assert(init.push(last) =~= parts);
    }
}

/// Order is kept: a binding none of whose tokens is dropped converts to its
/// tokens, each resolved by the key table, in the order in which they stand
/// in the binding, joined by `+`.
pub proof fn lemma_convert_keeps_order(binding: Seq<char>, keys: Pairs)
    requires
        tokens(binding).len() > 0,
        !any_dropped(keys, tokens(binding)),
    ensures
        converted(binding, keys) == Some(joined(resolved_all(keys, tokens(binding)))),
        resolved_all(keys, tokens(binding)).len() == tokens(binding).len(),
        forall|i: int|
            0 <= i < tokens(binding).len() ==> #[trigger] resolved_all(keys, tokens(binding))[i] == resolved(
                keys,
                tokens(binding)[i],
            ),
        plus_free(resolved_all(keys, tokens(binding))) ==> pieces(converted(binding, keys)->0) == resolved_all(
            keys,
            tokens(binding),
        ),
{
    if plus_free(resolved_all(keys, tokens(binding))) {
        lemma_pieces_of_joined(resolved_all(keys, tokens(binding)));
    }
}

/// A shortcut whose action has a target that is not empty, and none of whose
/// tokens is dropped, translates to that target and to its tokens, each
/// resolved, in their order, joined by `+`.
pub proof fn lemma_translate_keeps_order(action: Seq<char>, binding: Seq<char>, keys: Pairs, actions: Pairs)
    requires
        tokens(binding).len() > 0,
        !any_dropped(keys, tokens(binding)),
        lookup(actions, action) is Some,
        lookup(actions, action)->0.len() > 0,
    ensures
        translated(action, binding, keys, actions) == Some(
            (lookup(actions, action)->0, joined(resolved_all(keys, tokens(binding)))),
        ),
{
}

/// An action that the action table does not have, or maps to the empty
/// string, has no translation, whatever the binding.
pub proof fn lemma_unmapped_action(action: Seq<char>, binding: Seq<char>, keys: Pairs, actions: Pairs)
    requires
        lookup(actions, action) is None || lookup(actions, action) == Some(Seq::<char>::empty()),
    ensures
        translated(action, binding, keys, actions) is None,
{
}

/// The binding `disabled` has no token but itself.
pub proof fn lemma_tokens_of_sentinel()
    ensures
        tokens(sentinel()) == seq![sentinel()],
{
    reveal_strlit("disabled");
    let s = sentinel();
    lemma_next_bracket(s, 0);
    let n = next_bracket(s, 0);
    if n < s.len() {
        assert(is_bracket(s[n]));
    }
    assert(s.subrange(0, s.len() as int) =~= s);
}

/// Every token has at least one character.
pub proof fn lemma_tokens_not_empty(s: Seq<char>, i: int)
    requires
        0 <= i,
    ensures
        forall|k: int| 0 <= k < tokens_from(s, i).len() ==> (#[trigger] tokens_from(s, i)[k]).len() > 0,
    decreases s.len() - i,
{
    let all = tokens_from(s, i);
    if i < s.len() {
        lemma_next_bracket(s, i);
        let n = next_bracket(s, i);
        if n == i {
            lemma_tokens_not_empty(s, i + 1);
            assert(all == tokens_from(s, i + 1));
        } else if n < s.len() {
            lemma_tokens_not_empty(s, n + 1);
            let rest = tokens_from(s, n + 1);
            assert(all == seq![s.subrange(i, n)] + rest);
            assert forall|k: int| 0 <= k < all.len() implies (#[trigger] all[k]).len() > 0 by {
                if k > 0 {
                    assert(all[k] == rest[k - 1]);
                } else {
                    assert(all[0] == s.subrange(i, n));
                }
            }
        } else {
            assert(all == seq![s.subrange(i, s.len() as int)]);
            assert forall|k: int| 0 <= k < all.len() implies (#[trigger] all[k]).len() > 0 by {
                assert(all[0] == s.subrange(i, s.len() as int));
            }
        }
    } else {
        assert(all.len() == 0);
    }
}

/// Whether the key table gives the word `disabled` a name of its own, so
/// that it stands for a key like any other.
pub open spec fn renames_sentinel(keys: Pairs) -> bool {
    lookup(keys, sentinel()) matches Some(v) && v.len() > 0 && v != sentinel()
}

/// The binding `disabled` has no translation, unless the key table gives
/// that word a name of its own; and neither has a binding with a token that
/// the key table maps to the empty string or to `disabled`.
pub proof fn lemma_disabled(action: Seq<char>, binding: Seq<char>, keys: Pairs, actions: Pairs)
    requires
        (binding == sentinel() && !renames_sentinel(keys)) || exists|i: int|
            0 <= i < tokens(binding).len() && (lookup(keys, #[trigger] tokens(binding)[i]) == Some(sentinel())
                || lookup(keys, tokens(binding)[i]) == Some(Seq::<char>::empty())),
    ensures
        converted(binding, keys) is None,
        translated(action, binding, keys, actions) is None,
{
    if binding == sentinel() && !renames_sentinel(keys) {
        lemma_tokens_of_sentinel();
        assert(dropped(keys, tokens(binding)[0]));
    } else {
        let i = choose|i: int|
            0 <= i < tokens(binding).len() && (lookup(keys, #[trigger] tokens(binding)[i]) == Some(sentinel())
                || lookup(keys, tokens(binding)[i]) == Some(Seq::<char>::empty()));
        assert(dropped(keys, tokens(binding)[i]));
    }
}

/// A binding whose tokens the key table does not have, none of them
/// `disabled`, converts to these tokens unchanged, joined by `+`.
pub proof fn lemma_unmapped_tokens(binding: Seq<char>, keys: Pairs)
    requires
        tokens(binding).len() > 0,
        forall|i: int|
            0 <= i < tokens(binding).len() ==> lookup(keys, #[trigger] tokens(binding)[i]) is None && tokens(
                binding,
            )[i] != sentinel(),
    ensures
        converted(binding, keys) == Some(joined(tokens(binding))),
{
    lemma_tokens_not_empty(binding, 0);
    assert(resolved_all(keys, tokens(binding)) =~= tokens(binding));
}

/// A token that the key table maps to a name that is neither empty nor
/// `disabled` is replaced by that name, whatever the token is; so a binding
/// of such tokens has a translation.
pub proof fn lemma_renamed_tokens(binding: Seq<char>, keys: Pairs)
    requires
        tokens(binding).len() > 0,
        forall|i: int|
            0 <= i < tokens(binding).len() ==> (lookup(keys, #[trigger] tokens(binding)[i]) matches Some(v)
                && v.len() > 0 && v != sentinel()),
    ensures
        converted(binding, keys) == Some(joined(resolved_all(keys, tokens(binding)))),
        forall|i: int|
            0 <= i < tokens(binding).len() ==> Some(#[trigger] resolved_all(keys, tokens(binding))[i])
                == lookup(keys, tokens(binding)[i]),
{
}

/// An action-binding pair in the target notation.
#[derive(Clone, Debug, PartialEq, Eq)]
pub struct ActionBinding {
    pub action: String,
    pub binding: String,
}

impl View for ActionBinding {
    type V = (Seq<char>, Seq<char>);

    open spec fn view(&self) -> (Seq<char>, Seq<char>) {
        (self.action@, self.binding@)
    }
}

fn next_bracket_from(v: &Vec<char>, i: usize) -> (r: usize)
    requires
        i <= v.len(),
    ensures
        r == next_bracket(v@, i as int),
        i <= r <= v.len(),
{
    let mut k: usize = i;
    while k < v.len() && v[k] != '<' && v[k] != '>'
        invariant
            i <= k <= v.len(),
            next_bracket(v@, i as int) == next_bracket(v@, k as int),
        decreases v.len() - k,
    {
        k += 1;
    }
    k
}

/// Converts a binding from the source notation to the target notation.
///
/// The binding is cut at `<` and `>`; empty pieces are left out. Each token
/// is replaced by the name that `keys` gives it and kept as it is when `keys`
/// has none; the order of the tokens is kept. The result is the tokens joined
/// by `+`. There is none when the binding has no token, or what a token
/// becomes is the empty string or `disabled`: so a token `disabled` that
/// `keys` does not have drops the binding, and one that `keys` renames does
/// not.
pub fn convert_gnome_shortcut_to_ghostty(gnome_shortcut: &String, gnome_to_ghostty_shortcut: &Dictionary) -> (r:
    Option<String>)
    ensures
        match r {
            Some(b) => converted(gnome_shortcut@, gnome_to_ghostty_shortcut@) == Some(b@),
            None => converted(gnome_shortcut@, gnome_to_ghostty_shortcut@) is None,
        },
{
    let chars = chars_of(gnome_shortcut.as_str());
    let keys = gnome_to_ghostty_shortcut;
    let disabled = "disabled".to_owned();
    let mut out = String::new();
    let ghost mut done: Seq<Seq<char>> = Seq::empty();
    let mut any = false;
    let mut i: usize = 0;
    while i < chars.len()
        invariant
            i <= chars.len(),
            chars@ == gnome_shortcut@,
            keys == gnome_to_ghostty_shortcut,
            disabled@ == sentinel(),
            tokens(chars@) == done + tokens_from(chars@, i as int),
            !any_dropped(keys@, done),
            out@ == joined(resolved_all(keys@, done)),
            any == (done.len() > 0),
        decreases chars.len() - i,
    {
        let n = next_bracket_from(&chars, i);
        if n == i {
            i += 1;
        } else {
            let token = string_of(&chars, i, n);
            let ghost rest = tokens_from(chars@, n + 1);
            proof {
                assert(tokens(chars@) == (done + seq![token@]) + rest);
                assert((done + seq![token@]) =~= done.push(token@));
            }
            let value = match keys.get(&token) {
                Some(v) => v.clone(),
                None => token.clone(),
            };
            if value.as_str().is_empty() || value == disabled {
                proof {
                    let all = tokens(chars@);
                    assert(all[done.len() as int] == token@);
                    assert(dropped(keys@, all[done.len() as int]));
                }
                return None;
            }
            proof {
                let before = resolved_all(keys@, done);
                let after = resolved_all(keys@, done.push(token@));
                assert(after.drop_last() =~= before);
                assert(after.last() == value@);
                assert forall|k: int| 0 <= k < done.push(token@).len() implies !dropped(
                    keys@,
                    #[trigger] done.push(token@)[k],
                ) by {
                    if k < done.len() {
                        assert(done.push(token@)[k] == done[k]);
                    }
                }
            }
            if any {
                push_char(&mut out, '+');
            }
            any = true;
            out.append(value.as_str());
            proof {
                done = done.push(token@);
            }
            i = if n < chars.len() {
                n + 1
            } else {
                n
            };
        }
    }
    if !any {
        None
    } else {
        assert(tokens(chars@) =~= done);
        Some(out)
    }
}

/// Translates one shortcut of the source. There is no translation when the
/// action table has no target for the action, or an empty one, or when the
/// binding does not convert.
pub fn translate(action: &String, binding: &String, table: &MappingTable) -> (r: Option<ActionBinding>)
    ensures
        match r {
            Some(t) => translated(action@, binding@, table.keys@, table.actions@) == Some(t@),
            None => translated(action@, binding@, table.keys@, table.actions@) is None,
        },
{
    match table.actions.get(action) {
        None => None,
        Some(target) => {
            if target.as_str().is_empty() {
                return None;
            }
            match convert_gnome_shortcut_to_ghostty(binding, &table.keys) {
                None => None,
                Some(b) => Some(ActionBinding { action: target.clone(), binding: b }),
            }
        },
    }
}

/// Translates every shortcut of the source that has a translation. Where two
/// actions of the source have the same target, the later one stands.
pub fn convert_gnome_to_ghostty_shortcuts(gnome_shortcuts: &ShortcutSet, table: &MappingTable) -> (r:
    ShortcutSet)
    ensures
        r@ == put_all(Pairs::empty(), translated_all(gnome_shortcuts@, table.keys@, table.actions@)),
{
    let mut r = ShortcutSet::new();
    let n = gnome_shortcuts.len();
    let mut i: usize = 0;
    while i < n
        invariant
            i <= n,
            n == gnome_shortcuts@.len(),
            r@ == put_all(
                Pairs::empty(),
                translated_all(gnome_shortcuts@.take(i as int), table.keys@, table.actions@),
            ),
        decreases n - i,
    {
        let entry = gnome_shortcuts.entry(i);
        proof {
            let next = gnome_shortcuts@.take(i + 1);
            assert(next.drop_last() =~= gnome_shortcuts@.take(i as int));
            let rest = translated_all(next.drop_last(), table.keys@, table.actions@);
            match translated(entry.0@, entry.1@, table.keys@, table.actions@) {
                Some(t) => {
                    assert(rest.push(t).drop_last() =~= rest);
                },
                None => {},
            }
        }
        match translate(entry.0, entry.1, table) {
            Some(t) => {
                r.insert(t.action, t.binding);
            },
            None => {},
        }
        i += 1;
    }
    assert(gnome_shortcuts@.take(n as int) =~= gnome_shortcuts@);
    r
}

} // verus!
