//! The merge of translated shortcuts into the bindings already in effect:
//! which of them are written, which are held back, and the index of claimed
//! bindings that decides it.

use crate::dictionary::{
    distinct_keys, has_key, has_value, lemma_last_definition_exists, lemma_last_definition_wins, lemma_put_fresh,
    lookup, put_all, Dictionary, Pairs, ShortcutSet,
};
use crate::directive::{include_key, keybind_key, names_override, names_override_in, override_name};
use crate::text::{lines, push_char, rows, split_lines};
use vstd::prelude::*;

verus! {

/// `s` with key and value of each pair exchanged.
pub open spec fn swapped(s: Pairs) -> Pairs {
    Seq::new(s.len(), |i: int| (s[i].1, s[i].0))
}

/// Whether a translated shortcut is written. Without `avoid_conflict` every
/// one is. With it, a shortcut is written only if its action has no binding
/// in effect and its binding triggers no action in effect.
pub open spec fn accepted(effective: Pairs, avoid_conflict: bool, entry: (Seq<char>, Seq<char>)) -> bool {
    !avoid_conflict || (!has_key(effective, entry.0) && !has_value(effective, entry.1))
}

/// The translated shortcuts that are written, in their order.
pub open spec fn written_of(translated: Pairs, effective: Pairs, avoid_conflict: bool) -> Pairs
    decreases translated.len(),
{
    if translated.len() == 0 {
        Pairs::empty()
    } else {
        let rest = written_of(translated.drop_last(), effective, avoid_conflict);
        if accepted(effective, avoid_conflict, translated.last()) {
            rest.push(translated.last())
        } else {
            rest
        }
    }
}

/// The translated shortcuts that are held back, in their order.
pub open spec fn skipped_of(translated: Pairs, effective: Pairs, avoid_conflict: bool) -> Pairs
    decreases translated.len(),
{
    if translated.len() == 0 {
        Pairs::empty()
    } else {
        let rest = skipped_of(translated.drop_last(), effective, avoid_conflict);
        if accepted(effective, avoid_conflict, translated.last()) {
            rest
        } else {
            rest.push(translated.last())
        }
    }
}

/// Every shortcut written or held back is one of the translated ones.
pub proof fn lemma_partition_members(translated: Pairs, effective: Pairs, avoid_conflict: bool)
    ensures
        forall|k: int|
            0 <= k < written_of(translated, effective, avoid_conflict).len() ==> translated.contains(
                #[trigger] written_of(translated, effective, avoid_conflict)[k],
            ),
        forall|k: int|
            0 <= k < skipped_of(translated, effective, avoid_conflict).len() ==> translated.contains(
                #[trigger] skipped_of(translated, effective, avoid_conflict)[k],
            ),
    decreases translated.len(),
{
    if translated.len() > 0 {
        let init = translated.drop_last();
        lemma_partition_members(init, effective, avoid_conflict);
        let w = written_of(translated, effective, avoid_conflict);
        let s = skipped_of(translated, effective, avoid_conflict);
        assert(translated.last() == translated[translated.len() - 1]);
        assert forall|k: int| 0 <= k < w.len() implies translated.contains(#[trigger] w[k]) by {
            if k < written_of(init, effective, avoid_conflict).len() {
                let e = written_of(init, effective, avoid_conflict)[k];
                assert(init.contains(e));
                let j = choose|j: int| 0 <= j < init.len() && init[j] == e;
                assert(translated[j] == e);
            }
        }
        assert forall|k: int| 0 <= k < s.len() implies translated.contains(#[trigger] s[k]) by {
            if k < skipped_of(init, effective, avoid_conflict).len() {
                let e = skipped_of(init, effective, avoid_conflict)[k];
                assert(init.contains(e));
                let j = choose|j: int| 0 <= j < init.len() && init[j] == e;
                assert(translated[j] == e);
            }
        }
    }
}

/// Without `avoid_conflict` every translated shortcut is written and none is
/// held back.
pub proof fn lemma_all_written(translated: Pairs, effective: Pairs)
    ensures
        written_of(translated, effective, false) == translated,
        skipped_of(translated, effective, false) == Pairs::empty(),
    decreases translated.len(),
{
    if translated.len() > 0 {
        lemma_all_written(translated.drop_last(), effective);
        assert(translated.drop_last().push(translated.last()) =~= translated);
    }
}

/// With `avoid_conflict`, no written shortcut redefines an action in effect
/// or claims a binding in effect, and every held-back one does.
pub proof fn lemma_no_conflict_written(translated: Pairs, effective: Pairs)
    ensures
        forall|k: int|
            0 <= k < written_of(translated, effective, true).len() ==> {
                let e = #[trigger] written_of(translated, effective, true)[k];
                !has_key(effective, e.0) && !has_value(effective, e.1)
            },
        forall|k: int|
            0 <= k < skipped_of(translated, effective, true).len() ==> {
                let e = #[trigger] skipped_of(translated, effective, true)[k];
                has_key(effective, e.0) || has_value(effective, e.1)
            },
    decreases translated.len(),
{
    if translated.len() > 0 {
        let init = translated.drop_last();
        lemma_no_conflict_written(init, effective);
        let w = written_of(translated, effective, true);
        let s = skipped_of(translated, effective, true);
        assert forall|k: int| 0 <= k < w.len() implies !has_key(effective, (#[trigger] w[k]).0)
            && !has_value(effective, w[k].1) by {
            if k < written_of(init, effective, true).len() {
                assert(w[k] == written_of(init, effective, true)[k]);
            }
        }
        assert forall|k: int| 0 <= k < s.len() implies has_key(effective, (#[trigger] s[k]).0)
            || has_value(effective, s[k].1) by {
            if k < skipped_of(init, effective, true).len() {
                assert(s[k] == skipped_of(init, effective, true)[k]);
            }
        }
    }
}

/// The bindings that are claimed: for each binding in effect, an action
/// that it triggers. It is made from the shortcuts in effect for one merge.
#[derive(Debug)]
pub struct ConflictIndex {
    owners: Dictionary,
}

impl View for ConflictIndex {
    type V = Pairs;

    closed spec fn view(&self) -> Pairs {
        self.owners@
    }
}

/// A binding is a key of the reversed shortcuts exactly when it is a value
/// of the shortcuts.
pub proof fn lemma_index_claims(effective: Pairs, binding: Seq<char>)
    ensures
        has_key(put_all(Pairs::empty(), swapped(effective)), binding) == has_value(effective, binding),
{
    let defs = swapped(effective);
    lemma_last_definition_wins(Pairs::empty(), defs, binding);
    lemma_last_definition_exists(defs, binding);
    if has_value(effective, binding) {
        let i = choose|i: int| 0 <= i < effective.len() && (#[trigger] effective[i]).1 == binding;
        assert(defs[i].0 == binding);
    }
    if exists|i: int| 0 <= i < defs.len() && (#[trigger] defs[i]).0 == binding {
        let i = choose|i: int| 0 <= i < defs.len() && (#[trigger] defs[i]).0 == binding;
        assert(effective[i].1 == binding);
    }
}

impl ConflictIndex {
    /// The index that claims no binding.
    pub fn new() -> (r: ConflictIndex)
        ensures
            r@ == Pairs::empty(),
    {
        ConflictIndex { owners: Dictionary::new() }
    }

    /// The index of the bindings of the shortcuts in effect. Of several
    /// actions with one binding the last is its owner.
    pub fn build(effective: &ShortcutSet) -> (r: ConflictIndex)
        ensures
            r@ == put_all(Pairs::empty(), swapped(effective@)),
    {
        let mut owners = Dictionary::new();
        let n = effective.len();
        let mut i: usize = 0;
        while i < n
            invariant
                i <= n,
                n == effective@.len(),
                owners@ == put_all(Pairs::empty(), swapped(effective@).take(i as int)),
            decreases n - i,
        {
            let entry = effective.entry(i);
            proof {
                let next = swapped(effective@).take(i + 1);
                assert(next.drop_last() =~= swapped(effective@).take(i as int));
                assert(next.last() == (entry.1@, entry.0@));
            }
            owners.insert(entry.1.clone(), entry.0.clone());
            i += 1;
        }
        assert(swapped(effective@).take(n as int) =~= swapped(effective@));
        ConflictIndex { owners }
    }

    /// Whether some action in effect is triggered by the binding.
    pub fn claims(&self, binding: &String) -> (r: bool)
        ensures
            r == has_key(self@, binding@),
    {
        self.owners.contains_key(binding)
    }

    /// The action that owns the binding, if it is claimed.
    pub fn owner(&self, binding: &String) -> (r: Option<&String>)
        ensures
            match r {
                Some(action) => lookup(self@, binding@) == Some(action@),
                None => lookup(self@, binding@) is None,
            },
    {
        self.owners.get(binding)
    }
}

/// Splits the translated shortcuts into those to write and those held back.
pub fn merge(translated: &ShortcutSet, effective: &ShortcutSet, avoid_conflict: bool) -> (r: (
    ShortcutSet,
    ShortcutSet,
))
    ensures
        r.0@ == written_of(translated@, effective@, avoid_conflict),
        r.1@ == skipped_of(translated@, effective@, avoid_conflict),
{
    let mut written = ShortcutSet::new();
    let mut skipped = ShortcutSet::new();
    let index = if avoid_conflict {
        ConflictIndex::build(effective)
    } else {
        ConflictIndex::new()
    };
    let n = translated.len();
    let mut i: usize = 0;
    while i < n
        invariant
            i <= n,
            n == translated@.len(),
            distinct_keys(translated@),
            avoid_conflict ==> index@ == put_all(Pairs::empty(), swapped(effective@)),
            written@ == written_of(translated@.take(i as int), effective@, avoid_conflict),
            skipped@ == skipped_of(translated@.take(i as int), effective@, avoid_conflict),
        decreases n - i,
    {
        let entry = translated.entry(i);
        let ghost prefix = translated@.take(i as int);
        let ghost next = translated@.take(i + 1);
        proof {
            assert(next.drop_last() =~= prefix);
            assert(next.last() == translated@[i as int]);
            lemma_partition_members(prefix, effective@, avoid_conflict);
            assert forall|k: int| 0 <= k < written@.len() implies (#[trigger] written@[k]).0 != entry.0@ by {
                let e = written@[k];
                assert(prefix.contains(e));
                let j = choose|j: int| 0 <= j < prefix.len() && prefix[j] == e;
                assert(translated@[j] == e);
            }
            assert forall|k: int| 0 <= k < skipped@.len() implies (#[trigger] skipped@[k]).0 != entry.0@ by {
                let e = skipped@[k];
                assert(prefix.contains(e));
                let j = choose|j: int| 0 <= j < prefix.len() && prefix[j] == e;
                assert(translated@[j] == e);
            }
            lemma_put_fresh(written@, entry.0@, entry.1@);
            lemma_put_fresh(skipped@, entry.0@, entry.1@);
            lemma_index_claims(effective@, entry.1@);
        }
        let keep = !avoid_conflict || (!effective.contains_key(entry.0) && !index.claims(entry.1));
        if keep {
            written.insert(entry.0.clone(), entry.1.clone());
        } else {
            skipped.insert(entry.0.clone(), entry.1.clone());
        }
        i += 1;
    }
    assert(translated@.take(n as int) =~= translated@);
    (written, skipped)
}

/// How many of the lines include the override file.
pub open spec fn override_count(ls: Seq<Seq<char>>) -> nat
    decreases ls.len(),
{
    if ls.len() == 0 {
        0
    } else {
        override_count(ls.drop_last()) + if names_override(ls.last()) {
            1nat
        } else {
            0nat
        }
    }
}

/// Whether a root configuration text includes the override file.
pub open spec fn wired(root: Seq<char>) -> bool {
    override_count(lines(root)) > 0
}

/// The comment that marks what is added to the root configuration.
pub open spec fn marker() -> Seq<char> {
    "# Added by ghosttify"@
}

/// The text that wires the override file into the root configuration: a line
/// feed, the marker as a line, and the include directive as a line.
pub open spec fn wiring() -> Seq<char> {
    seq!['\n'] + marker() + seq!['\n'] + include_key() + seq!['='] + override_name() + seq!['\n']
}

/// The directive line that binds `binding` to `action`, with its line feed.
pub open spec fn keybind_line(action: Seq<char>, binding: Seq<char>) -> Seq<char> {
    keybind_key() + seq![' ', '=', ' '] + binding + seq!['='] + action + seq!['\n']
}

/// The directive lines of the shortcuts, one after the other.
pub open spec fn keybind_lines(shortcuts: Pairs) -> Seq<char>
    decreases shortcuts.len(),
{
    if shortcuts.len() == 0 {
        Seq::empty()
    } else {
        keybind_lines(shortcuts.drop_last()) + keybind_line(shortcuts.last().0, shortcuts.last().1)
    }
}

/// Whether a root configuration text includes the override file.
pub fn is_wired(root: &str) -> (r: bool)
    ensures
        r == wired(root@),
{
    let ls = split_lines(root);
    let mut found = false;
    let mut i: usize = 0;
    while i < ls.len()
        invariant
            i <= ls.len(),
            found == (override_count(rows(ls@).take(i as int)) > 0),
        decreases ls.len() - i,
    {
        proof {
            let next = rows(ls@).take(i + 1);
            assert(next.drop_last() =~= rows(ls@).take(i as int));
            assert(next.last() == ls@[i as int]@);
        }
        if names_override_in(&ls[i]) {
            found = true;
        }
        i += 1;
    }
    assert(rows(ls@).take(ls.len() as int) =~= rows(ls@));
    found
}

/// The text that wires the override file into the root configuration.
pub fn wiring_text() -> (r: String)
    ensures
        r@ == wiring(),
{
    let mut r = String::new();
    push_char(&mut r, '\n');
    r.append("# Added by ghosttify");
    push_char(&mut r, '\n');
    r.append("config-file");
    push_char(&mut r, '=');
    r.append("gnome-shortcuts");
    push_char(&mut r, '\n');
    assert(r@ =~= wiring());
    r
}

/// The directive lines of the shortcuts, one after the other.
pub fn keybind_text(shortcuts: &ShortcutSet) -> (r: String)
    ensures
        r@ == keybind_lines(shortcuts@),
{
    let mut r = String::new();
    let n = shortcuts.len();
    let mut i: usize = 0;
    while i < n
        invariant
            i <= n,
            n == shortcuts@.len(),
            r@ == keybind_lines(shortcuts@.take(i as int)),
        decreases n - i,
    {
        let entry = shortcuts.entry(i);
        let ghost before = r@;
        proof {
            let next = shortcuts@.take(i + 1);
            assert(next.drop_last() =~= shortcuts@.take(i as int));
            assert(next.last() == shortcuts@[i as int]);
        }
        r.append("keybind");
        push_char(&mut r, ' ');
        push_char(&mut r, '=');
        push_char(&mut r, ' ');
        r.append(entry.1.as_str());
        push_char(&mut r, '=');
        r.append(entry.0.as_str());
        push_char(&mut r, '\n');
        assert(r@ =~= before + keybind_line(entry.0@, entry.1@));
        i += 1;
    }
    assert(shortcuts@.take(n as int) =~= shortcuts@);
    r
}

/// What a merge does to the configuration.
#[derive(Debug)]
pub struct MergePlan {
    /// The text to append to the root configuration file, if any.
    pub root_append: Option<String>,
    /// The text to append to the override file, which is made first if it
    /// does not exist. What the file holds already stays.
    pub override_append: String,
    /// The shortcuts that `override_append` defines.
    pub written: ShortcutSet,
    /// The shortcuts that were held back.
    pub skipped: ShortcutSet,
}

/// Plans the merge of the translated shortcuts into the configuration.
///
/// A root configuration that does not include the override file yet gets
/// the wiring appended. The translated shortcuts are split into those to
/// write and those held back, and each of the former becomes one directive
/// line to append to the override file. Nothing is ever taken out of either
/// file.
pub fn update_ghostty_config(
    root: &str,
    converted_gnome_shortcuts: &ShortcutSet,
    ghostty_shortcuts: &ShortcutSet,
    avoid_conflict: bool,
) -> (plan: MergePlan)
    ensures
        match plan.root_append {
            Some(text) => !wired(root@) && text@ == wiring(),
            None => wired(root@),
        },
        plan.written@ == written_of(converted_gnome_shortcuts@, ghostty_shortcuts@, avoid_conflict),
        plan.skipped@ == skipped_of(converted_gnome_shortcuts@, ghostty_shortcuts@, avoid_conflict),
        plan.override_append@ == keybind_lines(plan.written@),
{
    let found = is_wired(root);
    let root_append = if found {
        None
    } else {
        Some(wiring_text())
    };
    let (written, skipped) = merge(converted_gnome_shortcuts, ghostty_shortcuts, avoid_conflict);
    let override_append = keybind_text(&written);
    MergePlan { root_append, override_append, written, skipped }
}

} // verus!
