//! Dictionaries: finite mappings from strings to strings, kept in the order in
//! which the keys were first defined. Shortcut sets and the lookup tables of
//! the translation are dictionaries.

use vstd::prelude::*;

verus! {

/// The model of a list of (key, value) pairs.
pub type Pairs = Seq<(Seq<char>, Seq<char>)>;

/// The model of a vector of pairs of strings.
pub open spec fn pairs_view(v: Seq<(String, String)>) -> Pairs {
    Seq::new(v.len(), |i: int| (v[i].0@, v[i].1@))
}

/// Index of the first pair of `s` whose key is `key`, or the length of `s`
/// when no pair has it.
pub open spec fn index_of(s: Pairs, key: Seq<char>) -> int
    decreases s.len(),
{
    if s.len() == 0 {
        0
    } else if s[0].0 == key {
        0
    } else {
        1 + index_of(s.drop_first(), key)
    }
}

/// Whether some pair of `s` has the key `key`.
pub open spec fn has_key(s: Pairs, key: Seq<char>) -> bool {
    index_of(s, key) < s.len()
}

/// Whether some pair of `s` has the value `value`.
pub open spec fn has_value(s: Pairs, value: Seq<char>) -> bool {
    exists|i: int| 0 <= i < s.len() && (#[trigger] s[i]).1 == value
}

/// The value that `s` gives to `key`, if any.
pub open spec fn lookup(s: Pairs, key: Seq<char>) -> Option<Seq<char>> {
    if has_key(s, key) {
        Some(s[index_of(s, key)].1)
    } else {
        None
    }
}

/// `s` with `key` bound to `value`: the pair that had the key is overwritten
/// where it stands, a new key goes to the end.
pub open spec fn put(s: Pairs, key: Seq<char>, value: Seq<char>) -> Pairs {
    if has_key(s, key) {
        s.update(index_of(s, key), (key, value))
    } else {
        s.push((key, value))
    }
}

/// The pairs of `defs` put one after the other into `acc`: a later
/// definition of a key overwrites an earlier one.
pub open spec fn put_all(acc: Pairs, defs: Pairs) -> Pairs
    decreases defs.len(),
{
    if defs.len() == 0 {
        acc
    } else {
        put(put_all(acc, defs.drop_last()), defs.last().0, defs.last().1)
    }
}

/// No two pairs of `s` have the same key.
pub open spec fn distinct_keys(s: Pairs) -> bool {
    forall|i: int, j: int| 0 <= i < j < s.len() ==> (#[trigger] s[i]).0 != (#[trigger] s[j]).0
}

/// The index of a key lies within `s` or is its length; no pair before it
/// has the key, and the pair at it has.
pub proof fn lemma_index_of(s: Pairs, key: Seq<char>)
    ensures
        0 <= index_of(s, key) <= s.len(),
        forall|k: int| 0 <= k < index_of(s, key) ==> (#[trigger] s[k]).0 != key,
        index_of(s, key) < s.len() ==> s[index_of(s, key)].0 == key,
    decreases s.len(),
{
    if s.len() > 0 && s[0].0 != key {
        let t = s.drop_first();
        lemma_index_of(t, key);
        assert forall|k: int| 0 <= k < index_of(s, key) implies (#[trigger] s[k]).0 != key by {
            if k > 0 {
                assert(s[k] == t[k - 1]);
            }
        }
    }
}

/// A key is found at index `i` when the pair there has it and none before
/// does.
pub proof fn lemma_index_of_is(s: Pairs, key: Seq<char>, i: int)
    requires
        0 <= i <= s.len(),
        forall|k: int| 0 <= k < i ==> (#[trigger] s[k]).0 != key,
        i < s.len() ==> s[i].0 == key,
    ensures
        index_of(s, key) == i,
{
    lemma_index_of(s, key);
    let j = index_of(s, key);
    if j < i {
        assert(s[j].0 != key);
    } else if j > i {
        assert(s[i].0 != key);
    }
}

/// Putting a pair keeps the keys distinct, binds the key, and leaves every
/// other key as it was.
pub proof fn lemma_put(s: Pairs, key: Seq<char>, value: Seq<char>)
    requires
        distinct_keys(s),
    ensures
        distinct_keys(put(s, key, value)),
        lookup(put(s, key, value), key) == Some(value),
        forall|other: Seq<char>| other != key ==> lookup(put(s, key, value), other) == lookup(s, other),
{
    lemma_index_of(s, key);
    let t = put(s, key, value);
    let i = index_of(s, key);
    lemma_index_of_is(t, key, i);
    assert forall|other: Seq<char>| other != key implies lookup(t, other) == lookup(s, other) by {
        lemma_index_of(s, other);
        let j = index_of(s, other);
        if j < s.len() {
            lemma_index_of_is(t, other, j);
        } else {
            lemma_index_of_is(t, other, t.len() as int);
        }
    }
}

/// Putting a key that `s` does not have appends the pair.
pub proof fn lemma_put_fresh(s: Pairs, key: Seq<char>, value: Seq<char>)
    requires
        forall|k: int| 0 <= k < s.len() ==> (#[trigger] s[k]).0 != key,
    ensures
        put(s, key, value) == s.push((key, value)),
{
    lemma_index_of_is(s, key, s.len() as int);
}

/// Putting definitions one after the other keeps the keys distinct.
pub proof fn lemma_put_all_distinct(acc: Pairs, defs: Pairs)
    requires
        distinct_keys(acc),
    ensures
        distinct_keys(put_all(acc, defs)),
    decreases defs.len(),
{
    if defs.len() > 0 {
        lemma_put_all_distinct(acc, defs.drop_last());
        lemma_put(put_all(acc, defs.drop_last()), defs.last().0, defs.last().1);
    }
}

/// Putting two lists of definitions one after the other is putting their
/// concatenation.
pub proof fn lemma_put_all_concat(acc: Pairs, a: Pairs, b: Pairs)
    ensures
        put_all(acc, a + b) == put_all(put_all(acc, a), b),
    decreases b.len(),
{
    if b.len() == 0 {
        assert(a + b =~= a);
    } else {
        lemma_put_all_concat(acc, a, b.drop_last());
        assert((a + b).drop_last() =~= a + b.drop_last());
        assert((a + b).last() == b.last());
    }
}

/// The value of the last pair of `defs` that has the key `key`, if any.
pub open spec fn last_definition(defs: Pairs, key: Seq<char>) -> Option<Seq<char>>
    decreases defs.len(),
{
    if defs.len() == 0 {
        None
    } else if defs.last().0 == key {
        Some(defs.last().1)
    } else {
        last_definition(defs.drop_last(), key)
    }
}

/// A key has a last definition exactly when some pair defines it.
pub proof fn lemma_last_definition_exists(defs: Pairs, key: Seq<char>)
    ensures
        last_definition(defs, key) is Some <==> exists|i: int| 0 <= i < defs.len() && (#[trigger] defs[i]).0 == key,
    decreases defs.len(),
{
    if defs.len() > 0 {
        let init = defs.drop_last();
        lemma_last_definition_exists(init, key);
        if defs.last().0 == key {
            assert(defs[defs.len() - 1].0 == key);
        } else {
            if exists|i: int| 0 <= i < init.len() && (#[trigger] init[i]).0 == key {
                let i = choose|i: int| 0 <= i < init.len() && (#[trigger] init[i]).0 == key;
                assert(defs[i].0 == key);
            }
            if exists|i: int| 0 <= i < defs.len() && (#[trigger] defs[i]).0 == key {
                let i = choose|i: int| 0 <= i < defs.len() && (#[trigger] defs[i]).0 == key;
                assert(init[i].0 == key);
            }
        }
    }
}

/// Shadowing: of several definitions of a key, the last one stands; a key
/// that `defs` does not define keeps what it had.
pub proof fn lemma_last_definition_wins(acc: Pairs, defs: Pairs, key: Seq<char>)
    requires
        distinct_keys(acc),
    ensures
        lookup(put_all(acc, defs), key) == match last_definition(defs, key) {
            Some(v) => Some(v),
            None => lookup(acc, key),
        },
    decreases defs.len(),
{
    if defs.len() > 0 {
        let init = defs.drop_last();
        lemma_last_definition_wins(acc, init, key);
        lemma_put_all_distinct(acc, init);
        lemma_put(put_all(acc, init), defs.last().0, defs.last().1);
    }
}

/// A finite mapping from strings to strings. Each key occurs once; the order
/// is that in which the keys were first inserted.
#[derive(Debug)]
pub struct Dictionary {
    entries: Vec<(String, String)>,
}

/// A mapping from an action to the binding that triggers it.
pub type ShortcutSet = Dictionary;

impl View for Dictionary {
    type V = Pairs;

    closed spec fn view(&self) -> Pairs {
        Seq::new(self.entries@.len(), |i: int| (self.entries@[i].0@, self.entries@[i].1@))
    }
}

impl Dictionary {
    #[verifier::type_invariant]
    spec fn inv(self) -> bool {
        distinct_keys(self@)
    }

    /// The empty dictionary.
    pub fn new() -> (r: Dictionary)
        ensures
            r@ == Pairs::empty(),
    {
        Dictionary { entries: Vec::new() }
    }

    /// The number of keys. No key occurs twice.
    pub fn len(&self) -> (n: usize)
        ensures
            n == self@.len(),
            distinct_keys(self@),
    {
        proof {
            use_type_invariant(self);
        }
        self.entries.len()
    }

    /// Whether the dictionary has no key.
    pub fn is_empty(&self) -> (r: bool)
        ensures
            r == (self@.len() == 0),
    {
        self.entries.len() == 0
    }

    /// The key and the value at position `i`.
    pub fn entry(&self, i: usize) -> (r: (&String, &String))
        requires
            i < self@.len(),
        ensures
            r.0@ == self@[i as int].0,
            r.1@ == self@[i as int].1,
    {
        (&self.entries[i].0, &self.entries[i].1)
    }

    fn position(&self, key: &String) -> (i: usize)
        ensures
            i == index_of(self@, key@),
            i <= self@.len(),
    {
        let mut i: usize = 0;
        while i < self.entries.len()
            invariant
                i <= self.entries@.len(),
                forall|k: int| 0 <= k < i ==> (#[trigger] self@[k]).0 != key@,
            decreases self.entries@.len() - i,
        {
            if self.entries[i].0 == *key {
                proof {
                    lemma_index_of_is(self@, key@, i as int);
                }
                return i;
            }
            i += 1;
        }
        proof {
            lemma_index_of_is(self@, key@, i as int);
        }
        i
    }

    /// Whether the key has a value.
    pub fn contains_key(&self, key: &String) -> (r: bool)
        ensures
            r == has_key(self@, key@),
    {
        self.position(key) < self.entries.len()
    }

    /// Whether some key has the value.
    pub fn contains_value(&self, value: &String) -> (r: bool)
        ensures
            r == has_value(self@, value@),
    {
        let mut i: usize = 0;
        while i < self.entries.len()
            invariant
                i <= self.entries@.len(),
                forall|k: int| 0 <= k < i ==> (#[trigger] self@[k]).1 != value@,
            decreases self.entries@.len() - i,
        {
            if self.entries[i].1 == *value {
                assert(self@[i as int].1 == value@);
                return true;
            }
            i += 1;
        }
        false
    }

    /// The value of the key, if it has one.
    pub fn get(&self, key: &String) -> (r: Option<&String>)
        ensures
            match r {
                Some(v) => lookup(self@, key@) == Some(v@),
                None => lookup(self@, key@) is None,
            },
    {
        let i = self.position(key);
        if i < self.entries.len() {
            Some(&self.entries[i].1)
        } else {
            None
        }
    }

    /// Binds the key, overwriting the value it had.
    pub fn insert(&mut self, key: String, value: String)
        ensures
            final(self)@ == put(old(self)@, key@, value@),
            distinct_keys(final(self)@),
    {
        let i = self.position(&key);
        proof {
            use_type_invariant(&*self);
            lemma_put(self@, key@, value@);
        }
        let ghost before = self@;
        let mut entries: Vec<(String, String)> = Vec::new();
        std::mem::swap(&mut entries, &mut self.entries);
        if i < entries.len() {
            entries.set(i, (key, value));
        } else {
            entries.push((key, value));
        }
        proof {
            let after = Seq::new(entries@.len(), |k: int| (entries@[k].0@, entries@[k].1@));
            assert(after =~= put(before, key@, value@));
        }
        self.entries = entries;
        assert(self@ =~= put(before, key@, value@));
    }

    /// Binds the keys of the pairs one after the other, a later definition
    /// of a key overwriting an earlier one.
    pub fn insert_all(&mut self, pairs: &Vec<(String, String)>)
        ensures
            final(self)@ == put_all(old(self)@, pairs_view(pairs@)),
    {
        let mut i: usize = 0;
        while i < pairs.len()
            invariant
                i <= pairs.len(),
                self@ == put_all(old(self)@, pairs_view(pairs@).take(i as int)),
            decreases pairs.len() - i,
        {
            proof {
                let next = pairs_view(pairs@).take(i + 1);
                assert(next.drop_last() =~= pairs_view(pairs@).take(i as int));
            }
            self.insert(pairs[i].0.clone(), pairs[i].1.clone());
            i += 1;
        }
        assert(pairs_view(pairs@).take(pairs.len() as int) =~= pairs_view(pairs@));
    }

    /// The dictionary that defines the pairs one after the other, a later
    /// definition of a key overwriting an earlier one.
    pub fn from_pairs(pairs: &Vec<(String, String)>) -> (r: Dictionary)
        ensures
            r@ == put_all(Pairs::empty(), pairs_view(pairs@)),
    {
        let mut r = Dictionary::new();
        r.insert_all(pairs);
        r
    }

    /// The entries as plain pairs of key and value, in order.
    pub fn to_pairs(&self) -> (r: Vec<(String, String)>)
        ensures
            pairs_view(r@) == self@,
    {
        let mut r: Vec<(String, String)> = Vec::new();
        let mut i: usize = 0;
        while i < self.entries.len()
            invariant
                i <= self.entries@.len(),
                r.len() == i,
                forall|k: int| 0 <= k < i ==> (#[trigger] r[k]).0@ == self@[k].0 && r[k].1@ == self@[k].1,
            decreases self.entries@.len() - i,
        {
            r.push((self.entries[i].0.clone(), self.entries[i].1.clone()));
            i += 1;
        }
        assert(pairs_view(r@) =~= self@);
        r
    }
}

} // verus!
