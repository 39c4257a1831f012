//! The directives of a configuration line that matter here: `keybind`, which
//! binds a trigger to an action, and `config-file`, which includes a file.
//!
//! A directive is a whole line: the keyword, `=`, and the value, with white
//! space allowed before, between and after them. A line that begins
//! otherwise, such as a comment, holds no directive.

use crate::text::{
    chars_of, has_at, has_at_index, is_space, lemma_rfind_char, lemma_skip_spaces, rfind_char, skip_spaces,
    skip_spaces_from, string_of, trim_end, trim_end_index,
};
use vstd::prelude::*;

verus! {

/// The keyword of a binding directive.
pub open spec fn keybind_key() -> Seq<char> {
    "keybind"@
}

/// The keyword of an include directive.
pub open spec fn include_key() -> Seq<char> {
    "config-file"@
}

/// The name of the file that holds the merged shortcuts.
pub open spec fn override_name() -> Seq<char> {
    "gnome-shortcuts"@
}

/// Where the value of a directive begins: `key` stands at `i`, then white
/// space as far as it goes, then `=`. The result is the index after the `=`.
pub open spec fn assign_at(s: Seq<char>, i: int, key: Seq<char>) -> Option<int> {
    let a = skip_spaces(s, i + key.len());
    if has_at(s, i, key) && a < s.len() && s[a] == '=' {
        Some(a + 1)
    } else {
        None
    }
}

/// The binding directive whose keyword stands at `i`, as (trigger, action).
///
/// What follows the keyword's `=` is cut at its last `=`: the trigger stands
/// before it and the action after it, each without the white space around
/// it.
pub open spec fn keybind_at(s: Seq<char>, i: int) -> Option<(Seq<char>, Seq<char>)> {
    match assign_at(s, i, keybind_key()) {
        Some(from) => {
            let p = rfind_char(s, '=', from, s.len() as int);
            let b = skip_spaces(s, from);
            let c = skip_spaces(s, p + 1);
            if p >= from {
                Some((s.subrange(b, trim_end(s, b, p)), s.subrange(c, trim_end(s, c, s.len() as int))))
            } else {
                None
            }
        },
        None => None,
    }
}

/// The include directive whose keyword stands at `i`, as the name of the
/// file.
///
/// The name is what follows the keyword's `=`, without the white space
/// around it and without the pair of double quotes around that, if there is
/// one. An empty name makes no directive.
pub open spec fn include_at(s: Seq<char>, i: int) -> Option<Seq<char>> {
    match assign_at(s, i, include_key()) {
        Some(from) => {
            let c = skip_spaces(s, from);
            let e = trim_end(s, c, s.len() as int);
            if e - c >= 2 && s[c] == '"' && s[e - 1] == '"' {
                if c + 1 < e - 1 {
                    Some(s.subrange(c + 1, e - 1))
                } else {
                    None
                }
            } else if c < e {
                Some(s.subrange(c, e))
            } else {
                None
            }
        },
        None => None,
    }
}

/// The binding directive of a line, as (trigger, action).
pub open spec fn keybind_of(line: Seq<char>) -> Option<(Seq<char>, Seq<char>)> {
    keybind_at(line, skip_spaces(line, 0))
}

/// The include directive of a line, as the name of the file.
pub open spec fn include_of(line: Seq<char>) -> Option<Seq<char>> {
    include_at(line, skip_spaces(line, 0))
}

/// Whether a line includes the override file: its include directive names
/// exactly that file, with or without quotes.
pub open spec fn names_override(line: Seq<char>) -> bool {
    include_of(line) == Some(override_name())
}

fn assign_at_index(v: &Vec<char>, i: usize, key: &Vec<char>) -> (r: Option<usize>)
    requires
        i <= v.len(),
    ensures
        match r {
            Some(from) => assign_at(v@, i as int, key@) == Some(from as int) && from <= v.len(),
            None => assign_at(v@, i as int, key@) is None,
        },
{
    if !has_at_index(v, i, key) {
        return None;
    }
    let a = skip_spaces_from(v, i + key.len());
    if a < v.len() && v[a] == '=' {
        Some(a + 1)
    } else {
        None
    }
}

fn rfind_char_in(v: &Vec<char>, c: char, lo: usize, hi: usize) -> (r: Option<usize>)
    requires
        lo <= hi <= v.len(),
    ensures
        match r {
            Some(p) => rfind_char(v@, c, lo as int, hi as int) == p && lo <= p < hi,
            None => rfind_char(v@, c, lo as int, hi as int) == lo - 1,
        },
{
    let mut k: usize = hi;
    while k > lo && v[k - 1] != c
        invariant
            lo <= k <= hi <= v.len(),
            rfind_char(v@, c, lo as int, hi as int) == rfind_char(v@, c, lo as int, k as int),
        decreases k,
    {
        k -= 1;
    }
    if k > lo {
        Some(k - 1)
    } else {
        None
    }
}

fn keybind_at_index(v: &Vec<char>, i: usize, key: &Vec<char>) -> (r: Option<(String, String)>)
    requires
        i <= v.len(),
        key@ == keybind_key(),
    ensures
        match r {
            Some(d) => keybind_at(v@, i as int) == Some((d.0@, d.1@)),
            None => keybind_at(v@, i as int) is None,
        },
{
    match assign_at_index(v, i, key) {
        None => None,
        Some(from) => {
            match rfind_char_in(v, '=', from, v.len()) {
                None => None,
                Some(p) => {
                    let b = skip_spaces_from(v, from);
                    proof {
                        lemma_skip_spaces(v@, from as int);
                        lemma_rfind_char(v@, '=', from as int, v@.len() as int);
                        if p < b {
                            assert(is_space(v@[p as int]));
                        }
                    }
                    let e = trim_end_index(v, b, p);
                    let c = skip_spaces_from(v, p + 1);
                    let f = trim_end_index(v, c, v.len());
                    Some((string_of(v, b, e), string_of(v, c, f)))
                },
            }
        },
    }
}

fn include_at_index(v: &Vec<char>, i: usize, key: &Vec<char>) -> (r: Option<String>)
    requires
        i <= v.len(),
        key@ == include_key(),
    ensures
        match r {
            Some(name) => include_at(v@, i as int) == Some(name@),
            None => include_at(v@, i as int) is None,
        },
{
    match assign_at_index(v, i, key) {
        None => None,
        Some(from) => {
            let c = skip_spaces_from(v, from);
            let e = trim_end_index(v, c, v.len());
            if e - c >= 2 && v[c] == '"' && v[e - 1] == '"' {
                if c + 1 < e - 1 {
                    Some(string_of(v, c + 1, e - 1))
                } else {
                    None
                }
            } else if c < e {
                Some(string_of(v, c, e))
            } else {
                None
            }
        },
    }
}

/// The binding directive of a line, as (trigger, action).
pub fn keybind_in(line: &Vec<char>) -> (r: Option<(String, String)>)
    ensures
        match r {
            Some(d) => keybind_of(line@) == Some((d.0@, d.1@)),
            None => keybind_of(line@) is None,
        },
{
    let key = chars_of("keybind");
    let start = skip_spaces_from(line, 0);
    keybind_at_index(line, start, &key)
}

/// The include directive of a line, as the name of the file.
pub fn include_in(line: &Vec<char>) -> (r: Option<String>)
    ensures
        match r {
            Some(name) => include_of(line@) == Some(name@),
            None => include_of(line@) is None,
        },
{
    let key = chars_of("config-file");
    let start = skip_spaces_from(line, 0);
    include_at_index(line, start, &key)
}

/// Whether a line includes the override file.
pub fn names_override_in(line: &Vec<char>) -> (r: bool)
    ensures
        r == names_override(line@),
{
    let wanted = "gnome-shortcuts".to_owned();
    match include_in(line) {
        Some(name) => name == wanted,
        None => false,
    }
}

/// The binding directive of a line, as (trigger, action).
pub fn parse_keybind(line: &str) -> (r: Option<(String, String)>)
    ensures
        match r {
            Some(d) => keybind_of(line@) == Some((d.0@, d.1@)),
            None => keybind_of(line@) is None,
        },
{
    let chars = chars_of(line);
    keybind_in(&chars)
}

/// The include directive of a line, as the name of the file.
pub fn parse_include(line: &str) -> (r: Option<String>)
    ensures
        match r {
            Some(name) => include_of(line@) == Some(name@),
            None => include_of(line@) is None,
        },
{
    let chars = chars_of(line);
    include_in(&chars)
}

/// Whether a line includes the override file.
pub fn includes_override(line: &str) -> (r: bool)
    ensures
        r == names_override(line@),
{
    let chars = chars_of(line);
    names_override_in(&chars)
}

} // verus!
