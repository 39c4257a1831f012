//! The shortcuts of the source, read from a dump of its settings.

use crate::dictionary::{pairs_view, put_all, Pairs, ShortcutSet};
use crate::failure::Failure;
use vstd::prelude::*;

verus! {

#[verifier::external_type_specification]
#[verifier::external_body]
pub struct ExIniParseError(ini::ParseError);

/// The model of the sections of a settings dump: each with its name, if it
/// has one, and its entries.
pub type Sections = Seq<(Option<Seq<char>>, Pairs)>;

/// The sections that the `ini` crate reads from a text, in the order of the
/// text, or `None` where it rejects the text.
pub uninterp spec fn ini_sections(text: Seq<char>) -> Option<Seq<(Option<Seq<char>>, Seq<(Seq<char>, Seq<char>)>)>>;

/// The model of a vector of sections.
pub open spec fn sections_view(v: Seq<(Option<String>, Vec<(String, String)>)>) -> Sections {
    Seq::new(
        v.len(),
        |i: int|
            (
                match v[i].0 {
                    Some(name) => Some(name@),
                    None => None,
                },
                pairs_view(v[i].1@),
            ),
    )
}

/// The name of the section that holds the shortcuts.
pub open spec fn keybindings_name() -> Seq<char> {
    "legacy/keybindings"@
}

/// The entries of the first section with the given name, if there is one.
pub open spec fn section_named(sections: Sections, name: Seq<char>) -> Option<Pairs>
    decreases sections.len(),
{
    if sections.len() == 0 {
        None
    } else if sections[0].0 == Some(name) {
        Some(sections[0].1)
    } else {
        section_named(sections.drop_first(), name)
    }
}

/// `ini::Ini::load_from_str`, and the sections of the result with their
/// entries as plain strings, in the order in which `Ini::iter` and
/// `Properties::iter` give them. The contract gives the outcome a name and
/// says nothing else of it.
#[verifier::external_body]
fn load_ini(text: &str) -> (r: Result<Vec<(Option<String>, Vec<(String, String)>)>, ini::ParseError>)
    ensures
        match r {
            Ok(v) => ini_sections(text@) == Some(sections_view(v@)),
            Err(_) => ini_sections(text@) is None,
        },
{
    let conf = ini::Ini::load_from_str(text)?;
    Ok(
        conf.iter().map(
            |(name, props)|
                (
                    name.map(|n| n.to_string()),
                    props.iter().map(|(k, v)| (k.to_string(), v.to_string())).collect(),
                ),
        ).collect(),
    )
}

/// The shortcuts that the sections of a dump define: the entries of the
/// first section named `legacy/keybindings`, as action and binding. Of
/// several entries for one action the last stands.
pub fn keybindings_of(sections: &Vec<(Option<String>, Vec<(String, String)>)>) -> (r: Option<ShortcutSet>)
    ensures
        match r {
            Some(set) => section_named(sections_view(sections@), keybindings_name()) matches Some(entries)
                && set@ == put_all(Pairs::empty(), entries),
            None => section_named(sections_view(sections@), keybindings_name()) is None,
        },
{
    let wanted = "legacy/keybindings".to_owned();
    let ghost all = sections_view(sections@);
    let mut i: usize = 0;
    assert(all.skip(0) =~= all);
    while i < sections.len()
        invariant
            i <= sections.len(),
            wanted@ == keybindings_name(),
            all == sections_view(sections@),
            section_named(all, keybindings_name()) == section_named(all.skip(i as int), keybindings_name()),
        decreases sections.len() - i,
    {
        let ghost rest = all.skip(i as int);
        assert(rest[0] == all[i as int]);
        assert(rest.drop_first() =~= all.skip(i + 1));
        let hit = match &sections[i].0 {
            Some(name) => *name == wanted,
            None => false,
        };
        if hit {
            return Some(ShortcutSet::from_pairs(&sections[i].1));
        }
        i += 1;
    }
    None
}

/// Reads the shortcuts of the source from a dump of its settings.
///
/// The dump is malformed when the `ini` crate rejects it or when it has no
/// section `legacy/keybindings`. Else the result is what `keybindings_of`
/// gives on its sections.
pub fn get_gnome_shortcuts(dump: &str) -> (r: Result<ShortcutSet, Failure>)
    ensures
        match r {
            Ok(set) => ini_sections(dump@) matches Some(sections) && section_named(
                sections,
                keybindings_name(),
            ) matches Some(entries) && set@ == put_all(Pairs::empty(), entries),
            Err(e) => e == Failure::MalformedSourceData && (ini_sections(dump@) matches Some(sections)
                ==> section_named(sections, keybindings_name()) is None),
        },
{
    match load_ini(dump) {
        Err(_) => Err(Failure::MalformedSourceData),
        Ok(sections) => match keybindings_of(&sections) {
            Some(set) => Ok(set),
            None => Err(Failure::MalformedSourceData),
        },
    }
}

} // verus!
