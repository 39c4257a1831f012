//! The lookup tables that drive the translation, and their reading from
//! JSON.

use crate::dictionary::{pairs_view, put_all, Dictionary, Pairs};
use std::collections::BTreeMap;
use vstd::prelude::*;

verus! {

#[verifier::external_type_specification]
#[verifier::external_body]
pub struct ExJsonError(serde_json::Error);

/// The model of named tables.
pub type Tables = Seq<(Seq<char>, Pairs)>;

/// The tables that `serde_json` reads from a text that is an object of
/// objects of strings, or `None` where it rejects the text.
pub uninterp spec fn json_tables(text: Seq<char>) -> Option<Seq<(Seq<char>, Seq<(Seq<char>, Seq<char>)>)>>;

/// The model of a vector of named tables.
pub open spec fn tables_view(v: Seq<(String, Vec<(String, String)>)>) -> Tables {
    Seq::new(v.len(), |i: int| (v[i].0@, pairs_view(v[i].1@)))
}

/// The entries of the first table with the given name, if there is one.
pub open spec fn table_named(tables: Tables, name: Seq<char>) -> Option<Pairs>
    decreases tables.len(),
{
    if tables.len() == 0 {
        None
    } else if tables[0].0 == name {
        Some(tables[0].1)
    } else {
        table_named(tables.drop_first(), name)
    }
}

/// Why a mapping table could not be read.
#[derive(Clone, Copy, Debug, PartialEq, Eq)]
pub enum TableError {
    /// The text is not a JSON object of objects of strings.
    Malformed,
    /// There is no table `keys`.
    MissingKeys,
    /// There is no table `actions`.
    MissingActions,
}

/// The two tables of the translation: from a key name of the source to that
/// of the target, and from an action of the source to that of the target.
/// They are filled once and only read afterwards.
#[derive(Debug)]
pub struct MappingTable {
    pub keys: Dictionary,
    pub actions: Dictionary,
}

/// `serde_json::from_str` into a map of maps of strings, ordered by key, and
/// the result as plain vectors in that order. The contract gives the
/// outcome a name and says nothing else of it.
#[verifier::external_body]
fn read_tables(text: &str) -> (r: Result<Vec<(String, Vec<(String, String)>)>, serde_json::Error>)
    ensures
        match r {
            Ok(v) => json_tables(text@) == Some(tables_view(v@)),
            Err(_) => json_tables(text@) is None,
        },
{
    let parsed: BTreeMap<String, BTreeMap<String, String>> = serde_json::from_str(text)?;
    Ok(parsed.into_iter().map(|(name, table)| (name, table.into_iter().collect())).collect())
}

fn find_table<'a>(tables: &'a Vec<(String, Vec<(String, String)>)>, name: &str) -> (r: Option<
    &'a Vec<(String, String)>,
>)
    ensures
        match r {
            Some(entries) => table_named(tables_view(tables@), name@) == Some(pairs_view(entries@)),
            None => table_named(tables_view(tables@), name@) is None,
        },
{
    let wanted = name.to_owned();
    let ghost all = tables_view(tables@);
    let mut i: usize = 0;
    assert(all.skip(0) =~= all);
    while i < tables.len()
        invariant
            i <= tables.len(),
            wanted@ == name@,
            all == tables_view(tables@),
            table_named(all, name@) == table_named(all.skip(i as int), name@),
        decreases tables.len() - i,
    {
        let ghost rest = all.skip(i as int);
        assert(rest[0] == all[i as int]);
        assert(rest.drop_first() =~= all.skip(i + 1));
        if tables[i].0 == wanted {
            return Some(&tables[i].1);
        }
        i += 1;
    }
    None
}

impl MappingTable {
    /// The mapping table made of the two tables.
    pub fn new(keys: Dictionary, actions: Dictionary) -> (r: MappingTable)
        ensures
            r.keys@ == keys@,
            r.actions@ == actions@,
    {
        MappingTable { keys, actions }
    }

    /// The mapping table that named tables hold: `keys` and `actions`. In
    /// each, of several entries for one name the last stands.
    pub fn from_tables(tables: &Vec<(String, Vec<(String, String)>)>) -> (r: Result<MappingTable, TableError>)
        ensures
            match r {
                Ok(table) => table_named(tables_view(tables@), "keys"@) matches Some(keys) && table_named(
                    tables_view(tables@),
                    "actions"@,
                ) matches Some(actions) && table.keys@ == put_all(Pairs::empty(), keys) && table.actions@
                    == put_all(Pairs::empty(), actions),
                Err(e) => e != TableError::Malformed && (e == TableError::MissingKeys <==> table_named(
                    tables_view(tables@),
                    "keys"@,
                ) is None) && (e == TableError::MissingActions ==> table_named(
                    tables_view(tables@),
                    "actions"@,
                ) is None),
            },
    {
        match find_table(tables, "keys") {
            None => Err(TableError::MissingKeys),
            Some(keys) => match find_table(tables, "actions") {
                None => Err(TableError::MissingActions),
                Some(actions) => Ok(
                    MappingTable { keys: Dictionary::from_pairs(keys), actions: Dictionary::from_pairs(actions) },
                ),
            },
        }
    }

    /// Reads a mapping table from JSON: an object with the members `keys`
    /// and `actions`, each an object of strings.
    pub fn from_json(text: &str) -> (r: Result<MappingTable, TableError>)
        ensures
            match r {
                Ok(table) => json_tables(text@) matches Some(tables) && table_named(tables, "keys"@) matches Some(
                    keys,
                ) && table_named(tables, "actions"@) matches Some(actions) && table.keys@ == put_all(
                    Pairs::empty(),
                    keys,
                ) && table.actions@ == put_all(Pairs::empty(), actions),
                Err(e) => match json_tables(text@) {
                    None => e == TableError::Malformed,
                    Some(tables) => if table_named(tables, "keys"@) is None {
                        e == TableError::MissingKeys
                    } else {
                        e == TableError::MissingActions && table_named(tables, "actions"@) is None
                    },
                },
            },
    {
        match read_tables(text) {
            Err(_) => Err(TableError::Malformed),
            Ok(tables) => MappingTable::from_tables(&tables),
        }
    }
}

} // verus!
