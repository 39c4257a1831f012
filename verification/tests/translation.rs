use ghosttify::dictionary::Dictionary;
use ghosttify::mapping::{MappingTable, TableError};
use ghosttify::translate::{
    convert_gnome_shortcut_to_ghostty, convert_gnome_to_ghostty_shortcuts, translate, ActionBinding,
};

fn dict(pairs: &[(&str, &str)]) -> Dictionary {
    let owned: Vec<(String, String)> = pairs.iter().map(|(k, v)| (k.to_string(), v.to_string())).collect();
    Dictionary::from_pairs(&owned)
}

fn sample_table() -> MappingTable {
    MappingTable::new(
        dict(&[("Primary", "ctrl"), ("Shift", "shift"), ("Hyper", ""), ("Menu", "disabled")]),
        dict(&[("copy", "copy-to-clipboard"), ("zoom-in", ""), ("paste-alt", "paste")]),
    )
}

fn convert(binding: &str, keys: &Dictionary) -> Option<String> {
    convert_gnome_shortcut_to_ghostty(&binding.to_string(), keys)
}

fn run(action: &str, binding: &str, table: &MappingTable) -> Option<ActionBinding> {
    translate(&action.to_string(), &binding.to_string(), table)
}

#[test]
fn translates_the_documented_example() {
    let table = sample_table();
    assert_eq!(
        run("copy", "<Primary><Shift>c", &table),
        Some(ActionBinding { action: "copy-to-clipboard".to_string(), binding: "ctrl+shift+c".to_string() })
    );
}

#[test]
fn action_without_a_target_gives_nothing() {
    let table = sample_table();
    assert_eq!(run("paste", "<Primary>v", &table), None);
    assert_eq!(run("paste", "", &table), None);
    assert_eq!(run("paste", "x", &table), None);
}

#[test]
fn action_mapped_to_empty_gives_nothing() {
    let table = sample_table();
    assert_eq!(run("zoom-in", "<Primary>plus", &table), None);
}

#[test]
fn disabled_binding_gives_nothing() {
    let table = sample_table();
    assert_eq!(run("copy", "disabled", &table), None);
    assert_eq!(convert("disabled", &Dictionary::new()), None);
}

#[test]
fn dropped_token_drops_the_whole_binding() {
    let table = sample_table();
    assert_eq!(run("copy", "<Primary><Hyper>c", &table), None);
    assert_eq!(run("copy", "<Menu>c", &table), None);
    assert_eq!(run("copy", "<Primary>disabled", &table), None);
}

#[test]
fn renamed_disabled_token_is_a_key_like_any_other() {
    let keys = dict(&[("disabled", "off")]);
    assert_eq!(convert("<x>disabled", &keys), Some("x+off".to_string()));
    assert_eq!(convert("disabled", &keys), Some("off".to_string()));
    assert_eq!(convert("<disabled><Shift>c", &keys), Some("off+Shift+c".to_string()));
}

#[test]
fn unmapped_disabled_token_drops_the_binding() {
    assert_eq!(convert("<x>disabled", &Dictionary::new()), None);
    assert_eq!(convert("<disabled>x", &dict(&[("x", "y")])), None);
    assert_eq!(convert("<x>disabled", &dict(&[("disabled", "disabled")])), None);
    assert_eq!(convert("<x>disabled", &dict(&[("disabled", "")])), None);
}

#[test]
fn token_renamed_to_disabled_drops_the_binding() {
    assert_eq!(convert("<x>y", &dict(&[("y", "disabled")])), None);
    assert_eq!(convert("<x>y", &dict(&[("x", "")])), None);
}

#[test]
fn unknown_tokens_pass_through() {
    assert_eq!(convert("<x>y", &Dictionary::new()), Some("x+y".to_string()));
    assert_eq!(convert("<x><y>", &Dictionary::new()), Some("x+y".to_string()));
}

#[test]
fn modifiers_alone_still_convert() {
    let table = sample_table();
    assert_eq!(convert("<Primary><Shift>", &table.keys), Some("ctrl+shift".to_string()));
}

#[test]
fn token_order_is_kept() {
    let table = sample_table();
    assert_eq!(convert("<Shift><Primary>c", &table.keys), Some("shift+ctrl+c".to_string()));
    assert_eq!(convert("c<Shift><Primary>", &table.keys), Some("c+shift+ctrl".to_string()));
}

#[test]
fn translating_twice_gives_the_same() {
    let table = sample_table();
    assert_eq!(run("copy", "<Primary><Shift>c", &table), run("copy", "<Primary><Shift>c", &table));
}

#[test]
fn binding_without_tokens_gives_nothing() {
    let table = sample_table();
    assert_eq!(convert("", &table.keys), None);
    assert_eq!(convert("<>", &table.keys), None);
    assert_eq!(convert("<<>>", &table.keys), None);
    assert_eq!(run("copy", "", &table), None);
}

#[test]
fn brackets_need_not_pair() {
    let keys = dict(&[("Primary", "ctrl")]);
    assert_eq!(convert("Primary>c", &keys), Some("ctrl+c".to_string()));
    assert_eq!(convert(">Primary<c", &keys), Some("ctrl+c".to_string()));
}

#[test]
fn translates_a_whole_set() {
    let table = sample_table();
    let source = dict(&[
        ("copy", "<Primary><Shift>c"),
        ("paste", "<Primary><Shift>v"),
        ("zoom-in", "<Primary>plus"),
        ("paste-alt", "<Shift>Insert"),
    ]);
    let out = convert_gnome_to_ghostty_shortcuts(&source, &table);
    assert_eq!(
        out.to_pairs(),
        vec![
            ("copy-to-clipboard".to_string(), "ctrl+shift+c".to_string()),
            ("paste".to_string(), "shift+Insert".to_string()),
        ]
    );
}

#[test]
fn later_source_action_overwrites_the_same_target() {
    let table = MappingTable::new(Dictionary::new(), dict(&[("a", "t"), ("b", "t")]));
    let source = dict(&[("a", "x"), ("b", "y")]);
    let out = convert_gnome_to_ghostty_shortcuts(&source, &table);
    assert_eq!(out.to_pairs(), vec![("t".to_string(), "y".to_string())]);
}

#[test]
fn reads_tables_from_json() {
    let text = r#"{"keys": {"Primary": "ctrl", "Shift": "shift"}, "actions": {"copy": "copy-to-clipboard"}}"#;
    let table = MappingTable::from_json(text).unwrap();
    assert_eq!(table.keys.get(&"Primary".to_string()), Some(&"ctrl".to_string()));
    assert_eq!(table.keys.get(&"Alt".to_string()), None);
    assert_eq!(
        run("copy", "<Primary><Shift>c", &table),
        Some(ActionBinding { action: "copy-to-clipboard".to_string(), binding: "ctrl+shift+c".to_string() })
    );
}

#[test]
fn json_duplicate_member_keeps_the_last() {
    let text = r#"{"keys": {"a": "1", "a": "2"}, "actions": {}}"#;
    let table = MappingTable::from_json(text).unwrap();
    assert_eq!(table.keys.get(&"a".to_string()), Some(&"2".to_string()));
    assert_eq!(table.keys.len(), 1);
}

#[test]
fn json_errors() {
    assert_eq!(MappingTable::from_json("not json").err(), Some(TableError::Malformed));
    assert_eq!(MappingTable::from_json(r#"{"keys": 3}"#).err(), Some(TableError::Malformed));
    assert_eq!(MappingTable::from_json(r#"{"actions": {}}"#).err(), Some(TableError::MissingKeys));
    assert_eq!(MappingTable::from_json(r#"{"keys": {}}"#).err(), Some(TableError::MissingActions));
    assert_eq!(MappingTable::from_json("{}").err(), Some(TableError::MissingKeys));
}

#[test]
fn tables_by_hand() {
    let tables = vec![
        ("actions".to_string(), vec![("copy".to_string(), "copy-to-clipboard".to_string())]),
        ("keys".to_string(), vec![("a".to_string(), "1".to_string()), ("a".to_string(), "2".to_string())]),
        ("keys".to_string(), vec![("a".to_string(), "3".to_string())]),
    ];
    let table = MappingTable::from_tables(&tables).unwrap();
    assert_eq!(table.keys.to_pairs(), vec![("a".to_string(), "2".to_string())]);
    assert_eq!(table.actions.to_pairs(), vec![("copy".to_string(), "copy-to-clipboard".to_string())]);
}
