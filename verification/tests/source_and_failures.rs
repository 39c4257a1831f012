use ghosttify::dictionary::Dictionary;
use ghosttify::failure::Failure;
use ghosttify::source::{get_gnome_shortcuts, keybindings_of};

fn pairs(v: &[(&str, &str)]) -> Vec<(String, String)> {
    v.iter().map(|(a, b)| (a.to_string(), b.to_string())).collect()
}

#[test]
fn reads_the_keybindings_section() {
    let dump = "[legacy/profiles:]\ndefault='x'\n\n[legacy/keybindings]\ncopy='<Primary><Shift>c'\npaste=<Primary>v\nzoom-in=disabled\n";
    let set = get_gnome_shortcuts(dump).unwrap();
    assert_eq!(
        set.to_pairs(),
        pairs(&[("copy", "<Primary><Shift>c"), ("paste", "<Primary>v"), ("zoom-in", "disabled")])
    );
}

#[test]
fn dump_without_the_section_is_malformed() {
    assert_eq!(get_gnome_shortcuts("[other]\na=b\n").err(), Some(Failure::MalformedSourceData));
    assert_eq!(get_gnome_shortcuts("").err(), Some(Failure::MalformedSourceData));
}

#[test]
fn dump_that_does_not_parse_is_malformed() {
    assert_eq!(get_gnome_shortcuts("[legacy/keybindings\ncopy=x").err(), Some(Failure::MalformedSourceData));
    assert_eq!(get_gnome_shortcuts("[legacy/keybindings]\n=x\n").err(), Some(Failure::MalformedSourceData));
}

#[test]
fn empty_section_gives_an_empty_set() {
    assert_eq!(get_gnome_shortcuts("[legacy/keybindings]\n").unwrap().len(), 0);
}

#[test]
fn last_entry_of_an_action_stands() {
    let set = get_gnome_shortcuts("[legacy/keybindings]\ncopy=a\npaste=b\ncopy=c\n").unwrap();
    assert_eq!(set.to_pairs(), pairs(&[("copy", "c"), ("paste", "b")]));
}

#[test]
fn first_section_of_the_name_counts() {
    let sections = vec![
        (None, pairs(&[("copy", "general")])),
        (Some("other".to_string()), pairs(&[("copy", "other")])),
        (Some("legacy/keybindings".to_string()), pairs(&[("copy", "first"), ("copy", "again")])),
        (Some("legacy/keybindings".to_string()), pairs(&[("copy", "second")])),
    ];
    let set = keybindings_of(&sections).unwrap();
    assert_eq!(set.to_pairs(), pairs(&[("copy", "again")]));
    assert!(keybindings_of(&sections[..2].to_vec()).is_none());
    assert!(keybindings_of(&Vec::new()).is_none());
}

#[test]
fn which_failures_end_the_run() {
    let tool = Failure::ExternalToolFailure { command: "dconf".to_string() };
    let unreadable = Failure::UnreadableConfigFile { path: "themes".to_string() };
    let missing = Failure::MissingRootConfig { path: "config".to_string() };
    let write = Failure::WriteFailure { path: "gnome-shortcuts".to_string() };
    for applying in [false, true] {
        assert!(tool.is_fatal(applying));
        assert!(Failure::MalformedSourceData.is_fatal(applying));
        assert!(!unreadable.is_fatal(applying));
        assert!(write.is_fatal(applying));
    }
    assert!(missing.is_fatal(true));
    assert!(!missing.is_fatal(false));
}

#[test]
fn failures_name_their_subject() {
    assert_eq!(Failure::ExternalToolFailure { command: "dconf".to_string() }.subject(), Some(&"dconf".to_string()));
    assert_eq!(Failure::MalformedSourceData.subject(), None);
    assert_eq!(Failure::UnreadableConfigFile { path: "a".to_string() }.subject(), Some(&"a".to_string()));
    assert_eq!(Failure::MissingRootConfig { path: "b".to_string() }.subject(), Some(&"b".to_string()));
    assert_eq!(Failure::WriteFailure { path: "c".to_string() }.subject(), Some(&"c".to_string()));
}

#[test]
fn dictionary_keeps_first_positions_and_last_values() {
    let mut d = Dictionary::new();
    assert!(d.is_empty());
    d.insert("a".to_string(), "1".to_string());
    d.insert("b".to_string(), "2".to_string());
    d.insert("a".to_string(), "3".to_string());
    assert_eq!(d.len(), 2);
    assert_eq!(d.to_pairs(), pairs(&[("a", "3"), ("b", "2")]));
    assert_eq!(d.get(&"a".to_string()), Some(&"3".to_string()));
    assert_eq!(d.get(&"c".to_string()), None);
    assert!(d.contains_key(&"b".to_string()));
    assert!(!d.contains_key(&"2".to_string()));
    assert!(d.contains_value(&"2".to_string()));
    assert!(!d.contains_value(&"1".to_string()));
    assert_eq!(d.entry(1), (&"b".to_string(), &"2".to_string()));
    d.insert_all(&pairs(&[("c", "4"), ("b", "5"), ("c", "6")]));
    assert_eq!(d.to_pairs(), pairs(&[("a", "3"), ("b", "5"), ("c", "6")]));
}
