use ghosttify::config::{existing, include_targets, keybinds, resolve, ConfigNode, Discovery};
use ghosttify::text::split_lines;

fn lines_of(text: &str) -> Vec<String> {
    split_lines(text).into_iter().map(|l| l.into_iter().collect()).collect()
}

fn node(path: &str, text: &str) -> ConfigNode {
    ConfigNode { path: path.to_string(), text: text.to_string() }
}

fn names(v: &[&str]) -> Vec<String> {
    v.iter().map(|s| s.to_string()).collect()
}

fn pairs(v: &[(&str, &str)]) -> Vec<(String, String)> {
    v.iter().map(|(a, b)| (a.to_string(), b.to_string())).collect()
}

#[test]
fn lines_split_at_line_feeds() {
    assert_eq!(lines_of(""), Vec::<String>::new());
    assert_eq!(lines_of("a"), vec!["a"]);
    assert_eq!(lines_of("a\n"), vec!["a"]);
    assert_eq!(lines_of("a\nb"), vec!["a", "b"]);
    assert_eq!(lines_of("a\n\nb\n"), vec!["a", "", "b"]);
    assert_eq!(lines_of("\n"), vec![""]);
}

#[test]
fn lines_drop_one_carriage_return_before_a_line_feed() {
    assert_eq!(lines_of("a\r\nb\r\n"), vec!["a", "b"]);
    assert_eq!(lines_of("a\r\r\nb"), vec!["a\r", "b"]);
    assert_eq!(lines_of("a\rb\n"), vec!["a\rb"]);
    assert_eq!(lines_of("a\r"), vec!["a\r"]);
    assert_eq!(lines_of("\r\n"), vec![""]);
}

#[test]
fn lines_agree_with_the_standard_library() {
    let alphabet = ['a', '\n', '\r'];
    let mut texts = vec![String::new()];
    let mut last = vec![String::new()];
    for _ in 0..7 {
        let mut next = Vec::new();
        for s in &last {
            for c in alphabet {
                let mut t = s.clone();
                t.push(c);
                next.push(t);
            }
        }
        texts.extend(next.iter().cloned());
        last = next;
    }
    for text in texts {
        let expected: Vec<String> = text.lines().map(|l| l.to_string()).collect();
        assert_eq!(lines_of(&text), expected, "text {:?}", text);
    }
}

#[test]
fn include_targets_in_line_order() {
    let text = "font-size = 12\nconfig-file = a \nkeybind = x=y\nconfig-file = \"b c\"\r\nconfig-file = a\nconfig-file =\n";
    assert_eq!(include_targets(text), names(&["a", "b c", "a"]));
    assert_eq!(include_targets(""), Vec::<String>::new());
}

#[test]
fn keybinds_in_line_order() {
    let text = "keybind = ctrl+c=copy\n# note\nkeybind = ctrl+v = paste \r\nkeybind = ctrl+x=copy";
    assert_eq!(keybinds(text), pairs(&[("copy", "ctrl+c"), ("paste", "ctrl+v"), ("copy", "ctrl+x")]));
}

#[test]
fn blanks_around_the_equal_signs_belong_to_nothing() {
    let nodes = vec![node("config", "keybind   =   ctrl+c = copy")];
    assert_eq!(resolve(&nodes).to_pairs(), pairs(&[("copy", "ctrl+c")]));
}

#[test]
fn existing_keeps_the_files_that_exist() {
    let found = vec![
        ("a".to_string(), true),
        ("gone".to_string(), false),
        ("b".to_string(), true),
        ("a".to_string(), true),
        ("also gone".to_string(), false),
    ];
    assert_eq!(existing(&found), names(&["a", "b", "a"]));
    assert_eq!(existing(&Vec::new()), Vec::<String>::new());
    assert_eq!(existing(&vec![("x".to_string(), false)]), Vec::<String>::new());
}

#[test]
fn missing_include_is_skipped() {
    let mut d = Discovery::new("config".to_string());
    d.advance(&existing(&vec![("gone".to_string(), false), ("a".to_string(), true)]));
    d.advance(&existing(&vec![("gone".to_string(), false)]));
    assert_eq!(d.pending(), None);
    assert_eq!(d.into_order(), names(&["config", "a"]));
}

#[test]
fn same_trigger_for_two_actions_keeps_both() {
    let nodes = vec![
        node("config", "config-file = b\nkeybind = ctrl+c=copy\n"),
        node("b", "keybind = ctrl+c=interrupt\n"),
    ];
    let set = resolve(&nodes);
    assert_eq!(set.to_pairs(), pairs(&[("copy", "ctrl+c"), ("interrupt", "ctrl+c")]));
}

#[test]
fn later_file_shadows_earlier_file() {
    let nodes = vec![
        node("config", "keybind = ctrl+c=copy\nkeybind = ctrl+v=paste\n"),
        node("b", "keybind = ctrl+shift+c=copy\n"),
    ];
    let set = resolve(&nodes);
    assert_eq!(set.get(&"copy".to_string()), Some(&"ctrl+shift+c".to_string()));
    assert_eq!(set.get(&"paste".to_string()), Some(&"ctrl+v".to_string()));
    assert_eq!(set.to_pairs(), pairs(&[("copy", "ctrl+shift+c"), ("paste", "ctrl+v")]));
}

#[test]
fn later_line_shadows_earlier_line() {
    let nodes = vec![node("config", "keybind = a=copy\nkeybind = b=copy\n")];
    assert_eq!(resolve(&nodes).to_pairs(), pairs(&[("copy", "b")]));
}

#[test]
fn file_without_content_adds_nothing() {
    let nodes = vec![node("config", "keybind = a=copy\n"), node("gone", ""), node("c", "keybind = b=paste")];
    assert_eq!(resolve(&nodes).to_pairs(), pairs(&[("copy", "a"), ("paste", "b")]));
    assert_eq!(resolve(&Vec::new()).len(), 0);
}

#[test]
fn node_reads_its_own_text() {
    let n = node("config", "config-file = a\nkeybind = ctrl+c=copy\nconfig-file = \"b\"\n");
    assert_eq!(n.includes(), names(&["a", "b"]));
    assert_eq!(n.bindings(), pairs(&[("copy", "ctrl+c")]));
}

#[test]
fn discovery_is_breadth_first() {
    let mut d = Discovery::new("config".to_string());
    assert_eq!(d.pending(), Some(&"config".to_string()));
    d.advance(&names(&["a", "b"]));
    assert_eq!(d.pending(), Some(&"a".to_string()));
    d.advance(&names(&["a1", "a2"]));
    assert_eq!(d.pending(), Some(&"b".to_string()));
    d.advance(&names(&["b1"]));
    assert_eq!(d.pending(), Some(&"a1".to_string()));
    d.advance(&names(&[]));
    d.advance(&names(&[]));
    d.advance(&names(&[]));
    assert_eq!(d.pending(), None);
    assert_eq!(d.into_order(), names(&["config", "a", "b", "a1", "a2", "b1"]));
}

#[test]
fn discovery_lists_no_file_twice() {
    let mut d = Discovery::new("config".to_string());
    d.advance(&names(&["a", "a", "config", "b"]));
    d.advance(&names(&["config", "b", "c"]));
    d.advance(&names(&["a"]));
    d.advance(&names(&["c"]));
    assert_eq!(d.pending(), None);
    assert_eq!(d.into_order(), names(&["config", "a", "b", "c"]));
}

#[test]
fn discovery_ends_on_a_cycle() {
    let mut d = Discovery::new("a".to_string());
    let mut steps = 0;
    while let Some(name) = d.pending() {
        let found = if name == "a" { names(&["b"]) } else { names(&["a"]) };
        d.advance(&found);
        steps += 1;
        assert!(steps < 10);
    }
    assert_eq!(steps, 2);
    assert_eq!(d.into_order(), names(&["a", "b"]));
}

#[test]
fn advance_without_pending_changes_nothing() {
    let mut d = Discovery::new("config".to_string());
    d.advance(&names(&[]));
    assert_eq!(d.pending(), None);
    d.advance(&names(&["late"]));
    assert_eq!(d.pending(), None);
    assert_eq!(d.into_order(), names(&["config"]));
}
