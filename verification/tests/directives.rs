use ghosttify::directive::{includes_override, parse_include, parse_keybind};
use regex::Regex;

fn include_by_regex(re: &Regex, line: &str) -> Option<String> {
    re.captures(line).map(|cap| cap.get(1).map_or_else(|| cap[2].to_string(), |m| m.as_str().to_string()))
}

fn keybind_by_regex(re: &Regex, line: &str) -> Option<(String, String)> {
    re.captures(line).map(|cap| (cap[1].to_string(), cap[2].to_string()))
}

fn include_re() -> Regex {
    Regex::new(r#"config-file\s*=\s*(?:"([^"]+)"|([^"]+))\s*"#).unwrap()
}

fn keybind_re() -> Regex {
    Regex::new(r#"keybind\s*=\s*(.*)=\s*(.*)\s*"#).unwrap()
}

fn pair(a: &str, b: &str) -> Option<(String, String)> {
    Some((a.to_string(), b.to_string()))
}

#[test]
fn keybind_plain() {
    assert_eq!(parse_keybind("keybind = ctrl+c=copy"), pair("ctrl+c", "copy"));
    assert_eq!(parse_keybind("keybind=ctrl+c=copy"), pair("ctrl+c", "copy"));
    assert_eq!(parse_keybind("keybind   =\t ctrl+shift+v=  paste_from_clipboard"), pair("ctrl+shift+v", "paste_from_clipboard"));
}

#[test]
fn keybind_leaves_out_surrounding_white_space() {
    assert_eq!(parse_keybind("keybind   =   ctrl+c = copy"), pair("ctrl+c", "copy"));
    assert_eq!(parse_keybind("keybind = ctrl+c =copy  "), pair("ctrl+c", "copy"));
    assert_eq!(parse_keybind("keybind =\t ctrl+c\t=\tcopy\r"), pair("ctrl+c", "copy"));
    assert_eq!(parse_keybind("  keybind = ctrl+c = copy to clipboard \u{a0}"), pair("ctrl+c", "copy to clipboard"));
}

#[test]
fn keybind_keeps_white_space_inside() {
    assert_eq!(parse_keybind("keybind = ctrl + c = copy  it"), pair("ctrl + c", "copy  it"));
}

#[test]
fn keybind_trigger_runs_to_the_last_equal_sign() {
    assert_eq!(parse_keybind("keybind = a=b=c"), pair("a=b", "c"));
    assert_eq!(parse_keybind("keybind = ctrl+==text:x=y"), pair("ctrl+==text:x", "y"));
    assert_eq!(parse_keybind("keybind = a = b = c"), pair("a = b", "c"));
}

#[test]
fn keybind_needs_both_equal_signs() {
    assert_eq!(parse_keybind("keybind = ctrl+c"), None);
    assert_eq!(parse_keybind("keybind ctrl+c=copy"), None);
    assert_eq!(parse_keybind("font-size = 12"), None);
    assert_eq!(parse_keybind(""), None);
}

#[test]
fn keybind_may_be_empty() {
    assert_eq!(parse_keybind("keybind=="), pair("", ""));
    assert_eq!(parse_keybind("keybind = =copy"), pair("", "copy"));
    assert_eq!(parse_keybind("keybind = a =  "), pair("a", ""));
}

#[test]
fn keybind_begins_its_line() {
    assert_eq!(parse_keybind("  \tkeybind = ctrl+c=copy"), pair("ctrl+c", "copy"));
    assert_eq!(parse_keybind("# keybind = ctrl+c=copy"), None);
    assert_eq!(parse_keybind("keybind keybind = a=b"), None);
    assert_eq!(parse_keybind("xkeybind = a=b"), None);
    assert_eq!(parse_keybind("keybinds = a=b"), None);
    assert_eq!(parse_keybind("keybind = keybind = a=b"), pair("keybind = a", "b"));
}

#[test]
fn include_plain_and_quoted() {
    assert_eq!(parse_include("config-file = themes"), Some("themes".to_string()));
    assert_eq!(parse_include("config-file=themes"), Some("themes".to_string()));
    assert_eq!(parse_include("config-file = \"themes\""), Some("themes".to_string()));
    assert_eq!(parse_include("config-file = \"my themes\""), Some("my themes".to_string()));
    assert_eq!(parse_include("config-file = my themes"), Some("my themes".to_string()));
}

#[test]
fn include_leaves_out_surrounding_white_space() {
    assert_eq!(parse_include("config-file = themes  "), Some("themes".to_string()));
    assert_eq!(parse_include("config-file\t=\tthemes\r"), Some("themes".to_string()));
    assert_eq!(parse_include("  config-file =   \"themes\" \t"), Some("themes".to_string()));
    assert_eq!(parse_include("config-file = \" themes \""), Some(" themes ".to_string()));
}

#[test]
fn include_takes_off_one_surrounding_pair_of_quotes() {
    assert_eq!(parse_include("config-file = \"\"a\"\""), Some("\"a\"".to_string()));
    assert_eq!(parse_include("config-file = \"a\" \"b\""), Some("a\" \"b".to_string()));
    assert_eq!(parse_include("config-file = \"themes"), Some("\"themes".to_string()));
    assert_eq!(parse_include("config-file = themes\""), Some("themes\"".to_string()));
    assert_eq!(parse_include("config-file = the\"mes"), Some("the\"mes".to_string()));
    assert_eq!(parse_include("config-file = \""), Some("\"".to_string()));
}

#[test]
fn include_without_a_name_is_no_directive() {
    assert_eq!(parse_include("config-file = \"\""), None);
    assert_eq!(parse_include("config-file ="), None);
    assert_eq!(parse_include("config-file =  \t "), None);
    assert_eq!(parse_include("config-file="), None);
    assert_eq!(parse_include("config-file"), None);
    assert_eq!(parse_include("config-file themes"), None);
    assert_eq!(parse_include(""), None);
}

#[test]
fn include_begins_its_line() {
    assert_eq!(parse_include(" \u{a0}config-file = a"), Some("a".to_string()));
    assert_eq!(parse_include("# config-file = a"), None);
    assert_eq!(parse_include("xconfig-file = a"), None);
    assert_eq!(parse_include("config-file config-file = b"), None);
    assert_eq!(parse_include("config-files = b"), None);
    assert_eq!(parse_include("config-file= config-file = b"), Some("config-file = b".to_string()));
}

#[test]
fn override_include() {
    assert!(includes_override("config-file=gnome-shortcuts"));
    assert!(includes_override("config-file = gnome-shortcuts"));
    assert!(includes_override("  config-file\t=  gnome-shortcuts  "));
    assert!(includes_override("config-file = \"gnome-shortcuts\""));
    assert!(includes_override("config-file=\"gnome-shortcuts\"\r"));
    assert!(!includes_override("config-file = gnome-shortcuts-old"));
    assert!(!includes_override("config-file = gnome-shortcuts # mine"));
    assert!(!includes_override("config-file = \" gnome-shortcuts\""));
    assert!(!includes_override("config-file = gnome-shortcut"));
    assert!(!includes_override("config-file = Gnome-Shortcuts"));
    assert!(!includes_override("config-file gnome-shortcuts"));
    assert!(!includes_override("gnome-shortcuts"));
    assert!(!includes_override("# config-file = gnome-shortcuts"));
    assert!(!includes_override("# Added by ghosttify"));
    assert!(!includes_override(""));
}

#[test]
fn unicode_white_space_counts() {
    assert_eq!(parse_keybind("keybind\u{a0}=\u{3000}a\u{2009}=\u{2003}b\u{205f}"), pair("a", "b"));
    assert_eq!(parse_include("config-file\u{2028}=\u{85}x\u{1680}"), Some("x".to_string()));
    assert_eq!(parse_keybind("keybind\u{200b}=a=b"), None);
    assert_eq!(parse_keybind("keybind = a\u{200b}=b"), pair("a\u{200b}", "b"));
}

#[test]
fn tidy_keybind_lines_agree_with_the_pattern() {
    let re = keybind_re();
    let gaps = ["", " ", "\t ", "\u{a0}", "   "];
    let triggers = ["a", "ctrl+c", "a=b", "ctrl + c", ""];
    let actions = ["copy", "goto_tab:1", "text:a b", ""];
    let heads = ["keybind", "  keybind", "\tkeybind", "\u{3000} keybind"];
    let mut count = 0;
    for head in heads {
        for g1 in gaps {
            for g2 in gaps {
                for g3 in gaps {
                    for t in triggers {
                        for a in actions {
                            let line = format!("{}{}={}{}={}{}", head, g1, g2, t, g3, a);
                            assert_eq!(parse_keybind(&line), keybind_by_regex(&re, &line), "line {:?}", line);
                            count += 1;
                        }
                    }
                }
            }
        }
    }
    assert_eq!(count, 10000);
}

#[test]
fn tidy_include_lines_agree_with_the_pattern() {
    let re = include_re();
    let gaps = ["", " ", "\t ", "\u{a0}", "   "];
    let names = ["a", "themes/dark", "my themes", "\"a\"", "\"my themes\"", "\"x\"\t"];
    let heads = ["config-file", "  config-file", "\tconfig-file", "\u{3000} config-file"];
    for head in heads {
        for g1 in gaps {
            for g2 in gaps {
                for n in names {
                    let line = format!("{}{}={}{}", head, g1, g2, n);
                    assert_eq!(parse_include(&line), include_by_regex(&re, &line), "line {:?}", line);
                }
            }
        }
    }
}
