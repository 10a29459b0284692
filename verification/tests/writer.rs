use ghostty_mcp::config::parser::{ConfigFile, ConfigLine};
use ghostty_mcp::config::writer::{append_option, comment_option, comment_option_value, set_option};

#[test]
fn set_option_new_key() {
    let mut config = ConfigFile::parse("font-size = 14\n", "/test");
    set_option(&mut config, "theme", "dark");
    assert_eq!(config.get("theme"), Some("dark".to_string()));
}

#[test]
fn set_option_updates_existing() {
    let mut config = ConfigFile::parse("font-size = 14\n", "/test");
    set_option(&mut config, "font-size", "16");
    assert_eq!(config.get("font-size"), Some("16".to_string()));
    // Should still have only 1 key-value line for font-size
    let count = config
        .lines
        .iter()
        .filter(|l| matches!(l, ConfigLine::KeyValue { key, .. } if key == "font-size"))
        .count();
    assert_eq!(count, 1);
}

#[test]
fn set_option_updates_last_of_repeated() {
    let mut config =
        ConfigFile::parse("font-family = Fira Code\nfont-family = Hack\n", "/test");
    set_option(&mut config, "font-family", "JetBrains Mono");
    // Last occurrence should be updated
    assert_eq!(
        config.get("font-family"),
        Some("JetBrains Mono".to_string())
    );
    // First occurrence should remain unchanged
    let values: Vec<_> = config.to_map().get("font-family").unwrap().clone();
    assert_eq!(values[0], "Fira Code");
    assert_eq!(values[1], "JetBrains Mono");
}

#[test]
fn set_option_adds_blank_line_separator() {
    let mut config = ConfigFile::parse("font-size = 14\n", "/test");
    set_option(&mut config, "theme", "dark");
    // Should have: KeyValue, Empty, KeyValue
    assert!(matches!(&config.lines[1], ConfigLine::Empty));
}

#[test]
fn comment_option_existing() {
    let mut config = ConfigFile::parse("font-size = 14\ntheme = dark\n", "/test");
    let found = comment_option(&mut config, "font-size");
    assert!(found);
    assert!(config.get("font-size").is_none());
    assert!(
        matches!(&config.lines[0], ConfigLine::Comment(s) if s.contains("font-size") && s.contains("14"))
    );
}

#[test]
fn comment_option_nonexistent() {
    let mut config = ConfigFile::parse("font-size = 14\n", "/test");
    let found = comment_option(&mut config, "theme");
    assert!(!found);
}

#[test]
fn comment_option_comments_all_occurrences() {
    let mut config =
        ConfigFile::parse("font-family = Fira Code\nfont-family = Hack\n", "/test");
    let found = comment_option(&mut config, "font-family");
    assert!(found);
    assert!(config.get("font-family").is_none());
    // Both lines should be comments now
    assert!(config
        .lines
        .iter()
        .all(|l| matches!(l, ConfigLine::Comment(_))));
}

#[test]
fn append_option_adds_new_entry() {
    let mut config = ConfigFile::parse("keybind = ctrl+a=new_tab\n", "/test");
    let appended = append_option(&mut config, "keybind", "ctrl+b=new_window");
    assert!(appended);
    let all = config.get_all("keybind");
    assert_eq!(all.len(), 2);
    assert_eq!(all[0], "ctrl+a=new_tab");
    assert_eq!(all[1], "ctrl+b=new_window");
}

#[test]
fn append_option_rejects_exact_duplicate() {
    let mut config = ConfigFile::parse("keybind = ctrl+a=new_tab\n", "/test");
    let appended = append_option(&mut config, "keybind", "ctrl+a=new_tab");
    assert!(!appended);
    assert_eq!(config.get_all("keybind").len(), 1);
}

#[test]
fn append_option_allows_same_trigger_different_action() {
    let mut config = ConfigFile::parse("keybind = ctrl+a=new_tab\n", "/test");
    let appended = append_option(&mut config, "keybind", "ctrl+a=new_window");
    assert!(appended);
    assert_eq!(config.get_all("keybind").len(), 2);
}

#[test]
fn append_option_groups_after_last_occurrence() {
    let mut config = ConfigFile::parse(
        "font-size = 14\nkeybind = ctrl+a=new_tab\ntheme = dark\n",
        "/test",
    );
    append_option(&mut config, "keybind", "ctrl+b=new_window");
    let output = config.to_string();
    let lines: Vec<&str> = output.lines().collect();
    let positions: Vec<usize> = lines
        .iter()
        .enumerate()
        .filter(|(_, l)| l.starts_with("keybind"))
        .map(|(i, _)| i)
        .collect();
    assert_eq!(positions.len(), 2);
    assert_eq!(positions[1], positions[0] + 1); // adjacent
}

#[test]
fn append_option_first_entry() {
    let mut config = ConfigFile::parse("font-size = 14\n", "/test");
    let appended = append_option(&mut config, "keybind", "ctrl+a=new_tab");
    assert!(appended);
    assert_eq!(config.get("keybind"), Some("ctrl+a=new_tab".to_string()));
}

#[test]
fn comment_option_value_removes_specific_entry() {
    let mut config = ConfigFile::parse(
        "keybind = ctrl+a=new_tab\nkeybind = ctrl+b=new_window\n",
        "/test",
    );
    let found = comment_option_value(&mut config, "keybind", "ctrl+a=new_tab");
    assert!(found);
    let all = config.get_all("keybind");
    assert_eq!(all.len(), 1);
    assert_eq!(all[0], "ctrl+b=new_window");
}

#[test]
fn comment_option_value_nonexistent() {
    let mut config = ConfigFile::parse("keybind = ctrl+a=new_tab\n", "/test");
    let found = comment_option_value(&mut config, "keybind", "ctrl+z=quit");
    assert!(!found);
    assert_eq!(config.get_all("keybind").len(), 1);
}

#[test]
fn comment_option_value_preserves_as_comment() {
    let mut config = ConfigFile::parse(
        "keybind = ctrl+a=new_tab\nkeybind = ctrl+b=new_window\n",
        "/test",
    );
    comment_option_value(&mut config, "keybind", "ctrl+a=new_tab");
    assert!(config
        .lines
        .iter()
        .any(|l| matches!(l, ConfigLine::Comment(s) if s.contains("ctrl+a=new_tab"))));
}

// --- further cases ---

#[test]
fn comment_text_is_exact() {
    let mut config = ConfigFile::parse("a = 1\nb =\n", "/test");
    comment_option(&mut config, "b");
    assert!(matches!(&config.lines[1], ConfigLine::Comment(s) if s == "# b = "));
    comment_option_value(&mut config, "a", "1");
    assert!(matches!(&config.lines[0], ConfigLine::Comment(s) if s == "# a = 1"));
}

#[test]
fn no_separator_after_blank_line_or_in_empty_file() {
    let mut config = ConfigFile::parse("a = 1\n\n", "/test");
    set_option(&mut config, "b", "2");
    assert_eq!(config.to_string(), "a = 1\n\nb = 2\n");
    let mut empty = ConfigFile::parse("", "/test");
    set_option(&mut empty, "b", "2");
    assert_eq!(empty.to_string(), "b = 2\n");
}

#[test]
fn set_then_get_and_other_keys_untouched() {
    let mut config = ConfigFile::parse("a = 1\nb = 2\na = 3\n", "/test");
    set_option(&mut config, "a", "9");
    assert_eq!(config.get("a"), Some("9".to_string()));
    assert_eq!(config.get_all("a"), vec!["1".to_string(), "9".to_string()]);
    assert_eq!(config.get_all("b"), vec!["2".to_string()]);
}

#[test]
fn comment_value_only_first_match() {
    let mut config = ConfigFile::parse("k = v\nk = w\nk = v\n", "/test");
    assert!(comment_option_value(&mut config, "k", "v"));
    assert_eq!(config.get_all("k"), vec!["w".to_string(), "v".to_string()]);
}

#[test]
fn create_module_file_creates_file_with_header() {
    let m = ghostty_mcp::config::writer::module_file("/cfg", "keybinds").ok().unwrap();
    assert_eq!(m.path, "/cfg/keybinds");
    assert!(m.contents.contains("# Ghostty keybinds configuration"));
    assert_eq!(m.contents, "# Ghostty keybinds configuration\n");
}

#[test]
fn create_module_file_rejects_invalid_names() {
    for bad in ["sub/file", "sub\\file", "file.conf", ""] {
        match ghostty_mcp::config::writer::module_file("/cfg", bad) {
            Err(e) => assert_eq!(
                e,
                format!("Invalid module name '{}'. Must not contain '/', '\\', or '.'", bad)
            ),
            Ok(_) => panic!("expected a refusal"),
        }
    }
}
