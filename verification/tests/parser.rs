use ghostty_mcp::config::parser::{ConfigFile, ConfigLine};

#[test]
fn parse_empty_config() {
    let config = ConfigFile::parse("", "/test");
    assert!(config.lines.is_empty());
    assert!(config.to_map().is_empty());
}

#[test]
fn parse_key_value_pairs() {
    let config = ConfigFile::parse("font-size = 14\ntheme = dark", "/test");
    assert_eq!(config.lines.len(), 2);
    assert_eq!(config.get("font-size"), Some("14".to_string()));
    assert_eq!(config.get("theme"), Some("dark".to_string()));
}

#[test]
fn parse_comments_and_empty_lines() {
    let config = ConfigFile::parse("# This is a comment\n\nfont-size = 14", "/test");
    assert_eq!(config.lines.len(), 3);
    assert!(matches!(&config.lines[0], ConfigLine::Comment(s) if s.contains("comment")));
    assert!(matches!(&config.lines[1], ConfigLine::Empty));
    assert!(matches!(&config.lines[2], ConfigLine::KeyValue { key, .. } if key == "font-size"));
}

#[test]
fn parse_key_with_empty_value() {
    let config = ConfigFile::parse("font-family =", "/test");
    assert_eq!(config.get("font-family"), Some("".to_string()));
}

#[test]
fn parse_value_with_equals_sign() {
    // Ghostty keybinds use = in value: keybind = ctrl+a=new_tab
    let config = ConfigFile::parse("keybind = ctrl+a=new_tab", "/test");
    assert_eq!(config.get("keybind"), Some("ctrl+a=new_tab".to_string()));
}

#[test]
fn parse_repeated_keys() {
    let config = ConfigFile::parse(
        "font-family = Fira Code\nfont-family = JetBrains Mono",
        "/test",
    );
    let map = config.to_map();
    assert_eq!(map.get("font-family").unwrap().len(), 2);
    // get() returns the last value
    assert_eq!(
        config.get("font-family"),
        Some("JetBrains Mono".to_string())
    );
}

#[test]
fn parse_malformed_line_treated_as_comment() {
    let config = ConfigFile::parse("this has no equals sign", "/test");
    assert_eq!(config.lines.len(), 1);
    assert!(matches!(&config.lines[0], ConfigLine::Comment(_)));
    assert!(config.to_map().is_empty());
}

#[test]
fn to_string_round_trip() {
    let input = "# Comment\n\nfont-size = 14\ntheme = dark\n";
    let config = ConfigFile::parse(input, "/test");
    assert_eq!(config.to_string(), input);
}

#[test]
fn get_all_returns_all_values() {
    let config = ConfigFile::parse(
        "keybind = ctrl+a=new_tab\nkeybind = ctrl+b=new_window\n",
        "/test",
    );
    let all = config.get_all("keybind");
    assert_eq!(all.len(), 2);
    assert_eq!(all[0], "ctrl+a=new_tab");
    assert_eq!(all[1], "ctrl+b=new_window");
}

#[test]
fn get_all_empty_for_missing_key() {
    let config = ConfigFile::parse("font-size = 14\n", "/test");
    let all = config.get_all("keybind");
    assert!(all.is_empty());
}

// --- further cases ---

#[test]
fn lines_strip_crlf_but_keep_lone_cr() {
    let config = ConfigFile::parse("a = 1\r\n# note\r", "/test");
    assert_eq!(config.lines.len(), 2);
    assert_eq!(config.get("a"), Some("1".to_string()));
    assert!(matches!(&config.lines[1], ConfigLine::Comment(s) if s == "# note\r"));
}

#[test]
fn keys_and_values_are_trimmed_and_comment_keeps_indent() {
    let config = ConfigFile::parse("  font-size\t=  14  \n   # indented\n \t \n", "/p");
    assert_eq!(config.lines.len(), 3);
    assert!(matches!(&config.lines[0], ConfigLine::KeyValue { key, value } if key == "font-size" && value == "14"));
    assert!(matches!(&config.lines[1], ConfigLine::Comment(s) if s == "   # indented"));
    assert!(matches!(&config.lines[2], ConfigLine::Empty));
    assert_eq!(config.path, "/p");
}

#[test]
fn hash_after_key_is_not_a_comment() {
    let config = ConfigFile::parse("background = #282c34", "/test");
    assert_eq!(config.get("background"), Some("#282c34".to_string()));
}

#[test]
fn empty_file_renders_as_single_newline() {
    let config = ConfigFile::parse("", "/test");
    assert_eq!(config.to_string(), "\n");
}

#[test]
fn render_normalises_spacing() {
    let config = ConfigFile::parse("a=1\nb =\n", "/test");
    assert_eq!(config.to_string(), "a = 1\nb =\n");
}

#[test]
fn render_then_parse_gives_back_the_lines() {
    let first = ConfigFile::parse("# c\n\nfont-size = 14\nkeybind = ctrl+a=new_tab\nx =\n", "/t");
    let again = ConfigFile::parse(&first.to_string(), "/t");
    assert_eq!(first.lines.len(), again.lines.len());
    assert_eq!(first.to_string(), again.to_string());
    assert_eq!(again.get_all("keybind"), vec!["ctrl+a=new_tab".to_string()]);
}

#[test]
fn to_map_is_in_key_order() {
    let config = ConfigFile::parse("zeta = 1\nalpha = 2\nmid = 3\nalpha = 4\n", "/t");
    let map = config.to_map();
    assert_eq!(map.len(), 3);
    assert_eq!(map.key_at(0), "alpha");
    assert_eq!(map.key_at(1), "mid");
    assert_eq!(map.key_at(2), "zeta");
    assert_eq!(map.get("alpha").unwrap(), &vec!["2".to_string(), "4".to_string()]);
    assert!(map.contains_key("zeta"));
    assert!(!map.contains_key("nope"));
}

#[test]
fn parsed_text_without_carriage_returns_reads_back() {
    let text = "  # indented comment\nno equals here\n\n  font-size =  14  \nkeybind=ctrl+a=new_tab\n x = \n#tail";
    let first = ConfigFile::parse(text, "/t");
    let again = ConfigFile::parse(&first.to_string(), "/t");
    assert_eq!(first.lines.len(), again.lines.len());
    assert_eq!(first.to_string(), again.to_string());
    assert_eq!(again.get("font-size"), Some("14".to_string()));
    assert_eq!(again.get("x"), Some("".to_string()));
}
