use ghostty_mcp::config::parser::ConfigFile;
use ghostty_mcp::data::options::GhosttyOption;
use ghostty_mcp::server::config_path::{app_support_path, config_path_from};
use ghostty_mcp::server::edit::{
    apply_remove, apply_write, check_write, read_config_text, validate_file_reply,
    validate_value_reply,
};
use ghostty_mcp::server::instructions::build_instructions;
use ghostty_mcp::server::{get_option_reply, list_categories_text, search_config_reply};

fn opt(
    name: &str,
    option_type: &str,
    category: &str,
    default_value: &str,
    repeatable: bool,
    valid_values: Option<Vec<&str>>,
) -> GhosttyOption {
    GhosttyOption {
        name: name.to_string(),
        description: format!("About {}.\nMore detail.", name),
        default_value: default_value.to_string(),
        option_type: option_type.to_string(),
        valid_values: valid_values.map(|v| v.into_iter().map(String::from).collect()),
        category: category.to_string(),
        platform: None,
        reloadable: true,
        repeatable,
        search_terms: vec![],
        related_options: None,
    }
}

fn options() -> Vec<GhosttyOption> {
    vec![
        opt("font-size", "number", "font", "13", false, None),
        opt("font-family", "string", "font", "", true, None),
        opt("window-padding-x", "number", "window", "2", false, None),
        opt("keybind", "string", "keybind", "", true, None),
        opt("cursor-style", "enum", "cursor", "block", false, Some(vec!["block", "bar"])),
        opt("background", "color", "appearance", "#000000", false, None),
        opt("custom-thing", "string", "zeta", "", false, None),
    ]
}

// --- search_config / get_option / list_categories ---

#[test]
fn search_reply_lists_hits() {
    let o = vec![opt("font-size", "number", "font", "13", false, None)];
    let r = search_config_reply(&o, "", None);
    assert!(!r.is_error);
    assert_eq!(
        r.text,
        "Found 1 results for '':\n\n1. **font-size** [font]\n   About font-size.\n   Default: `13`\n\n"
    );
}

#[test]
fn search_reply_without_hits() {
    let r = search_config_reply(&options(), "zzzznonexistent", None);
    assert!(!r.is_error);
    assert_eq!(
        r.text,
        "No options found matching 'zzzznonexistent'.\n\nTip: Try broader terms or check available categories with list_categories."
    );
}

#[test]
fn short_description_is_cut_at_100_characters() {
    let mut o = opt("long", "string", "font", "", false, None);
    o.description = "x".repeat(150);
    let r = search_config_reply(&[o], "", None);
    let line = format!("   {}\n", "x".repeat(100));
    assert!(r.text.contains(&line));
    assert!(!r.text.contains(&"x".repeat(101)));
    assert!(r.text.contains("Default: `(unset)`"));
}

#[test]
fn get_option_documents_the_option() {
    let r = get_option_reply(&options(), "cursor-style");
    assert!(!r.is_error);
    assert_eq!(
        r.text,
        "# cursor-style\n\n**Category:** cursor\n**Type:** enum\n**Default:** `block`\n**Valid values:** `block`, `bar`\n**Reloadable:** true\n**Repeatable:** false\n\n## Description\n\nAbout cursor-style.\nMore detail.\n"
    );
}

#[test]
fn get_option_unknown_suggests_names() {
    let r = get_option_reply(&options(), "zzzznonexistent");
    assert!(r.is_error);
    assert_eq!(
        r.text,
        "Option 'zzzznonexistent' not found.\n\nDid you mean: ?\n\nUse search_config to find options by concept."
    );
    let r = get_option_reply(&options(), "font-siz");
    assert!(r.is_error);
    assert!(r.text.starts_with("Option 'font-siz' not found.\n\nDid you mean: font-size"));
}

#[test]
fn list_categories_counts_and_orders() {
    let t = list_categories_text(&options());
    assert_eq!(
        t,
        "# Ghostty Configuration Categories\n\nTotal: 7 options across 6 categories\n\n\
- **font** (2 options): Font family, size, style, metrics, and rendering options\n\
- **window** (1 options): Window appearance, padding, decorations, tabs, and splits\n\
- **appearance** (1 options): Theme, colors, opacity, contrast, and visual effects\n\
- **cursor** (1 options): Cursor style, color, blinking, and behavior\n\
- **keybind** (1 options): Keyboard shortcuts and key bindings\n\
- **zeta** (1 options)\n\
\nUse `search_config` with a category filter to browse options in a category."
    );
}

// --- read_config ---

#[test]
fn read_one_option() {
    let c = ConfigFile::parse("font-size = 14\nfont-size = 15\n", "/t");
    assert_eq!(
        read_config_text(&options(), &c, Some("font-size")),
        "# font-size -- Current Value\n\n**Set to:** `15`\n**Default:** `13`\n"
    );
    assert_eq!(
        read_config_text(&options(), &c, Some("window-padding-x")),
        "# window-padding-x -- Current Value\n\n**Not set** (using default)\n**Default:** `2`\n"
    );
    assert_eq!(
        read_config_text(&options(), &c, Some("mystery")),
        "# mystery -- Current Value\n\n**Not set** (using default)\n"
    );
}

#[test]
fn read_repeatable_option() {
    let c = ConfigFile::parse("keybind = a=b\nkeybind = c=d\n", "/t");
    assert_eq!(
        read_config_text(&options(), &c, Some("keybind")),
        "# keybind -- Current Value\n\n**2 entries set:**\n- `a=b`\n- `c=d`\n**Default:** `(unset)`\n"
    );
}

#[test]
fn read_whole_config() {
    let c = ConfigFile::parse("theme = dark\nkeybind = a=b\n# note\nkeybind = c=d\n", "/t");
    assert_eq!(
        read_config_text(&options(), &c, None),
        "# Current Ghostty Configuration\n\n2 options set:\n\nkeybind = a=b\nkeybind = c=d\ntheme = dark\n"
    );
    let empty = ConfigFile::parse("", "/t");
    assert_eq!(
        read_config_text(&options(), &empty, None),
        "# Ghostty Configuration\n\nConfig file is empty or not found. All options are using defaults.\n\nUse `write_config` to set options, or `search_config` to find options."
    );
}

// --- write_config ---

#[test]
fn check_write_refuses_errors() {
    let r = check_write(&options(), "font-size", "big");
    match r {
        Err(rep) => {
            assert!(rep.is_error);
            assert_eq!(
                rep.text,
                "Validation error: Invalid number value 'big'.\n\nThe value was NOT written."
            );
        }
        Ok(_) => panic!("expected a refusal"),
    }
}

#[test]
fn check_write_collects_warnings() {
    let w = check_write(&options(), "background", "rebeccapurple").ok().unwrap();
    assert_eq!(
        w,
        vec!["Color 'rebeccapurple' appears to be a named color. Make sure it's a valid X11 color name.".to_string()]
    );
    let w = check_write(&options(), "mystery", "1").ok().unwrap();
    assert_eq!(
        w,
        vec!["Unknown option 'mystery'. It will be written but may not be recognized by Ghostty.".to_string()]
    );
    let w = check_write(&options(), "font-size", "14").ok().unwrap();
    assert!(w.is_empty());
}

#[test]
fn write_sets_a_new_option() {
    let mut c = ConfigFile::parse("theme = dark\n", "/t");
    let t = apply_write(&options(), &mut c, "font-size", "14", &vec![]).ok().unwrap();
    assert_eq!(
        t,
        "Set `font-size = 14`\n(new option added)\n\nReload config in Ghostty (Cmd+Shift+, on macOS) to apply changes."
    );
    assert_eq!(c.to_string(), "theme = dark\n\nfont-size = 14\n");
}

#[test]
fn write_replaces_a_value_and_reports_warnings() {
    let mut c = ConfigFile::parse("mystery = 1\n", "/t");
    let warnings = vec!["first".to_string(), "second".to_string()];
    let t = apply_write(&options(), &mut c, "mystery", "2", &warnings).ok().unwrap();
    assert_eq!(
        t,
        "Set `mystery = 2`\nPrevious value: `1`\n\nWarnings:\n- first\n- second\nReload config in Ghostty (Cmd+Shift+, on macOS) to apply changes."
    );
    assert_eq!(c.get("mystery"), Some("2".to_string()));
}

#[test]
fn write_appends_repeatable_and_refuses_duplicates() {
    let mut c = ConfigFile::parse("keybind = a=b\ntheme = dark\n", "/t");
    let t = apply_write(&options(), &mut c, "keybind", "c=d", &vec![]).ok().unwrap();
    assert_eq!(
        t,
        "Appended `keybind = c=d`\n(2 total entries)\n\nReload config in Ghostty (Cmd+Shift+, on macOS) to apply changes."
    );
    assert_eq!(c.to_string(), "keybind = a=b\nkeybind = c=d\ntheme = dark\n");
    let before = c.to_string();
    let r = apply_write(&options(), &mut c, "keybind", "c=d", &vec![]);
    match r {
        Err(rep) => {
            assert!(rep.is_error);
            assert_eq!(rep.text, "Duplicate: `keybind = c=d` already exists in config.");
        }
        Ok(_) => panic!("expected a refusal"),
    }
    assert_eq!(c.to_string(), before);
}

#[test]
fn written_value_reads_back() {
    let mut c = ConfigFile::parse("# header\nfont-size = 12\n", "/t");
    apply_write(&options(), &mut c, "font-size", "14", &vec![]).ok().unwrap();
    let back = ConfigFile::parse(&c.to_string(), "/t");
    assert_eq!(back.get("font-size"), Some("14".to_string()));
    assert_eq!(back.lines.len(), c.lines.len());
}

// --- remove_config ---

#[test]
fn remove_refuses_unset_option() {
    let mut c = ConfigFile::parse("theme = dark\n", "/t");
    let r = apply_remove(&options(), &mut c, "font-size", None);
    match r {
        Err(rep) => assert_eq!(rep.text, "Option 'font-size' is not set in the config file."),
        Ok(_) => panic!("expected a refusal"),
    }
}

#[test]
fn remove_refuses_missing_entry() {
    let mut c = ConfigFile::parse("keybind = a=b\nkeybind = c=d\n", "/t");
    let r = apply_remove(&options(), &mut c, "keybind", Some("x=y"));
    match r {
        Err(rep) => {
            assert!(rep.is_error);
            assert_eq!(
                rep.text,
                "No entry `keybind = x=y` found in config file.\n\nCurrent values:\n  keybind = a=b\n  keybind = c=d"
            );
        }
        Ok(_) => panic!("expected a refusal"),
    }
    assert_eq!(c.to_string(), "keybind = a=b\nkeybind = c=d\n");
}

#[test]
fn remove_one_entry() {
    let mut c = ConfigFile::parse("keybind = a=b\nkeybind = c=d\n", "/t");
    let t = apply_remove(&options(), &mut c, "keybind", Some("a=b")).ok().unwrap();
    assert_eq!(
        t,
        "Removed `keybind = a=b`\n(1 entries remaining)\n\nReload config in Ghostty to apply changes."
    );
    assert_eq!(c.to_string(), "# keybind = a=b\nkeybind = c=d\n");
}

#[test]
fn remove_all_entries_reports_default() {
    let mut c = ConfigFile::parse("font-size = 14\nfont-size = 15\n", "/t");
    let t = apply_remove(&options(), &mut c, "font-size", None).ok().unwrap();
    assert_eq!(
        t,
        "Removed all 2 entries for `font-size`\nWill revert to default: `13`\n\nReload config in Ghostty to apply changes."
    );
    let back = ConfigFile::parse(&c.to_string(), "/t");
    assert_eq!(back.get("font-size"), None);
    assert!(back.get_all("font-size").is_empty());
}

// --- validate_config ---

#[test]
fn validate_one_value() {
    let r = validate_value_reply(&options(), "font-size", "14");
    assert!(!r.is_error);
    assert_eq!(r.text, "`font-size = 14` is valid (type: number).");
    let r = validate_value_reply(&options(), "cursor-style", "circle");
    assert!(r.is_error);
    assert_eq!(
        r.text,
        "Validation issues for `cursor-style = circle`:\n\n[ERROR] Invalid value 'circle'. Valid values are: block, bar"
    );
    let r = validate_value_reply(&options(), "mystery", "1");
    assert!(r.is_error);
    assert_eq!(
        r.text,
        "Unknown option 'mystery'. Use search_config to find the correct option name."
    );
}

#[test]
fn validate_whole_file() {
    let o = options();
    let empty = ConfigFile::parse("# nothing\n", "/t");
    assert_eq!(
        validate_file_reply(&o, &empty).text,
        "Config file is empty. No validation issues."
    );
    let good = ConfigFile::parse("font-size = 14\n", "/t");
    assert_eq!(
        validate_file_reply(&o, &good).text,
        "Config is valid. 1 options set, no issues found."
    );
    let bad = ConfigFile::parse("font-size = 14\nfont-size = x\ntypo = 1\n", "/t");
    let r = validate_file_reply(&o, &bad);
    assert!(!r.is_error);
    assert_eq!(
        r.text,
        "Found 3 issues in config (2 options set):\n\n\
[WARNING] font-size: Option 'font-size' is set 2 times but is not repeatable. Only the last value will take effect.\n\
[ERROR] font-size: Invalid number value 'x'.\n\
[WARNING] typo: Unknown option 'typo'. It may be misspelled.\n"
    );
}

// --- instructions ---

#[test]
fn build_instructions_contains_dynamic_content() {
    let options = options();
    let instructions = build_instructions(&options);

    let count_str = format!("{} options", options.len());
    assert!(
        instructions.contains(&count_str),
        "Instructions should contain exact option count '{}', got:\n{}",
        count_str,
        instructions
    );

    assert!(instructions.contains("WORKFLOW PATTERNS"));
    assert!(instructions.contains("list_categories"));
    assert!(instructions.contains("search_config"));
    assert!(instructions.contains("get_option"));
    assert!(instructions.contains("write_config"));
    assert!(instructions.contains("validate_config"));
    assert!(instructions.contains("remove_config"));

    assert!(instructions.contains("SEARCH TIPS"));
    assert!(instructions.contains("transparent"));

    assert!(instructions.contains("CATEGORIES"));
    assert!(instructions.contains("font"));
    assert!(instructions.contains("window"));

    assert!(instructions.contains("VALIDATION"));

    assert!(instructions.contains("CONFIG RELOAD"));
}

#[test]
fn instructions_rank_categories_by_count() {
    let t = build_instructions(&options());
    assert!(t.starts_with("Ghostty terminal configuration assistant with 7 options across 6 categories.\n\nWORKFLOW PATTERNS\n"));
    assert!(t.contains(
        "\n\nCATEGORIES\nfont (2), appearance (1), cursor (1), keybind (1), window (1), zeta (1)\n\nVALIDATION\n"
    ));
    assert!(t.ends_with("remind the user to reload: Cmd+Shift+, on macOS, or restart Ghostty."));
}

// --- config path ---

#[test]
fn resolve_config_path_env_override() {
    let path = config_path_from(Some("/tmp/custom-config"), true, Some("/x"), Some("/h"), true);
    assert_eq!(path, "/tmp/custom-config");
}

#[test]
fn resolve_config_path_xdg() {
    let path = config_path_from(None, false, Some("/tmp/xdg-test"), Some("/h"), true);
    assert_eq!(path, "/tmp/xdg-test/ghostty/config");
}

#[test]
fn config_path_fallbacks() {
    assert_eq!(config_path_from(None, true, Some("/x"), None, false), "/config/ghostty");
    assert_eq!(
        config_path_from(None, false, None, Some("/home/u"), true),
        "/home/u/Library/Application Support/com.mitchellh.ghostty/config"
    );
    assert_eq!(
        config_path_from(None, false, None, Some("/home/u"), false),
        "/home/u/.config/ghostty/config"
    );
    assert_eq!(config_path_from(None, false, None, None, false), "/config/ghostty");
    assert_eq!(
        app_support_path("/home/u"),
        "/home/u/Library/Application Support/com.mitchellh.ghostty/config"
    );
}

#[test]
fn validation_and_write_check_agree() {
    let o = options();
    for (name, value) in [
        ("font-size", "14"),
        ("font-size", "big"),
        ("cursor-style", "bar"),
        ("cursor-style", "circle"),
        ("background", "#00ff00"),
        ("background", "#xyz"),
        ("mystery", "1"),
    ] {
        let v = validate_value_reply(&o, name, value);
        let w = check_write(&o, name, value);
        if !v.is_error {
            assert_eq!(w.ok().unwrap(), Vec::<String>::new());
        } else if w.is_err() {
            assert!(v.is_error);
        }
    }
    assert!(check_write(&o, "cursor-style", "circle").is_err());
    assert!(validate_value_reply(&o, "cursor-style", "circle").is_error);
}

#[test]
fn removing_a_new_entry_undoes_the_write() {
    let o = options();
    let mut c = ConfigFile::parse("keybind = a=b\ntheme = dark\n", "/t");
    apply_write(&o, &mut c, "keybind", "c=d", &vec![]).ok().unwrap();
    apply_remove(&o, &mut c, "keybind", Some("c=d")).ok().unwrap();
    assert_eq!(c.get_all("keybind"), vec!["a=b".to_string()]);
    assert_eq!(c.get_all("theme"), vec!["dark".to_string()]);
}

#[test]
fn resolve_config_path_returns_string() {
    // Basic sanity: always returns a non-empty path
    for (ghostty, docker, xdg, home, app) in [
        (None, false, None, Some("/home/u"), false),
        (None, false, None, Some("/home/u"), true),
        (None, false, Some("/x"), None, false),
        (None, true, None, None, false),
        (None, false, None, None, false),
    ] {
        let path = config_path_from(ghostty, docker, xdg, home, app);
        assert!(!path.is_empty());
        assert!(path.contains("ghostty") || path.contains("config"));
    }
}

#[test]
fn writing_the_same_value_twice_changes_nothing() {
    let o = options();
    let mut c = ConfigFile::parse("theme = dark\n", "/t");
    apply_write(&o, &mut c, "font-size", "14", &vec![]).ok().unwrap();
    let once = c.to_string();
    let t = apply_write(&o, &mut c, "font-size", "14", &vec![]).ok().unwrap();
    assert_eq!(c.to_string(), once);
    assert!(t.starts_with("Set `font-size = 14`\nPrevious value: `14`\n"));
    apply_write(&o, &mut c, "keybind", "a=b", &vec![]).ok().unwrap();
    assert!(apply_write(&o, &mut c, "keybind", "a=b", &vec![]).is_err());
}
