use ghostty_mcp::config::parser::ConfigFile;
use ghostty_mcp::config::validator::{is_float_text, validate_config, validate_value, IssueLevel};
use ghostty_mcp::data::options::GhosttyOption;

fn make_option(name: &str, option_type: &str, valid_values: Option<Vec<&str>>) -> GhosttyOption {
    GhosttyOption {
        name: name.to_string(),
        description: String::new(),
        default_value: String::new(),
        option_type: option_type.to_string(),
        valid_values: valid_values.map(|v| v.into_iter().map(String::from).collect()),
        category: "test".to_string(),
        platform: None,
        reloadable: false,
        repeatable: false,
        search_terms: vec![],
        related_options: None,
    }
}

#[test]
fn validate_boolean_valid() {
    let opt = make_option("test", "boolean", None);
    assert!(validate_value(&opt, "true").is_empty());
    assert!(validate_value(&opt, "false").is_empty());
}

#[test]
fn validate_boolean_invalid() {
    let opt = make_option("test", "boolean", None);
    let issues = validate_value(&opt, "yes");
    assert_eq!(issues.len(), 1);
    assert!(matches!(issues[0].level, IssueLevel::Error));
}

#[test]
fn validate_number_valid() {
    let opt = make_option("test", "number", None);
    assert!(validate_value(&opt, "42").is_empty());
    assert!(validate_value(&opt, "3.14").is_empty());
    assert!(validate_value(&opt, "-1").is_empty());
}

#[test]
fn validate_number_invalid() {
    let opt = make_option("test", "number", None);
    let issues = validate_value(&opt, "abc");
    assert_eq!(issues.len(), 1);
    assert!(matches!(issues[0].level, IssueLevel::Error));
}

#[test]
fn validate_color_hex_with_hash() {
    let opt = make_option("test", "color", None);
    assert!(validate_value(&opt, "#ff00aa").is_empty());
}

#[test]
fn validate_color_hex_without_hash() {
    let opt = make_option("test", "color", None);
    assert!(validate_value(&opt, "ff00aa").is_empty());
}

#[test]
fn validate_color_invalid_hex() {
    let opt = make_option("test", "color", None);
    let issues = validate_value(&opt, "#xyz");
    assert_eq!(issues.len(), 1);
    assert!(matches!(issues[0].level, IssueLevel::Warning));
}

#[test]
fn validate_color_cell_prefix() {
    let opt = make_option("test", "color", None);
    assert!(validate_value(&opt, "cell-foreground").is_empty());
}

#[test]
fn validate_color_named_warns() {
    let opt = make_option("test", "color", None);
    let issues = validate_value(&opt, "rebeccapurple");
    assert_eq!(issues.len(), 1);
    assert!(matches!(issues[0].level, IssueLevel::Warning));
}

#[test]
fn validate_enum_valid() {
    let opt = make_option("test", "enum", Some(vec!["block", "bar", "underline"]));
    assert!(validate_value(&opt, "block").is_empty());
}

#[test]
fn validate_enum_invalid() {
    let opt = make_option("test", "enum", Some(vec!["block", "bar", "underline"]));
    let issues = validate_value(&opt, "circle");
    assert_eq!(issues.len(), 1);
    assert!(matches!(issues[0].level, IssueLevel::Error));
}

#[test]
fn validate_empty_value_always_ok() {
    let opt = make_option("test", "boolean", None);
    assert!(validate_value(&opt, "").is_empty());
}

#[test]
fn validate_string_type_anything_ok() {
    let opt = make_option("test", "string", None);
    assert!(validate_value(&opt, "literally anything").is_empty());
}

#[test]
fn validate_config_unknown_option() {
    let options = vec![make_option("font-size", "number", None)];
    let map = ConfigFile::parse("typo-option = value\n", "/t").to_map();
    let issues = validate_config(&map, &options);
    assert_eq!(issues.len(), 1);
    assert!(issues[0].message.contains("Unknown"));
}

#[test]
fn validate_config_repeated_non_repeatable() {
    let options = vec![make_option("font-size", "number", None)];
    let map = ConfigFile::parse("font-size = 14\nfont-size = 16\n", "/t").to_map();
    let issues = validate_config(&map, &options);
    assert!(issues.iter().any(|i| i.message.contains("not repeatable")));
}

// --- further cases ---

#[test]
fn messages_are_exact() {
    let opt = make_option("cursor-style", "enum", Some(vec!["block", "bar"]));
    let issues = validate_value(&opt, "circle");
    assert_eq!(issues[0].message, "Invalid value 'circle'. Valid values are: block, bar");
    assert_eq!(issues[0].option, "cursor-style");
    let b = make_option("x", "boolean", None);
    assert_eq!(
        validate_value(&b, "yes")[0].message,
        "Invalid boolean value 'yes'. Expected 'true' or 'false'."
    );
    let n = make_option("x", "number", None);
    assert_eq!(validate_value(&n, "1.2.3")[0].message, "Invalid number value '1.2.3'.");
    let c = make_option("x", "color", None);
    assert_eq!(
        validate_value(&c, "0x12")[0].message,
        "Color '0x12' may be invalid. Expected format: #RRGGBB or RRGGBB."
    );
    assert_eq!(
        validate_value(&c, "red")[0].message,
        "Color 'red' appears to be a named color. Make sure it's a valid X11 color name."
    );
    assert_eq!(IssueLevel::Error.to_string(), "ERROR");
    assert_eq!(IssueLevel::Warning.to_string(), "WARNING");
}

#[test]
fn color_prefixes() {
    let c = make_option("x", "color", None);
    assert!(validate_value(&c, "0xff00aa").is_empty());
    assert!(validate_value(&c, "##ff00aa").is_empty());
    assert_eq!(validate_value(&c, "#ff00a").len(), 1);
    assert_eq!(validate_value(&c, "ff00ag").len(), 1);
}

#[test]
fn enum_without_list_accepts_anything() {
    let e = make_option("x", "enum", None);
    assert!(validate_value(&e, "whatever").is_empty());
}

#[test]
fn float_grammar() {
    for ok in ["0", "1.", ".5", "+.5", "-1e10", "1E-3", "2.5e+7", "inf", "-Infinity", "NaN", "+nan"] {
        assert!(is_float_text(ok), "{ok} should parse");
        assert!(ok.parse::<f64>().is_ok());
    }
    for bad in ["", ".", "e5", "1e", "1e+", "abc", " 1", "1 ", "1.2.3", "+", "infin", "0x10", "1_000"] {
        assert!(!is_float_text(bad), "{bad} should not parse");
        assert!(bad.parse::<f64>().is_err());
    }
}

#[test]
fn repeated_warning_counts_values() {
    let options = vec![make_option("font-size", "number", None)];
    let map = ConfigFile::parse("font-size = 1\nfont-size = 2\nfont-size = x\n", "/t").to_map();
    let issues = validate_config(&map, &options);
    assert_eq!(issues.len(), 2);
    assert_eq!(
        issues[0].message,
        "Option 'font-size' is set 3 times but is not repeatable. Only the last value will take effect."
    );
    assert!(matches!(issues[0].level, IssueLevel::Warning));
    assert!(matches!(issues[1].level, IssueLevel::Error));
}

#[test]
fn config_issues_follow_key_order() {
    let options = vec![make_option("b", "boolean", None)];
    let map = ConfigFile::parse("z = 1\nb = maybe\na = 2\n", "/t").to_map();
    let issues = validate_config(&map, &options);
    let names: Vec<&str> = issues.iter().map(|i| i.option.as_str()).collect();
    assert_eq!(names, vec!["a", "b", "z"]);
    assert_eq!(issues[0].message, "Unknown option 'a'. It may be misspelled.");
}
