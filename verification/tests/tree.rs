use std::collections::HashMap;

use ghostty_mcp::config::loader::{parse_include_directive, ReadOutcome, TreeLoader};
use ghostty_mcp::config::parser::ConfigFile;
use ghostty_mcp::config::tree::ConfigTree;

fn dir_of(path: &str) -> String {
    match path.rfind('/') {
        Some(i) => path[..i].to_string(),
        None => ".".to_string(),
    }
}

/// Drives the loader over an in-memory set of files.
fn load(files: &[(&str, &str)], primary: &str) -> Result<ConfigTree, String> {
    let map: HashMap<String, String> =
        files.iter().map(|(p, t)| (p.to_string(), t.to_string())).collect();
    let text = map.get(primary).cloned().unwrap_or_default();
    let mut loader = TreeLoader::new(ConfigFile::parse(&text, primary), &dir_of(primary), primary);
    while let Some(req) = loader.next_include() {
        let resolved = if req.raw_path.starts_with('/') {
            req.raw_path.clone()
        } else {
            format!("{}/{}", req.base_dir, req.raw_path)
        };
        if !loader.visit(resolved.clone(), resolved.clone()) {
            continue;
        }
        let outcome = match map.get(&resolved) {
            Some(t) => ReadOutcome::Contents { text: t.clone(), dir: dir_of(&resolved) },
            None => ReadOutcome::NotFound,
        };
        loader.file_read(outcome).map_err(|e| e.message())?;
    }
    Ok(loader.finish())
}

#[test]
fn directive_parsing() {
    assert_eq!(parse_include_directive("?fonts"), (true, "fonts".to_string()));
    assert_eq!(parse_include_directive(" keybinds "), (false, "keybinds".to_string()));
    assert_eq!(parse_include_directive("?\"?odd\""), (true, "?odd".to_string()));
    assert_eq!(parse_include_directive("\""), (false, "\"".to_string()));
    assert_eq!(parse_include_directive(""), (false, "".to_string()));
}

#[test]
fn tree_single_file_no_includes() {
    let tree = load(&[("/c/config", "font-size = 14\ntheme = dark\n")], "/c/config").unwrap();
    assert!(tree.includes.is_empty());
    assert_eq!(tree.get("font-size").unwrap().value, "14");
    assert_eq!(tree.get("theme").unwrap().value, "dark");
    assert!(tree.get("nonexistent").is_none());
}

#[test]
fn tree_follows_include_last_wins() {
    let tree = load(
        &[("/c/fonts", "font-size = 16\n"), ("/c/config", "font-size = 14\nconfig-file = fonts\n")],
        "/c/config",
    )
    .unwrap();
    assert_eq!(tree.includes.len(), 1);
    let effective = tree.get("font-size").unwrap();
    assert_eq!(effective.value, "16");
    assert_eq!(effective.source_file, "/c/fonts");
}

#[test]
fn tree_optional_missing_file_no_error() {
    let tree = load(&[("/c/config", "font-size = 14\nconfig-file = ?missing\n")], "/c/config").unwrap();
    assert_eq!(tree.includes.len(), 1);
    assert!(tree.includes[0].optional);
    assert!(tree.includes[0].config.is_none());
    assert_eq!(tree.get("font-size").unwrap().value, "14");
}

#[test]
fn tree_required_missing_file_errors() {
    let err = load(&[("/c/config", "config-file = nonexistent\n")], "/c/config").unwrap_err();
    assert_eq!(err, "Included config file not found: /c/nonexistent (included from /c/config)");
}

#[test]
fn tree_cycle_detection() {
    let tree = load(
        &[("/c/a", "config-file = b\nfont-size = 14\n"), ("/c/b", "config-file = a\ntheme = dark\n")],
        "/c/a",
    )
    .unwrap();
    assert_eq!(tree.includes.len(), 1);
    assert_eq!(tree.get("font-size").unwrap().value, "14");
    assert_eq!(tree.get("theme").unwrap().value, "dark");
}

#[test]
fn includes_load_in_queue_order_across_siblings() {
    let tree = load(
        &[
            ("/c/c", "font-size = 3\n"),
            ("/c/a", "config-file = c\nfont-size = 1\n"),
            ("/c/b", "font-size = 2\n"),
            ("/c/config", "config-file = a\nconfig-file = b\n"),
        ],
        "/c/config",
    )
    .unwrap();
    assert_eq!(tree.get("font-size").unwrap().value, "3");
    let order: Vec<&str> = tree.includes.iter().map(|i| i.directive.as_str()).collect();
    assert_eq!(order, vec!["a", "b", "c"]);
}

#[test]
fn tree_relative_path_resolution() {
    let tree = load(
        &[
            ("/c/sub/nested", "theme = dark\n"),
            ("/c/sub/mid", "config-file = nested\n"),
            ("/c/config", "config-file = sub/mid\n"),
        ],
        "/c/config",
    )
    .unwrap();
    assert_eq!(tree.get("theme").unwrap().value, "dark");
    assert_eq!(tree.includes[1].included_from, "/c/sub/mid");
}

#[test]
fn empty_directive_ignored_and_quotes_removed() {
    let tree = load(
        &[("/c/fonts", "font-size = 16\n"), ("/c/config", "config-file =\nconfig-file = \"fonts\"\n")],
        "/c/config",
    )
    .unwrap();
    assert_eq!(tree.includes.len(), 1);
    assert_eq!(tree.get("font-size").unwrap().value, "16");
}

#[test]
fn annotated_values_and_map() {
    let tree = load(
        &[
            ("/c/fonts", "font-size = 16\nkeybind = b\n"),
            ("/c/config", "font-size = 14\nkeybind = a\ntheme = dark\nconfig-file = fonts\n"),
        ],
        "/c/config",
    )
    .unwrap();
    let all = tree.get_all("keybind");
    assert_eq!(all.len(), 2);
    assert_eq!((all[0].value.as_str(), all[0].source_file.as_str()), ("a", "/c/config"));
    assert_eq!((all[1].value.as_str(), all[1].source_file.as_str()), ("b", "/c/fonts"));
    let map = tree.to_annotated_map();
    let fs = map.get("font-size").unwrap();
    assert_eq!(fs.len(), 2);
    assert_eq!(fs[0].value, "14");
    assert_eq!(fs[1].value, "16");
    assert_eq!(map.get("theme").unwrap().len(), 1);
    assert!(map.contains_key("config-file"));
    // the effective value is the last of all values
    assert_eq!(tree.get("font-size").unwrap().value, fs[1].value);
}

#[test]
fn theme_detection() {
    let with = load(&[("/c/theme", "theme = catppuccin\n"), ("/c/config", "config-file = theme\n")], "/c/config").unwrap();
    assert!(with.has_theme_set());
    let without = load(&[("/c/config", "font-size = 14\ntheme =\n")], "/c/config").unwrap();
    assert!(!without.has_theme_set());
}

#[test]
fn tree_nested_includes_precedence() {
    let tree = load(
        &[
            ("/d/c", "font-size = 18\n"),
            ("/d/b", "font-size = 16\nconfig-file = c\n"),
            ("/d/a", "font-size = 14\nconfig-file = b\n"),
        ],
        "/d/a",
    )
    .unwrap();
    // Load order: a, then a's includes (b), then b's includes (c). Files
    // loaded later override earlier ones, so c wins.
    let effective = tree.get("font-size").unwrap();
    assert_eq!(effective.value, "18");
    assert!(effective.source_file.contains('c'));
}

#[test]
fn tree_multiple_includes_order() {
    let tree = load(
        &[
            ("/d/fonts", "font-size = 16\n"),
            ("/d/keybinds", "font-size = 20\n"),
            ("/d/config", "font-size = 14\nconfig-file = fonts\nconfig-file = keybinds\n"),
        ],
        "/d/config",
    )
    .unwrap();
    assert_eq!(tree.includes.len(), 2);
    // keybinds is last, so its value wins
    assert_eq!(tree.get("font-size").unwrap().value, "20");
}

#[test]
fn tree_get_all_annotated() {
    let tree = load(
        &[
            ("/d/keybinds", "keybind = ctrl+b=new_window\n"),
            ("/d/config", "keybind = ctrl+a=new_tab\nconfig-file = keybinds\n"),
        ],
        "/d/config",
    )
    .unwrap();
    let all = tree.get_all("keybind");
    assert_eq!(all.len(), 2);
    assert_eq!(all[0].value, "ctrl+a=new_tab");
    assert!(all[0].source_file.contains("config"));
    assert_eq!(all[1].value, "ctrl+b=new_window");
    assert!(all[1].source_file.contains("keybinds"));
}

#[test]
fn tree_has_theme_set() {
    let tree = load(&[("/d/theme", "theme = catppuccin\n"), ("/d/config", "config-file = theme\n")], "/d/config").unwrap();
    assert!(tree.has_theme_set());
}

#[test]
fn tree_has_theme_not_set() {
    let tree = load(&[("/d/config", "font-size = 14\n")], "/d/config").unwrap();
    assert!(!tree.has_theme_set());
}

#[test]
fn tree_to_annotated_map() {
    let tree = load(
        &[("/d/fonts", "font-size = 16\n"), ("/d/config", "font-size = 14\ntheme = dark\nconfig-file = fonts\n")],
        "/d/config",
    )
    .unwrap();
    let map = tree.to_annotated_map();
    // font-size appears in both files
    let fs = map.get("font-size").unwrap();
    assert_eq!(fs.len(), 2);
    assert_eq!(fs[0].value, "14"); // primary first
    assert_eq!(fs[1].value, "16"); // include second
    // theme only in primary
    assert_eq!(map.get("theme").unwrap().len(), 1);
    // config-file is also a key-value pair
    assert!(map.contains_key("config-file"));
}

#[test]
fn nested_include_wins_over_its_parent_include() {
    let tree = load(
        &[
            ("/d/grandchild", "font-size = 20\n"),
            ("/d/child", "config-file = grandchild\nfont-size = 16\n"),
            ("/d/config", "config-file = child\nfont-size = 14\n"),
        ],
        "/d/config",
    )
    .unwrap();
    let value = tree.get("font-size").unwrap();
    assert_eq!(value.value, "20", "grandchild loads last and must win");
    assert!(value.source_file.contains("grandchild"));
}

#[test]
fn quoted_include_paths_are_unquoted() {
    let tree = load(&[("/d/fonts", "font-size = 16\n"), ("/d/config", "config-file = \"fonts\"\n")], "/d/config").unwrap();
    assert_eq!(tree.includes.len(), 1);
    assert_eq!(tree.get("font-size").unwrap().value, "16");
}

#[test]
fn optional_prefix_composes_with_quotes() {
    let tree = load(&[("/d/config", "config-file = ?\"missing-file\"\nfont-size = 14\n")], "/d/config").unwrap();
    assert_eq!(tree.get("font-size").unwrap().value, "14");
    assert!(tree.includes[0].optional);
    assert!(tree.includes[0].config.is_none());
}

#[test]
fn empty_config_file_directive_is_ignored() {
    let tree = load(&[("/d/config", "config-file =\nfont-size = 14\n")], "/d/config").unwrap();
    assert_eq!(tree.get("font-size").unwrap().value, "14");
    assert!(tree.includes.is_empty());
}

#[test]
fn finished_tree_records_each_include_once() {
    let tree = load(
        &[
            ("/d/a", "config-file = b\nconfig-file = ?gone\nfont-size = 14\n"),
            ("/d/b", "config-file = a\nconfig-file = b\ntheme = dark\n"),
        ],
        "/d/a",
    )
    .unwrap();
    assert_eq!(tree.includes.len(), 2);
    let paths: Vec<&str> = tree.includes.iter().map(|i| i.resolved_path.as_str()).collect();
    assert_eq!(paths, vec!["/d/b", "/d/gone"]);
    for inc in &tree.includes {
        match &inc.config {
            Some(c) => assert_eq!(c.path, inc.resolved_path),
            None => assert!(inc.optional),
        }
        assert!(!parse_include_directive(&inc.directive).1.is_empty());
    }
}
