use ghostty_mcp::config::modules::{categories_for_module, resolve_write_target};
use ghostty_mcp::config::parser::ConfigFile;
use ghostty_mcp::config::tree::{ConfigTree, IncludedFile};

#[test]
fn categories_for_module_returns_correct_categories() {
    assert_eq!(categories_for_module("keybinds"), vec!["keybind"]);
    assert_eq!(categories_for_module("fonts"), vec!["font"]);
    assert_eq!(categories_for_module("theme"), vec!["appearance", "color"]);
    assert!(categories_for_module("nonexistent").is_empty());
}

fn inc_entry(path: &str, text: Option<&str>) -> IncludedFile {
    IncludedFile {
        directive: path.rsplit('/').next().unwrap().to_string(),
        resolved_path: path.to_string(),
        optional: text.is_none(),
        config: text.map(|t| ConfigFile::parse(t, path)),
        included_from: "/cfg/config".to_string(),
    }
}

fn tree(primary: &str, includes: Vec<IncludedFile>) -> ConfigTree {
    ConfigTree { primary: ConfigFile::parse(primary, "/cfg/config"), includes }
}

#[test]
fn single_file_always_returns_primary() {
    let t = tree("font-size = 14\n", vec![]);
    assert_eq!(resolve_write_target(&t, "font-size", "font"), "/cfg/config");
}

#[test]
fn option_exists_in_include_routes_there() {
    let t = tree(
        "config-file = my-custom-keybinds\n",
        vec![inc_entry("/cfg/my-custom-keybinds", Some("keybind = ctrl+a=new_tab\n"))],
    );
    assert_eq!(resolve_write_target(&t, "keybind", "keybind"), "/cfg/my-custom-keybinds");
}

#[test]
fn category_routing_keybind_to_keybinds_module() {
    let t = tree("config-file = keybinds\n", vec![inc_entry("/cfg/keybinds", Some("# keybinds config\n"))]);
    assert_eq!(resolve_write_target(&t, "keybind", "keybind"), "/cfg/keybinds");
}

#[test]
fn theme_guard_with_theme_set() {
    let t = tree(
        "theme = catppuccin\nconfig-file = theme\n",
        vec![inc_entry("/cfg/theme", Some("background-opacity = 0.9\n"))],
    );
    assert_eq!(resolve_write_target(&t, "window-theme", "appearance"), "/cfg/config");
}

#[test]
fn no_theme_guard_without_theme_set() {
    let t = tree("config-file = theme\n", vec![inc_entry("/cfg/theme", Some("background-opacity = 0.9\n"))]);
    assert_eq!(resolve_write_target(&t, "window-theme", "appearance"), "/cfg/theme");
}

#[test]
fn unmapped_category_goes_to_primary() {
    let t = tree("config-file = keybinds\n", vec![inc_entry("/cfg/keybinds", Some("# keybinds\n"))]);
    assert_eq!(resolve_write_target(&t, "command", "shell"), "/cfg/config");
}

#[test]
fn missing_optional_module_is_not_a_target() {
    let t = tree("config-file = ?fonts\n", vec![inc_entry("/cfg/fonts", None)]);
    assert_eq!(resolve_write_target(&t, "font-size", "font"), "/cfg/config");
}

#[test]
fn user_custom_includes_respected() {
    // Even though there's no "keybinds" module, the option exists in work-keybinds
    let t = tree(
        "config-file = work-keybinds\n",
        vec![inc_entry("/cfg/work-keybinds", Some("keybind = ctrl+shift+p=command_palette\n"))],
    );
    let target = resolve_write_target(&t, "keybind", "keybind");
    assert!(target.contains("work-keybinds"));
}

#[test]
fn module_file_is_found_by_the_last_part_of_its_path() {
    let t = tree(
        "config-file = conf.d/keybinds\n",
        vec![inc_entry("/cfg/conf.d/keybinds", Some("# keys\n"))],
    );
    assert_eq!(resolve_write_target(&t, "keybind", "keybind"), "/cfg/conf.d/keybinds");
    let t = tree("config-file = keybinds.d/x\n", vec![inc_entry("/cfg/keybinds.d/x", Some("# x\n"))]);
    assert_eq!(resolve_write_target(&t, "keybind", "keybind"), "/cfg/config");
}
