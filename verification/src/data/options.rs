//! The documented Ghostty options and their categories.

use vstd::prelude::*;

verus! {

/// A single Ghostty configuration option with full documentation.
#[derive(Debug, Clone)]
pub struct GhosttyOption {
    pub name: String,
    pub description: String,
    pub default_value: String,
    pub option_type: String,
    pub valid_values: Option<Vec<String>>,
    pub category: String,
    pub platform: Option<Vec<String>>,
    pub reloadable: bool,
    pub repeatable: bool,
    pub search_terms: Vec<String>,
    pub related_options: Option<Vec<String>>,
}

pub open spec fn str_seq_view(s: Seq<String>) -> Seq<Seq<char>> {
    s.map_values(|x: String| x@)
}

pub open spec fn opt_list_view(o: Option<Vec<String>>) -> Option<Seq<Seq<char>>> {
    match o {
        Some(v) => Some(str_seq_view(v@)),
        None => None,
    }
}

/// An option as plain values.
pub struct OptionView {
    pub name: Seq<char>,
    pub description: Seq<char>,
    pub default_value: Seq<char>,
    pub option_type: Seq<char>,
    pub valid_values: Option<Seq<Seq<char>>>,
    pub category: Seq<char>,
    pub platform: Option<Seq<Seq<char>>>,
    pub reloadable: bool,
    pub repeatable: bool,
    pub search_terms: Seq<Seq<char>>,
    pub related_options: Option<Seq<Seq<char>>>,
}

impl View for GhosttyOption {
    type V = OptionView;

    open spec fn view(&self) -> OptionView {
        OptionView {
            name: self.name@,
            description: self.description@,
            default_value: self.default_value@,
            option_type: self.option_type@,
            valid_values: opt_list_view(self.valid_values),
            category: self.category@,
            platform: opt_list_view(self.platform),
            reloadable: self.reloadable,
            repeatable: self.repeatable,
            search_terms: str_seq_view(self.search_terms@),
            related_options: opt_list_view(self.related_options),
        }
    }
}

pub open spec fn options_view(s: Seq<GhosttyOption>) -> Seq<OptionView> {
    s.map_values(|o: GhosttyOption| o@)
}

fn copy_strings(v: &Vec<String>) -> (r: Vec<String>)
    ensures
        str_seq_view(r@) == str_seq_view(v@),
{
    let mut r: Vec<String> = Vec::new();
    let n = v.len();
    for i in 0..n
        invariant
            n == v@.len(),
            str_seq_view(r@) == str_seq_view(v@).take(i as int),
    {
        let ghost before = r@;
        r.push(v[i].clone());
        assert(str_seq_view(r@) =~= str_seq_view(before).push(v@[i as int]@));
        assert(str_seq_view(r@) =~= str_seq_view(v@).take(i + 1));
    }
    assert(str_seq_view(v@).take(n as int) =~= str_seq_view(v@));
    r
}

fn copy_opt_strings(v: &Option<Vec<String>>) -> (r: Option<Vec<String>>)
    ensures
        opt_list_view(r) == opt_list_view(*v),
{
    match v {
        Some(v) => Some(copy_strings(v)),
        None => None,
    }
}

impl GhosttyOption {
    /// A copy of the option with the same contents.
    pub fn duplicate(&self) -> (r: GhosttyOption)
        ensures
            r@ == self@,
    {
        GhosttyOption {
            name: self.name.clone(),
            description: self.description.clone(),
            default_value: self.default_value.clone(),
            option_type: self.option_type.clone(),
            valid_values: copy_opt_strings(&self.valid_values),
            category: self.category.clone(),
            platform: copy_opt_strings(&self.platform),
            reloadable: self.reloadable,
            repeatable: self.repeatable,
            search_terms: copy_strings(&self.search_terms),
            related_options: copy_opt_strings(&self.related_options),
        }
    }
}

/// The categories and what each covers, in display order.
pub open spec fn spec_category_descriptions() -> Seq<(Seq<char>, Seq<char>)> {
    seq![
        ("font"@, "Font family, size, style, metrics, and rendering options"@),
        ("window"@, "Window appearance, padding, decorations, tabs, and splits"@),
        ("appearance"@, "Theme, colors, opacity, contrast, and visual effects"@),
        ("cursor"@, "Cursor style, color, blinking, and behavior"@),
        ("mouse"@, "Mouse behavior, hide-while-typing, scroll settings"@),
        ("color"@, "Color palette, bold/faint colors"@),
        ("selection"@, "Text selection behavior and colors"@),
        ("clipboard"@, "Clipboard read/write permissions and behavior"@),
        ("keybind"@, "Keyboard shortcuts and key bindings"@),
        ("shell"@, "Shell command, working directory, and shell behavior"@),
        ("shell-integration"@, "Shell integration features and prompt detection"@),
        ("scrollback"@, "Scrollback buffer size and behavior"@),
        ("link"@, "Clickable URL detection and behavior"@),
        ("macos"@, "macOS-specific options (titlebar, option-as-alt, etc.)"@),
        ("linux"@, "Linux-specific options"@),
        ("gtk"@, "GTK-specific options (Linux)"@),
        ("x11"@, "X11-specific options (Linux)"@),
        ("quick-terminal"@, "Quick terminal dropdown settings"@),
        ("shader"@, "Custom GLSL shader effects"@),
        ("compatibility"@, "Terminal compatibility settings (TERM, OSC, etc.)"@),
        ("image"@, "Image rendering and storage settings"@),
        ("general"@, "General application settings"@),
    ]
}

/// Get category descriptions.
pub fn category_descriptions() -> (r: Vec<(&'static str, &'static str)>)
    ensures
        r@.map_values(|p: (&'static str, &'static str)| (p.0@, p.1@)) == spec_category_descriptions(),
{
    let r = vec![
        ("font", "Font family, size, style, metrics, and rendering options"),
        ("window", "Window appearance, padding, decorations, tabs, and splits"),
        ("appearance", "Theme, colors, opacity, contrast, and visual effects"),
        ("cursor", "Cursor style, color, blinking, and behavior"),
        ("mouse", "Mouse behavior, hide-while-typing, scroll settings"),
        ("color", "Color palette, bold/faint colors"),
        ("selection", "Text selection behavior and colors"),
        ("clipboard", "Clipboard read/write permissions and behavior"),
        ("keybind", "Keyboard shortcuts and key bindings"),
        ("shell", "Shell command, working directory, and shell behavior"),
        ("shell-integration", "Shell integration features and prompt detection"),
        ("scrollback", "Scrollback buffer size and behavior"),
        ("link", "Clickable URL detection and behavior"),
        ("macos", "macOS-specific options (titlebar, option-as-alt, etc.)"),
        ("linux", "Linux-specific options"),
        ("gtk", "GTK-specific options (Linux)"),
        ("x11", "X11-specific options (Linux)"),
        ("quick-terminal", "Quick terminal dropdown settings"),
        ("shader", "Custom GLSL shader effects"),
        ("compatibility", "Terminal compatibility settings (TERM, OSC, etc.)"),
        ("image", "Image rendering and storage settings"),
        ("general", "General application settings"),
    ];
    assert(r@.map_values(|p: (&'static str, &'static str)| (p.0@, p.1@)) =~= spec_category_descriptions());
    r
}

} // verus!
