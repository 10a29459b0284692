//! Routing of config writes to the file of the include tree that should
//! hold them.

use vstd::prelude::*;
use crate::config::parser::{opt_view, spec_get};
use crate::config::tree::{ConfigTree, IncludedView, TreeView, spec_has_theme, tree_files};
use crate::text::{str_eq, has_char};

verus! {

/// Index of the last `/` in `p`, or -1 when it has none.
pub open spec fn last_slash(p: Seq<char>) -> int
    decreases p.len(),
{
    if p.len() == 0 {
        -1
    } else if p.last() == '/' {
        p.len() - 1
    } else {
        last_slash(p.drop_last())
    }
}

/// The part of `p` after its last `/` (all of `p` when it has none).
pub open spec fn last_part(p: Seq<char>) -> Seq<char> {
    p.skip(last_slash(p) + 1)
}

/// A path whose final component every platform reads the same way: no
/// `\`, no leading `//` (which Windows reads as a network prefix), and a
/// part after the last `/` that is not empty, holds no `:` (a Windows
/// drive) and is neither `.` nor `..`.
pub open spec fn plain_last_part(p: Seq<char>) -> bool {
    &&& !has_char(p, '\\')
    &&& !(p.len() >= 2 && p[0] == '/' && p[1] == '/')
    &&& last_part(p).len() > 0
    &&& !has_char(last_part(p), ':')
    &&& last_part(p) != "."@
    &&& last_part(p) != ".."@
}

/// What `Path::file_name` gives on every platform: a name is a non-empty
/// piece of the path without `/`, and a path with a plain last part gives
/// exactly that part.
pub open spec fn file_name_fits(path: Seq<char>, name: Option<Seq<char>>) -> bool {
    &&& name matches Some(n) ==> n.len() > 0 && !has_char(n, '/') && exists|i: int|
        0 <= i && i + n.len() <= path.len() && #[trigger] path.subrange(i, i + n.len()) == n
    &&& plain_last_part(path) ==> name == Some(last_part(path))
}

/// `std::path::Path::file_name` on `path`, converted with
/// `OsStr::to_string_lossy` (lossless here, the path being a `str`). The
/// final component's syntax differs by platform, so the contract states
/// only what holds on every platform: a name is a non-empty piece of the
/// path that holds no `/` (a separator everywhere), and a path whose last
/// part is plain gives exactly that part. Which names the other paths give
/// is left unsaid.
#[verifier::external_body]
fn file_name_of(path: &str) -> (r: Option<String>)
    ensures
        file_name_fits(path@, opt_view(r)),
{
    match std::path::Path::new(path).file_name() {
        Some(f) => Some(f.to_string_lossy().into_owned()),
        None => None,
    }
}

/// The module file a category is routed to: keybind to `keybinds`, font to
/// `fonts`, appearance and color to `theme`.
pub open spec fn spec_module_for_category(category: Seq<char>) -> Option<Seq<char>> {
    if category == "keybind"@ {
        Some("keybinds"@)
    } else if category == "font"@ {
        Some("fonts"@)
    } else if category == "appearance"@ || category == "color"@ {
        Some("theme"@)
    } else {
        None
    }
}

/// The categories routed to a module file.
pub open spec fn spec_categories_for_module(module_name: Seq<char>) -> Seq<Seq<char>> {
    if module_name == "keybinds"@ {
        seq!["keybind"@]
    } else if module_name == "fonts"@ {
        seq!["font"@]
    } else if module_name == "theme"@ {
        seq!["appearance"@, "color"@]
    } else {
        seq![]
    }
}

pub open spec fn include_sets(inc: IncludedView, name: Seq<char>) -> bool {
    inc.config matches Some(c) && spec_get(c.lines, name) is Some
}

pub open spec fn include_is_module(
    inc: IncludedView,
    file_name: Option<Seq<char>>,
    module_name: Seq<char>,
) -> bool {
    inc.config is Some && file_name == Some(module_name)
}

/// Index of the first loaded include that sets `name`, or -1.
pub open spec fn first_include_setting(incs: Seq<IncludedView>, name: Seq<char>) -> int
    decreases incs.len(),
{
    if incs.len() == 0 {
        -1
    } else if include_sets(incs[0], name) {
        0
    } else {
        let r = first_include_setting(incs.drop_first(), name);
        if r < 0 {
            -1
        } else {
            r + 1
        }
    }
}

/// Index of the first loaded include whose file name (`names` holds the
/// file name of each include's resolved path) is `module_name`, or -1.
pub open spec fn first_module_include(
    incs: Seq<IncludedView>,
    names: Seq<Option<Seq<char>>>,
    module_name: Seq<char>,
) -> int
    decreases incs.len(),
{
    if incs.len() == 0 || names.len() == 0 {
        -1
    } else if include_is_module(incs[0], names[0], module_name) {
        0
    } else {
        let r = first_module_include(incs.drop_first(), names.drop_first(), module_name);
        if r < 0 {
            -1
        } else {
            r + 1
        }
    }
}

proof fn lemma_first_include_setting(incs: Seq<IncludedView>, name: Seq<char>, i: int)
    requires
        0 <= i <= incs.len(),
        forall|j: int| 0 <= j < i ==> !include_sets(#[trigger] incs[j], name),
        i < incs.len() ==> include_sets(incs[i], name),
    ensures
        first_include_setting(incs, name) == (if i < incs.len() {
            i
        } else {
            -1
        }),
    decreases incs.len(),
{
    if incs.len() > 0 && i > 0 {
        assert forall|j: int| 0 <= j < i - 1 implies !include_sets(#[trigger] incs.drop_first()[j], name) by {
            assert(incs.drop_first()[j] == incs[j + 1]);
        }
        if i < incs.len() {
            assert(incs.drop_first()[i - 1] == incs[i]);
        }
        lemma_first_include_setting(incs.drop_first(), name, i - 1);
    }
}

proof fn lemma_first_module_include(
    incs: Seq<IncludedView>,
    names: Seq<Option<Seq<char>>>,
    m: Seq<char>,
    i: int,
)
    requires
        names.len() == incs.len(),
        0 <= i <= incs.len(),
        forall|j: int| 0 <= j < i ==> !include_is_module(#[trigger] incs[j], names[j], m),
        i < incs.len() ==> include_is_module(incs[i], names[i], m),
    ensures
        first_module_include(incs, names, m) == (if i < incs.len() {
            i
        } else {
            -1
        }),
    decreases incs.len(),
{
    if incs.len() > 0 && i > 0 {
        assert forall|j: int| 0 <= j < i - 1 implies !include_is_module(
            #[trigger] incs.drop_first()[j],
            names.drop_first()[j],
            m,
        ) by {
            assert(incs.drop_first()[j] == incs[j + 1]);
        }
        if i < incs.len() {
            assert(incs.drop_first()[i - 1] == incs[i]);
        }
        lemma_first_module_include(incs.drop_first(), names.drop_first(), m, i - 1);
    }
}

/// The file a write of option `name` (of category `category`) goes to:
/// an include that already sets the option; else the module file of the
/// category, unless that is `theme` while a theme is set; else the primary.
/// `names` holds the file name of each include's resolved path.
pub open spec fn spec_resolve_write_target(
    t: TreeView,
    names: Seq<Option<Seq<char>>>,
    name: Seq<char>,
    category: Seq<char>,
) -> Seq<char> {
    let i = first_include_setting(t.includes, name);
    if i >= 0 {
        t.includes[i].config.unwrap().path
    } else {
        match spec_module_for_category(category) {
            Some(m) => if m == "theme"@ && spec_has_theme(tree_files(t)) {
                t.primary.path
            } else {
                let j = first_module_include(t.includes, names, m);
                if j >= 0 {
                    t.includes[j].resolved_path
                } else {
                    t.primary.path
                }
            },
            None => t.primary.path,
        }
    }
}

/// The file name of each include's resolved path, as `Path::file_name`
/// gives it.
pub fn include_file_names(tree: &ConfigTree) -> (r: Vec<Option<String>>)
    ensures
        r@.len() == tree.includes@.len(),
        forall|i: int|
            0 <= i < r@.len() ==> file_name_fits(tree@.includes[i].resolved_path, #[trigger] opt_view(r@[i])),
{
    let mut r: Vec<Option<String>> = Vec::new();
    let n = tree.includes.len();
    for i in 0..n
        invariant
            n == tree.includes@.len(),
            r@.len() == i,
            forall|j: int|
                0 <= j < i ==> file_name_fits(tree@.includes[j].resolved_path, #[trigger] opt_view(r@[j])),
    {
        assert(tree@.includes[i as int] == tree.includes@[i as int]@);
        let name = file_name_of(tree.includes[i].resolved_path.as_str());
        r.push(name);
    }
    r
}

pub open spec fn names_view(names: Seq<Option<String>>) -> Seq<Option<Seq<char>>> {
    names.map_values(|o: Option<String>| opt_view(o))
}

/// Determine which file a config write should target.
///
/// Priority:
/// 1. If the option already exists in an included file, write there
/// 2. If a module file for this category is included, route there
/// 3. Special: if category is appearance/color AND theme is set, skip theme module
/// 4. Fall back to primary config
pub fn resolve_write_target(tree: &ConfigTree, option_name: &str, option_category: &str) -> (r: String)
    ensures
        exists|names: Seq<Option<Seq<char>>>|
            names.len() == tree.includes@.len() && (forall|i: int|
                0 <= i < names.len() ==> file_name_fits(tree@.includes[i].resolved_path, #[trigger] names[i]))
                && r@ == spec_resolve_write_target(
                tree@,
                names,
                option_name@,
                option_category@,
            ),
{
    let names = include_file_names(tree);
    let r = resolve_write_target_with(tree, &names, option_name, option_category);
    assert(names_view(names@).len() == tree.includes@.len());
    assert forall|i: int| 0 <= i < names_view(names@).len() implies file_name_fits(
        tree@.includes[i].resolved_path,
        #[trigger] names_view(names@)[i],
    ) by {
        assert(names_view(names@)[i] == opt_view(names@[i]));
    }
    r
}

/// `resolve_write_target` with the file names of the includes' resolved
/// paths given.
pub fn resolve_write_target_with(
    tree: &ConfigTree,
    file_names: &Vec<Option<String>>,
    option_name: &str,
    option_category: &str,
) -> (r: String)
    requires
        file_names@.len() == tree.includes@.len(),
    ensures
        r@ == spec_resolve_write_target(tree@, names_view(file_names@), option_name@, option_category@),
{
    let ghost incs = tree@.includes;
    let n = tree.includes.len();
    for i in 0..n
        invariant
            n == incs.len() == tree.includes@.len(),
            incs == tree@.includes,
            forall|j: int| 0 <= j < i ==> !include_sets(#[trigger] incs[j], option_name@),
    {
        assert(incs[i as int] == tree.includes@[i as int]@);
        match &tree.includes[i].config {
            Some(config) => {
                let got = config.get(option_name);
                if got.is_some() {
                    proof {
                        lemma_first_include_setting(incs, option_name@, i as int);
                    }
                    return config.path.clone();
                }
            },
            None => {},
        }
    }
    proof {
        lemma_first_include_setting(incs, option_name@, n as int);
    }
    match module_for_category(option_category) {
        Some(module_name) => {
            if str_eq(module_name, "theme") && tree.has_theme_set() {
                return tree.primary.path.clone();
            }
            match find_module_include(tree, file_names, module_name) {
                Some(path) => {
                    return path;
                },
                None => {},
            }
        },
        None => {},
    }
    tree.primary.path.clone()
}

/// Find which module name a category maps to.
fn module_for_category(category: &str) -> (r: Option<&'static str>)
    ensures
        (match r {
            Some(m) => Some(m@),
            None => None,
        }) == spec_module_for_category(category@),
{
    if str_eq(category, "keybind") {
        Some("keybinds")
    } else if str_eq(category, "font") {
        Some("fonts")
    } else if str_eq(category, "appearance") || str_eq(category, "color") {
        Some("theme")
    } else {
        None
    }
}

/// Find an included file that matches a module name.
/// Checks if any include's resolved path has a filename matching the module name.
fn find_module_include(tree: &ConfigTree, file_names: &Vec<Option<String>>, module_name: &str) -> (r: Option<String>)
    requires
        file_names@.len() == tree.includes@.len(),
    ensures
        opt_view(r) == (if first_module_include(tree@.includes, names_view(file_names@), module_name@) >= 0 {
            Some(tree@.includes[first_module_include(tree@.includes, names_view(file_names@), module_name@)].resolved_path)
        } else {
            None
        }),
{
    let ghost names = names_view(file_names@);
    let ghost incs = tree@.includes;
    let n = tree.includes.len();
    for i in 0..n
        invariant
            n == incs.len() == tree.includes@.len(),
            incs == tree@.includes,
            names == names_view(file_names@),
            names.len() == n,
            forall|j: int| 0 <= j < i ==> !include_is_module(#[trigger] incs[j], names[j], module_name@),
    {
        assert(incs[i as int] == tree.includes@[i as int]@);
        assert(names[i as int] == opt_view(file_names@[i as int]));
        let inc = &tree.includes[i];
        if inc.config.is_some() {
            match &file_names[i] {
                Some(name) => {
                    if str_eq(name.as_str(), module_name) {
                        proof {
                            lemma_first_module_include(incs, names, module_name@, i as int);
                        }
                        return Some(inc.resolved_path.clone());
                    }
                },
                None => {},
            }
        }
    }
    proof {
        lemma_first_module_include(incs, names, module_name@, n as int);
    }
    None
}

/// Get the categories that route to a given module name.
pub fn categories_for_module(module_name: &str) -> (r: Vec<&'static str>)
    ensures
        r@.map_values(|s: &'static str| s@) == spec_categories_for_module(module_name@),
{
    let mut r: Vec<&'static str> = Vec::new();
    if str_eq(module_name, "keybinds") {
        r.push("keybind");
    } else if str_eq(module_name, "fonts") {
        r.push("font");
    } else if str_eq(module_name, "theme") {
        r.push("appearance");
        r.push("color");
    }
    assert(r@.map_values(|s: &'static str| s@) =~= spec_categories_for_module(module_name@));
    r
}

/// A write of an option that no include sets goes to the first loaded
/// include named after its category's module, when that module is not
/// `theme`, whether or not a theme is set.
pub proof fn law_module_routing(
    t: TreeView,
    names: Seq<Option<Seq<char>>>,
    name: Seq<char>,
    category: Seq<char>,
    m: Seq<char>,
    j: int,
)
    requires
        names.len() == t.includes.len(),
        forall|i: int|
            0 <= i < t.includes.len() ==> ((#[trigger] t.includes[i]).config matches Some(c) ==> spec_get(
                c.lines,
                name,
            ) is None),
        spec_module_for_category(category) == Some(m),
        m != "theme"@,
        0 <= j < t.includes.len(),
        t.includes[j].config is Some,
        names[j] == Some(m),
        forall|i: int| 0 <= i < j ==> (#[trigger] t.includes[i]).config is Some ==> names[i] != Some(m),
    ensures
        spec_resolve_write_target(t, names, name, category) == t.includes[j].resolved_path,
{
    assert forall|i: int| 0 <= i < t.includes.len() implies !include_sets(#[trigger] t.includes[i], name) by {}
    lemma_first_include_setting(t.includes, name, t.includes.len() as int);
    assert forall|i: int| 0 <= i < j implies !include_is_module(#[trigger] t.includes[i], names[i], m) by {}
    lemma_first_module_include(t.includes, names, m, j);
}

/// A write of an option that no include sets, of a category whose module
/// is `theme`, goes to the primary file while some file sets a theme.
pub proof fn law_theme_guard(t: TreeView, names: Seq<Option<Seq<char>>>, name: Seq<char>, category: Seq<char>)
    requires
        forall|i: int|
            0 <= i < t.includes.len() ==> ((#[trigger] t.includes[i]).config matches Some(c) ==> spec_get(
                c.lines,
                name,
            ) is None),
        spec_module_for_category(category) == Some("theme"@),
        spec_has_theme(tree_files(t)),
    ensures
        spec_resolve_write_target(t, names, name, category) == t.primary.path,
{
    assert forall|i: int| 0 <= i < t.includes.len() implies !include_sets(#[trigger] t.includes[i], name) by {}
    lemma_first_include_setting(t.includes, name, t.includes.len() as int);
}

/// A write of an option goes to the first loaded include that sets it,
/// whatever its category.
pub proof fn law_include_that_sets_wins(
    t: TreeView,
    names: Seq<Option<Seq<char>>>,
    name: Seq<char>,
    category: Seq<char>,
    j: int,
)
    requires
        0 <= j < t.includes.len(),
        t.includes[j].config matches Some(c) && spec_get(c.lines, name) is Some,
        forall|i: int|
            0 <= i < j ==> ((#[trigger] t.includes[i]).config matches Some(c) ==> spec_get(c.lines, name) is None),
    ensures
        spec_resolve_write_target(t, names, name, category) == t.includes[j].config->0.path,
{
    assert forall|i: int| 0 <= i < j implies !include_sets(#[trigger] t.includes[i], name) by {}
    lemma_first_include_setting(t.includes, name, j);
}

} // verus!
