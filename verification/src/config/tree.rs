//! The config hierarchy: the primary file plus the files it includes, read
//! in load order, where later files override earlier ones.

use vstd::prelude::*;
use crate::config::parser::{ConfigFile, ConfigFileView, ConfigLine, spec_get,
    spec_get_all, line_values, lemma_get_is_last};
use crate::keyed::KeyedLists;

verus! {

/// A config value tagged with its origin file.
#[derive(Debug, Clone)]
pub struct AnnotatedValue {
    pub value: String,
    pub source_file: String,
}

pub struct AnnotatedView {
    pub value: Seq<char>,
    pub source_file: Seq<char>,
}

impl View for AnnotatedValue {
    type V = AnnotatedView;

    open spec fn view(&self) -> AnnotatedView {
        AnnotatedView { value: self.value@, source_file: self.source_file@ }
    }
}

pub open spec fn annotated_view(s: Seq<AnnotatedValue>) -> Seq<AnnotatedView> {
    s.map_values(|a: AnnotatedValue| a@)
}

/// A resolved include directive from a config file.
#[derive(Debug, Clone)]
pub struct IncludedFile {
    /// The raw directive value (e.g. "?fonts" or "keybinds")
    pub directive: String,
    /// The resolved absolute path
    pub resolved_path: String,
    /// Whether the include was optional (prefixed with `?`)
    pub optional: bool,
    /// The parsed config, None if optional and missing
    pub config: Option<ConfigFile>,
    /// Which file included this one
    pub included_from: String,
}

pub struct IncludedView {
    pub directive: Seq<char>,
    pub resolved_path: Seq<char>,
    pub optional: bool,
    pub config: Option<ConfigFileView>,
    pub included_from: Seq<char>,
}

impl View for IncludedFile {
    type V = IncludedView;

    open spec fn view(&self) -> IncludedView {
        IncludedView {
            directive: self.directive@,
            resolved_path: self.resolved_path@,
            optional: self.optional,
            config: match self.config {
                Some(c) => Some(c@),
                None => None,
            },
            included_from: self.included_from@,
        }
    }
}

pub open spec fn includes_view(s: Seq<IncludedFile>) -> Seq<IncludedView> {
    s.map_values(|i: IncludedFile| i@)
}

/// The full config hierarchy: primary file plus all resolved includes.
#[derive(Debug, Clone)]
pub struct ConfigTree {
    pub primary: ConfigFile,
    pub includes: Vec<IncludedFile>,
}

pub struct TreeView {
    pub primary: ConfigFileView,
    pub includes: Seq<IncludedView>,
}

impl View for ConfigTree {
    type V = TreeView;

    open spec fn view(&self) -> TreeView {
        TreeView { primary: self.primary@, includes: includes_view(self.includes@) }
    }
}

/// The files an include contributes: its parsed config, or none when it
/// was optional and missing.
pub open spec fn include_files(inc: IncludedView) -> Seq<ConfigFileView> {
    match inc.config {
        Some(c) => seq![c],
        None => seq![],
    }
}

/// The parsed included files, in load order.
pub open spec fn included_files(incs: Seq<IncludedView>) -> Seq<ConfigFileView>
    decreases incs.len(),
{
    if incs.len() == 0 {
        seq![]
    } else {
        included_files(incs.drop_last()) + include_files(incs.last())
    }
}

/// Load order: the primary file first, then the includes as listed.
pub open spec fn tree_files(t: TreeView) -> Seq<ConfigFileView> {
    seq![t.primary] + included_files(t.includes)
}

/// The effective value of `key`: the last value set by the last file in
/// load order that sets it, with that file's path.
pub open spec fn spec_tree_get(files: Seq<ConfigFileView>, key: Seq<char>) -> Option<AnnotatedView>
    decreases files.len(),
{
    if files.len() == 0 {
        None
    } else {
        match spec_get(files.last().lines, key) {
            Some(v) => Some(AnnotatedView { value: v, source_file: files.last().path }),
            None => spec_tree_get(files.drop_last(), key),
        }
    }
}

pub open spec fn annotate(values: Seq<Seq<char>>, path: Seq<char>) -> Seq<AnnotatedView> {
    values.map_values(|v: Seq<char>| AnnotatedView { value: v, source_file: path })
}

/// Every value of `key` across the files in load order, each with its file.
pub open spec fn spec_tree_get_all(files: Seq<ConfigFileView>, key: Seq<char>) -> Seq<AnnotatedView>
    decreases files.len(),
{
    if files.len() == 0 {
        seq![]
    } else {
        spec_tree_get_all(files.drop_last(), key) + annotate(
            spec_get_all(files.last().lines, key),
            files.last().path,
        )
    }
}

/// Some file in load order sets `theme` to a non-empty value.
pub open spec fn spec_has_theme(files: Seq<ConfigFileView>) -> bool {
    exists|i: int|
        0 <= i < files.len() && (#[trigger] spec_get(files[i].lines, "theme"@) matches Some(v) && v.len()
            > 0)
}

proof fn lemma_files_step(p: ConfigFileView, incs: Seq<IncludedView>, i: int)
    requires
        0 <= i < incs.len(),
    ensures
        seq![p] + included_files(incs.take(i + 1)) == seq![p] + included_files(incs.take(i))
            + include_files(incs[i]),
{
    assert(incs.take(i + 1).drop_last() =~= incs.take(i));
    assert(incs.take(i + 1).last() == incs[i]);
    assert(seq![p] + included_files(incs.take(i + 1)) =~= seq![p] + included_files(incs.take(i))
        + include_files(incs[i]));
}

/// The effective value is the last of all values in load order: a file
/// loaded later overrides every file loaded before it.
pub proof fn law_tree_get_is_last(files: Seq<ConfigFileView>, key: Seq<char>)
    ensures
        spec_tree_get(files, key) == (if spec_tree_get_all(files, key).len() == 0 {
            None
        } else {
            Some(spec_tree_get_all(files, key).last())
        }),
    decreases files.len(),
{
    if files.len() > 0 {
        law_tree_get_is_last(files.drop_last(), key);
        let f = files.last();
        lemma_get_is_last(f.lines, key);
        let vals = spec_get_all(f.lines, key);
        let prev = spec_tree_get_all(files.drop_last(), key);
        let all = spec_tree_get_all(files, key);
        if vals.len() > 0 {
            assert(all.last() == annotate(vals, f.path).last());
        } else {
            assert(all =~= prev);
        }
    }
}

impl ConfigTree {
    /// Get the effective value for a key (last wins across load order).
    /// Load order: primary first, then includes in the order they were loaded.
    /// Later files override earlier ones.
    pub fn get(&self, key: &str) -> (r: Option<AnnotatedValue>)
        ensures
            (match r {
                Some(a) => Some(a@),
                None => None,
            }) == spec_tree_get(tree_files(self@), key@),
    {
        let ghost p = self@.primary;
        let ghost incs = self@.includes;
        let mut i = self.includes.len();
        assert(incs.take(i as int) =~= incs);
        while i > 0
            invariant
                i <= incs.len() == self.includes@.len(),
                p == self@.primary,
                incs == self@.includes,
                spec_tree_get(tree_files(self@), key@) == spec_tree_get(
                    seq![p] + included_files(incs.take(i as int)),
                    key@,
                ),
            decreases i,
        {
            proof {
                lemma_files_step(p, incs, i - 1);
                assert(incs[i - 1] == self.includes@[i - 1]@);
            }
            match &self.includes[i - 1].config {
                Some(config) => {
                    let ghost files = seq![p] + included_files(incs.take(i - 1)) + seq![config@];
                    assert(include_files(incs[i - 1]) =~= seq![config@]);
                    assert(files.drop_last() =~= seq![p] + included_files(incs.take(i - 1)));
                    assert(files.last() == config@);
                    match config.get(key) {
                        Some(value) => {
                            return Some(AnnotatedValue { value, source_file: config.path.clone() });
                        },
                        None => {},
                    }
                },
                None => {
                    assert(seq![p] + included_files(incs.take(i - 1)) + include_files(incs[i - 1])
                        =~= seq![p] + included_files(incs.take(i - 1)));
                },
            }
            i = i - 1;
        }
        assert(seq![p] + included_files(incs.take(0)) =~= seq![p]);
        assert(seq![p].drop_last() =~= Seq::<ConfigFileView>::empty());
        assert(seq![p].last() == p);
        assert(spec_tree_get(Seq::<ConfigFileView>::empty(), key@) == None::<AnnotatedView>);
        match self.primary.get(key) {
            Some(value) => Some(AnnotatedValue { value, source_file: self.primary.path.clone() }),
            None => None,
        }
    }

    /// Get all values for a key across all files, with source annotations.
    pub fn get_all(&self, key: &str) -> (r: Vec<AnnotatedValue>)
        ensures
            annotated_view(r@) == spec_tree_get_all(tree_files(self@), key@),
    {
        let ghost p = self@.primary;
        let ghost incs = self@.includes;
        let mut results: Vec<AnnotatedValue> = Vec::new();
        append_annotated(&mut results, &self.primary, key);
        assert(seq![p].drop_last() =~= Seq::<ConfigFileView>::empty());
        assert(seq![p].last() == p);
        assert(spec_tree_get_all(Seq::<ConfigFileView>::empty(), key@) =~= Seq::<AnnotatedView>::empty());
        assert(annotated_view(results@) =~= spec_tree_get_all(seq![p], key@));
        assert(seq![p] + included_files(incs.take(0)) =~= seq![p]);
        let n = self.includes.len();
        for i in 0..n
            invariant
                n == incs.len() == self.includes@.len(),
                p == self@.primary,
                incs == self@.includes,
                annotated_view(results@) == spec_tree_get_all(
                    seq![p] + included_files(incs.take(i as int)),
                    key@,
                ),
        {
            proof {
                lemma_files_step(p, incs, i as int);
                assert(incs[i as int] == self.includes@[i as int]@);
            }
            match &self.includes[i].config {
                Some(config) => {
                    let ghost before = seq![p] + included_files(incs.take(i as int));
                    assert(include_files(incs[i as int]) =~= seq![config@]);
                    assert((before + seq![config@]).drop_last() =~= before);
                    assert((before + seq![config@]).last() == config@);
                    append_annotated(&mut results, config, key);
                },
                None => {
                    assert(seq![p] + included_files(incs.take(i as int)) + include_files(incs[i as int])
                        =~= seq![p] + included_files(incs.take(i as int)));
                },
            }
        }
        assert(incs.take(n as int) =~= incs);
        results
    }

    /// Get all options as an annotated map grouped by key.
    pub fn to_annotated_map(&self) -> (r: KeyedLists<AnnotatedValue>)
        ensures
            r.sorted(),
            forall|k: Seq<char>| #[trigger] r.has_key(k) == (spec_tree_get_all(tree_files(self@), k).len() > 0),
            forall|k: Seq<char>| #[trigger] annotated_view(r.values_for(k)) == spec_tree_get_all(
                tree_files(self@),
                k,
            ),
    {
        let ghost p = self@.primary;
        let ghost incs = self@.includes;
        let mut map: KeyedLists<AnnotatedValue> = KeyedLists::new();
        proof {
            assert forall|k: Seq<char>| #[trigger] annotated_view(map.values_for(k)) == spec_tree_get_all(
                Seq::<ConfigFileView>::empty(),
                k,
            ) by {
                assert(annotated_view(map.values_for(k)) =~= Seq::<AnnotatedView>::empty());
            }
        }
        add_file_to_map(&mut map, &self.primary, Ghost(Seq::<ConfigFileView>::empty()));
        assert(seq![p] + included_files(incs.take(0)) =~= Seq::<ConfigFileView>::empty().push(p));
        let n = self.includes.len();
        for i in 0..n
            invariant
                n == incs.len() == self.includes@.len(),
                p == self@.primary,
                incs == self@.includes,
                map.sorted(),
                forall|k: Seq<char>| #[trigger] map.has_key(k) == (spec_tree_get_all(
                    seq![p] + included_files(incs.take(i as int)),
                    k,
                ).len() > 0),
                forall|k: Seq<char>| #[trigger] annotated_view(map.values_for(k)) == spec_tree_get_all(
                    seq![p] + included_files(incs.take(i as int)),
                    k,
                ),
        {
            proof {
                lemma_files_step(p, incs, i as int);
                assert(incs[i as int] == self.includes@[i as int]@);
            }
            let ghost before = seq![p] + included_files(incs.take(i as int));
            match &self.includes[i].config {
                Some(config) => {
                    add_file_to_map(&mut map, config, Ghost(before));
                    assert(before + include_files(incs[i as int]) =~= before.push(config@));
                },
                None => {
                    assert(before + include_files(incs[i as int]) =~= before);
                },
            }
        }
        assert(incs.take(n as int) =~= incs);
        map
    }

    /// Check if any file in the tree sets a `theme` to a non-empty value.
    pub fn has_theme_set(&self) -> (r: bool)
        ensures
            r == spec_has_theme(tree_files(self@)),
    {
        let ghost p = self@.primary;
        let ghost incs = self@.includes;
        let ghost files = tree_files(self@);
        assert(files[0] == p);
        match self.primary.get("theme") {
            Some(v) => {
                if !v.as_str().is_empty() {
                    assert(spec_get(files[0].lines, "theme"@) matches Some(v) && v.len() > 0);
                    return true;
                }
            },
            None => {},
        }
        assert(seq![p] + included_files(incs.take(0)) =~= seq![p]);
        let n = self.includes.len();
        for i in 0..n
            invariant
                n == incs.len() == self.includes@.len(),
                p == self@.primary,
                incs == self@.includes,
                files == tree_files(self@),
                !spec_has_theme(seq![p] + included_files(incs.take(i as int))),
        {
            proof {
                lemma_files_step(p, incs, i as int);
                assert(incs[i as int] == self.includes@[i as int]@);
            }
            let ghost before = seq![p] + included_files(incs.take(i as int));
            match &self.includes[i].config {
                Some(config) => {
                    let ghost after = before.push(config@);
                    assert(include_files(incs[i as int]) =~= seq![config@]);
                    assert(before + include_files(incs[i as int]) =~= after);
                    match config.get("theme") {
                        Some(v) => {
                            if !v.as_str().is_empty() {
                                proof {
                                    lemma_included_concat(incs.take(i + 1), incs.skip(i + 1));
                                    assert(incs =~= incs.take(i + 1) + incs.skip(i + 1));
                                    assert(files =~= after + included_files(incs.skip(i + 1)));
                                    lemma_prefix_has_theme(files, after, after.len() - 1);
                                }
                                return true;
                            }
                        },
                        None => {},
                    }
                    assert forall|j: int| 0 <= j < after.len() implies !(#[trigger] spec_get(
                        after[j].lines,
                        "theme"@,
                    ) matches Some(v) && v.len() > 0) by {
                        if j < before.len() {
                            assert(after[j] == before[j]);
                        }
                    }
                },
                None => {
                    assert(before + include_files(incs[i as int]) =~= before);
                },
            }
        }
        assert(incs.take(n as int) =~= incs);
        false
    }
}

proof fn lemma_included_concat(a: Seq<IncludedView>, b: Seq<IncludedView>)
    ensures
        included_files(a + b) == included_files(a) + included_files(b),
    decreases b.len(),
{
    if b.len() == 0 {
        assert(a + b =~= a);
        assert(included_files(a) + included_files(b) =~= included_files(a));
    } else {
        assert((a + b).drop_last() =~= a + b.drop_last());
        lemma_included_concat(a, b.drop_last());
        assert(included_files(a + b) =~= included_files(a) + included_files(b));
    }
}

proof fn lemma_prefix_has_theme(files: Seq<ConfigFileView>, prefix: Seq<ConfigFileView>, j: int)
    requires
        prefix.len() <= files.len(),
        forall|i: int| 0 <= i < prefix.len() ==> prefix[i] == files[i],
        0 <= j < prefix.len(),
        spec_get(prefix[j].lines, "theme"@) matches Some(v) && v.len() > 0,
    ensures
        spec_has_theme(files),
{
    assert(files[j] == prefix[j]);
}

fn append_annotated(results: &mut Vec<AnnotatedValue>, config: &ConfigFile, key: &str)
    ensures
        annotated_view(final(results)@) == annotated_view(old(results)@) + annotate(
            spec_get_all(config@.lines, key@),
            config@.path,
        ),
{
    let values = config.get_all(key);
    let ghost start = annotated_view(results@);
    let n = values.len();
    for j in 0..n
        invariant
            n == values@.len(),
            start == annotated_view(old(results)@),
            crate::config::parser::strs_view(values@) == spec_get_all(config@.lines, key@),
            annotated_view(results@) == start + annotate(
                crate::config::parser::strs_view(values@).take(j as int),
                config@.path,
            ),
    {
        let ghost before = annotated_view(results@);
        let item = AnnotatedValue { value: values[j].clone(), source_file: config.path.clone() };
        results.push(item);
        let ghost sv = crate::config::parser::strs_view(values@);
        assert(sv.take(j + 1) =~= sv.take(j as int).push(values@[j as int]@));
        assert(annotate(sv.take(j + 1), config@.path) =~= annotate(sv.take(j as int), config@.path).push(item@));
        assert(annotated_view(results@) =~= before.push(item@));
        assert(annotated_view(results@) =~= start + annotate(
            crate::config::parser::strs_view(values@).take(j + 1),
            config@.path,
        ));
    }
    assert(crate::config::parser::strs_view(values@).take(n as int) =~= crate::config::parser::strs_view(
        values@,
    ));
}

/// Adds every `key = value` line of `config` to `map`, each tagged with the
/// file's path, where `map` so far holds the values of the files `prev`.
fn add_file_to_map(map: &mut KeyedLists<AnnotatedValue>, config: &ConfigFile, Ghost(prev): Ghost<Seq<ConfigFileView>>)
    requires
        old(map).sorted(),
        forall|k: Seq<char>| #[trigger] old(map).has_key(k) == (spec_tree_get_all(prev, k).len() > 0),
        forall|k: Seq<char>| #[trigger] annotated_view(old(map).values_for(k)) == spec_tree_get_all(prev, k),
    ensures
        final(map).sorted(),
        forall|k: Seq<char>| #[trigger] final(map).has_key(k) == (spec_tree_get_all(prev.push(config@), k).len() > 0),
        forall|k: Seq<char>| #[trigger] annotated_view(final(map).values_for(k)) == spec_tree_get_all(
            prev.push(config@),
            k,
        ),
{
    let ghost lv = config@.lines;
    let ghost path = config@.path;
    let n = config.lines.len();
    assert forall|k: Seq<char>| #[trigger] spec_tree_get_all(prev, k) == spec_tree_get_all(prev, k) + annotate(spec_get_all(lv.take(0), k), path) by {
        assert(spec_tree_get_all(prev, k) + annotate(spec_get_all(lv.take(0), k), path) =~= spec_tree_get_all(prev, k));
    }
    for i in 0..n
        invariant
            n == lv.len() == config.lines@.len(),
            lv == config@.lines,
            path == config@.path,
            map.sorted(),
            forall|k: Seq<char>| #[trigger] map.has_key(k) == (spec_tree_get_all(prev, k).len() > 0
                || spec_get_all(lv.take(i as int), k).len() > 0),
            forall|k: Seq<char>| #[trigger] annotated_view(map.values_for(k)) == spec_tree_get_all(prev, k)
                + annotate(spec_get_all(lv.take(i as int), k), path),
    {
        assert(lv.take(i + 1).drop_last() =~= lv.take(i as int));
        assert(lv.take(i + 1).last() == config.lines@[i as int]@);
        match &config.lines[i] {
            ConfigLine::KeyValue { key, value } => {
                let ghost before = *map;
                map.push_value(key, AnnotatedValue { value: value.clone(), source_file: config.path.clone() });
                assert forall|k: Seq<char>| #[trigger] annotated_view(map.values_for(k)) == spec_tree_get_all(prev, k)
                    + annotate(spec_get_all(lv.take(i + 1), k), path) by {
                    assert(spec_get_all(lv.take(i + 1), k) =~= spec_get_all(lv.take(i as int), k)
                        + line_values(lv[i as int], k));
                    if k == key@ {
                        assert(annotated_view(map.values_for(k)) =~= annotated_view(before.values_for(k)).push(
                            AnnotatedView { value: value@, source_file: path },
                        ));
                    }
                    assert(annotated_view(map.values_for(k)) =~= spec_tree_get_all(prev, k) + annotate(
                        spec_get_all(lv.take(i + 1), k),
                        path,
                    ));
                }
                assert forall|k: Seq<char>| #[trigger] map.has_key(k) == (spec_tree_get_all(prev, k).len() > 0
                    || spec_get_all(lv.take(i + 1), k).len() > 0) by {
                    assert(spec_get_all(lv.take(i + 1), k) =~= spec_get_all(lv.take(i as int), k)
                        + line_values(lv[i as int], k));
                }
            },
            _ => {
                assert forall|k: Seq<char>| spec_get_all(lv.take(i + 1), k) == spec_get_all(lv.take(i as int), k) by {
                    assert(spec_get_all(lv.take(i + 1), k) =~= spec_get_all(lv.take(i as int), k)
                        + line_values(lv[i as int], k));
                }
            },
        }
    }
    assert(lv.take(n as int) =~= lv);
    assert(prev.push(config@).drop_last() =~= prev);
    assert forall|k: Seq<char>| #[trigger] spec_tree_get_all(prev.push(config@), k) == spec_tree_get_all(prev, k)
        + annotate(spec_get_all(lv, k), path) by {}
}

} // verus!
