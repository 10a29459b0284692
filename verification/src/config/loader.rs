//! The decisions of loading an include tree, as a state machine: which
//! `config-file` directive comes next, which files were seen already, and
//! what each read adds. The caller resolves paths and reads files, and
//! hands the results back.

use vstd::prelude::*;
use vstd::string::StringExecFns;
use crate::config::parser::{ConfigFile, ConfigFileView, spec_get_all, spec_parse, strs_view};
use crate::config::tree::{ConfigTree, IncludedFile, IncludedView, TreeView, includes_view};
use crate::text::{spec_trim, to_chars, trim_range, string_of};

verus! {

/// Parse a config-file directive value: a leading '?' marks the include
/// optional, and the remaining path may be wrapped in double quotes (the
/// quoting Ghostty requires for paths starting with a literal '?').
pub open spec fn spec_parse_directive(d: Seq<char>) -> (bool, Seq<char>) {
    let optional = d.len() > 0 && d[0] == '?';
    let rest = spec_trim(
        if optional {
            d.drop_first()
        } else {
            d
        },
    );
    let unquoted = if rest.len() >= 2 && rest[0] == '"' && rest.last() == '"' {
        rest.subrange(1, rest.len() - 1)
    } else {
        rest
    };
    (optional, unquoted)
}

/// Parse a config-file directive value: a leading '?' marks the include
/// optional, and the remaining path may be wrapped in double quotes.
pub fn parse_include_directive(directive: &str) -> (r: (bool, String))
    ensures
        (r.0, r.1@) == spec_parse_directive(directive@),
{
    let v = to_chars(directive);
    let optional = v.len() > 0 && v[0] == '?';
    let start: usize = if optional {
        1
    } else {
        0
    };
    let (a, b) = trim_range(v.as_slice(), start, v.len());
    proof {
        if optional {
            assert(v@.subrange(1, v@.len() as int) =~= v@.drop_first());
        } else {
            assert(v@.subrange(0, v@.len() as int) =~= v@);
        }
    }
    let ghost rest = v@.subrange(a as int, b as int);
    if b - a >= 2 && v[a] == '"' && v[b - 1] == '"' {
        assert(rest[0] == v@[a as int]);
        assert(rest.last() == v@[b - 1]);
        assert(rest.subrange(1, rest.len() - 1) =~= v@.subrange(a + 1, b - 1));
        (optional, string_of(v.as_slice(), a + 1, b - 1))
    } else {
        proof {
            if b - a >= 2 {
                assert(rest[0] == v@[a as int]);
                assert(rest.last() == v@[b - 1]);
            }
        }
        (optional, string_of(v.as_slice(), a, b))
    }
}

/// A `config-file` directive waiting to be loaded: its value, the directory
/// of the file that declared it, and that file's path.
pub struct PendingInclude {
    pub directive: String,
    pub base_dir: String,
    pub included_from: String,
}

pub struct PendingView {
    pub directive: Seq<char>,
    pub base_dir: Seq<char>,
    pub included_from: Seq<char>,
}

impl View for PendingInclude {
    type V = PendingView;

    open spec fn view(&self) -> PendingView {
        PendingView {
            directive: self.directive@,
            base_dir: self.base_dir@,
            included_from: self.included_from@,
        }
    }
}

/// The path of an include to be resolved against `base_dir`, and the file
/// that declared it.
pub struct IncludeRequest {
    pub raw_path: String,
    pub base_dir: String,
    pub included_from: String,
}

/// What reading a resolved include gave.
pub enum ReadOutcome {
    /// The file's text, and the directory that holds it.
    Contents { text: String, dir: String },
    /// No file at that path.
    NotFound,
    /// Any other failure, with its message.
    Failed(String),
}

/// Why loading stopped.
pub enum LoadError {
    /// A required include does not exist.
    NotFound { resolved_path: String, included_from: String },
    /// Reading failed otherwise.
    Io(String),
}

impl LoadError {
    pub open spec fn spec_message(&self) -> Seq<char> {
        match self {
            LoadError::NotFound { resolved_path, included_from } => "Included config file not found: "@
                + resolved_path@ + " (included from "@ + included_from@ + ")"@,
            LoadError::Io(m) => m@,
        }
    }

    /// The error's message.
    pub fn message(&self) -> (r: String)
        ensures
            r@ == self.spec_message(),
    {
        match self {
            LoadError::NotFound { resolved_path, included_from } => {
                let mut s = String::new();
                s.append("Included config file not found: ");
                s.append(resolved_path.as_str());
                s.append(" (included from ");
                s.append(included_from.as_str());
                s.append(")");
                s
            },
            LoadError::Io(m) => m.clone(),
        }
    }
}

/// The directive being loaded: what was queued, whether it is optional,
/// and, once visited, its resolved and its canonical path.
pub struct CurrentView {
    pub pending: PendingView,
    pub optional: bool,
    pub resolved: Option<Seq<char>>,
    pub canonical: Option<Seq<char>>,
}

struct Current {
    pending: PendingInclude,
    optional: bool,
    resolved: Option<String>,
    canonical: Option<String>,
}

pub struct LoaderView {
    pub primary: ConfigFileView,
    pub includes: Seq<IncludedView>,
    pub queue: Seq<PendingView>,
    pub visited: Seq<Seq<char>>,
    /// The canonical path of each include recorded, in order.
    pub loaded: Seq<Seq<char>>,
    pub current: Option<CurrentView>,
}

/// Loads a config file's includes in Ghostty's order: a queue of
/// directives, where a file's own directives are queued behind everything
/// already waiting, and a file already loaded (by canonical path) is skipped.
pub struct TreeLoader {
    primary: ConfigFile,
    includes: Vec<IncludedFile>,
    queue: Vec<PendingInclude>,
    head: usize,
    visited: Vec<String>,
    loaded: Vec<String>,
    current: Option<Current>,
}

pub open spec fn pendings_view(s: Seq<PendingInclude>) -> Seq<PendingView> {
    s.map_values(|p: PendingInclude| p@)
}

/// The directives `directives` of the file at `from`, which lies in `dir`.
pub open spec fn pending_for(directives: Seq<Seq<char>>, dir: Seq<char>, from: Seq<char>) -> Seq<
    PendingView,
> {
    directives.map_values(|d: Seq<char>| PendingView { directive: d, base_dir: dir, included_from: from })
}

/// Index of the first queued directive that names a path, or the queue's
/// length when none does.
pub open spec fn first_named(q: Seq<PendingView>) -> int
    decreases q.len(),
{
    if q.len() == 0 {
        0
    } else if spec_parse_directive(q[0].directive).1.len() > 0 {
        0
    } else {
        first_named(q.drop_first()) + 1
    }
}

proof fn lemma_first_named(q: Seq<PendingView>, i: int)
    requires
        0 <= i <= q.len(),
        forall|j: int| 0 <= j < i ==> spec_parse_directive(#[trigger] q[j].directive).1.len() == 0,
        i < q.len() ==> spec_parse_directive(q[i].directive).1.len() > 0,
    ensures
        first_named(q) == i,
    decreases q.len(),
{
    if q.len() > 0 && i > 0 {
        assert forall|j: int| 0 <= j < i - 1 implies spec_parse_directive(
            #[trigger] q.drop_first()[j].directive,
        ).1.len() == 0 by {
            assert(q.drop_first()[j] == q[j + 1]);
        }
        if i < q.len() {
            assert(q.drop_first()[i - 1] == q[i]);
        }
        lemma_first_named(q.drop_first(), i - 1);
    }
}

/// An include as the loader records it: its directive names a path, a
/// missing config belongs to an optional include, and a loaded config
/// carries the include's resolved path.
pub open spec fn finished_include(inc: IncludedView) -> bool {
    &&& spec_parse_directive(inc.directive).1.len() > 0
    &&& inc.config is None ==> inc.optional
    &&& inc.config matches Some(c) ==> c.path == inc.resolved_path
}

impl TreeLoader {
    pub closed spec fn spec_view(&self) -> LoaderView {
        LoaderView {
            primary: self.primary@,
            includes: includes_view(self.includes@),
            queue: pendings_view(self.queue@).skip(self.head as int),
            visited: strs_view(self.visited@),
            loaded: strs_view(self.loaded@),
            current: match self.current {
                Some(c) => Some(
                    CurrentView {
                        pending: c.pending@,
                        optional: c.optional,
                        resolved: match c.resolved {
                            Some(r) => Some(r@),
                            None => None,
                        },
                        canonical: match c.canonical {
                            Some(k) => Some(k@),
                            None => None,
                        },
                    },
                ),
                None => None,
            },
        }
    }

    /// No canonical path was visited twice, so no file loads twice; every
    /// include recorded took its own visited path after the primary's; a
    /// missing config belongs to an optional include; a loaded config has
    /// the include's resolved path; and every directive taken names a path.
    pub closed spec fn wf(&self) -> bool {
        let v = self.spec_view();
        &&& self.head <= self.queue@.len()
        &&& v.visited.no_duplicates()
        &&& self.includes@.len() + (if self.current matches Some(c) && c.resolved is Some {
            1int
        } else {
            0int
        }) < self.visited@.len()
        &&& v.loaded.len() == v.includes.len()
        &&& v.loaded.no_duplicates()
        &&& forall|i: int| 0 <= i < v.loaded.len() ==> v.visited.drop_first().contains(#[trigger] v.loaded[i])
        &&& forall|i: int| 0 <= i < v.includes.len() ==> finished_include(#[trigger] v.includes[i])
        &&& match v.current {
            Some(c) => {
                &&& spec_parse_directive(c.pending.directive).1.len() > 0
                &&& (c.resolved is Some <==> c.canonical is Some)
                &&& c.canonical matches Some(k) ==> v.visited.len() >= 2 && k == v.visited.last()
                    && !v.loaded.contains(k)
            },
            None => true,
        }
    }

    pub open spec fn visited_no_duplicates(&self) -> bool {
        self.spec_view().visited.no_duplicates()
    }

    pub proof fn lemma_wf(&self)
        requires
            self.wf(),
        ensures
            self.visited_no_duplicates(),
            self.spec_view().includes.len() < self.spec_view().visited.len(),
    {
    }

    /// Starts loading the includes of `primary`, whose directory is
    /// `primary_dir` and whose canonical path is `canonical_primary`.
    pub fn new(primary: ConfigFile, primary_dir: &str, canonical_primary: &str) -> (r: TreeLoader)
        ensures
            r.wf(),
            r.spec_view() == (LoaderView {
                primary: primary@,
                includes: Seq::<IncludedView>::empty(),
                queue: pending_for(spec_get_all(primary@.lines, "config-file"@), primary_dir@, primary@.path),
                visited: seq![canonical_primary@],
                loaded: Seq::<Seq<char>>::empty(),
                current: None,
            }),
    {
        let directives = primary.get_all("config-file");
        let mut queue: Vec<PendingInclude> = Vec::new();
        let n = directives.len();
        for i in 0..n
            invariant
                n == directives@.len(),
                pendings_view(queue@) == pending_for(strs_view(directives@).take(i as int), primary_dir@, primary@.path),
        {
            let ghost before = pendings_view(queue@);
            let p = PendingInclude {
                directive: directives[i].clone(),
                base_dir: primary_dir.to_owned(),
                included_from: primary.path.clone(),
            };
            queue.push(p);
            assert(strs_view(directives@).take(i + 1) =~= strs_view(directives@).take(i as int).push(
                directives@[i as int]@,
            ));
            assert(pendings_view(queue@) =~= before.push(p@));
            assert(pendings_view(queue@) =~= pending_for(strs_view(directives@).take(i + 1), primary_dir@, primary@.path));
        }
        assert(strs_view(directives@).take(n as int) =~= strs_view(directives@));
        let mut visited: Vec<String> = Vec::new();
        visited.push(canonical_primary.to_owned());
        let r = TreeLoader { primary, includes: Vec::new(), queue, head: 0, visited, loaded: Vec::new(), current: None };
        assert(pendings_view(r.queue@).skip(0) =~= pendings_view(r.queue@));
        assert(strs_view(r.visited@) =~= seq![canonical_primary@]);
        assert(includes_view(r.includes@) =~= Seq::<IncludedView>::empty());
        assert(strs_view(r.loaded@) =~= Seq::<Seq<char>>::empty());
        r
    }

    /// Takes the next queued directive that names a path (directives that
    /// name none are dropped) and asks for its path to be resolved; `None`
    /// once the queue is empty.
    pub fn next_include(&mut self) -> (r: Option<IncludeRequest>)
        requires
            old(self).wf(),
        ensures
            final(self).wf(),
            final(self).spec_view().primary == old(self).spec_view().primary,
            final(self).spec_view().includes == old(self).spec_view().includes,
            final(self).spec_view().visited == old(self).spec_view().visited,
            final(self).spec_view().loaded == old(self).spec_view().loaded,
            ({
                let q = old(self).spec_view().queue;
                let k = first_named(q);
                if k < q.len() {
                    let (optional, raw) = spec_parse_directive(q[k].directive);
                    &&& r matches Some(req) && req.raw_path@ == raw && req.base_dir@ == q[k].base_dir
                        && req.included_from@ == q[k].included_from
                    &&& final(self).spec_view().queue == q.skip(k + 1)
                    &&& final(self).spec_view().current == Some(
                        CurrentView { pending: q[k], optional, resolved: None, canonical: None },
                    )
                } else {
                    &&& r is None
                    &&& final(self).spec_view().queue == Seq::<PendingView>::empty()
                    &&& final(self).spec_view().current is None
                }
            }),
    {
        let ghost q = old(self).spec_view().queue;
        let ghost h0 = self.head;
        let n = self.queue.len();
        self.current = None;
        while self.head < n
            invariant
                h0 <= self.head <= n == self.queue@.len(),
                h0 == old(self).head,
                old(self).wf(),
                q == old(self).spec_view().queue,
                q == pendings_view(self.queue@).skip(h0 as int),
                self.current is None,
                self.primary == old(self).primary,
                self.includes == old(self).includes,
                self.visited == old(self).visited,
                self.loaded == old(self).loaded,
                self.queue == old(self).queue,
                forall|j: int| 0 <= j < self.head - h0 ==> spec_parse_directive(#[trigger] q[j].directive).1.len()
                    == 0,
            decreases n - self.head,
        {
            let i = self.head;
            assert(q[i - h0] == self.queue@[i as int]@);
            let (optional, raw) = parse_include_directive(self.queue[i].directive.as_str());
            self.head = i + 1;
            if !raw.as_str().is_empty() {
                let p = &self.queue[i];
                let pending = PendingInclude {
                    directive: p.directive.clone(),
                    base_dir: p.base_dir.clone(),
                    included_from: p.included_from.clone(),
                };
                let req = IncludeRequest {
                    raw_path: raw,
                    base_dir: p.base_dir.clone(),
                    included_from: p.included_from.clone(),
                };
                self.current = Some(Current { pending, optional, resolved: None, canonical: None });
                proof {
                    lemma_first_named(q, i - h0);
                    assert(pendings_view(self.queue@).skip(self.head as int) =~= q.skip(i - h0 + 1));
                    assert(self.spec_view().current->0.pending == q[i - h0]);
                    assert(spec_parse_directive(self.spec_view().current->0.pending.directive).1.len() > 0);
                    assert(self.spec_view().includes == old(self).spec_view().includes);
                    assert(self.spec_view().loaded == old(self).spec_view().loaded);
                    assert(self.spec_view().visited == old(self).spec_view().visited);
                }
                return Some(req);
            }
        }
        proof {
            lemma_first_named(q, n - h0);
            assert(pendings_view(self.queue@).skip(self.head as int) =~= Seq::<PendingView>::empty());
            assert(self.spec_view().includes == old(self).spec_view().includes);
            assert(self.spec_view().loaded == old(self).spec_view().loaded);
            assert(self.spec_view().visited == old(self).spec_view().visited);
        }
        None
    }

    /// Records the canonical path of the include being loaded. Returns
    /// whether to read it: `false` means that path was loaded already (a
    /// cycle), and the include is dropped.
    pub fn visit(&mut self, resolved: String, canonical: String) -> (read: bool)
        requires
            old(self).wf(),
            old(self).spec_view().current is Some,
        ensures
            final(self).wf(),
            final(self).spec_view().primary == old(self).spec_view().primary,
            final(self).spec_view().includes == old(self).spec_view().includes,
            final(self).spec_view().queue == old(self).spec_view().queue,
            final(self).spec_view().loaded == old(self).spec_view().loaded,
            read == !old(self).spec_view().visited.contains(canonical@),
            read ==> final(self).spec_view().visited == old(self).spec_view().visited.push(canonical@),
            read ==> final(self).spec_view().current == Some(
                CurrentView {
                    resolved: Some(resolved@),
                    canonical: Some(canonical@),
                    ..old(self).spec_view().current->0
                },
            ),
            !read ==> final(self).spec_view().visited == old(self).spec_view().visited,
            !read ==> final(self).spec_view().current is None,
    {
        let ghost vs = strs_view(self.visited@);
        let n = self.visited.len();
        for i in 0..n
            invariant
                n == self.visited@.len(),
                *self == *old(self),
                old(self).wf(),
                old(self).spec_view().current is Some,
                vs == strs_view(self.visited@),
                forall|j: int| 0 <= j < i ==> vs[j] != canonical@,
        {
            assert(vs[i as int] == self.visited@[i as int]@);
            if self.visited[i] == canonical {
                self.current = None;
                return false;
            }
        }
        let ghost old_current = self.current;
        let k = canonical.clone();
        let ghost v0 = old(self).spec_view();
        self.visited.push(canonical);
        assert(strs_view(self.visited@) =~= vs.push(canonical@));
        proof {
            let nv = vs.push(canonical@);
            assert forall|i: int| 0 <= i < v0.loaded.len() implies nv.drop_first().contains(#[trigger] v0.loaded[i]) by {
                assert(vs.drop_first().contains(v0.loaded[i]));
                let p = choose|p: int| 0 <= p < vs.drop_first().len() && vs.drop_first()[p] == v0.loaded[i];
                assert(nv.drop_first()[p] == v0.loaded[i]);
            }
            if v0.loaded.contains(canonical@) {
                let t = choose|t: int| 0 <= t < v0.loaded.len() && v0.loaded[t] == canonical@;
                assert(vs.drop_first().contains(v0.loaded[t]));
                let p = choose|p: int| 0 <= p < vs.drop_first().len() && vs.drop_first()[p] == v0.loaded[t];
                assert(vs[p + 1] == canonical@);
                assert(false);
            }
        }
        let cur = self.current.take();
        match cur {
            Some(c) => {
                self.current = Some(
                    Current { pending: c.pending, optional: c.optional, resolved: Some(resolved), canonical: Some(k) },
                );
            },
            None => {},
        }
        true
    }

    /// Takes in what reading the current include gave. Its text is parsed
    /// and its directives queued behind the waiting ones; a missing
    /// optional include is recorded without a config; a missing required
    /// include, or any other failure, stops loading with an error.
    pub fn file_read(&mut self, outcome: ReadOutcome) -> (r: Result<(), LoadError>)
        requires
            old(self).wf(),
            old(self).spec_view().current matches Some(c) && c.resolved is Some,
        ensures
            final(self).wf(),
            final(self).spec_view().primary == old(self).spec_view().primary,
            final(self).spec_view().visited == old(self).spec_view().visited,
            final(self).spec_view().current is None,
            r is Ok ==> final(self).spec_view().loaded == old(self).spec_view().loaded.push(
                old(self).spec_view().current->0.canonical->0,
            ),
            r is Err ==> final(self).spec_view().loaded == old(self).spec_view().loaded,
            ({
                let c = old(self).spec_view().current->0;
                let resolved = c.resolved->0;
                let old_v = old(self).spec_view();
                match outcome {
                    ReadOutcome::Contents { text, dir } => {
                        let config = ConfigFileView { lines: spec_parse(text@), path: resolved };
                        &&& r is Ok
                        &&& final(self).spec_view().queue == old_v.queue + pending_for(
                            spec_get_all(config.lines, "config-file"@),
                            dir@,
                            resolved,
                        )
                        &&& final(self).spec_view().includes == old_v.includes.push(
                            IncludedView {
                                directive: c.pending.directive,
                                resolved_path: resolved,
                                optional: c.optional,
                                config: Some(config),
                                included_from: c.pending.included_from,
                            },
                        )
                    },
                    ReadOutcome::NotFound => if c.optional {
                        &&& r is Ok
                        &&& final(self).spec_view().queue == old_v.queue
                        &&& final(self).spec_view().includes == old_v.includes.push(
                            IncludedView {
                                directive: c.pending.directive,
                                resolved_path: resolved,
                                optional: c.optional,
                                config: None,
                                included_from: c.pending.included_from,
                            },
                        )
                    } else {
                        &&& r matches Err(LoadError::NotFound { resolved_path, included_from })
                        &&& resolved_path@ == resolved
                        &&& included_from@ == c.pending.included_from
                        &&& final(self).spec_view().queue == old_v.queue
                        &&& final(self).spec_view().includes == old_v.includes
                    },
                    ReadOutcome::Failed(m) => {
                        &&& r matches Err(LoadError::Io(e)) && e@ == m@
                        &&& final(self).spec_view().queue == old_v.queue
                        &&& final(self).spec_view().includes == old_v.includes
                    },
                }
            }),
    {
        let ghost old_v = old(self).spec_view();
        let ghost incs0 = includes_view(self.includes@);
        let cur = self.current.take();
        let c = match cur {
            Some(c) => c,
            None => {
                return Ok(());
            },
        };
        let resolved = match c.resolved {
            Some(r) => r,
            None => {
                return Ok(());
            },
        };
        let canonical = match c.canonical {
            Some(k) => k,
            None => {
                return Ok(());
            },
        };
        let ghost loaded0 = strs_view(self.loaded@);
        match outcome {
            ReadOutcome::Contents { text, dir } => {
                let config = ConfigFile::parse(text.as_str(), resolved.as_str());
                let nested = config.get_all("config-file");
                let ghost q0 = pendings_view(self.queue@);
                let n = nested.len();
                for i in 0..n
                    invariant
                        n == nested@.len(),
                        self.head <= q0.len(),
                        self.head == old(self).head,
                        self.primary == old(self).primary,
                        self.includes == old(self).includes,
                        self.visited == old(self).visited,
                        self.loaded == old(self).loaded,
                        self.current is None,
                        incs0 == includes_view(self.includes@),
                        old(self).wf(),
                        pendings_view(self.queue@) == q0 + pending_for(strs_view(nested@).take(i as int), dir@, resolved@),
                {
                    let ghost before = pendings_view(self.queue@);
                    let p = PendingInclude {
                        directive: nested[i].clone(),
                        base_dir: dir.clone(),
                        included_from: resolved.clone(),
                    };
                    self.queue.push(p);
                    assert(strs_view(nested@).take(i + 1) =~= strs_view(nested@).take(i as int).push(nested@[i as int]@));
                    assert(pendings_view(self.queue@) =~= before.push(p@));
                    assert(pendings_view(self.queue@) =~= q0 + pending_for(strs_view(nested@).take(i + 1), dir@, resolved@));
                }
                assert(strs_view(nested@).take(n as int) =~= strs_view(nested@));
                assert(pendings_view(self.queue@).skip(self.head as int) =~= q0.skip(self.head as int)
                    + pending_for(strs_view(nested@), dir@, resolved@));
                let inc = IncludedFile {
                    directive: c.pending.directive,
                    resolved_path: resolved,
                    optional: c.optional,
                    config: Some(config),
                    included_from: c.pending.included_from,
                };
                self.includes.push(inc);
                assert(includes_view(self.includes@) =~= incs0.push(inc@));
                self.loaded.push(canonical);
                assert(strs_view(self.loaded@) =~= loaded0.push(old_v.current->0.canonical->0));
                proof {
                    let v = self.spec_view();
                    assert(v.includes.last() == inc@);
                    assert(finished_include(inc@));
                    assert(forall|i: int| 0 <= i < v.includes.len() ==> finished_include(#[trigger] v.includes[i]));
                    assert(v.loaded.no_duplicates());
                    assert forall|i: int| 0 <= i < v.loaded.len() implies v.visited.drop_first().contains(#[trigger] v.loaded[i]) by {
                        if i == v.loaded.len() - 1 {
                            let d = v.visited.drop_first();
                            assert(d[d.len() - 1] == v.visited.last());
                        } else {
                            assert(v.loaded[i] == loaded0[i]);
                        }
                    }
                    assert(self.head <= self.queue@.len());
                    assert(v.visited.no_duplicates());
                }
                Ok(())
            },
            ReadOutcome::NotFound => {
                if c.optional {
                    let inc = IncludedFile {
                        directive: c.pending.directive,
                        resolved_path: resolved,
                        optional: c.optional,
                        config: None,
                        included_from: c.pending.included_from,
                    };
                    self.includes.push(inc);
                    assert(includes_view(self.includes@) =~= incs0.push(inc@));
                    self.loaded.push(canonical);
                    assert(strs_view(self.loaded@) =~= loaded0.push(old_v.current->0.canonical->0));
                    proof {
                        let v = self.spec_view();
                        assert forall|i: int| 0 <= i < v.loaded.len() implies v.visited.drop_first().contains(#[trigger] v.loaded[i]) by {
                            if i == v.loaded.len() - 1 {
                                let d = v.visited.drop_first();
                                assert(d[d.len() - 1] == v.visited.last());
                            } else {
                                assert(v.loaded[i] == loaded0[i]);
                            }
                        }
                    }
                    Ok(())
                } else {
                    Err(LoadError::NotFound { resolved_path: resolved, included_from: c.pending.included_from })
                }
            },
            ReadOutcome::Failed(m) => Err(LoadError::Io(m)),
        }
    }

    /// The tree loaded so far. Each of its includes was loaded from its own
    /// canonical path, none of them the primary's, so an include cycle ends
    /// after one round; a missing config belongs to an optional include; a
    /// loaded config carries the include's resolved path; and every
    /// include's directive names a path.
    pub fn finish(self) -> (r: ConfigTree)
        requires
            self.wf(),
        ensures
            r@ == (TreeView { primary: self.spec_view().primary, includes: self.spec_view().includes }),
            self.spec_view().loaded.len() == r@.includes.len(),
            (seq![self.spec_view().visited[0]] + self.spec_view().loaded).no_duplicates(),
            forall|i: int| 0 <= i < r@.includes.len() ==> finished_include(#[trigger] r@.includes[i]),
    {
        proof {
            let v = self.spec_view();
            let all = seq![v.visited[0]] + v.loaded;
            assert forall|i: int, j: int| 0 <= i < all.len() && 0 <= j < all.len() && i != j implies all[i]
                != all[j] by {
                if i == 0 || j == 0 {
                    let t = if i == 0 {
                        j
                    } else {
                        i
                    };
                    assert(all[t] == v.loaded[t - 1]);
                    assert(v.visited.drop_first().contains(v.loaded[t - 1]));
                    let p = choose|p: int| 0 <= p < v.visited.drop_first().len() && v.visited.drop_first()[p]
                        == v.loaded[t - 1];
                    assert(v.visited[p + 1] == v.visited[0] ==> p + 1 == 0);
                } else {
                    assert(all[i] == v.loaded[i - 1] && all[j] == v.loaded[j - 1]);
                }
            }
        }
        ConfigTree { primary: self.primary, includes: self.includes }
    }
}

} // verus!
