//! Line-preserving parser for Ghostty config files.

use vstd::prelude::*;
use vstd::string::StringExecFns;
use crate::keyed::{KeyedLists, key_of, lemma_sorted_position, entries_position};
use crate::config::validator::entries_view;
use crate::text::{lex_lt, lemma_sorted_unique, has_char, spec_trim_start, lemma_trimmed_ends, lemma_trim_space_around, lemma_first_index_is, spec_is_whitespace, push_char, first_index_of, lemma_first_index_of, spec_trim, trim_range, string_of, find_char, to_chars};

verus! {

/// What a config line means, over plain sequences of characters.
pub enum LineView {
    Comment(Seq<char>),
    Empty,
    KeyValue(Seq<char>, Seq<char>),
}

/// A single line from the config file, preserving format.
#[derive(Debug, Clone)]
pub enum ConfigLine {
    /// A comment line (starts with #)
    Comment(String),
    /// An empty line
    Empty,
    /// A key-value pair: key = value, as written in the file
    KeyValue { key: String, value: String },
}

impl View for ConfigLine {
    type V = LineView;

    open spec fn view(&self) -> LineView {
        match self {
            ConfigLine::Comment(s) => LineView::Comment(s@),
            ConfigLine::Empty => LineView::Empty,
            ConfigLine::KeyValue { key, value } => LineView::KeyValue(key@, value@),
        }
    }
}

/// Parsed config file preserving structure for round-trip editing.
#[derive(Debug, Clone)]
pub struct ConfigFile {
    pub lines: Vec<ConfigLine>,
    pub path: String,
}

/// A config file as plain values: its lines and its path.
pub struct ConfigFileView {
    pub lines: Seq<LineView>,
    pub path: Seq<char>,
}

pub open spec fn lines_view(lines: Seq<ConfigLine>) -> Seq<LineView> {
    lines.map_values(|l: ConfigLine| l@)
}

impl View for ConfigFile {
    type V = ConfigFileView;

    open spec fn view(&self) -> ConfigFileView {
        ConfigFileView { lines: lines_view(self.lines@), path: self.path@ }
    }
}

/// `line` without one trailing carriage return.
pub open spec fn strip_cr(t: Seq<char>) -> Seq<char> {
    if t.len() > 0 && t.last() == '\r' {
        t.drop_last()
    } else {
        t
    }
}

/// `str::lines`: split at `\n`, a `\r` right before the `\n` dropped, and
/// no empty line after a final `\n`.
pub open spec fn spec_lines(s: Seq<char>) -> Seq<Seq<char>>
    decreases s.len(),
{
    if s.len() == 0 {
        seq![]
    } else {
        let k = first_index_of(s, '\n');
        if k < 0 {
            seq![s]
        } else {
            proof {
                lemma_first_index_of(s, '\n');
            }
            seq![strip_cr(s.take(k))] + spec_lines(s.skip(k + 1))
        }
    }
}

/// The meaning of one line: blank, a comment (starting with `#` or lacking
/// `=`), or a key and a value split at the first `=` and trimmed.
pub open spec fn spec_parse_line(line: Seq<char>) -> LineView {
    let t = spec_trim(line);
    if t.len() == 0 {
        LineView::Empty
    } else if t[0] == '#' {
        LineView::Comment(line)
    } else {
        let e = first_index_of(line, '=');
        if e >= 0 {
            LineView::KeyValue(spec_trim(line.take(e)), spec_trim(line.skip(e + 1)))
        } else {
            LineView::Comment(line)
        }
    }
}

/// The lines of a whole file.
pub open spec fn spec_parse(s: Seq<char>) -> Seq<LineView> {
    spec_lines(s).map_values(|l: Seq<char>| spec_parse_line(l))
}

fn parse_line(v: &Vec<char>, a: usize, b: usize) -> (r: ConfigLine)
    requires
        a <= b <= v@.len(),
    ensures
        r@ == spec_parse_line(v@.subrange(a as int, b as int)),
{
    let ghost line = v@.subrange(a as int, b as int);
    let (ta, tb) = trim_range(v.as_slice(), a, b);
    if ta == tb {
        return ConfigLine::Empty;
    }
    assert(spec_trim(line)[0] == v@[ta as int]);
    if v[ta] == '#' {
        return ConfigLine::Comment(string_of(v.as_slice(), a, b));
    }
    let e = find_char(v.as_slice(), a, b, '=');
    if e < b {
        assert(line.take(e - a) =~= v@.subrange(a as int, e as int));
        assert(line.skip(e - a + 1) =~= v@.subrange(e + 1, b as int));
        let (ka, kb) = trim_range(v.as_slice(), a, e);
        let (va, vb) = trim_range(v.as_slice(), e + 1, b);
        ConfigLine::KeyValue {
            key: string_of(v.as_slice(), ka, kb),
            value: string_of(v.as_slice(), va, vb),
        }
    } else {
        ConfigLine::Comment(string_of(v.as_slice(), a, b))
    }
}

pub open spec fn strs_view(s: Seq<String>) -> Seq<Seq<char>> {
    s.map_values(|x: String| x@)
}

pub open spec fn opt_view(o: Option<String>) -> Option<Seq<char>> {
    match o {
        Some(s) => Some(s@),
        None => None,
    }
}

/// The value of the last `key = value` line for `key`.
pub open spec fn spec_get(lines: Seq<LineView>, key: Seq<char>) -> Option<Seq<char>>
    decreases lines.len(),
{
    if lines.len() == 0 {
        None
    } else {
        match lines.last() {
            LineView::KeyValue(k, v) => if k == key {
                Some(v)
            } else {
                spec_get(lines.drop_last(), key)
            },
            _ => spec_get(lines.drop_last(), key),
        }
    }
}

/// The value a single line contributes under `key`: its value when it is a
/// `key = value` line, nothing otherwise.
pub open spec fn line_values(l: LineView, key: Seq<char>) -> Seq<Seq<char>> {
    match l {
        LineView::KeyValue(k, v) => if k == key {
            seq![v]
        } else {
            seq![]
        },
        _ => seq![],
    }
}

/// The values of all `key = value` lines for `key`, in file order.
pub open spec fn spec_get_all(lines: Seq<LineView>, key: Seq<char>) -> Seq<Seq<char>>
    decreases lines.len(),
{
    if lines.len() == 0 {
        seq![]
    } else {
        spec_get_all(lines.drop_last(), key) + line_values(lines.last(), key)
    }
}

pub proof fn lemma_get_all_concat(a: Seq<LineView>, b: Seq<LineView>, key: Seq<char>)
    ensures
        spec_get_all(a + b, key) == spec_get_all(a, key) + spec_get_all(b, key),
    decreases b.len(),
{
    if b.len() == 0 {
        assert(a + b =~= a);
        assert(spec_get_all(a, key) + spec_get_all(b, key) =~= spec_get_all(a, key));
    } else {
        assert((a + b).drop_last() =~= a + b.drop_last());
        lemma_get_all_concat(a, b.drop_last(), key);
        assert(spec_get_all(a + b, key) =~= spec_get_all(a, key) + spec_get_all(b, key));
    }
}

pub proof fn lemma_get_all_single(x: LineView, key: Seq<char>)
    ensures
        spec_get_all(seq![x], key) == line_values(x, key),
{
    assert(seq![x].drop_last() =~= Seq::<LineView>::empty());
    assert(spec_get_all(Seq::<LineView>::empty(), key) =~= seq![]);
    assert(seq![x].last() == x);
    assert(spec_get_all(seq![x], key) =~= line_values(x, key));
}

/// Sequences whose lines contribute the same values give the same values.
pub proof fn lemma_get_all_pointwise(a: Seq<LineView>, b: Seq<LineView>, key: Seq<char>)
    requires
        a.len() == b.len(),
        forall|j: int| 0 <= j < a.len() ==> line_values(#[trigger] a[j], key) == line_values(b[j], key),
    ensures
        spec_get_all(a, key) == spec_get_all(b, key),
    decreases a.len(),
{
    if a.len() > 0 {
        lemma_get_all_pointwise(a.drop_last(), b.drop_last(), key);
        assert(line_values(a.last(), key) == line_values(b.last(), key));
    }
}

/// `get` gives the last of the values that `get_all` lists.
pub proof fn lemma_get_is_last(lines: Seq<LineView>, key: Seq<char>)
    ensures
        spec_get(lines, key) == (if spec_get_all(lines, key).len() == 0 {
            None
        } else {
            Some(spec_get_all(lines, key).last())
        }),
    decreases lines.len(),
{
    if lines.len() > 0 {
        lemma_get_is_last(lines.drop_last(), key);
    }
}

/// How one line is written back: comments verbatim, blank lines empty,
/// and `key = value` (or `key =` for an empty value).
pub open spec fn spec_render_line(l: LineView) -> Seq<char> {
    match l {
        LineView::Comment(s) => s,
        LineView::Empty => seq![],
        LineView::KeyValue(k, v) => if v.len() == 0 {
            k + seq![' ', '=']
        } else {
            k + seq![' ', '=', ' '] + v
        },
    }
}

/// Each line written back followed by a newline.
pub open spec fn spec_render_body(lines: Seq<LineView>) -> Seq<char>
    decreases lines.len(),
{
    if lines.len() == 0 {
        seq![]
    } else {
        spec_render_body(lines.drop_last()) + spec_render_line(lines.last()) + seq!['\n']
    }
}

/// The text of a whole file: lines joined by newlines with a final newline
/// (a file without lines is written as a single newline).
pub open spec fn spec_render(lines: Seq<LineView>) -> Seq<char> {
    if lines.len() == 0 {
        seq!['\n']
    } else {
        spec_render_body(lines)
    }
}

/// A line that reads back as itself once written: a comment that has text,
/// is kept as a comment and stays on one line, or a key without `=`, `#` at
/// its start or surrounding whitespace, with a trimmed value, both on one
/// line.
pub open spec fn line_wf(l: LineView) -> bool {
    match l {
        LineView::Comment(s) => {
            &&& !has_char(s, '\n')
            &&& !(s.len() > 0 && s.last() == '\r')
            &&& spec_trim(s).len() > 0
            &&& (spec_trim(s)[0] == '#' || first_index_of(s, '=') < 0)
        },
        LineView::Empty => true,
        LineView::KeyValue(k, v) => {
            &&& !has_char(k, '\n')
            &&& !has_char(v, '\n')
            &&& spec_trim(k) == k
            &&& spec_trim(v) == v
            &&& first_index_of(k, '=') < 0
            &&& (k.len() == 0 || k[0] != '#')
        },
    }
}

proof fn lemma_render_body_front(lines: Seq<LineView>)
    requires
        lines.len() > 0,
    ensures
        spec_render_body(lines) == spec_render_line(lines[0]) + seq!['\n'] + spec_render_body(
            lines.drop_first(),
        ),
    decreases lines.len(),
{
    if lines.len() == 1 {
        assert(lines.drop_last() =~= Seq::<LineView>::empty());
        assert(lines.drop_first() =~= Seq::<LineView>::empty());
        assert(spec_render_body(Seq::<LineView>::empty()) =~= Seq::<char>::empty());
        assert(lines.last() == lines[0]);
        assert(spec_render_body(lines) =~= spec_render_line(lines[0]) + seq!['\n']);
    } else {
        lemma_render_body_front(lines.drop_last());
        assert(lines.drop_last().drop_first() =~= lines.drop_first().drop_last());
        assert(spec_render_body(lines) =~= spec_render_line(lines[0]) + seq!['\n'] + spec_render_body(
            lines.drop_first(),
        ));
    }
}

proof fn lemma_lines_of_body(lines: Seq<LineView>)
    requires
        forall|j: int| 0 <= j < lines.len() ==> {
            let r = #[trigger] spec_render_line(lines[j]);
            !has_char(r, '\n') && !(r.len() > 0 && r.last() == '\r')
        },
    ensures
        spec_lines(spec_render_body(lines)) == lines.map_values(|l: LineView| spec_render_line(l)),
    decreases lines.len(),
{
    if lines.len() == 0 {
        assert(lines.map_values(|l: LineView| spec_render_line(l)) =~= Seq::<Seq<char>>::empty());
    } else {
        lemma_render_body_front(lines);
        let r = spec_render_line(lines[0]);
        let rest = spec_render_body(lines.drop_first());
        let s = r + seq!['\n'] + rest;
        assert(!has_char(r, '\n'));
        assert(s[r.len() as int] == '\n');
        assert forall|j: int| 0 <= j < r.len() implies s[j] != '\n' by {
            assert(s[j] == r[j]);
        }
        lemma_first_index_is(s, '\n', r.len() as int);
        assert(s.take(r.len() as int) =~= r);
        assert(s.skip(r.len() as int + 1) =~= rest);
        assert forall|j: int| 0 <= j < lines.drop_first().len() implies {
            let r = #[trigger] spec_render_line(lines.drop_first()[j]);
            !has_char(r, '\n') && !(r.len() > 0 && r.last() == '\r')
        } by {
            assert(lines.drop_first()[j] == lines[j + 1]);
        }
        lemma_lines_of_body(lines.drop_first());
        assert(lines.map_values(|l: LineView| spec_render_line(l)) =~= seq![r] + lines.drop_first().map_values(
            |l: LineView| spec_render_line(l),
        ));
    }
}

proof fn lemma_line_round_trip(l: LineView)
    requires
        line_wf(l),
    ensures
        spec_parse_line(spec_render_line(l)) == l,
        !has_char(spec_render_line(l), '\n'),
        !(spec_render_line(l).len() > 0 && spec_render_line(l).last() == '\r'),
{
    match l {
        LineView::Comment(s) => {},
        LineView::Empty => {
            assert(spec_trim(seq![]) =~= Seq::<char>::empty());
            assert(!has_char(spec_render_line(l), '\n'));
        },
        LineView::KeyValue(k, v) => {
            let tail: Seq<char> = if v.len() == 0 {
                seq![]
            } else {
                seq![' '] + v
            };
            let line = spec_render_line(l);
            assert(line =~= k + seq![' ', '='] + tail);
            let e = k.len() as int + 1;
            // the first `=` is the one written after the key
            lemma_first_index_of(k, '=');
            assert(line[e] == '=');
            assert forall|j: int| 0 <= j < e implies line[j] != '=' by {
                if j < k.len() {
                    assert(line[j] == k[j]);
                }
            }
            lemma_first_index_is(line, '=', e);
            // the key part reads back as the key
            assert(line.take(e) =~= k + seq![' ']);
            lemma_trim_space_around(k);
            if k.len() > 0 {
                lemma_trimmed_ends(k);
                assert((k + seq![' '])[0] == k[0]);
                assert(spec_trim_start(k + seq![' ']) == k + seq![' ']);
            } else {
                assert(k + seq![' '] =~= seq![' '] + k);
                lemma_trim_space_around(k);
                assert(spec_trim_start(k) =~= k);
            }
            assert(spec_trim(line.take(e)) == k);
            // the value part reads back as the value
            assert(line.skip(e + 1) =~= tail);
            if v.len() > 0 {
                lemma_trim_space_around(v);
                lemma_trimmed_ends(v);
                assert(spec_trim(tail) == v);
            } else {
                assert(spec_trim(tail) =~= v);
            }
            // the line is neither blank nor a comment
            let last = line.last();
            if v.len() > 0 {
                lemma_trimmed_ends(v);
                assert(last == v.last());
            } else {
                assert(last == '=');
            }
            assert(!spec_is_whitespace(last));
            if k.len() > 0 {
                lemma_trimmed_ends(k);
                assert(line[0] == k[0]);
                assert(spec_trim_start(line) == line);
                assert(spec_trim(line) == line);
                assert(spec_trim(line)[0] == k[0]);
            } else {
                assert(line =~= seq![' '] + line.drop_first());
                lemma_trim_space_around(line.drop_first());
                assert(line.drop_first()[0] == '=');
                assert(spec_trim_start(line.drop_first()) == line.drop_first());
                assert(line.drop_first().last() == last);
                assert(spec_trim(line) == line.drop_first());
            }
            assert(!has_char(line, '\n')) by {
                if has_char(line, '\n') {
                    let j = choose|j: int| 0 <= j < line.len() && line[j] == '\n';
                    if j < k.len() {
                        assert(k[j] == '\n');
                    } else if j > e && v.len() > 0 {
                        assert(v[j - e - 2] == '\n');
                    }
                }
            }
        },
    }
}

/// Writing a file and parsing the text back gives the same lines, for every
/// non-empty list of lines that can be written faithfully (see `line_wf`).
/// (An empty file is written as a single newline, which reads back as one
/// blank line.)
pub proof fn law_parse_render(lines: Seq<LineView>)
    requires
        lines.len() > 0,
        forall|j: int| 0 <= j < lines.len() ==> line_wf(#[trigger] lines[j]),
    ensures
        spec_parse(spec_render(lines)) == lines,
{
    assert forall|j: int| 0 <= j < lines.len() implies {
        let r = #[trigger] spec_render_line(lines[j]);
        !has_char(r, '\n') && !(r.len() > 0 && r.last() == '\r')
    } by {
        lemma_line_round_trip(lines[j]);
    }
    lemma_lines_of_body(lines);
    let rendered = lines.map_values(|l: LineView| spec_render_line(l));
    assert forall|j: int| 0 <= j < lines.len() implies spec_parse_line(#[trigger] rendered[j]) == lines[j] by {
        lemma_line_round_trip(lines[j]);
    }
    assert(rendered.map_values(|l: Seq<char>| spec_parse_line(l)) =~= lines);
}

fn render_line_into(out: &mut String, line: &ConfigLine)
    ensures
        final(out)@ == old(out)@ + spec_render_line(line@),
{
    match line {
        ConfigLine::Comment(s) => {
            out.append(s.as_str());
        },
        ConfigLine::Empty => {
            assert(old(out)@ + spec_render_line(line@) =~= old(out)@);
        },
        ConfigLine::KeyValue { key, value } => {
            out.append(key.as_str());
            push_char(out, ' ');
            push_char(out, '=');
            if value.as_str().is_empty() {
                assert(old(out)@ + spec_render_line(line@) =~= old(out)@ + key@ + seq![' ', '=']);
            } else {
                push_char(out, ' ');
                out.append(value.as_str());
                assert(old(out)@ + spec_render_line(line@) =~= old(out)@ + key@ + seq![' ', '=', ' ']
                    + value@);
            }
        },
    }
}

/// `es` lists each key that `lines` set, once and in key order, with all
/// of its values in file order.
pub open spec fn keyed_values(es: Seq<(Seq<char>, Seq<Seq<char>>)>, lines: Seq<LineView>) -> bool {
    &&& forall|i: int, j: int| 0 <= i < j < es.len() ==> lex_lt(#[trigger] es[i].0, #[trigger] es[j].0)
    &&& forall|k: Seq<char>|
        (exists|i: int| 0 <= i < es.len() && #[trigger] es[i].0 == k) <==> spec_get_all(lines, k).len() > 0
    &&& forall|i: int| 0 <= i < es.len() ==> (#[trigger] es[i]).1 == spec_get_all(lines, es[i].0)
}

/// Only one list of keys and values fits a file's lines: `keyed_values`
/// determines it.
pub proof fn lemma_keyed_values_unique(
    a: Seq<(Seq<char>, Seq<Seq<char>>)>,
    b: Seq<(Seq<char>, Seq<Seq<char>>)>,
    lines: Seq<LineView>,
)
    requires
        keyed_values(a, lines),
        keyed_values(b, lines),
    ensures
        a == b,
{
    let ka = a.map_values(|e: (Seq<char>, Seq<Seq<char>>)| e.0);
    let kb = b.map_values(|e: (Seq<char>, Seq<Seq<char>>)| e.0);
    assert forall|i: int, j: int| 0 <= i < j < ka.len() implies lex_lt(#[trigger] ka[i], #[trigger] ka[j]) by {
        assert(lex_lt(a[i].0, a[j].0));
    }
    assert forall|i: int, j: int| 0 <= i < j < kb.len() implies lex_lt(#[trigger] kb[i], #[trigger] kb[j]) by {
        assert(lex_lt(b[i].0, b[j].0));
    }
    assert forall|k: Seq<char>| ka.contains(k) <==> kb.contains(k) by {
        if ka.contains(k) {
            let i = choose|i: int| 0 <= i < ka.len() && ka[i] == k;
            assert(a[i].0 == k);
            assert(spec_get_all(lines, k).len() > 0);
            let j = choose|j: int| 0 <= j < b.len() && #[trigger] b[j].0 == k;
            assert(kb[j] == k);
        }
        if kb.contains(k) {
            let i = choose|i: int| 0 <= i < kb.len() && kb[i] == k;
            assert(b[i].0 == k);
            assert(spec_get_all(lines, k).len() > 0);
            let j = choose|j: int| 0 <= j < a.len() && #[trigger] a[j].0 == k;
            assert(ka[j] == k);
        }
    }
    lemma_sorted_unique(ka, kb);
    assert forall|i: int| 0 <= i < a.len() implies a[i] == b[i] by {
        assert(ka[i] == kb[i]);
    }
    assert(a =~= b);
}

impl ConfigFile {
    /// Get all key-value pairs as a map. For repeated keys, values are collected into a Vec.
    pub fn to_map(&self) -> (r: KeyedLists<String>)
        ensures
            r.sorted(),
            forall|k: Seq<char>| #[trigger] r.has_key(k) == (spec_get_all(self@.lines, k).len() > 0),
            forall|k: Seq<char>| #[trigger] strs_view(r.values_for(k)) == spec_get_all(self@.lines, k),
            keyed_values(entries_view(r.entries@), self@.lines),
    {
        let mut map: KeyedLists<String> = KeyedLists::new();
        let n = self.lines.len();
        let ghost lv = self@.lines;
        for i in 0..n
            invariant
                n == lv.len(),
                lv == self@.lines,
                map.sorted(),
                forall|k: Seq<char>| #[trigger] map.has_key(k) == (spec_get_all(lv.take(i as int), k).len() > 0),
                forall|k: Seq<char>| #[trigger] strs_view(map.values_for(k)) == spec_get_all(lv.take(i as int), k),
        {
            assert(lv.take(i + 1).drop_last() =~= lv.take(i as int));
            assert(lv.take(i + 1).last() == self.lines@[i as int]@);
            match &self.lines[i] {
                ConfigLine::KeyValue { key, value } => {
                    let ghost before = map;
                    map.push_value(key, value.clone());
                    assert forall|k: Seq<char>| #[trigger] strs_view(map.values_for(k)) == spec_get_all(lv.take(i + 1), k) by {
                        if k == key@ {
                            assert(strs_view(map.values_for(k)) =~= strs_view(before.values_for(k)).push(value@));
                        }
                        assert(spec_get_all(lv.take(i + 1), k) =~= spec_get_all(lv.take(i as int), k)
                            + line_values(lv[i as int], k));
                    }
                },
                _ => {},
            }
        }
        assert(lv.take(n as int) =~= lv);
        proof {
            let es = entries_view(map.entries@);
            let s = map.entries@;
            assert forall|i: int, j: int| 0 <= i < j < es.len() implies lex_lt(#[trigger] es[i].0, #[trigger] es[j].0) by {
                assert(es[i].0 == key_of(s, i) && es[j].0 == key_of(s, j));
            }
            assert forall|k: Seq<char>|
                (exists|i: int| 0 <= i < es.len() && #[trigger] es[i].0 == k) <==> spec_get_all(lv, k).len() > 0 by {
                if exists|i: int| 0 <= i < es.len() && #[trigger] es[i].0 == k {
                    let i = choose|i: int| 0 <= i < es.len() && #[trigger] es[i].0 == k;
                    assert(key_of(s, i) == k);
                    assert(map.has_key(k));
                }
                if spec_get_all(lv, k).len() > 0 {
                    assert(map.has_key(k));
                    let p = entries_position(s, k);
                    assert(es[p].0 == k);
                }
            }
            assert forall|i: int| 0 <= i < es.len() implies (#[trigger] es[i]).1 == spec_get_all(lv, es[i].0) by {
                lemma_sorted_position(s, i);
                assert(strs_view(map.values_for(key_of(s, i))) == spec_get_all(lv, key_of(s, i)));
                assert(es[i].1 =~= strs_view(s[i].1@));
            }
        }
        map
    }

    /// Get all values for a specific option. Useful for repeatable options like keybind.
    pub fn get_all(&self, option: &str) -> (r: Vec<String>)
        ensures
            strs_view(r@) == spec_get_all(self@.lines, option@),
    {
        let key = option.to_owned();
        let mut out: Vec<String> = Vec::new();
        let n = self.lines.len();
        let ghost lv = self@.lines;
        for i in 0..n
            invariant
                n == lv.len(),
                lv == self@.lines,
                key@ == option@,
                strs_view(out@) == spec_get_all(lv.take(i as int), option@),
        {
            assert(lv.take(i + 1).drop_last() =~= lv.take(i as int));
            assert(lv.take(i + 1).last() == self.lines@[i as int]@);
            let ghost before = out@;
            match &self.lines[i] {
                ConfigLine::KeyValue { key: k, value } => {
                    if *k == key {
                        out.push(value.clone());
                        assert(strs_view(out@) =~= strs_view(before).push(value@));
                    }
                    assert(spec_get_all(lv.take(i + 1), option@) =~= spec_get_all(lv.take(i as int), option@)
                        + line_values(lv[i as int], option@));
                },
                _ => {},
            }
        }
        assert(lv.take(n as int) =~= lv);
        out
    }

    /// Get the value of a specific option. Returns the last set value.
    pub fn get(&self, option: &str) -> (r: Option<String>)
        ensures
            opt_view(r) == spec_get(self@.lines, option@),
    {
        let key = option.to_owned();
        let ghost lv = self@.lines;
        let mut i = self.lines.len();
        assert(lv.take(i as int) =~= lv);
        while i > 0
            invariant
                i <= lv.len(),
                lv == self@.lines,
                key@ == option@,
                spec_get(lv, option@) == spec_get(lv.take(i as int), option@),
            decreases i,
        {
            assert(lv.take(i as int).drop_last() =~= lv.take(i - 1));
            assert(lv.take(i as int).last() == self.lines@[i - 1]@);
            match &self.lines[i - 1] {
                ConfigLine::KeyValue { key: k, value } => {
                    if *k == key {
                        return Some(value.clone());
                    }
                },
                _ => {},
            }
            i = i - 1;
        }
        None
    }

    /// The file's text: each line written back, joined by newlines, with a
    /// final newline.
    pub fn to_string(&self) -> (r: String)
        ensures
            r@ == spec_render(self@.lines),
    {
        let mut out = String::new();
        let n = self.lines.len();
        let ghost lv = self@.lines;
        for i in 0..n
            invariant
                n == lv.len(),
                lv == self@.lines,
                out@ == spec_render_body(lv.take(i as int)),
        {
            assert(lv.take(i + 1).drop_last() =~= lv.take(i as int));
            assert(lv.take(i + 1).last() == self.lines@[i as int]@);
            render_line_into(&mut out, &self.lines[i]);
            push_char(&mut out, '\n');
        }
        assert(lv.take(n as int) =~= lv);
        if n == 0 {
            push_char(&mut out, '\n');
            assert(out@ =~= seq!['\n']);
        }
        out
    }

    /// Parse a config file from its contents.
    pub fn parse(contents: &str, path: &str) -> (r: ConfigFile)
        ensures
            r@.lines == spec_parse(contents@),
            r@.path == path@,
    {
        let v = to_chars(contents);
        let n = v.len();
        let mut lines: Vec<ConfigLine> = Vec::new();
        let mut pos: usize = 0;
        let ghost all = spec_lines(v@);
        let ghost mut count: int = 0;
        assert(v@.skip(0) =~= v@);
        while pos < n
            invariant
                pos <= n == v@.len(),
                0 <= count <= all.len(),
                all == spec_lines(v@),
                spec_lines(v@.skip(pos as int)) == all.skip(count),
                lines_view(lines@) == all.take(count).map_values(
                    |l: Seq<char>| spec_parse_line(l),
                ),
            decreases n - pos,
        {
            let k = find_char(v.as_slice(), pos, n, '\n');
            let ghost t = v@.skip(pos as int);
            assert(v@.subrange(pos as int, n as int) =~= t);
            let mut end = k;
            if k < n && end > pos && v[end - 1] == '\r' {
                end = end - 1;
            }
            let line = parse_line(&v, pos, end);
            let next = if k < n {
                k + 1
            } else {
                n
            };
            proof {
                let x = v@.subrange(pos as int, end as int);
                if k < n {
                    assert(strip_cr(t.take(k - pos)) =~= x);
                    assert(t.skip(k - pos + 1) =~= v@.skip(next as int));
                } else {
                    assert(x =~= t);
                    assert(v@.skip(next as int) =~= seq![]);
                }
                assert(spec_lines(t) == seq![x] + spec_lines(v@.skip(next as int)));
                assert(all.skip(count).len() > 0);
                assert(all.skip(count)[0] == all[count]);
                assert(all.skip(count).drop_first() =~= all.skip(count + 1));
                assert(all[count] == x);
                assert(all.take(count + 1) =~= all.take(count).push(x));
            }
            let ghost old_lines = lines@;
            lines.push(line);
            proof {
                assert(lines_view(lines@) =~= lines_view(old_lines).push(line@));
                assert(lines_view(lines@) =~= all.take(count + 1).map_values(
                    |l: Seq<char>| spec_parse_line(l),
                ));
                count = count + 1;
            }
            pos = next;
        }
        assert(v@.skip(pos as int) =~= seq![]);
        assert(all.take(count) =~= all);
        ConfigFile { lines, path: path.to_owned() }
    }
}

} // verus!
