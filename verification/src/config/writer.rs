//! Targeted edits of a parsed config file: set, append, and comment out.

use vstd::prelude::*;
use vstd::string::StringExecFns;
use crate::config::parser::{ConfigFile, ConfigLine, LineView, lines_view, line_values, spec_get,
    spec_get_all, lemma_get_all_concat, lemma_get_all_single, lemma_get_all_pointwise, lemma_get_is_last};
use crate::text::{push_char, has_char, to_chars, find_char};

verus! {

pub open spec fn is_key_line(l: LineView, key: Seq<char>) -> bool {
    l matches LineView::KeyValue(k, _) && k == key
}

/// Index of the last `key = ...` line, or -1 when there is none.
pub open spec fn last_key_index(lines: Seq<LineView>, key: Seq<char>) -> int
    decreases lines.len(),
{
    if lines.len() == 0 {
        -1
    } else if is_key_line(lines.last(), key) {
        lines.len() - 1
    } else {
        last_key_index(lines.drop_last(), key)
    }
}

pub proof fn lemma_last_key_index(lines: Seq<LineView>, key: Seq<char>)
    ensures
        ({
            let i = last_key_index(lines, key);
            ||| (i == -1 && forall|j: int| 0 <= j < lines.len() ==> !is_key_line(lines[j], key))
            ||| (0 <= i < lines.len() && is_key_line(lines[i], key) && forall|j: int|
                i < j < lines.len() ==> !is_key_line(lines[j], key))
        }),
    decreases lines.len(),
{
    if lines.len() > 0 && !is_key_line(lines.last(), key) {
        lemma_last_key_index(lines.drop_last(), key);
        assert forall|j: int| 0 <= j < lines.len() - 1 implies lines[j] == lines.drop_last()[j] by {}
    }
}

/// Index of the first line that is exactly `key = value`, or -1.
pub open spec fn first_entry_index(lines: Seq<LineView>, key: Seq<char>, value: Seq<char>) -> int
    decreases lines.len(),
{
    if lines.len() == 0 {
        -1
    } else if lines[0] == LineView::KeyValue(key, value) {
        0
    } else {
        let r = first_entry_index(lines.drop_first(), key, value);
        if r < 0 {
            -1
        } else {
            r + 1
        }
    }
}

pub proof fn lemma_first_entry_index(lines: Seq<LineView>, key: Seq<char>, value: Seq<char>)
    ensures
        ({
            let i = first_entry_index(lines, key, value);
            ||| (i == -1 && forall|j: int|
                0 <= j < lines.len() ==> lines[j] != LineView::KeyValue(key, value))
            ||| (0 <= i < lines.len() && lines[i] == LineView::KeyValue(key, value) && forall|j: int|
                0 <= j < i ==> lines[j] != LineView::KeyValue(key, value))
        }),
    decreases lines.len(),
{
    if lines.len() > 0 && lines[0] != LineView::KeyValue(key, value) {
        lemma_first_entry_index(lines.drop_first(), key, value);
        assert forall|j: int| 0 < j < lines.len() implies lines[j] == lines.drop_first()[j - 1] by {}
    }
}

pub open spec fn has_entry(lines: Seq<LineView>, key: Seq<char>, value: Seq<char>) -> bool {
    exists|j: int| 0 <= j < lines.len() && lines[j] == LineView::KeyValue(key, value)
}

pub open spec fn has_key_line(lines: Seq<LineView>, key: Seq<char>) -> bool {
    exists|j: int| 0 <= j < lines.len() && is_key_line(lines[j], key)
}

/// A blank separator line is added before a new entry when the file is not
/// empty and does not already end with a blank line.
pub open spec fn spec_separated(lines: Seq<LineView>) -> Seq<LineView> {
    if lines.len() > 0 && lines.last() != LineView::Empty {
        lines.push(LineView::Empty)
    } else {
        lines
    }
}

/// The last `key` line is replaced by `key = value`; with no such line the
/// entry is appended after a separator.
pub open spec fn spec_set_option(lines: Seq<LineView>, key: Seq<char>, value: Seq<char>) -> Seq<
    LineView,
> {
    let i = last_key_index(lines, key);
    if i >= 0 {
        lines.update(i, LineView::KeyValue(key, value))
    } else {
        spec_separated(lines).push(LineView::KeyValue(key, value))
    }
}

/// The comment that replaces `key = value`: `# key = value`.
pub open spec fn commented(key: Seq<char>, value: Seq<char>) -> Seq<char> {
    seq!['#', ' '] + key + seq![' ', '=', ' '] + value
}

pub open spec fn spec_comment_line(l: LineView, key: Seq<char>) -> LineView {
    match l {
        LineView::KeyValue(k, v) => if k == key {
            LineView::Comment(commented(k, v))
        } else {
            l
        },
        _ => l,
    }
}

/// Every `key` line turned into its comment.
pub open spec fn spec_comment_option(lines: Seq<LineView>, key: Seq<char>) -> Seq<LineView> {
    lines.map_values(|l: LineView| spec_comment_line(l, key))
}

/// `key = value` inserted right after the last `key` line; with no such
/// line, appended after a separator.
pub open spec fn spec_append_option(lines: Seq<LineView>, key: Seq<char>, value: Seq<char>) -> Seq<
    LineView,
> {
    let i = last_key_index(lines, key);
    if i >= 0 {
        lines.insert(i + 1, LineView::KeyValue(key, value))
    } else {
        spec_separated(lines).push(LineView::KeyValue(key, value))
    }
}

/// The first line that is exactly `key = value` turned into its comment.
pub open spec fn spec_comment_option_value(
    lines: Seq<LineView>,
    key: Seq<char>,
    value: Seq<char>,
) -> Seq<LineView> {
    let i = first_entry_index(lines, key, value);
    if i >= 0 {
        lines.update(i, LineView::Comment(commented(key, value)))
    } else {
        lines
    }
}

fn find_last_key(lines: &Vec<ConfigLine>, key: &String) -> (r: usize)
    ensures
        r <= lines@.len(),
        r < lines@.len() ==> r == last_key_index(lines_view(lines@), key@),
        r == lines@.len() ==> last_key_index(lines_view(lines@), key@) == -1,
{
    let ghost lv = lines_view(lines@);
    proof {
        lemma_last_key_index(lv, key@);
    }
    let mut i = lines.len();
    assert(lv.take(i as int) =~= lv);
    while i > 0
        invariant
            i <= lv.len() == lines@.len(),
            lv == lines_view(lines@),
            last_key_index(lv, key@) == last_key_index(lv.take(i as int), key@),
        decreases i,
    {
        assert(lv.take(i as int).drop_last() =~= lv.take(i - 1));
        assert(lv.take(i as int).last() == lines@[i - 1]@);
        match &lines[i - 1] {
            ConfigLine::KeyValue { key: k, value: _ } => {
                if *k == *key {
                    return i - 1;
                }
            },
            _ => {},
        }
        i = i - 1;
    }
    lines.len()
}

fn push_separated(lines: &mut Vec<ConfigLine>, line: ConfigLine)
    ensures
        lines_view(final(lines)@) == spec_separated(lines_view(old(lines)@)).push(line@),
{
    let ghost lv = lines_view(lines@);
    let n = lines.len();
    if n > 0 {
        let is_empty = match &lines[n - 1] {
            ConfigLine::Empty => true,
            _ => false,
        };
        assert(lv.last() == lines@[n - 1]@);
        if !is_empty {
            lines.push(ConfigLine::Empty);
            assert(lines_view(lines@) =~= lv.push(LineView::Empty));
        }
    }
    let ghost mid = lines_view(lines@);
    lines.push(line);
    assert(lines_view(lines@) =~= mid.push(line@));
}

fn commented_line(key: &String, value: &String) -> (r: ConfigLine)
    ensures
        r@ == LineView::Comment(commented(key@, value@)),
{
    let mut s = String::new();
    push_char(&mut s, '#');
    push_char(&mut s, ' ');
    s.append(key.as_str());
    push_char(&mut s, ' ');
    push_char(&mut s, '=');
    push_char(&mut s, ' ');
    s.append(value.as_str());
    assert(s@ =~= commented(key@, value@));
    ConfigLine::Comment(s)
}

/// Update or add an option in the config file.
/// If the option already exists, updates the last occurrence.
/// If it doesn't exist, appends it at the end.
pub fn set_option(config: &mut ConfigFile, key: &str, value: &str)
    ensures
        final(config)@.lines == spec_set_option(old(config)@.lines, key@, value@),
        final(config)@.path == old(config)@.path,
{
    let k = key.to_owned();
    let idx = find_last_key(&config.lines, &k);
    let line = ConfigLine::KeyValue { key: k, value: value.to_owned() };
    let ghost lv = old(config)@.lines;
    if idx < config.lines.len() {
        config.lines.set(idx, line);
        assert(lines_view(config.lines@) =~= lv.update(idx as int, line@));
    } else {
        push_separated(&mut config.lines, line);
    }
}

/// Comment out an option (preserves the line as a comment instead of deleting).
/// Returns true if the option was found and commented out.
pub fn comment_option(config: &mut ConfigFile, key: &str) -> (found: bool)
    ensures
        final(config)@.lines == spec_comment_option(old(config)@.lines, key@),
        final(config)@.path == old(config)@.path,
        found == has_key_line(old(config)@.lines, key@),
{
    let k = key.to_owned();
    let mut found = false;
    let n = config.lines.len();
    let ghost lv = old(config)@.lines;
    for i in 0..n
        invariant
            n == config.lines@.len() == lv.len(),
            k@ == key@,
            config.path@ == old(config)@.path,
            forall|j: int| 0 <= j < i ==> #[trigger] lines_view(config.lines@)[j] == spec_comment_line(lv[j], key@),
            forall|j: int| i <= j < n ==> #[trigger] lines_view(config.lines@)[j] == lv[j],
            found == exists|j: int| 0 <= j < i && is_key_line(lv[j], key@),
    {
        let ghost before = lines_view(config.lines@);
        assert(before[i as int] == config.lines@[i as int]@);
        let replacement = match &config.lines[i] {
            ConfigLine::KeyValue { key: kk, value: v } => {
                if *kk == k {
                    Some(commented_line(kk, v))
                } else {
                    None
                }
            },
            _ => None,
        };
        match replacement {
            Some(c) => {
                config.lines.set(i, c);
                found = true;
                assert(lines_view(config.lines@) =~= before.update(i as int, c@));
            },
            None => {},
        }
        assert(lines_view(config.lines@)[i as int] == spec_comment_line(lv[i as int], key@));
    }
    assert(lines_view(config.lines@) =~= spec_comment_option(lv, key@));
    found
}

/// Append a new entry for a repeatable option (e.g. keybind, palette).
/// Inserts after the last occurrence of the same key to keep entries grouped.
/// Returns false if an exact duplicate (same key + value) already exists.
pub fn append_option(config: &mut ConfigFile, key: &str, value: &str) -> (appended: bool)
    ensures
        appended == !has_entry(old(config)@.lines, key@, value@),
        appended ==> final(config)@.lines == spec_append_option(old(config)@.lines, key@, value@),
        !appended ==> final(config)@.lines == old(config)@.lines,
        final(config)@.path == old(config)@.path,
{
    let k = key.to_owned();
    let v = value.to_owned();
    let ghost lv = old(config)@.lines;
    let n = config.lines.len();
    for i in 0..n
        invariant
            n == config.lines@.len() == lv.len(),
            lv == lines_view(config.lines@),
            k@ == key@,
            v@ == value@,
            forall|j: int| 0 <= j < i ==> lv[j] != LineView::KeyValue(key@, value@),
    {
        assert(lv[i as int] == config.lines@[i as int]@);
        match &config.lines[i] {
            ConfigLine::KeyValue { key: kk, value: vv } => {
                if *kk == k && *vv == v {
                    return false;
                }
            },
            _ => {},
        }
    }
    let idx = find_last_key(&config.lines, &k);
    let line = ConfigLine::KeyValue { key: k, value: v };
    if idx < config.lines.len() {
        config.lines.insert(idx + 1, line);
        assert(lines_view(config.lines@) =~= lv.insert(idx + 1, line@));
    } else {
        push_separated(&mut config.lines, line);
    }
    true
}

/// Comment out a specific value of a repeatable option.
/// Unlike `comment_option` which comments ALL occurrences, this only
/// comments the first exact match of key + value.
/// Returns true if a matching entry was found and commented out.
pub fn comment_option_value(config: &mut ConfigFile, key: &str, value: &str) -> (found: bool)
    ensures
        found == has_entry(old(config)@.lines, key@, value@),
        final(config)@.lines == spec_comment_option_value(old(config)@.lines, key@, value@),
        final(config)@.path == old(config)@.path,
{
    let k = key.to_owned();
    let v = value.to_owned();
    let ghost lv = old(config)@.lines;
    let n = config.lines.len();
    for i in 0..n
        invariant
            n == config.lines@.len() == lv.len(),
            lv == lines_view(config.lines@),
            lv == old(config)@.lines,
            config.path@ == old(config)@.path,
            k@ == key@,
            v@ == value@,
            forall|j: int| 0 <= j < i ==> lv[j] != LineView::KeyValue(key@, value@),
    {
        assert(lv[i as int] == config.lines@[i as int]@);
        let hit = match &config.lines[i] {
            ConfigLine::KeyValue { key: kk, value: vv } => *kk == k && *vv == v,
            _ => false,
        };
        if hit {
            assert(lv[i as int] == LineView::KeyValue(key@, value@));
            let c = commented_line(&k, &v);
            config.lines.set(i, c);
            proof {
                lemma_first_entry_index(lv, key@, value@);
                assert(has_entry(lv, key@, value@));
                assert(first_entry_index(lv, key@, value@) == i);
                assert(lines_view(config.lines@) =~= lv.update(i as int, c@));
            }
            return true;
        }
    }
    proof {
        lemma_first_entry_index(lv, key@, value@);
    }
    false
}


/// `s` without its first occurrence of `x`.
pub open spec fn remove_first(s: Seq<Seq<char>>, x: Seq<char>) -> Seq<Seq<char>>
    decreases s.len(),
{
    if s.len() == 0 {
        s
    } else if s[0] == x {
        s.drop_first()
    } else {
        seq![s[0]] + remove_first(s.drop_first(), x)
    }
}

proof fn lemma_remove_first_absent(s: Seq<Seq<char>>, x: Seq<char>)
    requires
        !s.contains(x),
    ensures
        remove_first(s, x) == s,
    decreases s.len(),
{
    if s.len() > 0 {
        assert(s[0] != x);
        assert(!s.drop_first().contains(x)) by {
            if s.drop_first().contains(x) {
                let j = choose|j: int| 0 <= j < s.drop_first().len() && s.drop_first()[j] == x;
                assert(s[j + 1] == x);
            }
        }
        lemma_remove_first_absent(s.drop_first(), x);
        assert(seq![s[0]] + s.drop_first() =~= s);
    }
}

/// Removing the first `x` from a list whose first part holds none removes
/// the `x` that follows that part.
pub proof fn lemma_remove_first_split(a: Seq<Seq<char>>, b: Seq<Seq<char>>, x: Seq<char>)
    requires
        !a.contains(x),
    ensures
        remove_first(a + seq![x] + b, x) == a + b,
    decreases a.len(),
{
    let s = a + seq![x] + b;
    if a.len() == 0 {
        assert(s[0] == x);
        assert(s.drop_first() =~= a + b);
    } else {
        assert(s[0] == a[0]);
        assert(a[0] != x);
        assert(!a.drop_first().contains(x)) by {
            if a.drop_first().contains(x) {
                let j = choose|j: int| 0 <= j < a.drop_first().len() && a.drop_first()[j] == x;
                assert(a[j + 1] == x);
            }
        }
        assert(s.drop_first() =~= a.drop_first() + seq![x] + b);
        lemma_remove_first_split(a.drop_first(), b, x);
        assert(seq![a[0]] + (a.drop_first() + b) =~= a + b);
    }
}

/// Lines none of which sets `key` give it no values.
pub proof fn lemma_no_key_lines(c: Seq<LineView>, key: Seq<char>)
    requires
        forall|j: int| 0 <= j < c.len() ==> !is_key_line(#[trigger] c[j], key),
    ensures
        spec_get_all(c, key) == Seq::<Seq<char>>::empty(),
    decreases c.len(),
{
    if c.len() > 0 {
        lemma_no_key_lines(c.drop_last(), key);
        assert(!is_key_line(c[c.len() - 1], key));
        assert(spec_get_all(c, key) =~= Seq::<Seq<char>>::empty());
    }
}

/// Lines none of which is exactly `key = value` do not give `key` that
/// value.
pub proof fn lemma_no_entry(a: Seq<LineView>, key: Seq<char>, value: Seq<char>)
    requires
        forall|j: int| 0 <= j < a.len() ==> #[trigger] a[j] != LineView::KeyValue(key, value),
    ensures
        !spec_get_all(a, key).contains(value),
    decreases a.len(),
{
    if a.len() > 0 {
        lemma_no_entry(a.drop_last(), key, value);
        let rest = spec_get_all(a.drop_last(), key);
        let lv = line_values(a.last(), key);
        assert(a[a.len() - 1] != LineView::KeyValue(key, value));
        assert(!lv.contains(value));
        if (rest + lv).contains(value) {
            let j = choose|j: int| 0 <= j < (rest + lv).len() && (rest + lv)[j] == value;
            if j < rest.len() {
                assert(rest[j] == value);
            } else {
                assert(lv[j - rest.len()] == value);
            }
        }
    }
}

proof fn lemma_split_at(lines: Seq<LineView>, i: int, key: Seq<char>)
    requires
        0 <= i < lines.len(),
    ensures
        spec_get_all(lines, key) == spec_get_all(lines.take(i), key) + line_values(lines[i], key)
            + spec_get_all(lines.skip(i + 1), key),
{
    assert(lines =~= lines.take(i) + seq![lines[i]] + lines.skip(i + 1));
    lemma_get_all_concat(lines.take(i) + seq![lines[i]], lines.skip(i + 1), key);
    lemma_get_all_concat(lines.take(i), seq![lines[i]], key);
    lemma_get_all_single(lines[i], key);
}

proof fn lemma_update_at(lines: Seq<LineView>, i: int, y: LineView, key: Seq<char>)
    requires
        0 <= i < lines.len(),
    ensures
        spec_get_all(lines.update(i, y), key) == spec_get_all(lines.take(i), key) + line_values(y, key)
            + spec_get_all(lines.skip(i + 1), key),
{
    let u = lines.update(i, y);
    lemma_split_at(u, i, key);
    assert(u.take(i) =~= lines.take(i));
    assert(u.skip(i + 1) =~= lines.skip(i + 1));
}

proof fn lemma_push_line(lines: Seq<LineView>, y: LineView, key: Seq<char>)
    ensures
        spec_get_all(lines.push(y), key) == spec_get_all(lines, key) + line_values(y, key),
{
    assert(lines.push(y).drop_last() =~= lines);
}

proof fn lemma_separated(lines: Seq<LineView>, key: Seq<char>)
    ensures
        spec_get_all(spec_separated(lines), key) == spec_get_all(lines, key),
{
    if lines.len() > 0 && lines.last() != LineView::Empty {
        lemma_push_line(lines, LineView::Empty, key);
        assert(spec_get_all(lines, key) + line_values(LineView::Empty, key) =~= spec_get_all(lines, key));
    }
}

/// Setting an option replaces its effective value: afterwards `get` gives
/// the new value, the values listed under the key are the old ones with the
/// last replaced (or just the new one when there were none), and every other
/// key keeps exactly its values.
pub proof fn law_set_option(lines: Seq<LineView>, key: Seq<char>, value: Seq<char>)
    ensures
        spec_get(spec_set_option(lines, key, value), key) == Some(value),
        spec_get_all(spec_set_option(lines, key, value), key) == (if spec_get_all(lines, key).len() == 0 {
            seq![value]
        } else {
            spec_get_all(lines, key).update(spec_get_all(lines, key).len() - 1, value)
        }),
        forall|k: Seq<char>| k != key ==> #[trigger] spec_get_all(spec_set_option(lines, key, value), k)
            == spec_get_all(lines, k),
{
    let new_line = LineView::KeyValue(key, value);
    let after = spec_set_option(lines, key, value);
    lemma_last_key_index(lines, key);
    let i = last_key_index(lines, key);
    if i >= 0 {
        let c = lines.skip(i + 1);
        assert forall|j: int| 0 <= j < c.len() implies !is_key_line(#[trigger] c[j], key) by {
            assert(c[j] == lines[i + 1 + j]);
        }
        lemma_no_key_lines(c, key);
        lemma_split_at(lines, i, key);
        lemma_update_at(lines, i, new_line, key);
        let a = spec_get_all(lines.take(i), key);
        assert(spec_get_all(after, key) =~= a + seq![value]);
        assert(spec_get_all(lines, key) =~= a + line_values(lines[i], key));
        assert(spec_get_all(after, key) =~= spec_get_all(lines, key).update(
            spec_get_all(lines, key).len() - 1,
            value,
        ));
        assert forall|k: Seq<char>| k != key implies #[trigger] spec_get_all(after, k) == spec_get_all(
            lines,
            k,
        ) by {
            lemma_split_at(lines, i, k);
            lemma_update_at(lines, i, new_line, k);
        }
    } else {
        lemma_no_key_lines(lines, key);
        lemma_separated(lines, key);
        lemma_push_line(spec_separated(lines), new_line, key);
        assert(spec_get_all(after, key) =~= seq![value]);
        assert forall|k: Seq<char>| k != key implies #[trigger] spec_get_all(after, k) == spec_get_all(
            lines,
            k,
        ) by {
            lemma_separated(lines, k);
            lemma_push_line(spec_separated(lines), new_line, k);
            assert(spec_get_all(after, k) =~= spec_get_all(lines, k));
        }
    }
    lemma_get_is_last(after, key);
}

/// Commenting out an option removes every value of that key and leaves
/// every other key with exactly its values.
pub proof fn law_comment_option(lines: Seq<LineView>, key: Seq<char>)
    ensures
        spec_get_all(spec_comment_option(lines, key), key) == Seq::<Seq<char>>::empty(),
        spec_get(spec_comment_option(lines, key), key) == None::<Seq<char>>,
        forall|k: Seq<char>| k != key ==> #[trigger] spec_get_all(spec_comment_option(lines, key), k)
            == spec_get_all(lines, k),
{
    let after = spec_comment_option(lines, key);
    assert forall|j: int| 0 <= j < after.len() implies !is_key_line(#[trigger] after[j], key) by {}
    lemma_no_key_lines(after, key);
    lemma_get_is_last(after, key);
    assert forall|k: Seq<char>| k != key implies #[trigger] spec_get_all(after, k) == spec_get_all(lines, k) by {
        assert forall|j: int| 0 <= j < after.len() implies line_values(#[trigger] after[j], k)
            == line_values(lines[j], k) by {}
        lemma_get_all_pointwise(after, lines, k);
    }
}

/// Appending a new entry adds its value at the end of the key's values and
/// leaves every other key with exactly its values.
pub proof fn law_append_option(lines: Seq<LineView>, key: Seq<char>, value: Seq<char>)
    ensures
        spec_get_all(spec_append_option(lines, key, value), key) == spec_get_all(lines, key).push(value),
        forall|k: Seq<char>| k != key ==> #[trigger] spec_get_all(spec_append_option(lines, key, value), k)
            == spec_get_all(lines, k),
{
    let new_line = LineView::KeyValue(key, value);
    let after = spec_append_option(lines, key, value);
    lemma_last_key_index(lines, key);
    let i = last_key_index(lines, key);
    if i >= 0 {
        let c = lines.skip(i + 1);
        assert forall|j: int| 0 <= j < c.len() implies !is_key_line(#[trigger] c[j], key) by {
            assert(c[j] == lines[i + 1 + j]);
        }
        lemma_no_key_lines(c, key);
        assert(after =~= lines.take(i + 1) + seq![new_line] + c);
        assert(lines =~= lines.take(i + 1) + c);
        assert forall|k: Seq<char>| #[trigger] spec_get_all(after, k) == spec_get_all(lines.take(i + 1), k)
            + line_values(new_line, k) + spec_get_all(c, k) && spec_get_all(lines, k) == spec_get_all(
            lines.take(i + 1),
            k,
        ) + spec_get_all(c, k) by {
            lemma_get_all_concat(lines.take(i + 1) + seq![new_line], c, k);
            lemma_get_all_concat(lines.take(i + 1), seq![new_line], k);
            lemma_get_all_single(new_line, k);
            lemma_get_all_concat(lines.take(i + 1), c, k);
        }
        assert(spec_get_all(after, key) =~= spec_get_all(lines, key).push(value));
        assert forall|k: Seq<char>| k != key implies #[trigger] spec_get_all(after, k) == spec_get_all(
            lines,
            k,
        ) by {
            assert(spec_get_all(after, k) =~= spec_get_all(lines, k));
        }
    } else {
        assert forall|k: Seq<char>| #[trigger] spec_get_all(after, k) == spec_get_all(lines, k)
            + line_values(new_line, k) by {
            lemma_separated(lines, k);
            lemma_push_line(spec_separated(lines), new_line, k);
        }
        assert(spec_get_all(after, key) =~= spec_get_all(lines, key).push(value));
        assert forall|k: Seq<char>| k != key implies #[trigger] spec_get_all(after, k) == spec_get_all(
            lines,
            k,
        ) by {
            assert(spec_get_all(after, k) =~= spec_get_all(lines, k));
        }
    }
}

/// Commenting out one entry removes the first occurrence of that value
/// from the key's values and leaves every other key with exactly its values.
pub proof fn law_comment_option_value(lines: Seq<LineView>, key: Seq<char>, value: Seq<char>)
    ensures
        spec_get_all(spec_comment_option_value(lines, key, value), key) == remove_first(
            spec_get_all(lines, key),
            value,
        ),
        forall|k: Seq<char>| k != key ==> #[trigger] spec_get_all(
            spec_comment_option_value(lines, key, value),
            k,
        ) == spec_get_all(lines, k),
{
    let after = spec_comment_option_value(lines, key, value);
    lemma_first_entry_index(lines, key, value);
    let i = first_entry_index(lines, key, value);
    if i >= 0 {
        let c = LineView::Comment(commented(key, value));
        lemma_split_at(lines, i, key);
        lemma_update_at(lines, i, c, key);
        let a = lines.take(i);
        assert forall|j: int| 0 <= j < a.len() implies #[trigger] a[j] != LineView::KeyValue(key, value) by {}
        lemma_no_entry(a, key, value);
        assert(line_values(lines[i], key) =~= seq![value]);
        lemma_remove_first_split(spec_get_all(a, key), spec_get_all(lines.skip(i + 1), key), value);
        assert(spec_get_all(after, key) =~= spec_get_all(a, key) + spec_get_all(lines.skip(i + 1), key));
        assert forall|k: Seq<char>| k != key implies #[trigger] spec_get_all(after, k) == spec_get_all(
            lines,
            k,
        ) by {
            lemma_split_at(lines, i, k);
            lemma_update_at(lines, i, c, k);
        }
    } else {
        lemma_no_entry(lines, key, value);
        lemma_remove_first_absent(spec_get_all(lines, key), value);
    }
}

/// A module name names a file beside the primary config: it is not empty
/// and holds no `/`, `\\` or `.`.
pub open spec fn valid_module_name(name: Seq<char>) -> bool {
    name.len() > 0 && !has_char(name, '/') && !has_char(name, '\\') && !has_char(name, '.')
}

/// A new module file: its path and its first contents.
pub struct ModuleFile {
    pub path: String,
    pub contents: String,
}

/// The module file to create for `module_name` in `config_dir`, or the
/// message that refuses the name. The caller refuses an existing file,
/// writes this one, appends `config-file = module_name` to the primary
/// config with `append_option`, and writes the primary config.
pub fn module_file(config_dir: &str, module_name: &str) -> (r: Result<ModuleFile, String>)
    ensures
        r is Ok <==> valid_module_name(module_name@),
        r matches Ok(m) ==> m.path@ == config_dir@ + "/"@ + module_name@ && m.contents@ == "# Ghostty "@
            + module_name@ + " configuration\n"@,
        r matches Err(e) ==> e@ == "Invalid module name '"@ + module_name@
            + "'. Must not contain '/', '\\', or '.'"@,
{
    let v = to_chars(module_name);
    let n = v.len();
    let bad = n == 0 || find_char(v.as_slice(), 0, n, '/') < n || find_char(v.as_slice(), 0, n, '\\') < n
        || find_char(v.as_slice(), 0, n, '.') < n;
    if bad {
        let mut e = String::new();
        e.append("Invalid module name '");
        e.append(module_name);
        e.append("'. Must not contain '/', '\\', or '.'");
        return Err(e);
    }
    let mut path = String::new();
    path.append(config_dir);
    path.append("/");
    path.append(module_name);
    let mut contents = String::new();
    contents.append("# Ghostty ");
    contents.append(module_name);
    contents.append(" configuration\n");
    Ok(ModuleFile { path, contents })
}

} // verus!
