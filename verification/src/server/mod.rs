//! What each tool of the assistant answers, as text, given the options and
//! the config file the caller read. The caller reads and writes the file
//! and speaks the protocol.

pub mod config_path;
pub mod edit;
pub mod instructions;

use vstd::prelude::*;
use vstd::string::StringExecFns;
use crate::config::validator::{find_option, option_index};
use crate::data::options::{GhosttyOption, OptionView, options_view, str_seq_view};
use crate::search::{search_options, search_outcome, first_line, results_view, search_text};
use crate::keyed::{KeyedLists, key_of, lemma_sorted_position, entries_position};
use crate::data::options::{category_descriptions, spec_category_descriptions};
use crate::text::{lex_lt, lemma_sorted_unique, spec_decimal, push_decimal, spec_join, join, str_eq, to_chars, find_char, string_of};

verus! {

/// A tool's answer: its text, and whether it reports an error.
pub struct ToolReply {
    pub is_error: bool,
    pub text: String,
}

pub struct ReplyView {
    pub is_error: bool,
    pub text: Seq<char>,
}

impl View for ToolReply {
    type V = ReplyView;

    open spec fn view(&self) -> ReplyView {
        ReplyView { is_error: self.is_error, text: self.text@ }
    }
}

pub open spec fn reply(is_error: bool, text: Seq<char>) -> ReplyView {
    ReplyView { is_error, text }
}

/// A default value as shown: `(unset)` when empty.
pub open spec fn default_text(v: Seq<char>) -> Seq<char> {
    if v.len() == 0 {
        "(unset)"@
    } else {
        v
    }
}

pub(crate) fn push_default(out: &mut String, v: &String)
    ensures
        final(out)@ == old(out)@ + default_text(v@),
{
    if v.as_str().is_empty() {
        out.append("(unset)");
    } else {
        out.append(v.as_str());
    }
}

pub open spec fn bool_text(b: bool) -> Seq<char> {
    if b {
        "true"@
    } else {
        "false"@
    }
}

pub(crate) fn push_bool(out: &mut String, b: bool)
    ensures
        final(out)@ == old(out)@ + bool_text(b),
{
    if b {
        out.append("true");
    } else {
        out.append("false");
    }
}

/// At most the first 100 characters of the first line of a description.
pub open spec fn short_desc(d: Seq<char>) -> Seq<char> {
    let l = first_line(d);
    if l.len() <= 100 {
        l
    } else {
        l.take(100)
    }
}

fn push_short_desc(out: &mut String, d: &String)
    ensures
        final(out)@ == old(out)@ + short_desc(d@),
{
    let v = to_chars(d.as_str());
    let n = v.len();
    let ghost ds = v@;
    if n == 0 {
        assert(crate::config::parser::spec_lines(ds) =~= Seq::<Seq<char>>::empty());
        assert(old(out)@ + short_desc(d@) =~= old(out)@);
        return;
    }
    let k = find_char(v.as_slice(), 0, n, '\n');
    assert(v@.subrange(0, n as int) =~= v@);
    let mut end = k;
    if k < n && end > 0 && v[end - 1] == '\r' {
        end = end - 1;
    }
    proof {
        if k < n {
            assert(crate::config::parser::strip_cr(ds.take(k as int)) =~= ds.subrange(0, end as int));
        } else {
            assert(ds.subrange(0, end as int) =~= ds);
        }
        assert(first_line(ds) == ds.subrange(0, end as int));
    }
    let stop = if end > 100 {
        100
    } else {
        end
    };
    let s = string_of(v.as_slice(), 0, stop);
    assert(s@ =~= short_desc(d@));
    out.append(s.as_str());
}

/// One search hit as listed: number, name, category, short description
/// and default.
pub open spec fn hit_text(i: nat, o: OptionView) -> Seq<char> {
    spec_decimal(i + 1) + ". **"@ + o.name + "** ["@ + o.category + "]\n   "@ + short_desc(o.description)
        + "\n   Default: `"@ + default_text(o.default_value) + "`\n\n"@
}

pub open spec fn hits_text(hits: Seq<(OptionView, u32)>) -> Seq<char>
    decreases hits.len(),
{
    if hits.len() == 0 {
        seq![]
    } else {
        hits_text(hits.drop_last()) + hit_text((hits.len() - 1) as nat, hits.last().0)
    }
}

fn push_hit(out: &mut String, i: usize, o: &GhosttyOption)
    requires
        i < usize::MAX,
    ensures
        final(out)@ == old(out)@ + hit_text(i as nat, o@),
{
    push_decimal(out, i + 1);
    out.append(". **");
    out.append(o.name.as_str());
    out.append("** [");
    out.append(o.category.as_str());
    out.append("]\n   ");
    push_short_desc(out, &o.description);
    out.append("\n   Default: `");
    push_default(out, &o.default_value);
    out.append("`\n\n");
    assert(out@ =~= old(out)@ + hit_text(i as nat, o@));
}

/// The answer to a search: the hits listed, or a hint when there are none.
pub open spec fn spec_search_reply(query: Seq<char>, hits: Seq<(OptionView, u32)>) -> ReplyView {
    if hits.len() == 0 {
        reply(false, "No options found matching '"@ + query
            + "'.\n\nTip: Try broader terms or check available categories with list_categories."@)
    } else {
        reply(false, "Found "@ + spec_decimal(hits.len()) + " results for '"@ + query + "':\n\n"@ + hits_text(
            hits,
        ))
    }
}

pub open spec fn searchable(opts: Seq<OptionView>) -> bool {
    forall|i: int| 0 <= i < opts.len() ==> search_text(#[trigger] opts[i]).len() <= u32::MAX
}

/// Search Ghostty configuration options using fuzzy matching: the top ten
/// matches, each with name, short description, default value and category.
pub fn search_config_reply(options: &[GhosttyOption], query: &str, category: Option<&str>) -> (r: ToolReply)
    requires
        query@.len() <= 131072,
        searchable(options_view(options@)),
    ensures
        exists|hits: Seq<(OptionView, u32)>|
            search_outcome(
                options_view(options@),
                query@,
                match category {
                    Some(c) => Some(c@),
                    None => None,
                },
                10,
                hits,
            ) && r@ == spec_search_reply(query@, hits),
{
    proof {
        assert forall|i: int| 0 <= i < options@.len() implies search_text(#[trigger] options@[i]@).len()
            <= u32::MAX by {
            assert(options_view(options@)[i] == options@[i]@);
        }
    }
    let results = search_options(options, query, category, 10);
    let ghost hits = results_view(results@);
    if results.len() == 0 {
        let mut s = String::new();
        s.append("No options found matching '");
        s.append(query);
        s.append("'.\n\nTip: Try broader terms or check available categories with list_categories.");
        assert(s@ =~= spec_search_reply(query@, hits).text);
        return ToolReply { is_error: false, text: s };
    }
    let mut s = String::new();
    s.append("Found ");
    push_decimal(&mut s, results.len());
    s.append(" results for '");
    s.append(query);
    s.append("':\n\n");
    let ghost head = s@;
    let n = results.len();
    for i in 0..n
        invariant
            n == results@.len() == hits.len(),
            hits == results_view(results@),
            s@ == head + hits_text(hits.take(i as int)),
    {
        assert(hits.take(i + 1).drop_last() =~= hits.take(i as int));
        assert(hits.take(i + 1).last() == results@[i as int]@);
        push_hit(&mut s, i, &results[i].option);
    }
    assert(hits.take(n as int) =~= hits);
    assert(s@ =~= spec_search_reply(query@, hits).text);
    ToolReply { is_error: false, text: s }
}


pub open spec fn ticked(vs: Seq<Seq<char>>) -> Seq<Seq<char>> {
    vs.map_values(|v: Seq<char>| "`"@ + v + "`"@)
}

pub open spec fn opt_section(o: Option<Seq<Seq<char>>>, title: Seq<char>, items: spec_fn(Seq<Seq<char>>) -> Seq<Seq<char>>) -> Seq<char> {
    match o {
        Some(vs) => title + spec_join(items(vs), ", "@) + "\n"@,
        None => seq![],
    }
}

/// The full documentation of an option.
pub open spec fn option_doc(o: OptionView) -> Seq<char> {
    "# "@ + o.name + "\n\n"@ + "**Category:** "@ + o.category + "\n"@ + "**Type:** "@ + o.option_type
        + "\n"@ + "**Default:** `"@ + default_text(o.default_value) + "`\n"@ + opt_section(
        o.valid_values,
        "**Valid values:** "@,
        |vs: Seq<Seq<char>>| ticked(vs),
    ) + opt_section(o.platform, "**Platform:** "@, |vs: Seq<Seq<char>>| vs) + "**Reloadable:** "@
        + bool_text(o.reloadable) + "\n"@ + "**Repeatable:** "@ + bool_text(o.repeatable) + "\n"@
        + "\n## Description\n\n"@ + o.description + "\n"@ + opt_section(
        o.related_options,
        "\n## Related Options\n\n"@,
        |vs: Seq<Seq<char>>| vs,
    )
}

pub open spec fn hit_names(hits: Seq<(OptionView, u32)>) -> Seq<Seq<char>> {
    hits.map_values(|h: (OptionView, u32)| h.0.name)
}

/// The answer to `get_option`: the option's documentation, or an error
/// suggesting the five best matches for the name.
pub open spec fn spec_get_option_reply(opts: Seq<OptionView>, name: Seq<char>, hits: Seq<(OptionView, u32)>) -> ReplyView {
    let i = find_option(opts, name);
    if i >= 0 {
        reply(false, option_doc(opts[i]))
    } else {
        reply(true, "Option '"@ + name + "' not found.\n\nDid you mean: "@ + spec_join(hit_names(hits), ", "@)
            + "?\n\nUse search_config to find options by concept."@)
    }
}

fn push_list_line(out: &mut String, title: &str, vs: &Option<Vec<String>>, tick: bool)
    ensures
        final(out)@ == old(out)@ + opt_section(
            match vs {
                Some(v) => Some(str_seq_view(v@)),
                None => None,
            },
            title@,
            if tick {
                |vs: Seq<Seq<char>>| ticked(vs)
            } else {
                |vs: Seq<Seq<char>>| vs
            },
        ),
{
    match vs {
        Some(v) => {
            out.append(title);
            if tick {
                let mut items: Vec<String> = Vec::new();
                let n = v.len();
                for i in 0..n
                    invariant
                        n == v@.len(),
                        items@.map_values(|s: String| s@) == ticked(str_seq_view(v@)).take(i as int),
                {
                    let mut t = String::new();
                    t.append("`");
                    t.append(v[i].as_str());
                    t.append("`");
                    let ghost before = items@;
                    items.push(t);
                    assert(items@.map_values(|s: String| s@) =~= before.map_values(|s: String| s@).push(t@));
                    assert(items@.map_values(|s: String| s@) =~= ticked(str_seq_view(v@)).take(i + 1));
                }
                assert(ticked(str_seq_view(v@)).take(n as int) =~= ticked(str_seq_view(v@)));
                let joined = join(&items, ", ");
                out.append(joined.as_str());
            } else {
                let joined = join(v, ", ");
                assert(v@.map_values(|s: String| s@) =~= str_seq_view(v@));
                out.append(joined.as_str());
            }
            out.append("\n");
        },
        None => {},
    }
}

fn option_doc_text(o: &GhosttyOption) -> (r: String)
    ensures
        r@ == option_doc(o@),
{
    let mut s = String::new();
    s.append("# ");
    s.append(o.name.as_str());
    s.append("\n\n");
    s.append("**Category:** ");
    s.append(o.category.as_str());
    s.append("\n");
    s.append("**Type:** ");
    s.append(o.option_type.as_str());
    s.append("\n");
    s.append("**Default:** `");
    push_default(&mut s, &o.default_value);
    s.append("`\n");
    push_list_line(&mut s, "**Valid values:** ", &o.valid_values, true);
    push_list_line(&mut s, "**Platform:** ", &o.platform, false);
    s.append("**Reloadable:** ");
    push_bool(&mut s, o.reloadable);
    s.append("\n");
    s.append("**Repeatable:** ");
    push_bool(&mut s, o.repeatable);
    s.append("\n");
    s.append("\n## Description\n\n");
    s.append(o.description.as_str());
    s.append("\n");
    push_list_line(&mut s, "\n## Related Options\n\n", &o.related_options, false);
    assert(s@ =~= option_doc(o@));
    s
}

/// Get complete documentation for a specific Ghostty configuration option
/// by exact name.
pub fn get_option_reply(options: &[GhosttyOption], name: &str) -> (r: ToolReply)
    requires
        name@.len() <= 131072,
        searchable(options_view(options@)),
    ensures
        find_option(options_view(options@), name@) >= 0 ==> r@ == spec_get_option_reply(
            options_view(options@),
            name@,
            seq![],
        ),
        find_option(options_view(options@), name@) < 0 ==> exists|hits: Seq<(OptionView, u32)>|
            search_outcome(options_view(options@), name@, None, 5, hits) && r@ == spec_get_option_reply(
                options_view(options@),
                name@,
                hits,
            ),
{
    let i = option_index(options, name);
    if i < options.len() {
        assert(options_view(options@)[i as int] == options@[i as int]@);
        return ToolReply { is_error: false, text: option_doc_text(&options[i]) };
    }
    proof {
        assert forall|t: int| 0 <= t < options@.len() implies search_text(#[trigger] options@[t]@).len()
            <= u32::MAX by {
            assert(options_view(options@)[t] == options@[t]@);
        }
    }
    let results = search_options(options, name, None, 5);
    let ghost hits = results_view(results@);
    let mut names: Vec<String> = Vec::new();
    let n = results.len();
    for j in 0..n
        invariant
            n == results@.len() == hits.len(),
            hits == results_view(results@),
            names@.map_values(|s: String| s@) == hit_names(hits).take(j as int),
    {
        let ghost before = names@;
        let nm = results[j].option.name.clone();
        names.push(nm);
        assert(names@.map_values(|s: String| s@) =~= before.map_values(|s: String| s@).push(nm@));
        assert(names@.map_values(|s: String| s@) =~= hit_names(hits).take(j + 1));
    }
    assert(hit_names(hits).take(n as int) =~= hit_names(hits));
    let joined = join(&names, ", ");
    let mut s = String::new();
    s.append("Option '");
    s.append(name);
    s.append("' not found.\n\nDid you mean: ");
    s.append(joined.as_str());
    s.append("?\n\nUse search_config to find options by concept.");
    assert(s@ =~= spec_get_option_reply(options_view(options@), name@, hits).text);
    ToolReply { is_error: true, text: s }
}


/// How many options belong to category `c`.
pub open spec fn count_in(opts: Seq<OptionView>, c: Seq<char>) -> nat
    decreases opts.len(),
{
    if opts.len() == 0 {
        0
    } else {
        count_in(opts.drop_last(), c) + if opts.last().category == c {
            1nat
        } else {
            0nat
        }
    }
}

/// `cv` lists every category of `opts` once, in key order, with its count.
pub open spec fn counted(cv: Seq<(Seq<char>, nat)>, opts: Seq<OptionView>) -> bool {
    &&& forall|i: int, j: int| 0 <= i < j < cv.len() ==> lex_lt(#[trigger] cv[i].0, #[trigger] cv[j].0)
    &&& forall|c: Seq<char>| (exists|i: int| 0 <= i < cv.len() && #[trigger] cv[i].0 == c) <==> count_in(opts, c) > 0
    &&& forall|i: int| 0 <= i < cv.len() ==> (#[trigger] cv[i]).1 == count_in(opts, cv[i].0)
}

/// Only one list of categories and counts fits the options: `counted`
/// determines it.
pub proof fn lemma_counted_unique(a: Seq<(Seq<char>, nat)>, b: Seq<(Seq<char>, nat)>, opts: Seq<OptionView>)
    requires
        counted(a, opts),
        counted(b, opts),
    ensures
        a == b,
{
    let ka = a.map_values(|e: (Seq<char>, nat)| e.0);
    let kb = b.map_values(|e: (Seq<char>, nat)| e.0);
    assert forall|i: int, j: int| 0 <= i < j < ka.len() implies lex_lt(#[trigger] ka[i], #[trigger] ka[j]) by {
        assert(lex_lt(a[i].0, a[j].0));
    }
    assert forall|i: int, j: int| 0 <= i < j < kb.len() implies lex_lt(#[trigger] kb[i], #[trigger] kb[j]) by {
        assert(lex_lt(b[i].0, b[j].0));
    }
    assert forall|k: Seq<char>| ka.contains(k) <==> kb.contains(k) by {
        if ka.contains(k) {
            let i = choose|i: int| 0 <= i < ka.len() && ka[i] == k;
            assert(a[i].0 == k);
            assert(count_in(opts, k) > 0);
            let j = choose|j: int| 0 <= j < b.len() && #[trigger] b[j].0 == k;
            assert(kb[j] == k);
        }
        if kb.contains(k) {
            let i = choose|i: int| 0 <= i < kb.len() && kb[i] == k;
            assert(b[i].0 == k);
            assert(count_in(opts, k) > 0);
            let j = choose|j: int| 0 <= j < a.len() && #[trigger] a[j].0 == k;
            assert(ka[j] == k);
        }
    }
    lemma_sorted_unique(ka, kb);
    assert(a.len() == ka.len() && b.len() == kb.len());
    assert forall|i: int| 0 <= i < a.len() implies a[i] == b[i] by {
        assert(ka[i] == kb[i]);
        assert(a[i].0 == b[i].0);
        assert(a[i].1 == count_in(opts, a[i].0));
        assert(b[i].1 == count_in(opts, b[i].0));
    }
    assert(a =~= b);
}

pub open spec fn counts_view(s: Seq<(String, Vec<usize>)>) -> Seq<(Seq<char>, nat)> {
    s.map_values(|e: (String, Vec<usize>)| (e.0@, e.1@.len()))
}

/// The options of each category, by position, in key order.
pub(crate) fn category_counts(options: &[GhosttyOption]) -> (r: KeyedLists<usize>)
    ensures
        r.sorted(),
        counted(counts_view(r.entries@), options_view(options@)),
{
    let ghost ov = options_view(options@);
    let mut m: KeyedLists<usize> = KeyedLists::new();
    let n = options.len();
    for i in 0..n
        invariant
            n == options@.len() == ov.len(),
            ov == options_view(options@),
            m.sorted(),
            forall|c: Seq<char>| #[trigger] m.has_key(c) == (count_in(ov.take(i as int), c) > 0),
            forall|c: Seq<char>| #[trigger] m.values_for(c).len() == count_in(ov.take(i as int), c),
    {
        assert(ov.take(i + 1).drop_last() =~= ov.take(i as int));
        assert(ov.take(i + 1).last() == options@[i as int]@);
        m.push_value(&options[i].category, i);
    }
    assert(ov.take(n as int) =~= ov);
    proof {
        let cv = counts_view(m.entries@);
        let s = m.entries@;
        assert forall|i: int, j: int| 0 <= i < j < cv.len() implies lex_lt(#[trigger] cv[i].0, #[trigger] cv[j].0) by {
            assert(cv[i].0 == key_of(s, i) && cv[j].0 == key_of(s, j));
        }
        assert forall|c: Seq<char>| (exists|i: int| 0 <= i < cv.len() && #[trigger] cv[i].0 == c) <==> count_in(ov, c) > 0 by {
            if exists|i: int| 0 <= i < cv.len() && #[trigger] cv[i].0 == c {
                let i = choose|i: int| 0 <= i < cv.len() && #[trigger] cv[i].0 == c;
                assert(key_of(s, i) == c);
                assert(m.has_key(c));
            }
            if count_in(ov, c) > 0 {
                assert(m.has_key(c));
                let p = entries_position(s, c);
                assert(cv[p].0 == c);
            }
        }
        assert forall|i: int| 0 <= i < cv.len() implies (#[trigger] cv[i]).1 == count_in(ov, cv[i].0) by {
            lemma_sorted_position(s, i);
            assert(m.values_for(key_of(s, i)).len() == count_in(ov, key_of(s, i)));
        }
    }
    m
}

/// The count listed for category `name`, if it is listed.
pub open spec fn lookup_count(cv: Seq<(Seq<char>, nat)>, name: Seq<char>) -> Option<nat>
    decreases cv.len(),
{
    if cv.len() == 0 {
        None
    } else if cv[0].0 == name {
        Some(cv[0].1)
    } else {
        lookup_count(cv.drop_first(), name)
    }
}

pub open spec fn has_description(descs: Seq<(Seq<char>, Seq<char>)>, name: Seq<char>) -> bool {
    exists|i: int| 0 <= i < descs.len() && #[trigger] descs[i].0 == name
}

/// A line for each described category that has options, in description order.
pub open spec fn described_lines(descs: Seq<(Seq<char>, Seq<char>)>, cv: Seq<(Seq<char>, nat)>) -> Seq<char>
    decreases descs.len(),
{
    if descs.len() == 0 {
        seq![]
    } else {
        let (name, desc) = descs.last();
        described_lines(descs.drop_last(), cv) + match lookup_count(cv, name) {
            Some(count) => "- **"@ + name + "** ("@ + spec_decimal(count) + " options): "@ + desc + "\n"@,
            None => seq![],
        }
    }
}

/// A line for each category without a description, in key order.
pub open spec fn undescribed_lines(cv: Seq<(Seq<char>, nat)>, descs: Seq<(Seq<char>, Seq<char>)>) -> Seq<char>
    decreases cv.len(),
{
    if cv.len() == 0 {
        seq![]
    } else {
        let (name, count) = cv.last();
        undescribed_lines(cv.drop_last(), descs) + if has_description(descs, name) {
            seq![]
        } else {
            "- **"@ + name + "** ("@ + spec_decimal(count) + " options)\n"@
        }
    }
}

/// The answer to `list_categories`.
pub open spec fn spec_list_categories(n: nat, cv: Seq<(Seq<char>, nat)>) -> Seq<char> {
    "# Ghostty Configuration Categories\n\n"@ + "Total: "@ + spec_decimal(n) + " options across "@
        + spec_decimal(cv.len()) + " categories\n\n"@ + described_lines(spec_category_descriptions(), cv)
        + undescribed_lines(cv, spec_category_descriptions())
        + "\nUse `search_config` with a category filter to browse options in a category."@
}

fn find_count(m: &KeyedLists<usize>, name: &str) -> (r: Option<usize>)
    ensures
        (match r {
            Some(c) => Some(c as nat),
            None => None,
        }) == lookup_count(counts_view(m.entries@), name@),
{
    let ghost cv = counts_view(m.entries@);
    let n = m.entries.len();
    assert(cv.skip(0) =~= cv);
    for i in 0..n
        invariant
            n == m.entries@.len() == cv.len(),
            cv == counts_view(m.entries@),
            lookup_count(cv, name@) == lookup_count(cv.skip(i as int), name@),
    {
        assert(cv.skip(i as int).drop_first() =~= cv.skip(i + 1));
        assert(cv.skip(i as int)[0] == cv[i as int]);
        if str_eq(m.entries[i].0.as_str(), name) {
            return Some(m.entries[i].1.len());
        }
    }
    assert(cv.skip(n as int) =~= Seq::<(Seq<char>, nat)>::empty());
    None
}

fn is_described(descs: &Vec<(&'static str, &'static str)>, name: &str) -> (r: bool)
    ensures
        r == has_description(descs@.map_values(|p: (&'static str, &'static str)| (p.0@, p.1@)), name@),
{
    let ghost dv = descs@.map_values(|p: (&'static str, &'static str)| (p.0@, p.1@));
    let n = descs.len();
    for i in 0..n
        invariant
            n == descs@.len() == dv.len(),
            dv == descs@.map_values(|p: (&'static str, &'static str)| (p.0@, p.1@)),
            forall|j: int| 0 <= j < i ==> dv[j].0 != name@,
    {
        if str_eq(descs[i].0, name) {
            assert(dv[i as int].0 == name@);
            return true;
        }
    }
    false
}

fn push_category_line(out: &mut String, name: &str, count: usize, desc: Option<&str>)
    ensures
        final(out)@ == old(out)@ + "- **"@ + name@ + "** ("@ + spec_decimal(count as nat) + match desc {
            Some(d) => " options): "@ + d@ + "\n"@,
            None => " options)\n"@,
        },
{
    out.append("- **");
    out.append(name);
    out.append("** (");
    push_decimal(out, count);
    match desc {
        Some(d) => {
            out.append(" options): ");
            out.append(d);
            out.append("\n");
        },
        None => {
            out.append(" options)\n");
        },
    }
}

/// List all Ghostty configuration categories with descriptions and option
/// counts. Categories that have no description follow in key order.
pub fn list_categories_text(options: &[GhosttyOption]) -> (r: String)
    ensures
        exists|cv: Seq<(Seq<char>, nat)>|
            counted(cv, options_view(options@)) && r@ == spec_list_categories(options@.len(), cv),
{
    let descs = category_descriptions();
    let ghost dv = descs@.map_values(|p: (&'static str, &'static str)| (p.0@, p.1@));
    let m = category_counts(options);
    let ghost cv = counts_view(m.entries@);
    let mut s = String::new();
    s.append("# Ghostty Configuration Categories\n\n");
    s.append("Total: ");
    push_decimal(&mut s, options.len());
    s.append(" options across ");
    push_decimal(&mut s, m.entries.len());
    s.append(" categories\n\n");
    let ghost head = s@;
    let nd = descs.len();
    for i in 0..nd
        invariant
            nd == descs@.len() == dv.len(),
            dv == descs@.map_values(|p: (&'static str, &'static str)| (p.0@, p.1@)),
            cv == counts_view(m.entries@),
            s@ == head + described_lines(dv.take(i as int), cv),
    {
        assert(dv.take(i + 1).drop_last() =~= dv.take(i as int));
        assert(dv.take(i + 1).last() == dv[i as int]);
        let (name, desc) = descs[i];
        let ghost before = s@;
        match find_count(&m, name) {
            Some(count) => {
                push_category_line(&mut s, name, count, Some(desc));
            },
            None => {},
        }
        assert(s@ =~= head + described_lines(dv.take(i + 1), cv));
    }
    assert(dv.take(nd as int) =~= dv);
    let ghost mid = s@;
    let nc = m.entries.len();
    for i in 0..nc
        invariant
            nc == m.entries@.len() == cv.len(),
            dv == descs@.map_values(|p: (&'static str, &'static str)| (p.0@, p.1@)),
            cv == counts_view(m.entries@),
            s@ == mid + undescribed_lines(cv.take(i as int), dv),
    {
        assert(cv.take(i + 1).drop_last() =~= cv.take(i as int));
        assert(cv.take(i + 1).last() == cv[i as int]);
        let name = m.entries[i].0.as_str();
        if !is_described(&descs, name) {
            push_category_line(&mut s, name, m.entries[i].1.len(), None);
        }
        assert(s@ =~= mid + undescribed_lines(cv.take(i + 1), dv));
    }
    assert(cv.take(nc as int) =~= cv);
    s.append("\nUse `search_config` with a category filter to browse options in a category.");
    assert(s@ =~= spec_list_categories(options@.len(), cv));
    s
}

/// `s` ends with `suffix`.
pub open spec fn ends_with(s: Seq<char>, suffix: Seq<char>) -> bool {
    suffix.len() <= s.len() && s.skip(s.len() - suffix.len()) == suffix
}

/// An option's documentation starts with its name as a heading and ends
/// with its description, followed by its related options (joined by `, `)
/// under their own heading when it has any.
pub proof fn law_option_doc_parts(o: OptionView)
    ensures
        option_doc(o).take(("# "@ + o.name + "\n\n"@).len() as int) == "# "@ + o.name + "\n\n"@,
        match o.related_options {
            Some(vs) => ends_with(
                option_doc(o),
                "\n## Description\n\n"@ + o.description + "\n"@ + "\n## Related Options\n\n"@ + spec_join(vs, ", "@)
                    + "\n"@,
            ),
            None => ends_with(option_doc(o), "\n## Description\n\n"@ + o.description + "\n"@),
        },
{
    let d = option_doc(o);
    let head = "# "@ + o.name + "\n\n"@;
    assert(d.take(head.len() as int) =~= head);
    match o.related_options {
        Some(vs) => {
            let tail = "\n## Description\n\n"@ + o.description + "\n"@ + "\n## Related Options\n\n"@ + spec_join(
                vs,
                ", "@,
            ) + "\n"@;
            assert(d.skip(d.len() - tail.len()) =~= tail);
        },
        None => {
            let tail = "\n## Description\n\n"@ + o.description + "\n"@;
            assert(d.skip(d.len() - tail.len()) =~= tail);
        },
    }
}

/// An option's documentation opens with its name, category, type and
/// default, one per line, followed by its valid values, each in
/// backticks and joined by `, `, when it has a list of them.
pub proof fn law_option_doc_fields(o: OptionView)
    ensures
        ({
            let d = option_doc(o);
            let head = "# "@ + o.name + "\n\n"@ + "**Category:** "@ + o.category + "\n"@ + "**Type:** "@
                + o.option_type + "\n"@ + "**Default:** `"@ + default_text(o.default_value) + "`\n"@;
            &&& d.take(head.len() as int) == head
            &&& o.valid_values matches Some(vs) ==> ({
                let line = "**Valid values:** "@ + spec_join(vs.map_values(|v: Seq<char>| "`"@ + v + "`"@), ", "@)
                    + "\n"@;
                d.subrange(head.len() as int, (head.len() + line.len()) as int) == line
            })
        }),
{
    let d = option_doc(o);
    let head = "# "@ + o.name + "\n\n"@ + "**Category:** "@ + o.category + "\n"@ + "**Type:** "@ + o.option_type
        + "\n"@ + "**Default:** `"@ + default_text(o.default_value) + "`\n"@;
    assert(d.take(head.len() as int) =~= head);
    match o.valid_values {
        Some(vs) => {
            let line = "**Valid values:** "@ + spec_join(vs.map_values(|v: Seq<char>| "`"@ + v + "`"@), ", "@)
                + "\n"@;
            assert(ticked(vs) =~= vs.map_values(|v: Seq<char>| "`"@ + v + "`"@));
            assert(d.subrange(head.len() as int, (head.len() + line.len()) as int) =~= line);
        },
        None => {},
    }
}

} // verus!
