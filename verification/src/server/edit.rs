//! The answers of the tools that read, change and check the config file.
//! The caller reads the file before and writes it after, as each function
//! says.

use vstd::prelude::*;
use vstd::string::StringExecFns;
use crate::config::parser::{ConfigFile, LineView, spec_get, spec_get_all, strs_view, keyed_values,
    line_wf, spec_parse, spec_render, law_parse_render, lemma_get_is_last};
use crate::config::validator::{find_option, option_index, entries_view, IssueLevel, IssueView, issues_view,
    spec_validate_value, validate_value, spec_validate_config, validate_config};
use crate::config::writer::{has_entry, spec_append_option, spec_set_option, spec_comment_option,
    spec_comment_option_value, append_option, set_option, comment_option, comment_option_value,
    lemma_first_entry_index, lemma_no_key_lines, law_set_option, law_append_option, last_key_index,
    spec_separated, commented, spec_comment_line, law_comment_option, law_comment_option_value, remove_first,
    lemma_no_entry, lemma_remove_first_split};
use crate::text::{spec_is_whitespace, spec_trim, spec_trim_start, spec_trim_end, lemma_trimmed_ends};
use crate::data::options::{GhosttyOption, OptionView, options_view};
use crate::server::{ToolReply, ReplyView, reply, default_text, push_default, ends_with};
use crate::text::{spec_decimal, push_decimal, spec_join, join};
use crate::data::options::str_seq_view;

verus! {

/// One `- \`value\`` line per value.
pub open spec fn value_lines(vs: Seq<Seq<char>>) -> Seq<char>
    decreases vs.len(),
{
    if vs.len() == 0 {
        seq![]
    } else {
        value_lines(vs.drop_last()) + "- `"@ + vs.last() + "`\n"@
    }
}

/// The current value of one option: every entry of a repeatable option,
/// the last one of any other, and the default of a known option.
pub open spec fn spec_read_option(opts: Seq<OptionView>, lines: Seq<LineView>, name: Seq<char>) -> Seq<char> {
    let i = find_option(opts, name);
    let all = spec_get_all(lines, name);
    "# "@ + name + " -- Current Value\n\n"@ + (if i >= 0 && opts[i].repeatable {
        if all.len() == 0 {
            "**Not set** (using default)\n"@
        } else {
            "**"@ + spec_decimal(all.len()) + " entries set:**\n"@ + value_lines(all)
        }
    } else {
        match spec_get(lines, name) {
            Some(v) => "**Set to:** `"@ + v + "`\n"@,
            None => "**Not set** (using default)\n"@,
        }
    }) + (if i >= 0 {
        "**Default:** `"@ + default_text(opts[i].default_value) + "`\n"@
    } else {
        seq![]
    })
}

/// One `key = value` line per value.
pub open spec fn assignment_lines(key: Seq<char>, vs: Seq<Seq<char>>) -> Seq<char>
    decreases vs.len(),
{
    if vs.len() == 0 {
        seq![]
    } else {
        assignment_lines(key, vs.drop_last()) + key + " = "@ + vs.last() + "\n"@
    }
}

pub open spec fn entries_lines(es: Seq<(Seq<char>, Seq<Seq<char>>)>) -> Seq<char>
    decreases es.len(),
{
    if es.len() == 0 {
        seq![]
    } else {
        entries_lines(es.drop_last()) + assignment_lines(es.last().0, es.last().1)
    }
}

/// Every option that is set, in key order, or a note that none is.
pub open spec fn spec_read_all(es: Seq<(Seq<char>, Seq<Seq<char>>)>) -> Seq<char> {
    if es.len() == 0 {
        "# Ghostty Configuration\n\nConfig file is empty or not found. All options are using defaults.\n\nUse `write_config` to set options, or `search_config` to find options."@
    } else {
        "# Current Ghostty Configuration\n\n"@ + spec_decimal(es.len()) + " options set:\n\n"@ + entries_lines(es)
    }
}

fn push_values(out: &mut String, vs: &Vec<String>, key: Option<&str>)
    ensures
        final(out)@ == old(out)@ + match key {
            Some(k) => assignment_lines(k@, strs_view(vs@)),
            None => value_lines(strs_view(vs@)),
        },
{
    let ghost head = out@;
    let ghost sv = strs_view(vs@);
    let n = vs.len();
    for i in 0..n
        invariant
            n == vs@.len() == sv.len(),
            sv == strs_view(vs@),
            out@ == head + match key {
                Some(k) => assignment_lines(k@, sv.take(i as int)),
                None => value_lines(sv.take(i as int)),
            },
    {
        assert(sv.take(i + 1).drop_last() =~= sv.take(i as int));
        assert(sv.take(i + 1).last() == vs@[i as int]@);
        match key {
            Some(k) => {
                out.append(k);
                out.append(" = ");
                out.append(vs[i].as_str());
                out.append("\n");
            },
            None => {
                out.append("- `");
                out.append(vs[i].as_str());
                out.append("`\n");
            },
        }
        assert(out@ =~= head + match key {
            Some(k) => assignment_lines(k@, sv.take(i + 1)),
            None => value_lines(sv.take(i + 1)),
        });
    }
    assert(sv.take(n as int) =~= sv);
}

/// Read the current Ghostty configuration: one option's value when
/// `option` names it, otherwise every option that is set.
pub fn read_config_text(options: &[GhosttyOption], config: &ConfigFile, option: Option<&str>) -> (r: String)
    ensures
        match option {
            Some(name) => r@ == spec_read_option(options_view(options@), config@.lines, name@),
            None => exists|es: Seq<(Seq<char>, Seq<Seq<char>>)>|
                keyed_values(es, config@.lines) && r@ == spec_read_all(es),
        },
{
    let ghost ov = options_view(options@);
    let ghost lines = config@.lines;
    match option {
        Some(name) => {
            let i = option_index(options, name);
            let known = i < options.len();
            if known {
                assert(ov[i as int] == options@[i as int]@);
            }
            let mut s = String::new();
            s.append("# ");
            s.append(name);
            s.append(" -- Current Value\n\n");
            let ghost head = s@;
            if known && options[i].repeatable {
                let all = config.get_all(name);
                if all.len() == 0 {
                    s.append("**Not set** (using default)\n");
                } else {
                    s.append("**");
                    push_decimal(&mut s, all.len());
                    s.append(" entries set:**\n");
                    push_values(&mut s, &all, None);
                }
            } else {
                match config.get(name) {
                    Some(v) => {
                        s.append("**Set to:** `");
                        s.append(v.as_str());
                        s.append("`\n");
                    },
                    None => {
                        s.append("**Not set** (using default)\n");
                    },
                }
            }
            if known {
                s.append("**Default:** `");
                push_default(&mut s, &options[i].default_value);
                s.append("`\n");
            }
            assert(s@ =~= spec_read_option(ov, lines, name@));
            s
        },
        None => {
            let map = config.to_map();
            let ghost es = entries_view(map.entries@);
            let n = map.entries.len();
            if n == 0 {
                let mut s = String::new();
                s.append("# Ghostty Configuration\n\nConfig file is empty or not found. All options are using defaults.\n\nUse `write_config` to set options, or `search_config` to find options.");
                assert(s@ =~= spec_read_all(es));
                return s;
            }
            let mut s = String::new();
            s.append("# Current Ghostty Configuration\n\n");
            push_decimal(&mut s, n);
            s.append(" options set:\n\n");
            let ghost head = s@;
            for i in 0..n
                invariant
                    n == map.entries@.len() == es.len(),
                    es == entries_view(map.entries@),
                    s@ == head + entries_lines(es.take(i as int)),
            {
                assert(es.take(i + 1).drop_last() =~= es.take(i as int));
                assert(es.take(i + 1).last() == es[i as int]);
                push_values(&mut s, &map.entries[i].1, Some(map.entries[i].0.as_str()));
                assert(s@ =~= head + entries_lines(es.take(i + 1)));
            }
            assert(es.take(n as int) =~= es);
            assert(s@ =~= spec_read_all(es));
            s
        },
    }
}

/// Index of the first error among `issues`, or -1.
pub open spec fn first_error(issues: Seq<IssueView>) -> int
    decreases issues.len(),
{
    if issues.len() == 0 {
        -1
    } else if issues[0].level == IssueLevel::Error {
        0
    } else {
        let r = first_error(issues.drop_first());
        if r < 0 {
            -1
        } else {
            r + 1
        }
    }
}

proof fn lemma_first_error(issues: Seq<IssueView>, i: int)
    requires
        0 <= i <= issues.len(),
        forall|j: int| 0 <= j < i ==> (#[trigger] issues[j]).level != IssueLevel::Error,
        i < issues.len() ==> issues[i].level == IssueLevel::Error,
    ensures
        first_error(issues) == (if i < issues.len() {
            i
        } else {
            -1
        }),
    decreases issues.len(),
{
    if issues.len() > 0 && i > 0 {
        assert forall|j: int| 0 <= j < i - 1 implies (#[trigger] issues.drop_first()[j]).level
            != IssueLevel::Error by {
            assert(issues.drop_first()[j] == issues[j + 1]);
        }
        if i < issues.len() {
            assert(issues.drop_first()[i - 1] == issues[i]);
        }
        lemma_first_error(issues.drop_first(), i - 1);
    }
}

pub open spec fn issue_messages(issues: Seq<IssueView>) -> Seq<Seq<char>> {
    issues.map_values(|i: IssueView| i.message)
}

/// What is decided before the file is read: a known option's value with an
/// error is refused with the first error; otherwise the warnings to report,
/// which for an unknown option is that it is unknown.
pub open spec fn spec_check_write(opts: Seq<OptionView>, option: Seq<char>, value: Seq<char>) -> Result<
    Seq<Seq<char>>,
    ReplyView,
> {
    let i = find_option(opts, option);
    if i >= 0 {
        let issues = spec_validate_value(opts[i], value);
        let e = first_error(issues);
        if e >= 0 {
            Err(reply(true, "Validation error: "@ + issues[e].message + "\n\nThe value was NOT written."@))
        } else {
            Ok(issue_messages(issues))
        }
    } else {
        Ok(
            seq![
                "Unknown option '"@ + option
                    + "'. It will be written but may not be recognized by Ghostty."@,
            ],
        )
    }
}

pub open spec fn warnings_view(r: Result<Vec<String>, ToolReply>) -> Result<Seq<Seq<char>>, ReplyView> {
    match r {
        Ok(ws) => Ok(str_seq_view(ws@)),
        Err(rep) => Err(rep@),
    }
}

/// Check a value before it is written: the refusal, or the warnings that
/// go with the write.
pub fn check_write(options: &[GhosttyOption], option: &str, value: &str) -> (r: Result<Vec<String>, ToolReply>)
    ensures
        warnings_view(r) == spec_check_write(options_view(options@), option@, value@),
{
    let ghost ov = options_view(options@);
    let i = option_index(options, option);
    let mut warnings: Vec<String> = Vec::new();
    if i < options.len() {
        assert(ov[i as int] == options@[i as int]@);
        let issues = validate_value(&options[i], value);
        let ghost iv = issues_view(issues@);
        let n = issues.len();
        for j in 0..n
            invariant
                n == issues@.len() == iv.len(),
                i < ov.len(),
                ov == options_view(options@),
                find_option(ov, option@) == i as int,
                iv == issues_view(issues@),
                iv == spec_validate_value(ov[i as int], value@),
                forall|t: int| 0 <= t < j ==> (#[trigger] iv[t]).level != IssueLevel::Error,
                str_seq_view(warnings@) == issue_messages(iv.take(j as int)),
        {
            assert(iv[j as int] == issues@[j as int]@);
            match issues[j].level {
                IssueLevel::Error => {
                    proof {
                        lemma_first_error(iv, j as int);
                    }
                    let mut s = String::new();
                    s.append("Validation error: ");
                    s.append(issues[j].message.as_str());
                    s.append("\n\nThe value was NOT written.");
                    let rep = ToolReply { is_error: true, text: s };
                    assert(rep@ == reply(true, "Validation error: "@ + iv[j as int].message
                        + "\n\nThe value was NOT written."@));
                    return Err(rep);
                },
                IssueLevel::Warning => {
                    let ghost before = warnings@;
                    let m = issues[j].message.clone();
                    warnings.push(m);
                    assert(iv.take(j + 1) =~= iv.take(j as int).push(iv[j as int]));
                    assert(str_seq_view(warnings@) =~= str_seq_view(before).push(m@));
                    assert(issue_messages(iv.take(j + 1)) =~= issue_messages(iv.take(j as int)).push(
                        iv[j as int].message,
                    ));
                },
            }
        }
        proof {
            lemma_first_error(iv, n as int);
        }
        assert(iv.take(n as int) =~= iv);
    } else {
        let mut s = String::new();
        s.append("Unknown option '");
        s.append(option);
        s.append("'. It will be written but may not be recognized by Ghostty.");
        warnings.push(s);
        assert(str_seq_view(warnings@) =~= seq![
            "Unknown option '"@ + option@ + "'. It will be written but may not be recognized by Ghostty."@,
        ]);
    }
    Ok(warnings)
}

pub open spec fn bullets(ws: Seq<Seq<char>>) -> Seq<Seq<char>> {
    ws.map_values(|w: Seq<char>| "- "@ + w)
}

/// The warnings as a list under a heading, or nothing when there are none.
pub open spec fn warnings_text(ws: Seq<Seq<char>>) -> Seq<char> {
    if ws.len() == 0 {
        seq![]
    } else {
        "\nWarnings:\n"@ + spec_join(bullets(ws), "\n"@)
    }
}

pub open spec fn write_repeatable(opts: Seq<OptionView>, option: Seq<char>) -> bool {
    let i = find_option(opts, option);
    i >= 0 && opts[i].repeatable
}

/// The lines after a write: a repeatable option gets a new entry, any
/// other is set.
pub open spec fn spec_write_lines(opts: Seq<OptionView>, lines: Seq<LineView>, option: Seq<char>, value: Seq<char>) -> Seq<
    LineView,
> {
    if write_repeatable(opts, option) {
        spec_append_option(lines, option, value)
    } else {
        spec_set_option(lines, option, value)
    }
}

/// The answer to a write, given the lines read and the warnings from the
/// check; an exact duplicate entry of a repeatable option is refused.
pub open spec fn spec_write_reply(
    opts: Seq<OptionView>,
    lines: Seq<LineView>,
    option: Seq<char>,
    value: Seq<char>,
    warnings: Seq<Seq<char>>,
) -> Result<Seq<char>, ReplyView> {
    let tail = warnings_text(warnings) + "\nReload config in Ghostty (Cmd+Shift+, on macOS) to apply changes."@;
    if write_repeatable(opts, option) {
        if has_entry(lines, option, value) {
            Err(reply(true, "Duplicate: `"@ + option + " = "@ + value + "` already exists in config."@))
        } else {
            Ok(
                "Appended `"@ + option + " = "@ + value + "`\n("@ + spec_decimal(
                    spec_get_all(spec_append_option(lines, option, value), option).len(),
                ) + " total entries)\n"@ + tail,
            )
        }
    } else {
        Ok(
            "Set `"@ + option + " = "@ + value + "`\n"@ + match spec_get(lines, option) {
                Some(p) => "Previous value: `"@ + p + "`\n"@,
                None => "(new option added)\n"@,
            } + tail,
        )
    }
}

pub open spec fn text_view(r: Result<String, ToolReply>) -> Result<Seq<char>, ReplyView> {
    match r {
        Ok(s) => Ok(s@),
        Err(rep) => Err(rep@),
    }
}

fn push_warnings(out: &mut String, warnings: &Vec<String>)
    ensures
        final(out)@ == old(out)@ + warnings_text(str_seq_view(warnings@)),
{
    let n = warnings.len();
    if n == 0 {
        assert(old(out)@ + warnings_text(str_seq_view(warnings@)) =~= old(out)@);
        return;
    }
    let ghost ws = str_seq_view(warnings@);
    let mut items: Vec<String> = Vec::new();
    for i in 0..n
        invariant
            n == warnings@.len() == ws.len(),
            ws == str_seq_view(warnings@),
            str_seq_view(items@) == bullets(ws).take(i as int),
    {
        let mut t = String::new();
        t.append("- ");
        t.append(warnings[i].as_str());
        let ghost before = items@;
        items.push(t);
        assert(str_seq_view(items@) =~= str_seq_view(before).push(t@));
        assert(str_seq_view(items@) =~= bullets(ws).take(i + 1));
    }
    assert(bullets(ws).take(n as int) =~= bullets(ws));
    let joined = join(&items, "\n");
    assert(items@.map_values(|s: String| s@) =~= str_seq_view(items@));
    out.append("\nWarnings:\n");
    out.append(joined.as_str());
}

/// Apply a write to the config that was read: on `Ok` the caller writes the
/// changed file and answers with the text; on `Err` nothing changed and
/// nothing is written.
pub fn apply_write(
    options: &[GhosttyOption],
    config: &mut ConfigFile,
    option: &str,
    value: &str,
    warnings: &Vec<String>,
) -> (r: Result<String, ToolReply>)
    ensures
        text_view(r) == spec_write_reply(
            options_view(options@),
            old(config)@.lines,
            option@,
            value@,
            str_seq_view(warnings@),
        ),
        r is Ok ==> final(config)@.lines == spec_write_lines(options_view(options@), old(config)@.lines, option@, value@),
        r is Err ==> final(config)@.lines == old(config)@.lines,
        final(config)@.path == old(config)@.path,
{
    let ghost ov = options_view(options@);
    let ghost lines = old(config)@.lines;
    let i = option_index(options, option);
    if i < options.len() {
        assert(ov[i as int] == options@[i as int]@);
    }
    let mut s = String::new();
    if i < options.len() && options[i].repeatable {
        let appended = append_option(config, option, value);
        if !appended {
            let mut e = String::new();
            e.append("Duplicate: `");
            e.append(option);
            e.append(" = ");
            e.append(value);
            e.append("` already exists in config.");
            let rep = ToolReply { is_error: true, text: e };
            assert(rep@ == reply(true, "Duplicate: `"@ + option@ + " = "@ + value@ + "` already exists in config."@));
            return Err(rep);
        }
        let count = config.get_all(option).len();
        s.append("Appended `");
        s.append(option);
        s.append(" = ");
        s.append(value);
        s.append("`\n(");
        push_decimal(&mut s, count);
        s.append(" total entries)\n");
        assert(s@ =~= "Appended `"@ + option@ + " = "@ + value@ + "`\n("@ + spec_decimal(
            spec_get_all(spec_append_option(lines, option@, value@), option@).len(),
        ) + " total entries)\n"@);
    } else {
        let previous = config.get(option);
        set_option(config, option, value);
        s.append("Set `");
        s.append(option);
        s.append(" = ");
        s.append(value);
        s.append("`\n");
        match previous {
            Some(p) => {
                s.append("Previous value: `");
                s.append(p.as_str());
                s.append("`\n");
            },
            None => {
                s.append("(new option added)\n");
            },
        }
        assert(s@ =~= "Set `"@ + option@ + " = "@ + value@ + "`\n"@ + match spec_get(lines, option@) {
            Some(p) => "Previous value: `"@ + p + "`\n"@,
            None => "(new option added)\n"@,
        });
    }
    let ghost head = s@;
    push_warnings(&mut s, warnings);
    s.append("\nReload config in Ghostty (Cmd+Shift+, on macOS) to apply changes.");
    assert(s@ =~= head + (warnings_text(str_seq_view(warnings@))
        + "\nReload config in Ghostty (Cmd+Shift+, on macOS) to apply changes."@));
    assert(text_view(Ok::<String, ToolReply>(s)) == spec_write_reply(ov, lines, option@, value@, str_seq_view(warnings@)));
    Ok(s)
}

/// The lines after a removal: the one entry commented out when a value is
/// given, every entry of the option otherwise.
pub open spec fn spec_remove_lines(lines: Seq<LineView>, option: Seq<char>, value: Option<Seq<char>>) -> Seq<
    LineView,
> {
    match value {
        Some(v) => spec_comment_option_value(lines, option, v),
        None => spec_comment_option(lines, option),
    }
}

pub open spec fn current_lines(option: Seq<char>, all: Seq<Seq<char>>) -> Seq<Seq<char>> {
    all.map_values(|x: Seq<char>| "  "@ + option + " = "@ + x)
}

/// The answer to a removal, given the lines read: refused when the option
/// is not set, or when the given entry is not there.
pub open spec fn spec_remove_reply(
    opts: Seq<OptionView>,
    lines: Seq<LineView>,
    option: Seq<char>,
    value: Option<Seq<char>>,
) -> Result<Seq<char>, ReplyView> {
    let all = spec_get_all(lines, option);
    let tail = "\nReload config in Ghostty to apply changes."@;
    if all.len() == 0 {
        Err(reply(true, "Option '"@ + option + "' is not set in the config file."@))
    } else {
        match value {
            Some(v) => if !has_entry(lines, option, v) {
                Err(
                    reply(
                        true,
                        "No entry `"@ + option + " = "@ + v + "` found in config file.\n\nCurrent values:\n"@
                            + spec_join(current_lines(option, all), "\n"@),
                    ),
                )
            } else {
                Ok(
                    "Removed `"@ + option + " = "@ + v + "`\n("@ + spec_decimal(
                        spec_get_all(spec_comment_option_value(lines, option, v), option).len(),
                    ) + " entries remaining)\n"@ + tail,
                )
            },
            None => {
                let i = find_option(opts, option);
                Ok(
                    "Removed all "@ + spec_decimal(all.len()) + " entries for `"@ + option + "`\n"@ + (if i
                        >= 0 {
                        "Will revert to default: `"@ + default_text(opts[i].default_value) + "`\n"@
                    } else {
                        seq![]
                    }) + tail,
                )
            },
        }
    }
}

pub open spec fn opt_str_view(o: Option<&str>) -> Option<Seq<char>> {
    match o {
        Some(s) => Some(s@),
        None => None,
    }
}

/// Remove an option from the config that was read by commenting it out:
/// one entry when `value` is given, all of them otherwise. On `Ok` the
/// caller writes the changed file and answers with the text; on `Err`
/// nothing changed and nothing is written.
pub fn apply_remove(options: &[GhosttyOption], config: &mut ConfigFile, option: &str, value: Option<&str>) -> (r:
    Result<String, ToolReply>)
    ensures
        text_view(r) == spec_remove_reply(options_view(options@), old(config)@.lines, option@, opt_str_view(value)),
        r is Ok ==> final(config)@.lines == spec_remove_lines(old(config)@.lines, option@, opt_str_view(value)),
        r is Err ==> final(config)@.lines == old(config)@.lines,
        final(config)@.path == old(config)@.path,
{
    let ghost ov = options_view(options@);
    let ghost lines = old(config)@.lines;
    let all_values = config.get_all(option);
    let ghost all = spec_get_all(lines, option@);
    if all_values.len() == 0 {
        let mut e = String::new();
        e.append("Option '");
        e.append(option);
        e.append("' is not set in the config file.");
        let rep = ToolReply { is_error: true, text: e };
        assert(rep@ == reply(true, "Option '"@ + option@ + "' is not set in the config file."@));
        return Err(rep);
    }
    let mut s = String::new();
    match value {
        Some(v) => {
            let found = comment_option_value(config, option, v);
            if !found {
                proof {
                    lemma_first_entry_index(lines, option@, v@);
                }
                let mut items: Vec<String> = Vec::new();
                let n = all_values.len();
                for j in 0..n
                    invariant
                        n == all_values@.len() == all.len(),
                        all == strs_view(all_values@),
                        str_seq_view(items@) == current_lines(option@, all).take(j as int),
                {
                    let mut t = String::new();
                    t.append("  ");
                    t.append(option);
                    t.append(" = ");
                    t.append(all_values[j].as_str());
                    let ghost before = items@;
                    items.push(t);
                    assert(str_seq_view(items@) =~= str_seq_view(before).push(t@));
                    assert(current_lines(option@, all).take(j + 1) =~= current_lines(option@, all).take(
                        j as int,
                    ).push(current_lines(option@, all)[j as int]));
                }
                assert(current_lines(option@, all).take(n as int) =~= current_lines(option@, all));
                assert(items@.map_values(|s: String| s@) =~= str_seq_view(items@));
                let joined = join(&items, "\n");
                let mut e = String::new();
                e.append("No entry `");
                e.append(option);
                e.append(" = ");
                e.append(v);
                e.append("` found in config file.\n\nCurrent values:\n");
                e.append(joined.as_str());
                let rep = ToolReply { is_error: true, text: e };
                assert(rep@.text =~= "No entry `"@ + option@ + " = "@ + v@
                    + "` found in config file.\n\nCurrent values:\n"@ + spec_join(current_lines(option@, all), "\n"@));
                return Err(rep);
            }
            let remaining = config.get_all(option).len();
            s.append("Removed `");
            s.append(option);
            s.append(" = ");
            s.append(v);
            s.append("`\n(");
            push_decimal(&mut s, remaining);
            s.append(" entries remaining)\n");
            assert(s@ =~= "Removed `"@ + option@ + " = "@ + v@ + "`\n("@ + spec_decimal(
                spec_get_all(spec_comment_option_value(lines, option@, v@), option@).len(),
            ) + " entries remaining)\n"@);
        },
        None => {
            let count = all_values.len();
            let found = comment_option(config, option);
            if !found {
                proof {
                    assert forall|j: int| 0 <= j < lines.len() implies !crate::config::writer::is_key_line(
                        #[trigger] lines[j],
                        option@,
                    ) by {}
                    lemma_no_key_lines(lines, option@);
                }
                let mut e = String::new();
                e.append("Option '");
                e.append(option);
                e.append("' was not found in config file.");
                return Err(ToolReply { is_error: true, text: e });
            }
            s.append("Removed all ");
            push_decimal(&mut s, count);
            s.append(" entries for `");
            s.append(option);
            s.append("`\n");
            let i = option_index(options, option);
            if i < options.len() {
                assert(ov[i as int] == options@[i as int]@);
                s.append("Will revert to default: `");
                push_default(&mut s, &options[i].default_value);
                s.append("`\n");
            }
            assert(s@ =~= "Removed all "@ + spec_decimal(all.len()) + " entries for `"@ + option@ + "`\n"@ + (if find_option(ov, option@)
                >= 0 {
                "Will revert to default: `"@ + default_text(ov[find_option(ov, option@)].default_value) + "`\n"@
            } else {
                seq![]
            }));
        },
    }
    let ghost head = s@;
    s.append("\nReload config in Ghostty to apply changes.");
    assert(s@ =~= head + "\nReload config in Ghostty to apply changes."@);
    assert(text_view(Ok::<String, ToolReply>(s)) == spec_remove_reply(ov, lines, option@, opt_str_view(value)));
    Ok(s)
}

/// `[LEVEL] message`.
pub open spec fn issue_line(i: IssueView) -> Seq<char> {
    "["@ + i.level.spec_text() + "] "@ + i.message
}

/// The answer to checking one value before it is set.
pub open spec fn spec_validate_value_reply(opts: Seq<OptionView>, option: Seq<char>, value: Seq<char>) -> ReplyView {
    let i = find_option(opts, option);
    if i < 0 {
        reply(true, "Unknown option '"@ + option + "'. Use search_config to find the correct option name."@)
    } else {
        let issues = spec_validate_value(opts[i], value);
        if issues.len() == 0 {
            reply(false, "`"@ + option + " = "@ + value + "` is valid (type: "@ + opts[i].option_type + ")."@)
        } else {
            reply(
                true,
                "Validation issues for `"@ + option + " = "@ + value + "`:\n\n"@ + spec_join(
                    issues.map_values(|i: IssueView| issue_line(i)),
                    "\n"@,
                ),
            )
        }
    }
}

/// Validate a specific value before setting it.
pub fn validate_value_reply(options: &[GhosttyOption], option: &str, value: &str) -> (r: ToolReply)
    ensures
        r@ == spec_validate_value_reply(options_view(options@), option@, value@),
{
    let ghost ov = options_view(options@);
    let i = option_index(options, option);
    if i == options.len() {
        let mut e = String::new();
        e.append("Unknown option '");
        e.append(option);
        e.append("'. Use search_config to find the correct option name.");
        return ToolReply { is_error: true, text: e };
    }
    assert(ov[i as int] == options@[i as int]@);
    let opt = &options[i];
    let issues = validate_value(opt, value);
    let mut s = String::new();
    if issues.len() == 0 {
        s.append("`");
        s.append(option);
        s.append(" = ");
        s.append(value);
        s.append("` is valid (type: ");
        s.append(opt.option_type.as_str());
        s.append(").");
        return ToolReply { is_error: false, text: s };
    }
    let ghost iv = issues_view(issues@);
    let ghost want = iv.map_values(|i: IssueView| issue_line(i));
    let mut items: Vec<String> = Vec::new();
    let n = issues.len();
    for j in 0..n
        invariant
            n == issues@.len() == iv.len() == want.len(),
            iv == issues_view(issues@),
            want == iv.map_values(|i: IssueView| issue_line(i)),
            str_seq_view(items@) == want.take(j as int),
    {
        assert(iv[j as int] == issues@[j as int]@);
        let mut t = String::new();
        t.append("[");
        let lvl = issues[j].level.to_string();
        t.append(lvl.as_str());
        t.append("] ");
        t.append(issues[j].message.as_str());
        let ghost before = items@;
        items.push(t);
        assert(str_seq_view(items@) =~= str_seq_view(before).push(t@));
        assert(want.take(j + 1) =~= want.take(j as int).push(want[j as int]));
    }
    assert(want.take(n as int) =~= want);
    assert(items@.map_values(|s: String| s@) =~= str_seq_view(items@));
    let joined = join(&items, "\n");
    s.append("Validation issues for `");
    s.append(option);
    s.append(" = ");
    s.append(value);
    s.append("`:\n\n");
    s.append(joined.as_str());
    ToolReply { is_error: true, text: s }
}

/// `[LEVEL] option: message` and a newline.
pub open spec fn issue_row(i: IssueView) -> Seq<char> {
    "["@ + i.level.spec_text() + "] "@ + i.option + ": "@ + i.message + "\n"@
}

pub open spec fn issue_rows(issues: Seq<IssueView>) -> Seq<char>
    decreases issues.len(),
{
    if issues.len() == 0 {
        seq![]
    } else {
        issue_rows(issues.drop_last()) + issue_row(issues.last())
    }
}

/// The answer to checking a whole config, given its keys and values.
pub open spec fn spec_validate_file_reply(opts: Seq<OptionView>, es: Seq<(Seq<char>, Seq<Seq<char>>)>) -> ReplyView {
    let issues = spec_validate_config(es, opts);
    if es.len() == 0 {
        reply(false, "Config file is empty. No validation issues."@)
    } else if issues.len() == 0 {
        reply(false, "Config is valid. "@ + spec_decimal(es.len()) + " options set, no issues found."@)
    } else {
        reply(
            false,
            "Found "@ + spec_decimal(issues.len()) + " issues in config ("@ + spec_decimal(es.len())
                + " options set):\n\n"@ + issue_rows(issues),
        )
    }
}

/// Validate the whole config that was read against the known options.
pub fn validate_file_reply(options: &[GhosttyOption], config: &ConfigFile) -> (r: ToolReply)
    ensures
        exists|es: Seq<(Seq<char>, Seq<Seq<char>>)>|
            keyed_values(es, config@.lines) && r@ == spec_validate_file_reply(options_view(options@), es),
{
    let map = config.to_map();
    let ghost es = entries_view(map.entries@);
    let ghost ov = options_view(options@);
    let n = map.entries.len();
    if n == 0 {
        let mut e = String::new();
        e.append("Config file is empty. No validation issues.");
        let rep = ToolReply { is_error: false, text: e };
        assert(rep@ == spec_validate_file_reply(ov, es));
        return rep;
    }
    let issues = validate_config(&map, options);
    let ghost iv = issues_view(issues@);
    let mut s = String::new();
    if issues.len() == 0 {
        s.append("Config is valid. ");
        push_decimal(&mut s, n);
        s.append(" options set, no issues found.");
        let rep = ToolReply { is_error: false, text: s };
        assert(rep@ == spec_validate_file_reply(ov, es));
        return rep;
    }
    s.append("Found ");
    push_decimal(&mut s, issues.len());
    s.append(" issues in config (");
    push_decimal(&mut s, n);
    s.append(" options set):\n\n");
    let ghost head = s@;
    let m = issues.len();
    for j in 0..m
        invariant
            m == issues@.len() == iv.len(),
            iv == issues_view(issues@),
            s@ == head + issue_rows(iv.take(j as int)),
    {
        assert(iv.take(j + 1).drop_last() =~= iv.take(j as int));
        assert(iv.take(j + 1).last() == issues@[j as int]@);
        s.append("[");
        let lvl = issues[j].level.to_string();
        s.append(lvl.as_str());
        s.append("] ");
        s.append(issues[j].option.as_str());
        s.append(": ");
        s.append(issues[j].message.as_str());
        s.append("\n");
        assert(s@ =~= head + issue_rows(iv.take(j + 1)));
    }
    assert(iv.take(m as int) =~= iv);
    let rep = ToolReply { is_error: false, text: s };
    assert(rep@.text =~= spec_validate_file_reply(ov, es).text);
    rep
}

/// The two checks agree: a value that `validate_config` finds free of
/// issues is written without warnings, and a value that `write_config`
/// refuses is reported with issues by `validate_config`.
pub proof fn law_validation_agrees(opts: Seq<OptionView>, option: Seq<char>, value: Seq<char>)
    ensures
        !spec_validate_value_reply(opts, option, value).is_error ==> spec_check_write(opts, option, value)
            == Ok::<Seq<Seq<char>>, ReplyView>(Seq::<Seq<char>>::empty()),
        spec_check_write(opts, option, value) is Err ==> spec_validate_value_reply(opts, option, value).is_error,
{
    let i = find_option(opts, option);
    if i >= 0 {
        let issues = spec_validate_value(opts[i], value);
        if issues.len() == 0 {
            assert(issue_messages(issues) =~= Seq::<Seq<char>>::empty());
        }
    }
}

proof fn lemma_write_lines_wf(opts: Seq<OptionView>, lines: Seq<LineView>, option: Seq<char>, value: Seq<char>)
    requires
        forall|j: int| 0 <= j < lines.len() ==> line_wf(#[trigger] lines[j]),
        line_wf(LineView::KeyValue(option, value)),
    ensures
        spec_write_lines(opts, lines, option, value).len() > 0,
        forall|j: int|
            0 <= j < spec_write_lines(opts, lines, option, value).len() ==> line_wf(
                #[trigger] spec_write_lines(opts, lines, option, value)[j],
            ),
{
    let after = spec_write_lines(opts, lines, option, value);
    let kv = LineView::KeyValue(option, value);
    let i = last_key_index(lines, option);
    let sep = spec_separated(lines);
    assert forall|j: int| 0 <= j < sep.len() implies line_wf(#[trigger] sep[j]) by {
        if j < lines.len() {
            assert(sep[j] == lines[j]);
        }
    }
    crate::config::writer::lemma_last_key_index(lines, option);
    if write_repeatable(opts, option) {
        if i >= 0 {
            assert forall|j: int| 0 <= j < after.len() implies line_wf(#[trigger] after[j]) by {
                if j < i + 1 {
                    assert(after[j] == lines[j]);
                } else if j == i + 1 {
                    assert(after[j] == kv);
                } else {
                    assert(after[j] == lines[j - 1]);
                }
            }
        } else {
            assert forall|j: int| 0 <= j < after.len() implies line_wf(#[trigger] after[j]) by {
                if j < sep.len() {
                    assert(after[j] == sep[j]);
                }
            }
        }
    } else {
        if i >= 0 {
            assert forall|j: int| 0 <= j < after.len() implies line_wf(#[trigger] after[j]) by {
                if j != i {
                    assert(after[j] == lines[j]);
                }
            }
        } else {
            assert forall|j: int| 0 <= j < after.len() implies line_wf(#[trigger] after[j]) by {
                if j < sep.len() {
                    assert(after[j] == sep[j]);
                }
            }
        }
    }
}

/// What a read gives back of a write: once the changed file is written and
/// read again, the option's value is the one written (a repeatable
/// option's entries gain it at the end), and every other option keeps its
/// values. This holds for a file whose lines read back as themselves and
/// an option and value that do too.
pub proof fn law_write_then_read(opts: Seq<OptionView>, lines: Seq<LineView>, option: Seq<char>, value: Seq<char>)
    requires
        forall|j: int| 0 <= j < lines.len() ==> line_wf(#[trigger] lines[j]),
        line_wf(LineView::KeyValue(option, value)),
    ensures
        ({
            let back = spec_parse(spec_render(spec_write_lines(opts, lines, option, value)));
            &&& spec_get(back, option) == Some(value)
            &&& write_repeatable(opts, option) ==> spec_get_all(back, option) == spec_get_all(lines, option).push(
                value,
            )
            &&& forall|k: Seq<char>| k != option ==> #[trigger] spec_get_all(back, k) == spec_get_all(lines, k)
        }),
{
    let after = spec_write_lines(opts, lines, option, value);
    lemma_write_lines_wf(opts, lines, option, value);
    law_parse_render(after);
    if write_repeatable(opts, option) {
        law_append_option(lines, option, value);
        lemma_get_is_last(after, option);
    } else {
        law_set_option(lines, option, value);
    }
}

proof fn lemma_trim_end_keeps_first(s: Seq<char>)
    requires
        s.len() > 0,
        !spec_is_whitespace(s[0]),
    ensures
        spec_trim_end(s).len() > 0,
        spec_trim_end(s)[0] == s[0],
    decreases s.len(),
{
    if spec_is_whitespace(s.last()) {
        assert(s.len() > 1);
        lemma_trim_end_keeps_first(s.drop_last());
    }
}

/// The comment that replaces a line that reads back as itself reads back
/// as itself too.
pub proof fn lemma_commented_wf(key: Seq<char>, value: Seq<char>)
    requires
        line_wf(LineView::KeyValue(key, value)),
    ensures
        line_wf(LineView::Comment(commented(key, value))),
{
    let s = commented(key, value);
    let n = key.len();
    assert(s[0] == '#');
    assert(!spec_is_whitespace('#'));
    assert(spec_trim_start(s) == s);
    lemma_trim_end_keeps_first(s);
    assert(spec_trim(s)[0] == '#');
    assert forall|j: int| 0 <= j < s.len() implies s[j] != '\n' by {
        if 2 <= j < 2 + n {
            assert(s[j] == key[j - 2]);
        } else if j >= n + 5 {
            assert(s[j] == value[j - n - 5]);
        }
    }
    if value.len() > 0 {
        lemma_trimmed_ends(value);
        assert(s.last() == value.last());
        assert(spec_is_whitespace('\r'));
    }
}

proof fn lemma_remove_lines_wf(lines: Seq<LineView>, option: Seq<char>, value: Option<Seq<char>>)
    requires
        forall|j: int| 0 <= j < lines.len() ==> line_wf(#[trigger] lines[j]),
    ensures
        spec_remove_lines(lines, option, value).len() == lines.len(),
        forall|j: int|
            0 <= j < lines.len() ==> line_wf(#[trigger] spec_remove_lines(lines, option, value)[j]),
{
    let after = spec_remove_lines(lines, option, value);
    match value {
        Some(v) => {
            lemma_first_entry_index(lines, option, v);
            let i = crate::config::writer::first_entry_index(lines, option, v);
            assert forall|j: int| 0 <= j < lines.len() implies line_wf(#[trigger] after[j]) by {
                if j == i {
                    assert(line_wf(lines[j]));
                    lemma_commented_wf(option, v);
                }
            }
        },
        None => {
            assert forall|j: int| 0 <= j < lines.len() implies line_wf(#[trigger] after[j]) by {
                assert(after[j] == spec_comment_line(lines[j], option));
                assert(line_wf(lines[j]));
                match lines[j] {
                    LineView::KeyValue(k, v) => {
                        if k == option {
                            lemma_commented_wf(k, v);
                        }
                    },
                    _ => {},
                }
            }
        },
    }
}

proof fn lemma_read_back_empty()
    ensures
        spec_parse(spec_render(Seq::<LineView>::empty())) == seq![LineView::Empty],
{
    let t = seq!['\n'];
    assert(spec_render(Seq::<LineView>::empty()) == t);
    crate::text::lemma_first_index_is(t, '\n', 0);
    assert(t.take(0) =~= Seq::<char>::empty());
    assert(t.skip(1) =~= Seq::<char>::empty());
    assert(crate::config::parser::spec_lines(t.skip(1)) =~= Seq::<Seq<char>>::empty());
    assert(crate::config::parser::strip_cr(t.take(0)) =~= Seq::<char>::empty());
    assert(crate::config::parser::spec_lines(t) =~= seq![Seq::<char>::empty()]);
    assert(spec_trim_start(Seq::<char>::empty()) =~= Seq::<char>::empty());
    assert(spec_trim(Seq::<char>::empty()) =~= Seq::<char>::empty());
    assert(spec_parse(t) =~= seq![LineView::Empty]);
}

/// What a read gives back of a removal: once the changed file is written
/// and read again, the option has no value left when every entry was
/// removed, or its entries lack the first one equal to the removed value;
/// every other option keeps its values. This holds for a file whose lines
/// read back as themselves.
pub proof fn law_remove_then_read(lines: Seq<LineView>, option: Seq<char>, value: Option<Seq<char>>)
    requires
        forall|j: int| 0 <= j < lines.len() ==> line_wf(#[trigger] lines[j]),
    ensures
        ({
            let back = spec_parse(spec_render(spec_remove_lines(lines, option, value)));
            &&& value is None ==> spec_get_all(back, option) == Seq::<Seq<char>>::empty() && spec_get(back, option)
                == None::<Seq<char>>
            &&& value matches Some(v) ==> spec_get_all(back, option) == remove_first(spec_get_all(lines, option), v)
            &&& forall|k: Seq<char>| k != option ==> #[trigger] spec_get_all(back, k) == spec_get_all(lines, k)
        }),
{
    let after = spec_remove_lines(lines, option, value);
    lemma_remove_lines_wf(lines, option, value);
    match value {
        Some(v) => {
            law_comment_option_value(lines, option, v);
        },
        None => {
            law_comment_option(lines, option);
        },
    }
    if lines.len() > 0 {
        law_parse_render(after);
    } else {
        lemma_read_back_empty();
        assert(after =~= Seq::<LineView>::empty());
        let back = seq![LineView::Empty];
        assert forall|k: Seq<char>| #[trigger] spec_get_all(back, k) == Seq::<Seq<char>>::empty() by {
            assert(back.drop_last() =~= Seq::<LineView>::empty());
            assert(spec_get_all(Seq::<LineView>::empty(), k) =~= Seq::<Seq<char>>::empty());
            assert(back.last() == LineView::Empty);
            assert(spec_get_all(back, k) =~= Seq::<Seq<char>>::empty());
        }
        lemma_get_is_last(back, option);
        assert(spec_get(back, option) == None::<Seq<char>>);
        match value {
            Some(v) => {
                assert(spec_get_all(lines, option) =~= Seq::<Seq<char>>::empty());
            },
            None => {},
        }
    }
}

/// A new entry written to a repeatable option is undone by removing that
/// entry: the option's values are again those before the write, and every
/// other option keeps its values.
pub proof fn law_remove_undoes_append(opts: Seq<OptionView>, lines: Seq<LineView>, option: Seq<char>, value: Seq<char>)
    requires
        write_repeatable(opts, option),
        !has_entry(lines, option, value),
    ensures
        ({
            let after = spec_remove_lines(spec_write_lines(opts, lines, option, value), option, Some(value));
            &&& spec_get_all(after, option) == spec_get_all(lines, option)
            &&& forall|k: Seq<char>| k != option ==> #[trigger] spec_get_all(after, k) == spec_get_all(lines, k)
        }),
{
    let written = spec_write_lines(opts, lines, option, value);
    law_append_option(lines, option, value);
    law_comment_option_value(written, option, value);
    assert forall|j: int| 0 <= j < lines.len() implies #[trigger] lines[j] != LineView::KeyValue(option, value) by {
        if lines[j] == LineView::KeyValue(option, value) {
            assert(has_entry(lines, option, value));
        }
    }
    lemma_no_entry(lines, option, value);
    let old_values = spec_get_all(lines, option);
    lemma_remove_first_split(old_values, Seq::<Seq<char>>::empty(), value);
    assert(old_values.push(value) =~= old_values + seq![value] + Seq::<Seq<char>>::empty());
    assert(old_values + Seq::<Seq<char>>::empty() =~= old_values);
}

proof fn lemma_last_key_is(lines: Seq<LineView>, key: Seq<char>, i: int)
    requires
        0 <= i < lines.len(),
        crate::config::writer::is_key_line(lines[i], key),
        forall|j: int| i < j < lines.len() ==> !crate::config::writer::is_key_line(#[trigger] lines[j], key),
    ensures
        last_key_index(lines, key) == i,
{
    crate::config::writer::lemma_last_key_index(lines, key);
    let r = last_key_index(lines, key);
    if r != i {
        if r > i {
            assert(!crate::config::writer::is_key_line(lines[r], key));
        } else if r >= 0 {
            assert(!crate::config::writer::is_key_line(lines[i], key));
        } else {
            assert(!crate::config::writer::is_key_line(lines[i], key));
        }
    }
}

/// Writing the same value again changes nothing: a non-repeatable option
/// is left as the first write set it, and a repeatable option refuses the
/// entry as a duplicate.
pub proof fn law_write_twice(
    opts: Seq<OptionView>,
    lines: Seq<LineView>,
    option: Seq<char>,
    value: Seq<char>,
    warnings: Seq<Seq<char>>,
)
    ensures
        !write_repeatable(opts, option) ==> spec_write_lines(opts, spec_write_lines(opts, lines, option, value), option, value)
            == spec_write_lines(opts, lines, option, value),
        write_repeatable(opts, option) ==> spec_write_reply(
            opts,
            spec_write_lines(opts, lines, option, value),
            option,
            value,
            warnings,
        ) is Err,
{
    let once = spec_write_lines(opts, lines, option, value);
    let kv = LineView::KeyValue(option, value);
    crate::config::writer::lemma_last_key_index(lines, option);
    let i = last_key_index(lines, option);
    let sep = spec_separated(lines);
    if write_repeatable(opts, option) {
        if has_entry(lines, option, value) {
            assert(once == spec_append_option(lines, option, value));
            let j = choose|j: int| 0 <= j < lines.len() && lines[j] == kv;
            if i >= 0 {
                if j <= i {
                    assert(once[j] == kv);
                } else {
                    assert(once[j + 1] == kv);
                }
            } else {
                assert(sep[j] == lines[j]);
                assert(once[j] == kv);
            }
        } else if i >= 0 {
            assert(once[i + 1] == kv);
        } else {
            assert(once[once.len() - 1] == kv);
        }
        assert(has_entry(once, option, value));
    } else {
        if i >= 0 {
            assert forall|j: int| i < j < once.len() implies !crate::config::writer::is_key_line(#[trigger] once[j], option) by {
                assert(once[j] == lines[j]);
            }
            lemma_last_key_is(once, option, i);
            assert(once.update(i, kv) =~= once);
        } else {
            let n = once.len() - 1;
            lemma_last_key_is(once, option, n);
            assert(once.update(n, kv) =~= once);
        }
    }
}

proof fn lemma_first_error_found(issues: Seq<IssueView>, e: int)
    requires
        0 <= e < issues.len(),
        issues[e].level == IssueLevel::Error,
    ensures
        0 <= first_error(issues) <= e,
        issues[first_error(issues)].level == IssueLevel::Error,
        forall|j: int| 0 <= j < first_error(issues) ==> (#[trigger] issues[j]).level != IssueLevel::Error,
    decreases issues.len(),
{
    if issues[0].level != IssueLevel::Error {
        assert(issues.drop_first()[e - 1] == issues[e]);
        lemma_first_error_found(issues.drop_first(), e - 1);
        assert forall|j: int| 0 <= j < first_error(issues) implies (#[trigger] issues[j]).level != IssueLevel::Error by {
            if j > 0 {
                assert(issues[j] == issues.drop_first()[j - 1]);
            }
        }
    }
}

/// `write_config` refuses every value of a known option that validation
/// finds an error in, whatever the option's type, and answers with that
/// error; a value with no error is written, with every issue found as a
/// warning.
pub proof fn law_write_refuses_errors(opts: Seq<OptionView>, option: Seq<char>, value: Seq<char>)
    requires
        find_option(opts, option) >= 0,
    ensures
        ({
            let issues = spec_validate_value(opts[find_option(opts, option)], value);
            &&& (exists|e: int| 0 <= e < issues.len() && #[trigger] issues[e].level == IssueLevel::Error)
                ==> (spec_check_write(opts, option, value) matches Err(rep) && rep.is_error && exists|e: int|
                0 <= e < issues.len() && #[trigger] issues[e].level == IssueLevel::Error && rep.text
                == "Validation error: "@ + issues[e].message + "\n\nThe value was NOT written."@)
            &&& (forall|e: int| 0 <= e < issues.len() ==> #[trigger] issues[e].level != IssueLevel::Error)
                ==> spec_check_write(opts, option, value) == Ok::<Seq<Seq<char>>, ReplyView>(
                issues.map_values(|i: IssueView| i.message),
            )
        }),
{
    let issues = spec_validate_value(opts[find_option(opts, option)], value);
    if exists|e: int| 0 <= e < issues.len() && #[trigger] issues[e].level == IssueLevel::Error {
        let e = choose|e: int| 0 <= e < issues.len() && #[trigger] issues[e].level == IssueLevel::Error;
        lemma_first_error_found(issues, e);
        let f = first_error(issues);
        assert(issues[f].level == IssueLevel::Error);
    }
    if forall|e: int| 0 <= e < issues.len() ==> #[trigger] issues[e].level != IssueLevel::Error {
        lemma_first_error(issues, issues.len() as int);
    }
}

/// Reading one option shows a heading with its name; for an option that is
/// not repeatable and is set, the last value set, right under the heading;
/// for a repeatable one that is set, how many entries there are; and, for
/// a known option, its default at the end.
pub proof fn law_read_option(opts: Seq<OptionView>, lines: Seq<LineView>, name: Seq<char>)
    ensures
        ({
            let text = spec_read_option(opts, lines, name);
            let head = "# "@ + name + " -- Current Value\n\n"@;
            let i = find_option(opts, name);
            let all = spec_get_all(lines, name);
            &&& text.take(head.len() as int) == head
            &&& !(i >= 0 && opts[i].repeatable) && all.len() > 0 ==> ({
                let shown = "**Set to:** `"@ + all.last() + "`\n"@;
                text.subrange(head.len() as int, (head.len() + shown.len()) as int) == shown
            })
            &&& i >= 0 && opts[i].repeatable && all.len() > 0 ==> ({
                let count = "**"@ + spec_decimal(all.len()) + " entries set:**\n"@;
                text.subrange(head.len() as int, (head.len() + count.len()) as int) == count
            })
            &&& i >= 0 ==> ends_with(text, "**Default:** `"@ + default_text(opts[i].default_value) + "`\n"@)
        }),
{
    let text = spec_read_option(opts, lines, name);
    let head = "# "@ + name + " -- Current Value\n\n"@;
    let i = find_option(opts, name);
    let all = spec_get_all(lines, name);
    lemma_get_is_last(lines, name);
    assert(text.take(head.len() as int) =~= head);
    if !(i >= 0 && opts[i].repeatable) && all.len() > 0 {
        let shown = "**Set to:** `"@ + all.last() + "`\n"@;
        assert(text.subrange(head.len() as int, (head.len() + shown.len()) as int) =~= shown);
    }
    if i >= 0 && opts[i].repeatable && all.len() > 0 {
        let count = "**"@ + spec_decimal(all.len()) + " entries set:**\n"@;
        assert(text.subrange(head.len() as int, (head.len() + count.len()) as int) =~= count);
    }
    if i >= 0 {
        let tail = "**Default:** `"@ + default_text(opts[i].default_value) + "`\n"@;
        assert(text.skip(text.len() - tail.len()) =~= tail);
    }
}

} // verus!
