//! Writing a parsed file back and reading it again gives the same lines,
//! for any text without carriage returns.

use vstd::prelude::*;
use crate::config::parser::{LineView, spec_lines, spec_parse, spec_parse_line, spec_render, line_wf,
    law_parse_render, strip_cr};
use crate::text::{has_char, spec_is_whitespace, spec_trim, spec_trim_start, spec_trim_end, first_index_of,
    lemma_first_index_of, lemma_trim_start_suffix, lemma_trim_end_prefix};

verus! {

proof fn lemma_lines_clean(s: Seq<char>)
    requires
        forall|j: int| 0 <= j < s.len() ==> s[j] != '\r',
    ensures
        forall|i: int, j: int|
            0 <= i < spec_lines(s).len() && 0 <= j < spec_lines(s)[i].len() ==> #[trigger] spec_lines(s)[i][j]
                != '\n' && spec_lines(s)[i][j] != '\r',
    decreases s.len(),
{
    if s.len() > 0 {
        let k = first_index_of(s, '\n');
        lemma_first_index_of(s, '\n');
        if k >= 0 {
            let rest = s.skip(k + 1);
            assert forall|j: int| 0 <= j < rest.len() implies rest[j] != '\r' by {
                assert(rest[j] == s[k + 1 + j]);
            }
            lemma_lines_clean(rest);
            let head = strip_cr(s.take(k));
            assert forall|j: int| 0 <= j < head.len() implies head[j] != '\n' && head[j] != '\r' by {
                assert(head[j] == s[j]);
            }
            let ls = spec_lines(s);
            assert(ls == seq![head] + spec_lines(rest));
            assert forall|i: int, j: int|
                0 <= i < ls.len() && 0 <= j < ls[i].len() implies #[trigger] ls[i][j] != '\n' && ls[i][j] != '\r' by {
                if i > 0 {
                    assert(ls[i] == spec_lines(rest)[i - 1]);
                }
            }
        }
    }
}

proof fn lemma_trim_start_first(x: Seq<char>)
    ensures
        spec_trim_start(x).len() > 0 ==> !spec_is_whitespace(spec_trim_start(x)[0]),
    decreases x.len(),
{
    if x.len() > 0 && spec_is_whitespace(x[0]) {
        lemma_trim_start_first(x.drop_first());
    }
}

proof fn lemma_trim_end_last(x: Seq<char>)
    ensures
        spec_trim_end(x).len() > 0 ==> !spec_is_whitespace(spec_trim_end(x).last()),
    decreases x.len(),
{
    if x.len() > 0 && spec_is_whitespace(x.last()) {
        lemma_trim_end_last(x.drop_last());
    }
}

/// `trim(x)` is the piece `x[a..a + len]`, where `a` counts the leading
/// whitespace.
proof fn lemma_trim_piece(x: Seq<char>)
    ensures
        spec_trim_start(x).len() <= x.len(),
        x.len() - spec_trim_start(x).len() + spec_trim(x).len() <= x.len(),
        spec_trim(x) == x.subrange(
            x.len() - spec_trim_start(x).len(),
            x.len() - spec_trim_start(x).len() + spec_trim(x).len(),
        ),
        spec_trim(x).len() > 0 ==> spec_trim(x)[0] == spec_trim_start(x)[0],
{
    let ts = spec_trim_start(x);
    lemma_trim_start_suffix(x);
    lemma_trim_end_prefix(ts);
    let a = x.len() - ts.len();
    assert(spec_trim(x) =~= x.subrange(a, a + spec_trim(x).len()));
}

proof fn lemma_trim_idempotent(x: Seq<char>)
    ensures
        spec_trim(spec_trim(x)) == spec_trim(x),
{
    let t = spec_trim(x);
    let ts = spec_trim_start(x);
    if t.len() == 0 {
        assert(spec_trim_start(t) =~= t);
        assert(spec_trim_end(t) =~= t);
    } else {
        lemma_trim_piece(x);
        lemma_trim_start_first(x);
        lemma_trim_end_last(ts);
        assert(spec_trim_start(t) == t);
        assert(spec_trim_end(t) == t);
    }
}

proof fn lemma_trim_keeps_out(x: Seq<char>, c: char)
    requires
        forall|j: int| 0 <= j < x.len() ==> x[j] != c,
    ensures
        forall|j: int| 0 <= j < spec_trim(x).len() ==> spec_trim(x)[j] != c,
{
    lemma_trim_piece(x);
    let a = x.len() - spec_trim_start(x).len();
    assert forall|j: int| 0 <= j < spec_trim(x).len() implies spec_trim(x)[j] != c by {
        assert(spec_trim(x)[j] == x[a + j]);
    }
}

/// The first non-blank character of a prefix of `x` is the first
/// non-blank character of `x`.
proof fn lemma_trim_start_take(x: Seq<char>, e: int)
    requires
        0 <= e <= x.len(),
        spec_trim_start(x.take(e)).len() > 0,
    ensures
        spec_trim_start(x).len() > 0,
        spec_trim_start(x.take(e))[0] == spec_trim_start(x)[0],
    decreases x.len(),
{
    let p = x.take(e);
    if e > 0 {
        assert(p[0] == x[0]);
        if spec_is_whitespace(x[0]) {
            assert(p.drop_first() =~= x.drop_first().take(e - 1));
            lemma_trim_start_take(x.drop_first(), e - 1);
        }
    } else {
        assert(p =~= Seq::<char>::empty());
    }
}

proof fn lemma_no_index(s: Seq<char>, c: char)
    requires
        forall|j: int| 0 <= j < s.len() ==> s[j] != c,
    ensures
        first_index_of(s, c) < 0,
{
    lemma_first_index_of(s, c);
}

proof fn lemma_absent(s: Seq<char>, c: char)
    requires
        forall|j: int| 0 <= j < s.len() ==> s[j] != c,
    ensures
        !has_char(s, c),
{
}

/// A line without newline or carriage return reads back as itself.
proof fn lemma_parse_line_wf(line: Seq<char>)
    requires
        forall|j: int| 0 <= j < line.len() ==> line[j] != '\n' && line[j] != '\r',
    ensures
        line_wf(spec_parse_line(line)),
{
    let t = spec_trim(line);
    if t.len() == 0 {
    } else if t[0] == '#' {
        lemma_absent(line, '\n');
    } else {
        let e = first_index_of(line, '=');
        lemma_first_index_of(line, '=');
        lemma_absent(line, '\n');
        if e >= 0 {
            let kp = line.take(e);
            let vp = line.skip(e + 1);
            let k = spec_trim(kp);
            let v = spec_trim(vp);
            assert forall|j: int| 0 <= j < kp.len() implies kp[j] != '\n' && kp[j] != '=' by {
                assert(kp[j] == line[j]);
            }
            assert forall|j: int| 0 <= j < vp.len() implies vp[j] != '\n' by {
                assert(vp[j] == line[e + 1 + j]);
            }
            lemma_trim_keeps_out(kp, '\n');
            lemma_trim_keeps_out(kp, '=');
            lemma_trim_keeps_out(vp, '\n');
            lemma_absent(k, '\n');
            lemma_absent(v, '\n');
            lemma_no_index(k, '=');
            lemma_trim_idempotent(kp);
            lemma_trim_idempotent(vp);
            if k.len() > 0 {
                lemma_trim_piece(kp);
                lemma_trim_piece(line);
                lemma_trim_start_take(line, e);
                assert(k[0] == t[0]);
            }
            assert(spec_parse_line(line) == LineView::KeyValue(k, v));
        }
    }
}

/// Reading a text without carriage returns, writing its lines back and
/// reading that text again gives the same lines. (Text without any line
/// reads back as one blank line, so it is left out.)
pub proof fn law_parse_render_text(s: Seq<char>)
    requires
        !has_char(s, '\r'),
        spec_parse(s).len() > 0,
    ensures
        spec_parse(spec_render(spec_parse(s))) == spec_parse(s),
{
    assert forall|j: int| 0 <= j < s.len() implies s[j] != '\r' by {
        if s[j] == '\r' {
            assert(has_char(s, '\r'));
        }
    }
    lemma_lines_clean(s);
    let ls = spec_lines(s);
    let lines = spec_parse(s);
    assert forall|i: int| 0 <= i < lines.len() implies line_wf(#[trigger] lines[i]) by {
        assert(lines[i] == spec_parse_line(ls[i]));
        assert forall|j: int| 0 <= j < ls[i].len() implies ls[i][j] != '\n' && ls[i][j] != '\r' by {
            assert(ls[i][j] != '\n' && ls[i][j] != '\r');
        }
        lemma_parse_line_wf(ls[i]);
    }
    law_parse_render(lines);
}

} // verus!
