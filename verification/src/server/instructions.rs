//! The instructions the server gives a client when it starts: how to use
//! the tools, and a summary of the categories.

use vstd::prelude::*;
use vstd::string::StringExecFns;
use crate::data::options::{GhosttyOption, OptionView, options_view};
use crate::server::{category_counts, counted, counts_view};
use crate::text::{lex_lt, lemma_lex_irreflexive, lemma_lex_asymmetric, spec_decimal, push_decimal, spec_join, join};
use crate::data::options::str_seq_view;

verus! {

/// `a` comes before `b`: more options, or as many and an earlier name.
pub open spec fn ranks_before(a: (Seq<char>, nat), b: (Seq<char>, nat)) -> bool {
    a.1 > b.1 || (a.1 == b.1 && lex_lt(a.0, b.0))
}

/// `sc` holds the categories of `cv`, most options first, ties by name.
pub open spec fn ranked(sc: Seq<(Seq<char>, nat)>, cv: Seq<(Seq<char>, nat)>) -> bool {
    &&& sc.len() == cv.len()
    &&& forall|i: int| 0 <= i < sc.len() ==> cv.contains(#[trigger] sc[i])
    &&& forall|i: int, j: int| 0 <= i < j < sc.len() ==> ranks_before(#[trigger] sc[i], #[trigger] sc[j])
}

proof fn lemma_ranks_before_strict(a: (Seq<char>, nat), b: (Seq<char>, nat))
    ensures
        !ranks_before(a, a),
        ranks_before(a, b) ==> !ranks_before(b, a),
{
    lemma_lex_irreflexive(a.0);
    if ranks_before(a, b) && a.1 == b.1 {
        lemma_lex_asymmetric(a.0, b.0);
    }
}

proof fn lemma_ranked_order_unique(a: Seq<(Seq<char>, nat)>, b: Seq<(Seq<char>, nat)>)
    requires
        forall|i: int, j: int| 0 <= i < j < a.len() ==> ranks_before(#[trigger] a[i], #[trigger] a[j]),
        forall|i: int, j: int| 0 <= i < j < b.len() ==> ranks_before(#[trigger] b[i], #[trigger] b[j]),
        forall|x: (Seq<char>, nat)| a.contains(x) <==> b.contains(x),
    ensures
        a == b,
    decreases a.len() + b.len(),
{
    if a.len() == 0 {
        if b.len() > 0 {
            assert(b.contains(b[0]));
        }
        assert(a =~= b);
    } else if b.len() == 0 {
        assert(a.contains(a[0]));
    } else {
        assert(a.contains(a[0]));
        assert(b.contains(b[0]));
        let j = choose|j: int| 0 <= j < b.len() && b[j] == a[0];
        let i = choose|i: int| 0 <= i < a.len() && a[i] == b[0];
        lemma_ranks_before_strict(a[0], b[0]);
        lemma_ranks_before_strict(b[0], a[0]);
        if j > 0 {
            assert(ranks_before(b[0], b[j]));
            if i > 0 {
                assert(ranks_before(a[0], a[i]));
            }
        }
        assert(a[0] == b[0]);
        let a1 = a.drop_first();
        let b1 = b.drop_first();
        assert forall|x: (Seq<char>, nat)| a1.contains(x) <==> b1.contains(x) by {
            lemma_ranks_before_strict(x, x);
            if a1.contains(x) {
                let t = choose|t: int| 0 <= t < a1.len() && a1[t] == x;
                assert(a[t + 1] == x);
                assert(ranks_before(a[0], a[t + 1]));
                assert(b.contains(x));
                let u = choose|u: int| 0 <= u < b.len() && b[u] == x;
                assert(u != 0);
                assert(b1[u - 1] == x);
            }
            if b1.contains(x) {
                let t = choose|t: int| 0 <= t < b1.len() && b1[t] == x;
                assert(b[t + 1] == x);
                assert(ranks_before(b[0], b[t + 1]));
                assert(a.contains(x));
                let u = choose|u: int| 0 <= u < a.len() && a[u] == x;
                assert(u != 0);
                assert(a1[u - 1] == x);
            }
        }
        assert forall|x: int, y: int| 0 <= x < y < a1.len() implies ranks_before(#[trigger] a1[x], #[trigger] a1[y]) by {
            assert(a1[x] == a[x + 1] && a1[y] == a[y + 1]);
        }
        assert forall|x: int, y: int| 0 <= x < y < b1.len() implies ranks_before(#[trigger] b1[x], #[trigger] b1[y]) by {
            assert(b1[x] == b[x + 1] && b1[y] == b[y + 1]);
        }
        lemma_ranked_order_unique(a1, b1);
        assert(a =~= seq![a[0]] + a1);
        assert(b =~= seq![b[0]] + b1);
    }
}

proof fn lemma_ranked_covers(sc: Seq<(Seq<char>, nat)>, cv: Seq<(Seq<char>, nat)>, opts: Seq<OptionView>)
    requires
        counted(cv, opts),
        ranked(sc, cv),
    ensures
        forall|x: (Seq<char>, nat)| sc.contains(x) <==> cv.contains(x),
{
    assert(cv.no_duplicates()) by {
        assert forall|i: int, j: int| 0 <= i < cv.len() && 0 <= j < cv.len() && i != j implies cv[i] != cv[j] by {
            if i < j {
                assert(lex_lt(cv[i].0, cv[j].0));
                lemma_lex_irreflexive(cv[i].0);
            } else {
                assert(lex_lt(cv[j].0, cv[i].0));
                lemma_lex_irreflexive(cv[j].0);
            }
        }
    }
    assert(sc.no_duplicates()) by {
        assert forall|i: int, j: int| 0 <= i < sc.len() && 0 <= j < sc.len() && i != j implies sc[i] != sc[j] by {
            lemma_ranks_before_strict(sc[i], sc[j]);
            lemma_ranks_before_strict(sc[j], sc[i]);
            if i < j {
                assert(ranks_before(sc[i], sc[j]));
            } else {
                assert(ranks_before(sc[j], sc[i]));
            }
        }
    }
    cv.unique_seq_to_set();
    sc.unique_seq_to_set();
    assert(sc.to_set().subset_of(cv.to_set())) by {
        assert forall|x: (Seq<char>, nat)| sc.to_set().contains(x) implies cv.to_set().contains(x) by {
            let i = choose|i: int| 0 <= i < sc.len() && sc[i] == x;
            assert(cv.contains(sc[i]));
        }
    }
    vstd::set_lib::lemma_subset_equality(sc.to_set(), cv.to_set());
    assert forall|x: (Seq<char>, nat)| sc.contains(x) <==> cv.contains(x) by {
        assert(sc.to_set().contains(x) == sc.contains(x));
        assert(cv.to_set().contains(x) == cv.contains(x));
    }
}

/// Only one ranking fits the categories of a set of options: `ranked`
/// determines the order of the summary.
pub proof fn lemma_ranked_unique(
    a: Seq<(Seq<char>, nat)>,
    b: Seq<(Seq<char>, nat)>,
    cv: Seq<(Seq<char>, nat)>,
    opts: Seq<OptionView>,
)
    requires
        counted(cv, opts),
        ranked(a, cv),
        ranked(b, cv),
    ensures
        a == b,
{
    lemma_ranked_covers(a, cv, opts);
    lemma_ranked_covers(b, cv, opts);
    lemma_ranked_order_unique(a, b);
}

pub open spec fn summary_items(sc: Seq<(Seq<char>, nat)>) -> Seq<Seq<char>> {
    sc.map_values(|p: (Seq<char>, nat)| p.0 + " ("@ + spec_decimal(p.1) + ")"@)
}

pub open spec fn workflow_text() -> Seq<char> {
    " categories.\n\nWORKFLOW PATTERNS\n- Discovery: list_categories -> search_config(category=X) -> get_option(name) for full docs\n- Modify: search_config -> get_option (verify type/default) -> write_config -> validate_config\n- Audit: read_config -> validate_config -> fix issues with write_config\n- Remove: read_config(option=X) to check current value -> remove_config to comment it out\n- Remove specific: For repeatable options, use remove_config with 'value' to remove one entry\n\nSEARCH TIPS\nsearch_config supports conceptual/natural-language queries, not just exact names.\n- Concepts work: \"transparent\", \"font size\", \"padding\", \"blur\", \"tab style\"\n- Synonym matching is built in (e.g. \"transparent\" finds background-opacity, \"hotkey\" finds keybind)\n- Use the category parameter to narrow results when browsing a topic area\n- get_option returns the full description, type, valid values, and related options\n\nCATEGORIES\n"@
}

pub open spec fn validation_text() -> Seq<char> {
    "\n\nVALIDATION\n- write_config validates automatically before writing and rejects invalid values\n- validate_config without parameters checks the entire config file for errors\n- validate_config with option + value checks a single value before setting it\n- Types: string, boolean, positive integer, float, color (hex like #RRGGBB or named), enum (from fixed set)\n\nCONFIG RELOAD\nAfter write_config or remove_config, remind the user to reload: Cmd+Shift+, on macOS, or restart Ghostty."@
}

/// The instructions, for `n` options in `k` categories with the given
/// category summary.
pub open spec fn spec_instructions(n: nat, k: nat, summary: Seq<char>) -> Seq<char> {
    "Ghostty terminal configuration assistant with "@ + spec_decimal(n) + " options across "@ + spec_decimal(k)
        + workflow_text() + summary + validation_text()
}

pub open spec fn pairs_view(s: Seq<(String, usize)>) -> Seq<(Seq<char>, nat)> {
    s.map_values(|p: (String, usize)| (p.0@, p.1 as nat))
}

/// The categories and their counts, most options first, ties by name.
fn ranked_counts(options: &[GhosttyOption]) -> (r: Vec<(String, usize)>)
    ensures
        exists|cv: Seq<(Seq<char>, nat)>| counted(cv, options_view(options@)) && ranked(pairs_view(r@), cv),
{
    let m = category_counts(options);
    let ghost cv = counts_view(m.entries@);
    let mut sc: Vec<(String, usize)> = Vec::new();
    let ghost mut src: Seq<int> = seq![];
    let nc = m.entries.len();
    for i in 0..nc
        invariant
            nc == m.entries@.len() == cv.len(),
            cv == counts_view(m.entries@),
            counted(cv, options_view(options@)),
            sc@.len() == i,
            forall|t: int| 0 <= t < i ==> #[trigger] pairs_view(sc@).contains(cv[t]),
            src.len() == sc@.len(),
            forall|t: int| 0 <= t < sc@.len() ==> 0 <= #[trigger] src[t] < i && pairs_view(sc@)[t] == cv[src[t]],
            forall|a: int, b: int| 0 <= a < b < sc@.len() ==> ranks_before(#[trigger] pairs_view(sc@)[a], #[trigger] pairs_view(sc@)[b]),
    {
        let ghost old_sv = pairs_view(sc@);
        let ghost x = cv[i as int];
        let count = m.entries[i].1.len();
        assert(x == (m.entries@[i as int].0@, count as nat));
        let mut p: usize = 0;
        while p < sc.len() && sc[p].1 >= count
            invariant
                p <= sc@.len(),
                old_sv == pairs_view(sc@),
                forall|t: int| 0 <= t < p ==> (#[trigger] old_sv[t]).1 >= count,
            decreases sc@.len() - p,
        {
            p = p + 1;
        }
        proof {
            assert forall|t: int| 0 <= t < old_sv.len() implies lex_lt((#[trigger] old_sv[t]).0, x.0) by {
                let j = src[t];
                assert(lex_lt(cv[j].0, cv[i as int].0));
            }
            if p < old_sv.len() {
                assert(old_sv[p as int].1 < count);
                assert forall|t: int| p <= t < old_sv.len() implies (#[trigger] old_sv[t]).1 < count by {
                    if t > p {
                        assert(ranks_before(old_sv[p as int], old_sv[t]));
                    }
                }
            }
        }
        let name = m.entries[i].0.clone();
        sc.insert(p, (name, count));
        proof {
            let nv = pairs_view(sc@);
            assert(nv =~= old_sv.insert(p as int, x));
            assert forall|a: int, b: int| 0 <= a < b < nv.len() implies ranks_before(#[trigger] nv[a], #[trigger] nv[b]) by {
                if b < p {
                    assert(nv[a] == old_sv[a] && nv[b] == old_sv[b]);
                } else if b == p {
                    assert(nv[a] == old_sv[a] && nv[b] == x);
                } else if a < p {
                    assert(nv[a] == old_sv[a] && nv[b] == old_sv[b - 1]);
                } else if a == p {
                    assert(nv[a] == x && nv[b] == old_sv[b - 1]);
                } else {
                    assert(nv[a] == old_sv[a - 1] && nv[b] == old_sv[b - 1]);
                }
            }
            let old_src = src;
            src = src.insert(p as int, i as int);
            assert forall|t: int| 0 <= t < nv.len() implies 0 <= #[trigger] src[t] < i + 1 && nv[t] == cv[src[t]] by {
                if t < p {
                    assert(nv[t] == old_sv[t] && src[t] == old_src[t]);
                } else if t == p {
                    assert(nv[t] == cv[i as int]);
                } else {
                    assert(nv[t] == old_sv[t - 1] && src[t] == old_src[t - 1]);
                }
            }
            assert forall|t: int| 0 <= t < i + 1 implies #[trigger] nv.contains(cv[t]) by {
                if t == i {
                    assert(nv[p as int] == cv[t]);
                } else {
                    assert(old_sv.contains(cv[t]));
                    let q = choose|q: int| 0 <= q < old_sv.len() && old_sv[q] == cv[t];
                    if q < p {
                        assert(nv[q] == cv[t]);
                    } else {
                        assert(nv[q + 1] == cv[t]);
                    }
                }
            }
        }
    }
    proof {
        let sv = pairs_view(sc@);
        assert forall|t: int| 0 <= t < sv.len() implies cv.contains(#[trigger] sv[t]) by {
            assert(cv[src[t]] == sv[t]);
        }
    }
    sc
}

/// The instructions the server gives: how to use the tools, with the
/// number of options and categories and each category's count, most
/// options first.
pub fn build_instructions(options: &[GhosttyOption]) -> (r: String)
    ensures
        exists|cv: Seq<(Seq<char>, nat)>, sc: Seq<(Seq<char>, nat)>|
            counted(cv, options_view(options@)) && ranked(sc, cv) && r@ == spec_instructions(
                options@.len(),
                cv.len(),
                spec_join(summary_items(sc), ", "@),
            ),
{
    let sc = ranked_counts(options);
    let ghost sv = pairs_view(sc@);
    let mut items: Vec<String> = Vec::new();
    let n = sc.len();
    for i in 0..n
        invariant
            n == sc@.len() == sv.len(),
            sv == pairs_view(sc@),
            str_seq_view(items@) == summary_items(sv).take(i as int),
    {
        let mut t = String::new();
        t.append(sc[i].0.as_str());
        t.append(" (");
        push_decimal(&mut t, sc[i].1);
        t.append(")");
        let ghost before = items@;
        items.push(t);
        assert(str_seq_view(items@) =~= str_seq_view(before).push(t@));
        assert(summary_items(sv).take(i + 1) =~= summary_items(sv).take(i as int).push(summary_items(sv)[i as int]));
    }
    assert(summary_items(sv).take(n as int) =~= summary_items(sv));
    assert(items@.map_values(|s: String| s@) =~= str_seq_view(items@));
    let summary = join(&items, ", ");
    let mut s = String::new();
    s.append("Ghostty terminal configuration assistant with ");
    push_decimal(&mut s, options.len());
    s.append(" options across ");
    push_decimal(&mut s, n);
    s.append(" categories.\n\nWORKFLOW PATTERNS\n- Discovery: list_categories -> search_config(category=X) -> get_option(name) for full docs\n- Modify: search_config -> get_option (verify type/default) -> write_config -> validate_config\n- Audit: read_config -> validate_config -> fix issues with write_config\n- Remove: read_config(option=X) to check current value -> remove_config to comment it out\n- Remove specific: For repeatable options, use remove_config with 'value' to remove one entry\n\nSEARCH TIPS\nsearch_config supports conceptual/natural-language queries, not just exact names.\n- Concepts work: \"transparent\", \"font size\", \"padding\", \"blur\", \"tab style\"\n- Synonym matching is built in (e.g. \"transparent\" finds background-opacity, \"hotkey\" finds keybind)\n- Use the category parameter to narrow results when browsing a topic area\n- get_option returns the full description, type, valid values, and related options\n\nCATEGORIES\n");
    s.append(summary.as_str());
    s.append("\n\nVALIDATION\n- write_config validates automatically before writing and rejects invalid values\n- validate_config without parameters checks the entire config file for errors\n- validate_config with option + value checks a single value before setting it\n- Types: string, boolean, positive integer, float, color (hex like #RRGGBB or named), enum (from fixed set)\n\nCONFIG RELOAD\nAfter write_config or remove_config, remind the user to reload: Cmd+Shift+, on macOS, or restart Ghostty.");
    proof {
        let cv = choose|cv: Seq<(Seq<char>, nat)>| counted(cv, options_view(options@)) && ranked(sv, cv);
        assert(s@ =~= spec_instructions(options@.len(), cv.len(), spec_join(summary_items(sv), ", "@)));
    }
    s
}

} // verus!
