//! Fuzzy search over the documented options.

use vstd::prelude::*;
use vstd::string::StringExecFns;
use crate::config::parser::spec_lines;
use crate::data::options::{GhosttyOption, OptionView, options_view};
use crate::text::{find_char, join, spec_join, str_eq, string_of, to_chars, push_char};

verus! {

/// The score the fuzzy matcher gives `haystack` for `query`: the sum of
/// the scores of the query's atoms, or `None` when an atom rejects the
/// haystack.
pub uninterp spec fn fuzzy_score(query: Seq<char>, haystack: Seq<char>) -> Option<u32>;

/// `nucleo_matcher`: `Pattern::parse(query, CaseMatching::Ignore,
/// Normalization::Smart).score(Utf32Str::Unicode(haystack), matcher)` with a
/// `Matcher::new(Config::DEFAULT)`. The contract claims only that the result
/// is the one `fuzzy_score` names for these two texts; the matcher asserts
/// that the haystack has at most `u32::MAX` characters, and summing the
/// word scores (at most `u16::MAX` each) stays in a `u32` when the query
/// has at most 131072 characters.
#[verifier::external_body]
fn pattern_score(query: &str, haystack: &str) -> (r: Option<u32>)
    requires
        haystack@.len() <= u32::MAX,
        query@.len() <= 131072,
    ensures
        r == fuzzy_score(query@, haystack@),
{
    let mut matcher = nucleo_matcher::Matcher::new(nucleo_matcher::Config::DEFAULT);
    let pattern = nucleo_matcher::pattern::Pattern::parse(
        query,
        nucleo_matcher::pattern::CaseMatching::Ignore,
        nucleo_matcher::pattern::Normalization::Smart,
    );
    let chars: Vec<char> = haystack.chars().collect();
    pattern.score(nucleo_matcher::Utf32Str::Unicode(&chars), &mut matcher)
}

/// Search result with score for ranking.
#[derive(Debug, Clone)]
pub struct SearchResult {
    pub option: GhosttyOption,
    pub score: u32,
}

impl View for SearchResult {
    type V = (OptionView, u32);

    open spec fn view(&self) -> (OptionView, u32) {
        (self.option@, self.score)
    }
}

pub open spec fn results_view(s: Seq<SearchResult>) -> Seq<(OptionView, u32)> {
    s.map_values(|r: SearchResult| r@)
}

/// The options in `category` (all of them when there is none), in order.
pub open spec fn in_category(opts: Seq<OptionView>, category: Option<Seq<char>>) -> Seq<OptionView>
    decreases opts.len(),
{
    if opts.len() == 0 {
        seq![]
    } else {
        let rest = in_category(opts.drop_last(), category);
        match category {
            Some(c) => if opts.last().category == c {
                rest.push(opts.last())
            } else {
                rest
            },
            None => rest.push(opts.last()),
        }
    }
}

/// The first line of `s` (empty when `s` has none).
pub open spec fn first_line(s: Seq<char>) -> Seq<char> {
    if spec_lines(s).len() > 0 {
        spec_lines(s)[0]
    } else {
        seq![]
    }
}

/// The text an option is matched against: its name three times (the
/// name weighs most), its search terms, and the first line of its
/// description, separated by spaces.
pub open spec fn search_text(o: OptionView) -> Seq<char> {
    o.name + seq![' '] + o.name + seq![' '] + o.name + seq![' '] + spec_join(o.search_terms, seq![' '])
        + seq![' '] + first_line(o.description)
}

/// The options that match `query`, each with its score, in order.
pub open spec fn scored(opts: Seq<OptionView>, query: Seq<char>) -> Seq<(OptionView, u32)>
    decreases opts.len(),
{
    if opts.len() == 0 {
        seq![]
    } else {
        let rest = scored(opts.drop_last(), query);
        match fuzzy_score(query, search_text(opts.last())) {
            Some(s) => rest.push((opts.last(), s)),
            None => rest,
        }
    }
}

/// `out` is `inp` sorted by descending score, entries of equal score kept
/// in their order in `inp` (the result of a stable sort): `perm` says
/// which entry of `inp` stands at each place of `out`.
pub open spec fn stable_desc_by(out: Seq<(OptionView, u32)>, inp: Seq<(OptionView, u32)>, perm: Seq<int>) -> bool {
    &&& out.len() == inp.len()
    &&& perm.len() == inp.len()
    &&& forall|i: int| 0 <= i < perm.len() ==> 0 <= #[trigger] perm[i] < inp.len()
    &&& forall|i: int, j: int| 0 <= i < j < perm.len() ==> #[trigger] perm[i] != #[trigger] perm[j]
    &&& forall|i: int| 0 <= i < out.len() ==> #[trigger] out[i] == inp[perm[i]]
    &&& forall|i: int, j: int|
        0 <= i < j < out.len() ==> (#[trigger] out[i]).1 > (#[trigger] out[j]).1 || (out[i].1 == out[j].1
            && perm[i] < perm[j])
}

pub open spec fn min_len(limit: usize, n: int) -> int {
    if (limit as int) < n {
        limit as int
    } else {
        n
    }
}

/// What a search returns: with no query, the options of the category in
/// order with score 0; otherwise the matching options of the category with
/// their scores, sorted by descending score with ties in order; either cut
/// to at most `limit` entries.
pub open spec fn search_outcome(
    opts: Seq<OptionView>,
    query: Seq<char>,
    category: Option<Seq<char>>,
    limit: usize,
    result: Seq<(OptionView, u32)>,
) -> bool {
    let filtered = in_category(opts, category);
    if query.len() == 0 {
        result == zero_scored(filtered).take(min_len(limit, filtered.len() as int))
    } else {
        let hits = scored(filtered, query);
        exists|sorted: Seq<(OptionView, u32)>, perm: Seq<int>|
            stable_desc_by(sorted, hits, perm) && result == sorted.take(min_len(limit, hits.len() as int))
    }
}

pub open spec fn zero_scored(opts: Seq<OptionView>) -> Seq<(OptionView, u32)> {
    opts.map_values(|o: OptionView| (o, 0u32))
}

/// The options that have a score, each with its score, in order.
pub open spec fn with_scores(opts: Seq<OptionView>, scores: Seq<Option<u32>>) -> Seq<(OptionView, u32)>
    decreases opts.len(),
{
    if opts.len() == 0 || scores.len() == 0 {
        seq![]
    } else {
        let rest = with_scores(opts.drop_last(), scores.drop_last());
        match scores.last() {
            Some(s) => rest.push((opts.last(), s)),
            None => rest,
        }
    }
}

pub open spec fn in_cat(o: OptionView, category: Option<Seq<char>>) -> bool {
    match category {
        Some(c) => o.category == c,
        None => true,
    }
}

/// The matcher's score of each option of the category for `query`; none
/// for the options of other categories.
pub open spec fn category_scores(opts: Seq<OptionView>, category: Option<Seq<char>>, query: Seq<char>) -> Seq<
    Option<u32>,
> {
    opts.map_values(
        |o: OptionView|
            if in_cat(o, category) {
                fuzzy_score(query, search_text(o))
            } else {
                None
            },
    )
}

proof fn lemma_category_scores(opts: Seq<OptionView>, category: Option<Seq<char>>, query: Seq<char>)
    ensures
        with_scores(opts, category_scores(opts, category, query)) == scored(in_category(opts, category), query),
    decreases opts.len(),
{
    if opts.len() > 0 {
        let cs = category_scores(opts, category, query);
        assert(cs.drop_last() =~= category_scores(opts.drop_last(), category, query));
        lemma_category_scores(opts.drop_last(), category, query);
        if in_cat(opts.last(), category) {
            assert(in_category(opts, category).drop_last() =~= in_category(opts.drop_last(), category));
        }
    }
}

fn search_text_of(option: &GhosttyOption) -> (r: String)
    ensures
        r@ == search_text(option@),
{
    let mut s = String::new();
    s.append(option.name.as_str());
    push_char(&mut s, ' ');
    s.append(option.name.as_str());
    push_char(&mut s, ' ');
    s.append(option.name.as_str());
    push_char(&mut s, ' ');
    let terms = join(&option.search_terms, " ");
    proof {
        reveal_strlit(" ");
        assert(" "@ =~= seq![' ']);
    }
    s.append(terms.as_str());
    push_char(&mut s, ' ');
    let d = to_chars(option.description.as_str());
    let n = d.len();
    let ghost ds = d@;
    if n > 0 {
        let k = find_char(d.as_slice(), 0, n, '\n');
        assert(d@.subrange(0, n as int) =~= d@);
        let mut end = k;
        if k < n && end > 0 && d[end - 1] == '\r' {
            end = end - 1;
        }
        let line = string_of(d.as_slice(), 0, end);
        proof {
            if k < n {
                assert(crate::config::parser::strip_cr(ds.take(k as int)) =~= ds.subrange(0, end as int));
            } else {
                assert(ds.subrange(0, end as int) =~= ds);
            }
            assert(spec_lines(ds).len() > 0);
        }
        s.append(line.as_str());
    } else {
        assert(spec_lines(ds) =~= Seq::<Seq<char>>::empty());
    }
    assert(s@ =~= search_text(option@));
    s
}

fn matches_category(option: &GhosttyOption, category: Option<&str>) -> (r: bool)
    ensures
        r == (match category {
            Some(c) => option@.category == c@,
            None => true,
        }),
{
    match category {
        Some(c) => str_eq(option.category.as_str(), c),
        None => true,
    }
}

/// The options that have a score (`scores` holds one per option), each
/// with its score, sorted by descending score with ties in order, cut to at
/// most `limit` entries.
pub fn rank_by_score(options: &[GhosttyOption], scores: &Vec<Option<u32>>, limit: usize) -> (r: Vec<SearchResult>)
    requires
        scores@.len() == options@.len(),
    ensures
        exists|sorted: Seq<(OptionView, u32)>, perm: Seq<int>|
            stable_desc_by(sorted, with_scores(options_view(options@), scores@), perm) && results_view(r@)
                == sorted.take(min_len(limit, with_scores(options_view(options@), scores@).len() as int)),
{
    let ghost ov = options_view(options@);
    let n = options.len();
    // Keep the scored options sorted by descending score, ties in the order
    // the options came in.
    let mut results: Vec<SearchResult> = Vec::new();
    let ghost mut perm: Seq<int> = Seq::empty();
    for i in 0..n
        invariant
            n == options@.len() == ov.len(),
            ov == options_view(options@),
            scores@.len() == n,
            stable_desc_by(results_view(results@), with_scores(ov.take(i as int), scores@.take(i as int)), perm),
    {
        assert(ov.take(i + 1).drop_last() =~= ov.take(i as int));
        assert(ov.take(i + 1).last() == options@[i as int]@);
        assert(scores@.take(i + 1).drop_last() =~= scores@.take(i as int));
        assert(scores@.take(i + 1).last() == scores@[i as int]);
        let ghost hits0 = with_scores(ov.take(i as int), scores@.take(i as int));
        match scores[i] {
            Some(score) => {
                let item = SearchResult { option: options[i].duplicate(), score };
                let ghost hits1 = hits0.push((ov[i as int], score));
                assert(with_scores(ov.take(i + 1), scores@.take(i + 1)) == hits1);
                let ghost rv = results_view(results@);
                // place it after every entry scoring at least as much
                let m = results.len();
                let mut p: usize = 0;
                while p < m && results[p].score >= score
                    invariant
                        p <= m == results@.len(),
                        forall|t: int| 0 <= t < p ==> (#[trigger] results@[t]).score >= score,
                    decreases m - p,
                {
                    p = p + 1;
                }
                proof {
                    // every entry from p on scores less
                    assert forall|t: int| p <= t < m implies (#[trigger] rv[t]).1 < score by {
                        if t > p {
                            assert(rv[p as int].1 >= rv[t].1);
                        }
                        assert(rv[p as int] == results@[p as int]@);
                    }
                }
                results.insert(p, item);
                proof {
                    let new_perm = perm.insert(p as int, hits0.len() as int);
                    let out = results_view(results@);
                    assert(out =~= rv.insert(p as int, item@));
                    assert(item@ == (ov[i as int], score));
                    assert forall|a: int| 0 <= a < new_perm.len() implies 0 <= #[trigger] new_perm[a] < hits1.len() by {
                        if a < p { assert(new_perm[a] == perm[a]); } else if a > p { assert(new_perm[a] == perm[a - 1]); }
                    }
                    assert forall|a: int, b: int| 0 <= a < b < new_perm.len() implies #[trigger] new_perm[a] != #[trigger] new_perm[b] by {
                        if a < p && b < p {
                            assert(new_perm[a] == perm[a] && new_perm[b] == perm[b]);
                        } else if a < p && b > p {
                            assert(new_perm[a] == perm[a] && new_perm[b] == perm[b - 1]);
                        } else if a > p && b > p {
                            assert(new_perm[a] == perm[a - 1] && new_perm[b] == perm[b - 1]);
                        } else if a == p {
                            assert(new_perm[b] == perm[b - 1]);
                        } else {
                            assert(new_perm[a] == perm[a]);
                        }
                    }
                    assert forall|a: int| 0 <= a < out.len() implies #[trigger] out[a] == hits1[new_perm[a]] by {
                        if a < p {
                            assert(new_perm[a] == perm[a]);
                            assert(out[a] == rv[a]);
                        } else if a > p {
                            assert(new_perm[a] == perm[a - 1]);
                            assert(out[a] == rv[a - 1]);
                        }
                    }
                    assert forall|a: int, b: int| 0 <= a < b < out.len() implies (#[trigger] out[a]).1 > (
                    #[trigger] out[b]).1 || (out[a].1 == out[b].1 && new_perm[a] < new_perm[b]) by {
                        if a < p && b < p {
                            assert(out[a] == rv[a] && out[b] == rv[b]);
                            assert(new_perm[a] == perm[a] && new_perm[b] == perm[b]);
                        } else if a < p && b == p {
                            assert(out[a] == rv[a]);
                            assert(rv[a] == results@[a]@) by {
                                assert(rv[a] == results_view(results@.remove(p as int))[a]);
                            }
                            assert(new_perm[a] == perm[a]);
                        } else if a < p && b > p {
                            assert(out[a] == rv[a] && out[b] == rv[b - 1]);
                            assert(new_perm[a] == perm[a] && new_perm[b] == perm[b - 1]);
                        } else if a == p {
                            assert(out[b] == rv[b - 1]);
                        } else {
                            assert(out[a] == rv[a - 1] && out[b] == rv[b - 1]);
                            assert(new_perm[a] == perm[a - 1] && new_perm[b] == perm[b - 1]);
                        }
                    }
                    perm = new_perm;
                }
            },
            None => {
                assert(with_scores(ov.take(i + 1), scores@.take(i + 1)) == hits0);
            },
        }
    }
    assert(ov.take(n as int) =~= ov);
    assert(scores@.take(n as int) =~= scores@);
    let ghost full = results_view(results@);
    let ghost hits = with_scores(ov, scores@);
    assert(stable_desc_by(full, hits, perm));
    results.truncate(limit);
    assert(results_view(results@) =~= full.take(min_len(limit, hits.len() as int)));
    results
}

/// Perform fuzzy search over Ghostty options.
///
/// Searches across name, search_terms, and description (weighted by field).
/// Returns top `limit` results sorted by score descending.
pub fn search_options(
    options: &[GhosttyOption],
    query: &str,
    category: Option<&str>,
    limit: usize,
) -> (r: Vec<SearchResult>)
    requires
        query@.len() <= 131072,
        forall|i: int| 0 <= i < options@.len() ==> search_text(#[trigger] options@[i]@).len() <= u32::MAX,
    ensures
        search_outcome(
            options_view(options@),
            query@,
            match category {
                Some(c) => Some(c@),
                None => None,
            },
            limit,
            results_view(r@),
        ),
{
    let ghost cat = match category {
        Some(c) => Some(c@),
        None => None,
    };
    let ghost ov = options_view(options@);
    let n = options.len();
    if query.is_empty() {
        let mut results: Vec<SearchResult> = Vec::new();
        for i in 0..n
            invariant
                n == options@.len() == ov.len(),
                ov == options_view(options@),
                cat == (match category {
                    Some(c) => Some(c@),
                    None => None,
                }),
                results_view(results@) == zero_scored(in_category(ov.take(i as int), cat)),
        {
            assert(ov.take(i + 1).drop_last() =~= ov.take(i as int));
            assert(ov.take(i + 1).last() == options@[i as int]@);
            let ghost before = results@;
            if matches_category(&options[i], category) {
                let item = SearchResult { option: options[i].duplicate(), score: 0 };
                results.push(item);
                assert(results_view(results@) =~= results_view(before).push(item@));
            }
            assert(results_view(results@) =~= zero_scored(in_category(ov.take(i + 1), cat)));
        }
        assert(ov.take(n as int) =~= ov);
        let ghost full = results_view(results@);
        results.truncate(limit);
        assert(results_view(results@) =~= full.take(min_len(limit, full.len() as int)));
        assert(search_outcome(ov, query@, cat, limit, results_view(results@)));
        return results;
    }
    // Score every option of the category; the others get no score.
    let mut scores: Vec<Option<u32>> = Vec::new();
    for i in 0..n
        invariant
            n == options@.len() == ov.len(),
            ov == options_view(options@),
            cat == (match category {
                Some(c) => Some(c@),
                None => None,
            }),
            query@.len() <= 131072,
            forall|t: int| 0 <= t < options@.len() ==> search_text(#[trigger] options@[t]@).len() <= u32::MAX,
            scores@ == category_scores(ov.take(i as int), cat, query@),
    {
        assert(ov[i as int] == options@[i as int]@);
        if matches_category(&options[i], category) {
            let text = search_text_of(&options[i]);
            scores.push(pattern_score(query, text.as_str()));
        } else {
            scores.push(None);
        }
        assert(scores@ =~= category_scores(ov.take(i + 1), cat, query@));
    }
    assert(ov.take(n as int) =~= ov);
    proof {
        lemma_category_scores(ov, cat, query@);
    }
    rank_by_score(options, &scores, limit)
}

/// The text an option is matched against starts with its name, holds its
/// search terms joined by spaces, and ends with the first line of its
/// description, so a query can match any of the three.
pub proof fn law_search_text_covers(o: OptionView)
    ensures
        ({
            let t = search_text(o);
            let n: int = o.name.len() as int;
            let terms = spec_join(o.search_terms, seq![' ']);
            let d = first_line(o.description);
            &&& t.len() >= 3 * n + 4 + terms.len() + d.len()
            &&& t.take(n) == o.name
            &&& t.subrange(3 * n + 3, 3 * n + 3 + terms.len()) == terms
            &&& t.skip(t.len() - d.len()) == d
        }),
{
    let t = search_text(o);
    let n: int = o.name.len() as int;
    let terms = spec_join(o.search_terms, seq![' ']);
    let d = first_line(o.description);
    assert(t.take(n) =~= o.name);
    assert(t.subrange(3 * n + 3, 3 * n + 3 + terms.len()) =~= terms);
    assert(t.skip(t.len() - d.len()) =~= d);
}

pub open spec fn cat_ok(o: OptionView, category: Option<Seq<char>>) -> bool {
    match category {
        Some(c) => o.category == c,
        None => true,
    }
}

proof fn lemma_in_category_members(opts: Seq<OptionView>, category: Option<Seq<char>>)
    ensures
        forall|i: int|
            0 <= i < in_category(opts, category).len() ==> opts.contains(#[trigger] in_category(opts, category)[i])
                && cat_ok(in_category(opts, category)[i], category),
    decreases opts.len(),
{
    if opts.len() > 0 {
        let rest = opts.drop_last();
        lemma_in_category_members(rest, category);
        let f = in_category(opts, category);
        assert forall|i: int| 0 <= i < f.len() implies opts.contains(#[trigger] f[i]) && cat_ok(f[i], category) by {
            if i < in_category(rest, category).len() {
                assert(f[i] == in_category(rest, category)[i]);
                let k = choose|k: int| 0 <= k < rest.len() && rest[k] == f[i];
                assert(opts[k] == f[i]);
            } else {
                assert(f[i] == opts.last());
                assert(opts[opts.len() - 1] == f[i]);
            }
        }
    }
}

proof fn lemma_scored_members(opts: Seq<OptionView>, query: Seq<char>)
    ensures
        forall|i: int|
            0 <= i < scored(opts, query).len() ==> opts.contains((#[trigger] scored(opts, query)[i]).0)
                && fuzzy_score(query, search_text(scored(opts, query)[i].0)) == Some(scored(opts, query)[i].1),
    decreases opts.len(),
{
    if opts.len() > 0 {
        let rest = opts.drop_last();
        lemma_scored_members(rest, query);
        let f = scored(opts, query);
        assert forall|i: int| 0 <= i < f.len() implies opts.contains((#[trigger] f[i]).0) && fuzzy_score(
            query,
            search_text(f[i].0),
        ) == Some(f[i].1) by {
            if i < scored(rest, query).len() {
                assert(f[i] == scored(rest, query)[i]);
                let k = choose|k: int| 0 <= k < rest.len() && rest[k] == f[i].0;
                assert(opts[k] == f[i].0);
            } else {
                assert(f[i].0 == opts.last());
                assert(opts[opts.len() - 1] == f[i].0);
            }
        }
    }
}

/// What a search returns: at most `limit` options, each one of the given
/// options and of the requested category; for a query, each with the
/// matcher's score for it, best scores first; without a query, with
/// score 0.
pub proof fn law_search_results(
    opts: Seq<OptionView>,
    query: Seq<char>,
    category: Option<Seq<char>>,
    limit: usize,
    result: Seq<(OptionView, u32)>,
)
    requires
        search_outcome(opts, query, category, limit, result),
    ensures
        result.len() <= limit,
        forall|i: int| 0 <= i < result.len() ==> opts.contains((#[trigger] result[i]).0) && cat_ok(result[i].0, category),
        query.len() > 0 ==> forall|i: int|
            0 <= i < result.len() ==> fuzzy_score(query, search_text((#[trigger] result[i]).0)) == Some(result[i].1),
        query.len() == 0 ==> forall|i: int| 0 <= i < result.len() ==> (#[trigger] result[i]).1 == 0,
        forall|i: int, j: int| 0 <= i < j < result.len() ==> (#[trigger] result[i]).1 >= (#[trigger] result[j]).1,
{
    let filtered = in_category(opts, category);
    lemma_in_category_members(opts, category);
    if query.len() == 0 {
        let z = zero_scored(filtered);
        assert forall|i: int| 0 <= i < result.len() implies opts.contains((#[trigger] result[i]).0) && cat_ok(
            result[i].0,
            category,
        ) by {
            assert(result[i] == z[i]);
            assert(z[i].0 == filtered[i]);
        }
    } else {
        let hits = scored(filtered, query);
        lemma_scored_members(filtered, query);
        let (sorted, perm) = choose|sorted: Seq<(OptionView, u32)>, perm: Seq<int>|
            stable_desc_by(sorted, hits, perm) && result == sorted.take(min_len(limit, hits.len() as int));
        assert forall|i: int| 0 <= i < result.len() implies opts.contains((#[trigger] result[i]).0) && cat_ok(
            result[i].0,
            category,
        ) && fuzzy_score(query, search_text(result[i].0)) == Some(result[i].1) by {
            assert(result[i] == sorted[i]);
            assert(sorted[i] == hits[perm[i]]);
            let h = hits[perm[i]].0;
            assert(filtered.contains(h));
            let k = choose|k: int| 0 <= k < filtered.len() && filtered[k] == h;
            assert(opts.contains(filtered[k]) && cat_ok(filtered[k], category));
        }
        assert forall|i: int, j: int| 0 <= i < j < result.len() implies (#[trigger] result[i]).1 >= (
        #[trigger] result[j]).1 by {
            assert(result[i] == sorted[i] && result[j] == sorted[j]);
        }
    }
}

} // verus!
