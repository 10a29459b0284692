use ghostty_mcp::data::options::GhosttyOption;
use ghostty_mcp::search::{rank_by_score, search_options};

fn make_options() -> Vec<GhosttyOption> {
    vec![
        GhosttyOption {
            name: "font-size".to_string(),
            description: "The size of the font in points.".to_string(),
            default_value: "13".to_string(),
            option_type: "number".to_string(),
            valid_values: None,
            category: "font".to_string(),
            platform: None,
            reloadable: true,
            repeatable: false,
            search_terms: vec!["size".to_string(), "points".to_string()],
            related_options: None,
        },
        GhosttyOption {
            name: "background-opacity".to_string(),
            description: "The opacity of the background.".to_string(),
            default_value: "1.0".to_string(),
            option_type: "number".to_string(),
            valid_values: None,
            category: "appearance".to_string(),
            platform: None,
            reloadable: true,
            repeatable: false,
            search_terms: vec!["transparent".to_string(), "opacity".to_string()],
            related_options: None,
        },
        GhosttyOption {
            name: "font-family".to_string(),
            description: "The font family to use.".to_string(),
            default_value: "".to_string(),
            option_type: "string".to_string(),
            valid_values: None,
            category: "font".to_string(),
            platform: None,
            reloadable: true,
            repeatable: true,
            search_terms: vec!["family".to_string(), "typeface".to_string()],
            related_options: None,
        },
    ]
}

#[test]
fn search_empty_query_returns_all() {
    let options = make_options();
    let results = search_options(&options, "", None, 100);
    assert_eq!(results.len(), 3);
}

#[test]
fn search_empty_query_with_category_filter() {
    let options = make_options();
    let results = search_options(&options, "", Some("font"), 100);
    assert_eq!(results.len(), 2);
    assert!(results.iter().all(|r| r.option.category == "font"));
}

#[test]
fn search_exact_name_match() {
    let options = make_options();
    let results = search_options(&options, "font-size", None, 10);
    assert!(!results.is_empty());
    assert_eq!(results[0].option.name, "font-size");
}

#[test]
fn search_fuzzy_match() {
    let options = make_options();
    let results = search_options(&options, "transparent", None, 10);
    assert!(!results.is_empty());
    assert_eq!(results[0].option.name, "background-opacity");
}

#[test]
fn search_respects_limit() {
    let options = make_options();
    let results = search_options(&options, "", None, 2);
    assert_eq!(results.len(), 2);
}

#[test]
fn search_category_filter_with_query() {
    let options = make_options();
    let results = search_options(&options, "font", Some("appearance"), 10);
    // Should not return font options since we filter by appearance
    assert!(results.iter().all(|r| r.option.category == "appearance"));
}

#[test]
fn search_no_match_returns_empty() {
    let options = make_options();
    let results = search_options(&options, "zzzznonexistent", None, 10);
    assert!(results.is_empty());
}

// --- further cases ---

#[test]
fn results_sorted_by_descending_score() {
    let options = make_options();
    let results = search_options(&options, "font", None, 10);
    assert!(results.len() >= 2);
    for w in results.windows(2) {
        assert!(w[0].score >= w[1].score);
    }
    assert!(results.iter().all(|r| r.score > 0));
}

#[test]
fn empty_query_keeps_order_and_zero_scores() {
    let options = make_options();
    let results = search_options(&options, "", None, 10);
    let names: Vec<&str> = results.iter().map(|r| r.option.name.as_str()).collect();
    assert_eq!(names, vec!["font-size", "background-opacity", "font-family"]);
    assert!(results.iter().all(|r| r.score == 0));
    assert_eq!(results[2].option.search_terms, vec!["family".to_string(), "typeface".to_string()]);
}

#[test]
fn limit_zero_gives_nothing() {
    let options = make_options();
    assert!(search_options(&options, "font", None, 0).is_empty());
}

#[test]
fn rank_by_given_scores() {
    let options = make_options();
    let r = rank_by_score(&options, &vec![Some(5), None, Some(7)], 10);
    let got: Vec<(&str, u32)> = r.iter().map(|x| (x.option.name.as_str(), x.score)).collect();
    assert_eq!(got, vec![("font-family", 7), ("font-size", 5)]);
}

#[test]
fn rank_keeps_ties_in_order_and_cuts_to_limit() {
    let options = make_options();
    let r = rank_by_score(&options, &vec![Some(3), Some(3), Some(4)], 10);
    let got: Vec<(&str, u32)> = r.iter().map(|x| (x.option.name.as_str(), x.score)).collect();
    assert_eq!(got, vec![("font-family", 4), ("font-size", 3), ("background-opacity", 3)]);
    let r = rank_by_score(&options, &vec![Some(3), Some(3), Some(4)], 2);
    assert_eq!(r.len(), 2);
    assert_eq!(r[1].option.name, "font-size");
    assert!(rank_by_score(&options, &vec![None, None, None], 10).is_empty());
}
