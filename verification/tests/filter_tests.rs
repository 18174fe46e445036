//! Tests of the filter engine: the subsequence matcher, the regular
//! expression mode, case folding, and the matching-rate order.

use neko_filer::filter_info::{matching_rate, FilterInfo, FilterType, MatchingRate};

fn str_filter(pattern: &str) -> FilterInfo {
    FilterInfo { filter_type: FilterType::StrMatch, matcher_str: pattern.to_string() }
}

fn regex_filter(pattern: &str) -> FilterInfo {
    FilterInfo { filter_type: FilterType::RegExpr, matcher_str: pattern.to_string() }
}

#[test]
fn empty_pattern_matches_everything() {
    let filter = str_filter("");
    assert_eq!(filter.is_match(&"apple.txt".to_string()), Some(vec![]));
    assert_eq!(filter.is_match(&"".to_string()), Some(vec![]));
    assert_eq!(filter.is_match(&"weird name!?".to_string()), Some(vec![]));
    let filter = regex_filter("");
    assert!(filter.is_match(&"anything".to_string()).is_some());
}

#[test]
fn contiguous_match_reports_the_run() {
    let filter = str_filter("ap");
    assert_eq!(filter.is_match(&"apple.txt".to_string()), Some(vec![0, 1]));
}

#[test]
fn match_inside_the_name_reports_shifted_indices() {
    let filter = str_filter("ap");
    assert_eq!(filter.is_match(&"grape.txt".to_string()), Some(vec![2, 3]));
}

#[test]
fn scattered_subsequence_matches_per_character() {
    let filter = str_filter("ae");
    assert_eq!(filter.is_match(&"apple".to_string()), Some(vec![0, 4]));
}

#[test]
fn absent_pattern_does_not_match() {
    let filter = str_filter("xyz");
    assert_eq!(filter.is_match(&"apple.txt".to_string()), None);
}

#[test]
fn greedy_longest_prefix_can_overshoot() {
    // The matcher greedily takes the longest pattern prefix that occurs as a
    // contiguous block: "ab" is found late in the target, leaving no room
    // for "c", although "abc" is a plain subsequence of the target.
    let filter = str_filter("abc");
    assert_eq!(filter.is_match(&"axbcab".to_string()), None);
}

#[test]
fn lowercase_pattern_matches_any_case() {
    let filter = str_filter("ap");
    assert_eq!(filter.is_match(&"APple.txt".to_string()), Some(vec![0, 1]));
    assert_eq!(filter.is_match(&"Apple".to_string()), Some(vec![0, 1]));
}

#[test]
fn uppercase_in_pattern_forces_exact_case() {
    let filter = str_filter("Ap");
    assert_eq!(filter.is_match(&"apple".to_string()), None);
    assert_eq!(filter.is_match(&"Apple".to_string()), Some(vec![0, 1]));
}

#[test]
fn regex_mode_reports_the_first_match_span() {
    let filter = regex_filter("a.c");
    assert_eq!(filter.is_match(&"xxabc".to_string()), Some(vec![2, 3, 4]));
}

#[test]
fn regex_without_match_excludes_the_row() {
    let filter = regex_filter("z+");
    assert_eq!(filter.is_match(&"apple".to_string()), None);
}

#[test]
fn malformed_regex_matches_nothing() {
    let filter = regex_filter("[");
    assert_eq!(filter.is_match(&"apple".to_string()), None);
    assert_eq!(filter.is_match(&"[".to_string()), None);
}

#[test]
fn regex_indices_are_character_positions() {
    // "p" sits at byte offset 2 of the target but is its second character.
    let filter = regex_filter("p");
    assert_eq!(filter.is_match(&"\u{e4}pfel".to_string()), Some(vec![1]));
}

#[test]
fn regex_with_uppercase_is_case_sensitive() {
    let filter = regex_filter("A.c");
    assert_eq!(filter.is_match(&"abc".to_string()), None);
    assert_eq!(filter.is_match(&"Abc".to_string()), Some(vec![0, 1, 2]));
}

#[test]
fn matching_rate_groups_consecutive_runs() {
    let rate = matching_rate(&Some(vec![2, 3, 4, 7]));
    assert_eq!(rate.result.len(), 2);
    assert_eq!(rate.result[0].length, 3);
    assert_eq!(rate.result[0].start_idx, 2);
    assert_eq!(rate.result[1].length, 1);
    assert_eq!(rate.result[1].start_idx, 7);
}

#[test]
fn matching_rate_of_no_match_is_empty() {
    assert_eq!(matching_rate(&None).result.len(), 0);
    assert_eq!(matching_rate(&Some(vec![])).result.len(), 0);
}

#[test]
fn no_match_ranks_below_every_match() {
    let none = MatchingRate::no_match();
    let some = matching_rate(&Some(vec![0]));
    assert_eq!(none.cmp(&some), std::cmp::Ordering::Less);
    assert_eq!(some.cmp(&none), std::cmp::Ordering::Greater);
}

#[test]
fn longer_run_ranks_higher() {
    let long_run = matching_rate(&Some(vec![5, 6]));
    let split = matching_rate(&Some(vec![0, 2]));
    assert_eq!(long_run.cmp(&split), std::cmp::Ordering::Greater);
}

#[test]
fn equal_runs_tie_break_on_earlier_start() {
    let early = matching_rate(&Some(vec![0, 1]));
    let late = matching_rate(&Some(vec![2, 3]));
    assert_eq!(early.cmp(&late), std::cmp::Ordering::Greater);
    assert_eq!(late.cmp(&early), std::cmp::Ordering::Less);
    assert_eq!(early.cmp(&matching_rate(&Some(vec![0, 1]))), std::cmp::Ordering::Equal);
}

#[test]
fn contiguous_match_outranks_scattered_match() {
    let filter = str_filter("ap");
    let apple = filter.is_match(&"apple.txt".to_string());
    let grape = filter.is_match(&"grape.txt".to_string());
    let apple_rate = matching_rate(&apple);
    let grape_rate = matching_rate(&grape);
    // Both runs have length 2; the earlier start ranks "apple.txt" above.
    assert_eq!(apple_rate.cmp(&grape_rate), std::cmp::Ordering::Greater);
}
