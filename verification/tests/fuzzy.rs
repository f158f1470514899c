use better_spotlight::fuzzy::{score, score_lowercased};

#[test]
fn exact_match_scores_higher_than_partial() {
    assert!(score("safari", "Safari").unwrap() > score("saf", "Safari").unwrap());
}

#[test]
fn subsequence_matches() {
    assert!(score("ff", "Firefox").is_some());
}

#[test]
fn non_matching_query_is_none() {
    assert_eq!(score("xyz", "Safari"), None);
}

#[test]
fn case_insensitive() {
    assert!(score("CHROME", "Google Chrome").is_some());
}

#[test]
fn word_start_beats_middle_match() {
    assert!(score("ch", "Chrome").unwrap() > score("ro", "Chrome").unwrap());
}

#[test]
fn empty_query_matches_everything_neutrally() {
    assert_eq!(score("", "Anything"), Some(0));
}

#[test]
fn exact_scores_follow_the_bonuses() {
    // "s" word start 5 + 15, "a" adjacent 10, "f" adjacent 10; penalty 6 / 4 = 1.
    assert_eq!(score("saf", "Safari"), Some(39));
    // All six characters matched in a row: 20 + 5 * 10 - 1.
    assert_eq!(score("safari", "Safari"), Some(69));
    // "r" then "o" in the middle of "chrome": 5 + 10 - 1.
    assert_eq!(score("ro", "Chrome"), Some(14));
}

#[test]
fn word_starts_after_separators_count() {
    // "g" at 0 (20), "c" after a space (20); "Google Chrome" is 13 bytes.
    assert_eq!(score("gc", "Google Chrome"), Some(37));
}

#[test]
fn lowercased_scoring_takes_the_byte_length() {
    let q: Vec<char> = "ab".chars().collect();
    let t: Vec<char> = "ab".chars().collect();
    assert_eq!(score_lowercased(&q, &t, 2), Some(30));
    assert_eq!(score_lowercased(&q, &t, 400), Some(-70));
}

#[test]
fn greedy_match_takes_the_leftmost_characters() {
    // "aa" against "a-a": first "a" at 0 (20), second after "-" (20); 3 bytes.
    assert_eq!(score("aa", "a-a"), Some(40));
    assert_eq!(score("ba", "abc"), None);
}
