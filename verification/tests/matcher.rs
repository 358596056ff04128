use city_spellcheck::fuzzy::{letter_score, to_letters};
use city_spellcheck::{fuzzy_match, fuzzy_score, match_letters, score_cell, Letter};

fn chars(s: &str) -> Vec<char> {
    s.chars().collect()
}

fn run(choice: &str, pattern: &str) -> Option<(i64, Vec<usize>)> {
    let choice = chars(choice);
    let pattern = chars(pattern);
    fuzzy_match(&choice[..], &pattern[..])
}

#[test]
fn teset_fuzzy_match() {
    let choice_1: Vec<char> = "London".chars().collect();
    let query_1: Vec<char> = "London".chars().collect();
    assert_eq!(
        fuzzy_match(&choice_1[..], &query_1[..]),
        Some((55, vec![0, 1, 2, 3, 4, 5]))
    );
}

#[test]
fn empty_pattern_matches_with_score_zero() {
    assert_eq!(run("London", ""), Some((0, vec![])));
    assert_eq!(run("", ""), Some((0, vec![])));
}

#[test]
fn pattern_that_is_no_subsequence_is_absent() {
    assert_eq!(run("London", "x"), None);
    assert_eq!(run("ab", "ba"), None);
    assert_eq!(run("", "a"), None);
    assert_eq!(run("London", "Lodnon"), None);
}

#[test]
fn pattern_longer_than_choice_is_absent() {
    assert_eq!(run("abc", "abcd"), None);
    assert_eq!(run("Logan", "London"), None);
    assert_eq!(run("aaa", "aaaa"), None);
}

#[test]
fn match_ignores_ascii_case() {
    assert_eq!(run("London", "london"), Some((44, vec![0, 1, 2, 3, 4, 5])));
    assert_eq!(run("london", "LONDON"), Some((44, vec![0, 1, 2, 3, 4, 5])));
}

#[test]
fn exact_case_scores_more_than_lower_case() {
    let exact = run("London", "London").unwrap();
    let lower = run("London", "london").unwrap();
    assert!(exact.0 > lower.0);
    assert_eq!(exact.1, lower.1);
    let upper = run("LONDON", "LONDON").unwrap();
    assert_eq!(upper.0, 110);
}

#[test]
fn skipped_characters_cost_two_each() {
    assert_eq!(run("London", "ldn"), Some((-9, vec![0, 3, 5])));
}

#[test]
fn match_after_separator_earns_bonus() {
    assert_eq!(run("foo bar", "b"), Some((-11, vec![4])));
    assert_eq!(run("a_ab", "ab"), Some((4, vec![2, 3])));
    assert_eq!(run("x-y", "y"), Some((-5, vec![2])));
    assert_eq!(run("x/y", "y"), Some((-5, vec![2])));
    assert_eq!(run("x\\y", "y"), Some((-5, vec![2])));
    assert_eq!(run("xzy", "y"), Some((-13, vec![2])));
}

#[test]
fn leading_penalty_is_capped() {
    assert_eq!(run("a", "a"), Some((-1, vec![0])));
    assert_eq!(run("xa", "a"), Some((-7, vec![1])));
    assert_eq!(run("xxa", "a"), Some((-13, vec![2])));
    assert_eq!(run("xxxa", "a"), Some((-19, vec![3])));
    assert_eq!(run("xxxxxxxa", "a"), Some((-19, vec![7])));
}

#[test]
fn best_alignment_is_chosen() {
    assert_eq!(run("aXa", "a"), Some((-1, vec![0])));
    assert_eq!(run("FooBar", "FB"), Some((16, vec![0, 3])));
    assert_eq!(run("abab", "ab"), Some((8, vec![0, 1])));
    assert_eq!(run("axxxxxb ab", "ab"), Some((-2, vec![8, 9])));
}

#[test]
fn later_alignment_wins_a_tie() {
    assert_eq!(run("xxxaxa", "a"), Some((-19, vec![5])));
    assert_eq!(run("xxxabab", "ab"), Some((-10, vec![5, 6])));
}

#[test]
fn non_ascii_characters_match_only_themselves() {
    assert_eq!(run("Épée", "ép"), None);
    assert_eq!(run("épée", "ée"), Some((-4, vec![2, 3])));
    assert_eq!(run("ÉÉ", "ÉÉ"), Some((30, vec![0, 1])));
}

#[test]
fn cell_scores() {
    let s = chars("Ab cD");
    let p = chars("AbcD");
    assert_eq!(fuzzy_score(&s[..], 0, &p[..], 0), 10);
    assert_eq!(fuzzy_score(&s[..], 1, &p[..], 1), -1);
    assert_eq!(fuzzy_score(&s[..], 3, &p[..], 2), 7);
    assert_eq!(fuzzy_score(&s[..], 4, &p[..], 3), 10);
    assert_eq!(fuzzy_score(&s[..], 4, &p[..], 0), -19);
    assert_eq!(fuzzy_score(&s[..], 3, &p[..], 0), -11);
    assert_eq!(fuzzy_score(&s[..], 1, &p[..], 0), -7);
}

fn is_separator(c: char) -> bool {
    c == ' ' || c == '_' || c == '-' || c == '/' || c == '\\'
}

fn score_by_the_rules(choice: &[char], pattern: &[char], at: &[usize]) -> i64 {
    let mut total = 0;
    for (p, &i) in at.iter().enumerate() {
        total += if pattern[p].is_uppercase() && pattern[p] == choice[i] { 10 } else { -1 };
        if i > 0 && is_separator(choice[i - 1]) {
            total += 8;
        }
        if p == 0 {
            total += std::cmp::max(i as i64 * -6, -18);
        } else {
            let skipped = (i - at[p - 1] - 1) as i64;
            total += if skipped == 0 { 10 } else { -2 * skipped };
        }
    }
    total
}

fn all_alignments(choice: &[char], pattern: &[char], from: usize, so_far: &mut Vec<usize>, out: &mut Vec<Vec<usize>>) {
    let p = so_far.len();
    if p == pattern.len() {
        out.push(so_far.clone());
        return;
    }
    for i in from..choice.len() {
        if choice[i].to_ascii_lowercase() == pattern[p].to_ascii_lowercase() {
            so_far.push(i);
            all_alignments(choice, pattern, i + 1, so_far, out);
            so_far.pop();
        }
    }
}

fn best_by_search(choice: &[char], pattern: &[char]) -> Option<(i64, Vec<usize>)> {
    let mut all = Vec::new();
    all_alignments(choice, pattern, 0, &mut Vec::new(), &mut all);
    let mut best: Option<(i64, Vec<usize>)> = None;
    for a in all {
        let s = score_by_the_rules(choice, pattern, &a);
        let reversed = |v: &Vec<usize>| v.iter().rev().cloned().collect::<Vec<usize>>();
        let better = match &best {
            None => true,
            Some((bs, ba)) => s > *bs || (s == *bs && reversed(&a) > reversed(ba)),
        };
        if better {
            best = Some((s, a));
        }
    }
    best
}

#[test]
fn result_is_the_best_of_all_alignments() {
    let choices = [
        "London", "New York City", "aaaa", "abababab", "a_b-c/d e\\f", "AbAbAb", "xxxxaxxxxaxxxxa",
        "San Francisco", "foo_bar_baz", "aAaAaA", "Saint-Jean-sur-Richelieu", "", "A", "ÉcoleÉcole",
        "a a a a", "ab ab ab", "abcabcabc", "aabbccaabbcc",
    ];
    let patterns = [
        "", "a", "A", "ab", "aa", "aaa", "abc", "lon", "LON", "nyc", "NYC", "sf", "SF", "fbb", "ba",
        "o", "oo", "e", "É", "ée", "abab", "aba", "ac", "cc", "sjr", "SJR", "nn", " ", "a a", "b b",
    ];
    for choice in choices {
        for pattern in patterns {
            let c = chars(choice);
            let p = chars(pattern);
            assert_eq!(
                fuzzy_match(&c[..], &p[..]),
                best_by_search(&c[..], &p[..]),
                "choice {:?}, pattern {:?}",
                choice,
                pattern
            );
        }
    }
}

#[test]
fn cell_values() {
    assert_eq!(score_cell(true, false, 0, true), 10);
    assert_eq!(score_cell(false, false, 0, true), -1);
    assert_eq!(score_cell(true, true, 1, true), 12);
    assert_eq!(score_cell(false, true, 2, true), -5);
    assert_eq!(score_cell(false, false, 3, true), -19);
    assert_eq!(score_cell(false, false, usize::MAX, true), -19);
    assert_eq!(score_cell(true, true, usize::MAX, false), 18);
    assert_eq!(score_cell(false, true, 7, false), 7);
}

fn letter(ch: char, upper: bool) -> Letter {
    Letter { ch, upper }
}

#[test]
fn letters_carry_their_case() {
    assert_eq!(
        to_letters(&chars("aB É-é")[..]),
        vec![
            letter('a', false),
            letter('B', true),
            letter(' ', false),
            letter('É', true),
            letter('-', false),
            letter('é', false),
        ]
    );
    assert_eq!(to_letters(&[]), vec![]);
}

#[test]
fn letters_match_as_their_strings_do() {
    for (choice, pattern) in [("London", "Lon"), ("FooBar", "fb"), ("a_ab", "ab"), ("ab", "ba")] {
        let c = chars(choice);
        let p = chars(pattern);
        assert_eq!(
            match_letters(&to_letters(&c[..])[..], &to_letters(&p[..])[..]),
            fuzzy_match(&c[..], &p[..])
        );
    }
}

#[test]
fn case_bonus_goes_by_the_flags() {
    let choice = [letter('a', false), letter('B', true)];
    assert_eq!(match_letters(&choice, &choice), Some((19, vec![0, 1])));
    let flagged = [letter('a', true), letter('b', true)];
    assert_eq!(match_letters(&flagged, &flagged), Some((30, vec![0, 1])));
    let plain = [letter('a', false), letter('b', false)];
    assert_eq!(match_letters(&flagged, &plain), Some((8, vec![0, 1])));
    assert_eq!(letter_score(&flagged, 1, &flagged, 1), 10);
    assert_eq!(letter_score(&flagged, 1, &plain, 1), -1);
    assert_eq!(letter_score(&flagged, 0, &flagged, 0), 10);
    assert_eq!(letter_score(&flagged, 1, &plain, 0), -7);
}
