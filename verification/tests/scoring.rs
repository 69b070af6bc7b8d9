use wordle_solver::calculate_pattern;
use wordle_solver::pattern::{is_all_correct, pattern_from_index, pattern_index, same_letters};

#[test]
fn test_exact_match() {
    let guess = b"apple";
    let secret = b"apple";
    let expected = [2, 2, 2, 2, 2];
    assert_eq!(calculate_pattern(guess, secret), expected);
}

#[test]
fn test_no_match() {
    let guess = b"apple";
    let secret = b"bravo";
    let expected = [1, 0, 0, 0, 0];
    assert_eq!(calculate_pattern(guess, secret), expected);
}

#[test]
fn test_partial_exact_match() {
    let guess = b"apple";
    let secret = b"apric";
    let expected = [2, 2, 0, 0, 0];
    assert_eq!(calculate_pattern(guess, secret), expected);
}

#[test]
fn test_wrong_locations() {
    let guess = b"apple";
    let secret = b"plape";
    let expected = [1, 1, 1, 1, 2];
    assert_eq!(calculate_pattern(guess, secret), expected);
}

#[test]
fn test_repeated_characters() {
    let guess = b"apple";
    let secret = b"ppppp";
    let expected = [0, 2, 2, 0, 0];
    assert_eq!(calculate_pattern(guess, secret), expected);
}

#[test]
fn test_all_different_characters() {
    let guess = b"abcde";
    let secret = b"fghij";
    let expected = [0, 0, 0, 0, 0];
    assert_eq!(calculate_pattern(guess, secret), expected);
}

#[test]
fn chat_tests() {
    let guess = b"aaabc";
    let secret = b"aabbb";
    let expected = [2, 2, 0, 2, 0];

    assert_eq!(calculate_pattern(guess, secret), expected);
}

#[test]
fn every_word_scores_all_correct_against_itself() {
    for word in [b"apple", b"ppppp", b"aabbb", b"zzzzz", b"crane"] {
        assert_eq!(calculate_pattern(word, word), [2, 2, 2, 2, 2]);
    }
}

#[test]
fn disjoint_words_score_all_absent() {
    assert_eq!(calculate_pattern(b"doubt", b"crane"), [0, 0, 0, 0, 0]);
    assert_eq!(calculate_pattern(b"aaaaa", b"bbbbb"), [0, 0, 0, 0, 0]);
}

#[test]
fn surplus_copies_of_a_letter_are_absent() {
    // The secret holds one `e`; the exact match takes it, so the others get nothing.
    assert_eq!(calculate_pattern(b"eeeee", b"crane"), [0, 0, 0, 0, 2]);
    // Two copies in the secret, none matched exactly: the first two of the guess get them.
    assert_eq!(calculate_pattern(b"llxxl", b"hello"), [1, 1, 0, 0, 0]);
}

#[test]
fn exact_matches_are_served_before_misplaced_letters() {
    // The only `a` of the secret is matched at the end; the leading `a` gets nothing.
    assert_eq!(calculate_pattern(b"axxxa", b"bbbba"), [0, 0, 0, 0, 2]);
}

#[test]
fn scoring_takes_any_bytes() {
    assert_eq!(calculate_pattern(&[0, 255, 7, 7, 0], &[255, 0, 7, 1, 1]), [1, 1, 2, 0, 0]);
}

#[test]
fn pattern_index_reads_marks_as_base_three_digits() {
    assert_eq!(pattern_index(&[0, 0, 0, 0, 0]), 0);
    assert_eq!(pattern_index(&[1, 0, 0, 0, 0]), 1);
    assert_eq!(pattern_index(&[0, 1, 0, 0, 0]), 3);
    assert_eq!(pattern_index(&[1, 1, 1, 1, 2]), 202);
    assert_eq!(pattern_index(&[2, 2, 2, 2, 2]), 242);
    assert_eq!(pattern_from_index(202), [1, 1, 1, 1, 2]);
    assert_eq!(pattern_from_index(0), [0, 0, 0, 0, 0]);
    assert_eq!(pattern_from_index(242), [2, 2, 2, 2, 2]);
}

#[test]
fn pattern_index_round_trips_for_every_code() {
    for code in 0..243u16 {
        let pattern = pattern_from_index(code as u8);
        assert!(pattern.iter().all(|mark| *mark <= 2));
        assert_eq!(pattern_index(&pattern) as u16, code);
    }
}

#[test]
fn pattern_comparisons() {
    assert!(is_all_correct(&[2, 2, 2, 2, 2]));
    assert!(!is_all_correct(&[2, 2, 2, 2, 1]));
    assert!(same_letters(b"apple", b"apple"));
    assert!(!same_letters(b"apple", b"applf"));
}
