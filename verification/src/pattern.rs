//! Feedback patterns: what a guess reveals about a secret word.
//!
//! A word is five bytes; a feedback pattern is five marks, one per position of
//! the guess. The marks follow the usual rules of the game, duplicate letters
//! included: a letter of the guess is marked at most as often as the secret
//! holds it, exact matches first and then the remaining copies from left to
//! right.
use vstd::prelude::*;

verus! {

/// Letters in a word, and marks in a feedback pattern.
pub const WORD_LEN: usize = 5;

/// Mark of a letter that the secret does not hold, or holds no further copy of.
pub const ABSENT: u8 = 0;

/// Mark of a letter that the secret holds at another position.
pub const PRESENT: u8 = 1;

/// Mark of a letter that the secret holds at this very position.
pub const CORRECT: u8 = 2;

/// Number of distinct feedback patterns: three marks at five positions.
pub const PATTERN_COUNT: usize = 243;

/// A word, seen as a sequence, has exactly five letters.
pub open spec fn is_word(word: Seq<u8>) -> bool {
    word.len() == WORD_LEN
}

/// A feedback pattern has five marks, each absent, present or correct.
pub open spec fn is_pattern(pattern: Seq<u8>) -> bool {
    &&& pattern.len() == WORD_LEN
    &&& forall|i: int| 0 <= i < WORD_LEN ==> #[trigger] pattern[i] <= CORRECT
}

/// The pattern of a solved game: every position correct.
pub open spec fn all_correct() -> Seq<u8> {
    Seq::new(WORD_LEN as nat, |i: int| CORRECT)
}

/// The pattern of a guess that shares nothing with the secret.
pub open spec fn all_absent() -> Seq<u8> {
    Seq::new(WORD_LEN as nat, |i: int| ABSENT)
}

/// Number of positions below `upto` at which `word` holds `letter`.
pub open spec fn occurrences(word: Seq<u8>, letter: u8, upto: int) -> int
    decreases upto,
{
    if upto <= 0 {
        0
    } else {
        occurrences(word, letter, upto - 1) + if word[upto - 1] == letter {
            1int
        } else {
            0int
        }
    }
}

/// Number of positions below `upto` at which guess and secret both hold `letter`.
pub open spec fn exact_matches(guess: Seq<u8>, secret: Seq<u8>, letter: u8, upto: int) -> int
    decreases upto,
{
    if upto <= 0 {
        0
    } else {
        exact_matches(guess, secret, letter, upto - 1) + if guess[upto - 1] == letter
            && secret[upto - 1] == letter {
            1int
        } else {
            0int
        }
    }
}

/// Number of positions below `upto` at which the guess holds `letter` and the
/// secret holds something else.
pub open spec fn misplaced_before(guess: Seq<u8>, secret: Seq<u8>, letter: u8, upto: int) -> int
    decreases upto,
{
    if upto <= 0 {
        0
    } else {
        misplaced_before(guess, secret, letter, upto - 1) + if guess[upto - 1] == letter
            && secret[upto - 1] != letter {
            1int
        } else {
            0int
        }
    }
}

/// Copies of `letter` in the secret that no exact match of the guess uses up.
pub open spec fn unmatched(guess: Seq<u8>, secret: Seq<u8>, letter: u8) -> int {
    occurrences(secret, letter, WORD_LEN as int) - exact_matches(
        guess,
        secret,
        letter,
        WORD_LEN as int,
    )
}

/// The mark of position `i` of the guess.
///
/// An exact match is correct. Any other letter is present as long as the
/// secret has an unmatched copy left for it, the copies being handed out to
/// the misplaced occurrences of that letter from left to right.
pub open spec fn mark_at(guess: Seq<u8>, secret: Seq<u8>, i: int) -> u8 {
    if guess[i] == secret[i] {
        CORRECT
    } else if misplaced_before(guess, secret, guess[i], i) < unmatched(guess, secret, guess[i]) {
        PRESENT
    } else {
        ABSENT
    }
}

/// The feedback pattern of `guess` against `secret`.
pub open spec fn score(guess: Seq<u8>, secret: Seq<u8>) -> Seq<u8> {
    Seq::new(WORD_LEN as nat, |i: int| mark_at(guess, secret, i))
}

/// A letter occurs between zero and `upto` times below `upto`, and counting
/// further never lowers the count.
pub proof fn lemma_occurrences_bounds(word: Seq<u8>, letter: u8, upto: int)
    requires
        0 <= upto,
    ensures
        0 <= occurrences(word, letter, upto) <= upto,
        forall|more: int|
            upto <= more ==> occurrences(word, letter, upto) <= #[trigger] occurrences(
                word,
                letter,
                more,
            ),
    decreases upto,
{
    if upto > 0 {
        lemma_occurrences_bounds(word, letter, upto - 1);
    }
    assert forall|more: int| upto <= more implies occurrences(word, letter, upto)
        <= #[trigger] occurrences(word, letter, more) by {
        lemma_occurrences_monotone(word, letter, upto, more);
    }
}

proof fn lemma_occurrences_monotone(word: Seq<u8>, letter: u8, upto: int, more: int)
    requires
        upto <= more,
    ensures
        occurrences(word, letter, upto) <= occurrences(word, letter, more),
    decreases more - upto,
{
    if upto < more {
        lemma_occurrences_monotone(word, letter, upto, more - 1);
    }
}

/// Exact matches of a letter are occurrences of it in the secret.
pub proof fn lemma_exact_matches_bounds(guess: Seq<u8>, secret: Seq<u8>, letter: u8, upto: int)
    ensures
        0 <= exact_matches(guess, secret, letter, upto) <= occurrences(secret, letter, upto),
    decreases upto,
{
    if upto > 0 {
        lemma_exact_matches_bounds(guess, secret, letter, upto - 1);
    }
}

/// A secret always has at least as many copies of a letter as exact matches.
pub proof fn lemma_unmatched_nonnegative(guess: Seq<u8>, secret: Seq<u8>, letter: u8)
    ensures
        0 <= unmatched(guess, secret, letter) <= WORD_LEN,
{
    lemma_exact_matches_bounds(guess, secret, letter, WORD_LEN as int);
    lemma_occurrences_bounds(secret, letter, WORD_LEN as int);
}

/// A letter is misplaced between zero and `upto` times below `upto`.
pub proof fn lemma_misplaced_bounds(guess: Seq<u8>, secret: Seq<u8>, letter: u8, upto: int)
    requires
        0 <= upto,
    ensures
        0 <= misplaced_before(guess, secret, letter, upto) <= upto,
    decreases upto,
{
    if upto > 0 {
        lemma_misplaced_bounds(guess, secret, letter, upto - 1);
    }
}

/// A letter that a word does not hold below `upto` occurs there zero times.
pub proof fn lemma_missing_letter(word: Seq<u8>, letter: u8, upto: int)
    requires
        forall|j: int| 0 <= j < upto ==> word[j] != letter,
    ensures
        occurrences(word, letter, upto) == 0,
    decreases upto,
{
    if upto > 0 {
        lemma_missing_letter(word, letter, upto - 1);
    }
}

/// A word scored against itself is correct at every position.
pub proof fn lemma_score_of_itself(word: Seq<u8>)
    ensures
        score(word, word) == all_correct(),
{
    assert(score(word, word) =~= all_correct());
}

/// A guess that shares no letter with the secret is absent at every
/// position.
pub proof fn lemma_nothing_shared(guess: Seq<u8>, secret: Seq<u8>)
    requires
        forall|i: int, j: int| 0 <= i < WORD_LEN && 0 <= j < WORD_LEN ==> guess[i] != secret[j],
    ensures
        score(guess, secret) == all_absent(),
{
    assert forall|i: int| 0 <= i < WORD_LEN implies mark_at(guess, secret, i) == ABSENT by {
        lemma_missing_letter(secret, guess[i], WORD_LEN as int);
        lemma_exact_matches_bounds(guess, secret, guess[i], WORD_LEN as int);
        lemma_misplaced_bounds(guess, secret, guess[i], i);
    }
    assert(score(guess, secret) =~= all_absent());
}

/// Every score is a well-formed pattern.
pub proof fn lemma_score_is_pattern(guess: Seq<u8>, secret: Seq<u8>)
    ensures
        is_pattern(score(guess, secret)),
{
}

/// Computes the feedback pattern of `guess` against `secret`.
///
/// The secret's letters are counted first; each exact match then takes one
/// copy of its letter away, and only after that the remaining letters of the
/// guess claim what is left, from left to right.
pub fn calculate_pattern(guess: &[u8; 5], secret: &[u8; 5]) -> (pattern: [u8; 5])
    ensures
        pattern@ == score(guess@, secret@),
        is_pattern(pattern@),
{
    proof {
        lemma_score_is_pattern(guess@, secret@);
    }
    let mut pattern: [u8; 5] = [ABSENT;5];
    let mut freq: [u8; 256] = [0;256];

    let mut i: usize = 0;
    while i < WORD_LEN
        invariant
            i <= WORD_LEN,
            forall|c: int|
                0 <= c < 256 ==> #[trigger] freq@[c] == occurrences(secret@, c as u8, i as int),
        decreases WORD_LEN - i,
    {
        let s = secret[i];
        proof {
            lemma_occurrences_bounds(secret@, s, i as int);
        }
        freq[s as usize] = freq[s as usize] + 1;
        i += 1;
    }

    i = 0;
    while i < WORD_LEN
        invariant
            i <= WORD_LEN,
            forall|c: int|
                0 <= c < 256 ==> #[trigger] freq@[c] == unmatched_after(
                    guess@,
                    secret@,
                    c as u8,
                    i as int,
                ),
            forall|j: int| 0 <= j < i ==> #[trigger] pattern@[j] == exact_mark(guess@, secret@, j),
            forall|j: int| i <= j < WORD_LEN ==> #[trigger] pattern@[j] == ABSENT,
        decreases WORD_LEN - i,
    {
        let g = guess[i];
        if g == secret[i] {
            proof {
                lemma_exact_matches_bounds(guess@, secret@, g, i as int + 1);
                lemma_occurrences_bounds(secret@, g, i as int + 1);
            }
            pattern[i] = CORRECT;
            freq[g as usize] = freq[g as usize] - 1;
        }
        i += 1;
    }

    i = 0;
    while i < WORD_LEN
        invariant
            i <= WORD_LEN,
            forall|c: int|
                0 <= c < 256 ==> #[trigger] freq@[c] == remaining_after(
                    guess@,
                    secret@,
                    c as u8,
                    i as int,
                ),
            forall|j: int| 0 <= j < i ==> #[trigger] pattern@[j] == mark_at(guess@, secret@, j),
            forall|j: int|
                i <= j < WORD_LEN ==> #[trigger] pattern@[j] == exact_mark(guess@, secret@, j),
        decreases WORD_LEN - i,
    {
        let g = guess[i];
        proof {
            lemma_unmatched_nonnegative(guess@, secret@, g);
        }
        if pattern[i] != CORRECT && freq[g as usize] > 0 {
            pattern[i] = PRESENT;
            freq[g as usize] = freq[g as usize] - 1;
        }
        i += 1;
    }

    assert(pattern@ =~= score(guess@, secret@));
    pattern
}

/// The number that stands for a pattern in tables: its marks read as base-3
/// digits, position 0 being the least significant.
pub open spec fn pattern_code(pattern: Seq<u8>) -> int {
    pattern[0] + 3 * pattern[1] + 9 * pattern[2] + 27 * pattern[3] + 81 * pattern[4]
}

/// The pattern that a number below 243 stands for.
pub open spec fn pattern_of_code(code: int) -> Seq<u8> {
    seq![
        (code % 3) as u8,
        ((code / 3) % 3) as u8,
        ((code / 9) % 3) as u8,
        ((code / 27) % 3) as u8,
        ((code / 81) % 3) as u8,
    ]
}

/// Encoding a pattern and decoding the number gives the pattern back, and the
/// number is a valid table index.
pub proof fn lemma_pattern_code_round_trip(pattern: Seq<u8>)
    requires
        is_pattern(pattern),
    ensures
        0 <= pattern_code(pattern) < PATTERN_COUNT,
        pattern_of_code(pattern_code(pattern)) == pattern,
{
    let code = pattern_code(pattern);
    let m0 = pattern[0] as int;
    let m1 = pattern[1] as int;
    let m2 = pattern[2] as int;
    let m3 = pattern[3] as int;
    let m4 = pattern[4] as int;
    assert(m0 <= 2 && m1 <= 2 && m2 <= 2 && m3 <= 2 && m4 <= 2);
    assert(code == 3 * (m1 + 3 * m2 + 9 * m3 + 27 * m4) + m0);
    assert(code / 3 == m1 + 3 * m2 + 9 * m3 + 27 * m4 && code % 3 == m0);
    assert(code == 9 * (m2 + 3 * m3 + 9 * m4) + (m0 + 3 * m1));
    assert(code / 9 == m2 + 3 * m3 + 9 * m4);
    assert(code == 27 * (m3 + 3 * m4) + (m0 + 3 * m1 + 9 * m2));
    assert(code / 27 == m3 + 3 * m4);
    assert(code == 81 * m4 + (m0 + 3 * m1 + 9 * m2 + 27 * m3));
    assert(code / 81 == m4);
    assert((code / 3) % 3 == m1);
    assert((code / 9) % 3 == m2);
    assert((code / 27) % 3 == m3);
    assert((code / 81) % 3 == m4);
    assert(pattern_of_code(code) =~= pattern);
}

/// Decoding a table index gives a well-formed pattern whose code is the index.
pub proof fn lemma_code_pattern_round_trip(code: int)
    requires
        0 <= code < PATTERN_COUNT,
    ensures
        is_pattern(pattern_of_code(code)),
        pattern_code(pattern_of_code(code)) == code,
{
    let q1 = code / 3;
    let q2 = code / 9;
    let q3 = code / 27;
    let q4 = code / 81;
    assert(code == 3 * q1 + code % 3);
    assert(q2 == q1 / 3 && q1 == 3 * q2 + q1 % 3);
    assert(q3 == q2 / 3 && q2 == 3 * q3 + q2 % 3);
    assert(q4 == q3 / 3 && q3 == 3 * q4 + q3 % 3);
    assert(0 <= q4 < 3 && q4 % 3 == q4);
    let pattern = pattern_of_code(code);
    assert(pattern[0] == code % 3 && pattern[1] == q1 % 3 && pattern[2] == q2 % 3 && pattern[3]
        == q3 % 3 && pattern[4] == q4);
}

/// Two well-formed patterns with the same code are the same pattern.
pub proof fn lemma_pattern_code_injective(a: Seq<u8>, b: Seq<u8>)
    requires
        is_pattern(a),
        is_pattern(b),
        pattern_code(a) == pattern_code(b),
    ensures
        a == b,
{
    lemma_pattern_code_round_trip(a);
    lemma_pattern_code_round_trip(b);
}

/// Encodes a feedback pattern as its table index.
pub fn pattern_index(pattern: &[u8; 5]) -> (index: u8)
    requires
        is_pattern(pattern@),
    ensures
        index == pattern_code(pattern@),
        index < PATTERN_COUNT,
{
    assert(pattern@[0] <= CORRECT && pattern@[1] <= CORRECT && pattern@[2] <= CORRECT
        && pattern@[3] <= CORRECT && pattern@[4] <= CORRECT);
    pattern[0] + 3 * pattern[1] + 9 * pattern[2] + 27 * pattern[3] + 81 * pattern[4]
}

/// Decodes a table index into the feedback pattern it stands for.
pub fn pattern_from_index(index: u8) -> (pattern: [u8; 5])
    requires
        index < PATTERN_COUNT,
    ensures
        pattern@ == pattern_of_code(index as int),
        is_pattern(pattern@),
{
    let pattern: [u8; 5] = [
        index % 3,
        (index / 3) % 3,
        (index / 9) % 3,
        (index / 27) % 3,
        (index / 81) % 3,
    ];
    proof {
        lemma_code_pattern_round_trip(index as int);
    }
    assert(pattern@ =~= pattern_of_code(index as int));
    pattern
}

/// Tells whether two patterns (or two words) hold the same five bytes.
pub fn same_letters(a: &[u8; 5], b: &[u8; 5]) -> (same: bool)
    ensures
        same == (a@ == b@),
{
    let same = a[0] == b[0] && a[1] == b[1] && a[2] == b[2] && a[3] == b[3] && a[4] == b[4];
    assert(same == (a@ =~= b@));
    same
}

/// Tells whether a pattern marks every position correct.
pub fn is_all_correct(pattern: &[u8; 5]) -> (solved: bool)
    ensures
        solved == (pattern@ == all_correct()),
{
    let solved = pattern[0] == CORRECT && pattern[1] == CORRECT && pattern[2] == CORRECT
        && pattern[3] == CORRECT && pattern[4] == CORRECT;
    assert(solved == (pattern@ =~= all_correct()));
    solved
}

/// Copies of `letter` in the secret that the exact matches below `upto`
/// have not used up.
pub open spec fn unmatched_after(guess: Seq<u8>, secret: Seq<u8>, letter: u8, upto: int) -> int {
    occurrences(secret, letter, WORD_LEN as int) - exact_matches(guess, secret, letter, upto)
}

/// The mark of position `i` once the exact matches are settled and nothing
/// else is: correct or absent.
pub open spec fn exact_mark(guess: Seq<u8>, secret: Seq<u8>, i: int) -> u8 {
    if guess[i] == secret[i] {
        CORRECT
    } else {
        ABSENT
    }
}

/// Copies of `letter` still unclaimed once the positions below `upto` of the
/// guess have been marked.
pub open spec fn remaining_after(guess: Seq<u8>, secret: Seq<u8>, letter: u8, upto: int) -> int {
    let left = unmatched(guess, secret, letter) - misplaced_before(guess, secret, letter, upto);
    if left > 0 {
        left
    } else {
        0
    }
}

} // verus!
