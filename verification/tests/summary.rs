use wordle_solver::summary::{tally, RunTotals};

#[test]
fn tally_of_no_games_is_zero() {
    assert_eq!(tally(&[]), RunTotals { games: 0, wins: 0, guesses: 0 });
}

#[test]
fn tally_counts_wins_and_adds_guesses() {
    let outcomes = [(true, 3), (false, 7), (true, 1), (true, 6)];
    assert_eq!(tally(&outcomes), RunTotals { games: 4, wins: 3, guesses: 17 });
}

#[test]
fn tally_does_not_overflow_on_large_counts() {
    let outcomes = [(false, i32::MAX), (false, i32::MAX), (true, i32::MAX)];
    assert_eq!(
        tally(&outcomes),
        RunTotals { games: 3, wins: 1, guesses: 3 * (i32::MAX as i128) }
    );
}
