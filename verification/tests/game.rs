use wordle_solver::game::{Game, GameStatus};
use wordle_solver::ranking::SolverError;
use wordle_solver::{read_wordlist_counts, simulate_game};

fn entropy_rank(histogram: &[u64; 243], total: u64) -> u64 {
    let mut entropy: f32 = 0.0;
    for &weight in histogram.iter() {
        if weight > 0 {
            let p = weight as f32 / total as f32;
            entropy -= p * p.log2();
        }
    }
    entropy.to_bits() as u64
}

fn dictionary() -> Vec<([u8; 5], u64)> {
    vec![(*b"apple", 1), (*b"bravo", 1), (*b"crane", 1), (*b"doubt", 1), (*b"eagle", 1)]
}

fn ladder() -> Vec<([u8; 5], u64)> {
    vec![
        (*b"aaaab", 1),
        (*b"aaaac", 1),
        (*b"aaaad", 1),
        (*b"aaaae", 1),
        (*b"aaaaf", 1),
        (*b"aaaag", 1),
        (*b"aaaah", 1),
        (*b"aaaai", 1),
    ]
}

#[test]
fn opening_with_the_secret_solves_in_one_guess() {
    assert_eq!(simulate_game(&dictionary(), b"apple", b"apple", &entropy_rank), Ok((true, 1)));
}

#[test]
fn opening_with_the_secret_solves_even_outside_the_pool() {
    assert_eq!(simulate_game(&dictionary(), b"zzzzz", b"zzzzz", &entropy_rank), Ok((true, 1)));
    assert_eq!(simulate_game(&[], b"zzzzz", b"zzzzz", &entropy_rank), Ok((true, 1)));
}

#[test]
fn a_game_counts_every_guess() {
    assert_eq!(simulate_game(&dictionary(), b"apple", b"crane", &entropy_rank), Ok((true, 2)));
    assert_eq!(simulate_game(&dictionary(), b"eagle", b"crane", &entropy_rank), Ok((true, 3)));
}

#[test]
fn every_secret_of_a_small_pool_is_found() {
    let pool = dictionary();
    for (secret, _) in pool.iter() {
        for (opening, _) in pool.iter() {
            let (solved, guesses) = simulate_game(&pool, secret, opening, &entropy_rank).unwrap();
            assert!(solved);
            assert!(1 <= guesses && guesses <= 5);
        }
    }
}

#[test]
fn the_sixth_guess_still_solves() {
    assert_eq!(simulate_game(&ladder(), b"aaaag", b"aaaab", &entropy_rank), Ok((true, 6)));
}

#[test]
fn a_right_guess_past_the_budget_is_a_loss() {
    assert_eq!(simulate_game(&ladder(), b"aaaah", b"aaaab", &entropy_rank), Ok((false, 7)));
}

#[test]
fn a_game_stops_once_the_budget_is_overrun() {
    assert_eq!(simulate_game(&ladder(), b"aaaai", b"aaaab", &entropy_rank), Ok((false, 7)));
}

#[test]
fn a_secret_outside_the_pool_empties_it() {
    let pool = vec![(*b"apple", 1), (*b"bravo", 1)];
    assert_eq!(
        simulate_game(&pool, b"crane", b"doubt", &entropy_rank),
        Err(SolverError::EmptyPool)
    );
}

#[test]
fn a_weightless_pool_cannot_be_ranked() {
    let pool = vec![(*b"apple", 0), (*b"eagle", 0), (*b"crane", 0)];
    assert_eq!(
        simulate_game(&pool, b"eagle", b"crane", &entropy_rank),
        Err(SolverError::ZeroWeight)
    );
}

#[test]
fn a_turn_scores_counts_and_reduces() {
    let mut game = Game::new(&dictionary());
    assert_eq!(game.guesses, 0);
    assert_eq!(game.status, GameStatus::Guessing);
    assert_eq!(game.candidates, dictionary());
    game.play(b"eagle", b"crane");
    assert_eq!(game.guesses, 1);
    assert_eq!(game.status, GameStatus::Guessing);
    assert_eq!(game.candidates, vec![(*b"apple", 1), (*b"eagle", 1)]);
    game.play(b"eagle", b"eagle");
    assert_eq!(game.guesses, 2);
    assert_eq!(game.status, GameStatus::Solved);
    assert_eq!(game.candidates, vec![(*b"eagle", 1)]);
}

#[test]
fn a_game_is_exhausted_by_the_seventh_guess() {
    let mut game = Game::new(&ladder());
    for guess in [b"aaaab", b"aaaac", b"aaaad", b"aaaae", b"aaaaf", b"aaaag"] {
        game.play(b"aaaai", guess);
        assert_eq!(game.status, GameStatus::Guessing);
    }
    assert_eq!(game.guesses, 6);
    game.play(b"aaaai", b"aaaai");
    assert_eq!(game.guesses, 7);
    assert_eq!(game.status, GameStatus::Exhausted);
}

#[test]
fn a_game_on_a_dictionary_read_from_text() {
    let text = b"apple 1\nbravo 1\ncrane 1\ndoubt 1\neagle 1\n";
    let dictionary = read_wordlist_counts(text).unwrap();
    assert_eq!(dictionary.len(), 5);
    assert_eq!(simulate_game(&dictionary, b"apple", b"apple", &entropy_rank), Ok((true, 1)));
    assert_eq!(simulate_game(&dictionary, b"eagle", b"crane", &entropy_rank), Ok((true, 3)));
}

#[test]
fn the_same_game_ends_the_same_way() {
    let pool = ladder();
    for (secret, _) in pool.iter() {
        let once = simulate_game(&pool, secret, b"aaaab", &entropy_rank);
        let again = simulate_game(&pool, secret, b"aaaab", &entropy_rank);
        assert_eq!(once, again);
    }
}
