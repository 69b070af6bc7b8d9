//! An entropy-guided solver for a five-letter word-guessing game.
pub mod cache;
pub mod game;
pub mod pattern;
pub mod pool;
pub mod ranking;
pub mod summary;
pub mod wordlist;

pub use cache::{load_score_map, save_score_map, ScoreMap};
pub use game::simulate_game;
pub use pattern::calculate_pattern;
pub use pool::reduce_allowed_words;
pub use ranking::best_guess;
pub use wordlist::{read_wordlist, read_wordlist_counts, read_words};
