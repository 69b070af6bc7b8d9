//! One game against one secret: guess, observe, reduce, and again.
//!
//! A game starts with the full pool and nothing guessed. Every turn scores
//! the guess against the secret, counts it, and reduces the pool by what was
//! observed. The game is solved by an all-correct pattern within the attempt
//! budget; it is exhausted by one that comes later, or when the budget is
//! overrun without one.
use crate::pattern::{all_correct, calculate_pattern, is_all_correct, score};
use crate::pool::{
    all_weighted, has_word, lemma_all_correct_means_equal, lemma_reduce_keeps_secret,
    lemma_reduce_shrinks, lemma_weighted_pool_has_weight, lemma_wrong_guess_leaves, reduce,
    reduce_allowed_words, total_weight, Entry,
};
use crate::ranking::{
    answers_once, best_guess, is_best_guess, lemma_best_guess_is_settled, SolverError,
};
use vstd::prelude::*;
use vstd::slice::slice_to_vec;

verus! {

/// Guesses that a game may take and still count as solved.
pub const ATTEMPT_BUDGET: i32 = 6;

/// Where a game stands.
#[derive(Clone, Copy, Debug, PartialEq, Eq, Structural)]
pub enum GameStatus {
    /// The secret is not found yet and another guess is due.
    Guessing,
    /// The secret was found within the attempt budget.
    Solved,
    /// The attempt budget was overrun, whether or not the last guess was right.
    Exhausted,
}

/// A game in progress: the pool that is left, the guesses made, the status.
pub struct Game {
    pub candidates: Vec<Entry>,
    pub guesses: i32,
    pub status: GameStatus,
}

/// The status of a game whose latest guess, the `guesses`-th, was answered
/// with `observed`.
pub open spec fn status_after(observed: Seq<u8>, guesses: int) -> GameStatus {
    if observed == all_correct() && guesses <= ATTEMPT_BUDGET {
        GameStatus::Solved
    } else if observed == all_correct() || guesses > ATTEMPT_BUDGET {
        GameStatus::Exhausted
    } else {
        GameStatus::Guessing
    }
}

impl Game {
    /// The count of guesses fits the status: a game that goes on has budget
    /// left, a solved one stayed within it, an exhausted one went one past it.
    pub open spec fn wf(&self) -> bool {
        &&& self.status is Guessing ==> 0 <= self.guesses <= ATTEMPT_BUDGET
        &&& self.status is Solved ==> 1 <= self.guesses <= ATTEMPT_BUDGET
        &&& self.status is Exhausted ==> self.guesses == ATTEMPT_BUDGET + 1
    }

    /// Starts a game on the full pool, with no guess made.
    pub fn new(allowed_words: &[Entry]) -> (game: Game)
        ensures
            game.candidates@ == allowed_words@,
            game.guesses == 0,
            game.status == GameStatus::Guessing,
            game.wf(),
    {
        Game { candidates: slice_to_vec(allowed_words), guesses: 0, status: GameStatus::Guessing }
    }

    /// Plays one turn: scores `guess` against `secret`, counts the guess,
    /// reduces the pool by the observed pattern and settles the status.
    pub fn play(&mut self, secret: &[u8; 5], guess: &[u8; 5])
        requires
            old(self).wf(),
            old(self).status is Guessing,
        ensures
            final(self).candidates@ == reduce(
                old(self).candidates@,
                guess@,
                score(guess@, secret@),
            ),
            final(self).guesses == old(self).guesses + 1,
            final(self).status == status_after(score(guess@, secret@), old(self).guesses + 1),
            final(self).wf(),
    {
        let observed = calculate_pattern(guess, secret);
        let reduced = reduce_allowed_words(self.candidates.as_slice(), guess, observed);
        self.candidates = reduced;
        self.guesses = self.guesses + 1;
        let found = is_all_correct(&observed);
        if found && self.guesses <= ATTEMPT_BUDGET {
            self.status = GameStatus::Solved;
        } else if found || self.guesses > ATTEMPT_BUDGET {
            self.status = GameStatus::Exhausted;
        }
    }
}

/// `outcome` is a possible end of a game that has taken `taken` guesses and
/// is about to choose the next one from `pool`: either no guess can be
/// chosen, and the game fails for that reason, or one is chosen, and the game
/// may end that way once it is played.
pub open spec fn may_go_on<F: Fn(&[u64; 243], u64) -> u64>(
    entropy_rank: &F,
    pool: Seq<Entry>,
    secret: Seq<u8>,
    taken: int,
    outcome: Result<(bool, i32), SolverError>,
) -> bool
    decreases ATTEMPT_BUDGET + 1 - taken, 1int,
{
    exists|next: Result<[u8; 5], SolverError>|
        #[trigger] is_best_guess(entropy_rank, pool, next) && match next {
            Ok(guess) => taken <= ATTEMPT_BUDGET && may_end(
                entropy_rank,
                pool,
                secret,
                guess@,
                taken,
                outcome,
            ),
            Err(error) => outcome == Err::<(bool, i32), SolverError>(error),
        }
}

/// `outcome` is a possible end of a game that has taken `taken` guesses and
/// now plays `guess` on `pool`: the guess is scored and counted and the pool
/// reduced; a solved game reports a win and an exhausted one a loss, each
/// with the guesses made, and any other game goes on.
pub open spec fn may_end<F: Fn(&[u64; 243], u64) -> u64>(
    entropy_rank: &F,
    pool: Seq<Entry>,
    secret: Seq<u8>,
    guess: Seq<u8>,
    taken: int,
    outcome: Result<(bool, i32), SolverError>,
) -> bool
    decreases ATTEMPT_BUDGET + 1 - taken, 0int,
{
    let observed = score(guess, secret);
    match status_after(observed, taken + 1) {
        GameStatus::Solved => outcome == Ok::<(bool, i32), SolverError>(
            (true, (taken + 1) as i32),
        ),
        GameStatus::Exhausted => outcome == Ok::<(bool, i32), SolverError>(
            (false, (taken + 1) as i32),
        ),
        GameStatus::Guessing => may_go_on(
            entropy_rank,
            reduce(pool, guess, observed),
            secret,
            taken + 1,
            outcome,
        ),
    }
}

/// With a ranking function that answers once, a game is settled by the pool,
/// the secret and the guess it plays: it has one possible end.
pub proof fn lemma_game_is_settled<F: Fn(&[u64; 243], u64) -> u64>(
    entropy_rank: &F,
    pool: Seq<Entry>,
    secret: Seq<u8>,
    guess: Seq<u8>,
    taken: int,
    one: Result<(bool, i32), SolverError>,
    other: Result<(bool, i32), SolverError>,
)
    requires
        answers_once(entropy_rank),
        may_end(entropy_rank, pool, secret, guess, taken, one),
        may_end(entropy_rank, pool, secret, guess, taken, other),
    ensures
        one == other,
    decreases ATTEMPT_BUDGET + 1 - taken,
{
    let observed = score(guess, secret);
    if status_after(observed, taken + 1) is Guessing {
        let left = reduce(pool, guess, observed);
        let next = choose|next: Result<[u8; 5], SolverError>|
            #[trigger] is_best_guess(entropy_rank, left, next) && match next {
                Ok(word) => taken + 1 <= ATTEMPT_BUDGET && may_end(
                    entropy_rank,
                    left,
                    secret,
                    word@,
                    taken + 1,
                    one,
                ),
                Err(error) => one == Err::<(bool, i32), SolverError>(error),
            };
        let next2 = choose|next: Result<[u8; 5], SolverError>|
            #[trigger] is_best_guess(entropy_rank, left, next) && match next {
                Ok(word) => taken + 1 <= ATTEMPT_BUDGET && may_end(
                    entropy_rank,
                    left,
                    secret,
                    word@,
                    taken + 1,
                    other,
                ),
                Err(error) => other == Err::<(bool, i32), SolverError>(error),
            };
        lemma_best_guess_is_settled(entropy_rank, left, next, next2);
        match next {
            Ok(word) => {
                lemma_game_is_settled(entropy_rank, left, secret, word@, taken + 1, one, other);
            },
            Err(_) => {},
        }
    }
}

/// Plays a whole game against `secret`.
///
/// The first guess is `initial_guess`; every later one is the best guess of
/// the pool that is left, ranked by `entropy_rank`. The result tells whether
/// the game was solved, and how many guesses were made.
///
/// A game takes at most one guess more than the budget. One whose secret is
/// in the pool never runs out of candidates, and needs at most one guess per
/// candidate that the first guess leaves.
pub fn simulate_game<F: Fn(&[u64; 243], u64) -> u64>(
    allowed_words: &[Entry],
    secret: &[u8; 5],
    initial_guess: &[u8; 5],
    entropy_rank: &F,
) -> (outcome: Result<(bool, i32), SolverError>)
    requires
        total_weight(allowed_words@) <= u64::MAX,
        forall|histogram: &[u64; 243], total: u64|
            total > 0 ==> call_requires(*entropy_rank, (histogram, total)),
    ensures
        may_end(entropy_rank, allowed_words@, secret@, initial_guess@, 0, outcome),
        initial_guess@ == secret@ ==> outcome == Ok::<(bool, i32), SolverError>((true, 1)),
        outcome matches Ok((solved, guesses)) ==> {
            &&& 1 <= guesses <= ATTEMPT_BUDGET + 1
            &&& solved == (guesses <= ATTEMPT_BUDGET)
            &&& has_word(allowed_words@, secret@) ==> guesses <= 1 + reduce(
                allowed_words@,
                initial_guess@,
                score(initial_guess@, secret@),
            ).len()
        },
        outcome == Err::<(bool, i32), SolverError>(SolverError::EmptyPool) ==> !has_word(
            allowed_words@,
            secret@,
        ),
        outcome == Err::<(bool, i32), SolverError>(SolverError::ZeroWeight) ==> !all_weighted(
            allowed_words@,
        ),
        has_word(allowed_words@, secret@) && all_weighted(allowed_words@) && reduce(
            allowed_words@,
            initial_guess@,
            score(initial_guess@, secret@),
        ).len() < ATTEMPT_BUDGET ==> (outcome matches Ok((solved, _)) && solved),
{
    let mut game = Game::new(allowed_words);
    let ghost first = reduce(allowed_words@, initial_guess@, score(initial_guess@, secret@));
    proof {
        lemma_reduce_shrinks(allowed_words@, initial_guess@, score(initial_guess@, secret@));
        lemma_all_correct_means_equal(initial_guess@, secret@);
        if has_word(allowed_words@, secret@) {
            lemma_reduce_keeps_secret(allowed_words@, initial_guess@, secret@);
        }
    }
    game.play(secret, initial_guess);
    while game.status == GameStatus::Guessing
        invariant
            game.wf(),
            1 <= game.guesses,
            total_weight(game.candidates@) <= total_weight(allowed_words@) <= u64::MAX,
            all_weighted(allowed_words@) ==> all_weighted(game.candidates@),
            has_word(allowed_words@, secret@) ==> has_word(game.candidates@, secret@),
            has_word(allowed_words@, secret@) ==> game.guesses <= 1 + first.len(),
            has_word(allowed_words@, secret@) && game.status is Guessing ==> game.candidates@.len()
                + game.guesses <= 1 + first.len(),
            initial_guess@ == secret@ ==> game.status == GameStatus::Solved && game.guesses == 1,
            game.status is Guessing ==> forall|end: Result<(bool, i32), SolverError>| #[trigger]
                may_go_on(entropy_rank, game.candidates@, secret@, game.guesses as int, end)
                    ==> may_end(entropy_rank, allowed_words@, secret@, initial_guess@, 0, end),
            !(game.status is Guessing) ==> may_end(
                entropy_rank,
                allowed_words@,
                secret@,
                initial_guess@,
                0,
                Ok((game.status is Solved, game.guesses)),
            ),
            forall|histogram: &[u64; 243], total: u64|
                total > 0 ==> call_requires(*entropy_rank, (histogram, total)),
        decreases ATTEMPT_BUDGET + 1 - game.guesses,
    {
        let ghost before = game.candidates@;
        let ghost taken = game.guesses as int;
        proof {
            if all_weighted(before) && before.len() > 0 {
                lemma_weighted_pool_has_weight(before);
            }
        }
        let guess = match best_guess(game.candidates.as_slice(), entropy_rank) {
            Ok(guess) => guess,
            Err(error) => {
                assert(may_go_on(entropy_rank, before, secret@, taken, Err(error))) by {
                    assert(is_best_guess(entropy_rank, before, Err(error)));
                }
                return Err(error);
            },
        };
        proof {
            lemma_reduce_shrinks(before, guess@, score(guess@, secret@));
            lemma_all_correct_means_equal(guess@, secret@);
            if has_word(allowed_words@, secret@) {
                lemma_reduce_keeps_secret(before, guess@, secret@);
                if guess@ != secret@ {
                    lemma_wrong_guess_leaves(before, guess@, secret@);
                }
            }
        }
        game.play(secret, &guess);
        proof {
            assert forall|end: Result<(bool, i32), SolverError>|
                may_end(entropy_rank, before, secret@, guess@, taken, end) implies may_end(
                entropy_rank,
                allowed_words@,
                secret@,
                initial_guess@,
                0,
                end,
            ) by {
                assert(is_best_guess(entropy_rank, before, Ok(guess)));
                assert(may_go_on(entropy_rank, before, secret@, taken, end));
            }
            if game.status is Guessing {
                assert forall|end: Result<(bool, i32), SolverError>| #[trigger]
                    may_go_on(
                        entropy_rank,
                        game.candidates@,
                        secret@,
                        taken + 1,
                        end,
                    ) implies may_end(
                    entropy_rank,
                    allowed_words@,
                    secret@,
                    initial_guess@,
                    0,
                    end,
                ) by {
                    assert(may_end(entropy_rank, before, secret@, guess@, taken, end));
                }
            } else {
                assert(may_end(
                    entropy_rank,
                    before,
                    secret@,
                    guess@,
                    taken,
                    Ok((game.status is Solved, game.guesses)),
                ));
            }
        }
    }
    Ok((game.status == GameStatus::Solved, game.guesses))
}

} // verus!
