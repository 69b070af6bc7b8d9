//! Totals over a run of simulated games.
//!
//! A run plays one game per secret. What is reported of it, the share of
//! games won and the mean number of guesses, are quotients of the totals that
//! are added up here.
use vstd::prelude::*;

verus! {

/// The totals of a run: the games played, the games won, and the guesses
/// made in all of them together.
#[derive(Clone, Copy, Debug, PartialEq, Eq, Structural)]
pub struct RunTotals {
    pub games: usize,
    pub wins: usize,
    pub guesses: i128,
}

/// The number of solved games among the outcomes.
pub open spec fn wins_of(outcomes: Seq<(bool, i32)>) -> int
    decreases outcomes.len(),
{
    if outcomes.len() == 0 {
        0
    } else {
        wins_of(outcomes.drop_last()) + if outcomes.last().0 {
            1int
        } else {
            0int
        }
    }
}

/// The number of guesses that the outcomes add up to.
pub open spec fn guesses_of(outcomes: Seq<(bool, i32)>) -> int
    decreases outcomes.len(),
{
    if outcomes.len() == 0 {
        0
    } else {
        guesses_of(outcomes.drop_last()) + outcomes.last().1
    }
}

/// No more games are won than were played, and the guesses of a run are
/// bounded by what a game can report.
pub proof fn lemma_totals_bounds(outcomes: Seq<(bool, i32)>)
    ensures
        0 <= wins_of(outcomes) <= outcomes.len(),
        outcomes.len() * i32::MIN <= guesses_of(outcomes) <= outcomes.len() * i32::MAX,
    decreases outcomes.len(),
{
    if outcomes.len() > 0 {
        lemma_totals_bounds(outcomes.drop_last());
    }
}

/// Adds up the outcomes of a run.
pub fn tally(outcomes: &[(bool, i32)]) -> (totals: RunTotals)
    ensures
        totals.games == outcomes@.len(),
        totals.wins == wins_of(outcomes@),
        totals.guesses == guesses_of(outcomes@),
{
    let mut wins: usize = 0;
    let mut guesses: i128 = 0;
    let mut i: usize = 0;
    assert(outcomes@.take(0) =~= Seq::empty());
    while i < outcomes.len()
        invariant
            i <= outcomes@.len(),
            wins == wins_of(outcomes@.take(i as int)),
            guesses == guesses_of(outcomes@.take(i as int)),
        decreases outcomes@.len() - i,
    {
        let (solved, taken) = outcomes[i];
        proof {
            assert(outcomes@.take(i + 1).drop_last() =~= outcomes@.take(i as int));
            lemma_totals_bounds(outcomes@.take(i as int));
            lemma_totals_bounds(outcomes@.take(i + 1));
        }
        if solved {
            wins = wins + 1;
        }
        guesses = guesses + taken as i128;
        i += 1;
    }
    assert(outcomes@.take(i as int) =~= outcomes@);
    RunTotals { games: outcomes.len(), wins, guesses }
}

} // verus!
