//! Ranking candidate guesses by the information they are expected to reveal.
//!
//! Scoring every entry of a pool against one candidate splits the pool into
//! buckets, one per feedback pattern. The entropy of that split is a real
//! number; this library works on integers only, so the caller supplies the
//! function that turns a histogram into a rank: any number that is larger for
//! a larger entropy. Everything around that call is fixed here: which
//! histogram is handed over, and which candidate wins.
use crate::pattern::{
    calculate_pattern, lemma_pattern_code_round_trip, pattern_code, pattern_index, score,
    PATTERN_COUNT,
};
use crate::pool::{has_word, lemma_total_weight_prefix, pool_weight, total_weight, Entry};
use vstd::prelude::*;

verus! {

/// What can go wrong while ranking: both are signs of a pool that broke its
/// invariants, not of bad input files.
#[derive(Clone, Copy, Debug, PartialEq, Eq, Structural)]
pub enum SolverError {
    /// No candidate is left to choose from.
    EmptyPool,
    /// Several candidates are left, but their weights add up to zero.
    ZeroWeight,
}

/// The weight of one bucket: the sum of the weights of the entries that
/// answer `guess` with the pattern of code `code`.
pub open spec fn bucket_weight(pool: Seq<Entry>, guess: Seq<u8>, code: int) -> int
    decreases pool.len(),
{
    if pool.len() == 0 {
        0
    } else {
        bucket_weight(pool.drop_last(), guess, code) + if pattern_code(
            score(guess, pool.last().0@),
        ) == code {
            pool.last().1 as int
        } else {
            0
        }
    }
}

/// `histogram` is the split of `pool` that `guess` induces: one bucket per
/// pattern code, each holding its bucket's weight.
pub open spec fn is_histogram(histogram: Seq<u64>, pool: Seq<Entry>, guess: Seq<u8>) -> bool {
    &&& histogram.len() == PATTERN_COUNT
    &&& forall|code: int|
        0 <= code < PATTERN_COUNT ==> #[trigger] histogram[code] == bucket_weight(pool, guess, code)
}

/// The weight of the buckets with a code below `upto`, added up.
pub open spec fn buckets_total(pool: Seq<Entry>, guess: Seq<u8>, upto: int) -> int
    decreases upto,
{
    if upto <= 0 {
        0
    } else {
        buckets_total(pool, guess, upto - 1) + bucket_weight(pool, guess, upto - 1)
    }
}

/// `best` is the first position of `ranks` that holds their maximum: every
/// earlier rank is strictly smaller, no later rank is larger.
pub open spec fn is_first_best(ranks: Seq<u64>, best: int) -> bool {
    &&& 0 <= best < ranks.len()
    &&& forall|j: int| 0 <= j < best ==> #[trigger] ranks[j] < ranks[best]
    &&& forall|j: int| best <= j < ranks.len() ==> #[trigger] ranks[j] <= ranks[best]
}

/// A bucket is never negative and never heavier than the pool.
pub proof fn lemma_bucket_weight_bounds(pool: Seq<Entry>, guess: Seq<u8>, code: int)
    ensures
        0 <= bucket_weight(pool, guess, code) <= total_weight(pool),
    decreases pool.len(),
{
    if pool.len() > 0 {
        lemma_bucket_weight_bounds(pool.drop_last(), guess, code);
    }
}

/// The buckets of a histogram share out the whole pool: their weights add up
/// to the weight of the pool.
pub proof fn lemma_buckets_cover_pool(pool: Seq<Entry>, guess: Seq<u8>)
    ensures
        buckets_total(pool, guess, PATTERN_COUNT as int) == total_weight(pool),
    decreases pool.len(),
{
    if pool.len() == 0 {
        lemma_empty_buckets(pool, guess, PATTERN_COUNT as int);
    } else {
        let rest = pool.drop_last();
        let code = pattern_code(score(guess, pool.last().0@));
        lemma_buckets_cover_pool(rest, guess);
        lemma_pattern_code_round_trip(score(guess, pool.last().0@));
        lemma_buckets_step(pool, guess, PATTERN_COUNT as int);
    }
}

proof fn lemma_empty_buckets(pool: Seq<Entry>, guess: Seq<u8>, upto: int)
    requires
        pool.len() == 0,
    ensures
        buckets_total(pool, guess, upto) == 0,
    decreases upto,
{
    if upto > 0 {
        lemma_empty_buckets(pool, guess, upto - 1);
    }
}

proof fn lemma_buckets_step(pool: Seq<Entry>, guess: Seq<u8>, upto: int)
    requires
        pool.len() > 0,
        0 <= upto,
    ensures
        buckets_total(pool, guess, upto) == buckets_total(pool.drop_last(), guess, upto) + if 0
            <= pattern_code(score(guess, pool.last().0@)) < upto {
            pool.last().1 as int
        } else {
            0
        },
    decreases upto,
{
    if upto > 0 {
        lemma_buckets_step(pool, guess, upto - 1);
    }
}

/// At most one position is the first best of a sequence of ranks.
pub proof fn lemma_first_best_unique(ranks: Seq<u64>, a: int, b: int)
    requires
        is_first_best(ranks, a),
        is_first_best(ranks, b),
    ensures
        a == b,
{
    if a < b {
        assert(ranks[a] < ranks[b]);
        assert(ranks[b] <= ranks[a]);
    } else if b < a {
        assert(ranks[b] < ranks[a]);
        assert(ranks[a] <= ranks[b]);
    }
}

/// Splits the pool by the pattern that each entry answers `guess` with, and
/// adds up the weights bucket by bucket.
pub fn pattern_histogram(guess: &[u8; 5], allowed_words: &[Entry]) -> (histogram: [u64; 243])
    requires
        total_weight(allowed_words@) <= u64::MAX,
    ensures
        is_histogram(histogram@, allowed_words@, guess@),
{
    let mut histogram: [u64; 243] = [0;243];
    let mut i: usize = 0;
    assert(allowed_words@.take(0) =~= Seq::empty());
    while i < allowed_words.len()
        invariant
            i <= allowed_words.len(),
            total_weight(allowed_words@) <= u64::MAX,
            is_histogram(histogram@, allowed_words@.take(i as int), guess@),
        decreases allowed_words.len() - i,
    {
        let (word, weight) = allowed_words[i];
        let pattern = calculate_pattern(guess, &word);
        let index = pattern_index(&pattern) as usize;
        proof {
            let before = allowed_words@.take(i as int);
            let after = allowed_words@.take(i + 1);
            assert(after.drop_last() =~= before);
            assert(after.last() == allowed_words@[i as int]);
            lemma_bucket_weight_bounds(after, guess@, index as int);
            lemma_total_weight_prefix(allowed_words@, i + 1);
        }
        histogram[index] = histogram[index] + weight;
        i += 1;
    }
    assert(allowed_words@.take(i as int) =~= allowed_words@);
    histogram
}

/// Picks among ranked candidates: the position of the largest rank, and of
/// the first one where several are largest. Nothing can be picked from an
/// empty sequence.
pub fn first_best(ranks: &[u64]) -> (best: Option<usize>)
    ensures
        ranks@.len() == 0 <==> best is None,
        best matches Some(i) ==> is_first_best(ranks@, i as int),
{
    if ranks.len() == 0 {
        return None;
    }
    let mut best: usize = 0;
    let mut i: usize = 1;
    while i < ranks.len()
        invariant
            1 <= i <= ranks.len(),
            is_first_best(ranks@.take(i as int), best as int),
        decreases ranks.len() - i,
    {
        if ranks[i] > ranks[best] {
            best = i;
        }
        i += 1;
        assert(is_first_best(ranks@.take(i as int), best as int));
    }
    assert(ranks@.take(i as int) =~= ranks@);
    Some(best)
}

/// `rank` is a possible answer of `entropy_rank` for `candidate`: the
/// function may return it when given the histogram that the candidate induces
/// on the pool, and the weight of the pool.
pub open spec fn may_rank<F: Fn(&[u64; 243], u64) -> u64>(
    entropy_rank: &F,
    pool: Seq<Entry>,
    candidate: Seq<u8>,
    rank: u64,
) -> bool {
    exists|histogram: [u64; 243]|
        #[trigger] is_histogram(histogram@, pool, candidate) && call_ensures(
            *entropy_rank,
            (&histogram, total_weight(pool) as u64),
            rank,
        )
}

/// `ranks` may be what `entropy_rank` answered for the candidates of `pool`,
/// one after the other.
pub open spec fn ranked_by<F: Fn(&[u64; 243], u64) -> u64>(
    entropy_rank: &F,
    pool: Seq<Entry>,
    ranks: Seq<u64>,
) -> bool {
    &&& ranks.len() == pool.len()
    &&& forall|i: int|
        0 <= i < pool.len() ==> may_rank(entropy_rank, pool, (#[trigger] pool[i]).0@, ranks[i])
}

/// `guess` is a possible result of choosing the next guess from `pool`.
///
/// Nothing can be chosen from an empty pool. A pool of one entry yields that
/// entry. A larger pool must have weight; its candidates are ranked by
/// `entropy_rank`, and the first of those with the largest rank is chosen.
pub open spec fn is_best_guess<F: Fn(&[u64; 243], u64) -> u64>(
    entropy_rank: &F,
    pool: Seq<Entry>,
    guess: Result<[u8; 5], SolverError>,
) -> bool {
    if pool.len() == 0 {
        guess == Err::<[u8; 5], SolverError>(SolverError::EmptyPool)
    } else if pool.len() == 1 {
        guess == Ok::<[u8; 5], SolverError>(pool[0].0)
    } else if total_weight(pool) == 0 {
        guess == Err::<[u8; 5], SolverError>(SolverError::ZeroWeight)
    } else {
        exists|ranks: Seq<u64>, best: int|
            #![trigger ranked_by(entropy_rank, pool, ranks), is_first_best(ranks, best)]
            ranked_by(entropy_rank, pool, ranks) && is_first_best(ranks, best) && guess == Ok::<
                [u8; 5],
                SolverError,
            >(pool[best].0)
    }
}

/// Every guess that is chosen from a pool is a word of the pool.
pub proof fn lemma_best_guess_is_drawn<F: Fn(&[u64; 243], u64) -> u64>(
    entropy_rank: &F,
    pool: Seq<Entry>,
    guess: Result<[u8; 5], SolverError>,
)
    requires
        is_best_guess(entropy_rank, pool, guess),
    ensures
        guess matches Ok(word) ==> has_word(pool, word@),
{
    if pool.len() == 1 {
        assert(pool[0].0@ == guess->Ok_0@);
    } else if pool.len() >= 2 && total_weight(pool) > 0 {
        let (ranks, best) = choose|ranks: Seq<u64>, best: int|
            #![trigger ranked_by(entropy_rank, pool, ranks), is_first_best(ranks, best)]
            ranked_by(entropy_rank, pool, ranks) && is_first_best(ranks, best) && guess == Ok::<
                [u8; 5],
                SolverError,
            >(pool[best].0);
        assert(pool[best].0@ == guess->Ok_0@);
    }
}

/// `entropy_rank` answers every histogram and weight with one rank only.
pub open spec fn answers_once<F: Fn(&[u64; 243], u64) -> u64>(entropy_rank: &F) -> bool {
    forall|histogram: [u64; 243], total: u64, one: u64, other: u64|
        #![trigger
            call_ensures(*entropy_rank, (&histogram, total), one),
            call_ensures(*entropy_rank, (&histogram, total), other),
        ]
        call_ensures(*entropy_rank, (&histogram, total), one) && call_ensures(
            *entropy_rank,
            (&histogram, total),
            other,
        ) ==> one == other
}

/// With a ranking function that answers once, the choice of the next guess
/// is settled by the pool: the same pool always yields the same guess.
pub proof fn lemma_best_guess_is_settled<F: Fn(&[u64; 243], u64) -> u64>(
    entropy_rank: &F,
    pool: Seq<Entry>,
    one: Result<[u8; 5], SolverError>,
    other: Result<[u8; 5], SolverError>,
)
    requires
        answers_once(entropy_rank),
        is_best_guess(entropy_rank, pool, one),
        is_best_guess(entropy_rank, pool, other),
    ensures
        one == other,
{
    if pool.len() >= 2 && total_weight(pool) != 0 {
        let (ranks, best) = choose|ranks: Seq<u64>, best: int|
            #![trigger ranked_by(entropy_rank, pool, ranks), is_first_best(ranks, best)]
            ranked_by(entropy_rank, pool, ranks) && is_first_best(ranks, best) && one == Ok::<
                [u8; 5],
                SolverError,
            >(pool[best].0);
        let (ranks2, best2) = choose|ranks: Seq<u64>, best: int|
            #![trigger ranked_by(entropy_rank, pool, ranks), is_first_best(ranks, best)]
            ranked_by(entropy_rank, pool, ranks) && is_first_best(ranks, best) && other == Ok::<
                [u8; 5],
                SolverError,
            >(pool[best].0);
        assert forall|i: int| 0 <= i < pool.len() implies ranks[i] == ranks2[i] by {
            let candidate = pool[i].0@;
            let total = total_weight(pool) as u64;
            assert(may_rank(entropy_rank, pool, candidate, ranks[i]));
            assert(may_rank(entropy_rank, pool, candidate, ranks2[i]));
            let h = choose|histogram: [u64; 243]|
                #[trigger] is_histogram(histogram@, pool, candidate) && call_ensures(
                    *entropy_rank,
                    (&histogram, total),
                    ranks[i],
                );
            let h2 = choose|histogram: [u64; 243]|
                #[trigger] is_histogram(histogram@, pool, candidate) && call_ensures(
                    *entropy_rank,
                    (&histogram, total),
                    ranks2[i],
                );
            assert(h@ =~= h2@);
            assert(h =~= h2);
        }
        assert(ranks =~= ranks2);
        lemma_first_best_unique(ranks, best, best2);
    }
}

/// Chooses the next guess among the words of the pool.
///
/// A pool of one entry answers with that entry. In a larger pool every
/// candidate is ranked by `entropy_rank`, which is given the histogram that
/// the candidate induces on the pool and the weight of the pool; the
/// candidate with the largest rank wins, the first of them if several do.
pub fn best_guess<F: Fn(&[u64; 243], u64) -> u64>(
    allowed_words: &[Entry],
    entropy_rank: &F,
) -> (guess: Result<[u8; 5], SolverError>)
    requires
        total_weight(allowed_words@) <= u64::MAX,
        forall|histogram: &[u64; 243], total: u64|
            total > 0 ==> call_requires(*entropy_rank, (histogram, total)),
    ensures
        is_best_guess(entropy_rank, allowed_words@, guess),
        guess matches Ok(word) ==> has_word(allowed_words@, word@),
{
    if allowed_words.len() == 0 {
        return Err(SolverError::EmptyPool);
    }
    if allowed_words.len() == 1 {
        proof {
            lemma_best_guess_is_drawn(entropy_rank, allowed_words@, Ok(allowed_words@[0].0));
        }
        return Ok(allowed_words[0].0);
    }
    let total = pool_weight(allowed_words).unwrap();
    if total == 0 {
        return Err(SolverError::ZeroWeight);
    }
    let mut ranks: Vec<u64> = Vec::new();
    let mut i: usize = 0;
    while i < allowed_words.len()
        invariant
            i <= allowed_words.len(),
            ranks@.len() == i,
            total == total_weight(allowed_words@),
            total > 0,
            forall|histogram: &[u64; 243], total: u64|
                total > 0 ==> call_requires(*entropy_rank, (histogram, total)),
            forall|k: int|
                0 <= k < i ==> may_rank(
                    entropy_rank,
                    allowed_words@,
                    (#[trigger] allowed_words@[k]).0@,
                    ranks@[k],
                ),
        decreases allowed_words.len() - i,
    {
        let (candidate, _) = allowed_words[i];
        let histogram = pattern_histogram(&candidate, allowed_words);
        let rank = entropy_rank(&histogram, total);
        assert(may_rank(entropy_rank, allowed_words@, candidate@, rank)) by {
            assert(is_histogram(histogram@, allowed_words@, candidate@));
        }
        ranks.push(rank);
        i += 1;
    }
    let best = first_best(ranks.as_slice()).unwrap();
    let guess = allowed_words[best].0;
    proof {
        assert(ranked_by(entropy_rank, allowed_words@, ranks@));
        assert(is_first_best(ranks@, best as int));
        lemma_best_guess_is_drawn(entropy_rank, allowed_words@, Ok(guess));
    }
    Ok(guess)
}

} // verus!
