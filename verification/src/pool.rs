//! Candidate pools: the words still consistent with all feedback so far.
//!
//! A pool is a sequence of entries, each a word with its weight. Reducing a
//! pool never changes it in place: it yields the pool of the entries that
//! would have produced the observed pattern.
use crate::pattern::{
    all_correct, calculate_pattern, is_word, same_letters, score, CORRECT, WORD_LEN,
};
use vstd::prelude::*;

verus! {

/// One candidate: a word and its weight.
pub type Entry = ([u8; 5], u64);

/// The test that reduction applies to an entry: would this word, as the
/// secret, have answered `guess` with `observed`?
pub open spec fn consistent_with(guess: Seq<u8>, observed: Seq<u8>) -> spec_fn(Entry) -> bool {
    |entry: Entry| score(guess, entry.0@) == observed
}

/// The pool that is left of `pool` once `guess` was answered with `observed`:
/// the consistent entries, in their old order and with their old weights.
pub open spec fn reduce(pool: Seq<Entry>, guess: Seq<u8>, observed: Seq<u8>) -> Seq<Entry> {
    pool.filter(consistent_with(guess, observed))
}

/// The sum of the weights of a pool.
pub open spec fn total_weight(pool: Seq<Entry>) -> int
    decreases pool.len(),
{
    if pool.len() == 0 {
        0
    } else {
        total_weight(pool.drop_last()) + pool.last().1
    }
}

/// Some entry of the pool holds `word`.
pub open spec fn has_word(pool: Seq<Entry>, word: Seq<u8>) -> bool {
    exists|i: int| 0 <= i < pool.len() && (#[trigger] pool[i]).0@ == word
}

/// Every entry of the pool has a weight above zero.
pub open spec fn all_weighted(pool: Seq<Entry>) -> bool {
    forall|i: int| 0 <= i < pool.len() ==> (#[trigger] pool[i]).1 > 0
}

/// Every entry of `part` is an entry of `whole`.
pub open spec fn drawn_from(part: Seq<Entry>, whole: Seq<Entry>) -> bool {
    forall|i: int| 0 <= i < part.len() ==> whole.contains(#[trigger] part[i])
}

/// Filtering one entry more: the filtered prefix grows by that entry if it
/// passes, and stays as it is if not.
pub proof fn lemma_filter_step<A>(s: Seq<A>, pred: spec_fn(A) -> bool, i: int)
    requires
        0 <= i < s.len(),
    ensures
        s.take(i + 1).filter(pred) == if pred(s[i]) {
            s.take(i).filter(pred).push(s[i])
        } else {
            s.take(i).filter(pred)
        },
{
    reveal(Seq::filter);
    assert(s.take(i + 1).drop_last() =~= s.take(i));
}

/// The weight of a pool is never negative.
pub proof fn lemma_total_weight_nonnegative(pool: Seq<Entry>)
    ensures
        0 <= total_weight(pool),
    decreases pool.len(),
{
    if pool.len() > 0 {
        lemma_total_weight_nonnegative(pool.drop_last());
    }
}

/// A pool of positive weights that is not empty has a positive total.
pub proof fn lemma_weighted_pool_has_weight(pool: Seq<Entry>)
    requires
        all_weighted(pool),
        pool.len() > 0,
    ensures
        total_weight(pool) > 0,
{
    lemma_total_weight_nonnegative(pool.drop_last());
    assert(pool[pool.len() - 1].1 > 0);
}

/// Reduction monotonicity: a reduced pool is never larger than the pool it
/// came from, nor heavier, and holds nothing that the pool did not hold.
pub proof fn lemma_reduce_shrinks(pool: Seq<Entry>, guess: Seq<u8>, observed: Seq<u8>)
    ensures
        reduce(pool, guess, observed).len() <= pool.len(),
        total_weight(reduce(pool, guess, observed)) <= total_weight(pool),
        drawn_from(reduce(pool, guess, observed), pool),
        all_weighted(pool) ==> all_weighted(reduce(pool, guess, observed)),
    decreases pool.len(),
{
    let pred = consistent_with(guess, observed);
    reveal(Seq::filter);
    if pool.len() > 0 {
        let rest = pool.drop_last();
        lemma_reduce_shrinks(rest, guess, observed);
        let kept = reduce(pool, guess, observed);
        let kept_rest = reduce(rest, guess, observed);
        if pred(pool.last()) {
            assert(kept =~= kept_rest.push(pool.last()));
            assert(kept.drop_last() =~= kept_rest);
        } else {
            assert(kept =~= kept_rest);
        }
        assert forall|i: int| 0 <= i < kept.len() implies pool.contains(#[trigger] kept[i]) by {
            if i < kept_rest.len() {
                assert(rest.contains(kept_rest[i]));
                let k = choose|k: int| 0 <= k < rest.len() && rest[k] == kept_rest[i];
                assert(pool[k] == kept[i]);
            } else {
                assert(pool[pool.len() - 1] == kept[i]);
            }
        }
        if all_weighted(pool) {
            assert forall|i: int| 0 <= i < kept.len() implies (#[trigger] kept[i]).1 > 0 by {
                let k = choose|k: int| 0 <= k < pool.len() && pool[k] == kept[i];
                assert(pool[k].1 > 0);
            }
        }
    }
}

/// Every entry of a reduced pool is consistent with the observation, and
/// every consistent entry of the pool is in the reduced pool.
pub proof fn lemma_reduce_keeps_exactly(pool: Seq<Entry>, guess: Seq<u8>, observed: Seq<u8>)
    ensures
        forall|i: int|
            0 <= i < reduce(pool, guess, observed).len() ==> score(
                guess,
                (#[trigger] reduce(pool, guess, observed)[i]).0@,
            ) == observed,
        forall|i: int|
            0 <= i < pool.len() && score(guess, (#[trigger] pool[i]).0@) == observed ==> reduce(
                pool,
                guess,
                observed,
            ).contains(pool[i]),
{
    let pred = consistent_with(guess, observed);
    broadcast use vstd::seq_lib::group_filter_ensures;
    let kept = reduce(pool, guess, observed);
    assert forall|i: int| 0 <= i < kept.len() implies score(guess, (#[trigger] kept[i]).0@)
        == observed by {
        assert(pred(kept[i]));
    }
    assert forall|i: int|
        0 <= i < pool.len() && score(guess, (#[trigger] pool[i]).0@)
            == observed implies kept.contains(pool[i]) by {
        assert(pred(pool[i]));
    }
}

/// Reduction idempotence: reducing a reduced pool once more by the same guess
/// and the same observation changes nothing.
pub proof fn lemma_reduce_idempotent(pool: Seq<Entry>, guess: Seq<u8>, observed: Seq<u8>)
    ensures
        reduce(reduce(pool, guess, observed), guess, observed) == reduce(pool, guess, observed),
    decreases pool.len(),
{
    let pred = consistent_with(guess, observed);
    reveal(Seq::filter);
    if pool.len() > 0 {
        let rest = pool.drop_last();
        lemma_reduce_idempotent(rest, guess, observed);
        let kept_rest = reduce(rest, guess, observed);
        if pred(pool.last()) {
            let kept = kept_rest.push(pool.last());
            assert(reduce(pool, guess, observed) =~= kept);
            assert(kept.drop_last() =~= kept_rest);
            assert(reduce(kept, guess, observed) =~= kept);
        } else {
            assert(reduce(pool, guess, observed) =~= kept_rest);
        }
    }
}

/// The true secret survives every reduction by a pattern that it produced: a
/// pool that holds the secret still holds it after the reduction.
pub proof fn lemma_reduce_keeps_secret(pool: Seq<Entry>, guess: Seq<u8>, secret: Seq<u8>)
    requires
        has_word(pool, secret),
    ensures
        has_word(reduce(pool, guess, score(guess, secret)), secret),
{
    let observed = score(guess, secret);
    let kept = reduce(pool, guess, observed);
    let i = choose|i: int| 0 <= i < pool.len() && (#[trigger] pool[i]).0@ == secret;
    lemma_reduce_keeps_exactly(pool, guess, observed);
    assert(kept.contains(pool[i]));
    let k = choose|k: int| 0 <= k < kept.len() && kept[k] == pool[i];
    assert(kept[k].0@ == secret);
}

/// Only the secret itself is answered with the all-correct pattern.
pub proof fn lemma_all_correct_means_equal(guess: Seq<u8>, secret: Seq<u8>)
    requires
        is_word(guess),
        is_word(secret),
    ensures
        score(guess, secret) == all_correct() <==> guess == secret,
{
    if score(guess, secret) == all_correct() {
        assert forall|i: int| 0 <= i < WORD_LEN implies guess[i] == secret[i] by {
            assert(score(guess, secret)[i] == CORRECT);
        }
        assert(guess =~= secret);
    }
    if guess == secret {
        assert(score(guess, secret) =~= all_correct());
    }
}

/// A wrong guess taken from the pool leaves the pool: reducing by its
/// pattern yields a strictly smaller pool.
pub proof fn lemma_wrong_guess_leaves(pool: Seq<Entry>, guess: Seq<u8>, secret: Seq<u8>)
    requires
        has_word(pool, guess),
        is_word(secret),
        guess != secret,
    ensures
        reduce(pool, guess, score(guess, secret)).len() < pool.len(),
{
    let observed = score(guess, secret);
    let pred = consistent_with(guess, observed);
    let i = choose|i: int| 0 <= i < pool.len() && (#[trigger] pool[i]).0@ == guess;
    lemma_all_correct_means_equal(guess, secret);
    lemma_all_correct_means_equal(guess, guess);
    assert(!pred(pool[i]));
    lemma_filter_drops(pool, pred, i);
}

/// A sequence with an element that fails the test gets shorter when filtered.
pub proof fn lemma_filter_drops<A>(s: Seq<A>, pred: spec_fn(A) -> bool, i: int)
    requires
        0 <= i < s.len(),
        !pred(s[i]),
    ensures
        s.filter(pred).len() < s.len(),
    decreases s.len(),
{
    reveal(Seq::filter);
    let rest = s.drop_last();
    rest.lemma_filter_len(pred);
    if i < s.len() - 1 {
        lemma_filter_drops(rest, pred, i);
    }
}

/// Keeps exactly the entries of the pool that would have answered `guess`
/// with `pattern`, in their order and with their weights.
pub fn reduce_allowed_words(allowed_words: &[Entry], guess: &[u8; 5], pattern: [u8; 5]) -> (reduced:
    Vec<Entry>)
    ensures
        reduced@ == reduce(allowed_words@, guess@, pattern@),
{
    let mut reduced: Vec<Entry> = Vec::new();
    let mut i: usize = 0;
    assert(allowed_words@.take(0).filter(consistent_with(guess@, pattern@)) =~= Seq::empty()) by {
        reveal(Seq::filter);
    }
    while i < allowed_words.len()
        invariant
            i <= allowed_words.len(),
            reduced@ == allowed_words@.take(i as int).filter(consistent_with(guess@, pattern@)),
        decreases allowed_words.len() - i,
    {
        let (word, weight) = allowed_words[i];
        let observed = calculate_pattern(guess, &word);
        proof {
            lemma_filter_step(allowed_words@, consistent_with(guess@, pattern@), i as int);
        }
        if same_letters(&observed, &pattern) {
            reduced.push((word, weight));
        }
        i += 1;
    }
    assert(allowed_words@.take(i as int) =~= allowed_words@);
    reduced
}

/// Adds up the weights of a pool, or reports that the sum does not fit.
pub fn pool_weight(allowed_words: &[Entry]) -> (total: Option<u64>)
    ensures
        match total {
            Some(sum) => sum == total_weight(allowed_words@),
            None => total_weight(allowed_words@) > u64::MAX,
        },
{
    let mut sum: u64 = 0;
    let mut i: usize = 0;
    assert(allowed_words@.take(0) =~= Seq::empty());
    while i < allowed_words.len()
        invariant
            i <= allowed_words.len(),
            sum == total_weight(allowed_words@.take(i as int)),
        decreases allowed_words.len() - i,
    {
        let (_, weight) = allowed_words[i];
        proof {
            assert(allowed_words@.take(i + 1).drop_last() =~= allowed_words@.take(i as int));
            lemma_total_weight_prefix(allowed_words@, i + 1);
        }
        match sum.checked_add(weight) {
            Some(next) => {
                sum = next;
            },
            None => {
                return None;
            },
        }
        i += 1;
    }
    assert(allowed_words@.take(i as int) =~= allowed_words@);
    Some(sum)
}

/// A prefix of a pool weighs no more than the pool.
pub proof fn lemma_total_weight_prefix(pool: Seq<Entry>, upto: int)
    requires
        0 <= upto <= pool.len(),
    ensures
        total_weight(pool.take(upto)) <= total_weight(pool),
    decreases pool.len() - upto,
{
    if upto < pool.len() {
        lemma_total_weight_prefix(pool, upto + 1);
        assert(pool.take(upto + 1).drop_last() =~= pool.take(upto));
    } else {
        assert(pool.take(upto) =~= pool);
    }
}

} // verus!
