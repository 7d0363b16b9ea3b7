//! Choosing the guess that is expected to tell the most.
//!
//! The expected information of a guess is a function of its histogram over
//! the candidates. The library computes the histogram and leaves the measure
//! to a scorer that the caller hands in. Scores are unsigned keys: a greater
//! key is a better guess.

use vstd::prelude::*;
use crate::codec::MASK_COUNT;
use crate::feedback::ByteStr;
use crate::guess::{is_distribution, table_sum, Guess};

verus! {

/// Why no guess could be made, or no answer found.
#[derive(Clone, Copy, Debug, PartialEq, Eq, Structural)]
pub enum SolveError {
    /// There is no candidate left to guess.
    EmptyCandidateSet,
    /// The answer was not found within the rounds allowed.
    RoundBudgetExhausted,
}

/// Picks guesses by their scores alone, with no memory between calls.
pub struct NaiveGuesser {}

/// Whether entry `i` has the greatest score, and is the first to have it.
pub open spec fn is_first_best(scored: Seq<(ByteStr, u64)>, i: int) -> bool {
    &&& 0 <= i < scored.len()
    &&& forall|j: int| 0 <= j < scored.len() ==> (#[trigger] scored[j]).1 <= scored[i].1
    &&& forall|j: int| 0 <= j < i ==> (#[trigger] scored[j]).1 < scored[i].1
}

/// Whether the scorer accepts every histogram together with the number of
/// words it was taken over.
pub open spec fn scorer_ready<F: Fn(&[usize; 243], usize) -> u64>(scorer: F) -> bool {
    forall|table: [usize; 243], n: usize|
        table_sum(table@, MASK_COUNT as int) == n ==> #[trigger] scorer.requires((&table, n))
}

/// Whether `score` is a score that the scorer may give `guess` over `words`.
pub open spec fn may_score<F: Fn(&[usize; 243], usize) -> u64>(
    scorer: F,
    words: Seq<ByteStr>,
    guess: ByteStr,
    score: u64,
) -> bool {
    exists|table: [usize; 243]|
        is_distribution(table@, words, guess) && #[trigger] scorer.ensures(
            (&table, words.len() as usize),
            score,
        )
}

/// Whether `scored` lists the words in their order, each with a score that
/// the scorer may give it as a guess over all of them.
pub open spec fn is_scoring<F: Fn(&[usize; 243], usize) -> u64>(
    scorer: F,
    words: Seq<ByteStr>,
    scored: Seq<(ByteStr, u64)>,
) -> bool {
    &&& scored.len() == words.len()
    &&& forall|i: int|
        0 <= i < words.len() ==> (#[trigger] scored[i]).0 == words[i] && may_score(
            scorer,
            words,
            words[i],
            scored[i].1,
        )
}

/// Whether the scorer may lead to `word` as the guess over `words`.
pub open spec fn could_pick<F: Fn(&[usize; 243], usize) -> u64>(
    scorer: F,
    words: Seq<ByteStr>,
    word: ByteStr,
) -> bool {
    exists|scored: Seq<(ByteStr, u64)>, i: int|
        is_scoring(scorer, words, scored) && is_first_best(scored, i) && #[trigger] scored[i].0
            == word
}

/// Whether the scores never rise from one entry to the next.
pub open spec fn sorted_desc(scored: Seq<(ByteStr, u64)>) -> bool {
    forall|i: int, j: int| 0 <= i <= j < scored.len() ==> scored[i].1 >= scored[j].1
}

/// Whether `ranked` holds the entries of `scored`, each as often as it occurs
/// there, in an order in which the scores never rise.
pub open spec fn is_ranking(ranked: Seq<(ByteStr, u64)>, scored: Seq<(ByteStr, u64)>) -> bool {
    ranked.to_multiset() == scored.to_multiset() && sorted_desc(ranked)
}

/// The smaller of two lengths.
pub open spec fn min_len(a: int, b: int) -> int {
    if a <= b {
        a
    } else {
        b
    }
}

/// How many of the first `n` words would have drawn the verdicts of `guess`.
pub open spec fn fit_count(words: Seq<ByteStr>, guess: Guess, n: int) -> nat
    decreases n,
{
    if n <= 0 {
        0
    } else {
        fit_count(words, guess, n - 1) + if guess.fits(words[n - 1]) {
            1nat
        } else {
            0nat
        }
    }
}

/// No more words fit than were looked at.
pub proof fn lemma_fit_count_bound(words: Seq<ByteStr>, guess: Guess, n: int)
    requires
        0 <= n,
    ensures
        fit_count(words, guess, n) <= n,
    decreases n,
{
    if n > 0 {
        lemma_fit_count_bound(words, guess, n - 1);
    }
}

/// A guess narrows the words it was played over to those that fit its
/// verdicts: `kept` of `total`. The information gained is the binary
/// logarithm of `total / kept`.
#[derive(Clone, Copy, Debug, PartialEq, Eq, Structural)]
pub struct Narrowing {
    pub kept: usize,
    pub total: usize,
}

/// Only one entry is the first with the greatest score.
pub proof fn lemma_first_best_unique(scored: Seq<(ByteStr, u64)>, i: int, j: int)
    requires
        is_first_best(scored, i),
        is_first_best(scored, j),
    ensures
        i == j,
{
    if i < j {
        assert(scored[i].1 < scored[j].1);
    }
    if j < i {
        assert(scored[j].1 < scored[i].1);
    }
}

impl NaiveGuesser {
    /// A guesser. It holds nothing: every call stands alone.
    pub fn new() -> (r: Self) {
        NaiveGuesser {  }
    }

    /// The word with the greatest score; among several, the first.
    pub fn pick_best(&self, scored: &[(ByteStr, u64)]) -> (r: Result<ByteStr, SolveError>)
        ensures
            match r {
                Ok(word) => exists|i: int| is_first_best(scored@, i) && scored[i].0 == word,
                Err(e) => e == SolveError::EmptyCandidateSet && scored.len() == 0,
            },
    {
        if scored.len() == 0 {
            return Err(SolveError::EmptyCandidateSet);
        }
        let mut best: usize = 0;
        let mut i: usize = 1;
        while i < scored.len()
            invariant
                1 <= i <= scored.len(),
                is_first_best(scored@.take(i as int), best as int),
            decreases scored.len() - i,
        {
            if scored[i].1 > scored[best].1 {
                best = i;
            }
            i += 1;
            assert(is_first_best(scored@.take(i as int), best as int)) by {
                let before = scored@.take(i as int - 1);
                let now = scored@.take(i as int);
                assert forall|j: int| 0 <= j < now.len() implies (#[trigger] now[j]).1
                    <= now[best as int].1 by {
                    if j < i - 1 {
                        assert(before[j] == now[j]);
                    }
                }
                assert forall|j: int| 0 <= j < best implies (#[trigger] now[j]).1
                    < now[best as int].1 by {
                    assert(before[j] == now[j]);
                }
            }
        }
        assert(scored@.take(scored.len() as int) =~= scored@);
        Ok(scored[best].0)
    }

    /// The entries of `scored` from the greatest score down.
    pub fn rank(&self, scored: &[(ByteStr, u64)]) -> (ranked: Vec<(ByteStr, u64)>)
        ensures
            is_ranking(ranked@, scored@),
            ranked.len() == scored.len(),
    {
        let mut ranked: Vec<(ByteStr, u64)> = Vec::new();
        let mut i: usize = 0;
        assert(scored@.take(0) =~= ranked@);
        while i < scored.len()
            invariant
                i <= scored.len(),
                ranked@.to_multiset() == scored@.take(i as int).to_multiset(),
                ranked.len() == i,
                sorted_desc(ranked@),
            decreases scored.len() - i,
        {
            let entry: (ByteStr, u64) = scored[i];
            let mut at: usize = 0;
            while at < ranked.len() && ranked[at].1 >= entry.1
                invariant
                    at <= ranked.len(),
                    forall|j: int| 0 <= j < at ==> ranked[j].1 >= entry.1,
                decreases ranked.len() - at,
            {
                at += 1;
            }
            proof {
                assert(scored@.take(i as int + 1) =~= scored@.take(i as int).push(entry));
                vstd::seq_lib::to_multiset_build(scored@.take(i as int), entry);
                vstd::seq_lib::to_multiset_insert(ranked@, at as int, entry);
            }
            ranked.insert(at, entry);
            i += 1;
        }
        assert(scored@.take(scored.len() as int) =~= scored@);
        ranked
    }

    /// The `k` entries of `scored` with the greatest scores, from the greatest
    /// down; all of them where there are no more than `k`.
    pub fn top_k(&self, scored: &[(ByteStr, u64)], k: usize) -> (best: Vec<(ByteStr, u64)>)
        ensures
            exists|ranked: Seq<(ByteStr, u64)>| #[trigger]
                is_ranking(ranked, scored@) && best@ == ranked.take(
                    min_len(k as int, scored.len() as int),
                ),
            best.len() == min_len(k as int, scored.len() as int),
            sorted_desc(best@),
    {
        let mut best = self.rank(scored);
        let ghost ranked = best@;
        best.truncate(k);
        assert(is_ranking(ranked, scored@) && best@ == ranked.take(
            min_len(k as int, scored.len() as int),
        ));
        best
    }

    /// How many of `words` fit the verdicts that `guess` drew, and of how
    /// many.
    pub fn guess_information(&self, words: &[ByteStr], guess: &Guess) -> (r: Narrowing)
        ensures
            r.kept == fit_count(words@, *guess, words.len() as int),
            r.total == words.len(),
            r.kept <= r.total,
    {
        let mut kept: usize = 0;
        let mut i: usize = 0;
        while i < words.len()
            invariant
                i <= words.len(),
                kept == fit_count(words@, *guess, i as int),
                kept <= i,
            decreases words.len() - i,
        {
            if guess.matches(&words[i]) {
                kept += 1;
            }
            i += 1;
        }
        Narrowing { kept, total: words.len() }
    }

    /// The ten candidates that the scorer rates highest as guesses over the
    /// candidates, with their scores, best first.
    pub fn calc_best_guesses<F: Fn(&[usize; 243], usize) -> u64>(
        &self,
        words: &[ByteStr],
        scorer: &F,
    ) -> (best: Vec<(ByteStr, u64)>)
        requires
            scorer_ready(*scorer),
        ensures
            exists|scored: Seq<(ByteStr, u64)>, ranked: Seq<(ByteStr, u64)>|
                is_scoring(*scorer, words@, scored) && #[trigger] is_ranking(ranked, scored)
                    && best@ == ranked.take(min_len(10, words.len() as int)),
            best.len() == min_len(10, words.len() as int),
            sorted_desc(best@),
    {
        let scored = self.score_all(words, scorer);
        let best = self.top_k(scored.as_slice(), 10);
        proof {
            let ranked = choose|ranked: Seq<(ByteStr, u64)>| #[trigger]
                is_ranking(ranked, scored@) && best@ == ranked.take(
                    min_len(10, scored.len() as int),
                );
            assert(is_scoring(*scorer, words@, scored@) && is_ranking(ranked, scored@) && best@
                == ranked.take(min_len(10, words.len() as int)));
        }
        best
    }

    /// The score of `guess_word` as a guess over `valid_words`.
    pub fn calc_goodness<F: Fn(&[usize; 243], usize) -> u64>(
        &self,
        guess_word: &ByteStr,
        valid_words: &[ByteStr],
        scorer: &F,
    ) -> (score: u64)
        requires
            scorer_ready(*scorer),
        ensures
            may_score(*scorer, valid_words@, *guess_word, score),
    {
        let table = Guess::calc_distribution(valid_words, guess_word);
        let score = scorer(&table, valid_words.len());
        assert(is_distribution(table@, valid_words@, *guess_word) && scorer.ensures(
            (&table, valid_words@.len() as usize),
            score,
        ));
        score
    }

    /// Every word with its score as a guess over all of them.
    pub fn score_all<F: Fn(&[usize; 243], usize) -> u64>(
        &self,
        words: &[ByteStr],
        scorer: &F,
    ) -> (scored: Vec<(ByteStr, u64)>)
        requires
            scorer_ready(*scorer),
        ensures
            is_scoring(*scorer, words@, scored@),
    {
        let mut scored: Vec<(ByteStr, u64)> = Vec::new();
        let mut i: usize = 0;
        while i < words.len()
            invariant
                i <= words.len(),
                scorer_ready(*scorer),
                scored.len() == i,
                forall|j: int|
                    0 <= j < i ==> (#[trigger] scored[j]).0 == words[j] && may_score(
                        *scorer,
                        words@,
                        words[j],
                        scored[j].1,
                    ),
            decreases words.len() - i,
        {
            let word: ByteStr = words[i];
            let score = self.calc_goodness(&word, words, scorer);
            scored.push((word, score));
            i += 1;
        }
        scored
    }

    /// The candidate that the scorer rates highest as a guess over the
    /// candidates; among several, the first.
    pub fn guess<F: Fn(&[usize; 243], usize) -> u64>(&self, words: &[ByteStr], scorer: &F) -> (r:
        Result<ByteStr, SolveError>)
        requires
            scorer_ready(*scorer),
        ensures
            match r {
                Ok(word) => could_pick(*scorer, words@, word),
                Err(e) => e == SolveError::EmptyCandidateSet && words.len() == 0,
            },
    {
        let scored = self.score_all(words, scorer);
        let r = self.pick_best(scored.as_slice());
        proof {
            if let Ok(word) = r {
                let i = choose|i: int| is_first_best(scored@, i) && scored[i].0 == word;
                assert(is_scoring(*scorer, words@, scored@) && is_first_best(scored@, i)
                    && scored@[i].0 == word);
            }
        }
        r
    }
}

} // verus!
