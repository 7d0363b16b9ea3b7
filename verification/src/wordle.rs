//! A game against a hidden answer, and the loop that plays it to the end.

use vstd::prelude::*;
use vstd::string::StringSliceAdditionalSpecFns;
use crate::feedback::{feedback, same_word, ByteStr, Correctness, Mask, WORDLE_SIZE};
use crate::filter::{
    candidates, filter_with, lemma_answer_survives, lemma_candidates_contain, lemma_guess_leaves,
};
use crate::guess::{is_distribution, Guess};
use crate::naive::{
    could_pick, fit_count, is_ranking, is_scoring, may_score, min_len, scorer_ready, sorted_desc,
    NaiveGuesser, Narrowing, SolveError,
};

verus! {

/// Number of rounds that a simulated game may take.
pub const MAX_ROUNDS: usize = 17;

/// Whether the bytes spell a word: five lowercase letters.
pub open spec fn is_word(bytes: Seq<u8>) -> bool {
    &&& bytes.len() == WORDLE_SIZE
    &&& forall|i: int| 0 <= i < bytes.len() ==> 97 <= #[trigger] bytes[i] <= 122
}

/// The word that `val` spells; `None` unless `val` is five lowercase letters.
pub fn str5(val: &str) -> (r: Option<ByteStr>)
    ensures
        r is Some <==> is_word(val.spec_bytes()),
        r matches Some(word) ==> word@ == val.spec_bytes(),
{
    let bytes = val.as_bytes();
    if bytes.len() != WORDLE_SIZE {
        return None;
    }
    let mut word: ByteStr = [0u8; 5];
    let mut i: usize = 0;
    while i < WORDLE_SIZE
        invariant
            i <= 5,
            bytes@.len() == 5,
            bytes@ == val.spec_bytes(),
            forall|j: int| 0 <= j < i ==> word[j] == bytes[j] && 97 <= bytes[j] <= 122,
        decreases 5 - i,
    {
        let b: u8 = bytes[i];
        if b < 97 || b > 122 {
            assert(val.spec_bytes()[i as int] == b);
            return None;
        }
        word[i] = b;
        i += 1;
    }
    assert(word@ =~= bytes@);
    Some(word)
}

/// The answer of a game that was just set up or reset: "hello".
pub fn default_answer() -> (word: ByteStr)
    ensures
        word@ == seq![104u8, 101u8, 108u8, 108u8, 111u8],
{
    let word: ByteStr = [104, 101, 108, 108, 111];
    assert(word@ =~= seq![104u8, 101u8, 108u8, 108u8, 111u8]);
    word
}

/// Whether `played` is a round of a game for `answer` after the rounds
/// `before`: a guess that the scorer may lead to over the candidates left,
/// that is not the answer, with the verdicts that the answer gives it.
pub open spec fn is_round<F: Fn(&[usize; 243], usize) -> u64>(
    scorer: F,
    all_words: Seq<ByteStr>,
    answer: ByteStr,
    before: Seq<Guess>,
    played: Guess,
) -> bool {
    &&& could_pick(scorer, candidates(all_words, before), played.word)
    &&& played.word != answer
    &&& played.mask@ == feedback(answer@, played.word@)
}

/// Whether `history` is a run of rounds for `answer`, none of which found it.
pub open spec fn is_play<F: Fn(&[usize; 243], usize) -> u64>(
    scorer: F,
    all_words: Seq<ByteStr>,
    answer: ByteStr,
    history: Seq<Guess>,
) -> bool {
    forall|k: int|
        0 <= k < history.len() ==> #[trigger] is_round(
            scorer,
            all_words,
            answer,
            history.take(k),
            history[k],
        )
}

/// Whether `r` is how a game for `answer` over `all_words` may end within
/// `max_rounds` rounds.
///
/// `Ok(round)`: after `round` rounds that missed, the next guess was the
/// answer. `EmptyCandidateSet`: after fewer than `max_rounds` rounds that
/// missed, no candidate was left. `RoundBudgetExhausted`: `max_rounds` rounds
/// missed.
pub open spec fn is_outcome<F: Fn(&[usize; 243], usize) -> u64>(
    scorer: F,
    all_words: Seq<ByteStr>,
    answer: ByteStr,
    max_rounds: usize,
    r: Result<usize, SolveError>,
) -> bool {
    exists|history: Seq<Guess>| #[trigger]
        is_play(scorer, all_words, answer, history) && match r {
            Ok(round) => round == history.len() && round < max_rounds && could_pick(
                scorer,
                candidates(all_words, history),
                answer,
            ),
            Err(SolveError::EmptyCandidateSet) => history.len() < max_rounds && candidates(
                all_words,
                history,
            ).len() == 0,
            Err(SolveError::RoundBudgetExhausted) => history.len() == max_rounds,
        }
}

/// A guess that the scorer may lead to is one of the words guessed over.
pub proof fn lemma_pick_is_candidate<F: Fn(&[usize; 243], usize) -> u64>(
    scorer: F,
    words: Seq<ByteStr>,
    word: ByteStr,
)
    requires
        could_pick(scorer, words, word),
    ensures
        words.contains(word),
{
    let (scored, i) = choose|scored: Seq<(ByteStr, u64)>, i: int|
        is_scoring(scorer, words, scored) && crate::naive::is_first_best(scored, i)
            && #[trigger] scored[i].0 == word;
    assert(words[i] == word);
}

/// A run of rounds for an answer leaves the answer among the candidates, if
/// the word list holds it.
pub proof fn lemma_play_keeps_answer<F: Fn(&[usize; 243], usize) -> u64>(
    scorer: F,
    all_words: Seq<ByteStr>,
    answer: ByteStr,
    history: Seq<Guess>,
)
    requires
        all_words.contains(answer),
        is_play(scorer, all_words, answer, history),
    ensures
        candidates(all_words, history).contains(answer),
{
    assert forall|k: int| 0 <= k < history.len() implies (#[trigger] history[k]).mask@ == feedback(
        answer@,
        history[k].word@,
    ) && history[k].word != answer by {
        assert(is_round(scorer, all_words, answer, history.take(k), history[k]));
    }
    lemma_answer_survives(all_words, answer, history);
}

/// Every round of a run takes at least one candidate away, so a run is no
/// longer than the word list, less the candidates it leaves.
pub proof fn lemma_play_shrinks<F: Fn(&[usize; 243], usize) -> u64>(
    scorer: F,
    all_words: Seq<ByteStr>,
    answer: ByteStr,
    history: Seq<Guess>,
)
    requires
        is_play(scorer, all_words, answer, history),
    ensures
        candidates(all_words, history).len() + history.len() <= all_words.len(),
    decreases history.len(),
{
    if history.len() == 0 {
        all_words.lemma_filter_len(crate::filter::survivor(history));
    } else {
        let before = history.drop_last();
        let played = history.last();
        assert forall|k: int| 0 <= k < before.len() implies #[trigger] is_round(
            scorer,
            all_words,
            answer,
            before.take(k),
            before[k],
        ) by {
            assert(before.take(k) =~= history.take(k));
            assert(is_round(scorer, all_words, answer, history.take(k), history[k]));
        }
        lemma_play_shrinks(scorer, all_words, answer, before);
        assert(history.take(history.len() - 1) =~= before);
        assert(is_round(scorer, all_words, answer, history.take(history.len() - 1), played));
        lemma_pick_is_candidate(scorer, candidates(all_words, before), played.word);
        lemma_guess_leaves(all_words, before, played);
        assert(before.push(played) =~= history);
    }
}

/// Plays a game for `answer`: each round guesses the candidate that the
/// scorer rates highest, and stops when that is the answer. Returns the
/// number of guesses that missed before the answer was found.
pub fn simulate<F: Fn(&[usize; 243], usize) -> u64>(
    all_words: &[ByteStr],
    answer: &ByteStr,
    max_rounds: usize,
    scorer: &F,
) -> (r: Result<usize, SolveError>)
    requires
        scorer_ready(*scorer),
    ensures
        is_outcome(*scorer, all_words@, *answer, max_rounds, r),
        r is Ok ==> all_words@.contains(*answer),
        all_words@.contains(*answer) ==> r != Err::<usize, SolveError>(
            SolveError::EmptyCandidateSet,
        ),
        all_words@.contains(*answer) && max_rounds >= all_words.len() ==> r is Ok,
{
    let guesser = NaiveGuesser::new();
    let mut history: Vec<Guess> = Vec::new();
    let mut round: usize = 0;
    while round < max_rounds
        invariant
            round <= max_rounds,
            history.len() == round,
            scorer_ready(*scorer),
            is_play(*scorer, all_words@, *answer, history@),
        decreases max_rounds - round,
    {
        let left = filter_with(all_words, history.as_slice());
        match guesser.guess(left.as_slice(), scorer) {
            Err(_) => {
                proof {
                    if all_words@.contains(*answer) {
                        lemma_play_keeps_answer(*scorer, all_words@, *answer, history@);
                    }
                }
                return Err(SolveError::EmptyCandidateSet);
            },
            Ok(word) => {
                if same_word(&word, answer) {
                    proof {
                        lemma_pick_is_candidate(*scorer, left@, word);
                        lemma_candidates_contain(all_words@, history@, word);
                    }
                    return Ok(round);
                }
                let mask = Correctness::check(answer, &word);
                let played = Guess { word, mask };
                let ghost before = history@;
                history.push(played);
                proof {
                    assert forall|k: int| 0 <= k < history@.len() implies #[trigger] is_round(
                        *scorer,
                        all_words@,
                        *answer,
                        history@.take(k),
                        history@[k],
                    ) by {
                        if k < before.len() {
                            assert(history@.take(k) =~= before.take(k));
                            assert(is_round(
                                *scorer,
                                all_words@,
                                *answer,
                                before.take(k),
                                before[k],
                            ));
                        } else {
                            assert(history@.take(k) =~= before);
                        }
                    }
                }
            },
        }
        round += 1;
    }
    proof {
        if all_words@.contains(*answer) {
            lemma_play_shrinks(*scorer, all_words@, *answer, history@);
            lemma_play_keeps_answer(*scorer, all_words@, *answer, history@);
        }
    }
    Err(SolveError::RoundBudgetExhausted)
}

/// A game in progress: the word list, the hidden answer, and the guesses
/// played so far.
pub struct Wordle {
    history: Vec<Guess>,
    answer: ByteStr,
    words: Vec<ByteStr>,
}

/// What a game holds.
pub struct WordleView {
    pub history: Seq<Guess>,
    pub answer: ByteStr,
    pub words: Seq<ByteStr>,
}

impl View for Wordle {
    type V = WordleView;

    closed spec fn view(&self) -> WordleView {
        WordleView { history: self.history@, answer: self.answer, words: self.words@ }
    }
}

impl Wordle {
    /// A game over `words` with nothing played yet. The answer is "hello"
    /// until `set_ans` gives another.
    pub fn new(words: Vec<ByteStr>) -> (game: Self)
        ensures
            game@.history == Seq::<Guess>::empty(),
            game@.answer@ == seq![104u8, 101u8, 108u8, 108u8, 111u8],
            game@.words == words@,
    {
        Wordle { history: Vec::new(), answer: default_answer(), words }
    }

    /// The guesses played so far, oldest first.
    pub fn history(&self) -> (history: &Vec<Guess>)
        ensures
            history@ == self@.history,
    {
        &self.history
    }

    /// The hidden answer.
    pub fn answer(&self) -> (answer: ByteStr)
        ensures
            answer == self@.answer,
    {
        self.answer
    }

    /// The word list of the game.
    pub fn words(&self) -> (words: &Vec<ByteStr>)
        ensures
            words@ == self@.words,
    {
        &self.words
    }

    /// The words that are still possible after the guesses played so far.
    pub fn available_words(&self) -> (left: Vec<ByteStr>)
        ensures
            left@ == candidates(self@.words, self@.history),
    {
        filter_with(self.words.as_slice(), self.history.as_slice())
    }

    /// Plays a whole game for `answer` over the word list, in at most
    /// `MAX_ROUNDS` rounds, and leaves the game reset.
    pub fn simulate<F: Fn(&[usize; 243], usize) -> u64>(&mut self, answer: &ByteStr, scorer: &F) -> (r:
        Result<usize, SolveError>)
        requires
            scorer_ready(*scorer),
        ensures
            is_outcome(*scorer, old(self)@.words, *answer, MAX_ROUNDS, r),
            r is Ok ==> old(self)@.words.contains(*answer),
            old(self)@.words.contains(*answer) ==> r != Err::<usize, SolveError>(
                SolveError::EmptyCandidateSet,
            ),
            old(self)@.words.contains(*answer) && old(self)@.words.len() <= MAX_ROUNDS ==> r is Ok,
            final(self)@.history == Seq::<Guess>::empty(),
            final(self)@.answer@ == seq![104u8, 101u8, 108u8, 108u8, 111u8],
            final(self)@.words == old(self)@.words,
    {
        let r = simulate(self.words.as_slice(), answer, MAX_ROUNDS, scorer);
        self.reset();
        r
    }

    /// Plays `guess_word` against the hidden answer. Returns the verdicts,
    /// and how far the guess narrowed the words that were possible before
    /// it.
    pub fn play(&mut self, guess_word: &ByteStr) -> (r: (Mask, Narrowing))
        ensures
            r.0@ == feedback(old(self)@.answer@, guess_word@),
            r.1.total == candidates(old(self)@.words, old(self)@.history).len(),
            r.1.kept == fit_count(
                candidates(old(self)@.words, old(self)@.history),
                (Guess { word: *guess_word, mask: r.0 }),
                r.1.total as int,
            ),
            final(self)@.history == old(self)@.history.push(
                (Guess { word: *guess_word, mask: r.0 }),
            ),
            final(self)@.answer == old(self)@.answer,
            final(self)@.words == old(self)@.words,
    {
        let mask = Correctness::check(&self.answer, guess_word);
        let played = Guess { word: *guess_word, mask };
        let left = self.available_words();
        let narrowing = NaiveGuesser::new().guess_information(left.as_slice(), &played);
        self.history.push(played);
        (mask, narrowing)
    }

    /// Forgets the guesses played and puts the answer back to "hello".
    pub fn reset(&mut self)
        ensures
            final(self)@.history == Seq::<Guess>::empty(),
            final(self)@.answer@ == seq![104u8, 101u8, 108u8, 108u8, 111u8],
            final(self)@.words == old(self)@.words,
    {
        self.history = Vec::new();
        self.answer = default_answer();
    }

    /// Hides another answer.
    pub fn set_ans(&mut self, answer: &ByteStr)
        ensures
            final(self)@.answer == *answer,
            final(self)@.history == old(self)@.history,
            final(self)@.words == old(self)@.words,
    {
        self.answer = *answer;
    }

    /// The ten best guesses over the words that are still possible, with
    /// their scores, best first.
    pub fn calc_best_guesses<F: Fn(&[usize; 243], usize) -> u64>(&self, scorer: &F) -> (best: Vec<
        (ByteStr, u64),
    >)
        requires
            scorer_ready(*scorer),
        ensures
            exists|scored: Seq<(ByteStr, u64)>, ranked: Seq<(ByteStr, u64)>|
                is_scoring(*scorer, candidates(self@.words, self@.history), scored)
                    && #[trigger] is_ranking(ranked, scored) && best@ == ranked.take(
                    min_len(10, scored.len() as int),
                ),
            best.len() == min_len(10, candidates(self@.words, self@.history).len() as int),
            sorted_desc(best@),
    {
        let left = self.available_words();
        let best = NaiveGuesser::new().calc_best_guesses(left.as_slice(), scorer);
        proof {
            let (scored, ranked) = choose|scored: Seq<(ByteStr, u64)>, ranked: Seq<(ByteStr, u64)>|
                is_scoring(*scorer, left@, scored) && #[trigger] is_ranking(ranked, scored)
                    && best@ == ranked.take(min_len(10, left@.len() as int));
            assert(is_scoring(*scorer, candidates(self@.words, self@.history), scored)
                && is_ranking(ranked, scored) && best@ == ranked.take(
                min_len(10, scored.len() as int),
            ));
        }
        best
    }

    /// The histogram of `guess` over the words that are still possible.
    pub fn distribution_of(&self, guess: &ByteStr) -> (table: Vec<usize>)
        ensures
            is_distribution(table@, candidates(self@.words, self@.history), *guess),
    {
        let left = self.available_words();
        let table = Guess::calc_distribution(left.as_slice(), guess);
        let mut out: Vec<usize> = Vec::new();
        let mut i: usize = 0;
        while i < 243
            invariant
                i <= 243,
                out.len() == i,
                forall|j: int| 0 <= j < i ==> out[j] == table[j],
            decreases 243 - i,
        {
            out.push(table[i]);
            i += 1;
        }
        assert(out@ =~= table@);
        out
    }

    /// The score of `word` as a guess over the words that are still
    /// possible.
    pub fn entropy_of<F: Fn(&[usize; 243], usize) -> u64>(&self, word: &ByteStr, scorer: &F) -> (score:
        u64)
        requires
            scorer_ready(*scorer),
        ensures
            may_score(*scorer, candidates(self@.words, self@.history), *word, score),
    {
        let left = self.available_words();
        NaiveGuesser::new().calc_goodness(word, left.as_slice(), scorer)
    }
}

} // verus!
