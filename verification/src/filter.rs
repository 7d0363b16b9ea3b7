//! The words that are still possible after a history of guesses.

use vstd::prelude::*;
use crate::feedback::{feedback, same_word, ByteStr};
use crate::guess::Guess;

verus! {

/// Whether `word` is still possible as the answer after `guess`: it would have
/// drawn the same verdicts, and it is not the guessed word itself.
pub open spec fn keeps(guess: Guess, word: ByteStr) -> bool {
    guess.fits(word) && guess.word != word
}

/// Whether `word` is still possible after every guess of `history`.
pub open spec fn survives(word: ByteStr, history: Seq<Guess>) -> bool {
    forall|k: int| 0 <= k < history.len() ==> keeps(#[trigger] history[k], word)
}

/// `survives` as a predicate on words.
pub open spec fn survivor(history: Seq<Guess>) -> spec_fn(ByteStr) -> bool {
    |word: ByteStr| survives(word, history)
}

/// The words of `all_words` that survive `history`, in their order.
pub open spec fn candidates(all_words: Seq<ByteStr>, history: Seq<Guess>) -> Seq<ByteStr> {
    all_words.filter(survivor(history))
}

/// A word is a candidate exactly if it is in the word list and survives.
pub proof fn lemma_candidates_contain(all_words: Seq<ByteStr>, history: Seq<Guess>, word: ByteStr)
    ensures
        candidates(all_words, history).contains(word) <==> all_words.contains(word) && survives(
            word,
            history,
        ),
{
    let kept = candidates(all_words, history);
    if kept.contains(word) {
        let i = choose|i: int| 0 <= i < kept.len() && kept[i] == word;
        all_words.lemma_filter_pred(survivor(history), i);
        all_words.lemma_filter_contains_rev(survivor(history), word);
    }
    if all_words.contains(word) && survives(word, history) {
        let i = choose|i: int| 0 <= i < all_words.len() && all_words[i] == word;
        all_words.lemma_filter_contains(survivor(history), i);
    }
}

/// One more guess can only take candidates away.
pub proof fn lemma_filter_monotonic(all_words: Seq<ByteStr>, history: Seq<Guess>, guess: Guess)
    ensures
        forall|word: ByteStr| #[trigger]
            candidates(all_words, history.push(guess)).contains(word) ==> candidates(
                all_words,
                history,
            ).contains(word),
        candidates(all_words, history.push(guess)).len() <= candidates(all_words, history).len(),
{
    assert forall|word: ByteStr| #[trigger]
        candidates(all_words, history.push(guess)).contains(word) implies candidates(
        all_words,
        history,
    ).contains(word) by {
        lemma_candidates_contain(all_words, history.push(guess), word);
        lemma_candidates_contain(all_words, history, word);
        assert forall|k: int| 0 <= k < history.len() implies keeps(#[trigger] history[k], word) by {
            assert(history.push(guess)[k] == history[k]);
        }
    }
    lemma_narrowing(all_words, history, guess);
    candidates(all_words, history).lemma_filter_len(survivor(seq![guess]));
}

/// Narrowing the candidates of a history by one more guess gives the
/// candidates of the longer history: filtering afresh and narrowing round by
/// round agree.
pub proof fn lemma_narrowing(all_words: Seq<ByteStr>, history: Seq<Guess>, guess: Guess)
    ensures
        candidates(all_words, history.push(guess)) == candidates(
            candidates(all_words, history),
            seq![guess],
        ),
    decreases all_words.len(),
{
    reveal(Seq::filter);
    if all_words.len() > 0 {
        let rest = all_words.drop_last();
        let last = all_words.last();
        lemma_narrowing(rest, history, guess);
        let longer = history.push(guess);
        assert(survives(last, longer) <==> survives(last, history) && survives(last, seq![guess]))
            by {
            if survives(last, longer) {
                assert forall|k: int| 0 <= k < history.len() implies keeps(
                    #[trigger] history[k],
                    last,
                ) by {
                    assert(longer[k] == history[k]);
                }
                assert(longer[history.len() as int] == guess);
            }
            if survives(last, history) && survives(last, seq![guess]) {
                assert(seq![guess][0] == guess);
                assert forall|k: int| 0 <= k < longer.len() implies keeps(
                    #[trigger] longer[k],
                    last,
                ) by {
                    if k < history.len() {
                        assert(longer[k] == history[k]);
                    }
                }
            }
        }
        if survives(last, history) {
            candidates(rest, history).lemma_filter_push(last, survivor(seq![guess]));
        }
    }
}

proof fn lemma_filter_drops(words: Seq<ByteStr>, pred: spec_fn(ByteStr) -> bool, word: ByteStr)
    requires
        words.contains(word),
        !pred(word),
    ensures
        words.filter(pred).len() < words.len(),
    decreases words.len(),
{
    reveal(Seq::filter);
    let rest = words.drop_last();
    if words.last() == word {
        rest.lemma_filter_len(pred);
    } else {
        let i = choose|i: int| 0 <= i < words.len() && words[i] == word;
        assert(rest[i] == word);
        lemma_filter_drops(rest, pred, word);
    }
}

/// A guess that was a candidate is none after it was played: every round
/// takes at least one candidate away.
pub proof fn lemma_guess_leaves(all_words: Seq<ByteStr>, history: Seq<Guess>, guess: Guess)
    requires
        candidates(all_words, history).contains(guess.word),
    ensures
        candidates(all_words, history.push(guess)).len() < candidates(all_words, history).len(),
{
    lemma_narrowing(all_words, history, guess);
    assert(!keeps(seq![guess][0], guess.word));
    lemma_filter_drops(candidates(all_words, history), survivor(seq![guess]), guess.word);
}

/// The answer is never filtered out by a history that was played against it:
/// one in which every guess drew the verdicts that the answer gives it, and no
/// guess was the answer itself.
pub proof fn lemma_answer_survives(all_words: Seq<ByteStr>, answer: ByteStr, history: Seq<Guess>)
    requires
        all_words.contains(answer),
        forall|k: int|
            0 <= k < history.len() ==> (#[trigger] history[k]).mask@ == feedback(
                answer@,
                history[k].word@,
            ) && history[k].word != answer,
    ensures
        candidates(all_words, history).contains(answer),
{
    lemma_candidates_contain(all_words, history, answer);
}

/// Whether `word` survives every guess of `history`.
pub fn survives_all(word: &ByteStr, history: &[Guess]) -> (r: bool)
    ensures
        r == survives(*word, history@),
{
    let mut k: usize = 0;
    while k < history.len()
        invariant
            k <= history.len(),
            forall|j: int| 0 <= j < k ==> keeps(#[trigger] history@[j], *word),
        decreases history.len() - k,
    {
        if !history[k].matches(word) || same_word(&history[k].word, word) {
            return false;
        }
        k += 1;
    }
    true
}

/// The words of `all_words` that are consistent with every guess of
/// `history`, in the order of `all_words`.
pub fn filter_with(all_words: &[ByteStr], history: &[Guess]) -> (r: Vec<ByteStr>)
    ensures
        r@ == candidates(all_words@, history@),
{
    let mut kept: Vec<ByteStr> = Vec::new();
    let mut i: usize = 0;
    proof {
        reveal(Seq::filter);
        assert(all_words@.take(0) =~= Seq::empty());
    }
    while i < all_words.len()
        invariant
            i <= all_words.len(),
            kept@ == candidates(all_words@.take(i as int), history@),
        decreases all_words.len() - i,
    {
        let word: ByteStr = all_words[i];
        proof {
            assert(all_words@.take(i as int + 1) =~= all_words@.take(i as int).push(word));
            all_words@.take(i as int).lemma_filter_push(word, survivor(history@));
        }
        if survives_all(&word, history) {
            kept.push(word);
        }
        i += 1;
    }
    assert(all_words@.take(all_words.len() as int) =~= all_words@);
    kept
}

} // verus!
