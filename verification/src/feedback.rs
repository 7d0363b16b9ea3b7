//! Per-position verdicts of a guess against an answer, with duplicate letters
//! resolved by count.

use vstd::prelude::*;

verus! {

/// Number of letters in a word.
pub const WORDLE_SIZE: usize = 5;

/// A word: five letter bytes.
pub type ByteStr = [u8; 5];

/// One verdict per guess position.
pub type Mask = [Correctness; 5];

/// Verdict on one letter of a guess.
#[derive(Clone, Copy, Debug, PartialEq, Eq, Hash, Structural)]
pub enum Correctness {
    /// The letter has no unclaimed occurrence left in the answer.
    Wrong,
    /// The letter occurs in the answer, at another position.
    Misplaced,
    /// The letter stands at this position in the answer.
    Correct,
}

/// Number of positions below `n` at which `word` holds `c`.
pub open spec fn occurrences(word: Seq<u8>, c: u8, n: int) -> nat
    decreases n,
{
    if n <= 0 {
        0
    } else {
        occurrences(word, c, n - 1) + if word[n - 1] == c { 1nat } else { 0nat }
    }
}

/// Number of positions below `n` at which answer and guess both hold `c`.
pub open spec fn matched(answer: Seq<u8>, guess: Seq<u8>, c: u8, n: int) -> nat
    decreases n,
{
    if n <= 0 {
        0
    } else {
        matched(answer, guess, c, n - 1) + if answer[n - 1] == c && guess[n - 1] == c {
            1nat
        } else {
            0nat
        }
    }
}

/// Number of positions below `n` at which the answer holds `c` and the guess
/// does not: the occurrences of `c` that are left over for misplaced letters.
pub open spec fn pool(answer: Seq<u8>, guess: Seq<u8>, c: u8, n: int) -> nat
    decreases n,
{
    if n <= 0 {
        0
    } else {
        pool(answer, guess, c, n - 1) + if answer[n - 1] == c && guess[n - 1] != c {
            1nat
        } else {
            0nat
        }
    }
}

/// Number of positions below `n` at which the guess holds `c` and the answer
/// does not: the positions that compete for the pool of `c`, earliest first.
pub open spec fn claims(answer: Seq<u8>, guess: Seq<u8>, c: u8, n: int) -> nat
    decreases n,
{
    if n <= 0 {
        0
    } else {
        claims(answer, guess, c, n - 1) + if guess[n - 1] == c && answer[n - 1] != c {
            1nat
        } else {
            0nat
        }
    }
}

/// The verdict on position `i` of the guess.
///
/// A letter in place is `Correct`. Any other letter is `Misplaced` while the
/// answer still has an occurrence of it that no in-place letter and no earlier
/// position of the guess has used, and `Wrong` after that.
pub open spec fn feedback_at(answer: Seq<u8>, guess: Seq<u8>, i: int) -> Correctness {
    if guess[i] == answer[i] {
        Correctness::Correct
    } else if claims(answer, guess, guess[i], i) < pool(answer, guess, guess[i], answer.len() as int) {
        Correctness::Misplaced
    } else {
        Correctness::Wrong
    }
}

/// The verdicts on all positions of the guess.
pub open spec fn feedback(answer: Seq<u8>, guess: Seq<u8>) -> Seq<Correctness> {
    Seq::new(guess.len(), |i: int| feedback_at(answer, guess, i))
}

/// Number of positions below `n` at which the guess holds `c` and is given
/// credit for it, as `Correct` or `Misplaced`.
pub open spec fn credited(answer: Seq<u8>, guess: Seq<u8>, c: u8, n: int) -> nat
    decreases n,
{
    if n <= 0 {
        0
    } else {
        credited(answer, guess, c, n - 1) + if guess[n - 1] == c && feedback_at(answer, guess, n - 1)
            != Correctness::Wrong {
            1nat
        } else {
            0nat
        }
    }
}

/// The smaller of two counts.
pub open spec fn min_nat(a: nat, b: nat) -> nat {
    if a <= b {
        a
    } else {
        b
    }
}

/// Every occurrence of a letter in the answer is either matched in place or
/// left in the pool.
pub proof fn lemma_occurrences_split(answer: Seq<u8>, guess: Seq<u8>, c: u8, n: int)
    ensures
        occurrences(answer, c, n) == matched(answer, guess, c, n) + pool(answer, guess, c, n),
    decreases n,
{
    if n > 0 {
        lemma_occurrences_split(answer, guess, c, n - 1);
    }
}

/// Counting further positions never lowers the count.
pub proof fn lemma_occurrences_grow(word: Seq<u8>, c: u8, n: int, m: int)
    requires
        n <= m,
    ensures
        occurrences(word, c, n) <= occurrences(word, c, m),
    decreases m - n,
{
    if n < m {
        lemma_occurrences_grow(word, c, n, m - 1);
    }
}

proof fn lemma_credited_split(answer: Seq<u8>, guess: Seq<u8>, c: u8, n: int)
    ensures
        credited(answer, guess, c, n) == matched(answer, guess, c, n) + min_nat(
            claims(answer, guess, c, n),
            pool(answer, guess, c, answer.len() as int),
        ),
    decreases n,
{
    if n > 0 {
        lemma_credited_split(answer, guess, c, n - 1);
    }
}

/// A word checked against itself is correct at every position.
pub proof fn lemma_check_self(word: Seq<u8>)
    ensures
        feedback(word, word).len() == word.len(),
        forall|i: int| 0 <= i < word.len() ==> feedback(word, word)[i] == Correctness::Correct,
{
}

/// The guess is never given credit for a letter more often than the answer
/// holds that letter.
pub proof fn lemma_credit_bounded(answer: Seq<u8>, guess: Seq<u8>, c: u8)
    requires
        answer.len() == guess.len(),
    ensures
        credited(answer, guess, c, guess.len() as int) <= occurrences(
            answer,
            c,
            answer.len() as int,
        ),
{
    let n = answer.len() as int;
    lemma_credited_split(answer, guess, c, n);
    lemma_occurrences_split(answer, guess, c, n);
}

/// Sum of the counts of the first `n` slots that hold `c`.
pub open spec fn tally(chars: Seq<u8>, count: Seq<u8>, c: u8, n: int) -> nat
    decreases n,
{
    if n <= 0 {
        0
    } else {
        tally(chars, count, c, n - 1) + if chars[n - 1] == c { count[n - 1] as nat } else { 0nat }
    }
}

/// Sum of the counts of the first `n` slots.
pub open spec fn slots_total(count: Seq<u8>, n: int) -> nat
    decreases n,
{
    if n <= 0 {
        0
    } else {
        slots_total(count, n - 1) + count[n - 1] as nat
    }
}

proof fn lemma_tally_update(
    chars: Seq<u8>,
    count: Seq<u8>,
    j: int,
    letter: u8,
    amount: u8,
    c: u8,
    n: int,
)
    requires
        0 <= j < chars.len(),
        chars.len() == count.len(),
        0 <= n <= chars.len(),
    ensures
        tally(chars.update(j, letter), count.update(j, amount), c, n) == if j < n {
            tally(chars, count, c, n) - (if chars[j] == c { count[j] as int } else { 0 }) + (if letter == c {
                amount as int
            } else {
                0
            })
        } else {
            tally(chars, count, c, n) as int
        },
        j < n && chars[j] == c ==> tally(chars, count, c, n) >= count[j],
    decreases n,
{
    if n > 0 {
        lemma_tally_update(chars, count, j, letter, amount, c, n - 1);
    }
}

proof fn lemma_total_update(count: Seq<u8>, j: int, amount: u8, n: int)
    requires
        0 <= j < count.len(),
        0 <= n <= count.len(),
    ensures
        slots_total(count.update(j, amount), n) == if j < n {
            slots_total(count, n) - count[j] + amount
        } else {
            slots_total(count, n) as int
        },
        j < n ==> slots_total(count, n) >= count[j],
    decreases n,
{
    if n > 0 {
        lemma_total_update(count, j, amount, n - 1);
    }
}

proof fn lemma_total_full(count: Seq<u8>, n: int)
    requires
        0 <= n <= count.len(),
        forall|j: int| 0 <= j < n ==> count[j] > 0,
    ensures
        slots_total(count, n) >= n,
    decreases n,
{
    if n > 0 {
        lemma_total_full(count, n - 1);
    }
}

proof fn lemma_tally_empty(chars: Seq<u8>, count: Seq<u8>, c: u8, n: int)
    requires
        0 <= n <= count.len(),
        forall|j: int| 0 <= j < n ==> count[j] == 0,
    ensures
        tally(chars, count, c, n) == 0,
        slots_total(count, n) == 0,
    decreases n,
{
    if n > 0 {
        lemma_tally_empty(chars, count, c, n - 1);
    }
}

/// A pool of letters: how many of each letter are left to hand out.
pub struct CharCounter {
    chars: ByteStr,
    count: ByteStr,
}

impl CharCounter {
    /// How many of the letter `c` the pool holds.
    pub closed spec fn count_of(&self, c: u8) -> nat {
        tally(self.chars@, self.count@, c, 5)
    }

    /// The pool of the letters of `word`, each as often as it stands there.
    pub fn new(word: &ByteStr) -> (r: Self)
        ensures
            forall|c: u8| r.count_of(c) == occurrences(word@, c, 5),
    {
        let mut chars: ByteStr = [0u8; 5];
        let mut count: ByteStr = [0u8; 5];
        proof {
            assert forall|c: u8| tally(chars@, count@, c, 5) == 0 by {
                lemma_tally_empty(chars@, count@, c, 5);
            }
            lemma_tally_empty(chars@, count@, 0u8, 5);
        }
        let mut k: usize = 0;
        while k < WORDLE_SIZE
            invariant
                k <= 5,
                slots_total(count@, 5) == k,
                forall|c: u8| tally(chars@, count@, c, 5) == occurrences(word@, c, k as int),
            decreases 5 - k,
        {
            let letter: u8 = word[k];
            let ghost chars0 = chars@;
            let ghost count0 = count@;
            let ghost mut slot: int = 0;
            let mut placed = false;
            let mut j: usize = 0;
            while j < WORDLE_SIZE && !placed
                invariant
                    j <= 5,
                    k < 5,
                    !placed ==> chars@ == chars0 && count@ == count0,
                    !placed ==> forall|i: int| 0 <= i < j ==> chars0[i] != letter,
                    slots_total(count0, 5) == k,
                    placed ==> 0 <= slot < 5 && chars@ == chars0.update(slot, letter) && count@
                        == count0.update(slot, count@[slot]) && chars0[slot] == letter
                        && count@[slot] == count0[slot] + 1,
                decreases 5 - j + if placed { 0int } else { 1int },
            {
                if chars[j] == letter {
                    proof {
                        lemma_total_update(count0, j as int, 0u8, 5);
                        slot = j as int;
                        assert(chars0.update(slot, letter) =~= chars0);
                    }
                    count[j] = count[j] + 1;
                    placed = true;
                } else {
                    j += 1;
                }
            }
            j = 0;
            while j < WORDLE_SIZE && !placed
                invariant
                    j <= 5,
                    k < 5,
                    !placed ==> chars@ == chars0 && count@ == count0,
                    !placed ==> forall|i: int| 0 <= i < j ==> count0[i] > 0,
                    slots_total(count0, 5) == k,
                    placed ==> 0 <= slot < 5 && chars@ == chars0.update(slot, letter) && count@
                        == count0.update(slot, count@[slot]) && (chars0[slot] == letter
                        || count0[slot] == 0) && count@[slot] == count0[slot] + 1,
                decreases 5 - j + if placed { 0int } else { 1int },
            {
                if count[j] == 0 {
                    proof {
                        slot = j as int;
                    }
                    chars[j] = letter;
                    count[j] = 1;
                    placed = true;
                } else {
                    j += 1;
                }
            }
            proof {
                if !placed {
                    lemma_total_full(count0, 5);
                }
                lemma_total_update(count0, slot, count@[slot], 5);
                assert forall|c: u8| tally(chars@, count@, c, 5) == occurrences(
                    word@,
                    c,
                    k as int + 1,
                ) by {
                    lemma_tally_update(chars0, count0, slot, letter, count@[slot], c, 5);
                    assert(occurrences(word@, c, k as int + 1) == occurrences(word@, c, k as int)
                        + if letter == c { 1nat } else { 0nat });
                }
            }
            k += 1;
        }
        CharCounter { chars, count }
    }

    /// How many of the letter `c` are left.
    pub fn find_count(&self, c: u8) -> (r: usize)
        ensures
            r == self.count_of(c),
    {
        let mut sum: usize = 0;
        let mut i: usize = 0;
        while i < WORDLE_SIZE
            invariant
                i <= 5,
                sum == tally(self.chars@, self.count@, c, i as int),
                sum <= 255 * i,
            decreases 5 - i,
        {
            if self.chars[i] == c {
                sum = sum + self.count[i] as usize;
            }
            i += 1;
        }
        sum
    }

    /// Takes one `c` out of the pool, if it holds any.
    pub fn decrement(&mut self, c: u8)
        ensures
            final(self).count_of(c) == if old(self).count_of(c) > 0 {
                old(self).count_of(c) - 1
            } else {
                0
            },
            forall|d: u8| d != c ==> final(self).count_of(d) == old(self).count_of(d),
    {
        let mut i: usize = 0;
        while i < WORDLE_SIZE
            invariant
                i <= 5,
                *self == *old(self),
                tally(self.chars@, self.count@, c, i as int) == 0,
            decreases 5 - i,
        {
            if self.chars[i] == c && self.count[i] > 0 {
                proof {
                    let amount = (self.count[i as int] - 1) as u8;
                    assert(self.chars@.update(i as int, c) =~= self.chars@);
                    assert forall|d: u8|
                        tally(self.chars@, self.count@.update(i as int, amount), d, 5) == if d
                            == c {
                            tally(self.chars@, self.count@, d, 5) - 1
                        } else {
                            tally(self.chars@, self.count@, d, 5) as int
                        } by {
                        lemma_tally_update(self.chars@, self.count@, i as int, c, amount, d, 5);
                    }
                }
                self.count[i] = self.count[i] - 1;
                return ;
            }
            i += 1;
        }
    }
}

impl Correctness {
    /// The verdict as a base-3 digit: 0 for `Wrong`, 1 for `Misplaced`, 2 for
    /// `Correct`.
    pub open spec fn digit(self) -> nat {
        match self {
            Correctness::Wrong => 0,
            Correctness::Misplaced => 1,
            Correctness::Correct => 2,
        }
    }

    /// Compares `guess` to `answer`, position by position.
    ///
    /// Letters in place are marked first. The other letters of the guess then
    /// draw, from left to right, on what the answer has left of each letter.
    pub fn check(answer: &ByteStr, guess: &ByteStr) -> (mask: Mask)
        ensures
            mask@ == feedback(answer@, guess@),
    {
        let mut mask: Mask = [Correctness::Wrong; 5];
        let mut counter = CharCounter::new(answer);
        let mut i: usize = 0;
        while i < WORDLE_SIZE
            invariant
                i <= 5,
                forall|c: u8|
                    counter.count_of(c) == occurrences(answer@, c, 5) - matched(
                        answer@,
                        guess@,
                        c,
                        i as int,
                    ),
                forall|j: int|
                    0 <= j < 5 ==> mask[j] == if j < i && guess[j] == answer[j] {
                        Correctness::Correct
                    } else {
                        Correctness::Wrong
                    },
            decreases 5 - i,
        {
            let letter: u8 = guess[i];
            proof {
                assert forall|c: u8|
                    matched(answer@, guess@, c, i as int + 1) <= occurrences(answer@, c, 5) by {
                    lemma_occurrences_split(answer@, guess@, c, i as int + 1);
                    lemma_occurrences_grow(answer@, c, i as int + 1, 5);
                }
            }
            if letter == answer[i] {
                mask[i] = Correctness::Correct;
                counter.decrement(letter);
            }
            i += 1;
        }
        proof {
            assert forall|c: u8| counter.count_of(c) == pool(answer@, guess@, c, 5) by {
                lemma_occurrences_split(answer@, guess@, c, 5);
            }
        }
        i = 0;
        while i < WORDLE_SIZE
            invariant
                i <= 5,
                forall|c: u8|
                    counter.count_of(c) == pool(answer@, guess@, c, 5) - min_nat(
                        claims(answer@, guess@, c, i as int),
                        pool(answer@, guess@, c, 5),
                    ),
                forall|j: int| 0 <= j < i ==> mask[j] == feedback_at(answer@, guess@, j),
                forall|j: int|
                    i <= j < 5 ==> mask[j] == if guess[j] == answer[j] {
                        Correctness::Correct
                    } else {
                        Correctness::Wrong
                    },
            decreases 5 - i,
        {
            let letter: u8 = guess[i];
            if mask[i] != Correctness::Correct && counter.find_count(letter) > 0 {
                counter.decrement(letter);
                mask[i] = Correctness::Misplaced;
            }
            i += 1;
        }
        assert(mask@ =~= feedback(answer@, guess@));
        mask
    }
}

/// Whether two words hold the same letters.
pub fn same_word(a: &ByteStr, b: &ByteStr) -> (r: bool)
    ensures
        r == (a@ == b@),
        r == (*a == *b),
{
    let mut i: usize = 0;
    while i < WORDLE_SIZE
        invariant
            i <= 5,
            forall|j: int| 0 <= j < i ==> a[j] == b[j],
        decreases 5 - i,
    {
        if a[i] != b[i] {
            return false;
        }
        i += 1;
    }
    assert(a@ =~= b@);
    assert(*a =~= *b);
    true
}

} // verus!
