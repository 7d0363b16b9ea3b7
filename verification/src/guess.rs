//! A played guess, and the histogram of verdicts that a guess would draw from
//! a set of candidate answers.

use vstd::prelude::*;
use crate::codec::{lemma_radix_bound, pow3, radix, MASK_COUNT};
use crate::feedback::{feedback, ByteStr, Correctness, Mask, WORDLE_SIZE};

verus! {

/// A word that was guessed, with the verdicts it drew.
#[derive(Clone, Copy, Debug)]
pub struct Guess {
    pub word: ByteStr,
    pub mask: Mask,
}

/// Whether `word`, taken as the answer, puts `guess` into the bucket `code`.
pub open spec fn in_bucket(word: ByteStr, guess: ByteStr, code: int) -> bool {
    radix(feedback(word@, guess@)) == code
}

/// How many of the first `n` words put `guess` into the bucket `code`.
pub open spec fn bucket_size(words: Seq<ByteStr>, guess: ByteStr, code: int, n: int) -> nat
    decreases n,
{
    if n <= 0 {
        0
    } else {
        bucket_size(words, guess, code, n - 1) + if in_bucket(words[n - 1], guess, code) {
            1nat
        } else {
            0nat
        }
    }
}

/// Whether `table` is the histogram of `guess` over `words`: one count per
/// mask, at the index that the mask encodes to.
pub open spec fn is_distribution(table: Seq<usize>, words: Seq<ByteStr>, guess: ByteStr) -> bool {
    &&& table.len() == MASK_COUNT
    &&& forall|code: int|
        0 <= code < MASK_COUNT ==> table[code] == bucket_size(
            words,
            guess,
            code,
            words.len() as int,
        )
}

/// Sum of the first `k` entries of a table.
pub open spec fn table_sum(table: Seq<usize>, k: int) -> nat
    decreases k,
{
    if k <= 0 {
        0
    } else {
        table_sum(table, k - 1) + table[k - 1] as nat
    }
}

/// How many of the first `n` words fall into the buckets below `k`.
pub open spec fn buckets_total(words: Seq<ByteStr>, guess: ByteStr, k: int, n: int) -> nat
    decreases k,
{
    if k <= 0 {
        0
    } else {
        buckets_total(words, guess, k - 1, n) + bucket_size(words, guess, k - 1, n)
    }
}

/// A bucket holds no more words than were looked at.
pub proof fn lemma_bucket_size_bound(words: Seq<ByteStr>, guess: ByteStr, code: int, n: int)
    requires
        0 <= n,
    ensures
        bucket_size(words, guess, code, n) <= n,
    decreases n,
{
    if n > 0 {
        lemma_bucket_size_bound(words, guess, code, n - 1);
    }
}

proof fn lemma_buckets_total_step(words: Seq<ByteStr>, guess: ByteStr, k: int, n: int)
    requires
        0 <= k,
        0 < n,
    ensures
        buckets_total(words, guess, k, n) == buckets_total(words, guess, k, n - 1) + if radix(
            feedback(words[n - 1]@, guess@),
        ) < k {
            1nat
        } else {
            0nat
        },
    decreases k,
{
    if k > 0 {
        lemma_buckets_total_step(words, guess, k - 1, n);
    }
}

/// Every word falls into exactly one of the buckets.
pub proof fn lemma_buckets_cover(words: Seq<ByteStr>, guess: ByteStr, n: int)
    requires
        0 <= n,
    ensures
        buckets_total(words, guess, MASK_COUNT as int, n) == n,
    decreases n,
{
    if n > 0 {
        lemma_buckets_cover(words, guess, n - 1);
        lemma_buckets_total_step(words, guess, MASK_COUNT as int, n);
        lemma_radix_bound(feedback(words[n - 1]@, guess@));
        assert(pow3(5) == 243) by {
            reveal_with_fuel(pow3, 6);
        }
    } else {
        lemma_buckets_total_empty(words, guess, MASK_COUNT as int);
    }
}

proof fn lemma_buckets_total_empty(words: Seq<ByteStr>, guess: ByteStr, k: int)
    ensures
        buckets_total(words, guess, k, 0) == 0,
    decreases k,
{
    if k > 0 {
        lemma_buckets_total_empty(words, guess, k - 1);
    }
}

proof fn lemma_table_sum_is_total(
    table: Seq<usize>,
    words: Seq<ByteStr>,
    guess: ByteStr,
    k: int,
    n: int,
)
    requires
        0 <= k <= table.len(),
        forall|code: int| 0 <= code < k ==> table[code] == bucket_size(words, guess, code, n),
    ensures
        table_sum(table, k) == buckets_total(words, guess, k, n),
    decreases k,
{
    if k > 0 {
        lemma_table_sum_is_total(table, words, guess, k - 1, n);
    }
}

/// The counts of a histogram add up to the number of words it was taken over.
pub proof fn lemma_distribution_total(table: Seq<usize>, words: Seq<ByteStr>, guess: ByteStr)
    requires
        is_distribution(table, words, guess),
    ensures
        table_sum(table, MASK_COUNT as int) == words.len(),
{
    lemma_table_sum_is_total(table, words, guess, MASK_COUNT as int, words.len() as int);
    lemma_buckets_cover(words, guess, words.len() as int);
}

/// Over at most one word every bucket is empty or holds the whole count: no
/// guess can tell anything.
pub proof fn lemma_distribution_of_one(table: Seq<usize>, words: Seq<ByteStr>, guess: ByteStr)
    requires
        is_distribution(table, words, guess),
        words.len() <= 1,
    ensures
        forall|code: int|
            0 <= code < MASK_COUNT ==> #[trigger] table[code] == 0 || table[code] == words.len(),
{
    reveal_with_fuel(bucket_size, 2);
}

/// Whether two masks hold the same verdicts.
pub fn same_mask(a: &Mask, b: &Mask) -> (r: bool)
    ensures
        r == (a@ == b@),
        r == (*a == *b),
{
    let mut i: usize = 0;
    while i < WORDLE_SIZE
        invariant
            i <= 5,
            forall|j: int| 0 <= j < i ==> a[j] == b[j],
        decreases 5 - i,
    {
        if a[i] != b[i] {
            return false;
        }
        i += 1;
    }
    assert(a@ =~= b@);
    assert(*a =~= *b);
    true
}

impl Guess {
    /// Whether `word` as the answer would have drawn this guess's verdicts.
    pub open spec fn fits(&self, word: ByteStr) -> bool {
        feedback(word@, self.word@) == self.mask@
    }

    /// Whether `word` is still possible as the answer after this guess, as far
    /// as the verdicts go.
    pub fn matches(&self, word: &ByteStr) -> (r: bool)
        ensures
            r == self.fits(*word),
    {
        let mask = Correctness::check(word, &self.word);
        same_mask(&mask, &self.mask)
    }

    /// The histogram of `guess_word` over `words`: for each mask, how many of
    /// the words would draw it if they were the answer.
    pub fn calc_distribution(words: &[ByteStr], guess_word: &ByteStr) -> (table: [usize; 243])
        ensures
            is_distribution(table@, words@, *guess_word),
            table_sum(table@, MASK_COUNT as int) == words.len(),
    {
        let mut table: [usize; 243] = [0usize; 243];
        let mut i: usize = 0;
        while i < words.len()
            invariant
                i <= words.len(),
                forall|code: int|
                    0 <= code < 243 ==> table[code] == bucket_size(
                        words@,
                        *guess_word,
                        code,
                        i as int,
                    ),
            decreases words.len() - i,
        {
            let mask = Correctness::check(&words[i], guess_word);
            let code = Correctness::mask_radix(&mask);
            proof {
                lemma_bucket_size_bound(words@, *guess_word, code as int, i as int);
            }
            table[code] = table[code] + 1;
            i += 1;
        }
        proof {
            lemma_distribution_total(table@, words@, *guess_word);
        }
        table
    }
}

} // verus!
