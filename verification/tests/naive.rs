use wordle_solver::{ByteStr, Correctness, Guess, NaiveGuesser, Narrowing, SolveError};

fn lexicon() -> Vec<ByteStr> {
    [
        b"hello", b"there", b"flees", b"hells", b"jelly", b"cello", b"helps", b"shell", b"world",
        b"hotel", b"later", b"alert", b"alter", b"crane", b"slate",
    ]
    .iter()
    .map(|w| **w)
    .collect()
}

/// Shannon entropy of the histogram in bits, as a key that orders as the
/// entropy does.
fn entropy_key(table: &[usize; 243], n: usize) -> u64 {
    let mut sum = 0f64;
    for &count in table.iter() {
        if count != 0 {
            let p = count as f64 / n as f64;
            sum += p * p.log2().abs();
        }
    }
    sum.to_bits()
}

/// Number of buckets that hold a word.
fn filled_buckets(table: &[usize; 243], _n: usize) -> u64 {
    table.iter().filter(|&&count| count != 0).count() as u64
}

#[test]
fn pick_best_takes_the_greatest_score() {
    let scored = [(*b"hello", 3), (*b"there", 9), (*b"world", 4)];
    assert_eq!(NaiveGuesser::new().pick_best(&scored), Ok(*b"there"));
    assert_eq!(NaiveGuesser::new().pick_best(&scored[..1]), Ok(*b"hello"));
}

#[test]
fn pick_best_keeps_the_first_of_equal_scores() {
    let scored = [(*b"hello", 7), (*b"there", 9), (*b"world", 9), (*b"crane", 9)];
    assert_eq!(NaiveGuesser::new().pick_best(&scored), Ok(*b"there"));
    let level = [(*b"world", 0), (*b"hello", 0)];
    assert_eq!(NaiveGuesser::new().pick_best(&level), Ok(*b"world"));
}

#[test]
fn pick_best_of_nothing_fails() {
    assert_eq!(
        NaiveGuesser::new().pick_best(&[]),
        Err(SolveError::EmptyCandidateSet)
    );
}

#[test]
fn rank_orders_by_falling_score() {
    let scored = [
        (*b"hello", 3),
        (*b"there", 9),
        (*b"world", 4),
        (*b"crane", 9),
        (*b"slate", 0),
    ];
    let ranked = NaiveGuesser::new().rank(&scored);
    let scores: Vec<u64> = ranked.iter().map(|e| e.1).collect();
    assert_eq!(scores, vec![9, 9, 4, 3, 0]);
    let mut words: Vec<ByteStr> = ranked.iter().map(|e| e.0).collect();
    words.sort();
    assert_eq!(words, vec![*b"crane", *b"hello", *b"slate", *b"there", *b"world"]);
    assert_eq!(ranked[2], (*b"world", 4));
}

#[test]
fn top_k_is_sorted_and_cut_to_length() {
    let scored: Vec<(ByteStr, u64)> = lexicon()
        .iter()
        .enumerate()
        .map(|(i, w)| (*w, ((i * 7) % 11) as u64))
        .collect();
    for k in [0usize, 1, 3, 10, 15, 16, 100] {
        let best = NaiveGuesser::new().top_k(&scored, k);
        assert_eq!(best.len(), k.min(scored.len()));
        assert!(best.windows(2).all(|pair| pair[0].1 >= pair[1].1));
        assert!(best.iter().all(|entry| scored.contains(entry)));
        if let Some(last) = best.last() {
            let better = scored.iter().filter(|e| e.1 > last.1).count();
            assert!(better < best.len());
        }
    }
    assert_eq!(NaiveGuesser::new().top_k(&scored, 1)[0].1, 10);
}

#[test]
fn top_k_of_nothing_is_empty() {
    assert!(NaiveGuesser::new().top_k(&[], 10).is_empty());
}

#[test]
fn guess_information_counts_the_words_that_fit() {
    let words = lexicon();
    let guess = Guess {
        word: *b"crane",
        mask: Correctness::check(b"hello", b"crane"),
    };
    assert_eq!(
        NaiveGuesser::new().guess_information(&words, &guess),
        Narrowing { kept: 7, total: 15 }
    );
    let guess = Guess {
        word: *b"shell",
        mask: Correctness::check(b"hello", b"shell"),
    };
    assert_eq!(
        NaiveGuesser::new().guess_information(&words, &guess),
        Narrowing { kept: 1, total: 15 }
    );
    // The guessed word itself counts where it fits its own verdicts.
    let guess = Guess {
        word: *b"hello",
        mask: Correctness::check(b"hello", b"hello"),
    };
    assert_eq!(
        NaiveGuesser::new().guess_information(&words, &guess),
        Narrowing { kept: 1, total: 15 }
    );
    assert_eq!(
        NaiveGuesser::new().guess_information(&[], &guess),
        Narrowing { kept: 0, total: 0 }
    );
}

#[test]
fn calc_goodness_hands_the_histogram_to_the_scorer() {
    let words = lexicon();
    let guesser = NaiveGuesser::new();
    assert_eq!(guesser.calc_goodness(b"shell", &words, &filled_buckets), 13);
    assert_eq!(guesser.calc_goodness(b"hello", &words, &filled_buckets), 11);
    assert_eq!(guesser.calc_goodness(b"crane", &words, &filled_buckets), 7);
    let seen = guesser.calc_goodness(b"hello", &words, &|table: &[usize; 243], n: usize| {
        (table[12] * 1000 + n) as u64
    });
    assert_eq!(seen, 5015);
}

#[test]
fn calc_goodness_with_entropy() {
    let guesser = NaiveGuesser::new();
    let bits = |word: &ByteStr, words: &[ByteStr]| {
        f64::from_bits(guesser.calc_goodness(word, words, &entropy_key))
    };
    assert_eq!(bits(b"abcde", &[*b"abcde", *b"fghij"]), 1.0);
    assert_eq!(
        bits(b"abcde", &[*b"abcde", *b"fghij", *b"abcdx", *b"klmno"]),
        1.5
    );
    assert_eq!(bits(b"abcde", &[*b"abcde"]), 0.0);
    assert_eq!(bits(b"fghij", &[*b"abcde"]), 0.0);
    assert_eq!(bits(b"abcde", &[]), 0.0);
    let words = lexicon();
    for word in words.iter() {
        assert!(bits(word, &words) >= 0.0);
    }
    assert!((bits(b"shell", &words) - 3.640223928941852).abs() < 1e-9);
}

#[test]
fn score_all_keeps_the_order_of_the_words() {
    let words = lexicon();
    let scored = NaiveGuesser::new().score_all(&words, &filled_buckets);
    let expected: Vec<u64> = vec![11, 11, 11, 12, 7, 10, 12, 13, 7, 12, 10, 11, 10, 7, 11];
    assert_eq!(scored.len(), words.len());
    for i in 0..words.len() {
        assert_eq!(scored[i], (words[i], expected[i]));
    }
}

#[test]
fn guess_takes_the_best_candidate() {
    let words = lexicon();
    let guesser = NaiveGuesser::new();
    assert_eq!(guesser.guess(&words, &filled_buckets), Ok(*b"shell"));
    assert_eq!(guesser.guess(&words, &entropy_key), Ok(*b"shell"));
}

#[test]
fn guess_keeps_the_first_of_equal_candidates() {
    let guesser = NaiveGuesser::new();
    assert_eq!(
        guesser.guess(&[*b"jelly", *b"cello"], &entropy_key),
        Ok(*b"jelly")
    );
    assert_eq!(
        guesser.guess(&[*b"cello", *b"jelly"], &entropy_key),
        Ok(*b"cello")
    );
    let left = [
        *b"hello", *b"flees", *b"hells", *b"jelly", *b"helps", *b"shell", *b"hotel",
    ];
    assert_eq!(guesser.guess(&left, &filled_buckets), Ok(*b"hello"));
}

#[test]
fn guess_over_nothing_fails() {
    assert_eq!(
        NaiveGuesser::new().guess(&[], &entropy_key),
        Err(SolveError::EmptyCandidateSet)
    );
}

#[test]
fn calc_best_guesses_gives_the_ten_best() {
    let words = lexicon();
    let best = NaiveGuesser::new().calc_best_guesses(&words, &filled_buckets);
    let scores: Vec<u64> = best.iter().map(|e| e.1).collect();
    assert_eq!(scores, vec![13, 12, 12, 12, 11, 11, 11, 11, 11, 10]);
    assert_eq!(best[0].0, *b"shell");
    let few = NaiveGuesser::new().calc_best_guesses(&words[..3], &entropy_key);
    assert_eq!(few.len(), 3);
    assert!(few.windows(2).all(|pair| pair[0].1 >= pair[1].1));
}
