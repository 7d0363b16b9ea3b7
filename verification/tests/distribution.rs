use wordle_solver::Correctness::{Correct, Misplaced, Wrong};
use wordle_solver::{same_mask, ByteStr, Correctness, Guess, MASK_COUNT};

fn word_list() -> Vec<ByteStr> {
    [
        b"hello", b"there", b"flees", b"hells", b"jelly", b"cello", b"helps", b"shell", b"world",
        b"hotel", b"later", b"alert", b"alter", b"crane", b"slate",
    ]
    .iter()
    .map(|w| **w)
    .collect()
}

#[test]
fn distribution_counts_each_bucket() {
    let words = word_list();
    let table = Guess::calc_distribution(&words, b"hello");
    let filled: Vec<(usize, usize)> = table
        .iter()
        .enumerate()
        .filter(|(_, &count)| count != 0)
        .map(|(code, &count)| (code, count))
        .collect();
    assert_eq!(
        filled,
        vec![
            (3, 1),
            (4, 1),
            (12, 5),
            (26, 1),
            (67, 1),
            (78, 1),
            (80, 1),
            (95, 1),
            (135, 1),
            (240, 1),
            (242, 1)
        ]
    );
}

#[test]
fn distribution_bucket_is_the_radix_of_the_check() {
    let words = word_list();
    let guess = *b"crane";
    let table = Guess::calc_distribution(&words, &guess);
    for code in 0..MASK_COUNT {
        let expected = words
            .iter()
            .filter(|w| Correctness::mask_radix(&Correctness::check(w, &guess)) == code)
            .count();
        assert_eq!(table[code], expected);
    }
}

#[test]
fn distribution_sums_to_the_number_of_words() {
    let words = word_list();
    for guess in words.iter() {
        let table = Guess::calc_distribution(&words, guess);
        assert_eq!(table.iter().sum::<usize>(), words.len());
    }
    let outside = Guess::calc_distribution(&words, b"zzzzz");
    assert_eq!(outside.iter().sum::<usize>(), 15);
    assert_eq!(outside[0], 15);
}

#[test]
fn distribution_over_no_word_is_empty() {
    let table = Guess::calc_distribution(&[], b"hello");
    assert_eq!(table.len(), 243);
    assert!(table.iter().all(|&count| count == 0));
}

#[test]
fn distribution_over_one_word_fills_one_bucket() {
    let table = Guess::calc_distribution(&[*b"hello"], b"there");
    assert_eq!(table[12], 1);
    assert_eq!(table.iter().sum::<usize>(), 1);
    let own = Guess::calc_distribution(&[*b"hello"], b"hello");
    assert_eq!(own[242], 1);
}

#[test]
fn distribution_counts_repeated_words() {
    let table = Guess::calc_distribution(&[*b"hello", *b"hello", *b"there"], b"hello");
    assert_eq!(table[242], 2);
    assert_eq!(table[4], 1);
}

#[test]
fn guess_matches_words_that_draw_its_mask() {
    let guess = Guess {
        word: *b"there",
        mask: [Wrong, Misplaced, Misplaced, Wrong, Wrong],
    };
    assert!(guess.matches(b"hello"));
    assert!(!guess.matches(b"there"));
    assert!(!guess.matches(b"world"));
    let found = Guess {
        word: *b"there",
        mask: [Correct; 5],
    };
    assert!(found.matches(b"there"));
    assert!(!found.matches(b"three"));
}

#[test]
fn same_mask_compares_verdicts() {
    assert!(same_mask(&[Wrong; 5], &[Wrong; 5]));
    assert!(!same_mask(
        &[Wrong; 5],
        &[Wrong, Wrong, Wrong, Wrong, Misplaced]
    ));
}
