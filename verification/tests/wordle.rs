use wordle_solver::Correctness::{Correct, Misplaced, Wrong};
use wordle_solver::{
    default_answer, simulate, str5, ByteStr, Correctness, Narrowing, SolveError, Wordle,
    MAX_ROUNDS,
};

fn game_words() -> Vec<ByteStr> {
    [
        b"hello", b"there", b"flees", b"hells", b"jelly", b"cello", b"helps", b"shell", b"world",
        b"hotel", b"later", b"alert", b"alter", b"crane", b"slate",
    ]
    .iter()
    .map(|w| **w)
    .collect()
}

fn entropy_bits(table: &[usize; 243], n: usize) -> u64 {
    let mut sum = 0f64;
    for &count in table.iter() {
        if count != 0 {
            let p = count as f64 / n as f64;
            sum += p * p.log2().abs();
        }
    }
    sum.to_bits()
}

fn bucket_count(table: &[usize; 243], _n: usize) -> u64 {
    table.iter().filter(|&&count| count != 0).count() as u64
}

#[test]
fn simulate_reports_the_round_of_the_hit() {
    let words = game_words();
    let expected: [(&[u8; 5], usize); 6] = [
        (b"shell", 0),
        (b"hello", 1),
        (b"crane", 1),
        (b"slate", 1),
        (b"cello", 2),
        (b"alter", 2),
    ];
    for (answer, round) in expected {
        assert_eq!(simulate(&words, answer, 17, &entropy_bits), Ok(round));
        assert_eq!(simulate(&words, answer, 17, &bucket_count), Ok(round));
    }
}

#[test]
fn simulate_finds_every_word_of_the_list() {
    let words = game_words();
    for answer in words.iter() {
        let rounds = simulate(&words, answer, words.len(), &entropy_bits);
        assert!(matches!(rounds, Ok(round) if round < words.len()));
    }
}

#[test]
fn simulate_follows_the_scorer() {
    // A scorer that rates every guess alike makes each round take the first
    // candidate left.
    let words = [*b"abcde", *b"abcdf", *b"abcdg", *b"abcdh"];
    let level = |_table: &[usize; 243], _n: usize| 0u64;
    assert_eq!(simulate(&words, b"abcde", 17, &level), Ok(0));
    assert_eq!(simulate(&words, b"abcdg", 17, &level), Ok(2));
    assert_eq!(simulate(&words, b"abcdh", 17, &level), Ok(3));
}

#[test]
fn simulate_runs_out_of_rounds() {
    let words = game_words();
    assert_eq!(
        simulate(&words, b"slate", 1, &entropy_bits),
        Err(SolveError::RoundBudgetExhausted)
    );
    assert_eq!(
        simulate(&words, b"cello", 2, &entropy_bits),
        Err(SolveError::RoundBudgetExhausted)
    );
    assert_eq!(simulate(&words, b"cello", 3, &entropy_bits), Ok(2));
    assert_eq!(
        simulate(&words, b"shell", 0, &entropy_bits),
        Err(SolveError::RoundBudgetExhausted)
    );
    assert_eq!(simulate(&words, b"shell", 1, &entropy_bits), Ok(0));
}

#[test]
fn simulate_runs_out_of_candidates() {
    let words = game_words();
    assert_eq!(
        simulate(&words, b"zzzzz", 17, &entropy_bits),
        Err(SolveError::EmptyCandidateSet)
    );
    assert_eq!(
        simulate(&words, b"small", 17, &entropy_bits),
        Err(SolveError::EmptyCandidateSet)
    );
    assert_eq!(
        simulate(&[], b"hello", 17, &entropy_bits),
        Err(SolveError::EmptyCandidateSet)
    );
    assert_eq!(
        simulate(&[], b"hello", 0, &entropy_bits),
        Err(SolveError::RoundBudgetExhausted)
    );
}

#[test]
fn wordle_starts_with_nothing_played() {
    let game = Wordle::new(game_words());
    assert!(game.history().is_empty());
    assert_eq!(game.answer(), *b"hello");
    assert_eq!(game.words(), &game_words());
    assert_eq!(game.available_words(), game_words());
    assert_eq!(default_answer(), *b"hello");
    assert_eq!(MAX_ROUNDS, 17);
}

#[test]
fn wordle_play_records_the_guess() {
    let mut game = Wordle::new(game_words());
    let (mask, narrowing) = game.play(b"crane");
    assert_eq!(mask, [Wrong, Wrong, Wrong, Wrong, Misplaced]);
    assert_eq!(narrowing, Narrowing { kept: 7, total: 15 });
    assert_eq!(game.history().len(), 1);
    assert_eq!(game.history()[0].word, *b"crane");
    assert_eq!(game.history()[0].mask, mask);
    assert_eq!(
        game.available_words(),
        vec![*b"hello", *b"flees", *b"hells", *b"jelly", *b"helps", *b"shell", *b"hotel"]
    );

    let (mask, narrowing) = game.play(b"hotel");
    assert_eq!(mask, [Correct, Misplaced, Wrong, Misplaced, Misplaced]);
    assert_eq!(narrowing, Narrowing { kept: 1, total: 7 });
    assert_eq!(game.history().len(), 2);
    assert_eq!(game.available_words(), vec![*b"hello"]);

    let (mask, narrowing) = game.play(b"hello");
    assert_eq!(mask, [Correct; 5]);
    assert_eq!(narrowing, Narrowing { kept: 1, total: 1 });
    assert!(game.available_words().is_empty());
}

#[test]
fn wordle_set_ans_changes_the_verdicts() {
    let mut game = Wordle::new(game_words());
    game.set_ans(b"there");
    assert_eq!(game.answer(), *b"there");
    let (mask, _) = game.play(b"flees");
    assert_eq!(mask, Correctness::check(b"there", b"flees"));
    assert_eq!(mask, [Wrong, Wrong, Correct, Misplaced, Wrong]);
}

#[test]
fn wordle_reset_forgets_the_game() {
    let mut game = Wordle::new(game_words());
    game.set_ans(b"there");
    game.play(b"crane");
    game.play(b"slate");
    game.reset();
    assert!(game.history().is_empty());
    assert_eq!(game.answer(), *b"hello");
    assert_eq!(game.words(), &game_words());
}

#[test]
fn wordle_simulate_plays_from_scratch_and_resets() {
    let mut game = Wordle::new(game_words());
    game.set_ans(b"world");
    game.play(b"crane");
    assert_eq!(game.simulate(b"alter", &entropy_bits), Ok(2));
    assert!(game.history().is_empty());
    assert_eq!(game.answer(), *b"hello");
    assert_eq!(game.simulate(b"shell", &entropy_bits), Ok(0));
    assert_eq!(
        game.simulate(b"zzzzz", &entropy_bits),
        Err(SolveError::EmptyCandidateSet)
    );
    assert_eq!(game.words(), &game_words());
}

#[test]
fn wordle_simulate_stops_after_seventeen_rounds() {
    // Twenty words that differ in their last letter only: every miss rules
    // out one word.
    let words: Vec<ByteStr> = (0..20u8).map(|i| [b'a', b'b', b'c', b'd', b'e' + i]).collect();
    let mut game = Wordle::new(words.clone());
    assert_eq!(game.simulate(&words[0], &entropy_bits), Ok(0));
    assert_eq!(game.simulate(&words[16], &entropy_bits), Ok(16));
    assert_eq!(
        game.simulate(&words[17], &entropy_bits),
        Err(SolveError::RoundBudgetExhausted)
    );
    assert_eq!(simulate(&words, &words[17], 18, &entropy_bits), Ok(17));
}

#[test]
fn wordle_scores_over_the_words_left() {
    let mut game = Wordle::new(game_words());
    assert_eq!(game.entropy_of(b"shell", &bucket_count), 13);
    game.play(b"crane");
    assert_eq!(game.entropy_of(b"hotel", &bucket_count), 6);
    assert_eq!(
        f64::from_bits(game.entropy_of(b"hotel", &entropy_bits)),
        2.5216406363433186
    );
    let table = game.distribution_of(b"hotel");
    assert_eq!(table.len(), 243);
    let filled: Vec<(usize, usize)> = table
        .iter()
        .enumerate()
        .filter(|(_, &count)| count != 0)
        .map(|(code, &count)| (code, count))
        .collect();
    assert_eq!(
        filled,
        vec![(108, 1), (110, 2), (113, 1), (135, 1), (190, 1), (242, 1)]
    );
    let best = game.calc_best_guesses(&bucket_count);
    let scores: Vec<u64> = best.iter().map(|e| e.1).collect();
    assert_eq!(scores, vec![7, 7, 7, 7, 6, 5, 5]);
    assert_eq!(best[4].0, *b"hotel");
}

#[test]
fn str5_takes_five_lowercase_letters() {
    assert_eq!(str5("hello"), Some(*b"hello"));
    assert_eq!(str5("azaza"), Some(*b"azaza"));
}

#[test]
fn str5_refuses_malformed_words() {
    assert_eq!(str5(""), None);
    assert_eq!(str5("hell"), None);
    assert_eq!(str5("helloo"), None);
    assert_eq!(str5("Hello"), None);
    assert_eq!(str5("hel o"), None);
    assert_eq!(str5("hell0"), None);
    assert_eq!(str5("h\u{e9}ll"), None);
    assert_eq!(str5("hell{"), None);
    assert_eq!(str5("`ello"), None);
}
