use wordle_solver::marks::{check_exceptive_gray, is_valid_feedback};
use wordle_solver::scoring::{
    calc_expected_reduction, calc_letter_scores, calc_word_score, max_index, REFERENCE_POS,
};
use wordle_solver::solver::{new_solver, SolveError};
use wordle_solver::vocab::parse_vocab;
use wordle_solver::words::{
    calc_gray_words, calc_green_words, calc_yellow_words, check_word, word_contains,
};

fn words(list: &[&str]) -> Vec<String> {
    list.iter().map(|s| s.to_string()).collect()
}

fn candidate_list() -> Vec<String> {
    words(&[
        "apple", "bacon", "crane", "habit", "tabby", "manor", "quirk", "robin", "pluck", "llama",
        "salad", "zebra",
    ])
}

#[test]
fn calc_words_works_correctly() {
    let candidate = candidate_list();

    let g = calc_green_words('a', 1, &candidate);
    let y = calc_yellow_words('a', 1, &candidate);
    let gray = calc_gray_words('a', &candidate);
    assert_eq!(candidate.len(), g.len() + y.len() + gray.len());
}

#[test]
fn filters_split_words_by_mark() {
    let candidate = candidate_list();
    let g = calc_green_words('a', 1, &candidate);
    let y = calc_yellow_words('a', 1, &candidate);
    let gray = calc_gray_words('a', &candidate);
    assert_eq!(g, words(&["bacon", "habit", "tabby", "manor", "salad"]));
    assert_eq!(y, words(&["apple", "crane", "llama", "zebra"]));
    assert_eq!(gray, words(&["quirk", "robin", "pluck"]));
    for w in g.iter() {
        assert!(!y.contains(w) && !gray.contains(w));
    }
    for w in y.iter() {
        assert!(!gray.contains(w));
    }
}

#[test]
fn filters_on_empty_list() {
    let empty: Vec<String> = Vec::new();
    assert!(calc_green_words('a', 0, &empty).is_empty());
    assert!(calc_yellow_words('a', 0, &empty).is_empty());
    assert!(calc_gray_words('a', &empty).is_empty());
}

#[test]
fn word_contains_finds_letters() {
    assert!(word_contains(&"apple".to_string(), 'e'));
    assert!(!word_contains(&"apple".to_string(), 'z'));
}

#[test]
fn expected_reduction_value() {
    let vocab = words(&["apple", "bacon", "crane"]);
    assert_eq!(calc_expected_reduction('a', 1, &vocab), 4);
    assert_eq!(calc_expected_reduction('z', 1, &vocab), 0);
}

#[test]
fn letter_scores_table() {
    let vocab = words(&["apple", "allot", "below"]);
    let table = calc_letter_scores(&vocab);
    assert_eq!(REFERENCE_POS, 1);
    assert_eq!(table.len(), 26);
    assert_eq!(table[0], 4);
    assert_eq!(table[(b'p' - b'a') as usize], 4);
    assert_eq!(table[(b'l' - b'a') as usize], 4);
    assert_eq!(table[(b'e' - b'a') as usize], 6);
    assert_eq!(table[(b'z' - b'a') as usize], 0);
}

#[test]
fn word_score_counts_distinct_letters_once() {
    let scores: Vec<u128> = (1..=26).map(|k| k as u128 * 10).collect();
    let a = scores[0];
    let p = scores[(b'p' - b'a') as usize];
    let l = scores[(b'l' - b'a') as usize];
    let e = scores[(b'e' - b'a') as usize];
    assert_eq!(calc_word_score(&"apple".to_string(), &scores), a + p + l + e);
    assert_eq!(calc_word_score(&"aaaaa".to_string(), &scores), a);
    assert_eq!(calc_word_score(&"aplee".to_string(), &scores), a + p + l + e);
}

#[test]
fn max_index_picks_first_largest() {
    assert_eq!(max_index(&vec![3, 7, 7, 1]), 1);
    assert_eq!(max_index(&vec![9]), 0);
    assert_eq!(max_index(&vec![]), 0);
}

#[test]
fn exceptive_gray_detection() {
    let word = "sabal".to_string();
    assert!(check_exceptive_gray(&word, &".g...".to_string(), 3));
    assert!(!check_exceptive_gray(&word, &".y...".to_string(), 3));
    assert!(!check_exceptive_gray(&word, &"ggggg".to_string(), 2));
}

#[test]
fn feedback_validation() {
    assert!(is_valid_feedback(&"gy.g.".to_string()));
    assert!(!is_valid_feedback(&"gy.g".to_string()));
    assert!(!is_valid_feedback(&"gy.gx".to_string()));
    assert!(!is_valid_feedback(&"gy.g.g".to_string()));
}

#[test]
fn sole_candidate_is_the_attempt() {
    let solver = new_solver(words(&["crane"]), Vec::new());
    assert_eq!(solver.attempt(), Ok("crane".to_string()));
}

#[test]
fn perfect_match_keeps_sole_candidate() {
    let mut solver = new_solver(words(&["crane"]), words(&["crane", "apple"]));
    assert_eq!(solver.feedback("crane".to_string(), "ggggg".to_string()), Ok(()));
    assert_eq!(solver.candidates(), &words(&["crane"]));
    assert_eq!(solver.attempt(), Ok("crane".to_string()));
}

#[test]
fn absent_shadowed_by_correct_is_skipped() {
    let mut solver = new_solver(words(&["cabin", "habit", "tabby", "manor"]), Vec::new());
    assert_eq!(solver.feedback("sabal".to_string(), ".g...".to_string()), Ok(()));
    assert_eq!(solver.candidates(), &words(&["manor"]));
}

#[test]
fn repeated_absent_filters_once() {
    let start = words(&["quirk", "robin", "pluck", "bongo"]);
    let mut solver = new_solver(start.clone(), Vec::new());
    assert_eq!(solver.feedback("oxoxx".to_string(), ".....".to_string()), Ok(()));
    assert_eq!(solver.candidates(), &calc_gray_words('x', &calc_gray_words('o', &start)));
    assert_eq!(solver.candidates(), &words(&["quirk", "pluck"]));
}

#[test]
fn all_absent_end_to_end() {
    let vocab = words(&["apple", "allot", "below"]);
    let mut solver = new_solver(vocab.clone(), vocab);
    assert_eq!(solver.attempt(), Ok("below".to_string()));
    assert_eq!(solver.feedback("apple".to_string(), ".....".to_string()), Ok(()));
    for w in solver.candidates().iter() {
        assert!(!w.contains(|c| "aple".contains(c)));
    }
    assert!(solver.candidates().is_empty());
    assert_eq!(solver.attempt(), Err(SolveError::NoCandidates));
}

#[test]
fn ties_go_to_the_first_guess() {
    let cands = words(&["cabin", "habit", "tabby", "manor"]);
    let whole = words(&["cabin", "habit", "tabby", "manor", "crane"]);
    let solver = new_solver(cands, whole);
    assert_eq!(solver.attempt(), Ok("cabin".to_string()));
}

#[test]
fn no_guess_vocabulary() {
    let solver = new_solver(words(&["cabin", "habit"]), Vec::new());
    assert_eq!(solver.attempt(), Err(SolveError::NoGuesses));
}

#[test]
fn invalid_mark_leaves_candidates() {
    let start = words(&["cabin", "habit", "tabby"]);
    let mut solver = new_solver(start.clone(), Vec::new());
    assert_eq!(
        solver.feedback("cabin".to_string(), "gxg.z".to_string()),
        Err(SolveError::InvalidMark { position: 1, mark: 'x' })
    );
    assert_eq!(solver.candidates(), &start);
}

#[test]
fn short_feedback_stops_early() {
    let mut solver = new_solver(words(&["cabin", "habit", "tabby"]), Vec::new());
    assert_eq!(solver.feedback("cabin".to_string(), "g".to_string()), Ok(()));
    assert_eq!(solver.candidates(), &words(&["cabin"]));
    let mut other = new_solver(words(&["cabin", "habit", "tabby"]), Vec::new());
    assert_eq!(other.feedback("tbxxx".to_string(), "g\nzzz".to_string()), Ok(()));
    assert_eq!(other.candidates(), &words(&["tabby"]));
}

#[test]
fn present_mark_narrows() {
    let mut solver = new_solver(words(&["cabin", "habit", "tabby", "manor"]), Vec::new());
    assert_eq!(solver.feedback("bxxxx".to_string(), "y....".to_string()), Ok(()));
    assert_eq!(solver.candidates(), &words(&["cabin", "habit", "tabby"]));
}

#[test]
fn parse_vocab_keeps_non_empty_lines() {
    let text = "apple\nbelow\n\ncrane\n";
    assert_eq!(parse_vocab(text), words(&["apple", "below", "crane"]));
    assert!(parse_vocab("").is_empty());
    assert_eq!(parse_vocab("allot"), words(&["allot"]));
}

#[test]
fn check_word_accepts_game_words() {
    assert!(check_word(&"crane".to_string()));
    assert!(!check_word(&"cran".to_string()));
    assert!(!check_word(&"Crane".to_string()));
    assert!(!check_word(&"cranes".to_string()));
}

#[test]
fn narrowing_keeps_only_earlier_candidates() {
    let start = candidate_list();
    let mut solver = new_solver(start.clone(), Vec::new());
    assert_eq!(solver.feedback("bxxxx".to_string(), "y....".to_string()), Ok(()));
    assert!(solver.candidates().len() < start.len());
    for w in solver.candidates().iter() {
        assert!(start.contains(w));
    }
    assert_eq!(solver.candidates(), &words(&["habit", "tabby", "robin", "zebra"]));
}
