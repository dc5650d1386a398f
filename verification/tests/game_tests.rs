use wordle_solver::solver::run_game_with_answer;
use wordle_solver::wordle::{compare_words, Word};
use wordle_solver::{Game, GameState};

fn word(s: &str) -> Word {
    Word::from_str(s).unwrap()
}

fn words(list: &[&str]) -> Vec<Word> {
    list.iter().map(|s| word(s)).collect()
}

#[test]
fn guess_narrows_and_keeps_answer() {
    let dict = words(&["abide", "added", "adieu", "crane", "zonae"]);
    let answer = word("adieu");
    let mut g = Game::new(&dict, &answer);

    let before = g.words_left.clone();
    let state = g.guess(&word("crane"));
    assert_eq!(state, GameState::Running);
    // Monotonic narrowing: the new candidate set is a subset of the old one.
    for w in &g.words_left {
        assert!(before.contains(w));
    }
    // The true answer is always retained.
    assert!(g.words_left.contains(&answer));

    let state = g.guess(&word("abide"));
    assert_eq!(state, GameState::Running);
    assert!(g.words_left.contains(&answer));

    let state = g.guess(&answer);
    assert_eq!(state, GameState::Success);
}

#[test]
fn scenario_abide_against_adieu() {
    // After guessing "abide" against the answer "adieu", only the words whose
    // feedback against "abide" equals the answer's feedback remain.
    let dict = words(&["abide", "added", "adieu"]);
    let answer = word("adieu");
    let mut g = Game::new(&dict, &answer);

    g.guess(&word("abide"));
    let recorded = compare_words(&word("abide"), &answer);
    for w in &dict {
        let consistent = compare_words(&word("abide"), w).as_index() == recorded.as_index();
        assert_eq!(g.words_left.contains(w), consistent);
    }
    assert_eq!(g.words_left, words(&["adieu"]));
}

#[test]
fn game_terminates_within_six_guesses() {
    let dict = words(&["aaaaa", "bbbbb", "ccccc", "ddddd", "eeeee", "fffff", "ggggg", "hhhhh"]);
    let answer = word("aaaaa");
    let mut g = Game::new(&dict, &answer);

    let wrong = word("zzzzz");
    for turn in 1..=5 {
        let state = g.guess(&wrong);
        assert_eq!(state, GameState::Running, "turn {} should still run", turn);
    }
    let state = g.guess(&wrong);
    assert_eq!(state, GameState::Failure);
    assert_eq!(g.guesses.len(), 6);

    // A terminal game freezes: further guesses change nothing and return the
    // same status.
    let candidates_before = g.words_left.clone();
    let state = g.guess(&answer);
    assert_eq!(state, GameState::Failure);
    assert_eq!(g.guesses.len(), 6);
    assert_eq!(g.words_left, candidates_before);
}

#[test]
fn reset_restores_full_dictionary() {
    let dict = words(&["abide", "added", "adieu"]);
    let mut g = Game::new(&dict, &word("adieu"));
    g.guess(&word("abide"));
    assert!(g.words_left.len() < dict.len());

    g.reset_with_answer(&word("added"));
    assert_eq!(g.words_left, dict);
    assert_eq!(g.guesses.len(), 0);
    assert_eq!(g.answer, word("added"));
    assert_eq!(g.guess(&word("added")), GameState::Success);
}

#[test]
fn run_game_finds_answer_in_dictionary() {
    let dict = words(&["abide", "added", "adieu", "crane", "zonae"]);
    let mut g = Game::new(&dict, &word("abide"));
    for target in &dict {
        let won = run_game_with_answer(&mut g, target);
        assert!(won, "solver must find {:?}", target);
        assert_eq!(g.guesses.first(), Some(&word("rales")));
        assert_eq!(g.guesses.last(), Some(target));
        assert!(!g.guesses.is_empty() && g.guesses.len() <= 6);
    }
}
