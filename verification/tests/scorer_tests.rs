use wordle_solver::scorer::{
    best_next_word, best_starting_words, best_starting_words_excluding_correct,
    find_results_distribution, word_cost, word_cost_excluding_correct,
};
use wordle_solver::wordle::Word;
use wordle_solver::WordleError;

fn word(s: &str) -> Word {
    Word::from_str(s).unwrap()
}

fn words(list: &[&str]) -> Vec<Word> {
    list.iter().map(|s| word(s)).collect()
}

#[test]
fn distribution_counts_feedback_buckets() {
    let ws = words(&["aaaaa", "aaaab"]);
    let mut freq = Vec::new();
    find_results_distribution(&word("aaaaa"), &ws, &mut freq);
    assert_eq!(freq.len(), 243);
    // "aaaaa" vs itself: all correct, code 0. Versus "aaaab": four exact
    // matches and a final NotExists, code 2.
    assert_eq!(freq[0], 1);
    assert_eq!(freq[2], 1);
    assert_eq!(freq.iter().sum::<usize>(), 2);
}

#[test]
fn cost_of_single_candidate() {
    // One candidate: its own bucket holds 1, the other 242 buckets hold 0,
    // so the scaled cost is (243*1 - 1)^2 + 242 * (0 - 1)^2.
    let ws = words(&["hello"]);
    let mut freq = Vec::new();
    let c = word_cost(&word("hello"), &ws, &mut freq);
    assert_eq!(c, 242 * 242 + 242);
}

#[test]
fn best_next_word_empty_set_is_an_error() {
    let ws: Vec<Word> = Vec::new();
    assert!(matches!(best_next_word(&ws), Err(WordleError::EmptyCandidateSet)));
}

#[test]
fn best_next_word_is_deterministic() {
    let ws = words(&["abide", "added", "adieu", "crane", "zonae"]);
    let first = best_next_word(&ws).unwrap();
    for _ in 0..3 {
        assert_eq!(best_next_word(&ws).unwrap(), first);
    }
}

#[test]
fn best_next_word_breaks_ties_lexicographically() {
    // The two words differ only in the last letter and split the pair
    // symmetrically, so their costs tie and the lexicographically smaller
    // one must win.
    let ws = words(&["aaaab", "aaaaa"]);
    assert_eq!(best_next_word(&ws).unwrap(), word("aaaaa"));
}

#[test]
fn best_starting_words_ranks_all_candidates() {
    let ws = words(&["aaaab", "aaaaa"]);
    let ranked = best_starting_words(&ws);
    assert_eq!(ranked.len(), 2);
    // Symmetric pair: each guess puts one word in the all-correct bucket and
    // one in a singleton bucket, so both cost
    // 2 * (243*1 - 2)^2 + 241 * (0 - 2)^2; the tie is broken by word order.
    let expected = 2 * 241 * 241 + 241 * 4;
    assert_eq!(ranked[0], (word("aaaaa"), expected));
    assert_eq!(ranked[1], (word("aaaab"), expected));
}

#[test]
fn best_starting_words_sorted_ascending() {
    let ws = words(&["abide", "added", "adieu", "crane", "zonae"]);
    let ranked = best_starting_words(&ws);
    assert_eq!(ranked.len(), ws.len());
    for pair in ranked.windows(2) {
        assert!(pair[0].1 <= pair[1].1);
        if pair[0].1 == pair[1].1 {
            assert!(pair[0].0.le(&pair[1].0));
        }
    }
    // The ranking agrees with the single-guess entry point.
    assert_eq!(ranked[0].0, best_next_word(&ws).unwrap());
    // Every input word appears exactly once.
    for w in &ws {
        assert_eq!(ranked.iter().filter(|p| p.0 == *w).count(), 1);
    }
}

#[test]
fn cost_excluding_correct_drops_the_exact_bucket() {
    // One candidate: with the all-correct bucket excluded only the 242 empty
    // buckets remain, each contributing (0 - 1)^2.
    let ws = words(&["hello"]);
    let mut freq = Vec::new();
    let c = word_cost_excluding_correct(&word("hello"), &ws, &mut freq);
    assert_eq!(c, 242);
    // The two configurations differ exactly by the all-correct term.
    let full = word_cost(&word("hello"), &ws, &mut freq);
    assert_eq!(full - c, 242 * 242);
}

#[test]
fn best_starting_words_excluding_correct_ranks_all_candidates() {
    let ws = words(&["aaaab", "aaaaa"]);
    let ranked = best_starting_words_excluding_correct(&ws);
    assert_eq!(ranked.len(), 2);
    // Symmetric pair: dropping each guess's own all-correct singleton bucket
    // leaves one singleton bucket and 241 empty ones.
    let expected = 241 * 241 + 241 * 4;
    assert_eq!(ranked[0], (word("aaaaa"), expected));
    assert_eq!(ranked[1], (word("aaaab"), expected));
}
