use wordle_solver::wordle::{compare_words, CompareResult, State, Word};

fn word(s: &str) -> Word {
    Word::from_str(s).unwrap()
}

fn code(states: [State; 5]) -> usize {
    CompareResult::from_states(states).as_index()
}

#[test]
fn compare_self_is_all_correct() {
    for s in ["hello", "rales", "zzzzz", "abide"] {
        let w = word(s);
        let r = compare_words(&w, &w);
        assert_eq!(r.as_index(), 0);
        assert_eq!(
            r.as_index(),
            code([State::CorrectLocation; 5]),
            "all-CorrectLocation must encode to 0"
        );
    }
}

#[test]
fn compare_abcde_edcba() {
    // Every letter of the guess occurs in the answer, but only the middle one
    // in place.
    let r = compare_words(&word("abcde"), &word("edcba"));
    let expected = code([
        State::IncorrectLocation,
        State::IncorrectLocation,
        State::CorrectLocation,
        State::IncorrectLocation,
        State::IncorrectLocation,
    ]);
    assert_eq!(r.as_index(), expected);
}

#[test]
fn compare_consume_on_match() {
    // "aabbb" vs "ababa": position 0 claims its `a` exactly; position 1's `a`
    // finds the unclaimed `a` at answer position 2; position 3 claims its `b`
    // exactly, leaving one free `b` for position 2; position 4's `b` finds no
    // unclaimed `b` left.
    let r = compare_words(&word("aabbb"), &word("ababa"));
    let expected = code([
        State::CorrectLocation,
        State::IncorrectLocation,
        State::IncorrectLocation,
        State::CorrectLocation,
        State::NotExists,
    ]);
    assert_eq!(r.as_index(), expected);
}

#[test]
fn compare_never_overcounts_a_letter() {
    // The answer holds two `a`s, both matched exactly; the remaining guess
    // `a`s must not claim them again.
    let r = compare_words(&word("aaaaa"), &word("abcda"));
    let expected = code([
        State::CorrectLocation,
        State::NotExists,
        State::NotExists,
        State::NotExists,
        State::CorrectLocation,
    ]);
    assert_eq!(r.as_index(), expected);

    // One `e` in the answer, two in the guess: only the first non-exact `e`
    // is marked present.
    let r = compare_words(&word("eexyz"), &word("abcde"));
    let expected = code([
        State::IncorrectLocation,
        State::NotExists,
        State::NotExists,
        State::NotExists,
        State::NotExists,
    ]);
    assert_eq!(r.as_index(), expected);
}

#[test]
fn encoding_is_base_3() {
    assert_eq!(code([State::NotExists; 5]), 242);
    assert_eq!(
        code([
            State::CorrectLocation,
            State::CorrectLocation,
            State::CorrectLocation,
            State::CorrectLocation,
            State::IncorrectLocation,
        ]),
        1
    );
    assert_eq!(
        code([
            State::IncorrectLocation,
            State::CorrectLocation,
            State::CorrectLocation,
            State::CorrectLocation,
            State::CorrectLocation,
        ]),
        81
    );
}

#[test]
fn word_round_trip() {
    for s in ["hello", "rales", "adieu"] {
        let w = word(s);
        let text = w.render();
        assert_eq!(text, s);
        let again = Word::from_str(&text).unwrap();
        assert_eq!(again, w);
        assert_eq!(again.render(), text);
    }
}

#[test]
fn word_rejects_wrong_length() {
    assert!(matches!(
        Word::from_str("abcd"),
        Err(wordle_solver::WordleError::InvalidWordLength)
    ));
    assert!(matches!(
        Word::from_str("abcdef"),
        Err(wordle_solver::WordleError::InvalidWordLength)
    ));
    assert!(matches!(
        Word::from_str(""),
        Err(wordle_solver::WordleError::InvalidWordLength)
    ));
}

#[test]
fn word_ordering_is_lexicographic() {
    let a = word("abide");
    let b = word("abode");
    assert!(a.le(&b));
    assert!(!b.le(&a));
    assert!(a.le(&a));
}
