use wordle_solver::parser::{apply_board, parse_board, parse_word_list};
use wordle_solver::wordle::{compare_words, CompareResult, State, Word};
use wordle_solver::WordleError;

fn word(s: &str) -> Word {
    Word::from_str(s).unwrap()
}

fn words(list: &[&str]) -> Vec<Word> {
    list.iter().map(|s| word(s)).collect()
}

fn code(states: [State; 5]) -> usize {
    CompareResult::from_states(states).as_index()
}

#[test]
fn word_list_is_parsed_and_sorted() {
    let ws = parse_word_list("crane\nabide\nzonae\nadded").unwrap();
    assert_eq!(ws, words(&["abide", "added", "crane", "zonae"]));
    // A trailing newline does not add an empty word.
    let ws = parse_word_list("crane\nabide\n").unwrap();
    assert_eq!(ws, words(&["abide", "crane"]));
    // Duplicates are kept.
    let ws = parse_word_list("crane\ncrane").unwrap();
    assert_eq!(ws, words(&["crane", "crane"]));
}

#[test]
fn word_list_rejects_wrong_lengths() {
    assert!(matches!(
        parse_word_list("crane\nabcdef\nzonae"),
        Err(WordleError::InvalidWordLength)
    ));
    assert!(matches!(
        parse_word_list("crane\n\nzonae"),
        Err(WordleError::InvalidWordLength)
    ));
}

#[test]
fn empty_word_list_is_empty() {
    assert_eq!(parse_word_list("").unwrap(), Vec::<Word>::new());
}

#[test]
fn board_is_parsed_line_by_line() {
    let board = parse_board("abide gybgg\n  crane bbbbb  \n\n").unwrap();
    assert_eq!(board.len(), 2);
    assert_eq!(board[0].0, word("abide"));
    assert_eq!(
        board[0].1.as_index(),
        code([
            State::CorrectLocation,
            State::IncorrectLocation,
            State::NotExists,
            State::CorrectLocation,
            State::CorrectLocation,
        ])
    );
    assert_eq!(board[1].0, word("crane"));
    assert_eq!(board[1].1.as_index(), code([State::NotExists; 5]));
}

#[test]
fn empty_board_is_empty() {
    assert_eq!(parse_board("").unwrap().len(), 0);
    assert_eq!(parse_board("  \n\n  ").unwrap().len(), 0);
}

#[test]
fn malformed_board_lines_fail_the_whole_parse() {
    // Word token too short.
    assert!(matches!(
        parse_board("abcd ggggg"),
        Err(WordleError::MalformedBoardLine)
    ));
    // Feedback letter outside g/y/b.
    assert!(matches!(
        parse_board("abcde ggxgg"),
        Err(WordleError::MalformedBoardLine)
    ));
    // Missing separator between the tokens.
    assert!(matches!(
        parse_board("abcdeggggg"),
        Err(WordleError::MalformedBoardLine)
    ));
    // A malformed second line poisons the parse even though the first is
    // fine.
    assert!(matches!(
        parse_board("abcde ggggg\nnonsense"),
        Err(WordleError::MalformedBoardLine)
    ));
    // A blank line in the middle is not a trailing blank line.
    assert!(matches!(
        parse_board("abcde ggggg\n\nfghij bbbbb"),
        Err(WordleError::MalformedBoardLine)
    ));
    // Trailing garbage after the feedback token.
    assert!(matches!(
        parse_board("abcde ggggg extra"),
        Err(WordleError::MalformedBoardLine)
    ));
    // Non-alphabetic word token.
    assert!(matches!(
        parse_board("abc1e ggggg"),
        Err(WordleError::MalformedBoardLine)
    ));
}

#[test]
fn board_filters_candidates_like_the_game() {
    let dict = words(&["abide", "added", "adieu"]);
    let guess = word("abide");
    let answer = word("adieu");
    let recorded = compare_words(&guess, &answer);
    let entries = vec![(guess, recorded)];

    let remaining = apply_board(&dict, &entries);
    assert_eq!(remaining, words(&["adieu"]));

    // Applying an empty board changes nothing.
    let remaining = apply_board(&dict, &[]);
    assert_eq!(remaining, dict);
}
