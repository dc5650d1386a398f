//! Text input: the line-oriented dictionary and the board record.
//!
//! A board record holds one prior guess per line: the guessed word, then its
//! feedback as five letters, one per position — `g` for `CorrectLocation`,
//! `y` for `IncorrectLocation`, `b` for `NotExists` — separated by spaces.
//! Blank trailing lines are ignored; any other malformed line fails the
//! whole parse.

use vstd::multiset::Multiset;
use vstd::prelude::*;
use vstd::string::StringSliceAdditionalSpecFns;

use crate::wordle::{compare_spec, compare_words, encode_prefix, CompareResult, State, Word, WordleError};

verus! {

/// The ASCII blank bytes a board line may hold around its tokens: space and
/// horizontal tab.
pub open spec fn is_space(b: u8) -> bool {
    b == 32 || b == 9
}

/// ASCII letters, the only bytes a board word token may hold.
pub open spec fn is_alpha(b: u8) -> bool {
    (65 <= b && b <= 90) || (97 <= b && b <= 122)
}

/// Index of the first newline at or after `from`, or the length when none
/// remains.
pub open spec fn find_newline(bytes: Seq<u8>, from: int) -> int
    decreases bytes.len() - from,
{
    if from >= bytes.len() {
        bytes.len() as int
    } else if bytes[from] == 10 {
        from
    } else {
        find_newline(bytes, from + 1)
    }
}

proof fn lemma_find_newline(bytes: Seq<u8>, from: int)
    requires
        0 <= from <= bytes.len(),
    ensures
        from <= find_newline(bytes, from),
        find_newline(bytes, from) <= bytes.len(),
    decreases bytes.len() - from,
{
    if from < bytes.len() && bytes[from] != 10 {
        lemma_find_newline(bytes, from + 1);
    }
}

/// A line minus its trailing carriage return, if it carries one.
pub open spec fn strip_cr(line: Seq<u8>) -> Seq<u8> {
    if line.len() > 0 && line.last() == 13 {
        line.drop_last()
    } else {
        line
    }
}

/// The lines of `bytes` from position `from` on: split at each newline, one
/// trailing carriage return removed per line; a final newline ends the last
/// line rather than opening an empty one.
pub open spec fn lines_from(bytes: Seq<u8>, from: int) -> Seq<Seq<u8>>
    decreases bytes.len() - from + 1,
    when from >= 0
    via lines_from_decreases
{
    if from >= bytes.len() {
        Seq::empty()
    } else {
        seq![strip_cr(bytes.subrange(from, find_newline(bytes, from)))] + lines_from(
            bytes,
            find_newline(bytes, from) + 1,
        )
    }
}

#[via_fn]
proof fn lines_from_decreases(bytes: Seq<u8>, from: int) {
    if from < bytes.len() {
        lemma_find_newline(bytes, from);
    }
}

/// Splits `bytes` into its lines.
#[verifier::loop_isolation(false)]
fn split_lines(bytes: &[u8]) -> (ls: Vec<Vec<u8>>)
    ensures
        ls@.map_values(|l: Vec<u8>| l@) =~= lines_from(bytes@, 0),
{
    let mut ls: Vec<Vec<u8>> = Vec::new();
    let mut from: usize = 0;
    while from < bytes.len()
        invariant
            0 <= from,
            lines_from(bytes@, 0) =~= ls@.map_values(|l: Vec<u8>| l@) + lines_from(
                bytes@,
                from as int,
            ),
        decreases bytes@.len() - from,
    {
        let mut j: usize = from;
        while j < bytes.len() && *vstd::slice::slice_index_get(bytes, j) != 10
            invariant
                from <= j <= bytes@.len(),
                find_newline(bytes@, from as int) == find_newline(bytes@, j as int),
            decreases bytes@.len() - j,
        {
            j += 1;
        }
        proof {
            assert(find_newline(bytes@, from as int) == j);
        }
        let end = if j > from && *vstd::slice::slice_index_get(bytes, j - 1) == 13 {
            j - 1
        } else {
            j
        };
        let mut line: Vec<u8> = Vec::new();
        let mut k: usize = from;
        while k < end
            invariant
                from <= k <= end,
                line@ =~= bytes@.subrange(from as int, k as int),
            decreases end - k,
        {
            line.push(*vstd::slice::slice_index_get(bytes, k));
            proof {
                assert(line@ =~= bytes@.subrange(from as int, k + 1));
            }
            k += 1;
        }
        proof {
            assert(line@ =~= strip_cr(bytes@.subrange(from as int, j as int))) by {
                if end < j {
                    assert(bytes@.subrange(from as int, j as int).last() == 13);
                    assert(bytes@.subrange(from as int, j as int).drop_last() =~= bytes@.subrange(
                        from as int,
                        end as int,
                    ));
                } else {
                    assert(!(bytes@.subrange(from as int, j as int).len() > 0 && bytes@.subrange(
                        from as int,
                        j as int,
                    ).last() == 13));
                }
            }
            let ghost prev = ls@.map_values(|l: Vec<u8>| l@);
            assert(prev.push(line@) =~= ls@.push(line).map_values(|l: Vec<u8>| l@));
            assert(lines_from(bytes@, from as int) == seq![line@] + lines_from(bytes@, j + 1));
            assert(prev + lines_from(bytes@, from as int) =~= prev.push(line@) + lines_from(
                bytes@,
                j + 1,
            ));
        }
        let next_from = if j < bytes.len() {
            j + 1
        } else {
            bytes.len()
        };
        proof {
            assert(lines_from(bytes@, j + 1) =~= lines_from(bytes@, next_from as int));
        }
        ls.push(line);
        from = next_from;
    }
    proof {
        assert(lines_from(bytes@, from as int) =~= Seq::<Seq<u8>>::empty());
        assert(ls@.map_values(|l: Vec<u8>| l@) + lines_from(bytes@, from as int) =~= ls@.map_values(
            |l: Vec<u8>| l@,
        ));
    }
    ls
}

/// Words sorted ascending by their letter sequences.
pub open spec fn sorted_words(ws: Seq<Word>) -> bool {
    forall|x: int, y: int|
        0 <= x < y < ws.len() ==> crate::wordle::lex_le(#[trigger] ws[x]@, #[trigger] ws[y]@, 0)
}

/// Every line is exactly one 5-byte word.
pub open spec fn all_lines_are_words(ls: Seq<Seq<u8>>) -> bool {
    forall|i: int| 0 <= i < ls.len() ==> (#[trigger] ls[i]).len() == 5
}

/// Parses a dictionary: one 5-letter word per line. Succeeds exactly when
/// every line is 5 bytes long, and then returns the words of all lines,
/// sorted ascending for deterministic tie-breaking downstream.
#[verifier::loop_isolation(false)]
pub fn parse_word_list(text: &str) -> (r: Result<Vec<Word>, WordleError>)
    ensures
        r is Ok <==> all_lines_are_words(lines_from(text.spec_bytes(), 0)),
        r matches Ok(ws) ==> {
            &&& sorted_words(ws@)
            &&& ws@.map_values(|w: Word| w@).to_multiset() == lines_from(
                text.spec_bytes(),
                0,
            ).to_multiset()
        },
        r matches Err(e) ==> e == WordleError::InvalidWordLength,
{
    broadcast use vstd::seq_lib::group_to_multiset_ensures;

    let bytes = text.as_bytes();
    let ls = split_lines(bytes);
    let ghost lines = lines_from(text.spec_bytes(), 0);
    let mut ws: Vec<Word> = Vec::new();
    let mut i: usize = 0;
    while i < ls.len()
        invariant
            0 <= i <= ls@.len(),
            ls@.map_values(|l: Vec<u8>| l@) =~= lines,
            ws@.map_values(|w: Word| w@) =~= lines.take(i as int),
        decreases ls@.len() - i,
    {
        let line = &ls[i];
        if line.len() != 5 {
            proof {
                assert(lines[i as int].len() != 5);
            }
            return Err(WordleError::InvalidWordLength);
        }
        let w = Word::from_letters([line[0], line[1], line[2], line[3], line[4]]);
        proof {
            assert(w@ =~= lines[i as int]);
            assert(ws@.push(w).map_values(|w: Word| w@) =~= ws@.map_values(|w: Word| w@).push(w@));
            assert(ws@.map_values(|w: Word| w@).push(w@) =~= lines.take(i + 1));
        }
        ws.push(w);
        i += 1;
    }
    proof {
        assert(lines.take(lines.len() as int) =~= lines);
        assert forall|j: int| 0 <= j < lines.len() implies (#[trigger] lines[j]).len() == 5 by {
            crate::wordle::lemma_word_view_len(ws@[j]);
            assert(ws@.map_values(|w: Word| w@)[j] == ws@[j]@);
        }
    }

    let mut out: Vec<Word> = Vec::new();
    let ghost target = lines.to_multiset();
    proof {
        assert(ws@.map_values(|w: Word| w@).to_multiset() =~= target);
    }
    while ws.len() > 0
        invariant
            out@.map_values(|w: Word| w@).to_multiset().add(
                ws@.map_values(|w: Word| w@).to_multiset(),
            ) =~= target,
            sorted_words(out@),
            forall|x: int, y: int|
                0 <= x < out@.len() && 0 <= y < ws@.len() ==> crate::wordle::lex_le(
                    #[trigger] out@[x]@,
                    #[trigger] ws@[y]@,
                    0,
                ),
        decreases ws@.len(),
    {
        let mut min_idx: usize = 0;
        proof {
            crate::wordle::lemma_lex_le_total(ws@[0]@, ws@[0]@, 0);
        }
        let mut k: usize = 1;
        while k < ws.len()
            invariant
                0 <= min_idx < ws@.len(),
                1 <= k <= ws@.len(),
                forall|j: int|
                    0 <= j < k ==> crate::wordle::lex_le(ws@[min_idx as int]@, #[trigger] ws@[j]@, 0),
            decreases ws@.len() - k,
        {
            let take_new = !ws[min_idx].le(&ws[k]);
            proof {
                if take_new {
                    crate::wordle::lemma_lex_le_total(ws@[min_idx as int]@, ws@[k as int]@, 0);
                    assert forall|j: int| 0 <= j < k + 1 implies crate::wordle::lex_le(
                        ws@[k as int]@,
                        #[trigger] ws@[j]@,
                        0,
                    ) by {
                        if j < k {
                            crate::wordle::lemma_lex_le_transitive(
                                ws@[k as int]@,
                                ws@[min_idx as int]@,
                                ws@[j]@,
                                0,
                            );
                        } else {
                            crate::wordle::lemma_lex_le_total(ws@[k as int]@, ws@[k as int]@, 0);
                        }
                    }
                }
            }
            if take_new {
                min_idx = k;
            }
            k += 1;
        }
        let ghost old_ws = ws@;
        let ghost old_out = out@;
        let w = ws.remove(min_idx);
        out.push(w);
        proof {
            assert(old_ws.remove(min_idx as int).map_values(|w: Word| w@) =~= old_ws.map_values(
                |w: Word| w@,
            ).remove(min_idx as int));
            assert(old_ws.map_values(|w: Word| w@).remove(min_idx as int).to_multiset()
                =~= old_ws.map_values(|w: Word| w@).to_multiset().remove(w@));
            assert(out@.map_values(|w: Word| w@) =~= old_out.map_values(|w: Word| w@).push(w@));
            assert(out@.map_values(|w: Word| w@).to_multiset() =~= old_out.map_values(
                |w: Word| w@,
            ).to_multiset().insert(w@));
            assert(old_ws.map_values(|w: Word| w@).to_multiset().contains(w@));
            assert(out@.map_values(|w: Word| w@).to_multiset().add(
                ws@.map_values(|w: Word| w@).to_multiset(),
            ) =~= target);
            assert forall|x: int, y: int|
                0 <= x < out@.len() && 0 <= y < ws@.len() implies crate::wordle::lex_le(
                #[trigger] out@[x]@,
                #[trigger] ws@[y]@,
                0,
            ) by {
                assert(ws@[y] == if y < min_idx {
                    old_ws[y]
                } else {
                    old_ws[y + 1]
                });
                if x < old_out.len() {
                    assert(crate::wordle::lex_le(out@[x]@, ws@[y]@, 0));
                }
            }
        }
    }
    proof {
        assert(ws@.map_values(|w: Word| w@).to_multiset() =~= Multiset::<Seq<u8>>::empty());
        assert(out@.map_values(|w: Word| w@).to_multiset() =~= target);
    }
    Ok(out)
}

/// Index of the first byte at or after `from` that is not a space or tab, or
/// the length when only blanks remain.
pub open spec fn skip_spaces(line: Seq<u8>, from: int) -> int
    decreases line.len() - from + 1,
{
    if from < line.len() && is_space(line[from]) {
        skip_spaces(line, from + 1)
    } else {
        from
    }
}

/// A line holding nothing but blanks.
pub open spec fn is_blank(line: Seq<u8>) -> bool {
    skip_spaces(line, 0) == line.len()
}

/// The lines that carry content: everything up to the trailing run of blank
/// lines, which a board record ignores.
pub open spec fn content_lines(ls: Seq<Seq<u8>>) -> Seq<Seq<u8>>
    decreases ls.len(),
{
    if ls.len() > 0 && is_blank(ls.last()) {
        content_lines(ls.drop_last())
    } else {
        ls
    }
}

proof fn lemma_content_lines_take(ls: Seq<Seq<u8>>, m: int)
    requires
        0 <= m <= ls.len(),
        forall|k: int| m <= k < ls.len() ==> is_blank(#[trigger] ls[k]),
        m > 0 ==> !is_blank(ls[m - 1]),
    ensures
        content_lines(ls) == ls.take(m),
    decreases ls.len(),
{
    if ls.len() == m {
        assert(ls.take(m) =~= ls);
    } else {
        lemma_content_lines_take(ls.drop_last(), m);
        assert(ls.drop_last().take(m) =~= ls.take(m));
    }
}

/// The feedback letters a board line uses: `g`, `y`, `b`.
pub open spec fn is_feedback_byte(b: u8) -> bool {
    b == 103 || b == 121 || b == 98
}

/// The per-position state a feedback letter records: `g` is
/// `CorrectLocation`, `y` is `IncorrectLocation`, `b` is `NotExists`.
pub open spec fn feedback_state(b: u8) -> State {
    if b == 103 {
        State::CorrectLocation
    } else if b == 121 {
        State::IncorrectLocation
    } else {
        State::NotExists
    }
}

/// One well-formed board line: optional blanks, a 5-letter word, at least
/// one blank, 5 feedback letters, optional blanks to the end.
pub open spec fn line_shape_ok(line: Seq<u8>) -> bool {
    let i = skip_spaces(line, 0);
    let j = skip_spaces(line, i + 5);
    &&& i + 5 <= line.len()
    &&& forall|k: int| i <= k < i + 5 ==> is_alpha(#[trigger] line[k])
    &&& j > i + 5
    &&& j + 5 <= line.len()
    &&& forall|k: int| j <= k < j + 5 ==> is_feedback_byte(#[trigger] line[k])
    &&& skip_spaces(line, j + 5) == line.len()
}

/// The letters of a well-formed line's word token.
pub open spec fn line_word_bytes(line: Seq<u8>) -> Seq<u8> {
    let i = skip_spaces(line, 0);
    line.subrange(i, i + 5)
}

/// The encoded feedback of a well-formed line's feedback token.
pub open spec fn line_feedback(line: Seq<u8>) -> int {
    let i = skip_spaces(line, 0);
    let j = skip_spaces(line, i + 5);
    encode_prefix(Seq::new(5, |k: int| feedback_state(line[j + k])), 5)
}

/// Advances past spaces and tabs.
#[verifier::loop_isolation(false)]
fn skip_spaces_exec(line: &Vec<u8>, from: usize) -> (r: usize)
    requires
        from <= line@.len(),
    ensures
        r == skip_spaces(line@, from as int),
        from <= r <= line@.len(),
{
    let mut cur = from;
    while cur < line.len() && (line[cur] == 32 || line[cur] == 9)
        invariant
            from <= cur <= line@.len(),
            skip_spaces(line@, from as int) == skip_spaces(line@, cur as int),
        decreases line@.len() - cur,
    {
        cur += 1;
    }
    cur
}

fn is_blank_line(line: &Vec<u8>) -> (b: bool)
    ensures
        b == is_blank(line@),
{
    skip_spaces_exec(line, 0) == line.len()
}

/// Decodes one feedback letter, refusing anything but `g`, `y`, `b`.
fn parse_feedback_byte(b: u8) -> (r: Option<State>)
    ensures
        r is Some <==> is_feedback_byte(b),
        r matches Some(s) ==> s == feedback_state(b),
{
    if b == 103 {
        Some(State::CorrectLocation)
    } else if b == 121 {
        Some(State::IncorrectLocation)
    } else if b == 98 {
        Some(State::NotExists)
    } else {
        None
    }
}

/// Decodes a board record: one `word feedback` pair per line, in input
/// order. Blank trailing lines are ignored; succeeds exactly when every
/// remaining line is well-formed, and any malformed line fails the whole
/// parse with no partial result.
#[verifier::loop_isolation(false)]
pub fn parse_board(input: &str) -> (r: Result<Vec<(Word, CompareResult)>, WordleError>)
    ensures
        ({
            let ls = content_lines(lines_from(input.spec_bytes(), 0));
            &&& (r is Ok <==> forall|i: int| 0 <= i < ls.len() ==> line_shape_ok(#[trigger] ls[i]))
            &&& (r matches Ok(v) ==> {
                &&& v@.len() == ls.len()
                &&& forall|i: int|
                    0 <= i < ls.len() ==> (#[trigger] v@[i].0)@ == line_word_bytes(ls[i])
                &&& forall|i: int| 0 <= i < ls.len() ==> (#[trigger] v@[i].1)@ == line_feedback(ls[i])
            })
            &&& (r matches Err(e) ==> e == WordleError::MalformedBoardLine)
        }),
{
    let bytes = input.as_bytes();
    let ls = split_lines(bytes);
    let ghost lines = lines_from(input.spec_bytes(), 0);

    let mut m: usize = ls.len();
    let mut stop = false;
    while m > 0 && !stop
        invariant
            0 <= m <= ls@.len(),
            forall|k: int| m <= k < ls@.len() ==> is_blank(#[trigger] lines[k]),
            stop ==> m > 0 && !is_blank(lines[m - 1]),
        decreases m, (if stop {
            0int
        } else {
            1int
        }),
    {
        if is_blank_line(&ls[m - 1]) {
            m -= 1;
        } else {
            stop = true;
        }
    }
    proof {
        lemma_content_lines_take(lines, m as int);
    }
    let ghost content = content_lines(lines);

    let mut v: Vec<(Word, CompareResult)> = Vec::new();
    let mut i: usize = 0;
    while i < m
        invariant
            0 <= i <= m,
            v@.len() == i,
            forall|t: int| 0 <= t < i ==> line_shape_ok(#[trigger] content[t]),
            forall|t: int| 0 <= t < i ==> (#[trigger] v@[t].0)@ == line_word_bytes(content[t]),
            forall|t: int| 0 <= t < i ==> (#[trigger] v@[t].1)@ == line_feedback(content[t]),
        decreases m - i,
    {
        let line = &ls[i];
        proof {
            assert(line@ == content[i as int]);
        }
        let i0 = skip_spaces_exec(line, 0);
        if line.len() - i0 < 5 {
            return Err(WordleError::MalformedBoardLine);
        }
        let mut k: usize = 0;
        while k < 5
            invariant
                0 <= k <= 5,
                i0 + 5 <= line@.len(),
                forall|t: int| i0 <= t < i0 + k ==> is_alpha(#[trigger] line@[t]),
            decreases 5 - k,
        {
            let b = line[i0 + k];
            if !((65 <= b && b <= 90) || (97 <= b && b <= 122)) {
                return Err(WordleError::MalformedBoardLine);
            }
            k += 1;
        }
        let w = Word::from_letters(
            [line[i0], line[i0 + 1], line[i0 + 2], line[i0 + 3], line[i0 + 4]],
        );
        proof {
            assert(w@ =~= line_word_bytes(line@));
        }
        let j0 = skip_spaces_exec(line, i0 + 5);
        if j0 == i0 + 5 {
            return Err(WordleError::MalformedBoardLine);
        }
        if line.len() - j0 < 5 {
            return Err(WordleError::MalformedBoardLine);
        }
        let s0 = match parse_feedback_byte(line[j0]) {
            Some(s) => s,
            None => {
                return Err(WordleError::MalformedBoardLine);
            },
        };
        let s1 = match parse_feedback_byte(line[j0 + 1]) {
            Some(s) => s,
            None => {
                return Err(WordleError::MalformedBoardLine);
            },
        };
        let s2 = match parse_feedback_byte(line[j0 + 2]) {
            Some(s) => s,
            None => {
                return Err(WordleError::MalformedBoardLine);
            },
        };
        let s3 = match parse_feedback_byte(line[j0 + 3]) {
            Some(s) => s,
            None => {
                return Err(WordleError::MalformedBoardLine);
            },
        };
        let s4 = match parse_feedback_byte(line[j0 + 4]) {
            Some(s) => s,
            None => {
                return Err(WordleError::MalformedBoardLine);
            },
        };
        let states: [State; 5] = [s0, s1, s2, s3, s4];
        let cr = CompareResult::from_states(states);
        let tail = skip_spaces_exec(line, j0 + 5);
        if tail != line.len() {
            return Err(WordleError::MalformedBoardLine);
        }
        proof {
            assert(states@ =~= Seq::new(5, |k: int| feedback_state(line@[j0 + k])));
            assert(cr@ == line_feedback(line@));
            assert(line_shape_ok(line@));
        }
        v.push((w, cr));
        i += 1;
    }
    Ok(v)
}

/// The candidates of `words` consistent with the first `n` recorded
/// (guess, feedback) pairs: each pair in turn keeps exactly the words whose
/// feedback against its guess equals its recorded code.
pub open spec fn apply_entries(
    words: Seq<Word>,
    entries: Seq<(Word, CompareResult)>,
    n: int,
) -> Seq<Word>
    decreases n,
{
    if n <= 0 {
        words
    } else {
        apply_entries(words, entries, n - 1).filter(
            |x: Word| compare_spec(entries[n - 1].0@, x@) == entries[n - 1].1@,
        )
    }
}

/// Applies a parsed board to a candidate list, retaining only the words
/// consistent with every recorded (guess, feedback) pair: the mechanism for
/// resuming a solve from an externally played board.
#[verifier::loop_isolation(false)]
pub fn apply_board(words: &[Word], entries: &[(Word, CompareResult)]) -> (r: Vec<Word>)
    ensures
        r@ == apply_entries(words@, entries@, entries@.len() as int),
{
    let mut cur = vstd::slice::slice_to_vec(words);
    let mut e: usize = 0;
    while e < entries.len()
        invariant
            0 <= e <= entries@.len(),
            cur@ == apply_entries(words@, entries@, e as int),
        decreases entries@.len() - e,
    {
        let entry = *vstd::slice::slice_index_get(entries, e);
        let ghost pred = |x: Word| compare_spec(entries@[e as int].0@, x@) == entries@[e as int].1@;
        let mut kept: Vec<Word> = Vec::new();
        let mut i: usize = 0;
        while i < cur.len()
            invariant
                0 <= i <= cur@.len(),
                entry == entries@[e as int],
                kept@ =~= cur@.take(i as int).filter(pred),
            decreases cur@.len() - i,
        {
            let x = cur[i];
            let keep = compare_words(&entry.0, &x).as_index() == entry.1.as_index();
            proof {
                reveal(Seq::filter);
                assert(cur@.take(i + 1).drop_last() =~= cur@.take(i as int));
                assert(cur@.take(i + 1).last() == cur@[i as int]);
            }
            if keep {
                kept.push(x);
            }
            i += 1;
        }
        proof {
            assert(cur@.take(cur@.len() as int) =~= cur@);
            assert(kept@ == apply_entries(words@, entries@, e + 1));
        }
        cur = kept;
        e += 1;
    }
    cur
}

} // verus!
