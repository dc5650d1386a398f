//! The `Word` value type and the feedback comparator.

use vstd::prelude::*;
use vstd::string::StringSliceAdditionalSpecFns;

verus! {

/// Errors reported by the library's parsing and scoring functions.
#[derive(Clone, Copy, Debug, PartialEq, Eq, Structural)]
pub enum WordleError {
    /// Input text for a word is not exactly 5 bytes long.
    InvalidWordLength,
    /// A board-record line does not match the `word feedback` shape.
    MalformedBoardLine,
    /// A scoring operation was asked for on an empty candidate set.
    EmptyCandidateSet,
}

/// A 5-letter word, the atomic unit of both guesses and answers.
///
/// The dictionary convention is ASCII letters; construction only enforces the
/// length, so [`Word::is_ascii`] marks the words for which text rendering is
/// defined.
#[derive(Clone, Copy, Debug, Eq, Hash, PartialOrd, Ord)]
pub struct Word {
    letters: [u8; 5],
}

impl PartialEq for Word {
    fn eq(&self, other: &Word) -> (r: bool) {
        let r = self.letters[0] == other.letters[0] && self.letters[1] == other.letters[1]
            && self.letters[2] == other.letters[2] && self.letters[3] == other.letters[3]
            && self.letters[4] == other.letters[4];
        proof {
            if r {
                assert(self@ =~= other@);
            }
        }
        r
    }
}

impl vstd::std_specs::cmp::PartialEqSpecImpl for Word {
    open spec fn obeys_eq_spec() -> bool {
        true
    }

    open spec fn eq_spec(&self, other: &Word) -> bool {
        self@ == other@
    }
}

impl View for Word {
    type V = Seq<u8>;

    closed spec fn view(&self) -> Seq<u8> {
        self.letters@
    }
}

impl Word {
    /// All 5 bytes are plain ASCII, so the word has a one-byte-per-character
    /// textual form.
    pub open spec fn is_ascii(self) -> bool {
        forall|i: int| 0 <= i < 5 ==> self@[i] < 128
    }

    /// Builds a word directly from its 5 letters.
    pub fn from_letters(letters: [u8; 5]) -> (w: Word)
        ensures
            w@ == letters@,
    {
        Word { letters }
    }

    /// Parses a word from text: succeeds exactly when the text is 5 bytes
    /// long, and then the word's letters are those bytes.
    pub fn from_str(s: &str) -> (r: Result<Word, WordleError>)
        ensures
            r is Ok <==> s.spec_bytes().len() == 5,
            r matches Ok(w) ==> w@ == s.spec_bytes(),
            r matches Err(e) ==> e == WordleError::InvalidWordLength,
    {
        let bytes = s.as_bytes();
        if bytes.len() != 5 {
            return Err(WordleError::InvalidWordLength);
        }
        let letters: [u8; 5] = [bytes[0], bytes[1], bytes[2], bytes[3], bytes[4]];
        proof {
            assert(letters@ =~= s.spec_bytes());
        }
        Ok(Word { letters })
    }

    /// Lexicographic comparison by the underlying letter sequence, used for
    /// deterministic tie-breaking.
    pub fn le(&self, other: &Word) -> (r: bool)
        ensures
            r == lex_le(self@, other@, 0),
    {
        let mut i: usize = 0;
        while i < 5
            invariant
                0 <= i <= 5,
                lex_le(self@, other@, 0) == lex_le(self@, other@, i as int),
                forall|j: int| 0 <= j < i ==> self@[j] == other@[j],
            decreases 5 - i,
        {
            if self.letters[i] < other.letters[i] {
                return true;
            }
            if self.letters[i] > other.letters[i] {
                return false;
            }
            i += 1;
        }
        true
    }

    /// Whether every letter is plain ASCII, so that `render` is defined.
    pub fn check_ascii(&self) -> (r: bool)
        ensures
            r == self.is_ascii(),
    {
        let mut i: usize = 0;
        while i < 5
            invariant
                0 <= i <= 5,
                forall|j: int| 0 <= j < i ==> self@[j] < 128,
            decreases 5 - i,
        {
            if self.letters[i] >= 128 {
                proof {
                    assert(self@[i as int] >= 128);
                }
                return false;
            }
            i += 1;
        }
        true
    }

    /// Renders the word as text: one character per letter. Defined for the
    /// ASCII words the dictionary convention allows; `from_str` inverts it.
    pub fn render(&self) -> (r: String)
        requires
            self.is_ascii(),
        ensures
            r@ == render_spec(*self),
    {
        let r = ascii_letters_to_string(&self.letters);
        proof {
            assert(r@ =~= render_spec(*self));
        }
        r
    }
}

/// The textual form of a word: each byte as the character with the same code
/// point.
pub open spec fn render_spec(w: Word) -> Seq<char> {
    Seq::new(5, |i: int| w@[i] as char)
}

/// Relies on `core::str::from_utf8` and `str::to_owned`: bytes below 128 are
/// valid UTF-8 and decode one-to-one to the characters with the same code
/// points.
#[verifier::external_body]
fn ascii_letters_to_string(letters: &[u8; 5]) -> (r: String)
    requires
        forall|i: int| 0 <= i < 5 ==> letters@[i] < 128,
    ensures
        r@.len() == 5,
        forall|i: int| 0 <= i < 5 ==> r@[i] == letters@[i] as char,
{
    core::str::from_utf8(letters).unwrap().to_owned()
}

/// Lexicographic order on 5-letter words, decided at the first position from
/// `i` on where the letters differ.
pub open spec fn lex_le(x: Seq<u8>, y: Seq<u8>, i: int) -> bool
    decreases 5 - i,
{
    if i >= 5 {
        true
    } else if x[i] < y[i] {
        true
    } else if x[i] > y[i] {
        false
    } else {
        lex_le(x, y, i + 1)
    }
}

pub proof fn lemma_lex_le_total(x: Seq<u8>, y: Seq<u8>, i: int)
    ensures
        lex_le(x, y, i) || lex_le(y, x, i),
    decreases 5 - i,
{
    if i < 5 && x[i] == y[i] {
        lemma_lex_le_total(x, y, i + 1);
    }
}

pub proof fn lemma_lex_le_antisymmetric(x: Seq<u8>, y: Seq<u8>, i: int)
    requires
        lex_le(x, y, i),
        lex_le(y, x, i),
    ensures
        forall|j: int| i <= j < 5 ==> x[j] == y[j],
    decreases 5 - i,
{
    if i < 5 {
        lemma_lex_le_antisymmetric(x, y, i + 1);
    }
}

pub proof fn lemma_lex_le_transitive(x: Seq<u8>, y: Seq<u8>, z: Seq<u8>, i: int)
    requires
        lex_le(x, y, i),
        lex_le(y, z, i),
    ensures
        lex_le(x, z, i),
    decreases 5 - i,
{
    if i < 5 && x[i] == y[i] && y[i] == z[i] {
        lemma_lex_le_transitive(x, y, z, i + 1);
    }
}

/// Per-letter feedback for one position of a guess.
#[derive(Clone, Copy, Debug, PartialEq, Eq, Hash, PartialOrd, Ord, Structural)]
pub enum State {
    /// The guessed letter stands at this position in the answer.
    CorrectLocation,
    /// The guessed letter occurs elsewhere in the answer.
    IncorrectLocation,
    /// No unclaimed occurrence of the guessed letter remains in the answer.
    NotExists,
}

/// The canonical base-3 coordinate of a [`State`]:
/// `CorrectLocation` is 0, `IncorrectLocation` is 1, `NotExists` is 2.
pub open spec fn state_code(s: State) -> int {
    match s {
        State::CorrectLocation => 0,
        State::IncorrectLocation => 1,
        State::NotExists => 2,
    }
}

/// The base-3 integer of the first `n` states, position 0 most significant.
pub open spec fn encode_prefix(s: Seq<State>, n: int) -> int
    decreases n,
{
    if n <= 0 {
        0
    } else {
        encode_prefix(s, n - 1) * 3 + state_code(s[n - 1])
    }
}

/// The base-3 integer of a 5-state feedback sequence, in `0..243`.
pub open spec fn encode_states(s: Seq<State>) -> int {
    encode_prefix(s, s.len() as int)
}

/// A 5-position feedback sequence, encoded as a base-3 integer in `0..243`
/// (position 0 carries weight 81, position 4 weight 1).
#[derive(Clone, Copy, Debug, PartialEq, Eq, Hash, PartialOrd, Ord, Structural)]
pub struct CompareResult(u8);

impl View for CompareResult {
    type V = int;

    closed spec fn view(&self) -> int {
        self.0 as int
    }
}

/// Maps a state to its base-3 coordinate.
pub fn state_index(s: State) -> (n: u8)
    ensures
        n == state_code(s),
{
    match s {
        State::CorrectLocation => 0,
        State::IncorrectLocation => 1,
        State::NotExists => 2,
    }
}

impl CompareResult {
    /// Encodes five per-position states as one base-3 integer.
    pub fn from_states(s: [State; 5]) -> (r: CompareResult)
        ensures
            r@ == encode_states(s@),
            0 <= r@ < 243,
    {
        let n0: u32 = state_index(s[0]) as u32;
        let n1: u32 = n0 * 3 + state_index(s[1]) as u32;
        let n2: u32 = n1 * 3 + state_index(s[2]) as u32;
        let n3: u32 = n2 * 3 + state_index(s[3]) as u32;
        let n4: u32 = n3 * 3 + state_index(s[4]) as u32;
        proof {
            assert(encode_prefix(s@, 0) == 0);
            assert(n0 == encode_prefix(s@, 1));
            assert(n1 == encode_prefix(s@, 2));
            assert(n2 == encode_prefix(s@, 3));
            assert(n3 == encode_prefix(s@, 4));
            assert(n4 == encode_prefix(s@, 5));
        }
        CompareResult(n4 as u8)
    }

    /// The encoded value, usable as an index into a 243-entry table.
    pub fn as_index(self) -> (i: usize)
        ensures
            i == self@,
    {
        self.0 as usize
    }
}

/// Number of positions `j < n` holding an *available* instance of letter `c`:
/// the answer has `c` at `j` and the guess does not match there exactly, so
/// the instance was not claimed by a `CorrectLocation` mark.
pub open spec fn count_avail(g: Seq<u8>, a: Seq<u8>, c: u8, n: int) -> int
    decreases n,
{
    if n <= 0 {
        0
    } else {
        count_avail(g, a, c, n - 1) + if a[n - 1] == c && g[n - 1] != a[n - 1] {
            1int
        } else {
            0int
        }
    }
}

/// Number of positions `k < n` where the guess holds letter `c` without an
/// exact match: the earlier guess positions competing for available instances
/// of `c`, in left-to-right order.
pub open spec fn count_claims(g: Seq<u8>, a: Seq<u8>, c: u8, n: int) -> int
    decreases n,
{
    if n <= 0 {
        0
    } else {
        count_claims(g, a, c, n - 1) + if g[n - 1] == c && g[n - 1] != a[n - 1] {
            1int
        } else {
            0int
        }
    }
}

/// The feedback at position `i` of comparing `g` against `a`, stated in
/// closed form. Exact matches claim their letter instance first; the
/// remaining guess positions claim available instances left to right, so a
/// non-exact position is `IncorrectLocation` exactly when fewer earlier
/// non-exact positions hold its letter than the answer has unclaimed
/// instances of it. A letter instance in the answer is thus never claimed by
/// two guess positions.
pub open spec fn feedback_at(g: Seq<u8>, a: Seq<u8>, i: int) -> State {
    if g[i] == a[i] {
        State::CorrectLocation
    } else if count_claims(g, a, g[i], i) < count_avail(g, a, g[i], 5) {
        State::IncorrectLocation
    } else {
        State::NotExists
    }
}

/// The full 5-position feedback of comparing `g` against `a`.
pub open spec fn feedback_spec(g: Seq<u8>, a: Seq<u8>) -> Seq<State> {
    Seq::new(5, |i: int| feedback_at(g, a, i))
}

/// The feedback of comparing `g` against `a`, as its base-3 encoding.
pub open spec fn compare_spec(g: Seq<u8>, a: Seq<u8>) -> int {
    encode_states(feedback_spec(g, a))
}

/// Number of positions `j < n` whose available instance of `c` has been
/// consumed by a present-elsewhere claim, per the `cons` flags.
pub open spec fn count_consumed(cons: Seq<bool>, g: Seq<u8>, a: Seq<u8>, c: u8, n: int) -> int
    decreases n,
{
    if n <= 0 {
        0
    } else {
        count_consumed(cons, g, a, c, n - 1) + if cons[n - 1] && a[n - 1] == c && g[n - 1] != a[n
            - 1] {
            1int
        } else {
            0int
        }
    }
}

proof fn lemma_count_consumed_set(cons: Seq<bool>, g: Seq<u8>, a: Seq<u8>, c: u8, j: int, n: int)
    requires
        0 <= j < cons.len(),
        n <= cons.len(),
        !cons[j],
    ensures
        count_consumed(cons.update(j, true), g, a, c, n) == count_consumed(cons, g, a, c, n) + if j
            < n && a[j] == c && g[j] != a[j] {
            1int
        } else {
            0int
        },
    decreases n,
{
    if n > 0 {
        lemma_count_consumed_set(cons, g, a, c, j, n - 1);
        assert(cons.update(j, true)[n - 1] == (if j == n - 1 {
            true
        } else {
            cons[n - 1]
        }));
    }
}

proof fn lemma_counts_nonneg(g: Seq<u8>, a: Seq<u8>, c: u8, n: int)
    ensures
        count_avail(g, a, c, n) >= 0,
        count_claims(g, a, c, n) >= 0,
    decreases n,
{
    if n > 0 {
        lemma_counts_nonneg(g, a, c, n - 1);
    }
}

proof fn lemma_count_consumed_zero(cons: Seq<bool>, g: Seq<u8>, a: Seq<u8>, c: u8, n: int)
    requires
        forall|j: int| 0 <= j < n && cons[j] ==> g[j] == a[j],
    ensures
        count_consumed(cons, g, a, c, n) == 0,
    decreases n,
{
    if n > 0 {
        lemma_count_consumed_zero(cons, g, a, c, n - 1);
    }
}

proof fn lemma_count_consumed_le_avail(cons: Seq<bool>, g: Seq<u8>, a: Seq<u8>, c: u8, n: int)
    ensures
        count_consumed(cons, g, a, c, n) <= count_avail(g, a, c, n),
    decreases n,
{
    if n > 0 {
        lemma_count_consumed_le_avail(cons, g, a, c, n - 1);
    }
}

proof fn lemma_count_consumed_lt_avail(
    cons: Seq<bool>,
    g: Seq<u8>,
    a: Seq<u8>,
    c: u8,
    j: int,
    n: int,
)
    requires
        0 <= j < n,
        !cons[j],
        a[j] == c,
        g[j] != a[j],
    ensures
        count_consumed(cons, g, a, c, n) < count_avail(g, a, c, n),
    decreases n,
{
    if j == n - 1 {
        lemma_count_consumed_le_avail(cons, g, a, c, n - 1);
    } else {
        lemma_count_consumed_lt_avail(cons, g, a, c, j, n - 1);
    }
}

proof fn lemma_count_all_consumed(cons: Seq<bool>, g: Seq<u8>, a: Seq<u8>, c: u8, n: int)
    requires
        forall|j: int| 0 <= j < n && a[j] == c && g[j] != a[j] ==> cons[j],
    ensures
        count_consumed(cons, g, a, c, n) == count_avail(g, a, c, n),
    decreases n,
{
    if n > 0 {
        lemma_count_all_consumed(cons, g, a, c, n - 1);
    }
}

/// Compares a guess against an answer with the two-pass consume-on-match
/// algorithm: exact matches first, then, per remaining position, the
/// left-to-right first unclaimed occurrence of the guessed letter.
#[verifier::loop_isolation(false)]
pub fn compare_words(guess: &Word, actual: &Word) -> (r: CompareResult)
    ensures
        r@ == compare_spec(guess@, actual@),
        0 <= r@ < 243,
{
    let g: [u8; 5] = guess.letters;
    let a: [u8; 5] = actual.letters;
    let mut consumed: [bool; 5] = [false, false, false, false, false];
    let mut result: [State; 5] = [
        State::NotExists,
        State::NotExists,
        State::NotExists,
        State::NotExists,
        State::NotExists,
    ];

    let mut i: usize = 0;
    while i < 5
        invariant
            0 <= i <= 5,
            forall|j: int|
                0 <= j < 5 ==> result@[j] == (if j < i && g@[j] == a@[j] {
                    State::CorrectLocation
                } else {
                    State::NotExists
                }),
            forall|j: int| 0 <= j < 5 ==> (consumed@[j] <==> (j < i && g@[j] == a@[j])),
        decreases 5 - i,
    {
        if g[i] == a[i] {
            consumed[i] = true;
            result[i] = State::CorrectLocation;
        }
        i += 1;
    }

    proof {
        assert forall|c: u8| count_consumed(consumed@, g@, a@, c, 5) == 0 by {
            lemma_count_consumed_zero(consumed@, g@, a@, c, 5);
        }
        assert forall|c: u8, n: int|
            count_avail(g@, a@, c, n) >= 0 && count_claims(g@, a@, c, n) >= 0 by {
            lemma_counts_nonneg(g@, a@, c, n);
        }
    }

    let mut i: usize = 0;
    while i < 5
        invariant
            0 <= i <= 5,
            forall|j: int| 0 <= j < 5 && g@[j] == a@[j] ==> consumed@[j],
            forall|j: int| 0 <= j < 5 && consumed@[j] && g@[j] == a@[j] ==> result@[j] == State::CorrectLocation,
            forall|j: int| 0 <= j < i ==> result@[j] == feedback_at(g@, a@, j),
            forall|j: int| i <= j < 5 ==> result@[j] == (if g@[j] == a@[j] {
                State::CorrectLocation
            } else {
                State::NotExists
            }),
            forall|c: u8|
                count_consumed(consumed@, g@, a@, c, 5) == (if count_claims(g@, a@, c, i as int)
                    <= count_avail(g@, a@, c, 5) {
                    count_claims(g@, a@, c, i as int)
                } else {
                    count_avail(g@, a@, c, 5)
                }),
        decreases 5 - i,
    {
        if result[i] == State::NotExists {
            let c = g[i];
            let ghost claims_i = count_claims(g@, a@, c, i as int);
            let ghost avail = count_avail(g@, a@, c, 5);
            let mut j: usize = 0;
            let mut found = false;
            while j < 5 && !found
                invariant
                    0 <= j <= 5,
                    !found ==> forall|k: int| 0 <= k < j ==> !(!consumed@[k] && a@[k] == c),
                    found ==> 0 < j <= 5 && !consumed@[j - 1] && a@[j - 1] == c,
                decreases 5 - j, (if found { 0int } else { 1int }),
            {
                if !consumed[j] && a[j] == c {
                    found = true;
                }
                j += 1;
            }
            if found {
                proof {
                    lemma_count_consumed_lt_avail(consumed@, g@, a@, c, j - 1, 5);
                    assert(count_consumed(consumed@, g@, a@, c, 5) < avail);
                    assert(claims_i < avail);
                    assert(feedback_at(g@, a@, i as int) == State::IncorrectLocation);
                }
                let ghost old_consumed = consumed@;
                consumed[j - 1] = true;
                result[i] = State::IncorrectLocation;
                proof {
                    assert(g@[j - 1] != a@[j - 1]);
                    assert forall|c2: u8|
                        count_consumed(consumed@, g@, a@, c2, 5) == count_consumed(
                            old_consumed,
                            g@,
                            a@,
                            c2,
                            5,
                        ) + (if a@[j - 1] == c2 {
                            1int
                        } else {
                            0int
                        }) by {
                        lemma_count_consumed_set(old_consumed, g@, a@, c2, j - 1, 5);
                    }
                }
            } else {
                proof {
                    assert forall|k: int| 0 <= k < 5 && a@[k] == c && g@[k] != a@[k] implies consumed@[k] by {
                        if !consumed@[k] {
                            assert(!(!consumed@[k] && a@[k] == c));
                        }
                    }
                    lemma_count_all_consumed(consumed@, g@, a@, c, 5);
                    assert(count_consumed(consumed@, g@, a@, c, 5) == avail);
                    assert(claims_i >= avail);
                    assert(feedback_at(g@, a@, i as int) == State::NotExists);
                }
            }
        }
        proof {
            let gi = g@[i as int];
            assert forall|c2: u8|
                count_claims(g@, a@, c2, i + 1) == count_claims(g@, a@, c2, i as int) + (if g@[i
                    as int] == c2 && g@[i as int] != a@[i as int] {
                    1int
                } else {
                    0int
                }) by {}
        }
        i += 1;
    }

    proof {
        assert(result@ =~= feedback_spec(guess@, actual@));
    }
    CompareResult::from_states(result)
}

/// A word's letter sequence always has length 5.
pub proof fn lemma_word_view_len(w: Word)
    ensures
        w@.len() == 5,
{
}

/// Two words with the same letter sequence are the same word.
pub proof fn lemma_word_eq(a: Word, b: Word)
    requires
        a@ == b@,
    ensures
        a == b,
{
    assert(a.letters =~= b.letters);
}

/// Law: a word rendered to text parses back to itself. Any text whose
/// characters are `render_spec(w)` has exactly the byte sequence `w@`, so
/// `from_str` on it succeeds and returns a word with `w`'s letters, and
/// rendering that word gives the same text again.
pub proof fn lemma_render_parse_round_trip(w: Word)
    requires
        w.is_ascii(),
    ensures
        vstd::utf8::encode_utf8(render_spec(w)) =~= w@,
{
    let chars = render_spec(w);
    assert(vstd::utf8::is_ascii_chars(chars));
    vstd::utf8::is_ascii_chars_encode_utf8(chars);
}

/// Law: comparing a word against itself marks every position
/// `CorrectLocation`, whose encoding is 0.
pub proof fn lemma_compare_self(w: Word)
    ensures
        feedback_spec(w@, w@) =~= Seq::new(5, |i: int| State::CorrectLocation),
        compare_spec(w@, w@) == 0,
{
    let s = feedback_spec(w@, w@);
    assert(s =~= Seq::new(5, |i: int| State::CorrectLocation));
    assert(encode_prefix(s, 0) == 0);
    assert(encode_prefix(s, 1) == 0);
    assert(encode_prefix(s, 2) == 0);
    assert(encode_prefix(s, 3) == 0);
    assert(encode_prefix(s, 4) == 0);
    assert(encode_prefix(s, 5) == 0);
}

/// Number of positions `j < n` where `a` holds letter `c`.
pub open spec fn count_letter(a: Seq<u8>, c: u8, n: int) -> int
    decreases n,
{
    if n <= 0 {
        0
    } else {
        count_letter(a, c, n - 1) + if a[n - 1] == c {
            1int
        } else {
            0int
        }
    }
}

/// Number of positions `i < n` where the guess holds letter `c` and the
/// feedback marks it `CorrectLocation` or `IncorrectLocation`.
pub open spec fn count_scored(g: Seq<u8>, a: Seq<u8>, c: u8, n: int) -> int
    decreases n,
{
    if n <= 0 {
        0
    } else {
        count_scored(g, a, c, n - 1) + if g[n - 1] == c && feedback_at(g, a, n - 1)
            != State::NotExists {
            1int
        } else {
            0int
        }
    }
}

/// Number of positions `i < n` where guess and answer agree on letter `c`.
pub open spec fn count_exact(g: Seq<u8>, a: Seq<u8>, c: u8, n: int) -> int
    decreases n,
{
    if n <= 0 {
        0
    } else {
        count_exact(g, a, c, n - 1) + if g[n - 1] == c && g[n - 1] == a[n - 1] {
            1int
        } else {
            0int
        }
    }
}

proof fn lemma_exact_avail_partition(g: Seq<u8>, a: Seq<u8>, c: u8, n: int)
    ensures
        count_exact(g, a, c, n) + count_avail(g, a, c, n) == count_letter(a, c, n),
    decreases n,
{
    if n > 0 {
        lemma_exact_avail_partition(g, a, c, n - 1);
    }
}

proof fn lemma_scored_bound(g: Seq<u8>, a: Seq<u8>, c: u8, n: int)
    ensures
        count_scored(g, a, c, n) <= count_exact(g, a, c, n) + (if count_claims(g, a, c, n)
            <= count_avail(g, a, c, 5) {
            count_claims(g, a, c, n)
        } else {
            count_avail(g, a, c, 5)
        }),
    decreases n,
{
    lemma_counts_nonneg(g, a, c, n);
    lemma_counts_nonneg(g, a, c, 5);
    if n > 0 {
        lemma_scored_bound(g, a, c, n - 1);
        lemma_counts_nonneg(g, a, c, n - 1);
    }
}

/// Law (letter conservation): across the feedback for one guess, the number
/// of positions holding letter `c` that are marked `CorrectLocation` or
/// `IncorrectLocation` never exceeds the number of occurrences of `c` in the
/// answer: each occurrence is claimed by at most one guess position.
pub proof fn lemma_letter_conservation(guess: Word, answer: Word, c: u8)
    ensures
        count_scored(guess@, answer@, c, 5) <= count_letter(answer@, c, 5),
{
    lemma_scored_bound(guess@, answer@, c, 5);
    lemma_exact_avail_partition(guess@, answer@, c, 5);
    lemma_counts_nonneg(guess@, answer@, c, 5);
}

} // verus!
