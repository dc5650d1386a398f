//! The game state machine: candidate set, guess history, and status.

use vstd::prelude::*;

use crate::wordle::{compare_spec, compare_words, Word};

verus! {

/// Lifecycle status of a game: `Running` until the answer is guessed
/// (`Success`) or six guesses are used up (`Failure`); terminal states are
/// frozen.
#[derive(Clone, Copy, Debug, PartialEq, Eq, Structural)]
pub enum GameState {
    Running,
    Success,
    Failure,
}

/// The candidates of `cands` still consistent with the feedback that `guess`
/// produces against `answer`: exactly those whose comparison against the
/// guess equals the recorded result.
pub open spec fn filter_candidates(cands: Seq<Word>, guess: Word, answer: Word) -> Seq<Word> {
    cands.filter(|x: Word| compare_spec(guess@, x@) == compare_spec(guess@, answer@))
}

/// One game against a fixed answer: the guess history, the words still
/// consistent with all feedback so far, and the status. Holds a shared
/// reference to the full dictionary so that a reset is cheap.
#[derive(Clone)]
pub struct Game<'a> {
    /// Guesses made so far, in order; grows only while the game runs.
    pub guesses: Vec<Word>,
    /// Words still consistent with all feedback received so far.
    pub words_left: Vec<Word>,
    /// The hidden answer the engine scores guesses against.
    pub answer: Word,
    /// The current lifecycle status; advanced only by `guess` and the
    /// constructors.
    pub state: GameState,
    /// Shared reference to the full dictionary, for cheap resets.
    pub all_words: &'a [Word],
}

impl<'a> Game<'a> {
    /// The current lifecycle status.
    pub open spec fn status(self) -> GameState {
        self.state
    }

    /// The full dictionary the game was created over.
    pub open spec fn dictionary(self) -> Seq<Word> {
        self.all_words@
    }

    /// A game never records more than 6 guesses, and a running game has room
    /// for one more.
    pub open spec fn wf(self) -> bool {
        &&& self.guesses@.len() <= 6
        &&& self.status() == GameState::Running ==> self.guesses@.len() < 6
    }

    /// Law (termination): a well-formed game holds at most 6 guesses, and one
    /// that is still running has used fewer than 6, so every game reaches a
    /// terminal status within 6 guesses.
    pub proof fn lemma_bounded_guesses(self)
        requires
            self.wf(),
        ensures
            self.guesses@.len() <= 6,
            self.status() == GameState::Running ==> self.guesses@.len() < 6,
    {
    }

    /// Starts a game over the full dictionary with the given answer.
    pub fn new(words: &'a [Word], answer: &Word) -> (g: Game<'a>)
        ensures
            g.wf(),
            g.status() == GameState::Running,
            g.guesses@.len() == 0,
            g.words_left@ == words@,
            g.answer == *answer,
            g.dictionary() == words@,
    {
        Game {
            guesses: Vec::new(),
            words_left: vstd::slice::slice_to_vec(words),
            all_words: words,
            answer: *answer,
            state: GameState::Running,
        }
    }

    /// Rewinds the game for a fresh run: clears the history, restores the
    /// candidate set to the full dictionary (reusing its storage), and tracks
    /// the new answer.
    #[verifier::loop_isolation(false)]
    pub fn reset_with_answer(&mut self, new_answer: &Word)
        ensures
            final(self).wf(),
            final(self).status() == GameState::Running,
            final(self).guesses@.len() == 0,
            final(self).words_left@ == old(self).dictionary(),
            final(self).answer == *new_answer,
            final(self).dictionary() == old(self).dictionary(),
    {
        self.guesses.clear();
        self.words_left.clear();
        let all: &[Word] = self.all_words;
        let mut i: usize = 0;
        while i < all.len()
            invariant
                0 <= i <= all@.len(),
                self.guesses@.len() == 0,
                self.all_words == all,
                all@ == old(self).dictionary(),
                self.words_left@ =~= all@.take(i as int),
            decreases all@.len() - i,
        {
            self.words_left.push(*vstd::slice::slice_index_get(all, i));
            proof {
                assert(self.words_left@ =~= all@.take(i + 1));
            }
            i += 1;
        }
        proof {
            assert(self.words_left@ =~= all@);
        }
        self.state = GameState::Running;
        self.answer = *new_answer;
    }

    /// Advances the game by one guess. On a terminal game this is a no-op
    /// returning the frozen status. On a running game it appends the guess,
    /// keeps exactly the candidates whose feedback against the guess matches
    /// the answer's feedback (so the candidate set shrinks and the answer, if
    /// present, is retained), and moves to `Success` when the guess is the
    /// answer, to `Failure` when the sixth guess was wrong, and stays
    /// `Running` otherwise.
    #[verifier::loop_isolation(false)]
    pub fn guess(&mut self, w: &Word) -> (s: GameState)
        requires
            old(self).wf(),
        ensures
            final(self).wf(),
            s == final(self).status(),
            final(self).answer == old(self).answer,
            final(self).dictionary() == old(self).dictionary(),
            old(self).status() != GameState::Running ==> *final(self) == *old(self) && s == old(
                self,
            ).status(),
            old(self).status() == GameState::Running ==> {
                &&& final(self).guesses@ == old(self).guesses@.push(*w)
                &&& final(self).words_left@ == filter_candidates(
                    old(self).words_left@,
                    *w,
                    old(self).answer,
                )
                &&& s == (if w@ == old(self).answer@ {
                    GameState::Success
                } else if old(self).guesses@.len() + 1 >= 6 {
                    GameState::Failure
                } else {
                    GameState::Running
                })
            },
            forall|x: Word| final(self).words_left@.contains(x) ==> old(self).words_left@.contains(x),
            old(self).words_left@.contains(old(self).answer) ==> final(self).words_left@.contains(
                final(self).answer,
            ),
    {
        if !matches!(self.state, GameState::Running) {
            return self.state;
        }

        self.guesses.push(*w);

        let res = compare_words(w, &self.answer);
        let ghost pred = |x: Word| compare_spec(w@, x@) == compare_spec(w@, old(self).answer@);
        let mut kept: Vec<Word> = Vec::new();
        let mut i: usize = 0;
        while i < self.words_left.len()
            invariant
                old(self).wf(),
                0 <= i <= self.words_left@.len(),
                self.words_left@ == old(self).words_left@,
                self.answer == old(self).answer,
                res@ == compare_spec(w@, old(self).answer@),
                kept@ =~= self.words_left@.take(i as int).filter(pred),
                forall|k: int|
                    0 <= k < kept@.len() ==> old(self).words_left@.contains(#[trigger] kept@[k]),
            decreases self.words_left@.len() - i,
        {
            let x = self.words_left[i];
            let keep = compare_words(w, &x).as_index() == res.as_index();
            proof {
                reveal(Seq::filter);
                assert(self.words_left@.take(i + 1).drop_last() =~= self.words_left@.take(
                    i as int,
                ));
                assert(self.words_left@.take(i + 1).last() == self.words_left@[i as int]);
                assert(old(self).words_left@.contains(self.words_left@[i as int]));
            }
            if keep {
                kept.push(x);
            }
            i += 1;
        }
        proof {
            assert(self.words_left@.take(self.words_left@.len() as int) =~= self.words_left@);
            assert(kept@ =~= filter_candidates(old(self).words_left@, *w, old(self).answer));
        }
        self.words_left = kept;

        let is_answer = *w == self.answer;
        proof {
            if old(self).words_left@.contains(old(self).answer) {
                let idx = choose|idx: int|
                    0 <= idx < old(self).words_left@.len() && old(self).words_left@[idx] == old(
                        self,
                    ).answer;
                old(self).words_left@.lemma_filter_contains(pred, idx);
            }
        }

        let new_state = if is_answer {
            GameState::Success
        } else if self.guesses.len() >= 6 {
            GameState::Failure
        } else {
            GameState::Running
        };

        self.state = new_state;
        new_state
    }
}

} // verus!
