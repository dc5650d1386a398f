//! Driving one game to completion with the scorer.

use vstd::prelude::*;

use crate::game::{Game, GameState};
use crate::scorer::{best_next_word, MAX_CANDIDATES};
use crate::wordle::{lemma_word_eq, Word};

verus! {

/// The letters of the fixed opening guess, "rales".
pub open spec fn opening_word() -> Seq<u8> {
    seq![114u8, 97u8, 108u8, 101u8, 115u8]
}

/// Plays one full game against `answer`: resets `g`, opens with the fixed
/// word "rales", then repeatedly plays the scorer's best next word until the
/// game terminates. Returns whether the game ended in `Success`. The answer
/// must be in the dictionary, which keeps it in the candidate set and so
/// keeps the set non-empty at every step.
///
/// The recorded history pins the run: between 1 and 6 guesses are made, the
/// first is the opener, the game is won exactly when the last guess is the
/// answer, and a lost game used all 6 guesses.
#[verifier::loop_isolation(false)]
pub fn run_game_with_answer<'a>(g: &mut Game<'a>, answer: &Word) -> (won: bool)
    requires
        old(g).dictionary().contains(*answer),
        old(g).dictionary().len() <= MAX_CANDIDATES,
    ensures
        final(g).wf(),
        final(g).status() != GameState::Running,
        won == (final(g).status() == GameState::Success),
        final(g).answer == *answer,
        final(g).dictionary() == old(g).dictionary(),
        1 <= final(g).guesses@.len() <= 6,
        final(g).guesses@[0]@ == opening_word(),
        won <==> final(g).guesses@.last() == *answer,
        !won ==> final(g).guesses@.len() == 6,
{
    g.reset_with_answer(answer);
    let opener = Word::from_letters([114, 97, 108, 101, 115]);
    proof {
        assert(opener@ =~= opening_word());
    }
    let first = g.guess(&opener);
    proof {
        broadcast use vstd::seq_lib::group_filter_ensures;

        assert(g.words_left@.len() <= old(g).dictionary().len());
        assert(g.guesses@[0] == opener);
    }
    match first {
        GameState::Success => {
            proof {
                lemma_word_eq(opener, *answer);
            }
            return true;
        },
        GameState::Failure => {
            return false;
        },
        GameState::Running => {},
    }
    loop
        invariant
            g.wf(),
            g.status() == GameState::Running,
            g.words_left@.len() <= old(g).dictionary().len(),
            g.words_left@.contains(g.answer),
            g.answer == *answer,
            g.dictionary() == old(g).dictionary(),
            1 <= g.guesses@.len(),
            g.guesses@[0]@ == opening_word(),
        decreases 6 - g.guesses@.len(),
    {
        let next = match best_next_word(g.words_left.as_slice()) {
            Ok(w) => w,
            Err(_) => {
                proof {
                    assert(false);
                }
                return false;
            },
        };
        let st = g.guess(&next);
        proof {
            broadcast use vstd::seq_lib::group_filter_ensures;

            assert(g.words_left@.len() <= old(g).dictionary().len());
            assert(g.guesses@.last() == next);
        }
        match st {
            GameState::Success => {
                proof {
                    lemma_word_eq(next, *answer);
                }
                return true;
            },
            GameState::Failure => {
                return false;
            },
            GameState::Running => {},
        }
    }
}

} // verus!
