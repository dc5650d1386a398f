//! The guess scorer: ranks candidate guesses by how evenly they split the
//! remaining candidate set across the 243 possible feedback codes.
//!
//! The cost of a guess is the variance-style penalty
//! `sum over all 243 feedback codes of (avg - bucket)^2`, where `avg` is the
//! count each bucket would hold under a perfectly uniform split,
//! `|candidates| / 243`. To keep the arithmetic exact, the sum is scaled by
//! `243^2`: each term becomes `(243 * bucket - |candidates|)^2`. Scaling by a
//! positive constant preserves the ranking, so the minimum-cost guess is
//! unchanged. The same average and the same 243-bucket sum — the all-correct
//! bucket included — are used by both the single-guess and the batch entry
//! points, and ties are always broken by lexicographic word order. Whether
//! the all-correct bucket belongs in the sum at all is a configuration
//! choice: [`best_starting_words`] includes it, and
//! [`best_starting_words_excluding_correct`] leaves it out, treating an
//! exact hit as a degenerate outcome rather than useful signal.

use vstd::multiset::Multiset;
use vstd::prelude::*;

use crate::wordle::{compare_spec, compare_words, lex_le, Word, WordleError};

verus! {

/// Largest candidate set the scorer accepts; keeps the scaled cost sums
/// comfortably inside `u128`.
pub const MAX_CANDIDATES: usize = 0x1000_0000;

/// How many words of `words` produce feedback `code` when compared against
/// the guess `w`.
pub open spec fn bucket_count(w: Word, words: Seq<Word>, code: int) -> int {
    words.filter(|x: Word| compare_spec(w@, x@) == code).len() as int
}

/// The square of `x`.
pub open spec fn sq(x: int) -> int {
    x * x
}

/// Sum over the feedback codes below `k` of the squared gap between the
/// code's bucket and a perfectly uniform split, scaled by 243.
pub open spec fn cost_partial(w: Word, words: Seq<Word>, k: int) -> int
    decreases k,
{
    if k <= 0 {
        0
    } else {
        cost_partial(w, words, k - 1) + sq(243 * bucket_count(w, words, k - 1) - words.len())
    }
}

/// The cost of guessing `w` against the candidate set `words`: low when the
/// guess splits the candidates into many evenly-sized feedback buckets, high
/// when one bucket dominates.
pub open spec fn cost_spec(w: Word, words: Seq<Word>) -> int {
    cost_partial(w, words, 243)
}

/// `a` ranks no worse than `b` as a guess against `words`: it costs less, or
/// costs the same and is lexicographically no greater.
pub open spec fn preferred(words: Seq<Word>, a: Word, b: Word) -> bool {
    ||| cost_spec(a, words) < cost_spec(b, words)
    ||| (cost_spec(a, words) == cost_spec(b, words) && lex_le(a@, b@, 0))
}

/// `w` is the best next guess for `words`: a member ranking no worse than
/// every member.
pub open spec fn is_best(w: Word, words: Seq<Word>) -> bool {
    words.contains(w) && forall|i: int| 0 <= i < words.len() ==> preferred(words, w, #[trigger] words[i])
}

proof fn lemma_bucket_count_bounds(w: Word, words: Seq<Word>, code: int)
    ensures
        0 <= bucket_count(w, words, code) <= words.len(),
{
    broadcast use vstd::seq_lib::group_filter_ensures;

    assert(words.filter(|x: Word| compare_spec(w@, x@) == code).len() <= words.len());
}

proof fn lemma_cost_partial_diff_bounds(w: Word, words: Seq<Word>, lo: int, k: int)
    requires
        0 <= lo <= k,
        words.len() <= MAX_CANDIDATES,
    ensures
        0 <= cost_partial(w, words, k) - cost_partial(w, words, lo) <= (k - lo)
            * 0x1000_0000_0000_0000_0000,
    decreases k,
{
    if k > lo {
        lemma_cost_partial_diff_bounds(w, words, lo, k - 1);
        lemma_bucket_count_bounds(w, words, k - 1);
        let n = words.len() as int;
        let t = 243 * bucket_count(w, words, k - 1) - n;
        assert(-0x10_0000_0000 <= t && t <= 0x10_0000_0000);
        assert(0 <= t * t <= 0x1000_0000_0000_0000_0000) by (nonlinear_arith)
            requires
                -0x10_0000_0000 <= t && t <= 0x10_0000_0000,
        ;
    }
}

proof fn lemma_cost_partial_bounds(w: Word, words: Seq<Word>, k: int)
    requires
        0 <= k,
        words.len() <= MAX_CANDIDATES,
    ensures
        0 <= cost_partial(w, words, k) <= k * 0x1000_0000_0000_0000_0000,
{
    lemma_cost_partial_diff_bounds(w, words, 0, k);
}

/// Tallies, for each of the 243 feedback codes, how many words of `words`
/// produce that feedback against `next_word`; `out` is reset to exactly that
/// frequency table.
#[verifier::loop_isolation(false)]
pub fn find_results_distribution(next_word: &Word, words: &[Word], out: &mut Vec<usize>)
    ensures
        final(out)@.len() == 243,
        forall|code: int|
            0 <= code < 243 ==> final(out)@[code] == bucket_count(*next_word, words@, code),
{
    out.clear();
    let mut k: usize = 0;
    while k < 243
        invariant
            0 <= k <= 243,
            out@.len() == k,
            forall|code: int| 0 <= code < k ==> out@[code] == 0,
        decreases 243 - k,
    {
        out.push(0);
        k += 1;
    }
    proof {
        reveal(Seq::filter);
        assert forall|code: int| 0 <= code < 243 implies bucket_count(*next_word, words@.take(0), code)
            == 0 by {
            assert(words@.take(0) =~= Seq::<Word>::empty());
        }
    }
    let mut i: usize = 0;
    while i < words.len()
        invariant
            0 <= i <= words@.len(),
            out@.len() == 243,
            forall|code: int|
                0 <= code < 243 ==> out@[code] == bucket_count(
                    *next_word,
                    words@.take(i as int),
                    code,
                ),
        decreases words@.len() - i,
    {
        let x = *vstd::slice::slice_index_get(words, i);
        let code = compare_words(next_word, &x).as_index();
        proof {
            assert(bucket_count(*next_word, words@.take(i as int), code as int) <= i) by {
                lemma_bucket_count_bounds(*next_word, words@.take(i as int), code as int);
            }
            reveal(Seq::filter);
            assert(words@.take(i + 1).drop_last() =~= words@.take(i as int));
            assert(words@.take(i + 1).last() == words@[i as int]);
        }
        out[code] = out[code] + 1;
        i += 1;
    }
    proof {
        assert(words@.take(words@.len() as int) =~= words@);
    }
}

/// Computes the scorer's cost of guessing `w` against `words`, using `freq`
/// as scratch storage for the feedback distribution.
#[verifier::loop_isolation(false)]
pub fn word_cost(w: &Word, words: &[Word], freq: &mut Vec<usize>) -> (c: u128)
    requires
        words@.len() <= MAX_CANDIDATES,
    ensures
        c == cost_spec(*w, words@),
{
    find_results_distribution(w, words, freq);
    let n = words.len();
    let mut acc: u128 = 0;
    let mut k: usize = 0;
    while k < 243
        invariant
            0 <= k <= 243,
            freq@.len() == 243,
            forall|code: int| 0 <= code < 243 ==> freq@[code] == bucket_count(*w, words@, code),
            acc == cost_partial(*w, words@, k as int),
            acc <= (k as int) * 0x1000_0000_0000_0000_0000,
        decreases 243 - k,
    {
        let cnt = freq[k];
        proof {
            lemma_bucket_count_bounds(*w, words@, k as int);
        }
        let t: i128 = 243 * (cnt as i128) - (n as i128);
        proof {
            assert(-0x10_0000_0000 <= t && t <= 0x10_0000_0000);
            assert(0 <= (t as int) * (t as int) <= 0x1000_0000_0000_0000_0000) by (nonlinear_arith)
                requires
                    -0x10_0000_0000 <= t as int && t as int <= 0x10_0000_0000,
            ;
        }
        let term: i128 = t * t;
        acc = acc + (term as u128);
        k += 1;
    }
    acc
}

proof fn lemma_preferred_total(words: Seq<Word>, a: Word, b: Word)
    ensures
        preferred(words, a, b) || preferred(words, b, a),
{
    crate::wordle::lemma_lex_le_total(a@, b@, 0);
}

proof fn lemma_preferred_transitive(words: Seq<Word>, a: Word, b: Word, c: Word)
    requires
        preferred(words, a, b),
        preferred(words, b, c),
    ensures
        preferred(words, a, c),
{
    if cost_spec(a, words) == cost_spec(b, words) && cost_spec(b, words) == cost_spec(c, words) {
        crate::wordle::lemma_lex_le_transitive(a@, b@, c@, 0);
    }
}

/// Law (determinism): the best next word is a function of the candidate set
/// alone; any two words that are both best are the same word.
pub proof fn lemma_best_next_word_deterministic(w1: Word, w2: Word, words: Seq<Word>)
    requires
        is_best(w1, words),
        is_best(w2, words),
    ensures
        w1 == w2,
{
    let i1 = choose|i: int| 0 <= i < words.len() && words[i] == w1;
    let i2 = choose|i: int| 0 <= i < words.len() && words[i] == w2;
    assert(preferred(words, w1, words[i2]));
    assert(preferred(words, w2, words[i1]));
    crate::wordle::lemma_word_view_len(w1);
    crate::wordle::lemma_word_view_len(w2);
    crate::wordle::lemma_lex_le_antisymmetric(w1@, w2@, 0);
    assert(w1@ =~= w2@);
    crate::wordle::lemma_word_eq(w1, w2);
}

/// Picks the single candidate that splits the candidate set most evenly: the
/// minimum-cost word, ties broken by lexicographic order. An empty candidate
/// set is reported as an error rather than scored.
#[verifier::loop_isolation(false)]
pub fn best_next_word(words: &[Word]) -> (r: Result<Word, WordleError>)
    requires
        words@.len() <= MAX_CANDIDATES,
    ensures
        r is Ok <==> words@.len() > 0,
        r matches Ok(w) ==> is_best(w, words@),
        r matches Err(e) ==> e == WordleError::EmptyCandidateSet,
{
    if words.len() == 0 {
        return Err(WordleError::EmptyCandidateSet);
    }
    let mut freq: Vec<usize> = Vec::new();
    let mut best: Word = *vstd::slice::slice_index_get(words, 0);
    let mut best_cost: u128 = word_cost(&best, words, &mut freq);
    proof {
        lemma_preferred_total(words@, best, best);
    }
    let mut i: usize = 1;
    while i < words.len()
        invariant
            1 <= i <= words@.len(),
            words@.contains(best),
            best_cost == cost_spec(best, words@),
            forall|j: int| 0 <= j < i ==> preferred(words@, best, #[trigger] words@[j]),
        decreases words@.len() - i,
    {
        let x = *vstd::slice::slice_index_get(words, i);
        let c = word_cost(&x, words, &mut freq);
        let better = c < best_cost || (c == best_cost && x.le(&best));
        proof {
            if better {
                assert forall|j: int| 0 <= j < i + 1 implies preferred(words@, x, #[trigger] words@[j]) by {
                    if j < i {
                        lemma_preferred_transitive(words@, x, best, words@[j]);
                    } else {
                        lemma_preferred_total(words@, x, x);
                    }
                }
            } else {
                lemma_preferred_total(words@, best, x);
                assert(preferred(words@, best, x));
            }
        }
        if better {
            best = x;
            best_cost = c;
        }
        i += 1;
    }
    Ok(best)
}

/// Orders first by cost, then lexicographically by word: the ranking both
/// scorer entry points use.
pub open spec fn pair_le(p: (Word, u128), q: (Word, u128)) -> bool {
    p.1 < q.1 || (p.1 == q.1 && lex_le(p.0@, q.0@, 0))
}

/// The sequence is ranked ascending under `pair_le`.
pub open spec fn sorted_pairs(s: Seq<(Word, u128)>) -> bool {
    forall|x: int, y: int| 0 <= x < y < s.len() ==> pair_le(#[trigger] s[x], #[trigger] s[y])
}

/// Every word of `words`, paired with its cost against `words`, in input
/// order.
pub open spec fn scored_pairs(words: Seq<Word>) -> Seq<(Word, u128)> {
    Seq::new(words.len(), |i: int| (words[i], cost_spec(words[i], words) as u128))
}

proof fn lemma_pair_le_total(p: (Word, u128), q: (Word, u128))
    ensures
        pair_le(p, q) || pair_le(q, p),
{
    crate::wordle::lemma_lex_le_total(p.0@, q.0@, 0);
}

proof fn lemma_pair_le_transitive(p: (Word, u128), q: (Word, u128), r: (Word, u128))
    requires
        pair_le(p, q),
        pair_le(q, r),
    ensures
        pair_le(p, r),
{
    if p.1 == q.1 && q.1 == r.1 {
        crate::wordle::lemma_lex_le_transitive(p.0@, q.0@, r.0@, 0);
    }
}

fn pair_le_exec(p: &(Word, u128), q: &(Word, u128)) -> (r: bool)
    ensures
        r == pair_le(*p, *q),
{
    if p.1 < q.1 {
        true
    } else if p.1 > q.1 {
        false
    } else {
        p.0.le(&q.0)
    }
}

/// Ranks pairs ascending under `pair_le` by repeatedly extracting the
/// minimum.
#[verifier::loop_isolation(false)]
fn sort_pairs(pairs: Vec<(Word, u128)>) -> (r: Vec<(Word, u128)>)
    ensures
        r@.len() == pairs@.len(),
        sorted_pairs(r@),
        r@.to_multiset() == pairs@.to_multiset(),
{
    broadcast use vstd::seq_lib::group_to_multiset_ensures;

    let ghost target = pairs@.to_multiset();
    let ghost orig = pairs@;
    let mut pairs = pairs;
    let mut out: Vec<(Word, u128)> = Vec::new();
    while pairs.len() > 0
        invariant
            out@.to_multiset().add(pairs@.to_multiset()) =~= target,
            sorted_pairs(out@),
            forall|x: int, y: int|
                0 <= x < out@.len() && 0 <= y < pairs@.len() ==> pair_le(
                    #[trigger] out@[x],
                    #[trigger] pairs@[y],
                ),
        decreases pairs@.len(),
    {
        let mut min_idx: usize = 0;
        proof {
            lemma_pair_le_total(pairs@[0], pairs@[0]);
        }
        let mut k: usize = 1;
        while k < pairs.len()
            invariant
                0 <= min_idx < pairs@.len(),
                1 <= k <= pairs@.len(),
                forall|j: int| 0 <= j < k ==> pair_le(pairs@[min_idx as int], #[trigger] pairs@[j]),
            decreases pairs@.len() - k,
        {
            let take_new = !pair_le_exec(&pairs[min_idx], &pairs[k]);
            proof {
                if take_new {
                    lemma_pair_le_total(pairs@[min_idx as int], pairs@[k as int]);
                    assert forall|j: int| 0 <= j < k + 1 implies pair_le(
                        pairs@[k as int],
                        #[trigger] pairs@[j],
                    ) by {
                        if j < k {
                            lemma_pair_le_transitive(
                                pairs@[k as int],
                                pairs@[min_idx as int],
                                pairs@[j],
                            );
                        } else {
                            lemma_pair_le_total(pairs@[k as int], pairs@[k as int]);
                        }
                    }
                }
            }
            if take_new {
                min_idx = k;
            }
            k += 1;
        }
        let ghost old_pairs = pairs@;
        let ghost old_out = out@;
        let p = pairs.remove(min_idx);
        out.push(p);
        proof {
            assert(old_pairs.remove(min_idx as int).to_multiset() =~= old_pairs.to_multiset()
                .remove(p));
            assert(out@.to_multiset() =~= old_out.to_multiset().insert(p));
            assert(old_pairs.to_multiset().contains(p));
            assert(out@.to_multiset().add(pairs@.to_multiset()) =~= target);
            assert forall|x: int, y: int|
                0 <= x < out@.len() && 0 <= y < pairs@.len() implies pair_le(
                #[trigger] out@[x],
                #[trigger] pairs@[y],
            ) by {
                assert(pairs@[y] == if y < min_idx {
                    old_pairs[y]
                } else {
                    old_pairs[y + 1]
                });
                if x < old_out.len() {
                    assert(pair_le(out@[x], pairs@[y]));
                } else {
                    assert(out@[x] == p);
                }
            }
        }
    }
    proof {
        assert(pairs@.to_multiset() =~= Multiset::<(Word, u128)>::empty());
        assert(out@.to_multiset() =~= target);
        assert(out@.len() == out@.to_multiset().len());
        assert(orig.len() == target.len());
    }
    out
}

/// Scores every candidate against the full candidate set and returns all
/// (word, cost) pairs ranked ascending: the slate of good opening guesses.
/// The all-correct feedback bucket counts toward each cost; see
/// [`best_starting_words_excluding_correct`] for the other configuration.
#[verifier::loop_isolation(false)]
pub fn best_starting_words(words: &[Word]) -> (r: Vec<(Word, u128)>)
    requires
        words@.len() <= MAX_CANDIDATES,
    ensures
        r@.len() == words@.len(),
        sorted_pairs(r@),
        r@.to_multiset() == scored_pairs(words@).to_multiset(),
{
    let mut freq: Vec<usize> = Vec::new();
    let mut pairs: Vec<(Word, u128)> = Vec::new();
    let mut i: usize = 0;
    while i < words.len()
        invariant
            0 <= i <= words@.len(),
            pairs@ =~= scored_pairs(words@).take(i as int),
        decreases words@.len() - i,
    {
        let x = *vstd::slice::slice_index_get(words, i);
        let c = word_cost(&x, words, &mut freq);
        proof {
            lemma_cost_partial_bounds(x, words@, 243);
            assert((c as int) as u128 == c);
        }
        pairs.push((x, c));
        proof {
            assert(pairs@ =~= scored_pairs(words@).take(i + 1));
        }
        i += 1;
    }
    proof {
        assert(scored_pairs(words@).take(words@.len() as int) =~= scored_pairs(words@));
    }
    sort_pairs(pairs)
}

/// The cost of guessing `w` with the all-correct feedback bucket left out of
/// the sum: an exact hit is treated as a degenerate outcome rather than
/// useful signal about how the guess splits the other candidates.
pub open spec fn cost_excluding_correct(w: Word, words: Seq<Word>) -> int {
    cost_spec(w, words) - sq(243 * bucket_count(w, words, 0) - words.len())
}

/// Computes the cost of guessing `w` with the all-correct bucket excluded,
/// using `freq` as scratch storage for the feedback distribution.
#[verifier::loop_isolation(false)]
pub fn word_cost_excluding_correct(w: &Word, words: &[Word], freq: &mut Vec<usize>) -> (c: u128)
    requires
        words@.len() <= MAX_CANDIDATES,
    ensures
        c == cost_excluding_correct(*w, words@),
{
    find_results_distribution(w, words, freq);
    let n = words.len();
    let mut acc: u128 = 0;
    let mut k: usize = 1;
    while k < 243
        invariant
            1 <= k <= 243,
            freq@.len() == 243,
            forall|code: int| 0 <= code < 243 ==> freq@[code] == bucket_count(*w, words@, code),
            acc == cost_partial(*w, words@, k as int) - cost_partial(*w, words@, 1),
            acc <= (k - 1) * 0x1000_0000_0000_0000_0000,
        decreases 243 - k,
    {
        let cnt = freq[k];
        proof {
            lemma_bucket_count_bounds(*w, words@, k as int);
        }
        let t: i128 = 243 * (cnt as i128) - (n as i128);
        proof {
            assert(-0x10_0000_0000 <= t && t <= 0x10_0000_0000);
            assert(0 <= (t as int) * (t as int) <= 0x1000_0000_0000_0000_0000) by (nonlinear_arith)
                requires
                    -0x10_0000_0000 <= t as int && t as int <= 0x10_0000_0000,
            ;
        }
        let term: i128 = t * t;
        acc = acc + (term as u128);
        k += 1;
    }
    proof {
        assert(cost_partial(*w, words@, 0) == 0);
        assert(cost_partial(*w, words@, 1) == sq(243 * bucket_count(*w, words@, 0) - words@.len()));
    }
    acc
}

/// Every word of `words`, paired with its all-correct-excluded cost, in
/// input order.
pub open spec fn scored_pairs_excluding_correct(words: Seq<Word>) -> Seq<(Word, u128)> {
    Seq::new(words.len(), |i: int| (words[i], cost_excluding_correct(words[i], words) as u128))
}

/// The other configuration of the batch entry point: the same ranking, but
/// each cost leaves the all-correct feedback bucket out of the sum.
#[verifier::loop_isolation(false)]
pub fn best_starting_words_excluding_correct(words: &[Word]) -> (r: Vec<(Word, u128)>)
    requires
        words@.len() <= MAX_CANDIDATES,
    ensures
        r@.len() == words@.len(),
        sorted_pairs(r@),
        r@.to_multiset() == scored_pairs_excluding_correct(words@).to_multiset(),
{
    let mut freq: Vec<usize> = Vec::new();
    let mut pairs: Vec<(Word, u128)> = Vec::new();
    let mut i: usize = 0;
    while i < words.len()
        invariant
            0 <= i <= words@.len(),
            pairs@ =~= scored_pairs_excluding_correct(words@).take(i as int),
        decreases words@.len() - i,
    {
        let x = *vstd::slice::slice_index_get(words, i);
        let c = word_cost_excluding_correct(&x, words, &mut freq);
        proof {
            lemma_cost_partial_diff_bounds(x, words@, 1, 243);
            assert((c as int) as u128 == c);
        }
        pairs.push((x, c));
        proof {
            assert(pairs@ =~= scored_pairs_excluding_correct(words@).take(i + 1));
        }
        i += 1;
    }
    proof {
        assert(scored_pairs_excluding_correct(words@).take(words@.len() as int)
            =~= scored_pairs_excluding_correct(words@));
    }
    sort_pairs(pairs)
}

} // verus!
