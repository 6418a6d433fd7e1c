//! Scoring a guess against the whole word list.

use crate::constraints::{
    check_constraints, constraints_of, is_absent, is_misplaced, lemma_answer_satisfies,
    make_constraints, satisfies, Constraints, ConstraintsView,
};
use crate::word::{words_view, Word, WORD_LEN};
use vstd::prelude::*;

verus! {

/// The words of a list that satisfy `c`, in the order of the list.
pub open spec fn candidates(words: Seq<Seq<u8>>, c: ConstraintsView) -> Seq<Seq<u8>> {
    words.filter(|w: Seq<u8>| satisfies(w, c))
}

/// Candidates left when `guess` is played and the hidden word is `actual`.
pub open spec fn survivors(guess: Seq<u8>, actual: Seq<u8>, words: Seq<Seq<u8>>) -> nat {
    candidates(words, constraints_of(guess, actual)).len()
}

/// Sum of [`survivors`] over the first `upto` words of the list, each taken
/// in turn as the hidden word.
pub open spec fn survivors_upto(guess: Seq<u8>, words: Seq<Seq<u8>>, upto: nat) -> nat
    decreases upto,
{
    if upto == 0 {
        0
    } else {
        survivors_upto(guess, words, (upto - 1) as nat) + survivors(
            guess,
            words[upto - 1],
            words,
        )
    }
}

/// Sum of [`survivors`] over every word of the list taken as the hidden word.
///
/// The score of `guess` is this sum divided by the length of the list: the
/// number of candidates left on average after playing it.
pub open spec fn survivor_total(guess: Seq<u8>, words: Seq<Seq<u8>>) -> nat {
    survivors_upto(guess, words, words.len())
}

/// Filtering one more word either appends it or changes nothing.
proof fn lemma_candidates_step(words: Seq<Seq<u8>>, c: ConstraintsView, k: int)
    requires
        0 <= k < words.len(),
    ensures
        candidates(words.take(k + 1), c) == if satisfies(words[k], c) {
            candidates(words.take(k), c).push(words[k])
        } else {
            candidates(words.take(k), c)
        },
{
    reveal(Seq::filter);
    assert(words.take(k + 1).drop_last() =~= words.take(k));
}

/// Counts the words of the list that are still possible under `constraints`.
pub fn count_candidates(words: &Vec<Word>, constraints: &Constraints) -> (count: usize)
    requires
        constraints.wf(),
    ensures
        count == candidates(words_view(words@), constraints@).len(),
        count <= words@.len(),
{
    let ghost list = words_view(words@);
    let mut count: usize = 0;
    let mut k: usize = 0;
    proof {
        reveal(Seq::filter);
        assert(list.take(0) =~= Seq::<Seq<u8>>::empty());
    }
    while k < words.len()
        invariant
            k <= words@.len(),
            list == words_view(words@),
            constraints.wf(),
            count == candidates(list.take(k as int), constraints@).len(),
            count <= k,
        decreases words@.len() - k,
    {
        proof {
            lemma_candidates_step(list, constraints@, k as int);
        }
        if check_constraints(&words[k], constraints) {
            count += 1;
        }
        k += 1;
    }
    assert(list.take(k as int) =~= list);
    count
}

/// Sums, over every word of the list taken as the hidden word, the number of
/// words that remain possible after `guess` is played.
///
/// Dividing the sum by `words.len()` gives the score of the guess; a lower
/// score is a better guess. The guess need not be a word of the list.
pub fn score(guess: &Word, words: &Vec<Word>) -> (total: u128)
    ensures
        total == survivor_total(guess@, words_view(words@)),
{
    let ghost list = words_view(words@);
    let n = words.len();
    let mut total: u128 = 0;
    let mut j: usize = 0;
    while j < n
        invariant
            j <= n,
            n == words@.len(),
            list == words_view(words@),
            total == survivors_upto(guess@, list, j as nat),
            total <= j * n,
        decreases n - j,
    {
        let constraints = make_constraints(guess, &words[j]);
        let count = count_candidates(words, &constraints);
        proof {
            assert((j + 1) * n <= n * n) by (nonlinear_arith)
                requires
                    j + 1 <= n,
            ;
            assert(n * n <= 0xFFFF_FFFF_FFFF_FFFF * 0xFFFF_FFFF_FFFF_FFFF) by (nonlinear_arith)
                requires
                    0 <= n <= 0xFFFF_FFFF_FFFF_FFFF,
            ;
            assert(j * n + n == (j + 1) * n) by (nonlinear_arith);
        }
        total += count as u128;
        j += 1;
    }
    total
}

/// At most every word of a list is a candidate.
pub proof fn lemma_candidates_at_most_all(words: Seq<Seq<u8>>, c: ConstraintsView)
    ensures
        candidates(words, c).len() <= words.len(),
{
    words.lemma_filter_len(|w: Seq<u8>| satisfies(w, c));
}

/// Where every word of a list satisfies the constraints, all are candidates.
pub proof fn lemma_candidates_all(words: Seq<Seq<u8>>, c: ConstraintsView)
    requires
        forall|k: int| 0 <= k < words.len() ==> satisfies(#[trigger] words[k], c),
    ensures
        candidates(words, c) == words,
    decreases words.len(),
{
    reveal(Seq::filter);
    if words.len() > 0 {
        let front = words.drop_last();
        assert forall|k: int| 0 <= k < front.len() implies satisfies(#[trigger] front[k], c) by {
            assert(front[k] == words[k]);
        }
        lemma_candidates_all(front, c);
        assert(front.push(words.last()) =~= words);
    } else {
        assert(candidates(words, c) =~= words);
    }
}

/// A word of the list that satisfies the constraints is among the candidates.
pub proof fn lemma_candidates_hold(words: Seq<Seq<u8>>, c: ConstraintsView, k: int)
    requires
        0 <= k < words.len(),
        satisfies(words[k], c),
    ensures
        candidates(words, c).contains(words[k]),
        candidates(words, c).len() >= 1,
{
    broadcast use vstd::seq_lib::group_filter_ensures;

    let p = |w: Seq<u8>| satisfies(w, c);
    assert(words.contains(words[k]));
    assert(p(words[k]));
    assert(words.filter(p).contains(words[k]));
}

/// A guess that shares no letter with any word of the list rules nothing out:
/// whatever the hidden word, every word stays a candidate, so the sum is the
/// square of the length of the list and the score is that length.
pub proof fn lemma_unrelated_guess_scores_all(guess: Seq<u8>, words: Seq<Seq<u8>>)
    requires
        guess.len() == WORD_LEN,
        forall|j: int| 0 <= j < words.len() ==> (#[trigger] words[j]).len() == WORD_LEN,
        forall|j: int, i: int|
            0 <= j < words.len() && 0 <= i < WORD_LEN ==> !(#[trigger] words[j]).contains(
                #[trigger] guess[i],
            ),
    ensures
        survivor_total(guess, words) == words.len() * words.len(),
{
    lemma_unrelated_upto(guess, words, words.len());
}

proof fn lemma_unrelated_upto(guess: Seq<u8>, words: Seq<Seq<u8>>, upto: nat)
    requires
        guess.len() == WORD_LEN,
        upto <= words.len(),
        forall|j: int| 0 <= j < words.len() ==> (#[trigger] words[j]).len() == WORD_LEN,
        forall|j: int, i: int|
            0 <= j < words.len() && 0 <= i < WORD_LEN ==> !(#[trigger] words[j]).contains(
                #[trigger] guess[i],
            ),
    ensures
        survivors_upto(guess, words, upto) == upto * words.len(),
    decreases upto,
{
    if upto > 0 {
        lemma_unrelated_upto(guess, words, (upto - 1) as nat);
        let actual = words[upto - 1];
        let c = constraints_of(guess, actual);
        assert forall|i: int| 0 <= i < WORD_LEN implies is_absent(guess, actual, i) by {
            assert(!words[upto - 1].contains(guess[i]));
        }
        assert forall|k: int| 0 <= k < words.len() implies satisfies(#[trigger] words[k], c) by {
            let w = words[k];
            assert forall|m: int| 0 <= m < w.len() implies !c.excluded.contains(
                #[trigger] w[m],
            ) by {
                if c.excluded.contains(w[m]) {
                    let i = choose|i: int| #[trigger]
                        is_absent(guess, actual, i) && guess[i] == w[m];
                    assert(!words[k].contains(guess[i]));
                    assert(w.contains(w[m]));
                }
            }
            assert forall|i: usize| #[trigger] c.known.contains_key(i) implies w[i as int]
                == c.known[i] by {
                assert(is_absent(guess, actual, i as int));
                assert(actual.contains(actual[i as int]));
            }
            assert forall|i: usize| #[trigger] c.known_not.contains_key(i) implies w[i as int]
                != c.known_not[i] by {
                assert(is_absent(guess, actual, i as int));
            }
            assert forall|letter: u8| #[trigger] c.included.contains(letter) implies w.contains(
                letter,
            ) by {
                let i = choose|i: int| #[trigger]
                    is_misplaced(guess, actual, i) && guess[i] == letter;
                assert(is_absent(guess, actual, i));
            }
        }
        lemma_candidates_all(words, c);
        assert((upto - 1) * words.len() + words.len() == upto * words.len())
            by (nonlinear_arith);
    } else {
        assert(upto * words.len() == 0) by (nonlinear_arith)
            requires
                upto == 0,
        ;
    }
}

/// Whatever the guess, each hidden word leaves at least itself and at most
/// the whole list, so the sum lies between the length of the list and its
/// square: the score of a guess against a list that is not empty lies
/// between one and the length of the list.
pub proof fn lemma_total_bounds(guess: Seq<u8>, words: Seq<Seq<u8>>)
    requires
        guess.len() == WORD_LEN,
        forall|j: int| 0 <= j < words.len() ==> (#[trigger] words[j]).len() == WORD_LEN,
    ensures
        words.len() <= survivor_total(guess, words) <= words.len() * words.len(),
{
    lemma_bounds_upto(guess, words, words.len());
}

proof fn lemma_bounds_upto(guess: Seq<u8>, words: Seq<Seq<u8>>, upto: nat)
    requires
        guess.len() == WORD_LEN,
        upto <= words.len(),
        forall|j: int| 0 <= j < words.len() ==> (#[trigger] words[j]).len() == WORD_LEN,
    ensures
        upto <= survivors_upto(guess, words, upto) <= upto * words.len(),
    decreases upto,
{
    if upto > 0 {
        lemma_bounds_upto(guess, words, (upto - 1) as nat);
        let actual = words[upto - 1];
        let c = constraints_of(guess, actual);
        lemma_answer_satisfies(guess, actual);
        lemma_candidates_hold(words, c, upto - 1);
        lemma_candidates_at_most_all(words, c);
        assert((upto - 1) * words.len() + words.len() == upto * words.len())
            by (nonlinear_arith);
    }
}

} // verus!
