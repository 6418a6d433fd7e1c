//! What a guess reveals about the hidden word, and which words agree with it.

use crate::word::{Word, WORD_LEN};
use std::collections::{HashMap, HashSet};
use vstd::prelude::*;
use vstd::std_specs::hash::{spec_hash_keys_iter, spec_hash_map_iter};
use vstd::std_specs::iter::IteratorSpec;

verus! {

/// The facts that one guess reveals when it is played against one answer.
#[derive(Debug)]
pub struct Constraints {
    /// Position to the letter that stands there.
    pub known: HashMap<usize, u8>,
    /// Position to a letter that does not stand there, though the word has it.
    pub known_not: HashMap<usize, u8>,
    /// Letters that occur somewhere in the word.
    pub included: HashSet<u8>,
    /// Letters that occur nowhere in the word.
    pub excluded: HashSet<u8>,
}

/// Mathematical content of a [`Constraints`] value.
pub struct ConstraintsView {
    pub known: Map<usize, u8>,
    pub known_not: Map<usize, u8>,
    pub included: Set<u8>,
    pub excluded: Set<u8>,
}

impl View for Constraints {
    type V = ConstraintsView;

    open spec fn view(&self) -> ConstraintsView {
        ConstraintsView {
            known: self.known@,
            known_not: self.known_not@,
            included: self.included@,
            excluded: self.excluded@,
        }
    }
}

impl ConstraintsView {
    /// Every position that is spoken of is a position of a word.
    pub open spec fn wf(self) -> bool {
        &&& forall|i: usize| #[trigger] self.known.contains_key(i) ==> i < WORD_LEN
        &&& forall|i: usize| #[trigger] self.known_not.contains_key(i) ==> i < WORD_LEN
    }
}

impl Constraints {
    /// Every position that is spoken of is a position of a word.
    pub open spec fn wf(&self) -> bool {
        self@.wf()
    }
}

/// Position `i` of the guess holds the letter that the answer has there.
pub open spec fn is_hit(guess: Seq<u8>, actual: Seq<u8>, i: int) -> bool {
    0 <= i < WORD_LEN && guess[i] == actual[i]
}

/// Position `i` of the guess holds a letter that the answer has, but elsewhere.
pub open spec fn is_misplaced(guess: Seq<u8>, actual: Seq<u8>, i: int) -> bool {
    0 <= i < WORD_LEN && guess[i] != actual[i] && actual.contains(guess[i])
}

/// Position `i` of the guess holds a letter that the answer does not have.
pub open spec fn is_absent(guess: Seq<u8>, actual: Seq<u8>, i: int) -> bool {
    0 <= i < WORD_LEN && !actual.contains(guess[i])
}

/// The constraints that `guess` reveals when the hidden word is `actual`.
///
/// Each position of the guess falls in exactly one class. A hit fixes the
/// letter at its position. A misplaced letter is ruled out at its position
/// and required somewhere. An absent letter is ruled out everywhere. How
/// often a letter occurs plays no part.
pub open spec fn constraints_of(guess: Seq<u8>, actual: Seq<u8>) -> ConstraintsView {
    ConstraintsView {
        known: Map::new(|i: usize| is_hit(guess, actual, i as int), |i: usize| guess[i as int]),
        known_not: Map::new(
            |i: usize| is_misplaced(guess, actual, i as int),
            |i: usize| guess[i as int],
        ),
        included: Set::new(
            |c: u8| exists|i: int| #[trigger] is_misplaced(guess, actual, i) && guess[i] == c,
        ),
        excluded: Set::new(
            |c: u8| exists|i: int| #[trigger] is_absent(guess, actual, i) && guess[i] == c,
        ),
    }
}

/// Tells whether `letter` stands at some position of `word`.
pub fn has_letter(word: &Word, letter: u8) -> (found: bool)
    ensures
        found == word@.contains(letter),
{
    let mut j: usize = 0;
    while j < WORD_LEN
        invariant
            j <= WORD_LEN,
            forall|k: int| 0 <= k < j ==> word@[k] != letter,
        decreases WORD_LEN - j,
    {
        if word[j] == letter {
            return true;
        }
        j += 1;
    }
    false
}

/// Derives the constraints that `guess` reveals when the hidden word is `actual`.
///
/// Hits are recorded first, over all positions; the remaining positions are
/// then classed as misplaced or absent by looking for their letter anywhere in
/// `actual`.
pub fn make_constraints(guess: &Word, actual: &Word) -> (constraints: Constraints)
    ensures
        constraints@ == constraints_of(guess@, actual@),
        constraints.wf(),
{
    let mut known: HashMap<usize, u8> = HashMap::with_capacity(5);
    let mut known_not: HashMap<usize, u8> = HashMap::with_capacity(5);
    let mut included: HashSet<u8> = HashSet::new();
    let mut excluded: HashSet<u8> = HashSet::new();
    let ghost g = guess@;
    let ghost a = actual@;

    let mut i: usize = 0;
    while i < WORD_LEN
        invariant
            i <= WORD_LEN,
            g == guess@,
            a == actual@,
            known@ =~= Map::new(
                |k: usize| k < i && is_hit(g, a, k as int),
                |k: usize| g[k as int],
            ),
        decreases WORD_LEN - i,
    {
        if guess[i] == actual[i] {
            known.insert(i, guess[i]);
        }
        i += 1;
    }
    assert(known@ =~= constraints_of(g, a).known);

    let mut i: usize = 0;
    while i < WORD_LEN
        invariant
            i <= WORD_LEN,
            g == guess@,
            a == actual@,
            known@ == constraints_of(g, a).known,
            known_not@ =~= Map::new(
                |k: usize| k < i && is_misplaced(g, a, k as int),
                |k: usize| g[k as int],
            ),
            included@ =~= Set::new(
                |c: u8| exists|k: int| k < i && #[trigger] is_misplaced(g, a, k) && g[k] == c,
            ),
            excluded@ =~= Set::new(
                |c: u8| exists|k: int| k < i && #[trigger] is_absent(g, a, k) && g[k] == c,
            ),
        decreases WORD_LEN - i,
    {
        if !known.contains_key(&i) {
            if has_letter(actual, guess[i]) {
                included.insert(guess[i]);
                known_not.insert(i, guess[i]);
                assert(is_misplaced(g, a, i as int));
            } else {
                excluded.insert(guess[i]);
                assert(is_absent(g, a, i as int));
            }
        } else {
            assert(is_hit(g, a, i as int));
            assert(a.contains(g[i as int]));
        }
        i += 1;
    }
    assert(known_not@ =~= constraints_of(g, a).known_not);
    assert(included@ =~= constraints_of(g, a).included);
    assert(excluded@ =~= constraints_of(g, a).excluded);
    Constraints { known, known_not, included, excluded }
}

/// Tells whether a word agrees with every fact of a constraint set.
///
/// The word has each known letter at its position, has none of the letters
/// ruled out for a position at that position, holds every included letter
/// somewhere, and holds no excluded letter.
pub open spec fn satisfies(word: Seq<u8>, c: ConstraintsView) -> bool {
    &&& forall|i: usize| #[trigger] c.known.contains_key(i) ==> word[i as int] == c.known[i]
    &&& forall|i: usize|
        #[trigger] c.known_not.contains_key(i) ==> word[i as int] != c.known_not[i]
    &&& forall|letter: u8| #[trigger] c.included.contains(letter) ==> word.contains(letter)
    &&& forall|k: int| 0 <= k < word.len() ==> !c.excluded.contains(#[trigger] word[k])
}

/// Every pair that a walk over `map` yields is an entry of the map, and every
/// entry is yielded.
proof fn lemma_map_walk(map: &HashMap<usize, u8>)
    ensures
        ({
            let v = spec_hash_map_iter(map).remaining();
            &&& forall|k: int|
                0 <= k < v.len() ==> map@.contains_key(*(#[trigger] v[k]).0) && map@[*v[k].0]
                    == *v[k].1
            &&& forall|key: usize| #[trigger]
                map@.contains_key(key) ==> exists|k: int|
                    0 <= k < v.len() && *(#[trigger] v[k]).0 == key
        }),
{
    let v = spec_hash_map_iter(map).remaining();
    assert forall|k: int| 0 <= k < v.len() implies map@.contains_key(*(#[trigger] v[k]).0)
        && map@[*v[k].0] == *v[k].1 by {
        assert(map@.contains_key(*v[k].0));
    }
    assert forall|key: usize| #[trigger] map@.contains_key(key) implies exists|k: int|
        0 <= k < v.len() && *(#[trigger] v[k]).0 == key by {
        assert(v.contains((&key, &map@[key])));
        let k = choose|k: int| 0 <= k < v.len() && v[k] == (&key, &map@[key]);
        assert(*v[k].0 == key);
    }
}

/// Every letter that a walk over `set` yields is a member of the set, and
/// every member is yielded.
proof fn lemma_set_walk(set: &HashSet<u8>)
    ensures
        ({
            let v = spec_hash_keys_iter(set).remaining();
            &&& forall|k: int| 0 <= k < v.len() ==> set@.contains(*#[trigger] v[k])
            &&& forall|letter: u8| #[trigger]
                set@.contains(letter) ==> exists|k: int|
                    0 <= k < v.len() && *(#[trigger] v[k]) == letter
        }),
{
    let v = spec_hash_keys_iter(set).remaining();
    let u = v.unref();
    assert(u.to_set() == set@);
    assert forall|k: int| 0 <= k < v.len() implies set@.contains(*#[trigger] v[k]) by {
        assert(u[k] == *v[k]);
        assert(u.contains(u[k]));
        assert(u.to_set().contains(u[k]));
    }
    assert forall|letter: u8| #[trigger] set@.contains(letter) implies exists|k: int|
        0 <= k < v.len() && *(#[trigger] v[k]) == letter by {
        assert(u.to_set().contains(letter));
        assert(u.contains(letter));
        let k = choose|k: int| 0 <= k < u.len() && u[k] == letter;
        assert(*v[k] == letter);
    }
}

/// Decides whether `word` is still a possible answer under `constraints`.
pub fn check_constraints(word: &Word, constraints: &Constraints) -> (ok: bool)
    requires
        constraints.wf(),
    ensures
        ok == satisfies(word@, constraints@),
{
    proof {
        lemma_map_walk(&constraints.known);
        lemma_map_walk(&constraints.known_not);
        lemma_set_walk(&constraints.included);
    }
    for pair in it: constraints.known.iter()
        invariant
            constraints.wf(),
            it.seq() == spec_hash_map_iter(&constraints.known).remaining(),
            forall|k: int|
                0 <= k < it.seq().len() ==> constraints.known@.contains_key(
                    *(#[trigger] it.seq()[k]).0,
                ) && constraints.known@[*it.seq()[k].0] == *it.seq()[k].1,
            forall|k: int|
                0 <= k < it.index() ==> word@[*(#[trigger] it.seq()[k]).0 as int]
                    == *it.seq()[k].1,
    {
        let (i, character) = pair;
        assert(pair == it.seq()[it.index()]);
        assert(constraints@.known.contains_key(*i));
        if word[*i] != *character {
            return false;
        }
    }
    for pair in it: constraints.known_not.iter()
        invariant
            constraints.wf(),
            it.seq() == spec_hash_map_iter(&constraints.known_not).remaining(),
            forall|k: int|
                0 <= k < it.seq().len() ==> constraints.known_not@.contains_key(
                    *(#[trigger] it.seq()[k]).0,
                ) && constraints.known_not@[*it.seq()[k].0] == *it.seq()[k].1,
            forall|i: usize|
                #[trigger] constraints.known@.contains_key(i) ==> word@[i as int]
                    == constraints.known@[i],
            forall|k: int|
                0 <= k < it.index() ==> word@[*(#[trigger] it.seq()[k]).0 as int]
                    != *it.seq()[k].1,
    {
        let (i, character) = pair;
        assert(pair == it.seq()[it.index()]);
        assert(constraints@.known_not.contains_key(*i));
        if word[*i] == *character {
            return false;
        }
    }
    for character in it: constraints.included.iter()
        invariant
            it.seq() == spec_hash_keys_iter(&constraints.included).remaining(),
            forall|k: int|
                0 <= k < it.seq().len() ==> constraints.included@.contains(
                    *#[trigger] it.seq()[k],
                ),
            forall|i: usize|
                #[trigger] constraints.known@.contains_key(i) ==> word@[i as int]
                    == constraints.known@[i],
            forall|i: usize|
                #[trigger] constraints.known_not@.contains_key(i) ==> word@[i as int]
                    != constraints.known_not@[i],
            forall|k: int| 0 <= k < it.index() ==> word@.contains(*#[trigger] it.seq()[k]),
    {
        assert(character == it.seq()[it.index()]);
        assert(constraints@.included.contains(*character));
        if !has_letter(word, *character) {
            return false;
        }
    }
    let mut i: usize = 0;
    while i < WORD_LEN
        invariant
            i <= WORD_LEN,
            forall|i: usize|
                #[trigger] constraints.known@.contains_key(i) ==> word@[i as int]
                    == constraints.known@[i],
            forall|i: usize|
                #[trigger] constraints.known_not@.contains_key(i) ==> word@[i as int]
                    != constraints.known_not@[i],
            forall|letter: u8|
                #[trigger] constraints.included@.contains(letter) ==> word@.contains(letter),
            forall|k: int| 0 <= k < i ==> !constraints.excluded@.contains(#[trigger] word@[k]),
        decreases WORD_LEN - i,
    {
        if constraints.excluded.contains(&word[i]) {
            return false;
        }
        i += 1;
    }
    true
}

/// Every position of a guess is a hit, misplaced or absent, and only one of
/// the three.
pub proof fn lemma_positions_classified(guess: Seq<u8>, actual: Seq<u8>, i: int)
    requires
        guess.len() == WORD_LEN,
        actual.len() == WORD_LEN,
        0 <= i < WORD_LEN,
    ensures
        is_hit(guess, actual, i) || is_misplaced(guess, actual, i) || is_absent(guess, actual, i),
        !(is_hit(guess, actual, i) && is_misplaced(guess, actual, i)),
        !(is_hit(guess, actual, i) && is_absent(guess, actual, i)),
        !(is_misplaced(guess, actual, i) && is_absent(guess, actual, i)),
{
    if is_hit(guess, actual, i) {
        assert(actual[i] == guess[i]);
        assert(actual.contains(guess[i]));
    }
}

/// The hidden word itself always agrees with what a guess reveals about it.
pub proof fn lemma_answer_satisfies(guess: Seq<u8>, actual: Seq<u8>)
    requires
        guess.len() == WORD_LEN,
        actual.len() == WORD_LEN,
    ensures
        satisfies(actual, constraints_of(guess, actual)),
{
    let c = constraints_of(guess, actual);
    assert forall|k: int| 0 <= k < actual.len() implies !c.excluded.contains(
        #[trigger] actual[k],
    ) by {
        if c.excluded.contains(actual[k]) {
            let i = choose|i: int| #[trigger] is_absent(guess, actual, i) && guess[i] == actual[k];
            assert(actual.contains(actual[k]));
        }
    }
}

/// A word played against itself yields constraints that the word satisfies.
pub proof fn lemma_self_consistent(guess: Seq<u8>)
    requires
        guess.len() == WORD_LEN,
    ensures
        satisfies(guess, constraints_of(guess, guess)),
{
    lemma_answer_satisfies(guess, guess);
}

} // verus!
