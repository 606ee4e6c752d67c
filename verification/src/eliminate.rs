//! Elimination: narrowing the candidates by the verdicts on a guess.

use vstd::prelude::*;
use crate::dictionary_set::{at_position, copy_words, DictionarySet};
use crate::game::{claims, found_letters, is_hit, spare, verdict_at, verdicts, LetterResult};
use crate::letters::{is_lower, valid_word, WORD_LENGTH};
use crate::word_list::{
    among, lemma_filter_agree, lemma_filter_twice, not_among, texts, with_letter, without_letter,
    WordList,
};

verus! {

/// What the index lists for the letter `c` at position `p`: nothing where
/// it has no such position or no entry for `c`.
pub open spec fn looked_up(set: &DictionarySet, p: int, c: char) -> Seq<Seq<char>> {
    if 0 <= p < WORD_LENGTH && is_lower(c) {
        set.positions()[p][c]
    } else {
        Seq::empty()
    }
}

/// Whether the word `w` agrees with verdict `i` of `letters`. An exact
/// letter stands at that position. A contained letter stands elsewhere in
/// the word. A letter not found is absent, unless the same verdicts found
/// it at another position: then the verdict says nothing of the word.
pub open spec fn agrees(w: Seq<char>, letters: Seq<LetterResult>, i: int) -> bool {
    match letters[i] {
        LetterResult::Exact(c) => at_position(i, c)(w),
        LetterResult::Contains(c) => !at_position(i, c)(w) && w.contains(c),
        LetterResult::NotFound(c) => found_letters(letters).contains(c) || !w.contains(c),
    }
}

/// The test "agrees with the first `n` verdicts".
pub open spec fn consistent_upto(letters: Seq<LetterResult>, n: int) -> spec_fn(Seq<char>) -> bool {
    |w: Seq<char>| forall|i: int| 0 <= i < n ==> agrees(w, letters, i)
}

/// The test "agrees with every verdict".
pub open spec fn consistent(letters: Seq<LetterResult>) -> spec_fn(Seq<char>) -> bool {
    consistent_upto(letters, letters.len() as int)
}

/// Tells whether some verdict found the letter `c`.
fn is_found_letter(letters: &Vec<LetterResult>, c: char) -> (r: bool)
    ensures
        r == found_letters(letters@).contains(c),
{
    let mut i: usize = 0;
    while i < letters.len()
        invariant
            i <= letters@.len(),
            forall|j: int|
                0 <= j < i ==> !((#[trigger] letters@[j]).found() && letters@[j].letter() == c),
        decreases letters@.len() - i,
    {
        let lr = letters[i];
        if lr.is_found() && lr.to_char() == c {
            return true;
        }
        i += 1;
    }
    false
}

/// The words that the index lists for the letter `c` at position `p`.
/// Gives no words for a position or a letter that the index does not hold.
pub fn get_position_vec(set: &DictionarySet, p: usize, c: &char) -> (r: Vec<&'static str>)
    ensures
        texts(r@) == looked_up(set, p as int, *c),
{
    if p < WORD_LENGTH {
        let listed = set.list_for_position(p);
        proof {
            listed.lemma_total();
        }
        match listed.get(*c) {
            Some(words) => copy_words(words),
            None => {
                let r: Vec<&'static str> = Vec::new();
                assert(texts(r@) =~= Seq::<Seq<char>>::empty());
                r
            },
        }
    } else {
        let r: Vec<&'static str> = Vec::new();
        assert(texts(r@) =~= Seq::<Seq<char>>::empty());
        r
    }
}

/// Keeps the candidates that the index lists for the letter `c` at
/// position `p`.
pub fn position_match(word_list: WordList, set: &DictionarySet, p: usize, c: &char) -> (r:
    WordList)
    ensures
        r@ == word_list@.filter(among(looked_up(set, p as int, *c))),
        r.corpus() == word_list.corpus(),
{
    word_list.intersect(get_position_vec(set, p, c))
}

/// Drops the candidates that the index lists for the letter `c` at
/// position `p`.
pub fn position_mismatch(word_list: WordList, set: &DictionarySet, p: usize, c: &char) -> (r:
    WordList)
    ensures
        r@ == word_list@.filter(not_among(looked_up(set, p as int, *c))),
        r.corpus() == word_list.corpus(),
{
    word_list.subtract(get_position_vec(set, p, c))
}

/// A valid word of the indexed candidates is listed for a letter at a
/// position exactly when it holds that letter there.
proof fn lemma_listed_iff_at_position(
    set: &DictionarySet,
    initial: Seq<Seq<char>>,
    p: int,
    c: char,
    w: Seq<char>,
)
    requires
        set.indexes(initial),
        initial.contains(w),
        valid_word(w),
        0 <= p,
    ensures
        looked_up(set, p, c).contains(w) <==> at_position(p, c)(w),
{
    if p < WORD_LENGTH && is_lower(c) {
        let listed = initial.filter(at_position(p, c));
        assert(looked_up(set, p, c) == listed);
        if listed.contains(w) {
            let k = choose|k: int| 0 <= k < listed.len() && listed[k] == w;
            initial.lemma_filter_pred(at_position(p, c), k);
        }
        if at_position(p, c)(w) {
            let k = choose|k: int| 0 <= k < initial.len() && initial[k] == w;
            initial.lemma_filter_contains(at_position(p, c), k);
        }
    } else {
        if p < WORD_LENGTH {
            assert(is_lower(w[p]));
        }
    }
}

/// Narrowing what was narrowed: one more test on top of those passed.
proof fn lemma_narrow(
    initial: Seq<Seq<char>>,
    passed: spec_fn(Seq<char>) -> bool,
    test: spec_fn(Seq<char>) -> bool,
    next: spec_fn(Seq<char>) -> bool,
)
    requires
        forall|k: int|
            0 <= k < initial.len() ==> ((passed(#[trigger] initial[k]) && test(initial[k]))
                <==> next(initial[k])),
    ensures
        initial.filter(passed).filter(test) == initial.filter(next),
{
    lemma_filter_twice(initial, passed, test);
    lemma_filter_agree(initial, |w: Seq<char>| passed(w) && test(w), next);
}

/// Narrows the candidates by the verdicts on a guess: keeps those that
/// agree with every verdict.
///
/// The letter index is made of the candidates as they come in. The verdicts
/// are applied from left to right. An exact letter keeps what the index
/// lists for it at its position. A contained letter drops what the index
/// lists for it at its position, and keeps the words that hold the letter. A
/// letter not found drops the words that hold it, unless the same verdicts
/// found the letter elsewhere.
pub fn eliminate_words(word_list: WordList, letters: Vec<LetterResult>) -> (r: WordList)
    ensures
        r@ == word_list@.filter(consistent(letters@)),
        r.corpus() == word_list.corpus(),
        r@.len() <= word_list@.len(),
{
    let set = DictionarySet::from_word_list(&word_list);
    let ghost initial = word_list@;
    let ghost corpus = word_list.corpus();
    proof {
        use_type_invariant(&word_list);
        word_list.lemma_wf();
        lemma_filter_agree(initial, consistent_upto(letters@, 0), |w: Seq<char>| true);
        crate::word_list::lemma_filter_all(initial, |w: Seq<char>| true);
    }
    let mut current = word_list;
    let mut i: usize = 0;
    while i < letters.len()
        invariant
            i <= letters@.len(),
            set.indexes(initial),
            forall|k: int| 0 <= k < initial.len() ==> valid_word(#[trigger] initial[k]),
            current@ == initial.filter(consistent_upto(letters@, i as int)),
            current.corpus() == corpus,
        decreases letters@.len() - i,
    {
        let ghost passed = consistent_upto(letters@, i as int);
        let ghost next = consistent_upto(letters@, i + 1);
        match letters[i] {
            LetterResult::Exact(c) => {
                proof {
                    let test = among(looked_up(&set, i as int, c));
                    assert forall|k: int| 0 <= k < initial.len() implies ((passed(
                        #[trigger] initial[k],
                    ) && test(initial[k])) <==> next(initial[k])) by {
                        let w = initial[k];
                        lemma_listed_iff_at_position(&set, initial, i as int, c, w);
                        assert(test(w) <==> agrees(w, letters@, i as int));
                    }
                    lemma_narrow(initial, passed, test, next);
                }
                current = position_match(current, &set, i, &c);
            },
            LetterResult::Contains(c) => {
                proof {
                    let drop = not_among(looked_up(&set, i as int, c));
                    let both = |w: Seq<char>| passed(w) && drop(w);
                    lemma_narrow(initial, passed, drop, both);
                    assert forall|k: int| 0 <= k < initial.len() implies ((both(
                        #[trigger] initial[k],
                    ) && with_letter(c)(initial[k])) <==> next(initial[k])) by {
                        let w = initial[k];
                        lemma_listed_iff_at_position(&set, initial, i as int, c, w);
                        assert((drop(w) && with_letter(c)(w)) <==> agrees(w, letters@, i as int));
                    }
                    lemma_narrow(initial, both, with_letter(c), next);
                }
                current = position_mismatch(current, &set, i, &c).ensure_letter(c);
            },
            LetterResult::NotFound(c) => {
                if !is_found_letter(&letters, c) {
                    proof {
                        let test = without_letter(c);
                        assert forall|k: int| 0 <= k < initial.len() implies ((passed(
                            #[trigger] initial[k],
                        ) && test(initial[k])) <==> next(initial[k])) by {
                            let w = initial[k];
                            assert(test(w) <==> agrees(w, letters@, i as int));
                        }
                        lemma_narrow(initial, passed, test, next);
                    }
                    current = current.remove_letter(c);
                } else {
                    proof {
                        assert forall|k: int| 0 <= k < initial.len() implies (passed(
                            #[trigger] initial[k],
                        ) <==> next(initial[k])) by {
                            let w = initial[k];
                            assert(agrees(w, letters@, i as int));
                        }
                        lemma_filter_agree(initial, passed, next);
                    }
                }
            },
        }
        i += 1;
    }
    proof {
        initial.lemma_filter_len(consistent(letters@));
    }
    current
}

/// Spare instances of a letter are instances of it in the secret.
proof fn lemma_spare_in_secret(secret: Seq<char>, guess: Seq<char>, c: char, n: int)
    requires
        0 <= n <= secret.len(),
        spare(secret, guess, c, n) > 0,
    ensures
        secret.contains(c),
    decreases n,
{
    if n > 0 {
        if secret[n - 1] == c {
            assert(secret[n - 1] == c);
        } else {
            lemma_spare_in_secret(secret, guess, c, n - 1);
        }
    }
}

/// An instance of a letter in the secret that the guess does not hit is a
/// spare one.
proof fn lemma_unhit_is_spare(secret: Seq<char>, guess: Seq<char>, c: char, k: int, n: int)
    requires
        0 <= k < n <= secret.len(),
        secret[k] == c,
        !is_hit(secret, guess, k),
    ensures
        spare(secret, guess, c, n) > 0,
    decreases n,
{
    if k < n - 1 {
        lemma_unhit_is_spare(secret, guess, c, k, n - 1);
    }
}

/// While spare instances of a letter remain, its first claim is granted.
proof fn lemma_first_claim_granted(secret: Seq<char>, guess: Seq<char>, c: char, n: int)
    requires
        0 <= n <= guess.len(),
        claims(secret, guess, c, n) > 0,
        spare(secret, guess, c, secret.len() as int) > 0,
    ensures
        exists|j: int| 0 <= j < n && #[trigger] verdict_at(secret, guess, j) == LetterResult::Contains(c),
    decreases n,
{
    if n > 0 {
        if claims(secret, guess, c, n - 1) > 0 {
            lemma_first_claim_granted(secret, guess, c, n - 1);
            let j = choose|j: int|
                0 <= j < n - 1 && #[trigger] verdict_at(secret, guess, j) == LetterResult::Contains(c);
            assert(0 <= j < n);
        } else {
            assert(verdict_at(secret, guess, n - 1) == LetterResult::Contains(c));
        }
    }
}

/// The secret agrees with every verdict on a guess at it.
pub proof fn lemma_secret_is_consistent(secret: Seq<char>, guess: Seq<char>)
    ensures
        consistent(verdicts(secret, guess))(secret),
{
    let letters = verdicts(secret, guess);
    assert forall|i: int| 0 <= i < letters.len() implies agrees(secret, letters, i) by {
        let c = guess[i];
        assert(letters[i] == verdict_at(secret, guess, i));
        match letters[i] {
            LetterResult::Exact(_) => {},
            LetterResult::Contains(_) => {
                lemma_spare_in_secret(secret, guess, c, secret.len() as int);
            },
            LetterResult::NotFound(_) => {
                if secret.contains(c) {
                    let k = choose|k: int| 0 <= k < secret.len() && secret[k] == c;
                    if is_hit(secret, guess, k) {
                        assert(letters[k] == verdict_at(secret, guess, k));
                        assert(letters[k].found() && letters[k].letter() == c);
                    } else {
                        lemma_unhit_is_spare(secret, guess, c, k, secret.len() as int);
                        lemma_first_claim_granted(secret, guess, c, i + 1);
                        let j = choose|j: int|
                            0 <= j < i + 1 && #[trigger] verdict_at(secret, guess, j)
                                == LetterResult::Contains(c);
                        assert(letters[j] == verdict_at(secret, guess, j));
                        assert(letters[j].found() && letters[j].letter() == c);
                    }
                    assert(found_letters(letters).contains(c));
                }
            },
        }
    }
}

/// Elimination never drops the true answer: a secret among the candidates
/// is among those that agree with the verdicts on any guess at it.
pub proof fn lemma_secret_survives(candidates: Seq<Seq<char>>, secret: Seq<char>, guess: Seq<char>)
    requires
        candidates.contains(secret),
    ensures
        candidates.filter(consistent(verdicts(secret, guess))).contains(secret),
{
    lemma_secret_is_consistent(secret, guess);
    let k = choose|k: int| 0 <= k < candidates.len() && candidates[k] == secret;
    candidates.lemma_filter_contains(consistent(verdicts(secret, guess)), k);
}

/// Elimination never adds a candidate.
pub proof fn lemma_elimination_shrinks(candidates: Seq<Seq<char>>, letters: Seq<LetterResult>)
    ensures
        candidates.filter(consistent(letters)).len() <= candidates.len(),
{
    candidates.lemma_filter_len(consistent(letters));
}

} // verus!
