//! Suggestions: the words worth guessing next, best first.

use vstd::prelude::*;
use vstd::relations::{sorted_by, total_ordering};
use vstd::seq_lib::lemma_sorted_unique;
use itertools::Itertools;
use rayon::slice::ParallelSliceMut;
use crate::dictionary_set::DictionarySet;
use crate::histogram::{tally, Histogram};
use crate::letters::{chars_of, str_has_letter, valid_word, WORD_LENGTH};
use crate::word_list::{lemma_filter_agree, lemma_filter_all, texts, WordList};

verus! {

/// The order of letters.
pub open spec fn letter_le() -> spec_fn(char, char) -> bool {
    |a: char, b: char| a <= b
}

/// The pattern of a word: its letters in ascending order. Words with the
/// same pattern hold the same letters, each as often.
pub open spec fn pattern(w: Seq<char>) -> Seq<char> {
    w.sort_by(letter_le())
}

/// The pattern is the word's letters reordered, and it is in order.
pub proof fn lemma_pattern(w: Seq<char>)
    ensures
        pattern(w).to_multiset() == w.to_multiset(),
        pattern(w).len() == w.len(),
        sorted_by(pattern(w), letter_le()),
{
    assert(total_ordering(letter_le()));
    w.lemma_sort_by_ensures(letter_le());
    vstd::seq_lib::to_multiset_len(w);
    vstd::seq_lib::to_multiset_len(pattern(w));
}

/// Calls `sort` of std on the vector's slice: afterwards it holds the same
/// characters as before, in ascending order.
#[verifier::external_body]
fn sort_chars(v: &mut Vec<char>)
    ensures
        final(v)@.to_multiset() == old(v)@.to_multiset(),
        forall|i: int, j: int| 0 <= i < j < final(v)@.len() ==> final(v)@[i] <= final(v)@[j],
{
    v.sort()
}

/// Gives the pattern of a word.
pub fn pattern_from_word(word: &str) -> (r: Vec<char>)
    ensures
        r@ == pattern(word@),
{
    let mut sorted_chars = chars_of(word);
    sort_chars(&mut sorted_chars);
    proof {
        lemma_pattern(word@);
        assert(total_ordering(letter_le()));
        assert(sorted_by(sorted_chars@, letter_le())) by {
            assert forall|i: int, j: int| 0 <= i < j < sorted_chars@.len() implies (letter_le())(
                sorted_chars@[i],
                sorted_chars@[j],
            ) by {}
        }
        lemma_sorted_unique(sorted_chars@, pattern(word@), letter_le());
    }
    sorted_chars
}

/// The number of words that a map lists under `c`; 0 where it has no entry.
pub open spec fn entry_size(m: Map<char, Seq<Seq<char>>>, c: char) -> nat {
    if m.dom().contains(c) {
        m[c].len()
    } else {
        0
    }
}

/// The sum, over the first `n` letters of `w`, of the number of words that
/// the maps by position list for that letter at its position.
pub open spec fn position_score(
    w: Seq<char>,
    positions: Seq<Map<char, Seq<Seq<char>>>>,
    n: int,
) -> nat
    decreases n,
{
    if n <= 0 {
        0
    } else {
        position_score(w, positions, n - 1) + entry_size(positions[n - 1], w[n - 1])
    }
}

/// A score as an `i64`: the score itself, or the largest `i64` if that is
/// less.
pub open spec fn clamped(score: nat) -> int {
    if score <= i64::MAX {
        score as int
    } else {
        i64::MAX as int
    }
}

/// Scores a word by its letters' positions: for each letter, the number of
/// words that the index lists for it at its position, all added up.
pub fn calculate_score(dictionary: &DictionarySet, word: &'static str) -> (score: i64)
    requires
        word@.len() <= WORD_LENGTH,
    ensures
        score == clamped(position_score(word@, dictionary.positions(), word@.len() as int)),
{
    let n = word.unicode_len();
    let mut sum: u128 = 0;
    let mut i: usize = 0;
    while i < n
        invariant
            n == word@.len(),
            n <= WORD_LENGTH,
            i <= n,
            sum == position_score(word@, dictionary.positions(), i as int),
            sum <= i * usize::MAX,
        decreases n - i,
    {
        let c = word.get_char(i);
        let size: usize = match dictionary.list_for_position(i).get(c) {
            Some(words) => words.len(),
            None => 0,
        };
        assert(size == entry_size(dictionary.positions()[i as int], c)) by {
            assert(forall|v: Seq<&'static str>| (#[trigger] crate::word_list::texts(v)).len() == v.len());
        }
        assert((i + 1) * usize::MAX == i * usize::MAX + usize::MAX) by (nonlinear_arith);
        assert(i * usize::MAX <= 5 * usize::MAX) by (nonlinear_arith)
            requires
                i <= 5,
        ;
        sum = sum + size as u128;
        i += 1;
    }
    if sum <= i64::MAX as u128 {
        sum as i64
    } else {
        i64::MAX
    }
}


/// Whether the candidates `x` and `y` hold the same letters of `w`: a guess
/// of `w` does not tell them apart by the letters it finds.
pub open spec fn same_profile(w: Seq<char>, x: Seq<char>, y: Seq<char>) -> bool {
    forall|i: int| 0 <= i < w.len() ==> (x.contains(#[trigger] w[i]) <==> y.contains(w[i]))
}

/// The number of the first `n` candidates that hold the same letters of `w`
/// as `x` does.
pub open spec fn class_size(w: Seq<char>, candidates: Seq<Seq<char>>, x: Seq<char>, n: int) -> nat
    decreases n,
{
    if n <= 0 {
        0
    } else {
        class_size(w, candidates, x, n - 1) + if same_profile(w, x, candidates[n - 1]) {
            1nat
        } else {
            0nat
        }
    }
}

/// The size of the largest class among the classes of the first `n`
/// candidates.
pub open spec fn largest_class(w: Seq<char>, candidates: Seq<Seq<char>>, n: int) -> nat
    decreases n,
{
    if n <= 0 {
        0
    } else {
        let before = largest_class(w, candidates, n - 1);
        let here = class_size(w, candidates, candidates[n - 1], candidates.len() as int);
        if here > before {
            here
        } else {
            before
        }
    }
}

/// The worst case of guessing `w`: the size of the largest group of
/// candidates that hold the same letters of `w`; 0 without candidates.
pub open spec fn worst_case(w: Seq<char>, candidates: Seq<Seq<char>>) -> nat {
    largest_class(w, candidates, candidates.len() as int)
}

/// The signature of the candidate `x` under the first `n` letters of a
/// pattern: a binary number with one digit for each letter, first letter
/// first, the digit being 1 where `x` holds the letter.
pub open spec fn signature(x: Seq<char>, key: Seq<char>, n: int) -> nat
    decreases n,
{
    if n <= 0 {
        0
    } else {
        2 * signature(x, key, n - 1) + if x.contains(key[n - 1]) {
            1nat
        } else {
            0nat
        }
    }
}

/// The number of the first `n` candidates with the signature `s`.
pub open spec fn tagged(candidates: Seq<Seq<char>>, key: Seq<char>, s: int, n: int) -> nat
    decreases n,
{
    if n <= 0 {
        0
    } else {
        tagged(candidates, key, s, n - 1) + if signature(
            candidates[n - 1],
            key,
            key.len() as int,
        ) == s {
            1nat
        } else {
            0nat
        }
    }
}

/// Two candidates have the same signature exactly when they hold the same
/// letters of the pattern.
proof fn lemma_signature_tells_profile(x: Seq<char>, y: Seq<char>, key: Seq<char>, n: int)
    requires
        0 <= n <= key.len(),
    ensures
        signature(x, key, n) == signature(y, key, n) <==> forall|i: int|
            0 <= i < n ==> (x.contains(#[trigger] key[i]) <==> y.contains(key[i])),
    decreases n,
{
    if n > 0 {
        lemma_signature_tells_profile(x, y, key, n - 1);
        if signature(x, key, n) == signature(y, key, n) {
            assert(signature(x, key, n - 1) == signature(y, key, n - 1));
            assert(x.contains(key[n - 1]) <==> y.contains(key[n - 1]));
        }
        if forall|i: int| 0 <= i < n ==> (x.contains(#[trigger] key[i]) <==> y.contains(key[i])) {
            assert(x.contains(key[n - 1]) <==> y.contains(key[n - 1]));
        }
    }
}

/// The class of `x` is the candidates with the signature of `x`.
proof fn lemma_class_is_tagged(key: Seq<char>, candidates: Seq<Seq<char>>, x: Seq<char>, n: int)
    requires
        0 <= n <= candidates.len(),
    ensures
        class_size(key, candidates, x, n) == tagged(
            candidates,
            key,
            signature(x, key, key.len() as int) as int,
            n,
        ),
    decreases n,
{
    if n > 0 {
        lemma_class_is_tagged(key, candidates, x, n - 1);
        lemma_signature_tells_profile(x, candidates[n - 1], key, key.len() as int);
    }
}

/// A candidate counted under a signature is one of the candidates.
proof fn lemma_tagged_witness(candidates: Seq<Seq<char>>, key: Seq<char>, s: int, n: int)
    requires
        0 <= n <= candidates.len(),
    ensures
        tagged(candidates, key, s, n) <= n,
        tagged(candidates, key, s, n) > 0 ==> exists|j: int|
            0 <= j < n && signature(#[trigger] candidates[j], key, key.len() as int) == s,
    decreases n,
{
    if n > 0 {
        lemma_tagged_witness(candidates, key, s, n - 1);
        if tagged(candidates, key, s, n - 1) > 0 {
            let j = choose|j: int|
                0 <= j < n - 1 && signature(#[trigger] candidates[j], key, key.len() as int) == s;
            assert(0 <= j < n);
        } else if tagged(candidates, key, s, n) > 0 {
            assert(signature(candidates[n - 1], key, key.len() as int) == s);
        }
    }
}

/// A class is no larger than the number of candidates looked at, and the
/// class of a candidate looked at holds that candidate.
proof fn lemma_class_bounds(w: Seq<char>, candidates: Seq<Seq<char>>, x: Seq<char>, n: int)
    requires
        0 <= n <= candidates.len(),
    ensures
        class_size(w, candidates, x, n) <= n,
        forall|j: int| 0 <= j < n && candidates[j] == x ==> class_size(w, candidates, x, n) > 0,
    decreases n,
{
    if n > 0 {
        lemma_class_bounds(w, candidates, x, n - 1);
    }
}

/// The largest class is the class of one of the candidates, and no class
/// of a candidate is larger.
proof fn lemma_largest_class(w: Seq<char>, candidates: Seq<Seq<char>>, n: int)
    requires
        0 <= n <= candidates.len(),
    ensures
        forall|j: int|
            0 <= j < n ==> class_size(w, candidates, #[trigger] candidates[j], candidates.len() as int)
                <= largest_class(w, candidates, n),
        n > 0 ==> exists|j: int|
            0 <= j < n && class_size(w, candidates, #[trigger] candidates[j], candidates.len() as int)
                == largest_class(w, candidates, n),
        largest_class(w, candidates, n) <= candidates.len(),
    decreases n,
{
    if n > 0 {
        lemma_largest_class(w, candidates, n - 1);
        lemma_class_bounds(w, candidates, candidates[n - 1], candidates.len() as int);
        let here = class_size(w, candidates, candidates[n - 1], candidates.len() as int);
        if n - 1 > 0 && largest_class(w, candidates, n - 1) >= here {
            let j = choose|j: int|
                0 <= j < n - 1 && class_size(
                    w,
                    candidates,
                    #[trigger] candidates[j],
                    candidates.len() as int,
                ) == largest_class(w, candidates, n - 1);
            assert(0 <= j < n);
        } else {
            assert(class_size(w, candidates, candidates[n - 1], candidates.len() as int)
                == largest_class(w, candidates, n));
        }
    }
}

/// The worst case of a word is no more than the number of candidates.
pub proof fn lemma_worst_case_bound(w: Seq<char>, candidates: Seq<Seq<char>>)
    ensures
        worst_case(w, candidates) <= candidates.len(),
{
    lemma_largest_class(w, candidates, candidates.len() as int);
}

/// Words that hold the same letters, each as often, split the candidates
/// into the same classes.
proof fn lemma_same_letters_same_classes(
    w: Seq<char>,
    v: Seq<char>,
    candidates: Seq<Seq<char>>,
    x: Seq<char>,
    n: int,
)
    requires
        w.to_multiset() == v.to_multiset(),
        0 <= n <= candidates.len(),
    ensures
        class_size(w, candidates, x, n) == class_size(v, candidates, x, n),
    decreases n,
{
    if n > 0 {
        lemma_same_letters_same_classes(w, v, candidates, x, n - 1);
        let y = candidates[n - 1];
        assert(same_profile(w, x, y) <==> same_profile(v, x, y)) by {
            if same_profile(w, x, y) {
                lemma_profile_by_letters(w, v, x, y);
            }
            if same_profile(v, x, y) {
                lemma_profile_by_letters(v, w, x, y);
            }
        }
    }
}

proof fn lemma_profile_by_letters(w: Seq<char>, v: Seq<char>, x: Seq<char>, y: Seq<char>)
    requires
        w.to_multiset() == v.to_multiset(),
        same_profile(w, x, y),
    ensures
        same_profile(v, x, y),
{
    assert forall|i: int| 0 <= i < v.len() implies (x.contains(#[trigger] v[i]) <==> y.contains(
        v[i],
    )) by {
        vstd::seq_lib::to_multiset_contains(v, v[i]);
        vstd::seq_lib::to_multiset_contains(w, v[i]);
        assert(v.contains(v[i]));
        let k = choose|k: int| 0 <= k < w.len() && w[k] == v[i];
        assert(x.contains(w[k]) <==> y.contains(w[k]));
    }
}

/// Words that hold the same letters, each as often, have the same worst
/// case.
pub proof fn lemma_worst_case_by_letters(w: Seq<char>, v: Seq<char>, candidates: Seq<Seq<char>>)
    requires
        w.to_multiset() == v.to_multiset(),
    ensures
        worst_case(w, candidates) == worst_case(v, candidates),
{
    lemma_largest_by_letters(w, v, candidates, candidates.len() as int);
}

proof fn lemma_largest_by_letters(w: Seq<char>, v: Seq<char>, candidates: Seq<Seq<char>>, n: int)
    requires
        w.to_multiset() == v.to_multiset(),
        0 <= n <= candidates.len(),
    ensures
        largest_class(w, candidates, n) == largest_class(v, candidates, n),
    decreases n,
{
    if n > 0 {
        lemma_largest_by_letters(w, v, candidates, n - 1);
        lemma_same_letters_same_classes(
            w,
            v,
            candidates,
            candidates[n - 1],
            candidates.len() as int,
        );
    }
}

/// Computes the signature of a candidate under a pattern.
fn signature_of(word: &str, key: &Vec<char>) -> (bucket: u8)
    requires
        key@.len() <= WORD_LENGTH,
    ensures
        bucket == signature(word@, key@, key@.len() as int),
{
    let mut bucket: u8 = 0;
    let mut k: usize = 0;
    while k < key.len()
        invariant
            key@.len() <= WORD_LENGTH,
            k <= key@.len(),
            bucket == signature(word@, key@, k as int),
            k == 0 ==> bucket == 0,
            k == 1 ==> bucket <= 1,
            k == 2 ==> bucket <= 3,
            k == 3 ==> bucket <= 7,
            k == 4 ==> bucket <= 15,
            k == 5 ==> bucket <= 31,
        decreases key@.len() - k,
    {
        let bit: u8 = if str_has_letter(word, key[k]) { 1 } else { 0 };
        bucket = bucket * 2 + bit;
        k += 1;
    }
    bucket
}

/// Computes the worst case of the words with the pattern `key`: counts the
/// candidates by signature and takes the largest count. The patterns are
/// rated one by one, each on its own.
pub fn worst_case_for(key: &Vec<char>, words: &Vec<&'static str>) -> (remaining: usize)
    requires
        key@.len() <= WORD_LENGTH,
    ensures
        remaining == worst_case(key@, texts(words@)),
{
    let ghost candidates = texts(words@);
    let mut hist = Histogram::new();
    let mut j: usize = 0;
    while j < words.len()
        invariant
            key@.len() <= WORD_LENGTH,
            candidates == texts(words@),
            j <= words@.len(),
            forall|s: u8| #[trigger] tally(hist).count(s) == tagged(candidates, key@, s as int, j as int),
        decreases words@.len() - j,
    {
        let bucket = signature_of(words[j], key);
        proof {
            lemma_tagged_witness(candidates, key@, bucket as int, j as int);
        }
        let ghost before = tally(hist);
        hist.bump(bucket);
        proof {
            assert(candidates[j as int] == words@[j as int]@);
            assert forall|s: u8| #[trigger]
                tally(hist).count(s) == tagged(candidates, key@, s as int, j + 1) by {
                assert(before.count(s) == tagged(candidates, key@, s as int, j as int));
            }
        }
        j += 1;
    }
    let pairs = hist.entries();
    let mut remaining: usize = 0;
    let mut i: usize = 0;
    while i < pairs.len()
        invariant
            i <= pairs@.len(),
            forall|k: int| 0 <= k < i ==> (#[trigger] pairs@[k]).1 <= remaining,
            remaining == 0 || exists|k: int| 0 <= k < i && (#[trigger] pairs@[k]).1 == remaining,
        decreases pairs@.len() - i,
    {
        if pairs[i].1 > remaining {
            remaining = pairs[i].1;
        }
        i += 1;
    }
    proof {
        let n = candidates.len() as int;
        let width = key@.len() as int;
        let largest = largest_class(key@, candidates, n);
        lemma_largest_class(key@, candidates, n);
        if n > 0 {
            let j = choose|j: int|
                0 <= j < n && class_size(key@, candidates, #[trigger] candidates[j], n) == largest;
            let s = signature(candidates[j], key@, width);
            lemma_class_is_tagged(key@, candidates, candidates[j], n);
            lemma_class_bounds(key@, candidates, candidates[j], n);
            lemma_signature_small(candidates[j], key@, width);
            assert(tally(hist).count(s as u8) == largest);
            let k = choose|k: int| 0 <= k < pairs@.len() && (#[trigger] pairs@[k]).0 == s as u8;
            assert(pairs@[k].1 == largest);
        }
        if remaining > 0 {
            let k = choose|k: int| 0 <= k < pairs@.len() && (#[trigger] pairs@[k]).1 == remaining;
            let s = pairs@[k].0;
            assert(tally(hist).count(s) == remaining);
            lemma_tagged_witness(candidates, key@, s as int, n);
            let j = choose|j: int|
                0 <= j < n && signature(#[trigger] candidates[j], key@, width) == s as int;
            lemma_class_is_tagged(key@, candidates, candidates[j], n);
            assert(class_size(key@, candidates, candidates[j], n) == remaining);
        }
    }
    remaining
}

/// A signature of up to five letters is below 32.
proof fn lemma_signature_small(x: Seq<char>, key: Seq<char>, n: int)
    requires
        0 <= n <= WORD_LENGTH,
    ensures
        signature(x, key, n) < 32,
{
    reveal_with_fuel(signature, 6);
}


/// The order of words: letter by letter, and a word before its extensions.
pub open spec fn word_le(a: Seq<char>, b: Seq<char>) -> bool
    decreases a.len(),
{
    if a.len() == 0 {
        true
    } else if b.len() == 0 {
        false
    } else if a[0] != b[0] {
        a[0] < b[0]
    } else {
        word_le(a.drop_first(), b.drop_first())
    }
}

/// A suggestion, as a mathematical value.
pub struct Ranked {
    /// The word to guess.
    pub word: Seq<char>,
    /// The worst case of guessing it.
    pub remaining: nat,
    /// Its score by letter positions.
    pub score: int,
}

/// The value of a suggestion.
pub open spec fn ranked(entry: (&'static str, usize, i64)) -> Ranked {
    Ranked { word: entry.0@, remaining: entry.1 as nat, score: entry.2 as int }
}

/// The words of a list of suggestions, in order.
pub open spec fn words_of(entries: Seq<(&'static str, usize, i64)>) -> Seq<Seq<char>> {
    Seq::new(entries.len(), |i: int| entries[i].0@)
}

/// Whether `a` may stand before `b` in a ranking: by smaller worst case,
/// then by larger score, then by the order of words.
pub open spec fn ranks_before(a: Ranked, b: Ranked) -> bool {
    ||| a.remaining < b.remaining
    ||| a.remaining == b.remaining && a.score > b.score
    ||| a.remaining == b.remaining && a.score == b.score && word_le(a.word, b.word)
}

/// What a word is rated, given the candidates and the maps by position.
pub open spec fn rated(
    w: Seq<char>,
    candidates: Seq<Seq<char>>,
    positions: Seq<Map<char, Seq<Seq<char>>>>,
) -> Ranked {
    Ranked {
        word: w,
        remaining: worst_case(w, candidates),
        score: clamped(position_score(w, positions, w.len() as int)),
    }
}

/// The words of a list of groups, group after group.
pub open spec fn joined(groups: Seq<(Vec<char>, Vec<&'static str>)>) -> Seq<&'static str>
    decreases groups.len(),
{
    if groups.len() == 0 {
        Seq::empty()
    } else {
        joined(groups.drop_last()) + groups.last().1@
    }
}

/// The test "has the pattern `key`".
pub open spec fn has_pattern(key: Seq<char>) -> spec_fn(&'static str) -> bool {
    |w: &'static str| pattern(w@) == key
}

/// Whether every word of every group has the pattern that the group holds.
pub open spec fn keyed(groups: Seq<(Vec<char>, Vec<&'static str>)>) -> bool {
    forall|g: int, m: int|
        0 <= g < groups.len() && 0 <= m < groups[g].1@.len() ==> pattern(
            #[trigger] groups[g].1@[m]@,
        ) == groups[g].0@
}

/// Calls rayon's `par_sort_by_key` on the vector's slice, with the pattern
/// of each word as its key. Afterwards the vector holds the same words as
/// before, and their patterns ascend in the order of `Vec<char>`, which is
/// `word_le`. The sort is stable: the words of one pattern stay in their
/// order.
#[verifier::external_body]
fn sort_by_pattern(pool: &mut Vec<&'static str>)
    ensures
        final(pool)@.to_multiset() == old(pool)@.to_multiset(),
        forall|i: int, j: int|
            0 <= i < j < final(pool)@.len() ==> word_le(
                pattern(final(pool)@[i]@),
                pattern(final(pool)@[j]@),
            ),
        forall|key: Seq<char>|
            #[trigger] final(pool)@.filter(has_pattern(key)) == old(pool)@.filter(
                has_pattern(key),
            ),
{
    pool.par_sort_by_key(|word| pattern_from_word(*word))
}

/// Calls itertools' `group_by` on the words, with the pattern of each word
/// as its key, and collects the groups. The groups are the runs of words
/// with one pattern: joined they give the words in their order, none is
/// empty, each holds its pattern and words of that pattern, and neighbours
/// differ in pattern.
#[verifier::external_body]
fn group_by_pattern(pool: &Vec<&'static str>) -> (groups: Vec<(Vec<char>, Vec<&'static str>)>)
    ensures
        joined(groups@) == pool@,
        forall|g: int| 0 <= g < groups@.len() ==> (#[trigger] groups@[g]).1@.len() > 0,
        keyed(groups@),
        forall|g: int|
            0 <= g && g + 1 < groups@.len() ==> (#[trigger] groups@[g]).0@ != groups@[g + 1].0@,
{
    pool.iter().group_by(|word| pattern_from_word(*word)).into_iter().map(
        |(key, group)| (key, group.cloned().collect_vec()),
    ).collect_vec()
}

/// The key by which suggestions are sorted: worst case, then the score
/// negated, then the word.
pub fn rank_key(entry: &(&'static str, usize, i64)) -> (key: (usize, i64, &'static str))
    requires
        entry.2 > i64::MIN,
    ensures
        key.0 == entry.1,
        key.1 == -entry.2,
        key.2@ == entry.0@,
{
    (entry.1, -entry.2, entry.0)
}

/// Calls rayon's `par_sort_by_key` on the vector's slice, with `rank_key`
/// of each suggestion as its key. Afterwards the vector holds the same
/// suggestions as before, and their keys ascend in the order of tuples:
/// by the first part, then the second, then the third, a `str`, which std
/// orders as `word_le` does.
#[verifier::external_body]
fn sort_by_rank(reduction: &mut Vec<(&'static str, usize, i64)>)
    requires
        forall|i: int| 0 <= i < old(reduction)@.len() ==> (#[trigger] old(reduction)@[i]).2 > i64::MIN,
    ensures
        final(reduction)@.to_multiset() == old(reduction)@.to_multiset(),
        forall|i: int, j: int|
            0 <= i < j < final(reduction)@.len() ==> ranks_before(
                ranked(final(reduction)@[i]),
                ranked(final(reduction)@[j]),
            ),
{
    reduction.par_sort_by_key(|entry| rank_key(entry))
}

/// Sequences that hold the same elements, each as often, still do after
/// the same function is applied to every element.
pub proof fn lemma_map_permutation<A, B>(a: Seq<A>, b: Seq<A>, f: spec_fn(A) -> B)
    requires
        a.to_multiset() == b.to_multiset(),
    ensures
        a.map_values(f).to_multiset() == b.map_values(f).to_multiset(),
    decreases a.len(),
{
    broadcast use vstd::seq_lib::group_to_multiset_ensures;

    vstd::seq_lib::to_multiset_len(a);
    vstd::seq_lib::to_multiset_len(b);
    if a.len() == 0 {
        assert(a.map_values(f) =~= b.map_values(f));
    } else {
        let x = a.last();
        let rest = a.drop_last();
        assert(a =~= rest.push(x));
        vstd::seq_lib::to_multiset_contains(a, x);
        vstd::seq_lib::to_multiset_contains(b, x);
        assert(a.contains(x));
        let k = choose|k: int| 0 <= k < b.len() && b[k] == x;
        let others = b.remove(k);
        vstd::seq_lib::to_multiset_remove(b, k);
        vstd::seq_lib::to_multiset_build(rest, x);
        assert(rest.to_multiset() =~= a.to_multiset().remove(x));
        lemma_map_permutation(rest, others, f);
        assert(a.map_values(f) =~= rest.map_values(f).push(f(x)));
        assert(b.map_values(f).remove(k) =~= others.map_values(f));
        vstd::seq_lib::to_multiset_build(rest.map_values(f), f(x));
        vstd::seq_lib::to_multiset_remove(b.map_values(f), k);
        assert(b.map_values(f).to_multiset() =~= others.map_values(f).to_multiset().insert(f(x)));
    }
}


/// Words that stand before each other either way are the same word.
pub proof fn lemma_word_le_antisymmetric(a: Seq<char>, b: Seq<char>)
    requires
        word_le(a, b),
        word_le(b, a),
    ensures
        a == b,
    decreases a.len(),
{
    if a.len() == 0 {
        assert(a =~= b);
    } else {
        lemma_word_le_antisymmetric(a.drop_first(), b.drop_first());
        assert forall|i: int| 0 <= i < a.len() implies a[i] == b[i] by {
            if i > 0 {
                assert(a[i] == a.drop_first()[i - 1]);
                assert(b[i] == b.drop_first()[i - 1]);
            }
        }
        assert(a.len() == a.drop_first().len() + 1);
        assert(b.len() == b.drop_first().len() + 1);
        assert(a =~= b);
    }
}

/// Where the words of a group stand among the words of the groups joined:
/// behind the words of the groups before it.
proof fn lemma_joined_at(groups: Seq<(Vec<char>, Vec<&'static str>)>, g: int, m: int)
    requires
        0 <= g < groups.len(),
        0 <= m < groups[g].1@.len(),
    ensures
        joined(groups.take(g)).len() + m < joined(groups).len(),
        joined(groups)[joined(groups.take(g)).len() + m] == groups[g].1@[m],
    decreases groups.len(),
{
    let rest = groups.drop_last();
    if g == groups.len() - 1 {
        assert(groups.take(g) =~= rest);
    } else {
        lemma_joined_at(rest, g, m);
        assert(rest.take(g) =~= groups.take(g));
    }
}

/// The words of a later group stand behind the words of an earlier one.
proof fn lemma_joined_ascends(groups: Seq<(Vec<char>, Vec<&'static str>)>, g: int, h: int)
    requires
        0 <= g < h <= groups.len(),
    ensures
        joined(groups.take(g)).len() + groups[g].1@.len() <= joined(groups.take(h)).len(),
    decreases h - g,
{
    assert(groups.take(h).drop_last() =~= groups.take(h - 1));
    assert(groups.take(h).last() == groups[h - 1]);
    if g < h - 1 {
        lemma_joined_ascends(groups, g, h - 1);
    }
}

/// A word among the words of the groups joined is a word of a group.
proof fn lemma_joined_member(groups: Seq<(Vec<char>, Vec<&'static str>)>, w: &'static str)
    requires
        joined(groups).contains(w),
    ensures
        exists|g: int, m: int|
            0 <= g < groups.len() && 0 <= m < groups[g].1@.len() && #[trigger] groups[g].1@[m] == w,
    decreases groups.len(),
{
    if groups.len() > 0 {
        let rest = groups.drop_last();
        let before = joined(rest);
        let last = groups.last().1@;
        let k = choose|k: int| 0 <= k < joined(groups).len() && joined(groups)[k] == w;
        if k < before.len() {
            assert(before[k] == w);
            lemma_joined_member(rest, w);
            let (g, m) = choose|g: int, m: int|
                0 <= g < rest.len() && 0 <= m < rest[g].1@.len() && #[trigger] rest[g].1@[m] == w;
            assert(groups[g].1@[m] == w);
        } else {
            assert(groups[groups.len() - 1].1@[k - before.len()] == w);
        }
    }
}

/// Among groups of other patterns no word has the pattern `key`.
proof fn lemma_joined_filter_none(groups: Seq<(Vec<char>, Vec<&'static str>)>, key: Seq<char>)
    requires
        keyed(groups),
        forall|g: int| 0 <= g < groups.len() ==> (#[trigger] groups[g]).0@ != key,
    ensures
        joined(groups).filter(has_pattern(key)) == Seq::<&'static str>::empty(),
    decreases groups.len(),
{
    reveal(Seq::filter);
    if groups.len() > 0 {
        let rest = groups.drop_last();
        let last = groups.last().1@;
        assert(keyed(rest)) by {
            assert forall|g: int, m: int|
                0 <= g < rest.len() && 0 <= m < rest[g].1@.len() implies pattern(
                #[trigger] rest[g].1@[m]@,
            ) == rest[g].0@ by {
                assert(rest[g] == groups[g]);
            }
        }
        assert forall|g: int| 0 <= g < rest.len() implies (#[trigger] rest[g]).0@ != key by {
            assert(rest[g] == groups[g]);
        }
        lemma_joined_filter_none(rest, key);
        Seq::filter_distributes_over_add(joined(rest), last, has_pattern(key));
        assert(last.filter(has_pattern(key)).len() == 0) by {
            assert forall|m: int| 0 <= m < last.len() implies !(has_pattern(key))(
                #[trigger] last[m],
            ) by {
                assert(pattern(groups[groups.len() - 1].1@[m]@) == groups[groups.len() - 1].0@);
            }
            lemma_filter_agree(last, has_pattern(key), |w: &'static str| false);
            last.lemma_all_neg_filter_empty(|w: &'static str| false);
        }
        assert(joined(groups).filter(has_pattern(key)) =~= Seq::<&'static str>::empty());
    }
}

/// Among groups of different patterns, the words with the pattern of one
/// group are the words of that group.
proof fn lemma_joined_filter_one(groups: Seq<(Vec<char>, Vec<&'static str>)>, t: int)
    requires
        keyed(groups),
        forall|g: int, h: int|
            0 <= g < h < groups.len() ==> (#[trigger] groups[g]).0@ != (#[trigger] groups[h]).0@,
        0 <= t < groups.len(),
    ensures
        joined(groups).filter(has_pattern(groups[t].0@)) == groups[t].1@,
    decreases groups.len(),
{
    let key = groups[t].0@;
    let rest = groups.drop_last();
    let last = groups.last().1@;
    assert(keyed(rest)) by {
        assert forall|g: int, m: int|
            0 <= g < rest.len() && 0 <= m < rest[g].1@.len() implies pattern(
            #[trigger] rest[g].1@[m]@,
        ) == rest[g].0@ by {
            assert(rest[g] == groups[g]);
        }
    }
    Seq::filter_distributes_over_add(joined(rest), last, has_pattern(key));
    if t == groups.len() - 1 {
        assert forall|g: int| 0 <= g < rest.len() implies (#[trigger] rest[g]).0@ != key by {
            assert(rest[g] == groups[g]);
            assert(groups[g].0@ != groups[t].0@);
        }
        lemma_joined_filter_none(rest, key);
        assert forall|m: int| 0 <= m < last.len() implies (has_pattern(key))(#[trigger] last[m]) by {
            assert(pattern(groups[t].1@[m]@) == groups[t].0@);
        }
        lemma_filter_all(last, has_pattern(key));
        assert(joined(groups).filter(has_pattern(key)) =~= last);
    } else {
        assert forall|g: int, h: int| 0 <= g < h < rest.len() implies (#[trigger] rest[g]).0@ != (
        #[trigger] rest[h]).0@ by {
            assert(rest[g] == groups[g] && rest[h] == groups[h]);
        }
        lemma_joined_filter_one(rest, t);
        assert(rest[t] == groups[t]);
        assert(last.filter(has_pattern(key)).len() == 0) by {
            assert(groups[t].0@ != groups[groups.len() - 1].0@);
            assert forall|m: int| 0 <= m < last.len() implies !(has_pattern(key))(
                #[trigger] last[m],
            ) by {
                assert(pattern(groups[groups.len() - 1].1@[m]@) == groups[groups.len() - 1].0@);
            }
            lemma_filter_agree(last, has_pattern(key), |w: &'static str| false);
            last.lemma_all_neg_filter_empty(|w: &'static str| false);
        }
        assert(joined(groups).filter(has_pattern(key)) =~= groups[t].1@);
    }
}

/// Groups the words by pattern. There is one group for each pattern that
/// occurs, and the groups ascend by pattern. A group holds its pattern and
/// the words of that pattern, in the order in which they were given.
pub fn pattern_groups(words: Vec<&'static str>) -> (groups: Vec<(Vec<char>, Vec<&'static str>)>)
    ensures
        forall|g: int|
            0 <= g < groups@.len() ==> (#[trigger] groups@[g]).1@.len() > 0 && groups@[g].1@
                == words@.filter(has_pattern(groups@[g].0@)),
        forall|g: int, h: int|
            0 <= g < h < groups@.len() ==> word_le(
                (#[trigger] groups@[g]).0@,
                (#[trigger] groups@[h]).0@,
            ) && groups@[g].0@ != groups@[h].0@,
        forall|i: int|
            0 <= i < words@.len() ==> exists|g: int|
                0 <= g < groups@.len() && (#[trigger] groups@[g]).0@ == pattern(
                    (#[trigger] words@[i])@,
                ),
        keyed(groups@),
        joined(groups@).to_multiset() == words@.to_multiset(),
{
    let mut pool = words;
    sort_by_pattern(&mut pool);
    let groups = group_by_pattern(&pool);
    proof {
        let all = groups@;
        assert forall|g: int, h: int| 0 <= g < h < all.len() implies word_le(
            (#[trigger] all[g]).0@,
            (#[trigger] all[h]).0@,
        ) by {
            lemma_joined_at(all, g, 0);
            lemma_joined_at(all, h, 0);
            lemma_joined_ascends(all, g, h);
            assert(pattern(all[g].1@[0]@) == all[g].0@);
            assert(pattern(all[h].1@[0]@) == all[h].0@);
        }
        assert forall|g: int, h: int| 0 <= g < h < all.len() implies (#[trigger] all[g]).0@ != (
        #[trigger] all[h]).0@ by {
            if h > g + 1 && all[g].0@ == all[h].0@ {
                assert(word_le(all[g].0@, all[g + 1].0@));
                assert(word_le(all[g + 1].0@, all[h].0@));
                lemma_word_le_antisymmetric(all[g].0@, all[g + 1].0@);
            }
        }
        assert forall|g: int| 0 <= g < all.len() implies (#[trigger] all[g]).1@ == words@.filter(
            has_pattern(all[g].0@),
        ) by {
            lemma_joined_filter_one(all, g);
            assert(pool@.filter(has_pattern(all[g].0@)) == words@.filter(has_pattern(all[g].0@)));
        }
        assert forall|i: int| 0 <= i < words@.len() implies exists|g: int|
            0 <= g < all.len() && (#[trigger] all[g]).0@ == pattern((#[trigger] words@[i])@) by {
            let w = words@[i];
            assert(words@.contains(w));
            vstd::seq_lib::to_multiset_contains(words@, w);
            vstd::seq_lib::to_multiset_contains(pool@, w);
            lemma_joined_member(all, w);
            let (g, m) = choose|g: int, m: int|
                0 <= g < all.len() && 0 <= m < all[g].1@.len() && #[trigger] all[g].1@[m] == w;
            assert(pattern(all[g].1@[m]@) == all[g].0@);
        }
    }
    groups
}

/// A word of a group is among the words of the groups joined.
proof fn lemma_joined_holds(groups: Seq<(Vec<char>, Vec<&'static str>)>, g: int, m: int)
    requires
        0 <= g < groups.len(),
        0 <= m < groups[g].1@.len(),
    ensures
        joined(groups).contains(groups[g].1@[m]),
    decreases groups.len(),
{
    let before = joined(groups.drop_last());
    let last = groups.last().1@;
    if g == groups.len() - 1 {
        assert((before + last)[before.len() + m] == last[m]);
    } else {
        lemma_joined_holds(groups.drop_last(), g, m);
        let k = choose|k: int| 0 <= k < before.len() && before[k] == groups[g].1@[m];
        assert((before + last)[k] == groups[g].1@[m]);
    }
}

/// The ranking of the words worth guessing next, best first.
///
/// With exactly one candidate left, that candidate is the only suggestion,
/// with worst case 1 and score 5. Otherwise the words rated are the
/// candidates, or in easy mode all words of the corpus. Each is rated by
/// its worst case among the candidates and by its score in `set`, and the
/// ranking is in the order of `ranks_before`.
pub fn suggest(set: DictionarySet, word_list: WordList, easy: bool) -> (r: Vec<
    (&'static str, usize, i64),
>)
    ensures
        word_list@.len() == 1 ==> r@.len() == 1 && ranked(r@[0]) == (Ranked {
            word: word_list@[0],
            remaining: 1,
            score: 5,
        }),
        word_list@.len() != 1 ==> {
            &&& words_of(r@).to_multiset() == (if easy {
                word_list.corpus()
            } else {
                word_list@
            }).to_multiset()
            &&& forall|i: int|
                0 <= i < r@.len() ==> ranked(#[trigger] r@[i]) == rated(
                    r@[i].0@,
                    word_list@,
                    set.positions(),
                )
            &&& forall|i: int, j: int|
                0 <= i < j < r@.len() ==> ranks_before(ranked(r@[i]), ranked(r@[j]))
        },
        forall|i: int| 0 <= i < r@.len() ==> (#[trigger] r@[i]).1 <= word_list@.len(),
{
    let words = word_list.words();
    let remaining = word_list.count();
    if remaining == 1 {
        let mut only: Vec<(&'static str, usize, i64)> = Vec::new();
        only.push((words[0], 1, 5));
        assert(texts(words@)[0] == words@[0]@);
        return only;
    }
    let ghost candidates = word_list@;
    let guesses = if easy {
        word_list.full().words()
    } else {
        word_list.words()
    };
    let ghost unsorted = guesses@;
    let ghost view = |s: &'static str| s@;
    proof {
        use_type_invariant(&word_list);
        word_list.lemma_wf();
        assert(texts(unsorted) =~= unsorted.map_values(view));
    }
    let grouped = pattern_groups(guesses);
    proof {
        lemma_map_permutation(joined(grouped@), unsorted, view);
        assert(texts(joined(grouped@)) =~= joined(grouped@).map_values(view));
        assert forall|g: int, m: int|
            0 <= g < grouped@.len() && 0 <= m < grouped@[g].1@.len() implies valid_word(
            #[trigger] grouped@[g].1@[m]@,
        ) by {
            let w = grouped@[g].1@[m];
            lemma_joined_holds(grouped@, g, m);
            vstd::seq_lib::to_multiset_contains(joined(grouped@), w);
            vstd::seq_lib::to_multiset_contains(unsorted, w);
            let k = choose|k: int| 0 <= k < unsorted.len() && unsorted[k] == w;
            assert(texts(unsorted)[k] == w@);
            if easy {
                assert(valid_word(word_list.corpus()[k]));
            } else {
                assert(valid_word(word_list@[k]));
            }
        }
    }
    let mut reduction: Vec<(&'static str, usize, i64)> = Vec::new();
    let mut g: usize = 0;
    while g < grouped.len()
        invariant
            g <= grouped@.len(),
            candidates == word_list@,
            texts(words@) == candidates,
            forall|g: int| 0 <= g < grouped@.len() ==> (#[trigger] grouped@[g]).1@.len() > 0,
            keyed(grouped@),
            forall|g: int, m: int|
                0 <= g < grouped@.len() && 0 <= m < grouped@[g].1@.len() ==> valid_word(
                    #[trigger] grouped@[g].1@[m]@,
                ),
            words_of(reduction@) == texts(joined(grouped@.take(g as int))),
            forall|i: int|
                0 <= i < reduction@.len() ==> ranked(#[trigger] reduction@[i]) == rated(
                    reduction@[i].0@,
                    candidates,
                    set.positions(),
                ),
        decreases grouped@.len() - g,
    {
        let key = &grouped[g].0;
        let members = &grouped[g].1;
        proof {
            assert(valid_word(grouped@[g as int].1@[0]@));
            assert(pattern(grouped@[g as int].1@[0]@) == key@);
            lemma_pattern(grouped@[g as int].1@[0]@);
        }
        let worst = worst_case_for(key, &words);
        let ghost done = joined(grouped@.take(g as int));
        let mut m: usize = 0;
        while m < members.len()
            invariant
                m <= members@.len(),
                members@ == grouped@[g as int].1@,
                key@ == grouped@[g as int].0@,
                g < grouped@.len(),
                worst == worst_case(key@, candidates),
                keyed(grouped@),
                forall|g: int, m: int|
                    0 <= g < grouped@.len() && 0 <= m < grouped@[g].1@.len() ==> valid_word(
                        #[trigger] grouped@[g].1@[m]@,
                    ),
                words_of(reduction@) == texts(done + members@.take(m as int)),
                forall|i: int|
                    0 <= i < reduction@.len() ==> ranked(#[trigger] reduction@[i]) == rated(
                        reduction@[i].0@,
                        candidates,
                        set.positions(),
                    ),
            decreases members@.len() - m,
        {
            let w: &'static str = members[m];
            proof {
                assert(valid_word(grouped@[g as int].1@[m as int]@));
                assert(pattern(grouped@[g as int].1@[m as int]@) == key@);
                lemma_pattern(w@);
                lemma_worst_case_by_letters(key@, w@, candidates);
            }
            let score = calculate_score(&set, w);
            let ghost before = reduction@;
            reduction.push((w, worst, score));
            proof {
                assert(members@.take(m + 1) =~= members@.take(m as int).push(w));
                let listed = done + members@.take(m as int);
                assert(done + members@.take(m + 1) =~= listed.push(w));
                assert(words_of(reduction@) =~= words_of(before).push(w@));
                assert(texts(listed.push(w)) =~= texts(listed).push(w@));
                assert forall|i: int| 0 <= i < reduction@.len() implies ranked(
                    #[trigger] reduction@[i],
                ) == rated(reduction@[i].0@, candidates, set.positions()) by {
                    if i < before.len() {
                        assert(reduction@[i] == before[i]);
                    }
                }
            }
            m += 1;
        }
        proof {
            assert(members@.take(m as int) =~= members@);
            assert(grouped@.take(g + 1).drop_last() =~= grouped@.take(g as int));
            assert(grouped@.take(g + 1).last() == grouped@[g as int]);
        }
        g += 1;
    }
    let ghost scored = reduction@;
    proof {
        assert(grouped@.take(g as int) =~= grouped@);
        assert(words_of(scored) == texts(joined(grouped@)));
        assert forall|i: int| 0 <= i < scored.len() implies (#[trigger] scored[i]).2 > i64::MIN by {
            assert(ranked(scored[i]) == rated(scored[i].0@, candidates, set.positions()));
        }
    }
    sort_by_rank(&mut reduction);
    proof {
        let word = |entry: (&'static str, usize, i64)| entry.0@;
        lemma_map_permutation(reduction@, scored, word);
        assert(words_of(reduction@) =~= reduction@.map_values(word));
        assert(words_of(scored) =~= scored.map_values(word));
        assert forall|i: int| 0 <= i < reduction@.len() implies ranked(#[trigger] reduction@[i])
            == rated(reduction@[i].0@, candidates, set.positions()) && reduction@[i].1
            <= candidates.len() by {
            let entry = reduction@[i];
            vstd::seq_lib::to_multiset_contains(reduction@, entry);
            vstd::seq_lib::to_multiset_contains(scored, entry);
            assert(reduction@.contains(entry));
            let k = choose|k: int| 0 <= k < scored.len() && scored[k] == entry;
            assert(ranked(scored[k]) == rated(scored[k].0@, candidates, set.positions()));
            lemma_worst_case_bound(entry.0@, candidates);
        }
    }
    reduction
}


/// The suggestions to show where at most `count` are wanted: the first
/// `count` of the ranking, and whether any were left out.
pub fn top_suggestions(count: usize, reduction: &Vec<(&'static str, usize, i64)>) -> (r: (
    Vec<(&'static str, usize, i64)>,
    bool,
))
    ensures
        r.0@ == reduction@.take(if count <= reduction@.len() {
            count as int
        } else {
            reduction@.len() as int
        }),
        r.1 == (reduction@.len() > count),
{
    let shown = if count <= reduction.len() {
        count
    } else {
        reduction.len()
    };
    let mut rows: Vec<(&'static str, usize, i64)> = Vec::new();
    let mut i: usize = 0;
    while i < shown
        invariant
            shown <= reduction@.len(),
            i <= shown,
            rows@ == reduction@.take(i as int),
        decreases shown - i,
    {
        rows.push(reduction[i]);
        assert(reduction@.take(i + 1) =~= reduction@.take(i as int).push(reduction@[i as int]));
        i += 1;
    }
    (rows, reduction.len() > count)
}

} // verus!
