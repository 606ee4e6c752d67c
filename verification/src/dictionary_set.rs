//! The letter index: the candidate words by position and letter, and by the
//! letters they hold.

use vstd::prelude::*;
use crate::letters::{
    is_lower, is_lowercase_letter, letter_at, letter_index, letter_rank, str_has_letter,
    ALPHABET_SIZE, WORD_LENGTH,
};
use crate::word_list::{lemma_keep_step, texts, with_letter, WordList};

verus! {

/// The test "holds the letter `c` at position `p`".
pub open spec fn at_position(p: int, c: char) -> spec_fn(Seq<char>) -> bool {
    |w: Seq<char>| 0 <= p < w.len() && w[p] == c
}

/// A map with an entry for every lowercase letter.
pub open spec fn total_over_alphabet(m: Map<char, Seq<Seq<char>>>) -> bool {
    forall|c: char| m.dom().contains(c) <==> is_lower(c)
}

/// A map from every lowercase letter to a list of words.
#[derive(Debug)]
pub struct LetterMap {
    buckets: Vec<Vec<&'static str>>,
}

impl View for LetterMap {
    type V = Map<char, Seq<Seq<char>>>;

    /// The words listed under each lowercase letter.
    closed spec fn view(&self) -> Map<char, Seq<Seq<char>>> {
        Map::new(|c: char| is_lower(c), |c: char| texts(self.buckets@[letter_rank(c)]@))
    }
}

/// Copies a list of words.
pub fn copy_words(words: &Vec<&'static str>) -> (r: Vec<&'static str>)
    ensures
        r@ == words@,
{
    let mut r: Vec<&'static str> = Vec::new();
    let mut i: usize = 0;
    while i < words.len()
        invariant
            i <= words@.len(),
            r@ == words@.take(i as int),
        decreases words@.len() - i,
    {
        r.push(words[i]);
        i += 1;
    }
    assert(words@.take(i as int) =~= words@);
    r
}

impl Clone for LetterMap {
    /// Makes a copy of the map.
    fn clone(&self) -> (r: LetterMap)
        ensures
            r@ == self@,
    {
        proof {
            use_type_invariant(self);
        }
        let mut buckets: Vec<Vec<&'static str>> = Vec::new();
        let mut k: usize = 0;
        while k < self.buckets.len()
            invariant
                k <= self.buckets@.len(),
                buckets@.len() == k,
                forall|j: int| 0 <= j < k ==> (#[trigger] buckets@[j])@ == self.buckets@[j]@,
            decreases self.buckets@.len() - k,
        {
            buckets.push(copy_words(&self.buckets[k]));
            k += 1;
        }
        let r = LetterMap { buckets };
        assert(r@ =~= self@);
        r
    }
}

impl LetterMap {
    #[verifier::type_invariant]
    closed spec fn wf(&self) -> bool {
        self.buckets@.len() == ALPHABET_SIZE
    }

    /// Every lowercase letter has an entry, and nothing else has.
    pub proof fn lemma_total(&self)
        ensures
            total_over_alphabet(self@),
    {
    }

    /// Makes the map that lists no word under any letter.
    fn empty() -> (r: LetterMap)
        ensures
            forall|c: char| is_lower(c) ==> #[trigger] r@[c] == Seq::<Seq<char>>::empty(),
    {
        let mut buckets: Vec<Vec<&'static str>> = Vec::new();
        let mut k: usize = 0;
        while k < ALPHABET_SIZE
            invariant
                k <= ALPHABET_SIZE,
                buckets@.len() == k,
                forall|j: int| 0 <= j < k ==> (#[trigger] buckets@[j])@.len() == 0,
            decreases ALPHABET_SIZE - k,
        {
            buckets.push(Vec::new());
            k += 1;
        }
        let r = LetterMap { buckets };
        assert forall|c: char| is_lower(c) implies #[trigger] r@[c] == Seq::<Seq<char>>::empty() by {
            assert(r.buckets@[letter_rank(c)]@.len() == 0);
            assert(r@[c] =~= Seq::<Seq<char>>::empty());
        }
        r
    }

    /// The words listed under `c`; `None` where `c` is no lowercase letter.
    pub fn get(&self, c: char) -> (r: Option<&Vec<&'static str>>)
        ensures
            r is Some <==> self@.dom().contains(c),
            r matches Some(words) ==> texts(words@) == self@[c],
    {
        proof {
            use_type_invariant(self);
        }
        if is_lowercase_letter(c) {
            Some(&self.buckets[letter_index(c)])
        } else {
            None
        }
    }
}

/// The candidates of `words` that pass the test, in order.
fn select_at(words: &Vec<&'static str>, p: usize, c: char) -> (r: Vec<&'static str>)
    requires
        p < WORD_LENGTH,
        forall|i: int| 0 <= i < words@.len() ==> (#[trigger] words@[i])@.len() == WORD_LENGTH,
    ensures
        texts(r@) == texts(words@).filter(at_position(p as int, c)),
{
    let ghost pred = at_position(p as int, c);
    let mut r: Vec<&'static str> = Vec::new();
    let mut i: usize = 0;
    while i < words.len()
        invariant
            p < WORD_LENGTH,
            forall|i: int| 0 <= i < words@.len() ==> (#[trigger] words@[i])@.len() == WORD_LENGTH,
            i <= words@.len(),
            pred == at_position(p as int, c),
            texts(r@) == texts(words@).take(i as int).filter(pred),
        decreases words@.len() - i,
    {
        let w: &'static str = words[i];
        proof {
            lemma_keep_step(words@, r@, i as int, pred);
        }
        if w.get_char(p) == c {
            r.push(w);
        }
        i += 1;
    }
    assert(texts(words@).take(i as int) =~= texts(words@));
    r
}

/// The candidates of `words` that hold the letter `c`, in order.
fn select_with(words: &Vec<&'static str>, c: char) -> (r: Vec<&'static str>)
    ensures
        texts(r@) == texts(words@).filter(with_letter(c)),
{
    let ghost pred = with_letter(c);
    let mut r: Vec<&'static str> = Vec::new();
    let mut i: usize = 0;
    while i < words.len()
        invariant
            i <= words@.len(),
            pred == with_letter(c),
            texts(r@) == texts(words@).take(i as int).filter(pred),
        decreases words@.len() - i,
    {
        let w: &'static str = words[i];
        proof {
            lemma_keep_step(words@, r@, i as int, pred);
        }
        if str_has_letter(w, c) {
            r.push(w);
        }
        i += 1;
    }
    assert(texts(words@).take(i as int) =~= texts(words@));
    r
}

/// The letter index of a list of candidates. For each of the five positions
/// it lists, under each letter, the candidates with that letter at that
/// position; and under each letter the candidates that hold it anywhere.
/// Every list is in the candidates' order and holds no word twice.
#[derive(Debug)]
pub struct DictionarySet {
    position_maps: Vec<LetterMap>,
    contains_map: LetterMap,
}

impl Clone for DictionarySet {
    /// Makes a copy of the index.
    fn clone(&self) -> (r: DictionarySet)
        ensures
            r.positions() == self.positions(),
            r.containing() == self.containing(),
    {
        proof {
            use_type_invariant(self);
        }
        let mut position_maps: Vec<LetterMap> = Vec::new();
        let mut p: usize = 0;
        while p < self.position_maps.len()
            invariant
                p <= self.position_maps@.len(),
                position_maps@.len() == p,
                forall|q: int| 0 <= q < p ==> (#[trigger] position_maps@[q])@ == self.position_maps@[q]@,
            decreases self.position_maps@.len() - p,
        {
            position_maps.push(self.position_maps[p].clone());
            p += 1;
        }
        let r = DictionarySet { position_maps, contains_map: self.contains_map.clone() };
        assert(r.positions() =~= self.positions());
        r
    }
}

impl DictionarySet {
    #[verifier::type_invariant]
    closed spec fn wf(&self) -> bool {
        self.position_maps@.len() == WORD_LENGTH
    }

    /// The five maps by position.
    pub closed spec fn positions(&self) -> Seq<Map<char, Seq<Seq<char>>>> {
        Seq::new(WORD_LENGTH as nat, |p: int| self.position_maps@[p]@)
    }

    /// The map by letters held.
    pub closed spec fn containing(&self) -> Map<char, Seq<Seq<char>>> {
        self.contains_map@
    }

    /// Whether the index lists no word at all.
    pub open spec fn is_empty(&self) -> bool {
        &&& self.positions().len() == WORD_LENGTH
        &&& forall|p: int|
            0 <= p < WORD_LENGTH ==> total_over_alphabet(#[trigger] self.positions()[p])
        &&& forall|p: int, c: char|
            0 <= p < WORD_LENGTH && is_lower(c) ==> (#[trigger] self.positions()[p][c]).len() == 0
        &&& total_over_alphabet(self.containing())
        &&& forall|c: char| is_lower(c) ==> (#[trigger] self.containing()[c]).len() == 0
    }

    /// Whether this is the index of the candidates `words`.
    pub open spec fn indexes(&self, words: Seq<Seq<char>>) -> bool {
        &&& self.positions().len() == WORD_LENGTH
        &&& forall|p: int|
            0 <= p < WORD_LENGTH ==> total_over_alphabet(#[trigger] self.positions()[p])
        &&& forall|p: int, c: char|
            0 <= p < WORD_LENGTH && is_lower(c) ==> #[trigger] self.positions()[p][c]
                == words.filter(at_position(p, c))
        &&& total_over_alphabet(self.containing())
        &&& forall|c: char|
            is_lower(c) ==> #[trigger] self.containing()[c] == words.filter(with_letter(c))
    }

    /// Makes the index of no words: every letter has an entry in every map,
    /// and every entry is empty.
    pub fn new() -> (r: DictionarySet)
        ensures
            r.is_empty(),
    {
        let mut position_maps: Vec<LetterMap> = Vec::new();
        let mut p: usize = 0;
        while p < WORD_LENGTH
            invariant
                p <= WORD_LENGTH,
                position_maps@.len() == p,
                forall|q: int, c: char|
                    0 <= q < p && is_lower(c) ==> (#[trigger] position_maps@[q]@[c]).len() == 0,
            decreases WORD_LENGTH - p,
        {
            let m = LetterMap::empty();
            position_maps.push(m);
            p += 1;
        }
        let r = DictionarySet { position_maps, contains_map: LetterMap::empty() };
        proof {
            assert forall|p: int| 0 <= p < WORD_LENGTH implies total_over_alphabet(
                #[trigger] r.positions()[p],
            ) by {
                r.position_maps@[p].lemma_total();
            }
            r.contains_map.lemma_total();
        }
        r
    }

    /// Makes the index of the candidates of `word_list`.
    pub fn from_word_list(word_list: &WordList) -> (r: DictionarySet)
        ensures
            r.indexes(word_list@),
    {
        let words = word_list.words();
        proof {
            use_type_invariant(word_list);
            word_list.lemma_wf();
            assert forall|i: int| 0 <= i < words@.len() implies (#[trigger] words@[i])@.len()
                == WORD_LENGTH by {
                assert(texts(words@)[i] == words@[i]@);
            }
        }
        let mut position_maps: Vec<LetterMap> = Vec::new();
        let mut p: usize = 0;
        while p < WORD_LENGTH
            invariant
                p <= WORD_LENGTH,
                texts(words@) == word_list@,
                forall|i: int| 0 <= i < words@.len() ==> (#[trigger] words@[i])@.len() == WORD_LENGTH,
                position_maps@.len() == p,
                forall|q: int, c: char|
                    0 <= q < p && is_lower(c) ==> #[trigger] position_maps@[q]@[c]
                        == word_list@.filter(at_position(q, c)),
            decreases WORD_LENGTH - p,
        {
            let mut buckets: Vec<Vec<&'static str>> = Vec::new();
            let mut k: usize = 0;
            while k < ALPHABET_SIZE
                invariant
                    p < WORD_LENGTH,
                    k <= ALPHABET_SIZE,
                    texts(words@) == word_list@,
                    forall|i: int|
                        0 <= i < words@.len() ==> (#[trigger] words@[i])@.len() == WORD_LENGTH,
                    buckets@.len() == k,
                    forall|c: char|
                        is_lower(c) && letter_rank(c) < k ==> texts(
                            #[trigger] buckets@[letter_rank(c)]@,
                        ) == word_list@.filter(at_position(p as int, c)),
                decreases ALPHABET_SIZE - k,
            {
                let c = letter_at(k);
                let bucket = select_at(&words, p, c);
                buckets.push(bucket);
                proof {
                    assert forall|d: char| is_lower(d) && letter_rank(d) < k + 1 implies texts(
                        #[trigger] buckets@[letter_rank(d)]@,
                    ) == word_list@.filter(at_position(p as int, d)) by {
                        if letter_rank(d) == k {
                            assert(d == c);
                        }
                    }
                }
                k += 1;
            }
            let m = LetterMap { buckets };
            assert forall|c: char| is_lower(c) implies #[trigger] m@[c] == word_list@.filter(
                at_position(p as int, c),
            ) by {
                assert(letter_rank(c) < ALPHABET_SIZE);
            }
            position_maps.push(m);
            p += 1;
        }
        let mut buckets: Vec<Vec<&'static str>> = Vec::new();
        let mut k: usize = 0;
        while k < ALPHABET_SIZE
            invariant
                k <= ALPHABET_SIZE,
                texts(words@) == word_list@,
                buckets@.len() == k,
                forall|c: char|
                    is_lower(c) && letter_rank(c) < k ==> texts(
                        #[trigger] buckets@[letter_rank(c)]@,
                    ) == word_list@.filter(with_letter(c)),
            decreases ALPHABET_SIZE - k,
        {
            let c = letter_at(k);
            let bucket = select_with(&words, c);
            buckets.push(bucket);
            proof {
                assert forall|d: char| is_lower(d) && letter_rank(d) < k + 1 implies texts(
                    #[trigger] buckets@[letter_rank(d)]@,
                ) == word_list@.filter(with_letter(d)) by {
                    if letter_rank(d) == k {
                        assert(d == c);
                    }
                }
            }
            k += 1;
        }
        let contains_map = LetterMap { buckets };
        assert forall|c: char| is_lower(c) implies #[trigger] contains_map@[c]
            == word_list@.filter(with_letter(c)) by {
            assert(letter_rank(c) < ALPHABET_SIZE);
        }
        let r = DictionarySet { position_maps, contains_map };
        proof {
            assert forall|p: int| 0 <= p < WORD_LENGTH implies total_over_alphabet(
                #[trigger] r.positions()[p],
            ) by {
                r.position_maps@[p].lemma_total();
            }
            r.contains_map.lemma_total();
        }
        r
    }

    /// The map from each letter to the candidates with that letter at
    /// position `index`.
    pub fn list_for_position(&self, index: usize) -> (r: &LetterMap)
        requires
            index < WORD_LENGTH,
        ensures
            r@ == self.positions()[index as int],
    {
        proof {
            use_type_invariant(self);
        }
        &self.position_maps[index]
    }

    /// The map from each letter to the candidates that hold it.
    pub fn list_for_letters(&self) -> (r: &LetterMap)
        ensures
            r@ == self.containing(),
    {
        &self.contains_map
    }
}

} // verus!
