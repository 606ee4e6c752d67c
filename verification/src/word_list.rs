//! The candidate words: those of the corpus that are still possible.

use vstd::prelude::*;
use std::collections::HashSet;
use crate::letters::{
    is_lower, is_valid_word, letter_index, letter_rank, same_word, str_has_letter, valid_word,
    WORD_LENGTH,
};

verus! {

/// The character sequences of a list of strings, in order.
pub open spec fn texts(words: Seq<&'static str>) -> Seq<Seq<char>> {
    Seq::new(words.len(), |i: int| words[i]@)
}

/// Whether a list of words can serve as a corpus: each is five lowercase
/// letters, and none occurs twice.
pub open spec fn valid_corpus(corpus: Seq<Seq<char>>) -> bool {
    &&& forall|i: int| 0 <= i < corpus.len() ==> valid_word(#[trigger] corpus[i])
    &&& corpus.no_duplicates()
}

/// The test "is one of `allowed`".
pub open spec fn among(allowed: Seq<Seq<char>>) -> spec_fn(Seq<char>) -> bool {
    |w: Seq<char>| allowed.contains(w)
}

/// The test "is none of `disallowed`".
pub open spec fn not_among(disallowed: Seq<Seq<char>>) -> spec_fn(Seq<char>) -> bool {
    |w: Seq<char>| !disallowed.contains(w)
}

/// The test "holds the letter `c`".
pub open spec fn with_letter(c: char) -> spec_fn(Seq<char>) -> bool {
    |w: Seq<char>| w.contains(c)
}

/// The test "does not hold the letter `c`".
pub open spec fn without_letter(c: char) -> spec_fn(Seq<char>) -> bool {
    |w: Seq<char>| !w.contains(c)
}

/// A word of five lowercase letters read as a number in base 26.
pub open spec fn word_code(w: Seq<char>) -> int {
    (((letter_rank(w[0]) * 26 + letter_rank(w[1])) * 26 + letter_rank(w[2])) * 26 + letter_rank(
        w[3],
    )) * 26 + letter_rank(w[4])
}

/// Different words have different codes.
pub proof fn lemma_word_code_injective(a: Seq<char>, b: Seq<char>)
    requires
        valid_word(a),
        valid_word(b),
        word_code(a) == word_code(b),
    ensures
        a == b,
{
    assert(is_lower(a[0]) && is_lower(a[1]) && is_lower(a[2]) && is_lower(a[3]) && is_lower(a[4]));
    assert(is_lower(b[0]) && is_lower(b[1]) && is_lower(b[2]) && is_lower(b[3]) && is_lower(b[4]));
    let a3 = ((letter_rank(a[0]) * 26 + letter_rank(a[1])) * 26 + letter_rank(a[2])) * 26
        + letter_rank(a[3]);
    let b3 = ((letter_rank(b[0]) * 26 + letter_rank(b[1])) * 26 + letter_rank(b[2])) * 26
        + letter_rank(b[3]);
    let a2 = (letter_rank(a[0]) * 26 + letter_rank(a[1])) * 26 + letter_rank(a[2]);
    let b2 = (letter_rank(b[0]) * 26 + letter_rank(b[1])) * 26 + letter_rank(b[2]);
    let a1 = letter_rank(a[0]) * 26 + letter_rank(a[1]);
    let b1 = letter_rank(b[0]) * 26 + letter_rank(b[1]);
    assert(a3 == b3 && letter_rank(a[4]) == letter_rank(b[4]));
    assert(a2 == b2 && letter_rank(a[3]) == letter_rank(b[3]));
    assert(a1 == b1 && letter_rank(a[2]) == letter_rank(b[2]));
    assert(letter_rank(a[0]) == letter_rank(b[0]) && letter_rank(a[1]) == letter_rank(b[1]));
    assert(a =~= b);
}

/// Computes the code of a word.
fn code_of(w: &str) -> (code: u32)
    requires
        valid_word(w@),
    ensures
        code == word_code(w@),
{
    let mut code: u32 = 0;
    let mut k: usize = 0;
    let ghost r = |j: int| letter_rank(w@[j]);
    while k < WORD_LENGTH
        invariant
            valid_word(w@),
            k <= WORD_LENGTH,
            r == |j: int| letter_rank(w@[j]),
            k == 0 ==> code == 0,
            k == 1 ==> code == r(0),
            k == 2 ==> code == r(0) * 26 + r(1),
            k == 3 ==> code == (r(0) * 26 + r(1)) * 26 + r(2),
            k == 4 ==> code == ((r(0) * 26 + r(1)) * 26 + r(2)) * 26 + r(3),
            k == 5 ==> code == (((r(0) * 26 + r(1)) * 26 + r(2)) * 26 + r(3)) * 26 + r(4),
            code < 12_000_000,
            k <= 4 ==> code < 460_000,
        decreases WORD_LENGTH - k,
    {
        let c = w.get_char(k);
        assert(is_lower(w@[k as int]));
        let d: u32 = letter_index(c) as u32;
        code = code * 26 + d;
        k += 1;
    }
    code
}

/// Filtering keeps a sequence whole when every element passes.
pub proof fn lemma_filter_all<A>(s: Seq<A>, pred: spec_fn(A) -> bool)
    requires
        forall|i: int| 0 <= i < s.len() ==> pred(#[trigger] s[i]),
    ensures
        s.filter(pred) == s,
    decreases s.len(),
{
    reveal(Seq::filter);
    if s.len() > 0 {
        lemma_filter_all(s.drop_last(), pred);
        assert(s.drop_last().push(s.last()) =~= s);
    }
}

/// Filtering a sequence without duplicates leaves no duplicates.
pub proof fn lemma_filter_no_duplicates<A>(s: Seq<A>, pred: spec_fn(A) -> bool)
    requires
        s.no_duplicates(),
    ensures
        s.filter(pred).no_duplicates(),
    decreases s.len(),
{
    reveal(Seq::filter);
    if s.len() > 0 {
        let rest = s.drop_last();
        lemma_filter_no_duplicates(rest, pred);
        let sub = rest.filter(pred);
        if pred(s.last()) {
            assert forall|i: int, j: int|
                0 <= i < sub.push(s.last()).len() && 0 <= j < sub.push(s.last()).len() && i
                    != j implies sub.push(s.last())[i] != sub.push(s.last())[j] by {
                if i < sub.len() && j < sub.len() {
                } else {
                    let k = if i < sub.len() { i } else { j };
                    assert(sub.contains(sub[k]));
                    rest.lemma_filter_contains_rev(pred, sub[k]);
                    let m = choose|m: int| 0 <= m < rest.len() && rest[m] == sub[k];
                    assert(s[m] == sub[k]);
                }
            }
        }
    }
}

/// Filtering twice is filtering once by both tests.
pub proof fn lemma_filter_twice<A>(s: Seq<A>, p: spec_fn(A) -> bool, q: spec_fn(A) -> bool)
    ensures
        s.filter(p).filter(q) == s.filter(|a: A| p(a) && q(a)),
    decreases s.len(),
{
    reveal(Seq::filter);
    let both = |a: A| p(a) && q(a);
    if s.len() > 0 {
        let rest = s.drop_last();
        lemma_filter_twice(rest, p, q);
        if p(s.last()) {
            rest.filter(p).lemma_filter_push(s.last(), q);
        }
    } else {
        assert(s.filter(p) =~= s);
    }
}

/// Filters that agree on every element give the same result.
pub proof fn lemma_filter_agree<A>(s: Seq<A>, p: spec_fn(A) -> bool, q: spec_fn(A) -> bool)
    requires
        forall|i: int| 0 <= i < s.len() ==> (p(#[trigger] s[i]) <==> q(s[i])),
    ensures
        s.filter(p) == s.filter(q),
    decreases s.len(),
{
    reveal(Seq::filter);
    if s.len() > 0 {
        lemma_filter_agree(s.drop_last(), p, q);
    }
}

/// One more word of the source, read and either kept or dropped.
pub proof fn lemma_keep_step(
    all: Seq<&'static str>,
    kept: Seq<&'static str>,
    i: int,
    pred: spec_fn(Seq<char>) -> bool,
)
    requires
        0 <= i < all.len(),
        texts(kept) == texts(all).take(i).filter(pred),
    ensures
        pred(all[i]@) ==> texts(kept.push(all[i])) == texts(all).take(i + 1).filter(pred),
        !pred(all[i]@) ==> texts(kept) == texts(all).take(i + 1).filter(pred),
{
    let source = texts(all);
    assert(source.take(i + 1) =~= source.take(i).push(source[i]));
    source.take(i).lemma_filter_push(source[i], pred);
    assert(texts(kept.push(all[i])) =~= texts(kept).push(all[i]@));
}

/// Tells whether `w` is one of the words of `list`.
pub fn is_listed(list: &Vec<&'static str>, w: &str) -> (r: bool)
    ensures
        r == texts(list@).contains(w@),
{
    let mut k: usize = 0;
    while k < list.len()
        invariant
            k <= list@.len(),
            forall|j: int| 0 <= j < k ==> texts(list@)[j] != w@,
        decreases list@.len() - k,
    {
        if same_word(list[k], w) {
            assert(texts(list@)[k as int] == w@);
            return true;
        }
        k += 1;
    }
    false
}

/// The words that are still possible, in the order of the corpus they were
/// drawn from. A list is never changed: each operation gives a new one.
#[derive(Debug)]
pub struct WordList {
    corpus: &'static [&'static str],
    words: Vec<&'static str>,
}

impl View for WordList {
    type V = Seq<Seq<char>>;

    /// The candidate words, in order.
    closed spec fn view(&self) -> Seq<Seq<char>> {
        texts(self.words@)
    }
}

impl Clone for WordList {
    /// Makes a copy of the list.
    fn clone(&self) -> (r: WordList)
        ensures
            r@ == self@,
            r.corpus() == self.corpus(),
    {
        proof {
            use_type_invariant(self);
        }
        WordList { corpus: self.corpus, words: self.words() }
    }
}

impl WordList {
    /// The corpus that the candidates were drawn from.
    pub closed spec fn corpus(&self) -> Seq<Seq<char>> {
        texts(self.corpus@)
    }

    /// What holds of every list: the corpus is valid, and the candidates are
    /// words of the corpus, none of them twice.
    #[verifier::type_invariant]
    pub closed spec fn wf(&self) -> bool {
        &&& valid_corpus(texts(self.corpus@))
        &&& texts(self.words@).no_duplicates()
        &&& forall|i: int|
            0 <= i < self.words@.len() ==> texts(self.corpus@).contains(
                #[trigger] texts(self.words@)[i],
            )
    }

    /// Spells out what `wf` holds.
    pub proof fn lemma_wf(&self)
        requires
            self.wf(),
        ensures
            valid_corpus(self.corpus()),
            self@.no_duplicates(),
            forall|i: int| 0 <= i < self@.len() ==> self.corpus().contains(#[trigger] self@[i]),
            forall|i: int| 0 <= i < self@.len() ==> valid_word(#[trigger] self@[i]),
    {
        assert forall|i: int| 0 <= i < self@.len() implies valid_word(#[trigger] self@[i]) by {
            assert(self.corpus().contains(self@[i]));
        }
    }

    /// Makes the list of all words of a corpus. Gives `None` for a corpus
    /// that holds something other than five lowercase letters, or a word
    /// twice.
    pub fn new(corpus: &'static [&'static str]) -> (r: Option<WordList>)
        ensures
            r is Some <==> valid_corpus(texts(corpus@)),
            r matches Some(list) ==> list@ == texts(corpus@) && list.corpus() == texts(corpus@),
    {
        broadcast use vstd::std_specs::hash::group_hash_axioms;

        let ghost source = texts(corpus@);
        let mut seen: HashSet<u32> = HashSet::new();
        let mut words: Vec<&'static str> = Vec::new();
        let mut i: usize = 0;
        while i < corpus.len()
            invariant
                source == texts(corpus@),
                i <= corpus@.len(),
                words@ == corpus@.take(i as int),
                forall|j: int| 0 <= j < i ==> valid_word(#[trigger] source[j]),
                forall|j: int, k: int| 0 <= j < k < i ==> source[j] != source[k],
                forall|x: u32|
                    seen@.contains(x) <==> exists|j: int|
                        0 <= j < i && #[trigger] word_code(source[j]) == x,
            decreases corpus@.len() - i,
        {
            let w: &'static str = corpus[i];
            assert(source[i as int] == w@);
            if !is_valid_word(w) {
                return None;
            }
            let code = code_of(w);
            let ghost before = seen@;
            if !seen.insert(code) {
                proof {
                    let j = choose|j: int| 0 <= j < i && #[trigger] word_code(source[j]) == code;
                    lemma_word_code_injective(source[j], source[i as int]);
                }
                return None;
            }
            words.push(w);
            proof {
                assert(corpus@.take(i + 1) =~= corpus@.take(i as int).push(w));
                assert forall|j: int, k: int| 0 <= j < k < i + 1 implies source[j] != source[k] by {
                    if k == i && source[j] == source[k] {
                        assert(word_code(source[j]) == code);
                        assert(before.contains(code));
                    }
                }
                assert forall|x: u32|
                    seen@.contains(x) <==> exists|j: int|
                        0 <= j < i + 1 && #[trigger] word_code(source[j]) == x by {
                    if seen@.contains(x) {
                        if x == code {
                            assert(word_code(source[i as int]) == x);
                        } else {
                            let j = choose|j: int|
                                0 <= j < i && #[trigger] word_code(source[j]) == x;
                            assert(0 <= j < i + 1);
                        }
                    }
                    if exists|j: int| 0 <= j < i + 1 && #[trigger] word_code(source[j]) == x {
                        let j = choose|j: int|
                            0 <= j < i + 1 && #[trigger] word_code(source[j]) == x;
                        if j < i {
                            assert(before.contains(x));
                        }
                    }
                }
            }
            i += 1;
        }
        proof {
            assert(corpus@.take(i as int) =~= corpus@);
            assert forall|j: int| 0 <= j < words@.len() implies source.contains(
                #[trigger] texts(words@)[j],
            ) by {
                assert(source[j] == texts(words@)[j]);
            }
        }
        Some(WordList { corpus, words })
    }

    /// The list of all words of the corpus: what `new` gave.
    pub fn full(&self) -> (r: WordList)
        ensures
            r@ == self.corpus(),
            r.corpus() == self.corpus(),
    {
        proof {
            use_type_invariant(self);
        }
        let mut words: Vec<&'static str> = Vec::new();
        let mut i: usize = 0;
        while i < self.corpus.len()
            invariant
                i <= self.corpus@.len(),
                words@ == self.corpus@.take(i as int),
            decreases self.corpus@.len() - i,
        {
            words.push(self.corpus[i]);
            i += 1;
        }
        proof {
            assert(self.corpus@.take(i as int) =~= self.corpus@);
            assert forall|j: int| 0 <= j < words@.len() implies texts(self.corpus@).contains(
                #[trigger] texts(words@)[j],
            ) by {
                assert(texts(self.corpus@)[j] == texts(words@)[j]);
            }
        }
        WordList { corpus: self.corpus, words }
    }

    /// The word of the given day: the corpus in order, one word a day.
    pub fn get_word_for_day(&self, day: usize) -> (r: Option<&'static str>)
        ensures
            r is Some <==> day < self.corpus().len(),
            r matches Some(w) ==> w@ == self.corpus()[day as int],
    {
        if day < self.corpus.len() {
            Some(self.corpus[day])
        } else {
            None
        }
    }

    /// The number of candidates.
    pub fn count(&self) -> (n: usize)
        ensures
            n == self@.len(),
    {
        self.words.len()
    }

    /// The candidates, in order.
    pub fn words(&self) -> (r: Vec<&'static str>)
        ensures
            texts(r@) == self@,
    {
        let mut r: Vec<&'static str> = Vec::new();
        let mut i: usize = 0;
        while i < self.words.len()
            invariant
                i <= self.words@.len(),
                r@ == self.words@.take(i as int),
            decreases self.words@.len() - i,
        {
            r.push(self.words[i]);
            i += 1;
        }
        assert(self.words@.take(i as int) =~= self.words@);
        r
    }

    /// Makes the list of the candidates that were kept.
    fn narrowed(&self, kept: Vec<&'static str>, Ghost(pred): Ghost<spec_fn(Seq<char>) -> bool>) -> (r:
        WordList)
        requires
            texts(kept@) == self@.filter(pred),
        ensures
            r@ == self@.filter(pred),
            r.corpus() == self.corpus(),
    {
        proof {
            use_type_invariant(self);
            lemma_filter_no_duplicates(self@, pred);
            assert forall|i: int| 0 <= i < kept@.len() implies texts(self.corpus@).contains(
                #[trigger] texts(kept@)[i],
            ) by {
                assert(self@.filter(pred).contains(texts(kept@)[i]));
                self@.lemma_filter_contains_rev(pred, texts(kept@)[i]);
                let k = choose|k: int| 0 <= k < self@.len() && self@[k] == texts(kept@)[i];
                assert(texts(self.corpus@).contains(texts(self.words@)[k]));
            }
        }
        WordList { corpus: self.corpus, words: kept }
    }

    /// Keeps the candidates that are among `allowed`.
    pub fn intersect(&self, allowed: Vec<&'static str>) -> (r: WordList)
        ensures
            r@ == self@.filter(among(texts(allowed@))),
            r.corpus() == self.corpus(),
    {
        let ghost pred = among(texts(allowed@));
        let mut kept: Vec<&'static str> = Vec::new();
        let mut i: usize = 0;
        while i < self.words.len()
            invariant
                i <= self.words@.len(),
                pred == among(texts(allowed@)),
                texts(kept@) == self@.take(i as int).filter(pred),
            decreases self.words@.len() - i,
        {
            let w: &'static str = self.words[i];
            proof {
                lemma_keep_step(self.words@, kept@, i as int, pred);
            }
            if is_listed(&allowed, w) {
                kept.push(w);
            }
            i += 1;
        }
        assert(self@.take(i as int) =~= self@);
        self.narrowed(kept, Ghost(pred))
    }

    /// Drops the candidates that are among `disallowed`.
    pub fn subtract(&self, disallowed: Vec<&'static str>) -> (r: WordList)
        ensures
            r@ == self@.filter(not_among(texts(disallowed@))),
            r.corpus() == self.corpus(),
    {
        let ghost pred = not_among(texts(disallowed@));
        let mut kept: Vec<&'static str> = Vec::new();
        let mut i: usize = 0;
        while i < self.words.len()
            invariant
                i <= self.words@.len(),
                pred == not_among(texts(disallowed@)),
                texts(kept@) == self@.take(i as int).filter(pred),
            decreases self.words@.len() - i,
        {
            let w: &'static str = self.words[i];
            proof {
                lemma_keep_step(self.words@, kept@, i as int, pred);
            }
            if !is_listed(&disallowed, w) {
                kept.push(w);
            }
            i += 1;
        }
        assert(self@.take(i as int) =~= self@);
        self.narrowed(kept, Ghost(pred))
    }

    /// Keeps the candidates that hold the letter `c`.
    pub fn ensure_letter(&self, c: char) -> (r: WordList)
        ensures
            r@ == self@.filter(with_letter(c)),
            r.corpus() == self.corpus(),
    {
        let ghost pred = with_letter(c);
        let mut kept: Vec<&'static str> = Vec::new();
        let mut i: usize = 0;
        while i < self.words.len()
            invariant
                i <= self.words@.len(),
                pred == with_letter(c),
                texts(kept@) == self@.take(i as int).filter(pred),
            decreases self.words@.len() - i,
        {
            let w: &'static str = self.words[i];
            proof {
                lemma_keep_step(self.words@, kept@, i as int, pred);
            }
            if str_has_letter(w, c) {
                kept.push(w);
            }
            i += 1;
        }
        assert(self@.take(i as int) =~= self@);
        self.narrowed(kept, Ghost(pred))
    }

    /// Drops the candidates that hold the letter `c`.
    pub fn remove_letter(&self, c: char) -> (r: WordList)
        ensures
            r@ == self@.filter(without_letter(c)),
            r.corpus() == self.corpus(),
    {
        let ghost pred = without_letter(c);
        let mut kept: Vec<&'static str> = Vec::new();
        let mut i: usize = 0;
        while i < self.words.len()
            invariant
                i <= self.words@.len(),
                pred == without_letter(c),
                texts(kept@) == self@.take(i as int).filter(pred),
            decreases self.words@.len() - i,
        {
            let w: &'static str = self.words[i];
            proof {
                lemma_keep_step(self.words@, kept@, i as int, pred);
            }
            if !str_has_letter(w, c) {
                kept.push(w);
            }
            i += 1;
        }
        assert(self@.take(i as int) =~= self@);
        self.narrowed(kept, Ghost(pred))
    }

    /// Keeps the candidates that hold the letter `c`, as `ensure_letter`
    /// does: the step taken for each letter of a word when counting the
    /// candidates that hold all of them.
    pub fn whittle(&self, c: char) -> (r: WordList)
        ensures
            r@ == self@.filter(with_letter(c)),
            r.corpus() == self.corpus(),
    {
        self.ensure_letter(c)
    }
}

/// Keeping the candidates that are among the candidates changes nothing.
pub proof fn lemma_intersect_own_contents(words: Seq<Seq<char>>)
    ensures
        words.filter(among(words)) == words,
{
    lemma_filter_all(words, among(words));
}

/// Dropping the candidates that are among no words changes nothing.
pub proof fn lemma_subtract_nothing(words: Seq<Seq<char>>)
    ensures
        words.filter(not_among(Seq::empty())) == words,
{
    lemma_filter_all(words, not_among(Seq::empty()));
}

} // verus!
