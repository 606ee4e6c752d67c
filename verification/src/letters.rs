//! Letters and words as sequences of characters.

use vstd::prelude::*;

verus! {

/// The length of every word of the game.
pub const WORD_LENGTH: usize = 5;

/// The number of letters of the alphabet.
pub const ALPHABET_SIZE: usize = 26;

/// Whether `c` is one of the letters `'a'..='z'`.
pub open spec fn is_lower(c: char) -> bool {
    'a' <= c <= 'z'
}

/// The ASCII lowercase form of `c`: `'A'..='Z'` map to `'a'..='z'`, every
/// other character to itself.
pub open spec fn lower(c: char) -> char {
    if 'A' <= c <= 'Z' {
        ((c as u8) + 32) as char
    } else {
        c
    }
}

/// The ASCII lowercase form of a sequence of characters.
pub open spec fn lowered(s: Seq<char>) -> Seq<char> {
    Seq::new(s.len(), |i: int| lower(s[i]))
}

/// A word of the game: five lowercase letters.
pub open spec fn valid_word(w: Seq<char>) -> bool {
    &&& w.len() == WORD_LENGTH
    &&& forall|i: int| 0 <= i < w.len() ==> is_lower(#[trigger] w[i])
}

/// The position of a lowercase letter in the alphabet, `'a'` being 0.
pub open spec fn letter_rank(c: char) -> int {
    c as int - 'a' as int
}

/// The number of times `c` occurs among the first `n` elements of `s`.
pub open spec fn occurrences(s: Seq<char>, c: char, n: int) -> nat
    decreases n,
{
    if n <= 0 {
        0
    } else {
        occurrences(s, c, n - 1) + if s[n - 1] == c { 1nat } else { 0nat }
    }
}

/// Tests whether `c` is one of the letters `'a'..='z'`.
pub fn is_lowercase_letter(c: char) -> (r: bool)
    ensures
        r == is_lower(c),
{
    'a' <= c && c <= 'z'
}

/// Gives the ASCII lowercase form of `c`.
pub fn to_lower(c: char) -> (r: char)
    ensures
        r == lower(c),
{
    if 'A' <= c && c <= 'Z' {
        let b: u8 = c as u8;
        (b + 32) as char
    } else {
        c
    }
}

/// Gives the position of a lowercase letter in the alphabet.
pub fn letter_index(c: char) -> (r: usize)
    requires
        is_lower(c),
    ensures
        r == letter_rank(c),
        r < ALPHABET_SIZE,
{
    let b: u8 = c as u8;
    (b - 97) as usize
}

/// Gives the lowercase letter at position `r` of the alphabet.
pub fn letter_at(r: usize) -> (c: char)
    requires
        r < ALPHABET_SIZE,
    ensures
        is_lower(c),
        letter_rank(c) == r,
{
    let b: u8 = r as u8;
    (b + 97) as char
}

/// Reads the character at position `i`.
pub fn char_at(v: &Vec<char>, i: usize) -> (c: char)
    requires
        i < v@.len(),
    ensures
        c == v@[i as int],
{
    v[i]
}

/// Collects the characters of a string.
pub fn chars_of(s: &str) -> (v: Vec<char>)
    ensures
        v@ == s@,
{
    let mut v: Vec<char> = Vec::new();
    for c in it: s.chars()
        invariant
            it.seq() == s@,
            v@ == it.seq().take(it.index() as int),
    {
        v.push(c);
    }
    assert(v@ == s@);
    v
}

/// Collects the characters of a string in their ASCII lowercase form.
pub fn lowered_chars_of(s: &str) -> (v: Vec<char>)
    ensures
        v@ == lowered(s@),
{
    let mut v: Vec<char> = Vec::new();
    for c in it: s.chars()
        invariant
            it.seq() == s@,
            v@ == lowered(it.seq().take(it.index() as int)),
    {
        v.push(to_lower(c));
        assert(v@ == lowered(it.seq().take(it.index() + 1)));
    }
    assert(v@ == lowered(s@));
    v
}

/// Calls `str::to_ascii_lowercase` of std: a copy of the string in which
/// `'A'..='Z'` are replaced by `'a'..='z'` and every other character
/// stays as it is.
#[verifier::external_body]
pub(crate) fn lowercase_of(s: &str) -> (r: String)
    ensures
        r@ == lowered(s@),
{
    s.to_ascii_lowercase()
}

/// Finds the first position of `c` in `v`.
pub fn position_of(v: &Vec<char>, c: char) -> (r: Option<usize>)
    ensures
        r matches Some(k) ==> k < v@.len() && v@[k as int] == c && forall|j: int|
            0 <= j < k ==> v@[j] != c,
        r is Some <==> v@.contains(c),
{
    let mut k: usize = 0;
    while k < v.len()
        invariant
            k <= v@.len(),
            forall|j: int| 0 <= j < k ==> v@[j] != c,
        decreases v@.len() - k,
    {
        if v[k] == c {
            return Some(k);
        }
        k += 1;
    }
    None
}

/// Tests whether `c` occurs in the string `s`.
pub fn str_has_letter(s: &str, c: char) -> (r: bool)
    ensures
        r == s@.contains(c),
{
    let n = s.unicode_len();
    let mut k: usize = 0;
    while k < n
        invariant
            n == s@.len(),
            k <= n,
            forall|j: int| 0 <= j < k ==> s@[j] != c,
        decreases n - k,
    {
        if s.get_char(k) == c {
            return true;
        }
        k += 1;
    }
    false
}

/// Tests whether two strings hold the same characters.
pub fn same_word(a: &str, b: &str) -> (r: bool)
    ensures
        r == (a@ == b@),
{
    let n = a.unicode_len();
    if b.unicode_len() != n {
        return false;
    }
    let mut k: usize = 0;
    while k < n
        invariant
            n == a@.len(),
            n == b@.len(),
            k <= n,
            forall|j: int| 0 <= j < k ==> a@[j] == b@[j],
        decreases n - k,
    {
        if a.get_char(k) != b.get_char(k) {
            return false;
        }
        k += 1;
    }
    assert(a@ =~= b@);
    true
}

/// Tests whether `s` is a word of the game.
pub fn is_valid_word(s: &str) -> (r: bool)
    ensures
        r == valid_word(s@),
{
    if s.unicode_len() != WORD_LENGTH {
        return false;
    }
    let mut k: usize = 0;
    while k < WORD_LENGTH
        invariant
            s@.len() == WORD_LENGTH,
            k <= WORD_LENGTH,
            forall|j: int| 0 <= j < k ==> is_lower(#[trigger] s@[j]),
        decreases WORD_LENGTH - k,
    {
        if !is_lowercase_letter(s.get_char(k)) {
            return false;
        }
        k += 1;
    }
    true
}

/// An element counted among the first `n` lies among them.
pub proof fn lemma_occurrences_positive(s: Seq<char>, c: char, n: int)
    requires
        0 <= n <= s.len(),
    ensures
        occurrences(s, c, n) > 0 <==> exists|k: int| 0 <= k < n && s[k] == c,
        occurrences(s, c, n) <= n,
    decreases n,
{
    if n > 0 {
        lemma_occurrences_positive(s, c, n - 1);
        if s[n - 1] == c {
            assert(0 <= n - 1 < n && s[n - 1] == c);
        }
    }
}

/// Counting does not look beyond the first `n` elements.
pub proof fn lemma_occurrences_prefix(s: Seq<char>, t: Seq<char>, c: char, n: int)
    requires
        0 <= n <= s.len(),
        n <= t.len(),
        forall|k: int| 0 <= k < n ==> s[k] == t[k],
    ensures
        occurrences(s, c, n) == occurrences(t, c, n),
    decreases n,
{
    if n > 0 {
        lemma_occurrences_prefix(s, t, c, n - 1);
    }
}

/// Removing the element at `k` lowers the count of that element by one and
/// leaves every other count alone.
pub proof fn lemma_occurrences_remove(s: Seq<char>, k: int, c: char)
    requires
        0 <= k < s.len(),
    ensures
        occurrences(s.remove(k), c, s.len() as int - 1) + (if s[k] == c { 1nat } else { 0nat })
            == occurrences(s, c, s.len() as int),
{
    lemma_occurrences_remove_upto(s, k, c, s.len() as int);
}

proof fn lemma_occurrences_remove_upto(s: Seq<char>, k: int, c: char, n: int)
    requires
        0 <= k < s.len(),
        k < n <= s.len(),
    ensures
        occurrences(s.remove(k), c, n - 1) + (if s[k] == c { 1nat } else { 0nat })
            == occurrences(s, c, n),
    decreases n,
{
    let t = s.remove(k);
    if n == k + 1 {
        lemma_occurrences_prefix(s, t, c, k);
    } else {
        lemma_occurrences_remove_upto(s, k, c, n - 1);
        assert(t[n - 2] == s[n - 1]);
    }
}

/// Appending an element raises the count of that element by one.
pub proof fn lemma_occurrences_push(s: Seq<char>, x: char, c: char)
    ensures
        occurrences(s.push(x), c, s.len() as int + 1) == occurrences(s, c, s.len() as int) + (if x
            == c { 1nat } else { 0nat }),
{
    lemma_occurrences_prefix(s, s.push(x), c, s.len() as int);
}

} // verus!
