//! The game: scoring a guess against the secret word and keeping the history.

use vstd::prelude::*;
use crate::calendar::day_or_today;
use crate::word_list::WordList;
use crate::letters::{
    char_at, chars_of, lemma_occurrences_positive, lemma_occurrences_push, lemma_occurrences_remove,
    lowered, lowered_chars_of, occurrences, position_of, str_has_letter,
};

verus! {

/// The number of guesses a game allows.
pub const MAX_GUESSES: usize = 6;

/// What one guessed letter turned out to be.
#[derive(Clone, Copy, Debug, PartialEq, Eq, Structural)]
pub enum LetterResult {
    /// The secret has this letter at this position.
    Exact(char),
    /// The secret has this letter at another position.
    Contains(char),
    /// The secret has no further instance of this letter.
    NotFound(char),
}

impl LetterResult {
    /// Whether the letter was found in the secret, here or elsewhere.
    pub open spec fn found(self) -> bool {
        !(self is NotFound)
    }

    /// The guessed letter.
    pub open spec fn letter(self) -> char {
        match self {
            LetterResult::Exact(c) => c,
            LetterResult::Contains(c) => c,
            LetterResult::NotFound(c) => c,
        }
    }

    /// Tells whether the letter was found in the secret, here or elsewhere.
    pub fn is_found(&self) -> (r: bool)
        ensures
            r == self.found(),
    {
        match self {
            LetterResult::Exact(_) => true,
            LetterResult::Contains(_) => true,
            LetterResult::NotFound(_) => false,
        }
    }

    /// Gives the guessed letter.
    pub fn to_char(&self) -> (c: char)
        ensures
            c == self.letter(),
    {
        match self {
            LetterResult::Exact(c) | LetterResult::Contains(c) | LetterResult::NotFound(c) => *c,
        }
    }
}

/// Whether the guess has the secret's letter at position `i`.
pub open spec fn is_hit(secret: Seq<char>, guess: Seq<char>, i: int) -> bool {
    0 <= i < guess.len() && i < secret.len() && secret[i] == guess[i]
}

/// The number of positions below `n` at which the secret holds `c` and the
/// guess does not hit: the instances of `c` left for misplaced letters.
pub open spec fn spare(secret: Seq<char>, guess: Seq<char>, c: char, n: int) -> nat
    decreases n,
{
    if n <= 0 {
        0
    } else {
        spare(secret, guess, c, n - 1) + if secret[n - 1] == c && !is_hit(secret, guess, n - 1) {
            1nat
        } else {
            0nat
        }
    }
}

/// The number of positions below `n` at which the guess holds `c` without
/// hitting: the claims on the spare instances of `c` made before `n`.
pub open spec fn claims(secret: Seq<char>, guess: Seq<char>, c: char, n: int) -> nat
    decreases n,
{
    if n <= 0 {
        0
    } else {
        claims(secret, guess, c, n - 1) + if guess[n - 1] == c && !is_hit(secret, guess, n - 1) {
            1nat
        } else {
            0nat
        }
    }
}

/// The verdict on position `i` of the guess. A hit is `Exact`. Any other
/// letter is `Contains` while spare instances of it remain, counting the
/// claims from left to right, and `NotFound` after that.
pub open spec fn verdict_at(secret: Seq<char>, guess: Seq<char>, i: int) -> LetterResult {
    let c = guess[i];
    if is_hit(secret, guess, i) {
        LetterResult::Exact(c)
    } else if claims(secret, guess, c, i) < spare(secret, guess, c, secret.len() as int) {
        LetterResult::Contains(c)
    } else {
        LetterResult::NotFound(c)
    }
}

/// The verdicts on a guess, one for each of its letters, in order.
pub open spec fn verdicts(secret: Seq<char>, guess: Seq<char>) -> Seq<LetterResult> {
    Seq::new(guess.len(), |i: int| verdict_at(secret, guess, i))
}

/// Whether every verdict is `Exact`.
pub open spec fn all_exact(letters: Seq<LetterResult>) -> bool {
    forall|i: int| 0 <= i < letters.len() ==> #[trigger] letters[i] is Exact
}

/// The letters that some verdict of the sequence found.
pub open spec fn found_letters(letters: Seq<LetterResult>) -> Set<char> {
    Set::new(
        |c: char|
            exists|i: int|
                0 <= i < letters.len() && (#[trigger] letters[i]).found() && letters[i].letter()
                    == c,
    )
}

/// The letters held back for misplaced guesses: those of the secret that
/// the guess does not hit.
fn unmatched_letters(secret: &Vec<char>, guess: &Vec<char>) -> (rest: Vec<char>)
    ensures
        forall|c: char|
            #![trigger occurrences(rest@, c, rest@.len() as int)]
            occurrences(rest@, c, rest@.len() as int) == spare(
                secret@,
                guess@,
                c,
                secret@.len() as int,
            ),
{
    let mut rest: Vec<char> = Vec::new();
    let mut k: usize = 0;
    while k < secret.len()
        invariant
            k <= secret@.len(),
            forall|c: char|
                #![trigger occurrences(rest@, c, rest@.len() as int)]
                occurrences(rest@, c, rest@.len() as int) == spare(secret@, guess@, c, k as int),
        decreases secret@.len() - k,
    {
        let hit = k < guess.len() && guess[k] == secret[k];
        if !hit {
            let ghost before = rest@;
            rest.push(secret[k]);
            proof {
                assert forall|c: char|
                    #![trigger occurrences(rest@, c, rest@.len() as int)]
                    occurrences(rest@, c, rest@.len() as int) == spare(
                        secret@,
                        guess@,
                        c,
                        k + 1,
                    ) by {
                    lemma_occurrences_push(before, secret@[k as int], c);
                    assert(occurrences(before, c, before.len() as int) == spare(
                        secret@,
                        guess@,
                        c,
                        k as int,
                    ));
                }
            }
        }
        k += 1;
    }
    rest
}

/// Scores a guess against the secret, letter by letter. The guess is read
/// in its ASCII lowercase form, the secret as it stands.
pub fn evaluate(secret: &str, guess: &str) -> (letters: Vec<LetterResult>)
    ensures
        letters@ == verdicts(secret@, lowered(guess@)),
{
    let s = chars_of(secret);
    let g = lowered_chars_of(guess);
    let mut rest = unmatched_letters(&s, &g);
    let mut letters: Vec<LetterResult> = Vec::new();
    let mut i: usize = 0;
    while i < g.len()
        invariant
            i <= g@.len(),
            letters@.len() == i,
            forall|j: int| 0 <= j < i ==> letters@[j] == verdict_at(s@, g@, j),
            forall|c: char|
                #![trigger occurrences(rest@, c, rest@.len() as int)]
                occurrences(rest@, c, rest@.len() as int) == if claims(s@, g@, c, i as int)
                    < spare(s@, g@, c, s@.len() as int) {
                    spare(s@, g@, c, s@.len() as int) - claims(s@, g@, c, i as int)
                } else {
                    0
                },
        decreases g@.len() - i,
    {
        let c = char_at(&g, i);
        if i < s.len() && s[i] == c {
            letters.push(LetterResult::Exact(c));
        } else {
            proof {
                lemma_occurrences_positive(rest@, c, rest@.len() as int);
                assert(occurrences(rest@, c, rest@.len() as int) > 0 <==> rest@.contains(c));
            }
            match position_of(&rest, c) {
                Some(k) => {
                    let ghost before = rest@;
                    rest.remove(k);
                    letters.push(LetterResult::Contains(c));
                    proof {
                        assert forall|d: char|
                            #![trigger occurrences(rest@, d, rest@.len() as int)]
                            occurrences(rest@, d, rest@.len() as int) == if claims(
                                s@,
                                g@,
                                d,
                                i + 1,
                            ) < spare(s@, g@, d, s@.len() as int) {
                                spare(s@, g@, d, s@.len() as int) - claims(s@, g@, d, i + 1)
                            } else {
                                0
                            } by {
                            lemma_occurrences_remove(before, k as int, d);
                            assert(occurrences(before, d, before.len() as int) == if claims(
                                s@,
                                g@,
                                d,
                                i as int,
                            ) < spare(s@, g@, d, s@.len() as int) {
                                spare(s@, g@, d, s@.len() as int) - claims(s@, g@, d, i as int)
                            } else {
                                0
                            });
                        }
                    }
                },
                None => {
                    letters.push(LetterResult::NotFound(c));
                },
            }
        }
        i += 1;
    }
    assert(letters@ =~= verdicts(s@, g@));
    letters
}


/// The number of `Exact` verdicts among the first `n`.
pub open spec fn exact_count(letters: Seq<LetterResult>, n: int) -> nat
    decreases n,
{
    if n <= 0 {
        0
    } else {
        exact_count(letters, n - 1) + if letters[n - 1] is Exact { 1nat } else { 0nat }
    }
}

/// The number of verdicts among the first `n` that found the letter `c`,
/// as `Exact` or as `Contains`.
pub open spec fn credit_count(letters: Seq<LetterResult>, c: char, n: int) -> nat
    decreases n,
{
    if n <= 0 {
        0
    } else {
        credit_count(letters, c, n - 1) + if letters[n - 1].found() && letters[n - 1].letter()
            == c {
            1nat
        } else {
            0nat
        }
    }
}

/// The number of positions below `n` at which secret and guess hold the
/// same letter.
pub open spec fn shared_positions(secret: Seq<char>, guess: Seq<char>, n: int) -> nat
    decreases n,
{
    if n <= 0 {
        0
    } else {
        shared_positions(secret, guess, n - 1) + if is_hit(secret, guess, n - 1) {
            1nat
        } else {
            0nat
        }
    }
}

/// The number of positions below `n` at which the guess hits with `c`.
spec fn hits(secret: Seq<char>, guess: Seq<char>, c: char, n: int) -> nat
    decreases n,
{
    if n <= 0 {
        0
    } else {
        hits(secret, guess, c, n - 1) + if guess[n - 1] == c && is_hit(secret, guess, n - 1) {
            1nat
        } else {
            0nat
        }
    }
}

proof fn lemma_exact_is_shared(secret: Seq<char>, guess: Seq<char>, n: int)
    requires
        0 <= n <= guess.len(),
    ensures
        exact_count(verdicts(secret, guess), n) == shared_positions(secret, guess, n),
    decreases n,
{
    if n > 0 {
        lemma_exact_is_shared(secret, guess, n - 1);
        assert(verdicts(secret, guess)[n - 1] == verdict_at(secret, guess, n - 1));
    }
}

proof fn lemma_letter_accounts(secret: Seq<char>, guess: Seq<char>, c: char, n: int)
    requires
        secret.len() == guess.len(),
        0 <= n <= guess.len(),
    ensures
        occurrences(secret, c, n) == spare(secret, guess, c, n) + hits(secret, guess, c, n),
        occurrences(guess, c, n) == claims(secret, guess, c, n) + hits(secret, guess, c, n),
        credit_count(verdicts(secret, guess), c, n) == hits(secret, guess, c, n) + if claims(
            secret,
            guess,
            c,
            n,
        ) < spare(secret, guess, c, secret.len() as int) {
            claims(secret, guess, c, n)
        } else {
            spare(secret, guess, c, secret.len() as int)
        },
    decreases n,
{
    if n > 0 {
        lemma_letter_accounts(secret, guess, c, n - 1);
        assert(verdicts(secret, guess)[n - 1] == verdict_at(secret, guess, n - 1));
    }
}

/// The `Exact` verdicts on a guess are no more than the positions at which
/// the guess and the secret hold the same letter.
pub proof fn lemma_exact_within_shared(secret: Seq<char>, guess: Seq<char>)
    requires
        secret.len() == guess.len(),
    ensures
        exact_count(verdicts(secret, guess), guess.len() as int) <= shared_positions(
            secret,
            guess,
            guess.len() as int,
        ),
{
    lemma_exact_is_shared(secret, guess, guess.len() as int);
}

/// The verdicts that find a letter, as `Exact` or as `Contains`, are no
/// more than its occurrences in the secret, and no more than its occurrences
/// in the guess; so they are no more than the larger of the two.
pub proof fn lemma_credit_within_supply(secret: Seq<char>, guess: Seq<char>, c: char)
    requires
        secret.len() == guess.len(),
    ensures
        credit_count(verdicts(secret, guess), c, guess.len() as int) <= occurrences(
            secret,
            c,
            secret.len() as int,
        ),
        credit_count(verdicts(secret, guess), c, guess.len() as int) <= occurrences(
            guess,
            c,
            guess.len() as int,
        ),
        credit_count(verdicts(secret, guess), c, guess.len() as int) <= if occurrences(
            guess,
            c,
            guess.len() as int,
        ) >= occurrences(secret, c, secret.len() as int) {
            occurrences(guess, c, guess.len() as int)
        } else {
            occurrences(secret, c, secret.len() as int)
        },
{
    lemma_letter_accounts(secret, guess, c, guess.len() as int);
}

/// How a guess ended, as a mathematical value.
pub enum Outcome {
    Win,
    Incorrect,
    Lose,
    Invalid(Seq<char>),
}

/// How a guess ended.
#[derive(Debug)]
pub enum GuessResult {
    /// Every letter was exact.
    Win,
    /// Not every letter was exact, and guesses remain.
    Incorrect,
    /// The last guess was used without a win.
    Lose,
    /// The guess lacks a revealed letter and did not count. Holds the guess.
    Invalid(String),
}

impl View for GuessResult {
    type V = Outcome;

    open spec fn view(&self) -> Outcome {
        match self {
            GuessResult::Win => Outcome::Win,
            GuessResult::Incorrect => Outcome::Incorrect,
            GuessResult::Lose => Outcome::Lose,
            GuessResult::Invalid(guess) => Outcome::Invalid(guess@),
        }
    }
}

impl Clone for GuessResult {
    /// Makes a copy of the result.
    fn clone(&self) -> (r: GuessResult)
        ensures
            r@ == self@,
    {
        match self {
            GuessResult::Win => GuessResult::Win,
            GuessResult::Incorrect => GuessResult::Incorrect,
            GuessResult::Lose => GuessResult::Lose,
            GuessResult::Invalid(guess) => GuessResult::Invalid(guess.clone()),
        }
    }
}

/// The answer to one guess, as a mathematical value.
pub struct CheckRecord {
    pub letters: Seq<LetterResult>,
    pub result: Outcome,
    pub guesses: int,
}

/// The answer to one guess.
#[derive(Debug)]
pub struct CheckData {
    /// The verdict on each letter of the guess, in order.
    pub letters: Vec<LetterResult>,
    /// How the guess ended.
    pub result: GuessResult,
    /// The number of guesses that counted, this one included; 0 for a guess
    /// that did not count.
    pub guesses: u8,
}

impl View for CheckData {
    type V = CheckRecord;

    open spec fn view(&self) -> CheckRecord {
        CheckRecord { letters: self.letters@, result: self.result@, guesses: self.guesses as int }
    }
}

impl Clone for CheckData {
    /// Makes a copy of the answer.
    fn clone(&self) -> (r: CheckData)
        ensures
            r@ == self@,
    {
        let mut letters: Vec<LetterResult> = Vec::new();
        let mut i: usize = 0;
        while i < self.letters.len()
            invariant
                i <= self.letters@.len(),
                letters@ == self.letters@.take(i as int),
            decreases self.letters@.len() - i,
        {
            letters.push(self.letters[i]);
            i += 1;
        }
        assert(letters@ == self.letters@);
        CheckData { letters, result: self.result.clone(), guesses: self.guesses }
    }
}

/// A game, as a mathematical value.
pub struct GameState {
    /// The secret word.
    pub word: Seq<char>,
    /// The answers to the guesses that counted, oldest first.
    pub history: Seq<CheckRecord>,
    /// The letters found so far.
    pub revealed: Set<char>,
    /// Whether every guess must hold all revealed letters.
    pub hard: bool,
    /// The day whose word is played, if the word was picked by day.
    pub day: Option<usize>,
}

/// Whether the game has ended: its last answer is a win or a loss.
pub open spec fn is_over(history: Seq<CheckRecord>) -> bool {
    history.len() > 0 && (history.last().result is Win || history.last().result is Lose)
}

/// How guess number `count` ends: a win if every letter is exact, else a
/// loss once the last guess is used, else incorrect.
pub open spec fn outcome(exact: bool, count: int) -> Outcome {
    if exact && count <= MAX_GUESSES {
        Outcome::Win
    } else if count < MAX_GUESSES {
        Outcome::Incorrect
    } else {
        Outcome::Lose
    }
}

/// Whether the guess, read as it stands, holds every revealed letter.
pub open spec fn covers(guess: Seq<char>, revealed: Set<char>) -> bool {
    forall|c: char| revealed.contains(c) ==> guess.contains(c)
}

/// The verdict that `c` was not found.
pub open spec fn not_found(c: char) -> LetterResult {
    LetterResult::NotFound(c)
}

/// The answer to a guess that lacks a revealed letter.
pub open spec fn rejected(guess: Seq<char>) -> CheckRecord {
    CheckRecord {
        letters: Seq::new(guess.len(), |i: int| not_found(guess[i])),
        result: Outcome::Invalid(guess),
        guesses: 0,
    }
}

/// The answer to guess number `count` when it is scored against `word`.
/// The guess is read in lowercase.
pub open spec fn scored(word: Seq<char>, guess: Seq<char>, count: int) -> CheckRecord {
    let letters = verdicts(word, lowered(guess));
    CheckRecord { letters, result: outcome(all_exact(letters), count), guesses: count }
}

/// What a guess does to a game: the game after it, and the answer.
///
/// A game that is over repeats its last answer. In hard mode a guess that
/// lacks a revealed letter is rejected. Either way the game stays as it is.
/// Any other guess is scored, joins the history and reveals its found
/// letters.
pub open spec fn step(game: GameState, guess: Seq<char>) -> (GameState, CheckRecord) {
    if is_over(game.history) {
        (game, game.history.last())
    } else if game.hard && !covers(guess, game.revealed) {
        (game, rejected(guess))
    } else {
        let answer = scored(game.word, guess, game.history.len() as int + 1);
        (
            GameState {
                history: game.history.push(answer),
                revealed: game.revealed.union(found_letters(answer.letters)),
                ..game
            },
            answer,
        )
    }
}

/// The letters that the answers of a history found.
pub open spec fn revealed_by(history: Seq<CheckRecord>) -> Set<char>
    decreases history.len(),
{
    if history.len() == 0 {
        Set::empty()
    } else {
        revealed_by(history.drop_last()).union(found_letters(history.last().letters))
    }
}

/// Whether a history can come from guessing at `word`: answer number `i` is
/// a scored guess with that count, and only the last answer may end the
/// game.
pub open spec fn valid_history(word: Seq<char>, history: Seq<CheckRecord>) -> bool {
    forall|i: int|
        0 <= i < history.len() ==> {
            &&& is_scored(word, #[trigger] history[i], i + 1)
            &&& i + 1 < history.len() ==> history[i].result is Incorrect
        }
}

/// Whether `answer` is what some guess gets as guess number `count`.
pub open spec fn is_scored(word: Seq<char>, answer: CheckRecord, count: int) -> bool {
    exists|guess: Seq<char>| answer == #[trigger] scored(word, guess, count)
}

/// A game in progress.
#[derive(Debug)]
pub struct Game {
    guesses: Vec<CheckData>,
    word: String,
    day: Option<usize>,
    hard: bool,
    revealed: Vec<char>,
}

impl View for Game {
    type V = GameState;

    closed spec fn view(&self) -> GameState {
        GameState {
            word: self.word@,
            history: Seq::new(self.guesses@.len(), |i: int| self.guesses@[i]@),
            revealed: self.revealed@.to_set(),
            hard: self.hard,
            day: self.day,
        }
    }
}

/// Tells whether every verdict is `Exact`.
fn is_all_exact(letters: &Vec<LetterResult>) -> (r: bool)
    ensures
        r == all_exact(letters@),
{
    let mut i: usize = 0;
    while i < letters.len()
        invariant
            i <= letters@.len(),
            forall|j: int| 0 <= j < i ==> #[trigger] letters@[j] is Exact,
        decreases letters@.len() - i,
    {
        match letters[i] {
            LetterResult::Exact(_) => {},
            _ => {
                return false;
            },
        }
        i += 1;
    }
    true
}

/// Marks every letter of the guess as not found.
fn all_not_found(guess: &str) -> (letters: Vec<LetterResult>)
    ensures
        letters@ == rejected(guess@).letters,
{
    let g = chars_of(guess);
    let mut letters: Vec<LetterResult> = Vec::new();
    let mut i: usize = 0;
    while i < g.len()
        invariant
            g@ == guess@,
            i <= g@.len(),
            letters@.len() == i,
            forall|j: int| 0 <= j < i ==> letters@[j] == LetterResult::NotFound(g@[j]),
        decreases g@.len() - i,
    {
        letters.push(LetterResult::NotFound(char_at(&g, i)));
        i += 1;
    }
    assert(letters@ =~= rejected(guess@).letters);
    letters
}

/// Tells whether the guess holds every revealed letter.
fn holds_all(guess: &str, revealed: &Vec<char>) -> (r: bool)
    ensures
        r == covers(guess@, revealed@.to_set()),
{
    let mut k: usize = 0;
    while k < revealed.len()
        invariant
            k <= revealed@.len(),
            forall|j: int| 0 <= j < k ==> guess@.contains(#[trigger] revealed@[j]),
        decreases revealed@.len() - k,
    {
        if !str_has_letter(guess, revealed[k]) {
            assert(revealed@.to_set().contains(revealed@[k as int]));
            return false;
        }
        k += 1;
    }
    true
}

/// Whether one of the first `n` verdicts found the letter `c`.
pub open spec fn found_among(letters: Seq<LetterResult>, c: char, n: int) -> bool {
    exists|j: int| 0 <= j < n && (#[trigger] letters[j]).found() && letters[j].letter() == c
}

/// Adds the found letters of an answer to the revealed ones.
fn add_found(revealed: &mut Vec<char>, letters: &Vec<LetterResult>)
    requires
        old(revealed)@.no_duplicates(),
    ensures
        final(revealed)@.no_duplicates(),
        final(revealed)@.to_set() == old(revealed)@.to_set().union(found_letters(letters@)),
{
    let mut i: usize = 0;
    while i < letters.len()
        invariant
            i <= letters@.len(),
            revealed@.no_duplicates(),
            forall|c: char|
                revealed@.contains(c) <==> old(revealed)@.contains(c) || found_among(
                    letters@,
                    c,
                    i as int,
                ),
        decreases letters@.len() - i,
    {
        let lr = letters[i];
        let ghost before = revealed@;
        let ghost fresh = lr.found() && !before.contains(lr.letter());
        if lr.is_found() {
            let c = lr.to_char();
            if position_of(revealed, c).is_none() {
                revealed.push(c);
            }
        }
        proof {
            assert forall|d: char|
                revealed@.contains(d) <==> old(revealed)@.contains(d) || found_among(
                    letters@,
                    d,
                    i + 1,
                ) by {
                let here = lr.found() && lr.letter() == d;
                assert(found_among(letters@, d, i + 1) <==> found_among(letters@, d, i as int)
                    || here) by {
                    if found_among(letters@, d, i + 1) {
                        let j = choose|j: int|
                            0 <= j < i + 1 && (#[trigger] letters@[j]).found()
                                && letters@[j].letter() == d;
                        if j < i {
                            assert(found_among(letters@, d, i as int));
                        }
                    }
                    if found_among(letters@, d, i as int) {
                        let j = choose|j: int|
                            0 <= j < i && (#[trigger] letters@[j]).found() && letters@[j].letter()
                                == d;
                        assert(0 <= j < i + 1);
                    }
                    if here {
                        assert(letters@[i as int].found());
                    }
                }
                assert(before.contains(d) <==> old(revealed)@.contains(d) || found_among(
                    letters@,
                    d,
                    i as int,
                ));
                if fresh {
                    assert(revealed@ == before.push(lr.letter()));
                    if revealed@.contains(d) {
                        let k = choose|k: int| 0 <= k < revealed@.len() && revealed@[k] == d;
                        if k < before.len() {
                            assert(before[k] == d);
                        }
                    }
                    if before.contains(d) {
                        let k = choose|k: int| 0 <= k < before.len() && before[k] == d;
                        assert(revealed@[k] == d);
                    }
                    if d == lr.letter() {
                        assert(revealed@[before.len() as int] == d);
                    }
                }
            }
        }
        i += 1;
    }
    assert(revealed@.to_set() =~= old(revealed)@.to_set().union(found_letters(letters@)));
}

impl Clone for Game {
    /// Makes a copy of the game.
    fn clone(&self) -> (r: Game)
        ensures
            r@ == self@,
            self.wf() ==> r.wf(),
    {
        let mut revealed: Vec<char> = Vec::new();
        let mut i: usize = 0;
        while i < self.revealed.len()
            invariant
                i <= self.revealed@.len(),
                revealed@ == self.revealed@.take(i as int),
            decreases self.revealed@.len() - i,
        {
            revealed.push(self.revealed[i]);
            i += 1;
        }
        assert(revealed@ == self.revealed@);
        let r = Game {
            guesses: self.guesses(),
            word: self.word.clone(),
            day: self.day,
            hard: self.hard,
            revealed,
        };
        assert(r@.history =~= self@.history);
        r
    }
}

impl Game {
    /// Whether the game is consistent: its history can come from guessing at
    /// its word, has no more answers than guesses are allowed, and the
    /// revealed letters are those that the history found, each held once.
    pub closed spec fn wf(&self) -> bool {
        &&& self.revealed@.no_duplicates()
        &&& self.guesses@.len() <= MAX_GUESSES
        &&& valid_history(self@.word, self@.history)
        &&& self@.revealed == revealed_by(self@.history)
    }

    /// Spells out what `wf` holds.
    pub proof fn lemma_wf(&self)
        requires
            self.wf(),
        ensures
            self@.history.len() <= MAX_GUESSES,
            valid_history(self@.word, self@.history),
            self@.revealed == revealed_by(self@.history),
    {
    }

    /// Starts a game with the given secret word, in easy mode.
    pub fn for_word(word: &str) -> (game: Game)
        ensures
            game.wf(),
            game@ == (GameState {
                word: word@,
                history: Seq::empty(),
                revealed: Set::empty(),
                hard: false,
                day: None,
            }),
    {
        let game = Game {
            guesses: Vec::new(),
            revealed: Vec::new(),
            word: word.to_owned(),
            day: None,
            hard: false,
        };
        assert(game@.history =~= Seq::empty());
        assert(game@.revealed =~= Set::empty());
        game
    }

    /// Starts a game with the word of the given day, in easy mode. Gives
    /// `None` where the corpus has no word for the day.
    pub fn for_day(day: usize, corpus: &WordList) -> (r: Option<Game>)
        ensures
            r is Some <==> day < corpus.corpus().len(),
            r matches Some(game) ==> game.wf() && game@ == (GameState {
                word: corpus.corpus()[day as int],
                history: Seq::empty(),
                revealed: Set::empty(),
                hard: false,
                day: Some(day),
            }),
    {
        match corpus.get_word_for_day(day) {
            Some(word) => {
                let game = Game { day: Some(day), ..Game::for_word(word) };
                Some(game)
            },
            None => None,
        }
    }

    /// Starts a game with the word of the given day, or of today where no
    /// day is given, in easy mode. Today's day is counted from the first day
    /// by the machine's clock. Gives `None` where the corpus has no word for
    /// the day.
    pub fn new(day: Option<usize>, corpus: &WordList) -> (r: Option<Game>)
        ensures
            day matches Some(d) ==> (r is Some <==> d < corpus.corpus().len()),
            r matches Some(game) ==> {
                &&& game.wf()
                &&& game@.day matches Some(d)
                &&& day is Some ==> game@.day == day
                &&& d < corpus.corpus().len()
                &&& game@ == (GameState {
                    word: corpus.corpus()[d as int],
                    history: Seq::empty(),
                    revealed: Set::empty(),
                    hard: false,
                    day: Some(d),
                })
            },
    {
        match day_or_today(day) {
            Some(d) => Game::for_day(d, corpus),
            None => None,
        }
    }

    /// Turns hard mode on.
    pub fn set_hard_mode(self) -> (game: Game)
        ensures
            self.wf() ==> game.wf(),
            game@ == (GameState { hard: true, ..self@ }),
    {
        Game { hard: true, ..self }
    }

    /// The day whose word is played, if the word was picked by day.
    pub fn day(&self) -> (day: Option<usize>)
        ensures
            day == self@.day,
    {
        self.day
    }

    /// Tells whether the game is in easy mode.
    pub fn is_easy(&self) -> (easy: bool)
        ensures
            easy == !self@.hard,
    {
        !self.hard
    }

    /// The answers to the guesses that counted, oldest first.
    pub fn guesses(&self) -> (history: Vec<CheckData>)
        ensures
            history@.len() == self@.history.len(),
            forall|i: int| 0 <= i < history@.len() ==> (#[trigger] history@[i])@ == self@.history[i],
    {
        let mut history: Vec<CheckData> = Vec::new();
        let mut i: usize = 0;
        while i < self.guesses.len()
            invariant
                i <= self.guesses@.len(),
                history@.len() == i,
                forall|j: int| 0 <= j < i ==> (#[trigger] history@[j])@ == self.guesses@[j]@,
            decreases self.guesses@.len() - i,
        {
            history.push(self.guesses[i].clone());
            i += 1;
        }
        history
    }

    /// The secret word.
    pub fn word(&self) -> (word: String)
        ensures
            word@ == self@.word,
    {
        self.word.clone()
    }

    /// Takes a guess and answers it, as `step` says.
    pub fn check(&mut self, guess: &str) -> (answer: CheckData)
        requires
            old(self).wf(),
        ensures
            final(self).wf(),
            final(self)@ == step(old(self)@, guess@).0,
            answer@ == step(old(self)@, guess@).1,
    {
        let n = self.guesses.len();
        if n > 0 {
            let last = &self.guesses[n - 1];
            match last.result {
                GuessResult::Win | GuessResult::Lose => {
                    return last.clone();
                },
                _ => {},
            }
        }
        if self.hard && !holds_all(guess, &self.revealed) {
            return CheckData {
                letters: all_not_found(guess),
                result: GuessResult::Invalid(guess.to_owned()),
                guesses: 0,
            };
        }
        let ghost before = self@;
        proof {
            if n == MAX_GUESSES {
                assert(is_scored(before.word, before.history[n - 1], n as int));
            }
        }
        let letters = evaluate(self.word.as_str(), guess);
        let count = n + 1;
        let result = if is_all_exact(&letters) {
            GuessResult::Win
        } else if count < MAX_GUESSES {
            GuessResult::Incorrect
        } else {
            GuessResult::Lose
        };
        add_found(&mut self.revealed, &letters);
        let answer = CheckData { letters, result, guesses: count as u8 };
        self.guesses.push(answer.clone());
        proof {
            let expected = scored(before.word, guess@, n + 1);
            assert(answer@ == expected);
            assert(self@.history =~= before.history.push(expected));
            assert(self@.history.drop_last() =~= before.history);
            assert forall|i: int| 0 <= i < self@.history.len() implies {
                &&& is_scored(self@.word, #[trigger] self@.history[i], i + 1)
                &&& i + 1 < self@.history.len() ==> self@.history[i].result is Incorrect
            } by {
                if i < n {
                    assert(self@.history[i] == before.history[i]);
                } else {
                    assert(self@.history[i] == scored(self@.word, guess@, i + 1));
                }
            }
        }
        answer
    }
}

} // verus!
