//! A session: a run of guesses at one game, with the candidates narrowed
//! after each.

use vstd::prelude::*;
use crate::eliminate::{consistent, eliminate_words};
use crate::game::{step, CheckData, CheckRecord, Game, GameState, GuessResult, Outcome};
use crate::letters::{lowercase_of, lowered};
use crate::word_list::WordList;

verus! {

/// How far a session has come, as a mathematical value.
pub struct Progress {
    /// The game.
    pub game: GameState,
    /// How the last guess taken ended; `Incorrect` before the first.
    pub result: Outcome,
    /// The words that are still possible.
    pub candidates: Seq<Seq<char>>,
    /// The answers to the guesses taken, oldest first.
    pub answers: Seq<CheckRecord>,
}

/// Where a session starts.
pub open spec fn opening(game: GameState, candidates: Seq<Seq<char>>) -> Progress {
    Progress { game, result: Outcome::Incorrect, candidates, answers: Seq::empty() }
}

/// What one more guess does to a session. A guess is taken only while the
/// last one ended `Incorrect`: after a win, a loss or a rejected guess the
/// session stays as it is. A guess taken is put to the game in lowercase. Its
/// verdicts narrow the candidates, unless the game rejected it.
pub open spec fn turn(before: Progress, guess: Seq<char>) -> Progress {
    if !(before.result is Incorrect) {
        before
    } else {
        let (game, answer) = step(before.game, lowered(guess));
        Progress {
            game,
            result: answer.result,
            candidates: if answer.result is Invalid {
                before.candidates
            } else {
                before.candidates.filter(consistent(answer.letters))
            },
            answers: before.answers.push(answer),
        }
    }
}

/// The session after the first `n` of the guesses.
pub open spec fn played(start: Progress, guesses: Seq<String>, n: int) -> Progress
    decreases n,
{
    if n <= 0 {
        start
    } else {
        turn(played(start, guesses, n - 1), guesses[n - 1]@)
    }
}

/// The values of a list of answers.
pub open spec fn records(answers: Seq<CheckData>) -> Seq<CheckRecord> {
    Seq::new(answers.len(), |i: int| answers[i]@)
}

/// Plays the guesses in order, as `turn` says. Gives how the last guess
/// taken ended, the candidates that are left, and the answers to the guesses
/// taken.
pub fn play(game: &mut Game, word_list: WordList, guesses: &Vec<String>) -> (r: (
    GuessResult,
    WordList,
    Vec<CheckData>,
))
    requires
        old(game).wf(),
    ensures
        final(game).wf(),
        final(game)@ == played(
            opening(old(game)@, word_list@),
            guesses@,
            guesses@.len() as int,
        ).game,
        r.0@ == played(opening(old(game)@, word_list@), guesses@, guesses@.len() as int).result,
        r.1@ == played(
            opening(old(game)@, word_list@),
            guesses@,
            guesses@.len() as int,
        ).candidates,
        r.1.corpus() == word_list.corpus(),
        records(r.2@) == played(
            opening(old(game)@, word_list@),
            guesses@,
            guesses@.len() as int,
        ).answers,
{
    let ghost start = opening(game@, word_list@);
    let ghost corpus = word_list.corpus();
    let mut result = GuessResult::Incorrect;
    let mut current = word_list;
    let mut answers: Vec<CheckData> = Vec::new();
    assert(records(answers@) =~= start.answers);
    let mut i: usize = 0;
    while i < guesses.len()
        invariant
            i <= guesses@.len(),
            game.wf(),
            current.corpus() == corpus,
            game@ == played(start, guesses@, i as int).game,
            result@ == played(start, guesses@, i as int).result,
            current@ == played(start, guesses@, i as int).candidates,
            records(answers@) == played(start, guesses@, i as int).answers,
        decreases guesses@.len() - i,
    {
        let ghost before = played(start, guesses@, i as int);
        match &result {
            GuessResult::Incorrect => {
                let guess = lowercase_of(guesses[i].as_str());
                let answer = game.check(guess.as_str());
                result = answer.result.clone();
                match &answer.result {
                    GuessResult::Invalid(_) => {},
                    _ => {
                        let verdict = answer.clone();
                        current = eliminate_words(current, verdict.letters);
                    },
                }
                let ghost earlier = answers@;
                answers.push(answer);
                assert(records(answers@) =~= records(earlier).push(answer@));
            },
            _ => {},
        }
        i += 1;
    }
    (result, current, answers)
}

} // verus!
