use wordle::game::{evaluate, CheckData, Game, GuessResult, LetterResult};

fn exact_count(letters: &[LetterResult]) -> usize {
    letters.iter().filter(|l| matches!(l, LetterResult::Exact(_))).count()
}

fn credit_count(letters: &[LetterResult], c: char) -> usize {
    letters.iter().filter(|l| l.is_found() && l.to_char() == c).count()
}

fn occurrences(word: &str, c: char) -> usize {
    word.chars().filter(|x| *x == c).count()
}

#[test]
fn crane_trace_is_scored_letter_by_letter() {
    let mut game = Game::for_word("crane");
    let answer = game.check("trace");
    assert_eq!(
        answer.letters,
        vec![
            LetterResult::NotFound('t'),
            LetterResult::Exact('r'),
            LetterResult::Exact('a'),
            LetterResult::Contains('c'),
            LetterResult::Exact('e'),
        ]
    );
    assert!(matches!(answer.result, GuessResult::Incorrect));
    assert_eq!(answer.guesses, 1);
}

#[test]
fn robot_robot_wins_at_once() {
    let mut game = Game::for_word("robot");
    let answer = game.check("robot");
    assert_eq!(
        answer.letters,
        vec![
            LetterResult::Exact('r'),
            LetterResult::Exact('o'),
            LetterResult::Exact('b'),
            LetterResult::Exact('o'),
            LetterResult::Exact('t'),
        ]
    );
    assert!(matches!(answer.result, GuessResult::Win));
    assert_eq!(answer.guesses, 1);
    assert_eq!(game.guesses().len(), 1);
}

#[test]
fn hard_mode_rejects_a_guess_without_a_revealed_letter() {
    let mut game = Game::for_word("apple").set_hard_mode();
    let first = game.check("train");
    assert_eq!(first.letters[2], LetterResult::Contains('a'));
    assert_eq!(first.guesses, 1);
    let answer = game.check("stern");
    match &answer.result {
        GuessResult::Invalid(guess) => assert_eq!(guess, "stern"),
        other => panic!("expected Invalid, got {:?}", other),
    }
    assert_eq!(
        answer.letters,
        vec![
            LetterResult::NotFound('s'),
            LetterResult::NotFound('t'),
            LetterResult::NotFound('e'),
            LetterResult::NotFound('r'),
            LetterResult::NotFound('n'),
        ]
    );
    assert_eq!(answer.guesses, 0);
    assert_eq!(game.guesses().len(), 1);
    let next = game.check("amble");
    assert_eq!(next.guesses, 2);
}

#[test]
fn easy_mode_takes_a_guess_without_a_revealed_letter() {
    let mut game = Game::for_word("apple");
    assert!(game.is_easy());
    game.check("train");
    let answer = game.check("stern");
    assert!(matches!(answer.result, GuessResult::Incorrect));
    assert_eq!(answer.guesses, 2);
}

#[test]
fn a_letter_guessed_twice_is_credited_once() {
    let letters = evaluate("hello", "eagle");
    assert_eq!(
        letters,
        vec![
            LetterResult::Contains('e'),
            LetterResult::NotFound('a'),
            LetterResult::NotFound('g'),
            LetterResult::Exact('l'),
            LetterResult::NotFound('e'),
        ]
    );
    let letters = evaluate("crane", "eerie");
    assert_eq!(
        letters,
        vec![
            LetterResult::NotFound('e'),
            LetterResult::NotFound('e'),
            LetterResult::Contains('r'),
            LetterResult::NotFound('i'),
            LetterResult::Exact('e'),
        ]
    );
    let letters = evaluate("abide", "eerie");
    assert_eq!(
        letters,
        vec![
            LetterResult::NotFound('e'),
            LetterResult::NotFound('e'),
            LetterResult::NotFound('r'),
            LetterResult::Contains('i'),
            LetterResult::Exact('e'),
        ]
    );
}

#[test]
fn an_exact_letter_is_claimed_before_a_misplaced_one() {
    let letters = evaluate("robot", "moons");
    assert_eq!(
        letters,
        vec![
            LetterResult::NotFound('m'),
            LetterResult::Exact('o'),
            LetterResult::Contains('o'),
            LetterResult::NotFound('n'),
            LetterResult::NotFound('s'),
        ]
    );
}

#[test]
fn the_guess_is_read_in_lowercase() {
    let letters = evaluate("crane", "TRACE");
    assert_eq!(letters[0], LetterResult::NotFound('t'));
    assert_eq!(letters[1], LetterResult::Exact('r'));
    assert_eq!(letters[3], LetterResult::Contains('c'));
}

#[test]
fn a_guess_of_another_length_is_scored_position_by_position() {
    assert_eq!(
        evaluate("crane", "car"),
        vec![
            LetterResult::Exact('c'),
            LetterResult::Contains('a'),
            LetterResult::Contains('r'),
        ]
    );
    let long = evaluate("car", "crane");
    assert_eq!(long[0], LetterResult::Exact('c'));
    assert_eq!(long[1], LetterResult::Contains('r'));
    assert_eq!(long[2], LetterResult::Contains('a'));
    assert_eq!(long[3], LetterResult::NotFound('n'));
    assert_eq!(long[4], LetterResult::NotFound('e'));
    assert_eq!(evaluate("crane", ""), vec![]);
}

#[test]
fn exact_and_credit_counts_stay_within_bounds() {
    let pairs = [
        ("crane", "trace"),
        ("robot", "robot"),
        ("apple", "poppy"),
        ("geese", "eerie"),
        ("abbey", "bobby"),
        ("mamma", "ammam"),
    ];
    for (secret, guess) in pairs {
        let letters = evaluate(secret, guess);
        let shared = secret.chars().zip(guess.chars()).filter(|(s, g)| s == g).count();
        assert!(exact_count(&letters) <= shared);
        for c in 'a'..='z' {
            let credit = credit_count(&letters, c);
            assert!(credit <= occurrences(secret, c).max(occurrences(guess, c)));
            assert!(credit <= occurrences(secret, c));
            assert!(credit <= occurrences(guess, c));
        }
    }
}

#[test]
fn the_sixth_guess_wins_or_loses() {
    let mut game = Game::for_word("crane");
    for count in 1..=5u8 {
        let answer = game.check("trace");
        assert!(matches!(answer.result, GuessResult::Incorrect));
        assert_eq!(answer.guesses, count);
    }
    let mut winner = game.clone();
    let won = winner.check("crane");
    assert!(matches!(won.result, GuessResult::Win));
    assert_eq!(won.guesses, 6);
    let lost = game.check("trace");
    assert!(matches!(lost.result, GuessResult::Lose));
    assert_eq!(lost.guesses, 6);
    assert_eq!(game.guesses().len(), 6);
}

#[test]
fn a_game_that_is_over_repeats_its_last_answer() {
    let mut game = Game::for_word("robot");
    game.check("robot");
    let again = game.check("crane");
    assert!(matches!(again.result, GuessResult::Win));
    assert_eq!(again.guesses, 1);
    assert_eq!(again.letters[0], LetterResult::Exact('r'));
    assert_eq!(game.guesses().len(), 1);

    let mut lost = Game::for_word("crane");
    for _ in 0..6 {
        lost.check("trace");
    }
    let again = lost.check("crane");
    assert!(matches!(again.result, GuessResult::Lose));
    assert_eq!(again.guesses, 6);
    assert_eq!(again.letters[0], LetterResult::NotFound('t'));
    assert_eq!(lost.guesses().len(), 6);
}

#[test]
fn a_new_game_is_easy_and_empty() {
    let game = Game::for_word("crane");
    assert!(game.is_easy());
    assert_eq!(game.day(), None);
    assert_eq!(game.word(), "crane");
    assert!(game.guesses().is_empty());
    let hard = game.set_hard_mode();
    assert!(!hard.is_easy());
    assert_eq!(hard.word(), "crane");
}

#[test]
fn the_history_keeps_the_answers_in_order() {
    let mut game = Game::for_word("crane");
    game.check("trace");
    game.check("crate");
    let history: Vec<CheckData> = game.guesses();
    assert_eq!(history.len(), 2);
    assert_eq!(history[0].guesses, 1);
    assert_eq!(history[1].guesses, 2);
    assert_eq!(history[0].letters[0], LetterResult::NotFound('t'));
    assert_eq!(history[1].letters[0], LetterResult::Exact('c'));
    let copy = history[1].clone();
    assert_eq!(copy.letters, history[1].letters);
    assert_eq!(copy.guesses, 2);
    assert!(matches!(copy.result, GuessResult::Incorrect));
}

#[test]
fn letter_results_tell_what_they_found() {
    assert!(LetterResult::Exact('a').is_found());
    assert!(LetterResult::Contains('b').is_found());
    assert!(!LetterResult::NotFound('c').is_found());
    assert_eq!(LetterResult::Exact('a').to_char(), 'a');
    assert_eq!(LetterResult::Contains('b').to_char(), 'b');
    assert_eq!(LetterResult::NotFound('c').to_char(), 'c');
}

#[test]
fn hard_mode_asks_for_every_revealed_letter() {
    let mut game = Game::for_word("crane").set_hard_mode();
    game.check("trace");
    let missing_c = game.check("drake");
    assert!(matches!(missing_c.result, GuessResult::Invalid(_)));
    let with_all = game.check("nacre");
    assert!(matches!(with_all.result, GuessResult::Incorrect));
    assert_eq!(with_all.guesses, 2);
}
