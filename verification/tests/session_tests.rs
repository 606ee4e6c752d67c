use wordle::game::{Game, GuessResult, LetterResult};
use wordle::session::play;
use wordle::word_list::WordList;

static WORDS: &[&str] = &[
    "apple", "ample", "angle", "maple", "crane", "trace", "grebe", "robot", "nacre", "stern",
];

fn corpus() -> WordList {
    WordList::new(WORDS).unwrap()
}

fn strings(words: &[&str]) -> Vec<String> {
    words.iter().map(|w| w.to_string()).collect()
}

#[test]
fn no_guesses_leave_everything_as_it_was() {
    let mut game = Game::for_word("crane");
    let (result, left, answers) = play(&mut game, corpus(), &vec![]);
    assert!(matches!(result, GuessResult::Incorrect));
    assert_eq!(left.words(), corpus().words());
    assert!(answers.is_empty());
    assert!(game.guesses().is_empty());
}

#[test]
fn each_guess_narrows_the_candidates() {
    let mut game = Game::for_word("crane");
    let (result, left, answers) = play(&mut game, corpus(), &strings(&["grebe"]));
    assert!(matches!(result, GuessResult::Incorrect));
    assert_eq!(left.words(), vec!["crane", "trace"]);
    assert_eq!(answers.len(), 1);
    assert_eq!(answers[0].letters[1], LetterResult::Exact('r'));
    assert_eq!(answers[0].letters[2], LetterResult::NotFound('e'));
    assert_eq!(game.guesses().len(), 1);
}

#[test]
fn a_win_ends_the_session() {
    let mut game = Game::for_word("crane");
    let (result, left, answers) =
        play(&mut game, corpus(), &strings(&["trace", "crane", "apple", "robot"]));
    assert!(matches!(result, GuessResult::Win));
    assert_eq!(left.words(), vec!["crane"]);
    assert_eq!(answers.len(), 2);
    assert_eq!(answers[1].guesses, 2);
    assert_eq!(game.guesses().len(), 2);
}

#[test]
fn a_rejected_guess_ends_the_session_and_narrows_nothing() {
    let mut game = Game::for_word("crane").set_hard_mode();
    let (result, left, answers) =
        play(&mut game, corpus(), &strings(&["grebe", "stone", "crane"]));
    match result {
        GuessResult::Invalid(guess) => assert_eq!(guess, "stone"),
        other => panic!("expected Invalid, got {:?}", other),
    }
    assert_eq!(left.words(), vec!["crane", "trace"]);
    assert_eq!(answers.len(), 2);
    assert_eq!(answers[1].guesses, 0);
    assert_eq!(game.guesses().len(), 1);
}

#[test]
fn guesses_are_put_to_the_game_in_lowercase() {
    let mut game = Game::for_word("crane").set_hard_mode();
    let (result, left, answers) = play(&mut game, corpus(), &strings(&["TRACE", "NaCrE"]));
    assert!(matches!(result, GuessResult::Incorrect));
    assert_eq!(answers.len(), 2);
    assert_eq!(answers[0].letters[1], LetterResult::Exact('r'));
    assert_eq!(answers[1].guesses, 2);
    assert_eq!(left.words(), vec!["crane"]);
}

#[test]
fn six_wrong_guesses_lose() {
    let mut game = Game::for_word("crane");
    let guesses = strings(&["trace", "nacre", "trace", "nacre", "trace", "nacre", "crane"]);
    let (result, left, answers) = play(&mut game, corpus(), &guesses);
    assert!(matches!(result, GuessResult::Lose));
    assert_eq!(answers.len(), 6);
    assert_eq!(answers[5].guesses, 6);
    assert_eq!(left.words(), vec!["crane"]);
}
