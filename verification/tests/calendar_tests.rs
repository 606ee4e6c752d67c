use wordle::calendar::{day_index, day_or_today, resolve_day};
use wordle::game::Game;
use wordle::word_list::WordList;

fn corpus() -> WordList {
    WordList::new(&["apple", "ample", "angle"]).unwrap()
}

#[test]
fn the_day_is_the_distance_from_the_first_day() {
    assert_eq!(day_index(0), Some(0));
    assert_eq!(day_index(1), Some(1));
    assert_eq!(day_index(1957), Some(1957));
    assert_eq!(day_index(-1), Some(1));
    assert_eq!(day_index(-250), Some(250));
    assert_eq!(day_index(i64::MAX).map(|d| d as u128), usize::try_from(i64::MAX).ok().map(|d| d as u128));
    assert_eq!(
        day_index(i64::MIN).map(|d| d as u128),
        usize::try_from(1u128 << 63).ok().map(|d| d as u128)
    );
}

#[test]
fn a_day_asked_for_wins_over_the_clock() {
    assert_eq!(resolve_day(Some(7), Some(100)), Some(7));
    assert_eq!(resolve_day(Some(7), None), Some(7));
    assert_eq!(resolve_day(None, Some(100)), Some(100));
    assert_eq!(resolve_day(None, Some(-100)), Some(100));
    assert_eq!(resolve_day(None, None), None);
    assert_eq!(day_or_today(Some(3)), Some(3));
}

#[test]
fn today_lies_after_the_first_day() {
    let today = day_or_today(None);
    assert!(today.is_some());
    assert!(today.unwrap() > 1000);
}

#[test]
fn a_game_for_a_day_plays_the_word_of_that_day() {
    let game = Game::for_day(1, &corpus()).unwrap();
    assert_eq!(game.word(), "ample");
    assert_eq!(game.day(), Some(1));
    assert!(game.is_easy());
    assert!(game.guesses().is_empty());
    assert!(Game::for_day(3, &corpus()).is_none());
}

#[test]
fn a_new_game_takes_the_day_given() {
    let game = Game::new(Some(2), &corpus()).unwrap();
    assert_eq!(game.word(), "angle");
    assert_eq!(game.day(), Some(2));
    assert!(Game::new(Some(3), &corpus()).is_none());
    let narrowed = corpus().ensure_letter('g');
    let game = Game::new(Some(0), &narrowed).unwrap();
    assert_eq!(game.word(), "apple");
}

#[test]
fn a_new_game_without_a_day_asks_the_clock() {
    match Game::new(None, &corpus()) {
        Some(game) => {
            let day = game.day().unwrap();
            assert!(day < 3);
            assert_eq!(Some(game.word().as_str()), corpus().get_word_for_day(day));
        }
        None => assert!(day_or_today(None).map_or(true, |day| day >= 3)),
    }
}
