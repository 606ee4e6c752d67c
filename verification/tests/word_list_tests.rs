use wordle::letters::{
    char_at, chars_of, is_valid_word, letter_at, letter_index, lowered_chars_of, position_of,
    same_word, str_has_letter, to_lower,
};
use wordle::word_list::{is_listed, WordList};

fn three() -> WordList {
    WordList::new(&["apple", "ample", "angle"]).unwrap()
}

#[test]
fn a_corpus_of_words_is_taken_whole() {
    let list = three();
    assert_eq!(list.count(), 3);
    assert_eq!(list.words(), vec!["apple", "ample", "angle"]);
}

#[test]
fn a_corpus_with_a_malformed_word_is_refused() {
    assert!(WordList::new(&["apple", "Ample"]).is_none());
    assert!(WordList::new(&["apple", "pear"]).is_none());
    assert!(WordList::new(&["apple", "banana"]).is_none());
    assert!(WordList::new(&["apple", "am-le"]).is_none());
    assert!(WordList::new(&["apple", ""]).is_none());
}

#[test]
fn a_corpus_with_a_repeated_word_is_refused() {
    assert!(WordList::new(&["apple", "ample", "apple"]).is_none());
    assert!(WordList::new(&["zzzzz", "zzzzz"]).is_none());
}

#[test]
fn an_empty_corpus_gives_an_empty_list() {
    let list = WordList::new(&[]).unwrap();
    assert_eq!(list.count(), 0);
    assert!(list.words().is_empty());
    assert_eq!(list.ensure_letter('a').count(), 0);
    assert_eq!(list.remove_letter('a').count(), 0);
    assert_eq!(list.intersect(vec!["apple"]).count(), 0);
    assert_eq!(list.subtract(vec!["apple"]).count(), 0);
    assert_eq!(list.get_word_for_day(0), None);
}

#[test]
fn ensure_then_remove_narrows_the_three_words() {
    let list = three();
    let with_p = list.ensure_letter('p');
    assert_eq!(with_p.words(), vec!["apple", "ample"]);
    let without_m = with_p.remove_letter('m');
    assert_eq!(without_m.words(), vec!["apple"]);
    assert_eq!(list.words(), vec!["apple", "ample", "angle"]);
}

#[test]
fn whittle_keeps_the_words_with_the_letter() {
    let list = three();
    assert_eq!(list.whittle('g').words(), vec!["angle"]);
    assert_eq!(list.whittle('a').words(), list.ensure_letter('a').words());
    assert_eq!(list.whittle('z').count(), 0);
}

#[test]
fn intersect_keeps_and_subtract_drops_the_listed_words() {
    let list = three();
    assert_eq!(list.intersect(vec!["angle", "apple", "other"]).words(), vec!["apple", "angle"]);
    assert_eq!(list.subtract(vec!["angle", "apple", "other"]).words(), vec!["ample"]);
    assert_eq!(list.intersect(vec![]).count(), 0);
}

#[test]
fn intersecting_with_its_own_words_changes_nothing() {
    let list = three();
    assert_eq!(list.intersect(list.words()).words(), list.words());
}

#[test]
fn subtracting_nothing_changes_nothing() {
    let list = three();
    assert_eq!(list.subtract(vec![]).words(), list.words());
}

#[test]
fn the_full_list_comes_back_after_narrowing() {
    let narrowed = three().ensure_letter('g');
    assert_eq!(narrowed.count(), 1);
    assert_eq!(narrowed.full().words(), vec!["apple", "ample", "angle"]);
    assert_eq!(narrowed.clone().words(), vec!["angle"]);
}

#[test]
fn each_day_has_the_word_at_its_place() {
    let narrowed = three().ensure_letter('g');
    assert_eq!(narrowed.get_word_for_day(0), Some("apple"));
    assert_eq!(narrowed.get_word_for_day(2), Some("angle"));
    assert_eq!(narrowed.get_word_for_day(3), None);
}

#[test]
fn words_are_told_apart_letter_by_letter() {
    assert!(same_word("apple", "apple"));
    assert!(!same_word("apple", "ample"));
    assert!(!same_word("apple", "apples"));
    assert!(str_has_letter("apple", 'l'));
    assert!(!str_has_letter("apple", 'm'));
    assert!(is_valid_word("apple"));
    assert!(!is_valid_word("Apple"));
    assert!(!is_valid_word("appl"));
    assert_eq!(to_lower('Q'), 'q');
    assert_eq!(to_lower('q'), 'q');
    assert_eq!(to_lower('!'), '!');
    assert!(is_listed(&vec!["apple", "ample"], "ample"));
    assert!(!is_listed(&vec!["apple", "ample"], "angle"));
}

#[test]
fn a_letter_is_found_at_its_first_place() {
    let letters = chars_of("apple");
    assert_eq!(letters, vec!['a', 'p', 'p', 'l', 'e']);
    assert_eq!(position_of(&letters, 'p'), Some(1));
    assert_eq!(position_of(&letters, 'e'), Some(4));
    assert_eq!(position_of(&letters, 'z'), None);
    assert_eq!(char_at(&letters, 3), 'l');
    assert_eq!(lowered_chars_of("ApPlE!"), vec!['a', 'p', 'p', 'l', 'e', '!']);
    assert_eq!(letter_index('a'), 0);
    assert_eq!(letter_index('z'), 25);
    assert_eq!(letter_at(0), 'a');
    assert_eq!(letter_at(25), 'z');
}
