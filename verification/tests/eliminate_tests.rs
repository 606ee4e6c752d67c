use wordle::dictionary_set::DictionarySet;
use wordle::eliminate::{eliminate_words, get_position_vec, position_match, position_mismatch};
use wordle::game::{evaluate, LetterResult};
use wordle::word_list::WordList;

static WORDS: &[&str] = &[
    "apple", "ample", "angle", "maple", "crane", "trace", "grebe", "robot", "eerie", "abbey",
    "bobby", "hello", "eagle", "nacre", "react", "caret", "crate", "stern",
];

fn corpus() -> WordList {
    WordList::new(WORDS).unwrap()
}

#[test]
fn exact_letters_keep_the_words_that_match() {
    let list = WordList::new(&["apple", "ample", "angle"]).unwrap();
    let verdicts = evaluate("apple", "angle");
    assert_eq!(
        verdicts,
        vec![
            LetterResult::Exact('a'),
            LetterResult::NotFound('n'),
            LetterResult::NotFound('g'),
            LetterResult::Exact('l'),
            LetterResult::Exact('e'),
        ]
    );
    assert_eq!(eliminate_words(list, verdicts).words(), vec!["apple", "ample"]);
}

#[test]
fn a_contained_letter_moves_elsewhere() {
    let list = WordList::new(&["apple", "ample", "angle", "maple"]).unwrap();
    let verdicts = evaluate("ample", "maple");
    assert_eq!(verdicts[0], LetterResult::Contains('m'));
    assert_eq!(verdicts[1], LetterResult::Contains('a'));
    assert_eq!(eliminate_words(list, verdicts).words(), vec!["ample"]);
}

#[test]
fn a_letter_found_elsewhere_is_not_purged() {
    let list = WordList::new(&["crane", "grebe", "trace"]).unwrap();
    let verdicts = evaluate("crane", "eerie");
    assert_eq!(verdicts[0], LetterResult::NotFound('e'));
    assert_eq!(verdicts[4], LetterResult::Exact('e'));
    assert_eq!(eliminate_words(list, verdicts).words(), vec!["crane", "grebe", "trace"]);
}

#[test]
fn a_letter_not_found_anywhere_is_purged() {
    let list = WordList::new(&["crane", "grebe", "trace"]).unwrap();
    let verdicts = vec![
        LetterResult::NotFound('g'),
        LetterResult::NotFound('t'),
        LetterResult::NotFound('z'),
        LetterResult::NotFound('q'),
        LetterResult::NotFound('x'),
    ];
    assert_eq!(eliminate_words(list, verdicts).words(), vec!["crane"]);
}

#[test]
fn no_verdicts_leave_the_candidates_alone() {
    let list = corpus();
    assert_eq!(eliminate_words(list, vec![]).words(), corpus().words());
    let empty = WordList::new(&[]).unwrap();
    assert_eq!(eliminate_words(empty, evaluate("crane", "trace")).count(), 0);
}

#[test]
fn verdicts_beyond_the_word_or_the_alphabet_find_nothing() {
    let list = WordList::new(&["apple", "ample", "angle"]).unwrap();
    let exact = vec![
        LetterResult::Exact('a'),
        LetterResult::Exact('p'),
        LetterResult::Exact('p'),
        LetterResult::Exact('l'),
        LetterResult::Exact('e'),
        LetterResult::Exact('s'),
    ];
    assert_eq!(eliminate_words(list.clone(), exact).count(), 0);
    assert_eq!(eliminate_words(list.clone(), vec![LetterResult::Exact('A')]).count(), 0);
    assert_eq!(eliminate_words(list.clone(), vec![LetterResult::Contains('1')]).count(), 0);
    let beyond = vec![
        LetterResult::Exact('a'),
        LetterResult::NotFound('x'),
        LetterResult::NotFound('x'),
        LetterResult::NotFound('x'),
        LetterResult::NotFound('x'),
        LetterResult::Contains('g'),
    ];
    assert_eq!(eliminate_words(list, beyond).words(), vec!["angle"]);
}

#[test]
fn the_secret_survives_every_guess() {
    for secret in WORDS {
        for guess in WORDS {
            let before = corpus();
            let size = before.count();
            let after = eliminate_words(before, evaluate(secret, guess));
            assert!(after.count() <= size);
            assert!(after.words().contains(secret), "{} lost after {}", secret, guess);
        }
    }
}

#[test]
fn narrowing_twice_never_grows() {
    let first = eliminate_words(corpus(), evaluate("crane", "grebe"));
    let size = first.count();
    assert_eq!(first.words(), vec!["crane", "trace", "crate"]);
    let second = eliminate_words(first, evaluate("crane", "trace"));
    assert!(second.count() <= size);
    assert_eq!(second.words(), vec!["crane"]);
}

#[test]
fn the_index_is_looked_up_by_position_and_letter() {
    let list = WordList::new(&["apple", "ample", "angle"]).unwrap();
    let set = DictionarySet::from_word_list(&list);
    assert_eq!(get_position_vec(&set, 0, &'a'), vec!["apple", "ample", "angle"]);
    assert_eq!(get_position_vec(&set, 2, &'p'), vec!["apple", "ample"]);
    assert_eq!(get_position_vec(&set, 2, &'z'), Vec::<&str>::new());
    assert_eq!(get_position_vec(&set, 5, &'a'), Vec::<&str>::new());
    assert_eq!(get_position_vec(&set, 0, &'A'), Vec::<&str>::new());
}

#[test]
fn matching_keeps_and_mismatching_drops_the_listed_words() {
    let list = WordList::new(&["apple", "ample", "angle"]).unwrap();
    let set = DictionarySet::from_word_list(&list);
    assert_eq!(position_match(list.clone(), &set, 2, &'p').words(), vec!["apple", "ample"]);
    assert_eq!(position_mismatch(list.clone(), &set, 2, &'p').words(), vec!["angle"]);
    assert_eq!(position_match(list.clone(), &set, 9, &'p').count(), 0);
    assert_eq!(position_mismatch(list.clone(), &set, 9, &'p').count(), 3);
    let narrowed = list.ensure_letter('g');
    assert_eq!(position_match(narrowed, &set, 0, &'a').words(), vec!["angle"]);
}
