use wordle::dictionary_set::DictionarySet;
use wordle::word_list::WordList;

fn three() -> WordList {
    WordList::new(&["apple", "ample", "angle"]).unwrap()
}

#[test]
fn a_new_index_has_an_empty_entry_for_every_letter() {
    let set = DictionarySet::new();
    for p in 0..5 {
        let map = set.list_for_position(p);
        for c in 'a'..='z' {
            assert_eq!(map.get(c), Some(&vec![]));
        }
        assert_eq!(map.get('A'), None);
        assert_eq!(map.get('1'), None);
    }
    for c in 'a'..='z' {
        assert_eq!(set.list_for_letters().get(c), Some(&vec![]));
    }
}

#[test]
fn the_index_lists_words_by_position_and_letter() {
    let set = DictionarySet::from_word_list(&three());
    assert_eq!(set.list_for_position(0).get('a'), Some(&vec!["apple", "ample", "angle"]));
    assert_eq!(set.list_for_position(1).get('p'), Some(&vec!["apple"]));
    assert_eq!(set.list_for_position(1).get('m'), Some(&vec!["ample"]));
    assert_eq!(set.list_for_position(1).get('n'), Some(&vec!["angle"]));
    assert_eq!(set.list_for_position(2).get('p'), Some(&vec!["apple", "ample"]));
    assert_eq!(set.list_for_position(2).get('g'), Some(&vec!["angle"]));
    assert_eq!(set.list_for_position(3).get('l'), Some(&vec!["apple", "ample", "angle"]));
    assert_eq!(set.list_for_position(4).get('e'), Some(&vec!["apple", "ample", "angle"]));
    assert_eq!(set.list_for_position(4).get('a'), Some(&vec![]));
    assert_eq!(set.list_for_position(0).get('-'), None);
}

#[test]
fn the_index_lists_words_by_the_letters_they_hold() {
    let set = DictionarySet::from_word_list(&three());
    let by_letter = set.list_for_letters();
    assert_eq!(by_letter.get('p'), Some(&vec!["apple", "ample"]));
    assert_eq!(by_letter.get('g'), Some(&vec!["angle"]));
    assert_eq!(by_letter.get('e'), Some(&vec!["apple", "ample", "angle"]));
    assert_eq!(by_letter.get('z'), Some(&vec![]));
    assert_eq!(by_letter.get('P'), None);
}

#[test]
fn the_index_follows_the_candidates_not_the_corpus() {
    let narrowed = three().ensure_letter('p');
    let set = DictionarySet::from_word_list(&narrowed);
    assert_eq!(set.list_for_position(0).get('a'), Some(&vec!["apple", "ample"]));
    assert_eq!(set.list_for_position(2).get('g'), Some(&vec![]));
}

#[test]
fn a_copy_of_the_index_lists_the_same_words() {
    let set = DictionarySet::from_word_list(&three());
    let copy = set.clone();
    for p in 0..5 {
        for c in 'a'..='z' {
            assert_eq!(copy.list_for_position(p).get(c), set.list_for_position(p).get(c));
        }
    }
    assert_eq!(copy.list_for_letters().get('g'), Some(&vec!["angle"]));
    let map = set.list_for_position(2).clone();
    assert_eq!(map.get('p'), Some(&vec!["apple", "ample"]));
}
