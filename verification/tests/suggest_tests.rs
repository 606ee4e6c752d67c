use wordle::dictionary_set::DictionarySet;
use wordle::suggest::{
    calculate_score, pattern_from_word, pattern_groups, rank_key, suggest, top_suggestions,
    worst_case_for,
};
use wordle::word_list::WordList;

fn ranking(list: WordList, easy: bool) -> Vec<(&'static str, usize, i64)> {
    let set = DictionarySet::from_word_list(&list);
    suggest(set, list, easy)
}

#[test]
fn a_single_candidate_is_the_only_suggestion() {
    let list = WordList::new(&["apple", "ample", "angle"]).unwrap().ensure_letter('g');
    assert_eq!(ranking(list.clone(), false), vec![("angle", 1, 5)]);
    assert_eq!(ranking(list, true), vec![("angle", 1, 5)]);
}

#[test]
fn candidates_are_ranked_by_worst_case_then_score() {
    let list = WordList::new(&["apple", "ample", "angle"]).unwrap();
    assert_eq!(
        ranking(list, false),
        vec![("ample", 1, 12), ("apple", 2, 12), ("angle", 2, 11)]
    );
}

#[test]
fn easy_mode_rates_every_word_of_the_corpus() {
    let list = WordList::new(&["apple", "ample", "angle"]).unwrap().ensure_letter('p');
    assert_eq!(list.count(), 2);
    assert_eq!(ranking(list.clone(), true), vec![("ample", 1, 9), ("apple", 2, 9), ("angle", 2, 6)]);
    assert_eq!(ranking(list, false), vec![("ample", 1, 9), ("apple", 2, 9)]);
}

#[test]
fn equal_ratings_fall_back_on_the_order_of_words() {
    let list = WordList::new(&["break", "brake"]).unwrap();
    assert_eq!(ranking(list, false), vec![("brake", 2, 7), ("break", 2, 7)]);
}

#[test]
fn a_larger_score_comes_first_among_equal_worst_cases() {
    let list = WordList::new(&["angle", "apple", "glean", "ample"]).unwrap();
    let result = ranking(list, false);
    assert_eq!(result.len(), 4);
    for pair in result.windows(2) {
        let (a, b) = (pair[0], pair[1]);
        assert!(a.1 < b.1 || (a.1 == b.1 && (a.2 > b.2 || (a.2 == b.2 && a.0 <= b.0))));
    }
    let mut words: Vec<&str> = result.iter().map(|e| e.0).collect();
    words.sort();
    assert_eq!(words, vec!["ample", "angle", "apple", "glean"]);
    let angle = result.iter().find(|e| e.0 == "angle").unwrap();
    let glean = result.iter().find(|e| e.0 == "glean").unwrap();
    assert_eq!(angle.1, glean.1);
    assert_eq!(angle.1, 2);
    assert_eq!(angle.2, 3 + 1 + 1 + 3 + 3);
    assert_eq!(glean.2, 1 + 1 + 1 + 1 + 1);
}

#[test]
fn no_candidates_give_no_suggestions_in_hard_mode() {
    let empty = WordList::new(&["apple", "ample"]).unwrap().ensure_letter('z');
    assert_eq!(empty.count(), 0);
    assert_eq!(ranking(empty.clone(), false), vec![]);
    assert_eq!(ranking(empty, true), vec![("ample", 0, 0), ("apple", 0, 0)]);
}

#[test]
fn the_worst_case_never_exceeds_the_number_of_candidates() {
    let list = WordList::new(&[
        "apple", "ample", "angle", "maple", "crane", "trace", "grebe", "robot", "eerie", "abbey",
    ])
    .unwrap();
    let narrowed = list.ensure_letter('e').remove_letter('t');
    let count = narrowed.count();
    for easy in [false, true] {
        let result = ranking(narrowed.clone(), easy);
        assert_eq!(result.len(), if easy { 10 } else { count });
        for entry in result {
            assert!(entry.1 <= count);
            assert!(entry.1 >= 1);
        }
    }
}

#[test]
fn the_pattern_is_the_letters_in_order() {
    assert_eq!(pattern_from_word("crane"), vec!['a', 'c', 'e', 'n', 'r']);
    assert_eq!(pattern_from_word("apple"), vec!['a', 'e', 'l', 'p', 'p']);
    assert_eq!(pattern_from_word("angle"), pattern_from_word("glean"));
    assert_eq!(pattern_from_word(""), vec![]);
}

#[test]
fn the_score_adds_up_the_words_at_each_letters_position() {
    let list = WordList::new(&["apple", "ample", "angle"]).unwrap();
    let set = DictionarySet::from_word_list(&list);
    assert_eq!(calculate_score(&set, "apple"), 3 + 1 + 2 + 3 + 3);
    assert_eq!(calculate_score(&set, "angle"), 3 + 1 + 1 + 3 + 3);
    assert_eq!(calculate_score(&set, "zzzzz"), 0);
    assert_eq!(calculate_score(&set, "eagle"), 0 + 0 + 1 + 3 + 3);
    assert_eq!(calculate_score(&set, "ap"), 3 + 1);
    assert_eq!(calculate_score(&set, "A-ple"), 0 + 0 + 2 + 3 + 3);
    assert_eq!(calculate_score(&DictionarySet::new(), "apple"), 0);
}

#[test]
fn the_rank_key_negates_the_score() {
    assert_eq!(rank_key(&("apple", 2, 12)), (2, -12, "apple"));
    assert_eq!(rank_key(&("apple", 0, 0)), (0, 0, "apple"));
}

#[test]
fn the_top_suggestions_are_cut_at_the_count() {
    let all = vec![("ample", 1, 12), ("apple", 2, 12), ("angle", 2, 11)];
    assert_eq!(top_suggestions(2, &all), (vec![("ample", 1, 12), ("apple", 2, 12)], true));
    assert_eq!(top_suggestions(3, &all), (all.clone(), false));
    assert_eq!(top_suggestions(20, &all), (all.clone(), false));
    assert_eq!(top_suggestions(0, &all), (vec![], true));
    assert_eq!(top_suggestions(0, &vec![]), (vec![], false));
}

#[test]
fn words_are_grouped_by_pattern_in_ascending_order() {
    let groups = pattern_groups(vec!["angle", "maple", "apple", "glean", "ample"]);
    assert_eq!(
        groups,
        vec![
            (vec!['a', 'e', 'g', 'l', 'n'], vec!["angle", "glean"]),
            (vec!['a', 'e', 'l', 'm', 'p'], vec!["maple", "ample"]),
            (vec!['a', 'e', 'l', 'p', 'p'], vec!["apple"]),
        ]
    );
    assert_eq!(pattern_groups(vec![]), vec![]);
    assert_eq!(
        pattern_groups(vec!["robot", "abbey"]),
        vec![
            (vec!['a', 'b', 'b', 'e', 'y'], vec!["abbey"]),
            (vec!['b', 'o', 'o', 'r', 't'], vec!["robot"]),
        ]
    );
}

#[test]
fn a_pattern_stands_before_the_patterns_it_starts() {
    let groups = pattern_groups(vec!["ab", "ba", "a", "abc", "b"]);
    assert_eq!(
        groups,
        vec![
            (vec!['a'], vec!["a"]),
            (vec!['a', 'b'], vec!["ab", "ba"]),
            (vec!['a', 'b', 'c'], vec!["abc"]),
            (vec!['b'], vec!["b"]),
        ]
    );
}

#[test]
fn the_worst_case_is_the_largest_group_of_like_candidates() {
    let words = vec!["apple", "ample", "angle"];
    assert_eq!(worst_case_for(&pattern_from_word("apple"), &words), 2);
    assert_eq!(worst_case_for(&pattern_from_word("ample"), &words), 1);
    assert_eq!(worst_case_for(&pattern_from_word("angle"), &words), 2);
    assert_eq!(worst_case_for(&pattern_from_word("zzzzz"), &words), 3);
    assert_eq!(worst_case_for(&pattern_from_word("apple"), &vec![]), 0);
    assert_eq!(worst_case_for(&vec![], &words), 3);
}
