use clog::filters::LogFilters;

fn _simple_filter_from_string(words: &str) -> Vec<Vec<String>> {
    let words_iterator = words.split(|c| {
        c == ' '
            || c == '/'
            || c == ','
            || c == '.'
            || c == ':'
            || c == '"'
            || c == '('
            || c == ')'
            || c == '{'
            || c == '}'
            || c == '['
            || c == ']'
    });

    let mut filter = Vec::new();
    for word in words_iterator {
        let word = word.to_string();
        filter.push(vec![word]);
    }
    filter
}

fn _add_word_alternative(mut filter: Vec<Vec<String>>, index: usize, word: &str) -> Vec<Vec<String>> {
    if filter.get(index).is_some() {
        filter.get_mut(index).unwrap().push(word.to_string());
        filter
    } else {
        panic!("Failed to create test data! Extending {:?} at {}", filter, index);
    }
}

fn _add_test_filter(test_filters: &mut LogFilters, filter: Vec<Vec<String>>) {
    let next_filter_index = test_filters.filters.len() as u32;
    for word_alternatives in &filter {
        for word in word_alternatives {
            let mut found = false;
            for entry in test_filters.words_hash.iter_mut() {
                if &entry.0 == word {
                    if !entry.1.contains(&next_filter_index) {
                        entry.1.push(next_filter_index);
                    }
                    found = true;
                    break;
                }
            }
            if !found {
                test_filters.words_hash.push((word.clone(), vec![next_filter_index]));
            }
        }
    }
    test_filters.filters.push(filter);
}

fn _init_test_data() -> LogFilters {
    let mut log_filters = LogFilters::new();
    let mut complex_filter = _simple_filter_from_string("aaa qqq ccc sss");
    complex_filter = _add_word_alternative(complex_filter, 1, "bbb");
    complex_filter = _add_word_alternative(complex_filter, 2, "rrr");
    complex_filter = _add_word_alternative(complex_filter, 3, "ddd");
    _add_test_filter(&mut log_filters, complex_filter);
    _add_test_filter(&mut log_filters, _simple_filter_from_string("eee fff ggg hhh x y z"));
    _add_test_filter(&mut log_filters, _simple_filter_from_string("iii jjj kkk lll"));
    _add_test_filter(&mut log_filters, _simple_filter_from_string("mmm nnn ooo ppp"));
    _add_test_filter(
        &mut log_filters,
        _add_word_alternative(_simple_filter_from_string("qqq rrr sss ttt"), 3, "aaa"),
    );
    _add_test_filter(&mut log_filters, _simple_filter_from_string("ttt aaa uuu bbb ccc ddd vvv"));
    log_filters
}

#[test]
fn _is_word_only_numeric() {
    let log_filters = LogFilters::new();
    assert_eq!(log_filters._is_word_only_numeric(&"asdf".to_string()), false);
    assert_eq!(log_filters._is_word_only_numeric(&"123a".to_string()), false);
    assert_eq!(log_filters._is_word_only_numeric(&"a123".to_string()), false);
    assert_eq!(log_filters._is_word_only_numeric(&"6789".to_string()), true);
    assert_eq!(log_filters._is_word_only_numeric(&"".to_string()), true);
}

#[test]
fn _find_best_matching_filter_index() {
    let log_filters = LogFilters::new();
    let words = vec!["aaa".to_string(), "bbb".to_string(), "ccc".to_string(), "ddd".to_string()];
    assert_eq!(log_filters._find_best_matching_filter_index(&words), -1);

    let mut log_filters = _init_test_data();
    log_filters.max_allowed_new_alternatives = 1;
    log_filters.min_req_consequent_matches = 3;
    // Empty words vector should result in invalid index
    let words = vec![];
    assert_eq!(log_filters._find_best_matching_filter_index(&words), -1);
    // First full match should be returned
    let words = vec!["aaa".to_string(), "bbb".to_string(), "ccc".to_string(), "ddd".to_string()];
    assert_eq!(log_filters._find_best_matching_filter_index(&words), 0);
    // If words vector is shorter than filter then first fully matching filter should be returned
    let words = vec!["aaa".to_string(), "bbb".to_string(), "ccc".to_string()];
    assert_eq!(log_filters._find_best_matching_filter_index(&words), 0);
    let words = vec!["aaa".to_string(), "bbb".to_string()];
    assert_eq!(log_filters._find_best_matching_filter_index(&words), 0);
    let words = vec!["aaa".to_string()];
    assert_eq!(log_filters._find_best_matching_filter_index(&words), 0);
    // Test if 1 word alternative is allowed
    let words = vec!["aaa".to_string(), "bbb".to_string(), "ccc".to_string(), "xxx".to_string()];
    assert_eq!(log_filters._find_best_matching_filter_index(&words), 0);
    let words = vec!["aaa".to_string(), "xxx".to_string(), "ccc".to_string(), "ddd".to_string()];
    assert_eq!(log_filters._find_best_matching_filter_index(&words), 0);
    // Two and more new alternatives should result in incorrect index
    let words = vec!["aaa".to_string(), "bbb".to_string(), "zzz".to_string(), "xxx".to_string()];
    assert_eq!(log_filters._find_best_matching_filter_index(&words), -1);
    let words = vec!["aaa".to_string(), "xxx".to_string(), "zzz".to_string(), "ddd".to_string()];
    assert_eq!(log_filters._find_best_matching_filter_index(&words), -1);
    // Test if words vector can be longer than existing filter
    let words = vec![
        "aaa".to_string(),
        "bbb".to_string(),
        "ccc".to_string(),
        "ddd".to_string(),
        "eee".to_string(),
        "fff".to_string(),
        "ggg".to_string(),
        "hhh".to_string(),
    ];
    assert_eq!(log_filters._find_best_matching_filter_index(&words), 0);
    // Test if longer words vector will be allowed to contain 1 word alternative to existing word
    let words = vec![
        "aaa".to_string(),
        "xxx".to_string(),
        "ccc".to_string(),
        "ddd".to_string(),
        "eee".to_string(),
        "fff".to_string(),
        "ggg".to_string(),
        "hhh".to_string(),
    ];
    assert_eq!(log_filters._find_best_matching_filter_index(&words), 0);
    // Test if longer words vector will be allowed to contain 1 new word alternative
    let words = vec![
        "aaa".to_string(),
        "xxx".to_string(),
        "bbb".to_string(),
        "ccc".to_string(),
        "ddd".to_string(),
        "fff".to_string(),
        "ggg".to_string(),
        "hhh".to_string(),
    ];
    assert_eq!(log_filters._find_best_matching_filter_index(&words), 0);
    // Test if words vector and filter vector must contain words in the same order
    let words = vec!["ddd".to_string(), "ccc".to_string(), "bbb".to_string(), "aaa".to_string()];
    assert_eq!(log_filters._find_best_matching_filter_index(&words), -1);
    let words = vec!["ccc".to_string(), "bbb".to_string(), "aaa".to_string()];
    assert_eq!(log_filters._find_best_matching_filter_index(&words), -1);
    let words = vec!["bbb".to_string(), "aaa".to_string()];
    assert_eq!(log_filters._find_best_matching_filter_index(&words), -1);
}

#[test]
fn _get_filter_indexes_with_min_req_matches() {
    // Test what happens if method was used on empty data structure
    let log_filters = LogFilters::new();
    assert_eq!(log_filters._get_filter_indexes_with_min_req_matches(&vec![]), vec![]);
    let words = vec!["aaa".to_string(), "bbb".to_string(), "ccc".to_string(), "ddd".to_string()];
    assert_eq!(log_filters._get_filter_indexes_with_min_req_matches(&words), vec![]);

    let mut log_filters = _init_test_data();
    log_filters.max_allowed_new_alternatives = 1;
    log_filters.min_req_consequent_matches = 3;
    assert_eq!(log_filters._get_sorted_filter_indexes_containing_words(&vec![]), vec![]);
    let words = vec!["aaa".to_string(), "bbb".to_string(), "ccc".to_string(), "ddd".to_string()];
    assert_eq!(log_filters._get_filter_indexes_with_min_req_matches(&words), vec![0, 5]);
    // Test when words length is less than self.min_req_consequent_matches
    let words = vec!["aaa".to_string(), "bbb".to_string()];
    assert_eq!(log_filters._get_filter_indexes_with_min_req_matches(&words), vec![0, 4, 5]);
    let words = vec!["aaa".to_string()];
    assert_eq!(log_filters._get_filter_indexes_with_min_req_matches(&words), vec![0, 4, 5]);
    // But empty words vector is still not allowed
    let words = vec![];
    assert_eq!(log_filters._get_filter_indexes_with_min_req_matches(&words), vec![]);
    // One-word words vector will only match if at least one filter contains that word
    let words = vec!["xyz".to_string()];
    assert_eq!(log_filters._get_filter_indexes_with_min_req_matches(&words), vec![]);
    // Test when new word alternatives are required
    let words = vec!["aaa".to_string(), "lll".to_string(), "ccc".to_string(), "ddd".to_string()];
    assert_eq!(log_filters._get_filter_indexes_with_min_req_matches(&words), vec![0, 5]);
    // Test when new word alternative is required and words vector is shorter than filter
    let words = vec!["aaa".to_string(), "lll".to_string(), "ccc".to_string()];
    assert_eq!(log_filters._get_filter_indexes_with_min_req_matches(&words), vec![0, 5]);
    // We are not counting consequent matches here, max_allowed_new_alternatives
    let words = vec!["aaa".to_string(), "lll".to_string(), "zzz".to_string(), "ddd".to_string()];
    assert_eq!(log_filters._get_filter_indexes_with_min_req_matches(&words), vec![0, 5]);
    let words = vec![
        "aaa".to_string(),
        "lll".to_string(),
        "zzz".to_string(),
        "yyy".to_string(),
        "ddd".to_string(),
    ];
    assert_eq!(log_filters._get_filter_indexes_with_min_req_matches(&words), vec![0, 5]);
    // We are not checking for correct words order here
    let words = vec![
        "ddd".to_string(),
        "lll".to_string(),
        "zzz".to_string(),
        "yyy".to_string(),
        "aaa".to_string(),
    ];
    assert_eq!(log_filters._get_filter_indexes_with_min_req_matches(&words), vec![0, 5]);
}

#[test]
fn _get_sorted_filter_indexes_containing_words() {
    let log_filters = LogFilters::new();
    let words = vec!["aaa".to_string(), "bbb".to_string(), "ccc".to_string(), "ddd".to_string()];
    assert_eq!(log_filters._get_sorted_filter_indexes_containing_words(&words), vec![]);
    assert_eq!(log_filters._get_sorted_filter_indexes_containing_words(&vec![]), vec![]);

    let mut log_filters = _init_test_data();
    log_filters.max_allowed_new_alternatives = 1;
    log_filters.min_req_consequent_matches = 3;
    assert_eq!(log_filters._get_sorted_filter_indexes_containing_words(&vec![]), vec![]);
    let words = vec!["aaa".to_string(), "bbb".to_string(), "ccc".to_string(), "ddd".to_string()];
    assert_eq!(
        log_filters._get_sorted_filter_indexes_containing_words(&words),
        vec![0, 0, 0, 0, 4, 5, 5, 5, 5]
    );
    let words = vec!["aaa".to_string(), "xxx".to_string()];
    assert_eq!(log_filters._get_sorted_filter_indexes_containing_words(&words), vec![0, 4, 5]);
    let words = vec!["xxx".to_string()];
    assert_eq!(log_filters._get_sorted_filter_indexes_containing_words(&words), vec![]);
}

#[test]
fn _count_consequent_matches() {
    // Test what happens if method was used on empty data structure
    let mut log_filters = LogFilters::new();
    let words = vec!["aaa".to_string(), "bbb".to_string(), "ccc".to_string(), "ddd".to_string()];
    assert_eq!(log_filters._count_consequent_matches(&words, 0), 0);
    assert_eq!(log_filters._count_consequent_matches(&words, 1), 0);
    assert_eq!(log_filters._count_consequent_matches(&vec![], 0), 0);
    log_filters.max_allowed_new_alternatives = 0;
    assert_eq!(log_filters._count_consequent_matches(&words, 0), 0);
    assert_eq!(log_filters._count_consequent_matches(&words, 1), 0);
    assert_eq!(log_filters._count_consequent_matches(&vec![], 0), 0);

    let mut log_filters = _init_test_data();
    log_filters.max_allowed_new_alternatives = 1;
    log_filters.min_req_consequent_matches = 3;
    // Test for existing pattern
    let words = vec!["aaa".to_string(), "bbb".to_string(), "ccc".to_string(), "ddd".to_string()];
    assert_eq!(log_filters._count_consequent_matches(&words, 0), 4);
    assert_eq!(log_filters._count_consequent_matches(&words, 1), 0);
    // Test out of bounds
    assert_eq!(log_filters._count_consequent_matches(&words, log_filters.filters.len() as u32), 0);
    // Test empty words vector
    assert_eq!(log_filters._count_consequent_matches(&vec![], 0), 0);
    // Test if words vector can be smaller than filter
    let words = vec!["iii".to_string(), "jjj".to_string(), "lll".to_string()];
    assert_eq!(log_filters._count_consequent_matches(&words, 2), 3);
    let words = vec!["iii".to_string(), "lll".to_string()];
    assert_eq!(log_filters._count_consequent_matches(&words, 2), 2);
    let words = vec!["iii".to_string(), "jjj".to_string()];
    assert_eq!(log_filters._count_consequent_matches(&words, 2), 2);
    let words = vec!["jjj".to_string(), "kkk".to_string()];
    assert_eq!(log_filters._count_consequent_matches(&words, 2), 2);
    let words = vec!["iii".to_string()];
    assert_eq!(log_filters._count_consequent_matches(&words, 2), 1);
    let words = vec!["jjj".to_string()];
    assert_eq!(log_filters._count_consequent_matches(&words, 2), 1);
    // Test if word alternative will be matched
    let words = vec!["aaa".to_string()];
    assert_eq!(log_filters._count_consequent_matches(&words, 4), 1);
    // Test if 1 word alternative is allowed
    let words = vec!["aaa".to_string(), "bbb".to_string(), "ccc".to_string(), "xxx".to_string()];
    assert_eq!(log_filters._count_consequent_matches(&words, 0), 3);
    let words = vec!["aaa".to_string(), "xxx".to_string(), "ccc".to_string(), "ddd".to_string()];
    assert_eq!(log_filters._count_consequent_matches(&words, 0), 3);
    let words = vec!["aaa".to_string(), "bbb".to_string(), "zzz".to_string(), "xxx".to_string()];
    assert_eq!(log_filters._count_consequent_matches(&words, 0), 0);
    let words = vec!["aaa".to_string(), "xxx".to_string(), "zzz".to_string(), "ddd".to_string()];
    assert_eq!(log_filters._count_consequent_matches(&words, 0), 0);
    // Test if words vector can be longer than existing filter
    let words = vec![
        "aaa".to_string(),
        "bbb".to_string(),
        "ccc".to_string(),
        "ddd".to_string(),
        "eee".to_string(),
        "fff".to_string(),
        "ggg".to_string(),
        "hhh".to_string(),
    ];
    assert_eq!(log_filters._count_consequent_matches(&words, 0), 4);
    // Test if longer words vector will be allowed to contain 1 word alternative to existing word
    let words = vec![
        "aaa".to_string(),
        "xxx".to_string(),
        "ccc".to_string(),
        "ddd".to_string(),
        "eee".to_string(),
        "fff".to_string(),
        "ggg".to_string(),
        "hhh".to_string(),
    ];
    assert_eq!(log_filters._count_consequent_matches(&words, 3), 0);
    // Test if longer words vector will be allowed to contain 1 new word alternative
    let words = vec![
        "aaa".to_string(),
        "xxx".to_string(),
        "bbb".to_string(),
        "ccc".to_string(),
        "ddd".to_string(),
        "fff".to_string(),
        "ggg".to_string(),
        "hhh".to_string(),
    ];
    assert_eq!(log_filters._count_consequent_matches(&words, 4), 0);
    // Test if words vector and filter vector must contain words in the same order
    let words = vec!["ddd".to_string(), "ccc".to_string(), "bbb".to_string(), "aaa".to_string()];
    assert_eq!(log_filters._count_consequent_matches(&words, 0), 0);
}

#[test]
fn _get_word_index_in_filter() {
    // Test what happens if method was used on empty data structure
    let log_filters = LogFilters::new();
    assert_eq!(log_filters._get_word_index_in_filter(&"aaa".to_string(), 0, 0), -1);
    assert_eq!(log_filters._get_word_index_in_filter(&"aaa".to_string(), 0, 100), -1);
    assert_eq!(log_filters._get_word_index_in_filter(&"aaa".to_string(), 100, 0), -1);
    assert_eq!(log_filters._get_word_index_in_filter(&"".to_string(), 0, 0), -1);

    let log_filters = _init_test_data();
    // Test if word will be matched when it should be
    assert_eq!(log_filters._get_word_index_in_filter(&"aaa".to_string(), 0, 0), 0);
    assert_eq!(log_filters._get_word_index_in_filter(&"aaa".to_string(), 4, 0), 3);
    assert_eq!(log_filters._get_word_index_in_filter(&"qqq".to_string(), 0, 0), 1);
    assert_eq!(log_filters._get_word_index_in_filter(&"sss".to_string(), 0, 3), 3);
    assert_eq!(log_filters._get_word_index_in_filter(&"ddd".to_string(), 0, 3), 3);
    // Test if word will not be matched if starting index is higher than word index in filter
    assert_eq!(log_filters._get_word_index_in_filter(&"aaa".to_string(), 0, 1), -1);
    // Empty string should not be matched
    assert_eq!(log_filters._get_word_index_in_filter(&"".to_string(), 4, 0), -1);
    // Test when word does not exist in filter or filter does not exist
    assert_eq!(log_filters._get_word_index_in_filter(&"aaa".to_string(), 1, 0), -1);
    assert_eq!(
        log_filters._get_word_index_in_filter(
            &"aaa".to_string(),
            log_filters.filters.len() as u32,
            0
        ),
        -1
    );
}

#[test]
fn _is_word_in_filter() {
    let log_filters = _init_test_data();
    assert_eq!(log_filters._is_word_in_filter(&"aaa".to_string(), 0), true);
    assert_eq!(log_filters._is_word_in_filter(&"aaa".to_string(), 4), true);
    assert_eq!(log_filters._is_word_in_filter(&"hhh".to_string(), 1), true);
    assert_eq!(log_filters._is_word_in_filter(&"aaa".to_string(), 1), false);
    assert_eq!(log_filters._is_word_in_filter(&"xxx".to_string(), 2), false);
    assert_eq!(
        log_filters._is_word_in_filter(&"xxx".to_string(), log_filters.filters.len() as u32),
        false
    );
    assert_eq!(log_filters._is_word_in_filter(&"".to_string(), 0), false);
}
