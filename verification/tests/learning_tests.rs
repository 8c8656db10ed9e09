use clog::filters::{LogFilters, PersistError};
use clog::tokens::tokenize;

fn slot(words: &[&str]) -> Vec<String> {
    words.iter().map(|w| w.to_string()).collect()
}

#[test]
fn tokenize_splits_on_separators_and_drops_noise() {
    let toks = tokenize("user admin logged.in(from) [host7]:443 \"ok\" 6789");
    let expected = vec!["user", "admin", "logged", "in", "from", "host7", "ok"];
    assert_eq!(toks, slot(&expected));
    // empty line and pure separators yield nothing
    assert_eq!(tokenize(""), Vec::<String>::new());
    assert_eq!(tokenize(" /,.:\"(){}[]"), Vec::<String>::new());
    // purely numeric tokens are treated as variable data
    assert_eq!(tokenize("123 456"), Vec::<String>::new());
}

#[test]
fn learn_line_creates_first_template() {
    let mut lf = LogFilters::new();
    lf.learn_line("aaa bbb ccc ddd");
    assert_eq!(lf.filters.len(), 1);
    assert_eq!(
        lf.filters[0],
        vec![slot(&["aaa"]), slot(&["bbb"]), slot(&["ccc"]), slot(&["ddd"])]
    );
    // every token is indexed against template 0
    for w in ["aaa", "bbb", "ccc", "ddd"] {
        let entry = lf.words_hash.iter().find(|e| e.0 == w).expect("token indexed");
        assert_eq!(entry.1, vec![0]);
    }
}

#[test]
fn learn_line_folds_matching_line_without_growth() {
    let mut lf = LogFilters::new();
    lf.learn_line("aaa bbb ccc ddd");
    lf.learn_line("aaa bbb ccc ddd");
    // the second line matches the first template and adds nothing
    assert_eq!(lf.filters.len(), 1);
    assert_eq!(lf.filters[0].len(), 4);
}

#[test]
fn learn_line_prepends_unmatched_leading_tokens() {
    let mut lf = LogFilters::new();
    lf.learn_line("aaa bbb ccc ddd");
    lf.learn_line("xxx aaa bbb ccc ddd");
    assert_eq!(lf.filters.len(), 1);
    assert_eq!(
        lf.filters[0],
        vec![slot(&["xxx"]), slot(&["aaa"]), slot(&["bbb"]), slot(&["ccc"]), slot(&["ddd"])]
    );
    let entry = lf.words_hash.iter().find(|e| e.0 == "xxx").expect("new token indexed");
    assert_eq!(entry.1, vec![0]);
}

#[test]
fn learn_line_rejects_too_many_new_tokens() {
    let mut lf = LogFilters::new();
    lf.learn_line("aaa bbb ccc ddd");
    // two interior tokens with no slot exceed the tolerance of one
    lf.learn_line("aaa zzz yyy ddd");
    assert_eq!(lf.filters.len(), 2);
}

#[test]
fn reversed_token_order_does_not_match() {
    let mut lf = LogFilters::new();
    lf.learn_line("aaa bbb ccc ddd");
    lf.learn_line("ddd ccc bbb aaa");
    // alignment needs strictly increasing slot indices, so the reversal
    // becomes a template of its own
    assert_eq!(lf.filters.len(), 2);
}

#[test]
fn template_count_and_slot_counts_never_decrease() {
    let mut lf = LogFilters::new();
    let lines = [
        "alpha beta gamma delta",
        "alpha beta gamma delta",
        "zero alpha beta gamma delta",
        "one two three four",
        "9 9 9",
        "",
    ];
    let mut n_templates = 0;
    let mut slot_counts: Vec<usize> = Vec::new();
    for line in lines {
        lf.learn_line(line);
        assert!(lf.filters.len() >= n_templates);
        for (i, count) in slot_counts.iter().enumerate() {
            assert!(lf.filters[i].len() >= *count);
        }
        n_templates = lf.filters.len();
        slot_counts = lf.filters.iter().map(|f| f.len()).collect();
    }
}

#[test]
fn index_registration_is_idempotent() {
    let mut lf = LogFilters::new();
    lf._update_hash(&"omega".to_string(), 7);
    let once = lf.words_hash.clone();
    lf._update_hash(&"omega".to_string(), 7);
    assert_eq!(lf.words_hash, once);
    // a second id lands in the same entry, sorted ascending
    lf._update_hash(&"omega".to_string(), 3);
    let entry = lf.words_hash.iter().find(|e| e.0 == "omega").unwrap();
    assert_eq!(entry.1, vec![3, 7]);
}

#[test]
fn persistence_is_reported_unsupported() {
    let lf = LogFilters::new();
    assert_eq!(lf.save_filters(), Err(PersistError::Unsupported));
    let lf = LogFilters::new();
    assert_eq!(lf.load_filters(), Err(PersistError::Unsupported));
}

#[test]
fn short_input_must_match_every_token() {
    let mut lf = LogFilters::new();
    lf.learn_line("aaa bbb ccc ddd");
    // two tokens, one of them unknown: a short input may not miss at all
    let words = vec!["aaa".to_string(), "zzz".to_string()];
    assert_eq!(lf._find_best_matching_filter_index(&words), -1);
    // both tokens align: accepted
    let words = vec!["aaa".to_string(), "bbb".to_string()];
    assert_eq!(lf._find_best_matching_filter_index(&words), 0);
}

#[test]
fn unknown_single_token_has_empty_shortlist() {
    let mut lf = LogFilters::new();
    lf.learn_line("aaa bbb ccc ddd");
    let words = vec!["xyz".to_string()];
    assert_eq!(lf._get_filter_indexes_with_min_req_matches(&words), vec![]);
    assert_eq!(lf._find_best_matching_filter_index(&words), -1);
}
