use positional_index::text::tokenize;
use positional_index::{PositionalInvertedIndex, TokenOrdering, MAX_OCCURRENCES};

#[test]
fn search_of_empty_query_is_empty() {
    let mut index = PositionalInvertedIndex::new();
    assert_eq!(index.search(""), Vec::<usize>::new());
    index.index_document(7, "some words here");
    assert_eq!(index.search(""), Vec::<usize>::new());
    assert_eq!(index.search("  \t\n"), Vec::<usize>::new());
    assert_eq!(index.search("?!"), Vec::<usize>::new());
}

#[test]
fn single_term_search_finds_exactly_the_documents_with_the_term() {
    let mut index = PositionalInvertedIndex::new();
    index.index_document(4, "Alpha beta");
    index.index_document(9, "gamma ALPHA, gamma");
    index.index_document(2, "delta");
    assert_eq!(index.search("alpha"), vec![4, 9]);
    assert_eq!(index.search("gamma"), vec![9]);
    assert_eq!(index.search("delta"), vec![2]);
    assert_eq!(index.search("epsilon"), Vec::<usize>::new());
}

#[test]
fn results_ascend_whatever_the_order_of_ingestion() {
    let mut index = PositionalInvertedIndex::new();
    index.index_document(30, "red fox");
    index.index_document(10, "red fox");
    index.index_document(20, "a red fox");
    assert_eq!(index.search("red fox"), vec![10, 20, 30]);
}

#[test]
fn two_term_search_is_within_both_single_term_searches() {
    let mut index = PositionalInvertedIndex::new();
    index.index_document(1, "new york city");
    index.index_document(2, "york new");
    index.index_document(3, "new");
    index.index_document(4, "old york");
    let both = index.search("new york");
    let first = index.search("new");
    let second = index.search("york");
    assert_eq!(both, vec![1]);
    assert_eq!(first, vec![1, 2, 3]);
    assert_eq!(second, vec![1, 2, 4]);
    for d in both {
        assert!(first.contains(&d) && second.contains(&d));
    }
}

#[test]
fn a_phrase_is_found_wherever_it_starts() {
    let mut index = PositionalInvertedIndex::new();
    index.index_document(5, "to be or not to be that is the question");
    assert_eq!(index.search("to be"), vec![5]);
    assert_eq!(index.search("not to be that"), vec![5]);
    assert_eq!(index.search("the question"), vec![5]);
    assert_eq!(index.search("be to"), Vec::<usize>::new());
    assert_eq!(index.search("question the"), Vec::<usize>::new());
}

#[test]
fn an_unknown_term_empties_the_result() {
    let mut index = PositionalInvertedIndex::new();
    index.index_document(1, "hello world");
    assert_eq!(index.search("hello nowhere"), Vec::<usize>::new());
    assert_eq!(index.search("nowhere hello"), Vec::<usize>::new());
    assert_eq!(index.search("hello world nowhere"), Vec::<usize>::new());
}

#[test]
fn a_repeated_term_in_the_query_is_resolved_twice() {
    let mut index = PositionalInvertedIndex::new();
    index.index_document(1, "bye bye love");
    index.index_document(2, "bye love bye");
    assert_eq!(index.search("bye bye"), vec![1]);
    assert_eq!(index.search("bye love"), vec![1, 2]);
}

#[test]
fn indexing_a_document_again_appends_its_positions() {
    let mut index = PositionalInvertedIndex::new();
    index.index_document(1, "hello world hello");
    index.index_document(2, "world");
    let hello_before = index.search("hello");
    let phrase_before = index.search("hello world");
    let world_before = index.search("world hello");
    index.index_document(1, "hello world hello");
    assert_eq!(index.positions("hello", 1), vec![0, 2, 0, 2]);
    assert_eq!(index.positions("world", 1), vec![1, 1]);
    assert_eq!(index.positions("world", 2), vec![0]);
    assert_eq!(index.frequency("hello"), 4);
    assert_eq!(index.search("hello"), hello_before);
    assert_eq!(index.search("hello world"), phrase_before);
    assert_eq!(index.search("world hello"), world_before);
    assert_eq!(index.search("world"), vec![1, 2]);
}

#[test]
fn positions_out_of_order_are_still_found() {
    let mut index = PositionalInvertedIndex::new();
    index.index_document(1, "x x x x x a b");
    index.index_document(1, "a b");
    index.index_document(1, "y y y a b");
    assert_eq!(index.positions("a", 1), vec![5, 0, 3]);
    assert_eq!(index.search("a b"), vec![1]);
    assert_eq!(index.search("y a"), vec![1]);
    assert_eq!(index.search("x a b"), vec![1]);
    assert_eq!(index.search("a a"), Vec::<usize>::new());
}

#[test]
fn frequencies_and_occurrences_count_every_token() {
    let mut index = PositionalInvertedIndex::new();
    assert_eq!(index.occurrences(), 0);
    assert_eq!(index.vocabulary_size(), 0);
    index.index_document(1, "apple apple apple orange banana");
    index.index_document(2, "banana apple");
    assert_eq!(index.frequency("apple"), 4);
    assert_eq!(index.frequency("banana"), 2);
    assert_eq!(index.frequency("orange"), 1);
    assert_eq!(index.frequency("pear"), 0);
    assert_eq!(index.occurrences(), 7);
    assert_eq!(index.vocabulary_size(), 3);
    assert_eq!(index.frequencies(), vec![4, 1, 2]);
    assert_eq!(index.positions("apple", 1), vec![0, 1, 2]);
    assert_eq!(index.positions("apple", 2), vec![1]);
    assert_eq!(index.positions("apple", 3), Vec::<usize>::new());
    assert_eq!(index.positions("pear", 1), Vec::<usize>::new());
    assert!(index.occurrences() < MAX_OCCURRENCES);
}

#[test]
fn term_table_estimate_is_a_base_plus_a_cost_per_term() {
    let mut index = PositionalInvertedIndex::new();
    assert_eq!(index.approximate_term_list_size_in_bytes(), 96);
    index.index_document(1, "one two three two");
    assert_eq!(index.approximate_term_list_size_in_bytes(), 96 + 3 * 60);
}

#[test]
fn posting_list_estimate_counts_positions_and_documents() {
    let mut index = PositionalInvertedIndex::new();
    index.index_document(1, "a b a");
    index.index_document(2, "a c");
    // a: documents 1 and 2 with 2 and 1 positions; b and c: one document, one position.
    assert_eq!(index.approximate_posting_list_sizes_in_bytes(), vec![16, 16, 40]);
    let by_term = index.approximate_posting_list_sizes_in_bytes_by_term();
    assert_eq!(by_term.len(), 3);
    assert_eq!(*by_term.get("a").unwrap(), 40);
    assert_eq!(*by_term.get("b").unwrap(), 16);
    assert_eq!(*by_term.get("c").unwrap(), 16);
    assert!(by_term.get("d").is_none());
}

#[test]
fn posting_list_estimates_grow_when_every_term_gains_occurrences() {
    let mut index = PositionalInvertedIndex::new();
    index.index_document(1, "a b");
    index.index_document(2, "b b c");
    let before = index.approximate_posting_list_sizes_in_bytes();
    index.index_document(3, "c a b");
    let after = index.approximate_posting_list_sizes_in_bytes();
    assert_eq!(before.len(), after.len());
    for i in 0..before.len() {
        assert!(before[i] < after[i]);
    }
}

#[test]
fn random_terms_are_distinct_known_terms_with_their_frequencies() {
    let mut index = PositionalInvertedIndex::new();
    index.index_document(1, "a a a b b c d e e e e");
    for n in 0..8 {
        let drawn = index.get_random_terms(n);
        assert_eq!(drawn.len(), n.min(5));
        let mut seen = 0;
        for term in ["a", "b", "c", "d", "e"] {
            if let Some(f) = drawn.get(term) {
                assert_eq!(*f, index.frequency(term));
                seen += 1;
            }
        }
        assert_eq!(seen, drawn.len());
    }
}

#[test]
fn random_terms_of_zero_is_empty() {
    let mut index = PositionalInvertedIndex::new();
    index.index_document(1, "apple orange");
    assert!(index.get_random_terms(0).is_empty());
}

#[test]
fn random_terms_follow_the_frequencies() {
    let mut index = PositionalInvertedIndex::new();
    index.index_document(1, "common common common common rare");
    let mut common = 0;
    let mut rare = 0;
    for _ in 0..2000 {
        let drawn = index.get_random_terms(1);
        if drawn.contains_key("common") {
            common += 1;
        }
        if drawn.contains_key("rare") {
            rare += 1;
        }
    }
    assert_eq!(common + rare, 2000);
    assert!(common > 2 * rare);
    assert!(rare > 0);
}

#[test]
fn tokens_are_lowercased_alphanumerics_of_each_chunk() {
    assert_eq!(tokenize("  Hello,\tWORLD!\n"), vec!["hello", "world"]);
    assert_eq!(tokenize("a-b c_d"), vec!["ab", "cd"]);
    assert_eq!(tokenize("--- ... !!!"), Vec::<String>::new());
    assert_eq!(tokenize("x\u{00a0}y\u{2003}z"), vec!["x", "y", "z"]);
    assert_eq!(tokenize("\u{00c9}t\u{00e9} 42nd"), vec!["\u{00e9}t\u{00e9}", "42nd"]);
    assert_eq!(tokenize("one"), vec!["one"]);
}

#[test]
fn frequency_order_puts_rare_terms_first_and_keeps_ties() {
    let mut index = PositionalInvertedIndex::with_ordering(TokenOrdering::AscendingFrequencyOrder);
    index.index_document(1, "a a a b b c c d");
    let terms: Vec<String> = ["a", "b", "zzz", "c", "d", "b"].iter().map(|s| s.to_string()).collect();
    let ordered = index.order_tokens(&terms);
    assert_eq!(ordered, vec!["zzz", "d", "b", "c", "b", "a"]);
    assert_eq!(index.order_tokens(&Vec::new()), Vec::<String>::new());
    assert!(index.ordering() == TokenOrdering::AscendingFrequencyOrder);
}

#[test]
fn frequency_order_matches_the_reordered_terms_as_the_phrase() {
    let mut index = PositionalInvertedIndex::with_ordering(TokenOrdering::AscendingFrequencyOrder);
    index.index_document(1, "common rare");
    index.index_document(2, "rare common");
    index.index_document(3, "common");
    // "rare" is the rarer term, so both queries resolve the phrase "rare common".
    assert_eq!(index.search("common rare"), vec![2]);
    assert_eq!(index.search("rare common"), vec![2]);
    let natural = {
        let mut i = PositionalInvertedIndex::new();
        i.index_document(1, "common rare");
        i.index_document(2, "rare common");
        i.index_document(3, "common");
        i
    };
    assert_eq!(natural.search("common rare"), vec![1]);
    assert_eq!(natural.search("rare common"), vec![2]);
}

#[test]
fn resolve_takes_the_terms_as_they_are() {
    let mut index = PositionalInvertedIndex::new();
    index.index_document(3, "one two three");
    index.index_document(1, "two three one two");
    let phrase = vec!["one".to_string(), "two".to_string()];
    assert_eq!(index.resolve(&phrase), vec![1, 3]);
    assert_eq!(index.resolve(&Vec::new()), Vec::<usize>::new());
    assert_eq!(index.resolve(&vec!["One".to_string()]), Vec::<usize>::new());
}

#[test]
fn two_indexes_do_not_interfere() {
    let mut left = PositionalInvertedIndex::new();
    let mut right = PositionalInvertedIndex::new();
    left.index_document(1, "left only");
    right.index_document(2, "right only");
    assert_eq!(left.search("only"), vec![1]);
    assert_eq!(right.search("only"), vec![2]);
    assert_eq!(left.search("right"), Vec::<usize>::new());
}

#[test]
fn a_document_is_ingested_where_there_is_room() {
    let mut index = PositionalInvertedIndex::new();
    assert!(index.try_index_document(3, "room for this"));
    assert_eq!(index.occurrences(), 3);
    assert_eq!(index.search("for this"), vec![3]);
    assert!(index.try_index_document(4, ""));
    assert_eq!(index.occurrences(), 3);
}
