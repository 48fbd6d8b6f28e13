use positional_index::{PositionalInvertedIndex, TokenOrdering};

#[test]
fn test_new() {
    let index = PositionalInvertedIndex::new();
    assert!(index.is_empty());
}

#[test]
fn test_index_single_document() {
    let mut index = PositionalInvertedIndex::new();
    index.index_document(1, "hello world");
    assert_eq!(index.positions("hello", 1), vec![0]);
    assert_eq!(index.positions("world", 1), vec![1]);
}

#[test]
fn test_index_multiple_documents() {
    let mut index = PositionalInvertedIndex::new();
    index.index_document(1, "hello world");
    index.index_document(2, "world of rust");
    assert_eq!(index.positions("world", 1), vec![1]);
    assert_eq!(index.positions("world", 2), vec![0]);
    assert_eq!(index.positions("rust", 2), vec![2]);
}

#[test]
fn test_search_nonpresent_token() {
    let mut index = PositionalInvertedIndex::new();
    index.index_document(1, "hello world");
    index.index_document(2, "world of rust");
    let results = index.search("foo");
    assert_eq!(results.len(), 0);
}

#[test]
fn test_search_single_token() {
    let mut index = PositionalInvertedIndex::new();
    index.index_document(1, "hello world");
    index.index_document(2, "world of rust");
    let results = index.search("world");
    assert_eq!(results, vec![1, 2]);
}

#[test]
fn test_search_multi_token_single_result() {
    let mut index = PositionalInvertedIndex::new();
    index.index_document(1, "hello world");
    index.index_document(2, "world of rust");
    let results = index.search("hello world");
    assert_eq!(results, vec![1]);
}

#[test]
fn test_search_multi_token_multi_result_simple() {
    let mut index = PositionalInvertedIndex::new();
    index.index_document(1, "hello world hello rust");
    index.index_document(2, "world of hell rust hello");
    index.index_document(3, "hello rust");
    let results1 = index.search("hello rust");
    assert_eq!(results1, vec![1, 3]);
    let results2 = index.search("hell");
    assert_eq!(results2, vec![2]);
}

#[test]
fn test_search_multi_token_multi_result_complex() {
    let mut index = PositionalInvertedIndex::new();
    index.index_document(1, "This is a longer string with more tokens than any other test case");
    index.index_document(2, "This is another long string with many more tokens so many tokens Look how many");
    index.index_document(3, "And finally we have a third document with a few tokens but still many tokens relatively");
    let results1 = index.search("many tokens");
    assert_eq!(results1, vec![2, 3]);
}

#[test]
fn test_empty_index_term_list_size() {
    let index = PositionalInvertedIndex::new();
    assert!(index.approximate_term_list_size_in_bytes() > 0);
    assert!(index.approximate_term_list_size_in_bytes() < 100);
}

#[test]
fn test_increasing_size_increases_term_list_size() {
    let mut index = PositionalInvertedIndex::new();
    let initial_size = index.approximate_term_list_size_in_bytes();

    index.index_document(1, "test document one");
    let first_size = index.approximate_term_list_size_in_bytes();
    assert!(first_size > initial_size);

    index.index_document(2, "another test document");
    let second_size = index.approximate_term_list_size_in_bytes();
    assert!(second_size > first_size);
}

#[test]
fn test_term_list_size_is_reasonable_for_large_index() {
    let mut index = PositionalInvertedIndex::new();
    for i in 1..=1000 {
        index.index_document(i, "some repetitive test document content");
    }

    let size = index.approximate_term_list_size_in_bytes();
    assert!(size < 1000000);
}

#[test]
fn test_empty_index_posting_list_sizes() {
    let index = PositionalInvertedIndex::new();
    assert!(index.approximate_posting_list_sizes_in_bytes().is_empty());
}

#[test]
fn test_single_term_posting_list_size() {
    let mut index = PositionalInvertedIndex::new();
    index.index_document(1, "test");
    let sizes = index.approximate_posting_list_sizes_in_bytes();
    assert_eq!(sizes.len(), 1);
    assert!(sizes[0] > 0);
}

#[test]
fn test_multiple_terms_correct_number_of_posting_list_sizes() {
    let mut index = PositionalInvertedIndex::new();
    index.index_document(1, "test document");
    index.index_document(2, "another test document");
    let sizes = index.approximate_posting_list_sizes_in_bytes();
    assert_eq!(sizes.len(), 3);
}

#[test]
fn test_multiple_documents_multiple_terms_correct_number_of_posting_list_sizes() {
    let mut index = PositionalInvertedIndex::new();
    index.index_document(1, "test document");
    index.index_document(2, "another test document");

    let sizes = index.approximate_posting_list_sizes_in_bytes();
    assert_eq!(sizes.len(), 3);
}

#[test]
fn test_posting_list_sizes_sorted() {
    let mut index = PositionalInvertedIndex::new();
    index.index_document(1, "test document");
    index.index_document(2, "another test document");

    let sizes = index.approximate_posting_list_sizes_in_bytes();
    assert!(sizes[0] <= sizes[1]);
    assert!(sizes[1] <= sizes[2]);
}

#[test]
fn test_increasing_size_increases_posting_list_sizes() {
    let mut index = PositionalInvertedIndex::new();
    index.index_document(1, "a document");
    index.index_document(2, "a bit longer document");

    let initial_sizes = index.approximate_posting_list_sizes_in_bytes();
    assert!(initial_sizes[0] <= initial_sizes[1]);

    index.index_document(3, "a bit longer document");
    index.index_document(4, "a bit longer document");

    let final_sizes = index.approximate_posting_list_sizes_in_bytes();

    for i in 0..3 {
        assert!(initial_sizes[i] < final_sizes[i]);
    }
}

#[test]
fn test_get_random_terms_count() {
    let mut index = PositionalInvertedIndex::new();
    index.index_document(1, "apple orange banana");
    index.index_document(2, "apple banana");

    let random_terms = index.get_random_terms(2);
    assert_eq!(random_terms.len(), 2);
}

#[test]
fn test_get_random_terms_distribution() {
    let mut index = PositionalInvertedIndex::new();
    index.index_document(1, "apple apple apple orange banana");
    index.index_document(2, "banana apple");

    let mut apple_count = 0;
    let total_count = 1000;
    for _ in 0..total_count {
        let random_terms = index.get_random_terms(1);
        if random_terms.contains_key("apple") {
            apple_count += 1;
        }
    }

    assert!(apple_count > total_count / 3);
}

#[test]
fn test_get_random_terms_correct_weights() {
    let mut index = PositionalInvertedIndex::new();
    index.index_document(1, "apple apple apple orange banana");
    index.index_document(2, "banana apple");

    let random_terms = index.get_random_terms(10);

    assert!(*random_terms.get("apple").unwrap() == 4);
    assert!(*random_terms.get("orange").unwrap() == 1);
    assert!(*random_terms.get("banana").unwrap() == 2);
}

#[test]
fn test_get_random_terms_with_empty_index() {
    let index = PositionalInvertedIndex::new();
    let random_terms = index.get_random_terms(2);
    assert!(random_terms.is_empty());
}

#[test]
fn test_get_random_terms_more_than_unique_terms() {
    let mut index = PositionalInvertedIndex::new();
    index.index_document(1, "apple orange");

    let random_terms = index.get_random_terms(5);
    assert_eq!(random_terms.len(), 2);
}

#[test]
fn test_posting_list_sizes_by_term_empty_index() {
    let index = PositionalInvertedIndex::new();
    assert!(index.approximate_posting_list_sizes_in_bytes_by_term().is_empty());
}

#[test]
fn test_posting_list_sizes_by_term_single_term_index() {
    let mut index = PositionalInvertedIndex::new();
    index.index_document(1, "term1");
    let sizes = index.approximate_posting_list_sizes_in_bytes_by_term();
    assert!(sizes.get("term1").unwrap() > &(0 as usize));
}

#[test]
fn test_posting_list_sizes_by_term_multiple_terms() {
    let mut index = PositionalInvertedIndex::new();
    index.index_document(1, "apple orange");
    index.index_document(1, "apple orange banana");
    let sizes = index.approximate_posting_list_sizes_in_bytes_by_term();
    assert_eq!(sizes.get("apple").unwrap(), sizes.get("orange").unwrap());
    assert!(sizes.get("apple").unwrap() > sizes.get("banana").unwrap());
}

#[test]
fn test_get_tokens_with_regular_text() {
    let content = "Hello world";
    let tokens = PositionalInvertedIndex::get_tokens(content);
    assert_eq!(tokens, vec!["hello", "world"]);
}

#[test]
fn test_get_tokens_with_special_characters() {
    let content = "Hello, world!";
    let tokens = PositionalInvertedIndex::get_tokens(content);
    assert_eq!(tokens, vec!["hello", "world"]);
}

#[test]
fn test_get_tokens_with_numbers() {
    let content = "2024 is the year";
    let tokens = PositionalInvertedIndex::get_tokens(content);
    assert_eq!(tokens, vec!["2024", "is", "the", "year"]);
}

#[test]
fn test_get_tokens_with_mixed_characters() {
    let content = "Email@example.com is an,,, e-mail address!";
    let tokens = PositionalInvertedIndex::get_tokens(content);
    assert_eq!(tokens, vec!["emailexamplecom", "is", "an", "email", "address"]);
}

#[test]
fn test_get_tokens_with_empty_string() {
    let content = "";
    let tokens = PositionalInvertedIndex::get_tokens(content);
    assert!(tokens.is_empty());
}

#[test]
fn test_get_tokens_with_whitespace_only() {
    let content = "   ";
    let tokens = PositionalInvertedIndex::get_tokens(content);
    assert!(tokens.is_empty());
}

#[test]
fn test_order_tokens_token_order() {
    let index = PositionalInvertedIndex::with_ordering(TokenOrdering::TokenOrder);
    let tokens = vec!["apple".to_string(), "banana".to_string(), "apple".to_string()];
    let ordered_tokens = index.order_tokens(&tokens);
    assert_eq!(ordered_tokens, tokens);
}

#[test]
fn test_order_tokens_ascending_frequency_order() {
    let mut index = PositionalInvertedIndex::with_ordering(TokenOrdering::AscendingFrequencyOrder);

    // Index some documents to create frequencies
    index.index_document(1, "apple apple apple apple apple cherry");
    index.index_document(2, "banana cherry cherry");

    let tokens = vec!["apple".to_string(), "cherry".to_string(), "banana".to_string()];
    let ordered_tokens = index.order_tokens(&tokens);
    assert_eq!(ordered_tokens, vec!["banana".to_string(), "cherry".to_string(), "apple".to_string()]);
}
