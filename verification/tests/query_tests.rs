use positional_index::text::{join_words, leading_words, split_words};
use positional_index::{
    generate_queries, generate_queries_from_distribution, generate_queries_from_fixed_dictionary,
    pull_query_from_paragraph, PositionalInvertedIndex, QueryTokenDistribution,
};
use std::collections::HashMap;

#[test]
fn test_fixed_dictionary_generate_correct_number_of_queries() {
    let num_queries = 10;
    let max_tokens = 5;
    let queries = generate_queries_from_fixed_dictionary(num_queries, max_tokens);

    assert_eq!(queries.len(), num_queries);
}

#[test]
fn test_fixed_dictionary_query_length_within_range() {
    let num_queries = 10;
    let max_tokens = 3;
    let queries = generate_queries_from_fixed_dictionary(num_queries, max_tokens);

    for query in queries {
        let token_count = query.split_whitespace().count();
        assert!(token_count > 0 && token_count <= max_tokens);
    }
}

#[test]
fn test_fixed_dictionary_queries_not_empty() {
    let num_queries = 10;
    let max_tokens = 3;
    let queries = generate_queries_from_fixed_dictionary(num_queries, max_tokens);

    for query in queries {
        assert!(!query.is_empty());
    }
}

#[test]
fn test_distribution_basic_functionality() {
    let terms = vec![("term1".to_string(), 1), ("term2".to_string(), 1)];
    let queries = generate_queries_from_distribution(5, 3, &terms);
    assert_eq!(queries.len(), 5);
    for query in queries {
        assert!(query.split_whitespace().count() <= 3);
    }
}

#[test]
fn test_distribution_empty_terms() {
    let terms = Vec::new();
    let queries = generate_queries_from_distribution(5, 3, &terms);
    assert_eq!(queries.len(), 0);
}

#[test]
fn test_distribution_single_term() {
    let terms = vec![("single_term".to_string(), 1)];
    let queries = generate_queries_from_distribution(5, 3, &terms);
    let possible_results = vec!["single_term", "single_term single_term", "single_term single_term single_term"];
    for query in queries {
        assert!(possible_results.contains(&query.as_str()));
    }
}

#[test]
fn test_distribution_uniform_weights() {
    let terms = vec![("term1".to_string(), 1), ("term2".to_string(), 1)];
    let mut term_counts = HashMap::new();

    for _ in 0..1000 {
        let queries = generate_queries_from_distribution(10, 2, &terms);
        for query in queries {
            for term in query.split_whitespace() {
                let term = term.to_string();
                *term_counts.entry(term).or_insert(0) += 1;
            }
        }
    }

    let counts: Vec<usize> = term_counts.values().cloned().collect();
    let max_count = *counts.iter().max().unwrap();
    let min_count = *counts.iter().min().unwrap();
    assert!(max_count - min_count < max_count / 10);
}

#[test]
fn test_distribution_varying_weights() {
    let terms = vec![("common".to_string(), 10), ("rare".to_string(), 1)];
    let mut term_counts = HashMap::new();

    for _ in 0..1000 {
        let queries = generate_queries_from_distribution(10, 2, &terms);
        for query in queries {
            for term in query.split_whitespace() {
                let term = term.to_string();
                *term_counts.entry(term).or_insert(0) += 1;
            }
        }
    }

    let common_count = *term_counts.get("common").unwrap_or(&0);
    let rare_count = *term_counts.get("rare").unwrap_or(&0);
    assert!(common_count > rare_count);
}

#[test]
fn test_query_from_paragraph_basic_functionality() {
    let paragraph = "This is a test paragraph with several words";
    let queries = pull_query_from_paragraph(paragraph, 3, 4);
    assert_eq!(queries.len(), 3);
    for query in queries {
        println!("{}", query);
        assert!(paragraph.contains(&query));
    }
}

#[test]
fn test_query_from_paragraph_empty_paragraph() {
    let paragraph = "";
    let queries = pull_query_from_paragraph(paragraph, 3, 4);
    assert!(queries.iter().all(|query| query.is_empty()));
}

#[test]
fn test_query_from_paragraph_max_tokens_exceeding_paragraph_length() {
    let paragraph = "Short paragraph";
    let queries = pull_query_from_paragraph(paragraph, 3, 10);
    for query in queries {
        assert!(query.split_whitespace().count() <= 2);
        assert!(paragraph.contains(&query));
    }
}

#[test]
fn test_query_from_paragraph_num_queries_zero() {
    let paragraph = "This is a test paragraph with several words";
    let queries = pull_query_from_paragraph(paragraph, 0, 4);
    assert!(queries.is_empty());
}

#[test]
fn fixed_dictionary_queries_hold_different_dictionary_words() {
    let dictionary = ["The", "quantity", "respectable", "she", "announced"];
    for max_tokens in 1..9 {
        for query in generate_queries_from_fixed_dictionary(20, max_tokens) {
            let words: Vec<&str> = query.split(' ').collect();
            assert!(words.len() >= 1 && words.len() <= max_tokens.min(5));
            for (i, w) in words.iter().enumerate() {
                assert!(dictionary.contains(w));
                assert!(!words[..i].contains(w));
            }
        }
    }
    assert!(generate_queries_from_fixed_dictionary(0, 0).is_empty());
}

#[test]
fn distribution_queries_never_hold_a_term_of_weight_zero() {
    let terms = vec![("never".to_string(), 0), ("always".to_string(), 3), ("nor".to_string(), 0)];
    for query in generate_queries_from_distribution(50, 4, &terms) {
        let words: Vec<&str> = query.split(' ').collect();
        assert!(words.len() >= 1 && words.len() <= 4);
        assert!(words.iter().all(|w| *w == "always"));
    }
}

#[test]
fn paragraph_queries_are_runs_of_its_words() {
    let paragraph = "  one\ttwo \n three   four ";
    let runs = [
        "one", "two", "three", "four", "one two", "two three", "three four", "one two three",
        "two three four",
    ];
    for query in pull_query_from_paragraph(paragraph, 200, 3) {
        assert!(runs.contains(&query.as_str()));
    }
    assert!(pull_query_from_paragraph(" \n\t ", 5, 3).is_empty());
    assert!(pull_query_from_paragraph(" \n\t ", 5, 0).is_empty());
}

#[test]
fn words_are_split_at_white_space_and_joined_by_one_space() {
    let words = split_words(" a,b  C\u{3000}d\n");
    assert_eq!(words, vec!["a,b", "C", "d"]);
    assert_eq!(join_words(&words, 0, 3), "a,b C d");
    assert_eq!(join_words(&words, 1, 2), "C");
    assert_eq!(join_words(&words, 2, 2), "");
    assert_eq!(split_words(""), Vec::<String>::new());
}

#[test]
fn a_restored_index_answers_as_the_one_it_was_taken_from() {
    let mut index = PositionalInvertedIndex::new();
    index.index_document(2, "b a b");
    index.index_document(1, "a b c");
    index.index_document(2, "c");
    let mut copy = PositionalInvertedIndex::with_ordering(index.ordering());
    for i in 0..index.vocabulary_size() {
        let entry = index.entry(i);
        for posting in entry.postings.iter() {
            copy.restore_posting(&entry.term, posting.doc_id, &posting.positions);
        }
    }
    assert_eq!(copy.occurrences(), index.occurrences());
    assert_eq!(copy.frequencies(), index.frequencies());
    for term in ["a", "b", "c"] {
        for doc in 0..4 {
            assert_eq!(copy.positions(term, doc), index.positions(term, doc));
        }
    }
    for query in ["a", "b", "c", "a b", "b a", "b c", "a b c", "d"] {
        assert_eq!(copy.search(query), index.search(query));
    }
    assert_eq!(
        copy.approximate_posting_list_sizes_in_bytes(),
        index.approximate_posting_list_sizes_in_bytes()
    );
}

#[test]
fn distributions_compare_by_variant() {
    assert!(QueryTokenDistribution::Fixed == QueryTokenDistribution::Fixed);
    assert!(QueryTokenDistribution::Uniform != QueryTokenDistribution::FromDocument);
}

#[test]
fn queries_are_made_as_the_distribution_says() {
    let mut index = PositionalInvertedIndex::new();
    let paragraph = "alpha beta gamma beta";
    index.index_document(0, paragraph);
    let fixed = generate_queries(&index, QueryTokenDistribution::Fixed, paragraph, 6, 2);
    assert_eq!(fixed.len(), 6);
    let dictionary = ["The", "quantity", "respectable", "she", "announced"];
    for query in fixed {
        assert!(query.split(' ').all(|w| dictionary.contains(&w)));
    }
    let drawn = generate_queries(&index, QueryTokenDistribution::Uniform, paragraph, 6, 2);
    assert_eq!(drawn.len(), 6);
    for query in drawn {
        let words: Vec<&str> = query.split(' ').collect();
        assert!(words.len() >= 1 && words.len() <= 2);
        assert!(words.iter().all(|w| ["alpha", "beta", "gamma"].contains(w)));
    }
    let cut = generate_queries(&index, QueryTokenDistribution::FromDocument, paragraph, 6, 2);
    assert_eq!(cut.len(), 6);
    for query in cut {
        assert!(paragraph.contains(&query));
    }
    let empty = PositionalInvertedIndex::new();
    assert!(generate_queries(&empty, QueryTokenDistribution::Uniform, "", 6, 2).is_empty());
    assert!(generate_queries(&index, QueryTokenDistribution::Uniform, paragraph, 6, 0).is_empty());
    assert!(generate_queries(&index, QueryTokenDistribution::FromDocument, " ", 6, 0).is_empty());
}

#[test]
fn a_drawn_term_list_holds_different_terms_with_their_frequencies() {
    let mut index = PositionalInvertedIndex::new();
    index.index_document(1, "a a a b b c");
    for n in 0..6 {
        let list = index.get_random_term_list(n);
        assert_eq!(list.len(), n.min(3));
        for (i, (term, frequency)) in list.iter().enumerate() {
            assert_eq!(*frequency, index.frequency(term));
            assert!(*frequency > 0);
            assert!(list[..i].iter().all(|(t, _)| t != term));
        }
    }
}

#[test]
fn leading_words_are_the_first_chunks_joined() {
    assert_eq!(leading_words("  one  two\tthree four", 3), "one two three");
    assert_eq!(leading_words("one two", 7), "one two");
    assert_eq!(leading_words("one two", 0), "");
    assert_eq!(leading_words("", 7), "");
}
