use positional_index::{PositionalInvertedIndex, Snapshot, TermSnapshot, TokenOrdering};

fn sample() -> PositionalInvertedIndex {
    let mut index = PositionalInvertedIndex::with_ordering(TokenOrdering::AscendingFrequencyOrder);
    index.index_document(2, "b a b");
    index.index_document(1, "a b c");
    index.index_document(2, "c");
    index
}

fn term(term: &str, frequency: usize, documents: Vec<(usize, Vec<usize>)>) -> TermSnapshot {
    TermSnapshot { term: term.to_string(), frequency, documents }
}

#[test]
fn a_snapshot_lists_terms_documents_and_positions() {
    let snap = sample().snapshot();
    assert!(snap.ordering == TokenOrdering::AscendingFrequencyOrder);
    assert_eq!(snap.terms.len(), 3);
    assert_eq!(snap.terms[0].term, "b");
    assert_eq!(snap.terms[0].frequency, 3);
    assert_eq!(snap.terms[0].documents, vec![(2, vec![0, 2]), (1, vec![1])]);
    assert_eq!(snap.terms[1].term, "a");
    assert_eq!(snap.terms[1].frequency, 2);
    assert_eq!(snap.terms[1].documents, vec![(2, vec![1]), (1, vec![0])]);
    assert_eq!(snap.terms[2].term, "c");
    assert_eq!(snap.terms[2].frequency, 2);
    assert_eq!(snap.terms[2].documents, vec![(1, vec![2]), (2, vec![0])]);
    assert!(PositionalInvertedIndex::new().snapshot().terms.is_empty());
}

#[test]
fn restoring_a_snapshot_gives_the_index_back() {
    let index = sample();
    let copy = PositionalInvertedIndex::restore(&index.snapshot()).unwrap();
    assert!(copy.ordering() == index.ordering());
    assert_eq!(copy.occurrences(), index.occurrences());
    assert_eq!(copy.vocabulary_size(), index.vocabulary_size());
    assert_eq!(copy.frequencies(), index.frequencies());
    for term in ["a", "b", "c", "d"] {
        assert_eq!(copy.frequency(term), index.frequency(term));
        for doc in 0..4 {
            assert_eq!(copy.positions(term, doc), index.positions(term, doc));
        }
    }
    for query in ["a", "b", "c", "a b", "b a", "b c", "c b", "a b c", "d", ""] {
        assert_eq!(copy.search(query), index.search(query));
    }
    assert_eq!(
        copy.approximate_posting_list_sizes_in_bytes(),
        index.approximate_posting_list_sizes_in_bytes()
    );
    assert_eq!(copy.approximate_term_list_size_in_bytes(), index.approximate_term_list_size_in_bytes());
    let again = copy.snapshot();
    let first = index.snapshot();
    assert_eq!(again.terms.len(), first.terms.len());
    for (a, b) in again.terms.iter().zip(first.terms.iter()) {
        assert_eq!(a.term, b.term);
        assert_eq!(a.frequency, b.frequency);
        assert_eq!(a.documents, b.documents);
    }
}

#[test]
fn the_empty_snapshot_gives_an_empty_index() {
    let snap = Snapshot { terms: Vec::new(), ordering: TokenOrdering::TokenOrder };
    let index = PositionalInvertedIndex::restore(&snap).unwrap();
    assert!(index.is_empty());
    assert_eq!(index.occurrences(), 0);
}

#[test]
fn a_snapshot_that_no_index_produced_is_refused() {
    let ordering = TokenOrdering::TokenOrder;
    let good = Snapshot { terms: vec![term("a", 2, vec![(1, vec![0, 3])]), term("b", 1, vec![(4, vec![2])])], ordering };
    assert!(PositionalInvertedIndex::restore(&good).is_some());
    let twice = Snapshot { terms: vec![term("a", 1, vec![(1, vec![0])]), term("a", 1, vec![(2, vec![0])])], ordering };
    assert!(PositionalInvertedIndex::restore(&twice).is_none());
    let no_document = Snapshot { terms: vec![term("a", 0, vec![])], ordering };
    assert!(PositionalInvertedIndex::restore(&no_document).is_none());
    let no_position = Snapshot { terms: vec![term("a", 1, vec![(1, vec![0]), (2, vec![])])], ordering };
    assert!(PositionalInvertedIndex::restore(&no_position).is_none());
    let document_twice = Snapshot { terms: vec![term("a", 2, vec![(1, vec![0]), (1, vec![1])])], ordering };
    assert!(PositionalInvertedIndex::restore(&document_twice).is_none());
    let wrong_frequency = Snapshot { terms: vec![term("a", 3, vec![(1, vec![0, 3])])], ordering };
    assert!(PositionalInvertedIndex::restore(&wrong_frequency).is_none());
}

#[test]
fn positions_of_a_snapshot_need_not_ascend() {
    let snap = Snapshot {
        terms: vec![term("a", 3, vec![(1, vec![5, 0, 3])]), term("b", 3, vec![(1, vec![6, 1, 4])])],
        ordering: TokenOrdering::TokenOrder,
    };
    let index = PositionalInvertedIndex::restore(&snap).unwrap();
    assert_eq!(index.positions("a", 1), vec![5, 0, 3]);
    assert_eq!(index.search("a b"), vec![1]);
    assert_eq!(index.search("b a"), vec![1]);
    assert_eq!(index.search("a a"), Vec::<usize>::new());
}
