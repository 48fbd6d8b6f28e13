//! An in-memory positional inverted index with exact phrase search.
//!
//! Documents are split into normalized terms; for every term the index keeps,
//! per document, the positions at which the term occurs. A phrase query is
//! answered by intersecting those position lists under an adjacency
//! constraint.
//!
//! [`model`] says what an index holds and what its operations mean; [`idx`],
//! [`search`], [`size`], [`sample`] and [`snapshot`] hold the operations, each
//! with a contract over the model; [`laws`] proves what follows for every
//! index. [`text`] turns text into terms. [`query_tokens`], [`paragraphs`]
//! and [`analysis`] serve the tooling around an index.

pub mod analysis;
pub mod counting;
pub mod idx;
pub mod laws;
pub mod model;
pub mod paragraphs;
pub mod posting;
pub mod query_tokens;
pub mod sample;
pub mod search;
pub mod size;
pub mod snapshot;
pub mod text;

pub use idx::{PositionalInvertedIndex, MAX_OCCURRENCES};
pub use model::{IndexModel, TokenOrdering};
pub use query_tokens::{
    generate_queries, generate_queries_from_distribution, generate_queries_from_fixed_dictionary,
    pull_query_from_paragraph, QueryTokenDistribution,
};
pub use snapshot::{Snapshot, TermSnapshot};
