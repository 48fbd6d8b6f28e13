//! The mathematical model of an index: what it holds, what ingesting a
//! document does to it, and which documents a phrase matches.

use vstd::prelude::*;

verus! {

/// The order in which the terms of a query are resolved.
#[derive(Clone, Copy, PartialEq, Eq, Debug, Structural)]
pub enum TokenOrdering {
    /// The terms are resolved in the order in which the query gives them.
    TokenOrder,
    /// The terms are resolved by ascending corpus frequency, rarest first;
    /// terms of equal frequency keep their order.
    AscendingFrequencyOrder,
}

/// What an index holds: for every term the positions at which it occurs in
/// every document, and the number of its occurrences in the whole corpus.
pub struct IndexModel {
    /// The known terms, in the order in which they were first seen.
    pub terms: Seq<Seq<char>>,
    /// Term, then document id, then the positions in the order in which they
    /// were recorded.
    pub postings: Map<Seq<char>, Map<usize, Seq<usize>>>,
    /// Term, then the number of its occurrences.
    pub frequencies: Map<Seq<char>, nat>,
    /// The number of occurrences recorded, over all terms.
    pub occurrences: nat,
    /// The order in which the terms of a query are resolved.
    pub ordering: TokenOrdering,
}

impl IndexModel {
    /// The index that holds nothing.
    pub open spec fn empty(ordering: TokenOrdering) -> Self {
        IndexModel {
            terms: Seq::empty(),
            postings: Map::empty(),
            frequencies: Map::empty(),
            occurrences: 0,
            ordering,
        }
    }

    /// The positions recorded for `term` in document `doc`; empty where there are none.
    pub open spec fn positions(self, term: Seq<char>, doc: usize) -> Seq<usize> {
        if self.postings.contains_key(term) && self.postings[term].contains_key(doc) {
            self.postings[term][doc]
        } else {
            Seq::empty()
        }
    }

    /// The number of occurrences of `term` in the corpus; 0 for an unknown term.
    pub open spec fn frequency(self, term: Seq<char>) -> nat {
        if self.frequencies.contains_key(term) {
            self.frequencies[term]
        } else {
            0
        }
    }

    /// The posting list of `term`; empty for an unknown term.
    pub open spec fn posting_list(self, term: Seq<char>) -> Map<usize, Seq<usize>> {
        if self.postings.contains_key(term) {
            self.postings[term]
        } else {
            Map::empty()
        }
    }

    /// The index after one more occurrence of `term`, at position `pos` of document `doc`.
    pub open spec fn record(self, doc: usize, pos: usize, term: Seq<char>) -> Self {
        IndexModel {
            terms: if self.postings.contains_key(term) {
                self.terms
            } else {
                self.terms.push(term)
            },
            postings: self.postings.insert(
                term,
                self.posting_list(term).insert(doc, self.positions(term, doc).push(pos)),
            ),
            frequencies: self.frequencies.insert(term, self.frequency(term) + 1),
            occurrences: self.occurrences + 1,
            ordering: self.ordering,
        }
    }

    /// The index after the document `doc`, whose terms are `terms`, has been
    /// ingested: every term is recorded at its zero-based position, in order.
    pub open spec fn ingest(self, doc: usize, terms: Seq<Seq<char>>) -> Self
        decreases terms.len(),
    {
        if terms.len() == 0 {
            self
        } else {
            self.ingest(doc, terms.drop_last()).record(
                doc,
                (terms.len() - 1) as usize,
                terms.last(),
            )
        }
    }

    /// The index after `positions` have been recorded, in their order, as
    /// occurrences of `term` in document `doc`.
    pub open spec fn record_all(self, doc: usize, term: Seq<char>, positions: Seq<usize>) -> Self
        decreases positions.len(),
    {
        if positions.len() == 0 {
            self
        } else {
            self.record_all(doc, term, positions.drop_last()).record(doc, positions.last(), term)
        }
    }

    /// What holds of every index that ingestion can produce: `terms` lists
    /// every known term once, the two tables know the same terms, every known
    /// term has a document, every posting entry holds a position, and no
    /// frequency is 0.
    pub open spec fn inv(self) -> bool {
        &&& self.terms.no_duplicates()
        &&& forall|t: Seq<char>| self.terms.contains(t) <==> self.postings.contains_key(t)
        &&& self.postings.dom() == self.frequencies.dom()
        &&& self.terms.len() <= self.occurrences
        &&& forall|t: Seq<char>| #[trigger]
            self.postings.contains_key(t) ==> {
                &&& self.frequencies[t] > 0
                &&& self.postings[t].dom().finite()
                &&& self.postings[t].dom().len() > 0
                &&& self.postings[t].dom().len() <= self.frequencies[t] <= self.occurrences
            }
        &&& forall|t: Seq<char>, d: usize|
            self.postings.contains_key(t) && #[trigger] self.postings[t].contains_key(d)
                ==> self.postings[t][d].len() > 0
    }

    /// Whether `term` occurs at position `p` of document `doc`.
    pub open spec fn occurs_at(self, term: Seq<char>, doc: usize, p: int) -> bool {
        0 <= p <= usize::MAX && self.positions(term, doc).contains(p as usize)
    }

    /// Whether the `i`-th term of `q` occurs in `doc` at distance `i` from `start`.
    pub open spec fn aligned(self, q: Seq<Seq<char>>, doc: usize, start: usize, i: int) -> bool {
        self.occurs_at(q[i], doc, start + i)
    }

    /// Whether the terms of `q` occur in `doc` one after the other, the first
    /// of them at `start`.
    pub open spec fn is_start(self, q: Seq<Seq<char>>, doc: usize, start: usize) -> bool {
        forall|i: int| 0 <= i < q.len() ==> #[trigger] self.aligned(q, doc, start, i)
    }

    /// Whether document `doc` holds the terms of `q` as a phrase. No document
    /// holds the empty phrase.
    pub open spec fn matches(self, q: Seq<Seq<char>>, doc: usize) -> bool {
        q.len() > 0 && exists|start: usize| self.is_start(q, doc, start)
    }

    /// `sorted` with `term` put behind the last entry whose frequency is not
    /// greater than its own.
    pub open spec fn insert_by_frequency(self, sorted: Seq<Seq<char>>, term: Seq<char>) -> Seq<
        Seq<char>,
    >
        decreases sorted.len(),
    {
        if sorted.len() == 0 {
            seq![term]
        } else if self.frequency(sorted.last()) <= self.frequency(term) {
            sorted.push(term)
        } else {
            self.insert_by_frequency(sorted.drop_last(), term).push(sorted.last())
        }
    }

    /// `terms` by ascending frequency; terms of equal frequency keep their order.
    pub open spec fn by_frequency(self, terms: Seq<Seq<char>>) -> Seq<Seq<char>>
        decreases terms.len(),
    {
        if terms.len() == 0 {
            Seq::empty()
        } else {
            self.insert_by_frequency(self.by_frequency(terms.drop_last()), terms.last())
        }
    }

    /// The terms of a query in the order in which this index resolves them.
    pub open spec fn ordered(self, terms: Seq<Seq<char>>) -> Seq<Seq<char>> {
        match self.ordering {
            TokenOrdering::TokenOrder => terms,
            TokenOrdering::AscendingFrequencyOrder => self.by_frequency(terms),
        }
    }

    /// The documents that a query with the terms `terms` finds.
    ///
    /// The phrase that is matched is the query's terms in the order in which
    /// they are resolved. Under [`TokenOrdering::AscendingFrequencyOrder`]
    /// that is the reordered sequence, not the phrase as it was typed: the
    /// distance of a term from the start of a match is its place after
    /// reordering.
    pub open spec fn search(self, terms: Seq<Seq<char>>) -> Set<usize> {
        Set::new(|doc: usize| self.matches(self.ordered(terms), doc))
    }

    /// The estimated size in bytes of the posting list of `term`: one word
    /// for every position and one more for every document.
    pub open spec fn posting_bytes(self, term: Seq<char>) -> nat {
        (self.frequency(term) + self.posting_list(term).dom().len()) * WORD_BYTES as nat
    }

    /// The estimated sizes of the posting lists, term by term in the order of `terms`.
    pub open spec fn term_sizes(self) -> Seq<usize> {
        Seq::new(self.terms.len(), |i: int| self.posting_bytes(self.terms[i]) as usize)
    }

    /// The estimated size in bytes of the two term tables: a fixed overhead
    /// for each, and for every term its key in both, four bytes of text in
    /// the first and a counter in the second.
    pub open spec fn term_table_bytes(self) -> nat {
        2 * TABLE_BYTES as nat + self.terms.len() * (KEY_BYTES + AVERAGE_TERM_BYTES) as nat
            + self.terms.len() * (KEY_BYTES + WORD_BYTES) as nat
    }

    /// The frequencies of the known terms, in the order of `terms`.
    pub open spec fn term_frequencies(self) -> Seq<nat> {
        Seq::new(self.terms.len(), |i: int| self.frequency(self.terms[i]))
    }
}

/// The bytes of a machine word, by which positions and document ids are counted.
pub const WORD_BYTES: usize = 8;

/// The bytes that an empty table is taken to occupy.
pub const TABLE_BYTES: usize = 48;

/// The bytes that the key of a table entry is taken to occupy, its text not counted.
pub const KEY_BYTES: usize = 24;

/// The bytes that the text of a term is taken to occupy on average.
pub const AVERAGE_TERM_BYTES: usize = 4;

/// The sum of the numbers of `s`.
pub open spec fn sum(s: Seq<usize>) -> nat
    decreases s.len(),
{
    if s.len() == 0 {
        0
    } else {
        sum(s.drop_last()) + s.last() as nat
    }
}

/// The sum of the numbers of `s`.
pub open spec fn sum_nat(s: Seq<nat>) -> nat
    decreases s.len(),
{
    if s.len() == 0 {
        0
    } else {
        sum_nat(s.drop_last()) + s.last()
    }
}

/// The numbers of `s` as natural numbers.
pub open spec fn naturals(s: Seq<usize>) -> Seq<nat> {
    Seq::new(s.len(), |i: int| s[i] as nat)
}

/// Whether the numbers of `s` strictly ascend.
pub open spec fn strictly_ascending(s: Seq<usize>) -> bool {
    forall|i: int, j: int| 0 <= i < j < s.len() ==> s[i] < s[j]
}

/// Whether the numbers of `s` ascend; equal neighbours are allowed.
pub open spec fn ascending(s: Seq<usize>) -> bool {
    forall|i: int, j: int| 0 <= i <= j < s.len() ==> s[i] <= s[j]
}

} // verus!
