//! The index itself: construction, ingestion and lookups.

use crate::model::{naturals, sum, sum_nat, IndexModel, TokenOrdering};
use crate::posting::TermEntry;
use crate::text::{lemma_tokens_len, tokenize, tokens, views};
use vstd::hash_map::StringHashMap;
use vstd::prelude::*;
use vstd::string::StrSliceExecFns;

verus! {

/// The largest number of term occurrences that an index takes. Below it every
/// counter and every size estimate fits a machine word.
pub const MAX_OCCURRENCES: usize = usize::MAX / 64;

/// The sum of the frequencies of `entries`.
pub open spec fn total_frequency(entries: Seq<TermEntry>) -> nat
    decreases entries.len(),
{
    if entries.len() == 0 {
        0
    } else {
        total_frequency(entries.drop_last()) + entries.last().frequency as nat
    }
}

/// Replacing one entry changes the sum by the difference of the two frequencies.
pub proof fn lemma_total_frequency_update(entries: Seq<TermEntry>, i: int, e: TermEntry)
    requires
        0 <= i < entries.len(),
    ensures
        total_frequency(entries.update(i, e)) == total_frequency(entries) - entries[i].frequency
            + e.frequency,
    decreases entries.len(),
{
    if i == entries.len() - 1 {
        assert(entries.update(i, e).drop_last() =~= entries.drop_last());
    } else {
        assert(entries.update(i, e).drop_last() =~= entries.drop_last().update(i, e));
        lemma_total_frequency_update(entries.drop_last(), i, e);
    }
}

/// No entry has a frequency above the sum, and where no frequency is 0 there
/// are no more entries than the sum.
pub proof fn lemma_total_frequency_bounds(entries: Seq<TermEntry>)
    ensures
        forall|i: int| 0 <= i < entries.len() ==> (#[trigger] entries[i]).frequency
            <= total_frequency(entries),
        (forall|i: int| 0 <= i < entries.len() ==> (#[trigger] entries[i]).frequency > 0)
            ==> entries.len() <= total_frequency(entries),
    decreases entries.len(),
{
    if entries.len() > 0 {
        lemma_total_frequency_bounds(entries.drop_last());
        assert forall|i: int| 0 <= i < entries.len() implies (#[trigger] entries[i]).frequency
            <= total_frequency(entries) by {
            if i < entries.len() - 1 {
                assert(entries[i] == entries.drop_last()[i]);
            }
        }
        if forall|i: int| 0 <= i < entries.len() ==> (#[trigger] entries[i]).frequency > 0 {
            assert forall|i: int| 0 <= i < entries.drop_last().len() implies (
            #[trigger] entries.drop_last()[i]).frequency > 0 by {
                assert(entries.drop_last()[i] == entries[i]);
            }
            assert(entries.last() == entries[entries.len() - 1]);
        }
    }
}

/// A positional inverted index over a growing corpus of documents.
pub struct PositionalInvertedIndex {
    /// One entry per known term, in the order in which the terms were first seen.
    entries: Vec<TermEntry>,
    /// For every known term, the place of its entry in `entries`.
    by_term: StringHashMap<usize>,
    /// The number of occurrences recorded, over all terms.
    occurrences: usize,
    /// The order in which the terms of a query are resolved.
    ordering: TokenOrdering,
}

impl View for PositionalInvertedIndex {
    type V = IndexModel;

    closed spec fn view(&self) -> IndexModel {
        IndexModel {
            terms: Seq::new(self.entries@.len(), |i: int| self.entries@[i].term@),
            postings: Map::new(
                |t: Seq<char>| self.by_term@.contains_key(t),
                |t: Seq<char>| self.entries@[self.by_term@[t] as int].list(),
            ),
            frequencies: Map::new(
                |t: Seq<char>| self.by_term@.contains_key(t),
                |t: Seq<char>| self.entries@[self.by_term@[t] as int].frequency as nat,
            ),
            occurrences: self.occurrences as nat,
            ordering: self.ordering,
        }
    }
}

impl PositionalInvertedIndex {
    /// The invariant of the representation: `by_term` finds exactly the
    /// entries that are there, every entry is well formed, and `occurrences`
    /// is the sum of the frequencies and within [`MAX_OCCURRENCES`].
    pub closed spec fn wf(&self) -> bool {
        &&& forall|i: int|
            0 <= i < self.entries@.len() ==> {
                &&& (#[trigger] self.entries@[i]).wf()
                &&& self.by_term@.contains_key(self.entries@[i].term@)
                &&& self.by_term@[self.entries@[i].term@] == i
            }
        &&& forall|t: Seq<char>| #[trigger]
            self.by_term@.contains_key(t) ==> {
                &&& self.by_term@[t] < self.entries@.len()
                &&& self.entries@[self.by_term@[t] as int].term@ == t
            }
        &&& self.occurrences == total_frequency(self.entries@)
        &&& self.occurrences <= MAX_OCCURRENCES
    }

    /// A well-formed index has a model that satisfies [`IndexModel::inv`],
    /// holds at most [`MAX_OCCURRENCES`] occurrences, and knows as many terms
    /// as `terms` lists.
    pub proof fn lemma_wf(&self)
        requires
            self.wf(),
        ensures
            self@.inv(),
            self@.occurrences <= MAX_OCCURRENCES,
            self@.postings.dom().finite(),
            self@.postings.dom().len() == self@.terms.len(),
    {
        let m = self@;
        assert(m.terms.to_set() =~= m.postings.dom()) by {
            assert forall|t: Seq<char>| m.terms.to_set().contains(t) <==> m.postings.dom().contains(
                t,
            ) by {
                if m.postings.contains_key(t) {
                    assert(m.terms[self.by_term@[t] as int] == t);
                }
                if m.terms.contains(t) {
                    let i = choose|i: int| 0 <= i < m.terms.len() && m.terms[i] == t;
                    assert(self.entries@[i].wf());
                }
            }
        }
        assert(m.terms.no_duplicates()) by {
            assert forall|i: int, j: int|
                0 <= i < m.terms.len() && 0 <= j < m.terms.len() && i != j implies m.terms[i]
                != m.terms[j] by {
                assert(self.entries@[i].wf() && self.entries@[j].wf());
            }
        }
        m.terms.unique_seq_to_set();
        vstd::seq_lib::seq_to_set_is_finite(m.terms);
        lemma_total_frequency_bounds(self.entries@);
        assert forall|i: int| 0 <= i < self.entries@.len() implies (#[trigger] self.entries@[i]).frequency
            > 0 by {
            crate::posting::lemma_total_positions_bound(self.entries@[i].postings@);
        }
        assert forall|t: Seq<char>| m.terms.contains(t) <==> m.postings.contains_key(t) by {
            if m.postings.contains_key(t) {
                assert(m.terms[self.by_term@[t] as int] == t);
            }
        }
        assert(m.postings.dom() =~= m.frequencies.dom());
        assert forall|t: Seq<char>| #[trigger] m.postings.contains_key(t) implies {
            &&& m.frequencies[t] > 0
            &&& m.postings[t].dom().finite()
            &&& m.postings[t].dom().len() > 0
            &&& m.postings[t].dom().len() <= m.frequencies[t] <= m.occurrences
        } by {
            let e = self.entries@[self.by_term@[t] as int];
            assert(e.wf());
            assert(m.postings[t].dom() =~= e.by_doc@.dom());
            crate::posting::lemma_total_positions_bound(e.postings@);
        }
        assert forall|t: Seq<char>, d: usize|
            m.postings.contains_key(t) && #[trigger] m.postings[t].contains_key(d) implies m.postings[t][d].len()
            > 0 by {
            let e = self.entries@[self.by_term@[t] as int];
            assert(e.wf());
            assert(e.postings@[e.by_doc@[d] as int].wf());
        }
    }

    /// The number of occurrences is the sum of the frequencies of the known terms.
    pub proof fn lemma_occurrences(&self)
        requires
            self.wf(),
        ensures
            self@.occurrences == sum_nat(self@.term_frequencies()),
    {
        self.lemma_frequencies_upto(self.entries@.len() as int);
        assert(self.entries@.take(self.entries@.len() as int) =~= self.entries@);
        assert(self@.term_frequencies().take(self.entries@.len() as int)
            =~= self@.term_frequencies());
    }

    /// The frequencies of the first `k` entries add up to the same, read from
    /// the entries or from the model.
    proof fn lemma_frequencies_upto(&self, k: int)
        requires
            self.wf(),
            0 <= k <= self.entries@.len(),
        ensures
            total_frequency(self.entries@.take(k)) == sum_nat(self@.term_frequencies().take(k)),
        decreases k,
    {
        if k > 0 {
            self.lemma_frequencies_upto(k - 1);
            assert(self.entries@.take(k).drop_last() =~= self.entries@.take(k - 1));
            assert(self@.term_frequencies().take(k).drop_last() =~= self@.term_frequencies().take(
                k - 1,
            ));
            assert(self.entries@[k - 1].wf());
            assert(self@.term_frequencies().take(k).last() == self.entries@[k - 1].frequency);
        }
    }

    /// An empty index that resolves query terms in the order of the query.
    pub fn new() -> (index: Self)
        ensures
            index.wf(),
            index@ == IndexModel::empty(TokenOrdering::TokenOrder),
    {
        Self::with_ordering(TokenOrdering::TokenOrder)
    }

    /// An empty index that resolves query terms in the given order.
    pub fn with_ordering(ordering: TokenOrdering) -> (index: Self)
        ensures
            index.wf(),
            index@ == IndexModel::empty(ordering),
    {
        let index = PositionalInvertedIndex {
            entries: Vec::new(),
            by_term: StringHashMap::new(),
            occurrences: 0,
            ordering,
        };
        proof {
            assert(index@.terms =~= Seq::empty());
            assert(index@.postings =~= Map::empty());
            assert(index@.frequencies =~= Map::empty());
        }
        index
    }

    /// The order in which this index resolves the terms of a query.
    pub fn ordering(&self) -> (o: TokenOrdering)
        ensures
            o == self@.ordering,
    {
        self.ordering
    }

    /// The number of occurrences recorded so far, over all terms.
    pub fn occurrences(&self) -> (n: usize)
        ensures
            n == self@.occurrences,
    {
        self.occurrences
    }

    /// The number of known terms.
    pub fn vocabulary_size(&self) -> (n: usize)
        ensures
            n == self@.terms.len(),
    {
        self.entries.len()
    }

    /// Whether the index knows no term.
    pub fn is_empty(&self) -> (b: bool)
        ensures
            b == (self@.terms.len() == 0),
    {
        self.entries.len() == 0
    }

    /// The entry of the `i`-th known term.
    pub fn entry(&self, i: usize) -> (e: &TermEntry)
        requires
            self.wf(),
            i < self@.terms.len(),
        ensures
            e.wf(),
            e.term@ == self@.terms[i as int],
            self@.postings.contains_key(e.term@),
            self@.frequencies.contains_key(e.term@),
            e.list() == self@.postings[e.term@],
            e.frequency == self@.frequencies[e.term@],
            e.frequency <= self@.occurrences <= MAX_OCCURRENCES,
    {
        proof {
            lemma_total_frequency_bounds(self.entries@);
        }
        &self.entries[i]
    }

    /// The frequencies of the known terms, in the order in which the terms
    /// were first seen. Their sum is the number of occurrences.
    pub fn frequencies(&self) -> (out: Vec<usize>)
        requires
            self.wf(),
        ensures
            naturals(out@) == self@.term_frequencies(),
            sum(out@) == self@.occurrences,
    {
        let mut out: Vec<usize> = Vec::new();
        let mut i: usize = 0;
        assert(self.entries@.take(0) =~= Seq::empty());
        while i < self.entries.len()
            invariant
                i <= self.entries@.len(),
                self.wf(),
                out@.len() == i,
                forall|j: int| 0 <= j < i ==> out@[j] == (#[trigger] self.entries@[j]).frequency,
                sum(out@) == total_frequency(self.entries@.take(i as int)),
            decreases self.entries@.len() - i,
        {
            proof {
                assert(self.entries@.take(i + 1).drop_last() =~= self.entries@.take(i as int));
                assert(out@.push(self.entries@[i as int].frequency).drop_last() =~= out@);
            }
            out.push(self.entries[i].frequency);
            i += 1;
        }
        proof {
            assert(self.entries@.take(i as int) =~= self.entries@);
            assert forall|j: int| 0 <= j < out@.len() implies naturals(out@)[j]
                == self@.term_frequencies()[j] by {
                assert(self.entries@[j].wf());
            }
            assert(naturals(out@) =~= self@.term_frequencies());
        }
        out
    }

    /// The place of `term` among the known terms, if it is known.
    pub fn find_term(&self, term: &str) -> (at: Option<usize>)
        requires
            self.wf(),
        ensures
            match at {
                Some(i) => i < self@.terms.len() && self@.terms[i as int] == term@
                    && self@.postings.contains_key(term@),
                None => !self@.postings.contains_key(term@),
            },
    {
        match self.by_term.get(term) {
            Some(i) => Some(*i),
            None => None,
        }
    }

    /// The number of occurrences of `term` in the corpus; 0 for an unknown term.
    pub fn frequency(&self, term: &str) -> (n: usize)
        requires
            self.wf(),
        ensures
            n == self@.frequency(term@),
    {
        match self.find_term(term) {
            Some(i) => self.entry(i).frequency,
            None => 0,
        }
    }

    /// The positions recorded for `term` in document `doc_id`; empty where
    /// there are none.
    pub fn positions(&self, term: &str, doc_id: usize) -> (out: Vec<usize>)
        requires
            self.wf(),
        ensures
            out@ == self@.positions(term@, doc_id),
    {
        match self.find_term(term) {
            Some(i) => {
                let e = self.entry(i);
                match e.find(doc_id) {
                    Some(j) => e.postings[j].positions.clone(),
                    None => Vec::new(),
                }
            },
            None => Vec::new(),
        }
    }

    /// Records one occurrence of `term`, at position `pos` of document `doc_id`.
    fn record_term(&mut self, term: &String, doc_id: usize, pos: usize)
        requires
            old(self).wf(),
            old(self)@.occurrences < MAX_OCCURRENCES,
        ensures
            final(self).wf(),
            final(self)@ == old(self)@.record(doc_id, pos, term@),
    {
        let ghost before = *self;
        proof {
            lemma_total_frequency_bounds(self.entries@);
        }
        match self.find_term(term.as_str()) {
            Some(i) => {
                self.entries[i].record(doc_id, pos);
                proof {
                    let e = self.entries@[i as int];
                    assert(self.entries@ =~= before.entries@.update(i as int, e));
                    lemma_total_frequency_update(before.entries@, i as int, e);
                }
            },
            None => {
                let n = self.entries.len();
                self.by_term.insert(term.clone(), n);
                self.entries.push(TermEntry::first(term.clone(), doc_id, pos));
                proof {
                    assert(self.entries@.drop_last() =~= before.entries@);
                }
            },
        }
        self.occurrences += 1;
        proof {
            let after = self@;
            let want = before@.record(doc_id, pos, term@);
            assert(after.terms =~= want.terms);
            assert(after.frequencies =~= want.frequencies);
            assert(after.postings =~= want.postings);
        }
    }

    /// Ingests a document: every term of `content` is recorded at its
    /// zero-based position among the terms, in scan order. A document id that
    /// was ingested before is not replaced: the new positions are appended to
    /// those that are there.
    pub fn index_document(&mut self, doc_id: usize, content: &str)
        requires
            old(self).wf(),
            old(self)@.occurrences + content@.len() <= MAX_OCCURRENCES,
        ensures
            final(self).wf(),
            final(self)@ == old(self)@.ingest(doc_id, tokens(content@)),
    {
        let terms = tokenize(content);
        proof {
            lemma_tokens_len(content@);
        }
        let mut pos: usize = 0;
        while pos < terms.len()
            invariant
                pos <= terms@.len(),
                views(terms@) == tokens(content@),
                tokens(content@).len() <= content@.len(),
                self.wf(),
                self@ == old(self)@.ingest(doc_id, views(terms@).take(pos as int)),
                self@.occurrences == old(self)@.occurrences + pos,
                old(self)@.occurrences + content@.len() <= MAX_OCCURRENCES,
            decreases terms@.len() - pos,
        {
            proof {
                let next = views(terms@).take(pos + 1);
                assert(next.drop_last() =~= views(terms@).take(pos as int));
                assert(next.last() == terms@[pos as int]@);
            }
            self.record_term(&terms[pos], doc_id, pos);
            pos += 1;
        }
        proof {
            assert(views(terms@).take(pos as int) =~= views(terms@));
        }
    }

    /// Ingests a document where the index has room for it, and says whether
    /// it did; an index without room stays as it is.
    pub fn try_index_document(&mut self, doc_id: usize, content: &str) -> (done: bool)
        requires
            old(self).wf(),
        ensures
            final(self).wf(),
            done == (old(self)@.occurrences + content@.len() <= MAX_OCCURRENCES),
            done ==> final(self)@ == old(self)@.ingest(doc_id, tokens(content@)),
            !done ==> final(self)@ == old(self)@,
    {
        proof {
            self.lemma_wf();
        }
        if content.unicode_len() <= MAX_OCCURRENCES - self.occurrences {
            self.index_document(doc_id, content);
            true
        } else {
            false
        }
    }

    /// Records `positions`, in their order, as occurrences of `term` in
    /// document `doc_id`, behind those that are there. With this an index is
    /// rebuilt from what [`PositionalInvertedIndex::entry`] shows of another.
    pub fn restore_posting(&mut self, term: &str, doc_id: usize, positions: &Vec<usize>)
        requires
            old(self).wf(),
            old(self)@.occurrences + positions@.len() <= MAX_OCCURRENCES,
        ensures
            final(self).wf(),
            final(self)@ == old(self)@.record_all(doc_id, term@, positions@),
    {
        let owned = term.to_owned();
        let mut k: usize = 0;
        while k < positions.len()
            invariant
                k <= positions@.len(),
                owned@ == term@,
                self.wf(),
                self@ == old(self)@.record_all(doc_id, term@, positions@.take(k as int)),
                self@.occurrences == old(self)@.occurrences + k,
                old(self)@.occurrences + positions@.len() <= MAX_OCCURRENCES,
            decreases positions@.len() - k,
        {
            proof {
                assert(positions@.take(k + 1).drop_last() =~= positions@.take(k as int));
            }
            self.record_term(&owned, doc_id, positions[k]);
            k += 1;
        }
        proof {
            assert(positions@.take(k as int) =~= positions@);
        }
    }

    /// The terms of `content`, in the order in which they occur.
    pub fn get_tokens(content: &str) -> (out: Vec<String>)
        ensures
            views(out@) == tokens(content@),
    {
        tokenize(content)
    }
}

} // verus!
