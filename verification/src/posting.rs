//! Posting entries and posting lists: where one term occurs.

use crate::model::strictly_ascending;
use std::collections::HashMap;
use vstd::prelude::*;

verus! {

broadcast use vstd::std_specs::hash::group_hash_axioms;

/// The occurrences of one term in one document.
pub struct Posting {
    /// The document.
    pub doc_id: usize,
    /// The positions of the term in the document, in the order in which they
    /// were recorded.
    pub positions: Vec<usize>,
    /// Whether the positions are known to ascend strictly. They do until a
    /// document id is ingested again; lookups then fall back to a scan.
    pub sorted: bool,
}

impl Posting {
    /// An entry holds at least one position, and `sorted` is never wrongly set.
    pub open spec fn wf(&self) -> bool {
        &&& self.positions@.len() > 0
        &&& self.sorted ==> strictly_ascending(self.positions@)
    }

    /// The entry for a term seen for the first time in `doc_id`, at `pos`.
    pub fn first(doc_id: usize, pos: usize) -> (p: Posting)
        ensures
            p.wf(),
            p.doc_id == doc_id,
            p.positions@ == seq![pos],
    {
        let mut positions: Vec<usize> = Vec::new();
        positions.push(pos);
        assert(positions@ =~= seq![pos]);
        Posting { doc_id, positions, sorted: true }
    }

    /// Records one more position behind those that are there.
    pub fn append(&mut self, pos: usize)
        requires
            old(self).wf(),
        ensures
            final(self).wf(),
            final(self).doc_id == old(self).doc_id,
            final(self).positions@ == old(self).positions@.push(pos),
    {
        let n = self.positions.len();
        if self.positions[n - 1] >= pos {
            self.sorted = false;
        }
        self.positions.push(pos);
    }

    /// Whether `pos` is among the positions: a binary search where they are
    /// known to ascend, a scan where they are not.
    pub fn contains(&self, pos: usize) -> (found: bool)
        requires
            self.wf(),
        ensures
            found == self.positions@.contains(pos),
    {
        if self.sorted {
            let mut lo: usize = 0;
            let mut hi: usize = self.positions.len();
            while lo < hi
                invariant
                    lo <= hi <= self.positions@.len(),
                    strictly_ascending(self.positions@),
                    forall|k: int| 0 <= k < lo ==> self.positions@[k] < pos,
                    forall|k: int| hi <= k < self.positions@.len() ==> self.positions@[k] > pos,
                decreases hi - lo,
            {
                let mid = lo + (hi - lo) / 2;
                let at = self.positions[mid];
                if at == pos {
                    return true;
                } else if at < pos {
                    lo = mid + 1;
                } else {
                    hi = mid;
                }
            }
            false
        } else {
            let mut k: usize = 0;
            while k < self.positions.len()
                invariant
                    k <= self.positions@.len(),
                    forall|j: int| 0 <= j < k ==> self.positions@[j] != pos,
                decreases self.positions@.len() - k,
            {
                if self.positions[k] == pos {
                    return true;
                }
                k += 1;
            }
            false
        }
    }
}

/// The number of positions that the entries of `list` hold together.
pub open spec fn total_positions(list: Seq<Posting>) -> nat
    decreases list.len(),
{
    if list.len() == 0 {
        0
    } else {
        total_positions(list.drop_last()) + list.last().positions@.len()
    }
}

/// Replacing one entry changes the total by the difference of the two lengths.
pub proof fn lemma_total_positions_update(list: Seq<Posting>, j: int, p: Posting)
    requires
        0 <= j < list.len(),
    ensures
        total_positions(list.update(j, p)) == total_positions(list) - list[j].positions@.len()
            + p.positions@.len(),
    decreases list.len(),
{
    if j == list.len() - 1 {
        assert(list.update(j, p).drop_last() =~= list.drop_last());
    } else {
        assert(list.update(j, p).drop_last() =~= list.drop_last().update(j, p));
        lemma_total_positions_update(list.drop_last(), j, p);
    }
}

/// Every entry holds a position, so there are at least as many positions as entries.
pub proof fn lemma_total_positions_bound(list: Seq<Posting>)
    requires
        forall|j: int| 0 <= j < list.len() ==> (#[trigger] list[j]).wf(),
    ensures
        total_positions(list) >= list.len(),
    decreases list.len(),
{
    if list.len() > 0 {
        lemma_total_positions_bound(list.drop_last());
    }
}

/// One term of the vocabulary: its frequency and its posting list.
pub struct TermEntry {
    /// The term.
    pub term: String,
    /// The number of occurrences of the term in the corpus.
    pub frequency: usize,
    /// One entry per document that holds the term, in the order in which the
    /// documents were first seen.
    pub postings: Vec<Posting>,
    /// For every document that holds the term, the place of its entry in `postings`.
    pub by_doc: HashMap<usize, usize>,
}

impl TermEntry {
    /// A term has at least one entry, `by_doc` finds exactly the entries that
    /// are there, and the frequency is the number of positions in all of them.
    pub open spec fn wf(&self) -> bool {
        &&& self.postings@.len() > 0
        &&& self.by_doc@.dom().finite()
        &&& self.by_doc@.dom().len() == self.postings@.len()
        &&& forall|j: int|
            0 <= j < self.postings@.len() ==> {
                &&& (#[trigger] self.postings@[j]).wf()
                &&& self.by_doc@.contains_key(self.postings@[j].doc_id)
                &&& self.by_doc@[self.postings@[j].doc_id] == j
            }
        &&& forall|d: usize| #[trigger]
            self.by_doc@.contains_key(d) ==> {
                &&& self.by_doc@[d] < self.postings@.len()
                &&& self.postings@[self.by_doc@[d] as int].doc_id == d
            }
        &&& self.frequency == total_positions(self.postings@)
    }

    /// The posting list: document id, then positions.
    pub open spec fn list(&self) -> Map<usize, Seq<usize>> {
        Map::new(
            |d: usize| self.by_doc@.contains_key(d),
            |d: usize| self.postings@[self.by_doc@[d] as int].positions@,
        )
    }

    /// The entry for a term seen for the first time, at `pos` of `doc_id`.
    pub fn first(term: String, doc_id: usize, pos: usize) -> (e: TermEntry)
        ensures
            e.wf(),
            e.term == term,
            e.frequency == 1,
            e.list() == Map::<usize, Seq<usize>>::empty().insert(doc_id, seq![pos]),
    {
        let mut postings: Vec<Posting> = Vec::new();
        postings.push(Posting::first(doc_id, pos));
        let mut by_doc: HashMap<usize, usize> = HashMap::new();
        by_doc.insert(doc_id, 0);
        let e = TermEntry { term, frequency: 1, postings, by_doc };
        proof {
            assert(e.postings@.drop_last() =~= Seq::empty());
            assert(total_positions(e.postings@.drop_last()) == 0);
            assert(e.by_doc@.dom() =~= Set::empty().insert(doc_id));
            assert(e.list() =~= Map::<usize, Seq<usize>>::empty().insert(doc_id, seq![pos]));
        }
        e
    }

    /// The place in `postings` of the entry for `doc_id`, if there is one.
    pub fn find(&self, doc_id: usize) -> (at: Option<usize>)
        requires
            self.wf(),
        ensures
            match at {
                Some(j) => self.by_doc@.contains_key(doc_id) && j == self.by_doc@[doc_id] && j
                    < self.postings@.len() && self.postings@[j as int].doc_id == doc_id,
                None => !self.by_doc@.contains_key(doc_id),
            },
    {
        match self.by_doc.get(&doc_id) {
            Some(j) => Some(*j),
            None => None,
        }
    }

    /// Records one more occurrence of the term, at `pos` of `doc_id`.
    pub fn record(&mut self, doc_id: usize, pos: usize)
        requires
            old(self).wf(),
            old(self).frequency < usize::MAX,
        ensures
            final(self).wf(),
            final(self).term == old(self).term,
            final(self).frequency == old(self).frequency + 1,
            final(self).list() == old(self).list().insert(
                doc_id,
                (if old(self).list().contains_key(doc_id) {
                    old(self).list()[doc_id]
                } else {
                    Seq::empty()
                }).push(pos),
            ),
    {
        let ghost before = *self;
        match self.find(doc_id) {
            Some(j) => {
                self.postings[j].append(pos);
                proof {
                    lemma_total_positions_update(before.postings@, j as int, self.postings@[j as int]);
                    assert(self.postings@ =~= before.postings@.update(j as int, self.postings@[j as int]));
                }
            },
            None => {
                let n = self.postings.len();
                proof {
                    lemma_total_positions_bound(self.postings@);
                }
                self.by_doc.insert(doc_id, n);
                self.postings.push(Posting::first(doc_id, pos));
                proof {
                    assert(self.postings@.drop_last() =~= before.postings@);
                    assert(self.by_doc@.dom() =~= before.by_doc@.dom().insert(doc_id));
                }
            },
        }
        self.frequency += 1;
        proof {
            assert(self.list() =~= before.list().insert(
                doc_id,
                (if before.list().contains_key(doc_id) {
                    before.list()[doc_id]
                } else {
                    Seq::empty()
                }).push(pos),
            ));
        }
    }
}

} // verus!
