//! The snapshot of an index: plain data that holds all of it, and from which
//! it is rebuilt.

use crate::idx::{PositionalInvertedIndex, MAX_OCCURRENCES};
use crate::model::{sum_nat, IndexModel, TokenOrdering};
use crate::posting::{total_positions, TermEntry};
use vstd::prelude::*;

verus! {

/// One term of a snapshot.
pub struct TermSnapshot {
    /// The term.
    pub term: String,
    /// The number of its occurrences.
    pub frequency: usize,
    /// For every document that holds the term, its id and the positions of the term.
    pub documents: Vec<(usize, Vec<usize>)>,
}

/// All of an index as plain data.
pub struct Snapshot {
    /// The known terms, in the order in which they were first seen.
    pub terms: Vec<TermSnapshot>,
    /// The order in which the terms of a query are resolved.
    pub ordering: TokenOrdering,
}

/// What one term of a snapshot holds.
pub struct TermRecord {
    /// The characters of the term.
    pub term: Seq<char>,
    /// The number of its occurrences.
    pub frequency: nat,
    /// Document id and positions, document by document.
    pub documents: Seq<(usize, Seq<usize>)>,
}

/// What a list of documents with positions holds.
pub open spec fn documents_of(list: Seq<(usize, Vec<usize>)>) -> Seq<(usize, Seq<usize>)> {
    Seq::new(list.len(), |j: int| (list[j].0, list[j].1@))
}

/// What the terms of a snapshot hold.
pub open spec fn records(terms: Seq<TermSnapshot>) -> Seq<TermRecord> {
    Seq::new(
        terms.len(),
        |i: int|
            TermRecord {
                term: terms[i].term@,
                frequency: terms[i].frequency as nat,
                documents: documents_of(terms[i].documents@),
            },
    )
}

/// The index after the positions of `term` in each of `documents` have been
/// recorded, document by document.
pub open spec fn replay_documents(
    m: IndexModel,
    term: Seq<char>,
    documents: Seq<(usize, Seq<usize>)>,
) -> IndexModel
    decreases documents.len(),
{
    if documents.len() == 0 {
        m
    } else {
        replay_documents(m, term, documents.drop_last()).record_all(
            documents.last().0,
            term,
            documents.last().1,
        )
    }
}

/// The index after every term of `list` has been recorded, term by term.
pub open spec fn replay(m: IndexModel, list: Seq<TermRecord>) -> IndexModel
    decreases list.len(),
{
    if list.len() == 0 {
        m
    } else {
        replay_documents(replay(m, list.drop_last()), list.last().term, list.last().documents)
    }
}

/// Whether `documents` can be recorded for `term` on top of `m`: every
/// document has a position, none comes twice, and the index has room.
pub open spec fn documents_fit(
    m: IndexModel,
    term: Seq<char>,
    documents: Seq<(usize, Seq<usize>)>,
) -> bool
    decreases documents.len(),
{
    if documents.len() == 0 {
        true
    } else {
        let before = replay_documents(m, term, documents.drop_last());
        &&& documents_fit(m, term, documents.drop_last())
        &&& documents.last().1.len() > 0
        &&& !before.posting_list(term).contains_key(documents.last().0)
        &&& before.occurrences + documents.last().1.len() <= MAX_OCCURRENCES
    }
}

/// Whether `list` can be recorded on top of `m`: no term comes twice, every
/// term has a document, its documents fit, and its frequency is the number of
/// its positions.
pub open spec fn records_fit(m: IndexModel, list: Seq<TermRecord>) -> bool
    decreases list.len(),
{
    if list.len() == 0 {
        true
    } else {
        let before = replay(m, list.drop_last());
        let last = list.last();
        &&& records_fit(m, list.drop_last())
        &&& !before.postings.contains_key(last.term)
        &&& last.documents.len() > 0
        &&& documents_fit(before, last.term, last.documents)
        &&& replay_documents(before, last.term, last.documents).frequency(last.term)
            == last.frequency
    }
}

/// Documents that fit still fit when the last of them are left out.
pub proof fn lemma_documents_fit_prefix(
    m: IndexModel,
    term: Seq<char>,
    documents: Seq<(usize, Seq<usize>)>,
    k: int,
)
    requires
        0 <= k <= documents.len(),
        documents_fit(m, term, documents),
    ensures
        documents_fit(m, term, documents.take(k)),
    decreases documents.len(),
{
    if k == documents.len() {
        assert(documents.take(k) =~= documents);
    } else {
        assert(documents.drop_last().take(k) =~= documents.take(k));
        lemma_documents_fit_prefix(m, term, documents.drop_last(), k);
    }
}

/// Records that fit still fit when the last of them are left out.
pub proof fn lemma_records_fit_prefix(m: IndexModel, list: Seq<TermRecord>, k: int)
    requires
        0 <= k <= list.len(),
        records_fit(m, list),
    ensures
        records_fit(m, list.take(k)),
    decreases list.len(),
{
    if k == list.len() {
        assert(list.take(k) =~= list);
    } else {
        assert(list.drop_last().take(k) =~= list.take(k));
        lemma_records_fit_prefix(m, list.drop_last(), k);
    }
}

/// The number of positions that `documents` hold together.
pub open spec fn total_len(documents: Seq<(usize, Seq<usize>)>) -> nat
    decreases documents.len(),
{
    if documents.len() == 0 {
        0
    } else {
        total_len(documents.drop_last()) + documents.last().1.len()
    }
}

/// The posting list that `documents` make: document id, then positions.
pub open spec fn posting_list_of(documents: Seq<(usize, Seq<usize>)>) -> Map<usize, Seq<usize>>
    decreases documents.len(),
{
    if documents.len() == 0 {
        Map::empty()
    } else {
        posting_list_of(documents.drop_last()).insert(documents.last().0, documents.last().1)
    }
}

/// Whether one of `documents` has the id `d`.
pub open spec fn has_document(documents: Seq<(usize, Seq<usize>)>, d: usize) -> bool {
    exists|j: int| 0 <= j < documents.len() && (#[trigger] documents[j]).0 == d
}

/// Whether no id comes twice in `documents` and each has a position.
pub open spec fn documents_ok(documents: Seq<(usize, Seq<usize>)>) -> bool {
    &&& forall|a: int, b: int|
        0 <= a < b < documents.len() ==> documents[a].0 != documents[b].0
    &&& forall|j: int| 0 <= j < documents.len() ==> (#[trigger] documents[j]).1.len() > 0
}

/// Whether `record` holds what `m` holds of the term `t`.
pub open spec fn describes_term(record: TermRecord, m: IndexModel, t: Seq<char>) -> bool {
    &&& record.term == t
    &&& m.postings.contains_key(t)
    &&& m.frequencies.contains_key(t)
    &&& record.frequency == m.frequencies[t]
    &&& record.frequency == total_len(record.documents)
    &&& record.documents.len() > 0
    &&& documents_ok(record.documents)
    &&& forall|j: int|
        0 <= j < record.documents.len() ==> m.postings[t].contains_key(
            (#[trigger] record.documents[j]).0,
        ) && m.postings[t][record.documents[j].0] == record.documents[j].1
    &&& forall|d: usize| #[trigger]
        m.postings[t].contains_key(d) ==> has_document(record.documents, d)
}

/// Whether `list` holds what `m` holds, term by term in the order of its terms.
pub open spec fn describes(list: Seq<TermRecord>, m: IndexModel) -> bool {
    &&& list.len() == m.terms.len()
    &&& forall|i: int| 0 <= i < list.len() ==> describes_term(#[trigger] list[i], m, m.terms[i])
}

/// The index after `positions`, of which there is at least one, have been
/// recorded for `term` in `doc`, written out.
pub open spec fn recorded(
    m: IndexModel,
    doc: usize,
    term: Seq<char>,
    positions: Seq<usize>,
) -> IndexModel {
    IndexModel {
        terms: if m.postings.contains_key(term) {
            m.terms
        } else {
            m.terms.push(term)
        },
        postings: m.postings.insert(
            term,
            m.posting_list(term).insert(doc, m.positions(term, doc) + positions),
        ),
        frequencies: m.frequencies.insert(term, m.frequency(term) + positions.len()),
        occurrences: m.occurrences + positions.len(),
        ordering: m.ordering,
    }
}

/// Recording positions one by one gives what [`recorded`] writes out.
pub proof fn lemma_record_all(m: IndexModel, doc: usize, term: Seq<char>, positions: Seq<usize>)
    requires
        positions.len() > 0,
    ensures
        m.record_all(doc, term, positions) == recorded(m, doc, term, positions),
    decreases positions.len(),
{
    let rest = positions.drop_last();
    let out = m.record_all(doc, term, positions);
    let want = recorded(m, doc, term, positions);
    if rest.len() == 0 {
        assert(m.record_all(doc, term, rest) == m);
        assert(m.positions(term, doc).push(positions.last()) =~= m.positions(term, doc)
            + positions);
    } else {
        lemma_record_all(m, doc, term, rest);
        let mid = recorded(m, doc, term, rest);
        assert((m.positions(term, doc) + rest).push(positions.last()) =~= m.positions(term, doc)
            + positions);
        assert(mid.posting_list(term).insert(doc, mid.positions(term, doc).push(positions.last()))
            =~= m.posting_list(term).insert(doc, m.positions(term, doc) + positions));
    }
    assert(out.postings =~= want.postings);
    assert(out.frequencies =~= want.frequencies);
    assert(out.terms =~= want.terms);
}

/// A posting list made of documents knows exactly their ids, and where no
/// id comes twice, holds for each its positions.
pub proof fn lemma_posting_list_of(documents: Seq<(usize, Seq<usize>)>)
    ensures
        forall|d: usize| #[trigger]
            posting_list_of(documents).contains_key(d) <==> has_document(documents, d),
        (forall|a: int, b: int| 0 <= a < b < documents.len() ==> documents[a].0 != documents[b].0)
            ==> forall|j: int|
            0 <= j < documents.len() ==> posting_list_of(documents)[(#[trigger] documents[j]).0]
                == documents[j].1,
    decreases documents.len(),
{
    if documents.len() > 0 {
        let rest = documents.drop_last();
        lemma_posting_list_of(rest);
        let last = documents[documents.len() - 1];
        assert(posting_list_of(documents) == posting_list_of(rest).insert(last.0, last.1));
        assert forall|d: usize| #[trigger]
            posting_list_of(documents).contains_key(d) <==> has_document(documents, d) by {
            if posting_list_of(documents).contains_key(d) {
                if d == last.0 {
                    assert(documents[documents.len() - 1].0 == d);
                } else {
                    assert(posting_list_of(rest).contains_key(d));
                    assert(has_document(rest, d));
                    let j = choose|j: int| 0 <= j < rest.len() && (#[trigger] rest[j]).0 == d;
                    assert(documents[j].0 == d);
                }
                assert(has_document(documents, d));
            }
            if has_document(documents, d) {
                let j = choose|j: int| 0 <= j < documents.len() && (#[trigger] documents[j]).0 == d;
                if j < rest.len() {
                    assert(rest[j].0 == d);
                    assert(has_document(rest, d));
                    assert(posting_list_of(rest).contains_key(d));
                }
                assert(posting_list_of(documents).contains_key(d));
            }
        }
        if forall|a: int, b: int| 0 <= a < b < documents.len() ==> documents[a].0 != documents[b].0 {
            assert forall|a: int, b: int| 0 <= a < b < rest.len() implies rest[a].0
                != rest[b].0 by {
                assert(rest[a] == documents[a] && rest[b] == documents[b]);
            }
            assert forall|j: int| 0 <= j < documents.len() implies posting_list_of(documents)[(
            #[trigger] documents[j]).0] == documents[j].1 by {
                if j < rest.len() {
                    assert(rest[j] == documents[j]);
                    assert(documents[j].0 != documents[documents.len() - 1].0);
                }
            }
        }
    }
}

/// The index after the documents of a term that it did not know have been
/// recorded, written out.
pub open spec fn with_term(
    m: IndexModel,
    term: Seq<char>,
    documents: Seq<(usize, Seq<usize>)>,
) -> IndexModel {
    IndexModel {
        terms: m.terms.push(term),
        postings: m.postings.insert(term, posting_list_of(documents)),
        frequencies: m.frequencies.insert(term, total_len(documents)),
        occurrences: m.occurrences + total_len(documents),
        ordering: m.ordering,
    }
}

/// Recording the documents of a term that the index does not know gives what
/// [`with_term`] writes out, and the documents fit where the index has room.
pub proof fn lemma_replay_documents(
    m: IndexModel,
    term: Seq<char>,
    documents: Seq<(usize, Seq<usize>)>,
)
    requires
        !m.postings.contains_key(term),
        !m.frequencies.contains_key(term),
        documents.len() > 0,
        documents_ok(documents),
        m.occurrences + total_len(documents) <= MAX_OCCURRENCES,
    ensures
        replay_documents(m, term, documents) == with_term(m, term, documents),
        documents_fit(m, term, documents),
    decreases documents.len(),
{
    let rest = documents.drop_last();
    let doc = documents.last().0;
    let positions = documents.last().1;
    let out = replay_documents(m, term, documents);
    let want = with_term(m, term, documents);
    assert(documents[documents.len() - 1].1.len() > 0);
    if rest.len() == 0 {
        assert(replay_documents(m, term, rest) == m);
        lemma_record_all(m, doc, term, positions);
        assert(Seq::<usize>::empty() + positions =~= positions);
        assert(posting_list_of(rest) =~= Map::<usize, Seq<usize>>::empty());
        assert(documents_fit(m, term, rest));
    } else {
        assert forall|a: int, b: int| 0 <= a < b < rest.len() implies rest[a].0 != rest[b].0 by {
            assert(rest[a] == documents[a] && rest[b] == documents[b]);
        }
        assert forall|j: int| 0 <= j < rest.len() implies (#[trigger] rest[j]).1.len() > 0 by {
            assert(rest[j] == documents[j]);
        }
        lemma_replay_documents(m, term, rest);
        let mid = with_term(m, term, rest);
        lemma_posting_list_of(rest);
        if has_document(rest, doc) {
            let j = choose|j: int| 0 <= j < rest.len() && (#[trigger] rest[j]).0 == doc;
            assert(documents[j].0 != documents[documents.len() - 1].0);
        }
        assert(!mid.posting_list(term).contains_key(doc));
        lemma_record_all(mid, doc, term, positions);
        assert(Seq::<usize>::empty() + positions =~= positions);
    }
    assert(out.postings =~= want.postings);
    assert(out.frequencies =~= want.frequencies);
    assert(out.terms =~= want.terms);
}

/// What `m` holds of its first `k` terms.
pub open spec fn upto(m: IndexModel, k: int) -> IndexModel {
    IndexModel {
        terms: m.terms.take(k),
        postings: m.postings.restrict(m.terms.take(k).to_set()),
        frequencies: m.frequencies.restrict(m.terms.take(k).to_set()),
        occurrences: sum_nat(m.term_frequencies().take(k)),
        ordering: m.ordering,
    }
}

/// The first `k` numbers add up to no more than all of them.
pub proof fn lemma_sum_nat_prefix(s: Seq<nat>, k: int)
    requires
        0 <= k <= s.len(),
    ensures
        sum_nat(s.take(k)) <= sum_nat(s),
    decreases s.len(),
{
    if k == s.len() {
        assert(s.take(k) =~= s);
    } else {
        assert(s.drop_last().take(k) =~= s.take(k));
        lemma_sum_nat_prefix(s.drop_last(), k);
    }
}

/// Recording the first `k` records of a description of `m` fits, and gives
/// what `m` holds of its first `k` terms.
pub proof fn lemma_replay(list: Seq<TermRecord>, m: IndexModel, k: int)
    requires
        describes(list, m),
        m.inv(),
        m.occurrences == sum_nat(m.term_frequencies()),
        m.occurrences <= MAX_OCCURRENCES,
        0 <= k <= list.len(),
    ensures
        records_fit(IndexModel::empty(m.ordering), list.take(k)),
        replay(IndexModel::empty(m.ordering), list.take(k)) == upto(m, k),
    decreases k,
{
    let start = IndexModel::empty(m.ordering);
    if k == 0 {
        assert(list.take(0) =~= Seq::<TermRecord>::empty());
        assert(m.terms.take(0) =~= Seq::<Seq<char>>::empty());
        assert(m.term_frequencies().take(0) =~= Seq::<nat>::empty());
        assert(upto(m, 0).postings =~= start.postings);
        assert(upto(m, 0).frequencies =~= start.frequencies);
    } else {
        lemma_replay(list, m, k - 1);
        let before = upto(m, k - 1);
        let record = list[k - 1];
        let t = m.terms[k - 1];
        assert(list.take(k).drop_last() =~= list.take(k - 1));
        assert(list.take(k).last() == record);
        assert(describes_term(record, m, t));
        let earlier = m.terms.take(k - 1);
        assert(!earlier.contains(t)) by {
            if earlier.contains(t) {
                let i = choose|i: int| 0 <= i < earlier.len() && earlier[i] == t;
                assert(m.terms[i] == m.terms[k - 1]);
            }
        }
        let tf = m.term_frequencies();
        assert(tf.take(k).drop_last() =~= tf.take(k - 1));
        assert(tf.take(k).last() == m.frequency(t));
        lemma_sum_nat_prefix(tf, k);
        lemma_replay_documents(before, t, record.documents);
        lemma_posting_list_of(record.documents);
        let out = with_term(before, t, record.documents);
        let want = upto(m, k);
        assert(m.terms.take(k) =~= m.terms.take(k - 1).push(t));
        assert(posting_list_of(record.documents) =~= m.postings[t]);
        assert forall|x: Seq<char>| m.terms.take(k).contains(x) <==> (x == t || m.terms.take(
            k - 1,
        ).contains(x)) by {
            vstd::seq_lib::lemma_seq_contains_after_push(m.terms.take(k - 1), t, x);
        }
        assert(out.postings =~= want.postings);
        assert(out.frequencies =~= want.frequencies);
        assert(out.terms =~= want.terms);
    }
}

/// Rebuilding an index from a description of it gives the index back: the
/// description fits, and recording it on the empty index gives what the
/// index holds.
pub proof fn law_described_index_is_rebuilt(list: Seq<TermRecord>, m: IndexModel)
    requires
        describes(list, m),
        m.inv(),
        m.occurrences == sum_nat(m.term_frequencies()),
        m.occurrences <= MAX_OCCURRENCES,
    ensures
        records_fit(IndexModel::empty(m.ordering), list),
        replay(IndexModel::empty(m.ordering), list) == m,
{
    let k = list.len() as int;
    lemma_replay(list, m, k);
    assert(list.take(k) =~= list);
    assert(m.terms.take(k) =~= m.terms);
    assert(m.term_frequencies().take(k) =~= m.term_frequencies());
    assert(upto(m, k).postings =~= m.postings);
    assert(upto(m, k).frequencies =~= m.frequencies);
}

/// Taking a snapshot and rebuilding from it gives the index back: where
/// `snap` is what [`PositionalInvertedIndex::snapshot`] returns for `index`
/// and `rebuilt` what [`PositionalInvertedIndex::restore`] returns for
/// `snap`, `rebuilt` is an index that holds what `index` holds.
pub proof fn law_snapshot_round_trip(
    index: PositionalInvertedIndex,
    snap: Snapshot,
    rebuilt: Option<PositionalInvertedIndex>,
)
    requires
        index.wf(),
        snap.valid() && snap.model() == index@,
        match rebuilt {
            Some(copy) => copy.wf() && snap.valid() && copy@ == snap.model(),
            None => !snap.valid(),
        },
    ensures
        rebuilt is Some,
        rebuilt->0.wf(),
        rebuilt->0@ == index@,
{
}

impl Snapshot {
    /// The index that the snapshot stands for.
    pub open spec fn model(&self) -> IndexModel {
        replay(IndexModel::empty(self.ordering), records(self.terms@))
    }

    /// Whether the snapshot is one that an index can have produced.
    pub open spec fn valid(&self) -> bool {
        records_fit(IndexModel::empty(self.ordering), records(self.terms@))
    }
}

/// The documents of `entry` with their positions, as plain data.
fn documents_of_entry(entry: &TermEntry) -> (out: Vec<(usize, Vec<usize>)>)
    requires
        entry.wf(),
    ensures
        out@.len() == entry.postings@.len(),
        forall|j: int|
            0 <= j < out@.len() ==> (#[trigger] out@[j]).0 == entry.postings@[j].doc_id
                && out@[j].1@ == entry.postings@[j].positions@,
        total_len(documents_of(out@)) == entry.frequency,
{
    let mut out: Vec<(usize, Vec<usize>)> = Vec::new();
    let mut j: usize = 0;
    assert(entry.postings@.take(0) =~= Seq::empty());
    assert(documents_of(out@) =~= Seq::empty());
    while j < entry.postings.len()
        invariant
            j <= entry.postings@.len(),
            out@.len() == j,
            forall|k: int|
                0 <= k < out@.len() ==> (#[trigger] out@[k]).0 == entry.postings@[k].doc_id
                    && out@[k].1@ == entry.postings@[k].positions@,
            total_len(documents_of(out@)) == total_positions(entry.postings@.take(j as int)),
        decreases entry.postings@.len() - j,
    {
        let posting = &entry.postings[j];
        let ghost before = out@;
        out.push((posting.doc_id, posting.positions.clone()));
        proof {
            assert(documents_of(out@).drop_last() =~= documents_of(before));
            assert(entry.postings@.take(j + 1).drop_last() =~= entry.postings@.take(j as int));
        }
        j += 1;
    }
    assert(entry.postings@.take(j as int) =~= entry.postings@);
    out
}

impl PositionalInvertedIndex {
    /// All of the index as plain data. What comes back is a snapshot from
    /// which [`PositionalInvertedIndex::restore`] rebuilds this index.
    pub fn snapshot(&self) -> (snap: Snapshot)
        requires
            self.wf(),
        ensures
            snap.valid(),
            snap.model() == self@,
    {
        let mut terms: Vec<TermSnapshot> = Vec::new();
        let mut i: usize = 0;
        while i < self.vocabulary_size()
            invariant
                i <= self@.terms.len(),
                self.wf(),
                terms@.len() == i,
                forall|k: int|
                    0 <= k < i ==> describes_term(
                        #[trigger] records(terms@)[k],
                        self@,
                        self@.terms[k],
                    ),
            decreases self@.terms.len() - i,
        {
            let entry = self.entry(i);
            let documents = documents_of_entry(entry);
            let ghost before = terms@;
            let ghost list = documents_of(documents@);
            proof {
                assert forall|a: int, b: int| 0 <= a < b < list.len() implies list[a].0
                    != list[b].0 by {
                    assert(entry.postings@[a].wf() && entry.postings@[b].wf());
                }
                assert forall|j: int| 0 <= j < list.len() implies (#[trigger] list[j]).1.len()
                    > 0 && entry.list().contains_key(list[j].0) && entry.list()[list[j].0]
                    == list[j].1 by {
                    assert(entry.postings@[j].wf());
                }
                assert forall|d: usize| #[trigger]
                    entry.list().contains_key(d) implies has_document(list, d) by {
                    let j = entry.by_doc@[d] as int;
                    assert(list[j].0 == d);
                }
            }
            terms.push(
                TermSnapshot { term: entry.term.clone(), frequency: entry.frequency, documents },
            );
            proof {
                assert forall|k: int| 0 <= k < i + 1 implies describes_term(
                    #[trigger] records(terms@)[k],
                    self@,
                    self@.terms[k],
                ) by {
                    if k < i {
                        assert(records(terms@)[k] == records(before)[k]);
                    } else {
                        assert(records(terms@)[k].documents == list);
                    }
                }
            }
            i += 1;
        }
        let snap = Snapshot { terms, ordering: self.ordering() };
        proof {
            self.lemma_wf();
            self.lemma_occurrences();
            law_described_index_is_rebuilt(records(snap.terms@), self@);
        }
        snap
    }

    /// Rebuilds the index that `snapshot` stands for; `None` where no index
    /// can have produced the snapshot.
    pub fn restore(snapshot: &Snapshot) -> (out: Option<PositionalInvertedIndex>)
        ensures
            match out {
                Some(index) => index.wf() && snapshot.valid() && index@ == snapshot.model(),
                None => !snapshot.valid(),
            },
    {
        let mut index = PositionalInvertedIndex::with_ordering(snapshot.ordering);
        let ghost start = IndexModel::empty(snapshot.ordering);
        let ghost list = records(snapshot.terms@);
        let mut i: usize = 0;
        assert(list.take(0) =~= Seq::empty());
        while i < snapshot.terms.len()
            invariant
                i <= snapshot.terms@.len(),
                list == records(snapshot.terms@),
                start == IndexModel::empty(snapshot.ordering),
                index.wf(),
                records_fit(start, list.take(i as int)),
                index@ == replay(start, list.take(i as int)),
            decreases snapshot.terms@.len() - i,
        {
            let record = &snapshot.terms[i];
            let ghost before = index@;
            let ghost documents = list[i as int].documents;
            let ghost term = list[i as int].term;
            proof {
                assert(list.take(i + 1).drop_last() =~= list.take(i as int));
                assert(list.take(i + 1).last() == list[i as int]);
                if records_fit(start, list) {
                    lemma_records_fit_prefix(start, list, i + 1);
                }
                assert(documents.take(0) =~= Seq::empty());
            }
            if index.find_term(record.term.as_str()).is_some() || record.documents.len() == 0 {
                return None;
            }
            let mut j: usize = 0;
            while j < record.documents.len()
                invariant
                    j <= record.documents@.len(),
                    documents == documents_of(record.documents@),
                    term == record.term@,
                    list == records(snapshot.terms@),
                    start == IndexModel::empty(snapshot.ordering),
                    index.wf(),
                    documents_fit(before, term, documents.take(j as int)),
                    index@ == replay_documents(before, term, documents.take(j as int)),
                    records_fit(start, list) ==> documents_fit(before, term, documents),
                decreases record.documents@.len() - j,
            {
                let doc_id = record.documents[j].0;
                let positions = &record.documents[j].1;
                proof {
                    assert(documents.take(j + 1).drop_last() =~= documents.take(j as int));
                    assert(documents.take(j + 1).last() == documents[j as int]);
                    if documents_fit(before, term, documents) {
                        lemma_documents_fit_prefix(before, term, documents, j + 1);
                    }
                }
                let known = match index.find_term(record.term.as_str()) {
                    Some(at) => {
                        let entry = index.entry(at);
                        assert(entry.list().contains_key(doc_id) <==> entry.by_doc@.contains_key(
                            doc_id,
                        ));
                        entry.find(doc_id).is_some()
                    },
                    None => false,
                };
                proof {
                    index.lemma_wf();
                    assert(known == index@.posting_list(term).contains_key(doc_id));
                }
                if known || positions.len() == 0 || positions.len() > MAX_OCCURRENCES
                    - index.occurrences() {
                    proof {
                        if snapshot.valid() {
                            let upto = documents.take(j + 1);
                            assert(upto.drop_last() =~= documents.take(j as int));
                            assert(upto.last() == (doc_id, positions@));
                        }
                    }
                    return None;
                }
                index.restore_posting(record.term.as_str(), doc_id, positions);
                j += 1;
            }
            proof {
                assert(documents.take(j as int) =~= documents);
            }
            if index.frequency(record.term.as_str()) != record.frequency {
                return None;
            }
            i += 1;
        }
        proof {
            assert(list.take(i as int) =~= list);
        }
        Some(index)
    }
}

} // verus!
