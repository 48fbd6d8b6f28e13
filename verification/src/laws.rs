//! What holds of every index, proved over the model: which documents a
//! search finds in a corpus, and how the results of different searches relate.

use crate::counting::lemma_sorted_exceed;
use crate::idx::PositionalInvertedIndex;
use crate::model::{ascending, strictly_ascending, IndexModel, TokenOrdering};
use crate::search::lemma_unknown_term_no_start;
use crate::text::tokens;
use vstd::prelude::*;
use vstd::seq_lib::lemma_seq_contains_after_push;
use vstd::set_lib::lemma_len_subset;

verus! {

/// A document as the index sees it: its id and its terms.
pub struct Document {
    /// The id under which the document is ingested.
    pub id: usize,
    /// The terms of its text, in order.
    pub terms: Seq<Seq<char>>,
}

/// The index that ingesting `docs`, one after the other, into an empty index gives.
pub open spec fn corpus(ordering: TokenOrdering, docs: Seq<Document>) -> IndexModel
    decreases docs.len(),
{
    if docs.len() == 0 {
        IndexModel::empty(ordering)
    } else {
        corpus(ordering, docs.drop_last()).ingest(docs.last().id, docs.last().terms)
    }
}

/// Whether every document of `docs` has no more terms than a machine word counts.
pub open spec fn countable(docs: Seq<Document>) -> bool {
    forall|k: int| 0 <= k < docs.len() ==> (#[trigger] docs[k]).terms.len() <= usize::MAX
}

/// Whether the `k`-th document of `docs` has the id `d` and the term `t` at position `p`.
pub open spec fn holds_at(docs: Seq<Document>, k: int, t: Seq<char>, d: usize, p: int) -> bool {
    0 <= k < docs.len() && docs[k].id == d && 0 <= p < docs[k].terms.len() && docs[k].terms[p] == t
}

/// Whether `q` stands in `terms` from position `start` on, term by term.
pub open spec fn occurs_in(q: Seq<Seq<char>>, terms: Seq<Seq<char>>, start: int) -> bool {
    &&& 0 <= start
    &&& start + q.len() <= terms.len()
    &&& forall|i: int| 0 <= i < q.len() ==> terms[start + i] == #[trigger] q[i]
}

/// Recording an occurrence appends its position to the entry of its term and
/// document, and leaves every other entry as it was.
pub proof fn lemma_record_positions(
    m: IndexModel,
    doc: usize,
    pos: usize,
    term: Seq<char>,
    t: Seq<char>,
    d: usize,
)
    ensures
        m.record(doc, pos, term).positions(t, d) == if t == term && d == doc {
            m.positions(term, doc).push(pos)
        } else {
            m.positions(t, d)
        },
        m.record(doc, pos, term).ordering == m.ordering,
        m.record(doc, pos, term).frequency(t) == if t == term {
            m.frequency(t) + 1
        } else {
            m.frequency(t)
        },
        m.record(doc, pos, term).postings.contains_key(t) <==> t == term
            || m.postings.contains_key(t),
{
}

/// After a document has been ingested, a term occurs at a position of a
/// document if it did before, or if the new document is that document and has
/// the term at that position.
pub proof fn lemma_ingest_positions(
    m: IndexModel,
    doc: usize,
    terms: Seq<Seq<char>>,
    t: Seq<char>,
    d: usize,
    p: usize,
)
    requires
        terms.len() <= usize::MAX,
    ensures
        m.ingest(doc, terms).positions(t, d).contains(p) <==> m.positions(t, d).contains(p) || (d
            == doc && p < terms.len() && terms[p as int] == t),
        m.ingest(doc, terms).ordering == m.ordering,
    decreases terms.len(),
{
    if terms.len() > 0 {
        let before = m.ingest(doc, terms.drop_last());
        let last = (terms.len() - 1) as usize;
        lemma_ingest_positions(m, doc, terms.drop_last(), t, d, p);
        lemma_record_positions(before, doc, last, terms.last(), t, d);
        lemma_seq_contains_after_push(before.positions(t, d), last, p);
    }
}

/// In the index of a corpus a term occurs at a position of a document exactly
/// if one of the ingested documents has that id and the term at that position.
pub proof fn lemma_corpus_positions(
    ordering: TokenOrdering,
    docs: Seq<Document>,
    t: Seq<char>,
    d: usize,
    p: usize,
)
    requires
        countable(docs),
    ensures
        corpus(ordering, docs).positions(t, d).contains(p) <==> exists|k: int|
            holds_at(docs, k, t, d, p as int),
        corpus(ordering, docs).ordering == ordering,
    decreases docs.len(),
{
    if docs.len() > 0 {
        let rest = docs.drop_last();
        let last = docs.last();
        assert forall|k: int| 0 <= k < rest.len() implies (#[trigger] rest[k]).terms.len()
            <= usize::MAX by {
            assert(rest[k] == docs[k]);
        }
        lemma_corpus_positions(ordering, rest, t, d, p);
        lemma_ingest_positions(corpus(ordering, rest), last.id, last.terms, t, d, p);
        if corpus(ordering, docs).positions(t, d).contains(p) {
            if corpus(ordering, rest).positions(t, d).contains(p) {
                let k = choose|k: int| holds_at(rest, k, t, d, p as int);
                assert(holds_at(docs, k, t, d, p as int));
            } else {
                assert(holds_at(docs, docs.len() - 1, t, d, p as int));
            }
        }
        if exists|k: int| holds_at(docs, k, t, d, p as int) {
            let k = choose|k: int| holds_at(docs, k, t, d, p as int);
            if k < docs.len() - 1 {
                assert(holds_at(rest, k, t, d, p as int));
            }
        }
    }
}

/// A single term is resolved as it is, whatever the ordering.
pub proof fn lemma_ordered_single(m: IndexModel, t: Seq<char>)
    ensures
        m.ordered(seq![t]) == seq![t],
{
    let q = seq![t];
    assert(q.drop_last() =~= Seq::<Seq<char>>::empty());
    assert(m.by_frequency(q.drop_last()) =~= Seq::<Seq<char>>::empty());
    assert(m.insert_by_frequency(Seq::<Seq<char>>::empty(), t) =~= seq![t]);
    assert(q.last() == t);
    assert(m.by_frequency(q) == m.insert_by_frequency(m.by_frequency(q.drop_last()), q.last()));
}

/// A single term matches the documents in which it has a position.
pub proof fn lemma_matches_single(m: IndexModel, t: Seq<char>, d: usize)
    ensures
        m.matches(seq![t], d) <==> m.positions(t, d).len() > 0,
{
    let q = seq![t];
    if m.matches(q, d) {
        let s = choose|s: usize| m.is_start(q, d, s);
        assert(m.aligned(q, d, s, 0));
    }
    if m.positions(t, d).len() > 0 {
        let s = m.positions(t, d)[0];
        assert(m.positions(t, d).contains(s));
        assert forall|i: int| 0 <= i < q.len() implies #[trigger] m.aligned(q, d, s, i) by {}
        assert(m.is_start(q, d, s));
    }
}

/// Putting a term into a sequence by frequency keeps what was there and adds the term.
pub proof fn lemma_insert_by_frequency_contains(
    m: IndexModel,
    sorted: Seq<Seq<char>>,
    term: Seq<char>,
    t: Seq<char>,
)
    ensures
        m.insert_by_frequency(sorted, term).contains(t) <==> t == term || sorted.contains(t),
        m.insert_by_frequency(sorted, term).len() == sorted.len() + 1,
    decreases sorted.len(),
{
    if sorted.len() == 0 {
        assert(seq![term][0] == term);
    } else if m.frequency(sorted.last()) <= m.frequency(term) {
        lemma_seq_contains_after_push(sorted, term, t);
    } else {
        let rest = sorted.drop_last();
        lemma_insert_by_frequency_contains(m, rest, term, t);
        lemma_seq_contains_after_push(m.insert_by_frequency(rest, term), sorted.last(), t);
        lemma_seq_contains_after_push(rest, sorted.last(), t);
        assert(rest.push(sorted.last()) =~= sorted);
    }
}

/// Reordering a query neither drops nor invents a term.
pub proof fn lemma_ordered_contains(m: IndexModel, q: Seq<Seq<char>>, t: Seq<char>)
    ensures
        m.ordered(q).contains(t) <==> q.contains(t),
        m.ordered(q).len() == q.len(),
{
    lemma_by_frequency_contains(m, q, t);
}

/// Sorting a query by frequency neither drops nor invents a term.
pub proof fn lemma_by_frequency_contains(m: IndexModel, q: Seq<Seq<char>>, t: Seq<char>)
    ensures
        m.by_frequency(q).contains(t) <==> q.contains(t),
        m.by_frequency(q).len() == q.len(),
    decreases q.len(),
{
    if q.len() > 0 {
        let rest = q.drop_last();
        lemma_by_frequency_contains(m, rest, t);
        lemma_insert_by_frequency_contains(m, m.by_frequency(rest), q.last(), t);
        lemma_seq_contains_after_push(rest, q.last(), t);
        assert(rest.push(q.last()) =~= q);
    }
}

/// Ingesting a document lowers no frequency and raises that of every term
/// of the document; it keeps every known term and every document of its
/// posting list; and it makes known exactly the terms of the document.
pub proof fn lemma_ingest_grows(
    m: IndexModel,
    doc: usize,
    terms: Seq<Seq<char>>,
    t: Seq<char>,
    d: usize,
)
    ensures
        m.ingest(doc, terms).frequency(t) >= m.frequency(t),
        terms.contains(t) ==> m.ingest(doc, terms).frequency(t) > m.frequency(t),
        m.ingest(doc, terms).postings.contains_key(t) <==> m.postings.contains_key(t)
            || terms.contains(t),
        m.posting_list(t).contains_key(d) ==> m.ingest(doc, terms).posting_list(t).contains_key(d),
    decreases terms.len(),
{
    if terms.len() > 0 {
        let rest = terms.drop_last();
        let before = m.ingest(doc, rest);
        let last = (terms.len() - 1) as usize;
        lemma_ingest_grows(m, doc, rest, t, d);
        lemma_record_positions(before, doc, last, terms.last(), t, d);
        lemma_seq_contains_after_push(rest, terms.last(), t);
        assert(rest.push(terms.last()) =~= terms);
    }
}

/// Ingesting a document whose terms are all known leaves the list of known
/// terms as it was.
pub proof fn lemma_ingest_known_terms(m: IndexModel, doc: usize, terms: Seq<Seq<char>>)
    requires
        forall|i: int| 0 <= i < terms.len() ==> m.postings.contains_key(#[trigger] terms[i]),
    ensures
        m.ingest(doc, terms).terms == m.terms,
    decreases terms.len(),
{
    if terms.len() > 0 {
        let rest = terms.drop_last();
        assert forall|i: int| 0 <= i < rest.len() implies m.postings.contains_key(
            #[trigger] rest[i],
        ) by {
            assert(rest[i] == terms[i]);
        }
        lemma_ingest_known_terms(m, doc, rest);
        lemma_ingest_grows(m, doc, rest, terms.last(), doc);
        assert(m.postings.contains_key(terms[terms.len() - 1]));
    }
}

/// Every size estimate of an index fits a machine word, so the estimates
/// that the index returns are the estimates of its model.
pub proof fn law_estimates_fit(index: &PositionalInvertedIndex)
    requires
        index.wf(),
    ensures
        index@.term_table_bytes() <= usize::MAX,
        forall|t: Seq<char>| #[trigger] index@.posting_bytes(t) <= usize::MAX,
{
    index.lemma_wf();
    let known = index@.terms.len();
    assert(usize::MAX >= 0xffff_ffff);
    assert(known <= usize::MAX / 64);
    assert(index@.term_table_bytes() == 96 + known * 28 + known * 32);
    assert forall|t: Seq<char>| #[trigger] index@.posting_bytes(t) <= usize::MAX by {
        if !index@.postings.contains_key(t) {
            assert(index@.posting_list(t).dom() =~= Set::<usize>::empty());
        }
    }
}

/// Let an ingestion add occurrences to every known term and make no new term
/// known. Then every estimate in the ascending list of posting list sizes is
/// larger than the estimate in its place before, and the list is as long.
pub proof fn law_estimates_grow(
    before: &PositionalInvertedIndex,
    after: &PositionalInvertedIndex,
    doc: usize,
    terms: Seq<Seq<char>>,
    sizes_before: Seq<usize>,
    sizes_after: Seq<usize>,
)
    requires
        before.wf(),
        after.wf(),
        after@ == before@.ingest(doc, terms),
        forall|t: Seq<char>| before@.postings.contains_key(t) <==> terms.contains(t),
        ascending(sizes_before),
        ascending(sizes_after),
        sizes_before.to_multiset() == before@.term_sizes().to_multiset(),
        sizes_after.to_multiset() == after@.term_sizes().to_multiset(),
    ensures
        sizes_before.len() == sizes_after.len(),
        forall|k: int| 0 <= k < sizes_before.len() ==> sizes_before[k] < sizes_after[k],
{
    let m1 = before@;
    let m2 = after@;
    before.lemma_wf();
    after.lemma_wf();
    assert forall|i: int| 0 <= i < terms.len() implies m1.postings.contains_key(
        #[trigger] terms[i],
    ) by {
        assert(terms.contains(terms[i]));
    }
    lemma_ingest_known_terms(m1, doc, terms);
    let u = m1.term_sizes();
    let v = m2.term_sizes();
    assert forall|i: int| 0 <= i < u.len() implies u[i] < v[i] by {
        let t = m1.terms[i];
        assert(m1.terms.contains(t));
        assert(m2.terms.contains(t));
        lemma_ingest_grows(m1, doc, terms, t, doc);
        let docs1 = m1.posting_list(t).dom();
        let docs2 = m2.posting_list(t).dom();
        assert forall|d: usize| docs1.contains(d) implies docs2.contains(d) by {
            lemma_ingest_grows(m1, doc, terms, t, d);
        }
        lemma_len_subset(docs1, docs2);
        assert(m1.posting_bytes(t) < m2.posting_bytes(t));
        assert(m2.posting_bytes(t) <= usize::MAX);
    }
    lemma_sorted_exceed(u, v, sizes_before, sizes_after);
}

/// Whether the frequencies of `terms` ascend; equal neighbours are allowed.
pub open spec fn ascends_by_frequency(m: IndexModel, terms: Seq<Seq<char>>) -> bool {
    forall|i: int, j: int|
        0 <= i <= j < terms.len() ==> m.frequency(terms[i]) <= m.frequency(terms[j])
}

/// The terms of `terms` whose frequency is `g`, in their order.
pub open spec fn of_frequency(m: IndexModel, terms: Seq<Seq<char>>, g: nat) -> Seq<Seq<char>> {
    terms.filter(|t: Seq<char>| m.frequency(t) == g)
}

/// Putting a term into a sequence by frequency keeps the frequencies
/// ascending, and puts the term behind the terms of its own frequency.
pub proof fn lemma_insert_by_frequency_order(
    m: IndexModel,
    sorted: Seq<Seq<char>>,
    term: Seq<char>,
    g: nat,
)
    ensures
        ascends_by_frequency(m, sorted) ==> ascends_by_frequency(
            m,
            m.insert_by_frequency(sorted, term),
        ),
        of_frequency(m, m.insert_by_frequency(sorted, term), g) == if m.frequency(term) == g {
            of_frequency(m, sorted, g).push(term)
        } else {
            of_frequency(m, sorted, g)
        },
    decreases sorted.len(),
{
    reveal(Seq::filter);
    let p = |t: Seq<char>| m.frequency(t) == g;
    let out = m.insert_by_frequency(sorted, term);
    if sorted.len() == 0 {
        assert(out.drop_last() =~= sorted);
        assert(sorted.filter(p) =~= Seq::empty());
    } else if m.frequency(sorted.last()) <= m.frequency(term) {
        assert(out.drop_last() =~= sorted);
        if ascends_by_frequency(m, sorted) {
            assert forall|i: int, j: int| 0 <= i <= j < out.len() implies m.frequency(out[i])
                <= m.frequency(out[j]) by {
                if j == out.len() - 1 && i < j {
                    assert(m.frequency(sorted[i]) <= m.frequency(sorted[sorted.len() - 1]));
                }
            }
        }
    } else {
        let rest = sorted.drop_last();
        let inner = m.insert_by_frequency(rest, term);
        lemma_insert_by_frequency_order(m, rest, term, g);
        assert(out.drop_last() =~= inner);
        if ascends_by_frequency(m, sorted) {
            assert(ascends_by_frequency(m, rest)) by {
                assert forall|i: int, j: int| 0 <= i <= j < rest.len() implies m.frequency(rest[i])
                    <= m.frequency(rest[j]) by {
                    assert(rest[i] == sorted[i] && rest[j] == sorted[j]);
                }
            }
            assert forall|i: int, j: int| 0 <= i <= j < out.len() implies m.frequency(out[i])
                <= m.frequency(out[j]) by {
                if j == out.len() - 1 && i < j {
                    lemma_insert_by_frequency_contains(m, rest, term, inner[i]);
                    assert(inner.contains(inner[i]));
                    if inner[i] != term {
                        let k = choose|k: int| 0 <= k < rest.len() && rest[k] == inner[i];
                        assert(m.frequency(sorted[k]) <= m.frequency(sorted[sorted.len() - 1]));
                    }
                } else if j < out.len() - 1 {
                    assert(out[i] == inner[i] && out[j] == inner[j]);
                }
            }
        }
    }
}

/// What resolving by ascending frequency means: the frequencies of the
/// reordered terms ascend, and the terms of each frequency are those of the
/// query, in the order of the query.
pub proof fn law_frequency_order(m: IndexModel, q: Seq<Seq<char>>, g: nat)
    ensures
        ascends_by_frequency(m, m.by_frequency(q)),
        of_frequency(m, m.by_frequency(q), g) == of_frequency(m, q, g),
    decreases q.len(),
{
    reveal(Seq::filter);
    if q.len() > 0 {
        law_frequency_order(m, q.drop_last(), g);
        lemma_insert_by_frequency_order(m, m.by_frequency(q.drop_last()), q.last(), g);
    }
}

/// Ingesting a document changes no entry of another document.
pub proof fn lemma_ingest_other(
    m: IndexModel,
    doc: usize,
    terms: Seq<Seq<char>>,
    t: Seq<char>,
    d: usize,
)
    requires
        d != doc,
    ensures
        m.ingest(doc, terms).positions(t, d) == m.positions(t, d),
    decreases terms.len(),
{
    if terms.len() > 0 {
        lemma_ingest_other(m, doc, terms.drop_last(), t, d);
        lemma_record_positions(
            m.ingest(doc, terms.drop_last()),
            doc,
            (terms.len() - 1) as usize,
            terms.last(),
            t,
            d,
        );
    }
}

/// Ingesting a document under an id that a term has no entry for gives the
/// term an entry whose positions ascend strictly and lie within the document.
pub proof fn lemma_ingest_fresh(m: IndexModel, doc: usize, terms: Seq<Seq<char>>, t: Seq<char>)
    requires
        terms.len() <= usize::MAX,
        m.positions(t, doc).len() == 0,
    ensures
        strictly_ascending(m.ingest(doc, terms).positions(t, doc)),
        forall|i: int|
            0 <= i < m.ingest(doc, terms).positions(t, doc).len() ==> m.ingest(
                doc,
                terms,
            ).positions(t, doc)[i] < terms.len(),
    decreases terms.len(),
{
    if terms.len() > 0 {
        lemma_ingest_fresh(m, doc, terms.drop_last(), t);
        lemma_record_positions(
            m.ingest(doc, terms.drop_last()),
            doc,
            (terms.len() - 1) as usize,
            terms.last(),
            t,
            doc,
        );
    }
}

/// Whether the documents of `docs` have ids that differ from each other.
pub open spec fn distinct_ids(docs: Seq<Document>) -> bool {
    forall|i: int, j: int| 0 <= i < j < docs.len() ==> docs[i].id != docs[j].id
}

/// In the index of a corpus in which no id is used twice, the positions of
/// every posting entry ascend strictly.
pub proof fn law_positions_ascend(
    ordering: TokenOrdering,
    docs: Seq<Document>,
    t: Seq<char>,
    d: usize,
)
    requires
        countable(docs),
        distinct_ids(docs),
    ensures
        strictly_ascending(corpus(ordering, docs).positions(t, d)),
    decreases docs.len(),
{
    if docs.len() > 0 {
        let rest = docs.drop_last();
        let last = docs.last();
        let before = corpus(ordering, rest);
        assert forall|k: int| 0 <= k < rest.len() implies (#[trigger] rest[k]).terms.len()
            <= usize::MAX by {
            assert(rest[k] == docs[k]);
        }
        assert forall|i: int, j: int| 0 <= i < j < rest.len() implies rest[i].id
            != rest[j].id by {
            assert(rest[i] == docs[i] && rest[j] == docs[j]);
        }
        law_positions_ascend(ordering, rest, t, d);
        if d == last.id {
            if before.positions(t, d).len() > 0 {
                let p = before.positions(t, d)[0];
                assert(before.positions(t, d).contains(p));
                lemma_corpus_positions(ordering, rest, t, d, p);
                let k = choose|k: int| holds_at(rest, k, t, d, p as int);
                assert(docs[k].id != docs[docs.len() - 1].id);
            }
            lemma_ingest_fresh(before, last.id, last.terms, t);
        } else {
            lemma_ingest_other(before, last.id, last.terms, t, d);
        }
    }
}

/// A query without characters has no terms, and a query without terms finds
/// no document, whatever the index holds.
pub proof fn law_empty_query(m: IndexModel, d: usize)
    ensures
        tokens(Seq::<char>::empty()) == Seq::<Seq<char>>::empty(),
        !m.search(Seq::<Seq<char>>::empty()).contains(d),
{
    assert(tokens(Seq::<char>::empty()) =~= Seq::<Seq<char>>::empty());
    assert(m.ordered(Seq::<Seq<char>>::empty()) =~= Seq::<Seq<char>>::empty());
}

/// In the index of a corpus, the query with the single term `t` finds the
/// document id `d` exactly if a document ingested under that id holds `t`.
pub proof fn law_single_term_search(
    ordering: TokenOrdering,
    docs: Seq<Document>,
    t: Seq<char>,
    d: usize,
)
    requires
        countable(docs),
    ensures
        corpus(ordering, docs).search(seq![t]).contains(d) <==> exists|k: int|
            0 <= k < docs.len() && (#[trigger] docs[k]).id == d && docs[k].terms.contains(t),
{
    let m = corpus(ordering, docs);
    lemma_ordered_single(m, t);
    lemma_matches_single(m, t, d);
    if m.search(seq![t]).contains(d) {
        let p = m.positions(t, d)[0];
        assert(m.positions(t, d).contains(p));
        lemma_corpus_positions(ordering, docs, t, d, p);
        let k = choose|k: int| holds_at(docs, k, t, d, p as int);
        assert(docs[k].terms.contains(t));
    }
    if exists|k: int|
        0 <= k < docs.len() && (#[trigger] docs[k]).id == d && docs[k].terms.contains(t) {
        let k = choose|k: int|
            0 <= k < docs.len() && (#[trigger] docs[k]).id == d && docs[k].terms.contains(t);
        let i = choose|i: int| 0 <= i < docs[k].terms.len() && docs[k].terms[i] == t;
        let p = i as usize;
        assert(holds_at(docs, k, t, d, p as int));
        lemma_corpus_positions(ordering, docs, t, d, p);
    }
}

/// Every document that a query finds is found by the query of each single
/// term of it: the result lies within the results of the single terms.
pub proof fn law_result_within_single_terms(m: IndexModel, q: Seq<Seq<char>>, i: int, d: usize)
    requires
        0 <= i < q.len(),
        m.search(q).contains(d),
    ensures
        m.search(seq![q[i]]).contains(d),
{
    let t = q[i];
    let oq = m.ordered(q);
    lemma_ordered_contains(m, q, t);
    assert(q.contains(t));
    let j = choose|j: int| 0 <= j < oq.len() && oq[j] == t;
    let s = choose|s: usize| m.is_start(oq, d, s);
    assert(m.aligned(oq, d, s, j));
    lemma_ordered_single(m, t);
    lemma_matches_single(m, t, d);
}

/// The two-term case: what `t1 t2` finds, both `t1` and `t2` find.
pub proof fn law_two_terms_within_both(m: IndexModel, t1: Seq<char>, t2: Seq<char>, d: usize)
    requires
        m.search(seq![t1, t2]).contains(d),
    ensures
        m.search(seq![t1]).contains(d),
        m.search(seq![t2]).contains(d),
{
    law_result_within_single_terms(m, seq![t1, t2], 0, d);
    law_result_within_single_terms(m, seq![t1, t2], 1, d);
}

/// A query with a term that the index does not know finds no document,
/// whatever its other terms match.
pub proof fn law_unknown_term_finds_nothing(m: IndexModel, q: Seq<Seq<char>>, i: int, d: usize)
    requires
        0 <= i < q.len(),
        !m.postings.contains_key(q[i]),
    ensures
        !m.search(q).contains(d),
{
    let oq = m.ordered(q);
    lemma_ordered_contains(m, q, q[i]);
    assert(q.contains(q[i]));
    let j = choose|j: int| 0 <= j < oq.len() && oq[j] == q[i];
    assert forall|s: usize| !m.is_start(oq, d, s) by {
        lemma_unknown_term_no_start(m, oq, j, d, s);
    }
}

/// Where the terms of a query are resolved in the order of the query, a
/// document of the corpus that holds them one after the other is found.
pub proof fn law_phrase_is_found(
    ordering: TokenOrdering,
    docs: Seq<Document>,
    q: Seq<Seq<char>>,
    k: int,
    start: int,
)
    requires
        countable(docs),
        0 <= k < docs.len(),
        q.len() > 0,
        occurs_in(q, docs[k].terms, start),
        corpus(ordering, docs).ordered(q) == q,
    ensures
        corpus(ordering, docs).search(q).contains(docs[k].id),
{
    let m = corpus(ordering, docs);
    let d = docs[k].id;
    let s = start as usize;
    assert forall|i: int| 0 <= i < q.len() implies #[trigger] m.aligned(q, d, s, i) by {
        let p = (start + i) as usize;
        assert(holds_at(docs, k, q[i], d, p as int));
        lemma_corpus_positions(ordering, docs, q[i], d, p);
    }
    assert(m.is_start(q, d, s));
}

/// Ingesting once more, under the same id, the terms that were ingested last
/// changes no entry's set of positions, so every phrase matches the documents
/// that it matched before.
pub proof fn law_reingest_keeps_matches(
    m: IndexModel,
    doc: usize,
    terms: Seq<Seq<char>>,
    q: Seq<Seq<char>>,
    d: usize,
)
    requires
        terms.len() <= usize::MAX,
    ensures
        m.ingest(doc, terms).ingest(doc, terms).matches(q, d) <==> m.ingest(doc, terms).matches(
            q,
            d,
        ),
{
    let once = m.ingest(doc, terms);
    let twice = once.ingest(doc, terms);
    assert forall|s: usize| twice.is_start(q, d, s) <==> once.is_start(q, d, s) by {
        assert forall|i: int| 0 <= i < q.len() implies (#[trigger] twice.aligned(q, d, s, i)
            <==> once.aligned(q, d, s, i)) by {
            if 0 <= s + i <= usize::MAX {
                let p = (s + i) as usize;
                lemma_ingest_positions(m, doc, terms, q[i], d, p);
                lemma_ingest_positions(once, doc, terms, q[i], d, p);
            }
        }
        if twice.is_start(q, d, s) {
            assert forall|i: int| 0 <= i < q.len() implies #[trigger] once.aligned(q, d, s, i) by {
                assert(twice.aligned(q, d, s, i));
            }
        }
        if once.is_start(q, d, s) {
            assert forall|i: int| 0 <= i < q.len() implies #[trigger] twice.aligned(q, d, s, i) by {
                assert(once.aligned(q, d, s, i));
            }
        }
    }
    if twice.matches(q, d) {
        let s = choose|s: usize| twice.is_start(q, d, s);
        assert(once.is_start(q, d, s));
    }
    if once.matches(q, d) {
        let s = choose|s: usize| once.is_start(q, d, s);
        assert(twice.is_start(q, d, s));
    }
}

} // verus!
