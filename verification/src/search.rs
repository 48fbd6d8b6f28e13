//! Phrase search: the order in which query terms are resolved, and the
//! positional intersection of their posting lists.

use crate::idx::PositionalInvertedIndex;
use crate::model::{ascending, strictly_ascending, IndexModel, TokenOrdering};
use crate::posting::{Posting, TermEntry};
use crate::text::{tokenize, tokens, views};
use vstd::prelude::*;

verus! {

broadcast use vstd::seq_lib::lemma_seq_contains_after_push;

/// `<[T]>::sort` on a vector of numbers: afterwards the numbers ascend, and
/// each occurs as often as before.
#[verifier::external_body]
pub(crate) fn sort_ascending(v: &mut Vec<usize>)
    ensures
        ascending(final(v)@),
        final(v)@.to_multiset() == old(v)@.to_multiset(),
{
    v.sort();
}

/// A document that may still match, with the positions at which a match may start.
pub struct Candidate {
    /// The document.
    pub doc_id: usize,
    /// The positions at which the terms resolved so far occur one after the other.
    pub starts: Vec<usize>,
}

/// Whether `c` holds exactly the starts of the first `k` terms of `q` in its
/// document, and at least one.
pub open spec fn candidate_ok(m: IndexModel, q: Seq<Seq<char>>, k: int, c: Candidate) -> bool {
    &&& c.starts@.len() > 0
    &&& forall|s: usize| c.starts@.contains(s) <==> m.is_start(q.take(k), c.doc_id, s)
}

/// Whether one of `cands` is for document `d`.
pub open spec fn has_doc(cands: Seq<Candidate>, d: usize) -> bool {
    exists|a: int| 0 <= a < cands.len() && (#[trigger] cands[a]).doc_id == d
}

/// Whether the documents of `cands` differ from each other.
pub open spec fn distinct_docs(cands: Seq<Candidate>) -> bool {
    forall|a: int, b: int| 0 <= a < b < cands.len() ==> cands[a].doc_id != cands[b].doc_id
}

/// Whether `cands` are exactly the documents in which the first `k` terms of
/// `q` occur one after the other, each with exactly its starts.
pub open spec fn narrowed(m: IndexModel, q: Seq<Seq<char>>, k: int, cands: Seq<Candidate>) -> bool {
    &&& distinct_docs(cands)
    &&& forall|a: int| 0 <= a < cands.len() ==> candidate_ok(m, q, k, #[trigger] cands[a])
    &&& forall|d: usize, s: usize| #[trigger] m.is_start(q.take(k), d, s) ==> has_doc(cands, d)
}

/// A start of the first `k + 1` terms is a start of the first `k` at which
/// the next term is aligned too.
pub proof fn lemma_is_start_step(m: IndexModel, q: Seq<Seq<char>>, k: int, d: usize, s: usize)
    requires
        0 <= k < q.len(),
    ensures
        m.is_start(q.take(k + 1), d, s) <==> (m.is_start(q.take(k), d, s) && m.aligned(q, d, s, k)),
{
    if m.is_start(q.take(k + 1), d, s) {
        assert forall|i: int| 0 <= i < q.take(k).len() implies #[trigger] m.aligned(
            q.take(k),
            d,
            s,
            i,
        ) by {
            assert(m.aligned(q.take(k + 1), d, s, i));
        }
        assert(m.aligned(q.take(k + 1), d, s, k));
    }
    if m.is_start(q.take(k), d, s) && m.aligned(q, d, s, k) {
        assert forall|i: int| 0 <= i < q.take(k + 1).len() implies #[trigger] m.aligned(
            q.take(k + 1),
            d,
            s,
            i,
        ) by {
            if i < k {
                assert(m.aligned(q.take(k), d, s, i));
            }
        }
    }
}

/// A start of a phrase is a position of its first term.
pub proof fn lemma_is_start_first(m: IndexModel, q: Seq<Seq<char>>, d: usize, s: usize)
    requires
        0 < q.len(),
    ensures
        m.is_start(q.take(1), d, s) <==> m.positions(q[0], d).contains(s),
{
    if m.is_start(q.take(1), d, s) {
        assert(m.aligned(q.take(1), d, s, 0));
    }
    if m.positions(q[0], d).contains(s) {
        assert forall|i: int| 0 <= i < q.take(1).len() implies #[trigger] m.aligned(
            q.take(1),
            d,
            s,
            i,
        ) by {}
    }
}

/// A phrase with a term that the index does not know starts nowhere.
pub proof fn lemma_unknown_term_no_start(m: IndexModel, q: Seq<Seq<char>>, k: int, d: usize, s: usize)
    requires
        0 <= k < q.len(),
        !m.postings.contains_key(q[k]),
    ensures
        !m.is_start(q, d, s),
{
    if m.is_start(q, d, s) {
        assert(m.aligned(q, d, s, k));
    }
}

/// `sorted` with `term` at place `j`, where `j` is behind every entry whose
/// frequency is not greater and before every other, is what
/// [`IndexModel::insert_by_frequency`] gives.
pub proof fn lemma_insert_by_frequency(m: IndexModel, sorted: Seq<Seq<char>>, term: Seq<char>, j: int)
    requires
        0 <= j <= sorted.len(),
        forall|i: int| j <= i < sorted.len() ==> m.frequency(#[trigger] sorted[i]) > m.frequency(term),
        j > 0 ==> m.frequency(sorted[j - 1]) <= m.frequency(term),
    ensures
        m.insert_by_frequency(sorted, term) == sorted.insert(j, term),
    decreases sorted.len(),
{
    if sorted.len() == 0 {
        assert(seq![term] =~= sorted.insert(j, term));
    } else if j == sorted.len() {
        assert(sorted.push(term) =~= sorted.insert(j, term));
    } else {
        assert(m.frequency(sorted[sorted.len() - 1]) > m.frequency(term));
        lemma_insert_by_frequency(m, sorted.drop_last(), term, j);
        assert(sorted.drop_last().insert(j, term).push(sorted.last()) =~= sorted.insert(j, term));
    }
}

/// The candidates that the first term of a query gives: every document of
/// its posting list, with all positions of the term as starts.
fn seed(entry: &TermEntry) -> (cands: Vec<Candidate>)
    requires
        entry.wf(),
    ensures
        cands@.len() == entry.postings@.len(),
        forall|j: int|
            0 <= j < cands@.len() ==> (#[trigger] cands@[j]).doc_id == entry.postings@[j].doc_id
                && cands@[j].starts@ == entry.postings@[j].positions@,
{
    let mut cands: Vec<Candidate> = Vec::new();
    let mut j: usize = 0;
    while j < entry.postings.len()
        invariant
            j <= entry.postings@.len(),
            cands@.len() == j,
            forall|i: int|
                0 <= i < cands@.len() ==> (#[trigger] cands@[i]).doc_id == entry.postings@[i].doc_id
                    && cands@[i].starts@ == entry.postings@[i].positions@,
        decreases entry.postings@.len() - j,
    {
        let p = &entry.postings[j];
        cands.push(Candidate { doc_id: p.doc_id, starts: p.positions.clone() });
        j += 1;
    }
    cands
}

/// Those of `starts` from which `offset` steps lead to a position of `posting`.
fn surviving(starts: &Vec<usize>, posting: &Posting, offset: usize) -> (kept: Vec<usize>)
    requires
        posting.wf(),
    ensures
        forall|s: usize|
            kept@.contains(s) <==> starts@.contains(s) && s + offset <= usize::MAX
                && posting.positions@.contains((s + offset) as usize),
{
    let mut kept: Vec<usize> = Vec::new();
    let mut a: usize = 0;
    assert(starts@.take(0) =~= Seq::empty());
    while a < starts.len()
        invariant
            a <= starts@.len(),
            posting.wf(),
            forall|s: usize|
                kept@.contains(s) <==> starts@.take(a as int).contains(s) && s + offset
                    <= usize::MAX && posting.positions@.contains((s + offset) as usize),
        decreases starts@.len() - a,
    {
        let s = starts[a];
        proof {
            assert(starts@.take(a + 1) =~= starts@.take(a as int).push(s));
        }
        if s <= usize::MAX - offset && posting.contains(s + offset) {
            kept.push(s);
        }
        a += 1;
    }
    assert(starts@.take(a as int) =~= starts@);
    kept
}

/// Whether the terms of `q` occur one after the other somewhere in `d`.
pub open spec fn has_start(m: IndexModel, q: Seq<Seq<char>>, d: usize) -> bool {
    exists|s: usize| m.is_start(q, d, s)
}

/// Keeps of `cands`, which stand for the first `k` terms of `q`, what the
/// next term leaves: a start stays where the term occurs `k` positions behind
/// it in the same document, and a document stays while it has a start.
fn narrow(
    cands: &Vec<Candidate>,
    entry: &TermEntry,
    k: usize,
    Ghost(m): Ghost<IndexModel>,
    Ghost(q): Ghost<Seq<Seq<char>>>,
) -> (out: Vec<Candidate>)
    requires
        0 < k < q.len(),
        narrowed(m, q, k as int, cands@),
        entry.wf(),
        m.postings.contains_key(q[k as int]),
        entry.list() == m.postings[q[k as int]],
    ensures
        narrowed(m, q, k + 1, out@),
{
    let ghost q1 = q.take(k + 1);
    let mut out: Vec<Candidate> = Vec::new();
    let mut a: usize = 0;
    while a < cands.len()
        invariant
            a <= cands@.len(),
            0 < k < q.len(),
            q1 == q.take(k + 1),
            narrowed(m, q, k as int, cands@),
            entry.wf(),
            m.postings.contains_key(q[k as int]),
            entry.list() == m.postings[q[k as int]],
            distinct_docs(out@),
            forall|b: int| 0 <= b < out@.len() ==> candidate_ok(m, q, k + 1, #[trigger] out@[b]),
            forall|b: int|
                0 <= b < out@.len() ==> has_doc(cands@.take(a as int), (#[trigger] out@[b]).doc_id),
            forall|i: int|
                0 <= i < a && has_start(m, q1, (#[trigger] cands@[i]).doc_id)
                    ==> has_doc(out@, cands@[i].doc_id),
        decreases cands@.len() - a,
    {
        let c = &cands[a];
        let ghost d = c.doc_id;
        let ghost before = out@;
        assert(candidate_ok(m, q, k as int, cands@[a as int]));
        let mut stays = false;
        match entry.find(c.doc_id) {
            Some(j) => {
                let kept = surviving(&c.starts, &entry.postings[j], k);
                proof {
                    assert forall|s: usize| kept@.contains(s) <==> m.is_start(
                        q1,
                        d,
                        s,
                    ) by {
                        lemma_is_start_step(m, q, k as int, d, s);
                    }
                }
                if kept.len() > 0 {
                    stays = true;
                    out.push(Candidate { doc_id: c.doc_id, starts: kept });
                } else {
                    proof {
                        if has_start(m, q1, d) {
                            let s = choose|s: usize| m.is_start(q1, d, s);
                            assert(kept@.contains(s));
                        }
                    }
                }
            },
            None => {
                proof {
                    if has_start(m, q1, d) {
                        let s = choose|s: usize| m.is_start(q1, d, s);
                        lemma_is_start_step(m, q, k as int, d, s);
                    }
                }
            },
        }
        proof {
            assert(!stays ==> !has_start(m, q1, d));
            assert forall|b: int| 0 <= b < before.len() implies has_doc(
                cands@.take(a + 1),
                (#[trigger] before[b]).doc_id,
            ) && before[b].doc_id != d by {
                let w = choose|w: int|
                    0 <= w < cands@.take(a as int).len() && (#[trigger] cands@.take(
                        a as int,
                    )[w]).doc_id == before[b].doc_id;
                assert(cands@.take(a + 1)[w].doc_id == before[b].doc_id);
                assert(cands@[w].doc_id != cands@[a as int].doc_id);
            }
            if stays {
                assert(out@ == before.push(out@[before.len() as int]));
                assert(cands@.take(a + 1)[a as int].doc_id == d);
                assert(out@[before.len() as int].doc_id == d);
            }
            assert forall|b: int| 0 <= b < out@.len() implies has_doc(
                cands@.take(a + 1),
                (#[trigger] out@[b]).doc_id,
            ) by {
                if b < before.len() {
                    assert(out@[b] == before[b]);
                }
            }
            assert forall|i: int|
                0 <= i < a + 1 && has_start(m, q1, (#[trigger] cands@[i]).doc_id) implies has_doc(
                out@,
                cands@[i].doc_id,
            ) by {
                if i < a {
                    let w = choose|w: int|
                        0 <= w < before.len() && (#[trigger] before[w]).doc_id == cands@[i].doc_id;
                    assert(out@[w].doc_id == cands@[i].doc_id);
                } else {
                    assert(stays);
                    assert(out@[before.len() as int].doc_id == d);
                }
            }
        }
        a += 1;
    }
    proof {
        assert forall|d: usize, s: usize| #[trigger]
            m.is_start(q1, d, s) implies has_doc(out@, d) by {
            lemma_is_start_step(m, q, k as int, d, s);
            assert(has_doc(cands@, d));
            let i = choose|i: int| 0 <= i < cands@.len() && (#[trigger] cands@[i]).doc_id == d;
            assert(has_start(m, q1, cands@[i].doc_id));
        }
    }
    out
}

impl PositionalInvertedIndex {
    /// The terms of a query in the order in which this index resolves them:
    /// as given, or by ascending frequency where the index was made so.
    pub fn order_tokens(&self, terms: &Vec<String>) -> (out: Vec<String>)
        requires
            self.wf(),
        ensures
            views(out@) == self@.ordered(views(terms@)),
    {
        match self.ordering() {
            TokenOrdering::TokenOrder => {
                let out = terms.clone();
                assert(views(out@) =~= views(terms@));
                out
            },
            TokenOrdering::AscendingFrequencyOrder => {
                let mut out: Vec<String> = Vec::new();
                let mut keys: Vec<usize> = Vec::new();
                let mut k: usize = 0;
                assert(views(terms@).take(0) =~= Seq::empty());
                assert(views(out@) =~= Seq::empty());
                while k < terms.len()
                    invariant
                        k <= terms@.len(),
                        self.wf(),
                        out@.len() == keys@.len(),
                        views(out@) == self@.by_frequency(views(terms@).take(k as int)),
                        forall|i: int|
                            0 <= i < keys@.len() ==> #[trigger] keys@[i] == self@.frequency(
                                out@[i]@,
                            ),
                    decreases terms@.len() - k,
                {
                    let term = &terms[k];
                    let f = self.frequency(term.as_str());
                    let mut j: usize = out.len();
                    while j > 0 && keys[j - 1] > f
                        invariant
                            j <= keys@.len(),
                            forall|i: int| j <= i < keys@.len() ==> #[trigger] keys@[i] > f,
                        decreases j,
                    {
                        j -= 1;
                    }
                    proof {
                        let sorted = views(out@);
                        assert forall|i: int| j <= i < sorted.len() implies self@.frequency(
                            #[trigger] sorted[i],
                        ) > self@.frequency(term@) by {
                            assert(keys@[i] > f);
                        }
                        if j > 0 {
                            assert(keys@[j - 1] <= f);
                        }
                        lemma_insert_by_frequency(self@, sorted, term@, j as int);
                        let next = views(terms@).take(k + 1);
                        assert(next.drop_last() =~= views(terms@).take(k as int));
                        assert(next.last() == term@);
                    }
                    let ghost before = out@;
                    out.insert(j, term.clone());
                    keys.insert(j, f);
                    assert(views(out@) =~= views(before).insert(j as int, term@));
                    k += 1;
                }
                assert(views(terms@).take(k as int) =~= views(terms@));
                out
            },
        }
    }
    /// The documents that hold `terms` as a phrase, by ascending id.
    ///
    /// The first term seeds the candidates: every document of its posting
    /// list, with the positions of the term as starts. Each further term
    /// keeps a start only where the term occurs at its distance behind it. A
    /// term that the index does not know leaves nothing.
    pub fn resolve(&self, terms: &Vec<String>) -> (out: Vec<usize>)
        requires
            self.wf(),
        ensures
            strictly_ascending(out@),
            forall|d: usize| out@.contains(d) <==> self@.matches(views(terms@), d),
    {
        let ghost q = views(terms@);
        if terms.len() == 0 {
            return Vec::new();
        }
        let first = match self.find_term(terms[0].as_str()) {
            Some(i) => self.entry(i),
            None => {
                proof {
                    assert forall|d: usize| !self@.matches(q, d) by {
                        assert forall|s: usize| !self@.is_start(q, d, s) by {
                            lemma_unknown_term_no_start(self@, q, 0, d, s);
                        }
                    }
                }
                return Vec::new();
            },
        };
        let mut cands = seed(first);
        proof {
            let m = self@;
            assert forall|a: int| 0 <= a < cands@.len() implies candidate_ok(
                m,
                q,
                1,
                #[trigger] cands@[a],
            ) by {
                let c = cands@[a];
                assert(first.postings@[a].wf());
                assert(m.positions(q[0], c.doc_id) == c.starts@);
                assert forall|s: usize| c.starts@.contains(s) <==> m.is_start(
                    q.take(1),
                    c.doc_id,
                    s,
                ) by {
                    lemma_is_start_first(m, q, c.doc_id, s);
                }
            }
            assert forall|d: usize, s: usize| #[trigger]
                m.is_start(q.take(1), d, s) implies has_doc(cands@, d) by {
                lemma_is_start_first(m, q, d, s);
                let j = first.by_doc@[d] as int;
                assert(cands@[j].doc_id == d);
            }
            assert forall|a: int, b: int| 0 <= a < b < cands@.len() implies cands@[a].doc_id
                != cands@[b].doc_id by {
                assert(first.postings@[a].wf());
                assert(first.postings@[b].wf());
            }
        }
        let mut k: usize = 1;
        while k < terms.len()
            invariant
                1 <= k <= terms@.len(),
                self.wf(),
                q == views(terms@),
                narrowed(self@, q, k as int, cands@),
            decreases terms@.len() - k,
        {
            match self.find_term(terms[k].as_str()) {
                Some(i) => {
                    let entry = self.entry(i);
                    cands = narrow(&cands, entry, k, Ghost(self@), Ghost(q));
                },
                None => {
                    proof {
                        assert forall|d: usize| !self@.matches(q, d) by {
                            assert forall|s: usize| !self@.is_start(q, d, s) by {
                                lemma_unknown_term_no_start(self@, q, k as int, d, s);
                            }
                        }
                    }
                    return Vec::new();
                },
            }
            k += 1;
        }
        assert(q.take(k as int) =~= q);
        let mut out: Vec<usize> = Vec::new();
        let mut a: usize = 0;
        while a < cands.len()
            invariant
                a <= cands@.len(),
                out@.len() == a,
                forall|i: int| 0 <= i < a ==> out@[i] == (#[trigger] cands@[i]).doc_id,
            decreases cands@.len() - a,
        {
            out.push(cands[a].doc_id);
            a += 1;
        }
        let ghost unsorted = out@;
        sort_ascending(&mut out);
        proof {
            assert(unsorted.no_duplicates()) by {
                assert forall|i: int, j: int|
                    0 <= i < unsorted.len() && 0 <= j < unsorted.len() && i != j implies unsorted[i]
                    != unsorted[j] by {
                    if i < j {
                        assert(cands@[i].doc_id != cands@[j].doc_id);
                    } else {
                        assert(cands@[j].doc_id != cands@[i].doc_id);
                    }
                }
            }
            unsorted.lemma_multiset_has_no_duplicates();
            out@.lemma_multiset_has_no_duplicates_conv();
            assert(strictly_ascending(out@)) by {
                assert forall|i: int, j: int| 0 <= i < j < out@.len() implies out@[i] < out@[j] by {
                    assert(out@[i] <= out@[j]);
                    assert(out@[i] != out@[j]);
                }
            }
            assert forall|d: usize| out@.contains(d) <==> self@.matches(q, d) by {
                vstd::seq_lib::to_multiset_contains(out@, d);
                vstd::seq_lib::to_multiset_contains(unsorted, d);
                assert(out@.contains(d) <==> unsorted.contains(d));
                if unsorted.contains(d) {
                    let i = choose|i: int| 0 <= i < unsorted.len() && unsorted[i] == d;
                    assert(candidate_ok(self@, q, k as int, cands@[i]));
                    let s = cands@[i].starts@[0];
                    assert(cands@[i].starts@.contains(s));
                    assert(self@.is_start(q, d, s));
                }
                if self@.matches(q, d) {
                    let s = choose|s: usize| self@.is_start(q, d, s);
                    assert(self@.is_start(q.take(k as int), d, s));
                    assert(has_doc(cands@, d));
                    let i = choose|i: int| 0 <= i < cands@.len() && (#[trigger] cands@[i]).doc_id == d;
                    assert(unsorted[i] == d);
                }
            }
        }
        out
    }

    /// The documents that hold the terms of `query` as a phrase, by ascending
    /// id; none for a query without terms.
    ///
    /// The terms are those of [`tokens`], in the order that
    /// [`IndexModel::ordered`] gives them. An index made with
    /// [`TokenOrdering::AscendingFrequencyOrder`] therefore matches the
    /// reordered terms as the phrase: the distance of a term from the start
    /// of a match is its place after reordering, not its place in the query.
    pub fn search(&self, query: &str) -> (out: Vec<usize>)
        requires
            self.wf(),
        ensures
            strictly_ascending(out@),
            forall|d: usize| out@.contains(d) <==> self@.search(tokens(query@)).contains(d),
            query@.len() == 0 ==> out@.len() == 0,
    {
        if query.is_empty() {
            assert(tokens(query@) =~= Seq::empty());
            assert(self@.ordered(tokens(query@)) =~= Seq::empty());
            return Vec::new();
        }
        let terms = tokenize(query);
        let ordered = self.order_tokens(&terms);
        self.resolve(&ordered)
    }
}

} // verus!
