//! Estimates of the memory that the index occupies. They are rough figures
//! for capacity planning, not measurements.

use crate::idx::{PositionalInvertedIndex, MAX_OCCURRENCES};
use crate::model::{ascending, AVERAGE_TERM_BYTES, KEY_BYTES, TABLE_BYTES, WORD_BYTES};
use crate::posting::{lemma_total_positions_bound, total_positions, Posting, TermEntry};
use crate::search::sort_ascending;
use vstd::hash_map::StringHashMap;
use vstd::prelude::*;

verus! {

/// The entries before the `j`-th hold no more positions than all of them.
proof fn lemma_total_positions_prefix(list: Seq<Posting>, j: int)
    requires
        0 <= j <= list.len(),
    ensures
        total_positions(list.take(j)) <= total_positions(list),
    decreases list.len(),
{
    if j == list.len() {
        assert(list.take(j) =~= list);
    } else {
        assert(list.drop_last().take(j) =~= list.take(j));
        lemma_total_positions_prefix(list.drop_last(), j);
    }
}

/// The estimated size in bytes of one posting list: for every document one
/// word for each position and one for the document id.
pub fn posting_list_bytes(entry: &TermEntry) -> (bytes: usize)
    requires
        entry.wf(),
        entry.frequency <= MAX_OCCURRENCES,
    ensures
        bytes == (entry.frequency + entry.list().dom().len()) * WORD_BYTES,
{
    let mut bytes: usize = 0;
    let mut j: usize = 0;
    proof {
        assert(entry.postings@.take(0) =~= Seq::empty());
        lemma_total_positions_bound(entry.postings@);
        assert(entry.list().dom() =~= entry.by_doc@.dom());
    }
    while j < entry.postings.len()
        invariant
            j <= entry.postings@.len(),
            entry.wf(),
            entry.frequency <= MAX_OCCURRENCES,
            entry.postings@.len() <= entry.frequency,
            bytes == (total_positions(entry.postings@.take(j as int)) + j) * WORD_BYTES,
        decreases entry.postings@.len() - j,
    {
        proof {
            assert(entry.postings@.take(j + 1).drop_last() =~= entry.postings@.take(j as int));
            lemma_total_positions_prefix(entry.postings@, j + 1);
        }
        bytes += (entry.postings[j].positions.len() + 1) * WORD_BYTES;
        j += 1;
    }
    proof {
        assert(entry.postings@.take(j as int) =~= entry.postings@);
    }
    bytes
}

impl PositionalInvertedIndex {
    /// The estimated size in bytes of the term tables.
    pub fn approximate_term_list_size_in_bytes(&self) -> (bytes: usize)
        requires
            self.wf(),
        ensures
            bytes == self@.term_table_bytes(),
    {
        proof {
            self.lemma_wf();
        }
        let terms = self.vocabulary_size();
        assert(terms <= usize::MAX / 64);
        assert(usize::MAX >= 0xffff_ffff);
        assert(terms * (KEY_BYTES + AVERAGE_TERM_BYTES) == terms * 28);
        assert(terms * (KEY_BYTES + WORD_BYTES) == terms * 32);
        let term_list = TABLE_BYTES + terms * (KEY_BYTES + AVERAGE_TERM_BYTES);
        let frequency_list = TABLE_BYTES + terms * (KEY_BYTES + WORD_BYTES);
        term_list + frequency_list
    }

    /// The estimated sizes in bytes of the posting lists, one per known term,
    /// in ascending order.
    pub fn approximate_posting_list_sizes_in_bytes(&self) -> (sizes: Vec<usize>)
        requires
            self.wf(),
        ensures
            sizes@.len() == self@.terms.len(),
            ascending(sizes@),
            sizes@.to_multiset() == self@.term_sizes().to_multiset(),
    {
        let mut sizes: Vec<usize> = Vec::new();
        let mut i: usize = 0;
        while i < self.vocabulary_size()
            invariant
                i <= self@.terms.len(),
                self.wf(),
                sizes@.len() == i,
                forall|j: int| 0 <= j < i ==> sizes@[j] == self@.posting_bytes(self@.terms[j]),
            decreases self@.terms.len() - i,
        {
            let entry = self.entry(i);
            sizes.push(posting_list_bytes(entry));
            i += 1;
        }
        let ghost unsorted = sizes@;
        assert(unsorted =~= self@.term_sizes());
        sort_ascending(&mut sizes);
        proof {
            vstd::seq_lib::to_multiset_len(unsorted);
            vstd::seq_lib::to_multiset_len(sizes@);
        }
        sizes
    }

    /// The estimated size in bytes of the posting list of every known term.
    pub fn approximate_posting_list_sizes_in_bytes_by_term(&self) -> (sizes: StringHashMap<usize>)
        requires
            self.wf(),
        ensures
            sizes@.dom() == self@.postings.dom(),
            forall|t: Seq<char>| #[trigger]
                sizes@.contains_key(t) ==> sizes@[t] == self@.posting_bytes(t),
    {
        let mut sizes: StringHashMap<usize> = StringHashMap::new();
        let mut i: usize = 0;
        proof {
            self.lemma_wf();
        }
        while i < self.vocabulary_size()
            invariant
                i <= self@.terms.len(),
                self.wf(),
                self@.inv(),
                forall|t: Seq<char>| sizes@.contains_key(t) <==> self@.terms.take(i as int).contains(t),
                forall|t: Seq<char>| #[trigger]
                    sizes@.contains_key(t) ==> sizes@[t] == self@.posting_bytes(t),
            decreases self@.terms.len() - i,
        {
            let entry = self.entry(i);
            proof {
                assert(self@.terms.take(i + 1) =~= self@.terms.take(i as int).push(entry.term@));
            }
            let ghost before = sizes@;
            sizes.insert(entry.term.clone(), posting_list_bytes(entry));
            proof {
                assert forall|t: Seq<char>| sizes@.contains_key(t) <==> self@.terms.take(
                    i + 1,
                ).contains(t) by {
                    vstd::seq_lib::lemma_seq_contains_after_push(
                        self@.terms.take(i as int),
                        entry.term@,
                        t,
                    );
                }
            }
            i += 1;
        }
        proof {
            assert(self@.terms.take(i as int) =~= self@.terms);
            assert(sizes@.dom() =~= self@.postings.dom());
        }
        sizes
    }
}

} // verus!
