//! Random choice of terms, weighted by corpus frequency.

use crate::idx::PositionalInvertedIndex;
use crate::model::{naturals, sum, IndexModel};
use crate::query_tokens::weights_of;
use rand::distributions::{Distribution, WeightedIndex};
use rand::thread_rng;
use vstd::hash_map::StringHashMap;
use vstd::prelude::*;
use vstd::set_lib::{lemma_int_range, lemma_len_subset, set_int_range};

verus! {

/// `WeightedIndex::new` on `weights`, then one `sample` of it with
/// `thread_rng()`: the place of a weight, drawn with a chance in proportion to
/// the weight. Building fails on no weights, on weights that are all 0 and on
/// a sum beyond a machine word, which `requires` leaves out. The draw is a
/// number below the sum, and the place returned is the first whose weights up
/// to and including it exceed that number, so its own weight is not 0. Which
/// place comes back is left open.
#[verifier::external_body]
pub(crate) fn weighted_pick(weights: &Vec<usize>) -> (i: usize)
    requires
        sum(weights@) <= usize::MAX,
        exists|j: int| 0 <= j < weights@.len() && weights@[j] > 0,
    ensures
        i < weights@.len(),
        weights@[i as int] > 0,
{
    let choice = WeightedIndex::new(weights).unwrap();
    choice.sample(&mut thread_rng())
}

/// Setting one number to 0 takes it off the sum.
proof fn lemma_sum_clear(s: Seq<usize>, i: int)
    requires
        0 <= i < s.len(),
    ensures
        sum(s.update(i, 0)) == sum(s) - s[i],
    decreases s.len(),
{
    if i == s.len() - 1 {
        assert(s.update(i, 0).drop_last() =~= s.drop_last());
    } else {
        assert(s.update(i, 0).drop_last() =~= s.drop_last().update(i, 0));
        lemma_sum_clear(s.drop_last(), i);
    }
}

/// Fewer than `total` chosen places below `total` leave one that is not chosen.
proof fn lemma_one_left(chosen: Set<int>, total: int)
    requires
        chosen.finite(),
        chosen.len() < total,
    ensures
        exists|j: int| 0 <= j < total && !chosen.contains(j),
{
    if forall|j: int| 0 <= j < total ==> chosen.contains(j) {
        lemma_int_range(0, total);
        assert(set_int_range(0, total).subset_of(chosen));
        lemma_len_subset(set_int_range(0, total), chosen);
    }
}

/// Whether `t` is the term at one of the chosen places.
pub open spec fn picked(terms: Seq<Seq<char>>, chosen: Set<int>, t: Seq<char>) -> bool {
    exists|j: int| #[trigger] chosen.contains(j) && 0 <= j < terms.len() && terms[j] == t
}

/// Whether `list` holds known terms of `m`, none of them twice, each with its
/// frequency.
pub open spec fn is_sample(list: Seq<(String, usize)>, m: IndexModel) -> bool {
    &&& forall|j: int|
        0 <= j < list.len() ==> m.postings.contains_key((#[trigger] list[j]).0@) && list[j].1
            == m.frequency(list[j].0@) && list[j].1 > 0
    &&& forall|a: int, b: int| 0 <= a < b < list.len() ==> list[a].0@ != list[b].0@
    &&& sum(weights_of(list)) <= m.occurrences
}

impl PositionalInvertedIndex {
    /// Up to `n` different known terms, each with its frequency, drawn at
    /// random: one term at a time from those not yet drawn, each with a
    /// chance in proportion to its frequency. All terms come back where `n`
    /// is not below their number; none where `n` is 0 or the index is empty.
    pub fn get_random_terms(&self, n: usize) -> (out: StringHashMap<usize>)
        requires
            self.wf(),
        ensures
            out@.dom().finite(),
            out@.dom().len() == if n <= self@.terms.len() {
                n as nat
            } else {
                self@.terms.len()
            },
            forall|t: Seq<char>| #[trigger]
                out@.contains_key(t) ==> self@.postings.contains_key(t) && out@[t]
                    == self@.frequency(t),
    {
        self.draw(n).0
    }

    /// What [`PositionalInvertedIndex::get_random_terms`] draws, as a list in
    /// the order in which the terms were drawn.
    pub fn get_random_term_list(&self, n: usize) -> (out: Vec<(String, usize)>)
        requires
            self.wf(),
        ensures
            out@.len() == if n <= self@.terms.len() {
                n as nat
            } else {
                self@.terms.len()
            },
            is_sample(out@, self@),
    {
        self.draw(n).1
    }

    /// Draws up to `n` different known terms and gives them both as a map
    /// and as a list.
    fn draw(&self, n: usize) -> (out: (StringHashMap<usize>, Vec<(String, usize)>))
        requires
            self.wf(),
        ensures
            out.0@.dom().finite(),
            out.0@.dom().len() == if n <= self@.terms.len() {
                n as nat
            } else {
                self@.terms.len()
            },
            forall|t: Seq<char>| #[trigger]
                out.0@.contains_key(t) ==> self@.postings.contains_key(t) && out.0@[t]
                    == self@.frequency(t),
            out.1@.len() == out.0@.dom().len(),
            is_sample(out.1@, self@),
    {
        let total = self.vocabulary_size();
        let target = if n <= total {
            n
        } else {
            total
        };
        let mut out: StringHashMap<usize> = StringHashMap::new();
        let mut list: Vec<(String, usize)> = Vec::new();
        let mut weights = self.frequencies();
        let mut count: usize = 0;
        let ghost terms = self@.terms;
        let ghost mut chosen: Set<int> = Set::empty();
        proof {
            self.lemma_wf();
            assert(naturals(weights@).len() == weights@.len());
            assert forall|j: int| 0 <= j < total implies weights@[j] == self@.frequency(
                terms[j],
            ) by {
                assert(naturals(weights@)[j] == self@.term_frequencies()[j]);
            }
            assert(weights_of(list@) =~= Seq::<usize>::empty());
        }
        while count < target
            invariant
                self.wf(),
                self@.inv(),
                terms == self@.terms,
                total == terms.len(),
                target <= total,
                count <= target,
                weights@.len() == total,
                sum(weights@) + sum(weights_of(list@)) <= self@.occurrences <= usize::MAX,
                list@.len() == count,
                forall|j: int|
                    0 <= j < list@.len() ==> out@.contains_key((#[trigger] list@[j]).0@)
                        && list@[j].1 == self@.frequency(list@[j].0@) && list@[j].1 > 0,
                forall|a: int, b: int| 0 <= a < b < list@.len() ==> list@[a].0@ != list@[b].0@,
                forall|j: int|
                    0 <= j < total ==> #[trigger] weights@[j] == (if chosen.contains(j) {
                        0
                    } else {
                        self@.frequency(terms[j])
                    }),
                chosen.finite(),
                chosen.len() == count,
                out@.dom().finite(),
                out@.dom().len() == count,
                forall|t: Seq<char>| out@.contains_key(t) <==> picked(terms, chosen, t),
                forall|t: Seq<char>| #[trigger]
                    out@.contains_key(t) ==> self@.postings.contains_key(t) && out@[t]
                        == self@.frequency(t),
            decreases target - count,
        {
            proof {
                lemma_one_left(chosen, total as int);
                let j = choose|j: int| 0 <= j < total && !chosen.contains(j);
                assert(terms.contains(terms[j]));
                assert(self@.postings.contains_key(terms[j]));
                assert(weights@[j] > 0);
            }
            let i = weighted_pick(&weights);
            let entry = self.entry(i);
            let ghost before = out@;
            let ghost chosen_before = chosen;
            proof {
                assert(!chosen.contains(i as int));
                if before.contains_key(entry.term@) {
                    assert(picked(terms, chosen, entry.term@));
                    let j = choose|j: int| #[trigger]
                        chosen.contains(j) && 0 <= j < terms.len() && terms[j] == entry.term@;
                    assert(terms[j] == terms[i as int]);
                }
                lemma_sum_clear(weights@, i as int);
                chosen = chosen.insert(i as int);
            }
            let ghost listed = list@;
            out.insert(entry.term.clone(), entry.frequency);
            list.push((entry.term.clone(), entry.frequency));
            weights.set(i, 0);
            count += 1;
            proof {
                assert(weights_of(list@).drop_last() =~= weights_of(listed));
                assert(weights_of(list@).last() == entry.frequency);
                assert forall|a: int, b: int| 0 <= a < b < list@.len() implies list@[a].0@
                    != list@[b].0@ by {
                    assert(list@[a] == listed[a]);
                    if b < listed.len() {
                        assert(list@[b] == listed[b]);
                    } else {
                        assert(before.contains_key(listed[a].0@));
                    }
                }
                assert forall|j: int| 0 <= j < list@.len() implies out@.contains_key(
                    (#[trigger] list@[j]).0@,
                ) && list@[j].1 == self@.frequency(list@[j].0@) && list@[j].1 > 0 by {
                    if j < listed.len() {
                        assert(list@[j] == listed[j]);
                    }
                }
                assert(out@.dom() =~= before.dom().insert(entry.term@));
                assert forall|t: Seq<char>| out@.contains_key(t) <==> picked(
                    terms,
                    chosen,
                    t,
                ) by {
                    if out@.contains_key(t) {
                        if t == entry.term@ {
                            assert(chosen.contains(i as int));
                        } else {
                            assert(before.contains_key(t));
                            assert(picked(terms, chosen_before, t));
                            let j = choose|j: int| #[trigger]
                                chosen_before.contains(j) && 0 <= j < terms.len() && terms[j] == t;
                            assert(chosen.contains(j));
                        }
                    }
                    if picked(terms, chosen, t) {
                        let j = choose|j: int| #[trigger]
                            chosen.contains(j) && 0 <= j < terms.len() && terms[j] == t;
                        if j != i {
                            assert(chosen_before.contains(j));
                            assert(picked(terms, chosen_before, t));
                        }
                    }
                }
            }
        }
        (out, list)
    }
}

} // verus!
