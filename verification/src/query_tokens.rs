//! Synthetic queries with which to exercise an index: from a fixed
//! dictionary, from weighted terms, or cut out of a paragraph.

use crate::idx::PositionalInvertedIndex;
use crate::model::{sum, IndexModel};
use crate::sample::is_sample;
use crate::sample::weighted_pick;
use crate::text::{join_words, joined, split_words, views, words};
use rand::seq::SliceRandom;
use rand::{thread_rng, Rng};
use vstd::prelude::*;

verus! {

/// Where the terms of synthetic queries come from.
#[derive(Clone, Copy, PartialEq, Eq, Debug, Structural)]
pub enum QueryTokenDistribution {
    /// From a fixed dictionary.
    Fixed,
    /// From terms of the index, drawn by their frequency.
    Uniform,
    /// From the document that was ingested last.
    FromDocument,
}

/// `Rng::gen_range` of `thread_rng()` on the range from `low` to `high`, both
/// included: some number of that range. An empty range, on which it panics,
/// is left out.
#[verifier::external_body]
fn random_between(low: usize, high: usize) -> (r: usize)
    requires
        low <= high,
    ensures
        low <= r <= high,
{
    thread_rng().gen_range(low..=high)
}

/// `SliceRandom::choose_multiple` with `thread_rng()`, collected: `amount` of
/// the words, or all of them where there are fewer, from places that differ,
/// in an order that is left open.
#[verifier::external_body]
fn choose_words(words: &Vec<String>, amount: usize) -> (out: Vec<String>)
    ensures
        chosen_from(views(out@), views(words@), amount),
{
    words.choose_multiple(&mut thread_rng(), amount).cloned().collect()
}

/// Whether `out` holds the words at `places` of `words`, and no place twice.
pub open spec fn is_choice(places: Seq<int>, out: Seq<Seq<char>>, words: Seq<Seq<char>>) -> bool {
    &&& places.len() == out.len()
    &&& places.no_duplicates()
    &&& forall|i: int|
        0 <= i < out.len() ==> 0 <= #[trigger] places[i] < words.len() && out[i]
            == words[places[i]]
}

/// Whether `out` is a choice of `amount` of `words`, or of all of them where
/// there are fewer, from places that differ.
pub open spec fn chosen_from(out: Seq<Seq<char>>, words: Seq<Seq<char>>, amount: usize) -> bool {
    &&& out.len() == if amount <= words.len() {
        amount as nat
    } else {
        words.len()
    }
    &&& exists|places: Seq<int>| is_choice(places, out, words)
}

/// The words of the fixed dictionary.
pub open spec fn dictionary() -> Seq<Seq<char>> {
    seq!["The"@, "quantity"@, "respectable"@, "she"@, "announced"@]
}

/// Whether `query` joins a choice of between 1 and `max_tokens` words of the
/// dictionary, none of them from the same place twice.
pub open spec fn is_fixed_query(query: Seq<char>, max_tokens: usize) -> bool {
    exists|chosen: Seq<Seq<char>>, amount: usize|
        1 <= amount <= max_tokens && #[trigger] chosen_from(chosen, dictionary(), amount) && query
            == joined(chosen)
}

/// The weights of `terms`, in their order.
pub open spec fn weights_of(terms: Seq<(String, usize)>) -> Seq<usize> {
    Seq::new(terms.len(), |i: int| terms[i].1)
}

/// Whether `word` is one of `terms` with a weight that is not 0.
pub open spec fn is_weighted_term(terms: Seq<(String, usize)>, word: Seq<char>) -> bool {
    exists|j: int| 0 <= j < terms.len() && (#[trigger] terms[j]).0@ == word && terms[j].1 > 0
}

/// Whether `query` joins between 1 and `max_tokens` words, each of them one
/// of `terms` with a weight that is not 0.
pub open spec fn is_drawn_query(
    query: Seq<char>,
    terms: Seq<(String, usize)>,
    max_tokens: usize,
) -> bool {
    exists|drawn: Seq<Seq<char>>|
        1 <= drawn.len() <= max_tokens && query == #[trigger] joined(drawn) && forall|k: int|
            0 <= k < drawn.len() ==> is_weighted_term(terms, #[trigger] drawn[k])
}

/// The `len` words of `all` from place `start` on, with one space between
/// each two of them.
pub open spec fn excerpt(all: Seq<Seq<char>>, start: int, len: int) -> Seq<char> {
    joined(all.subrange(start, start + len))
}

/// Whether `query` joins between 1 and `max_tokens` words that follow each
/// other in `all`.
pub open spec fn is_excerpt(query: Seq<char>, all: Seq<Seq<char>>, max_tokens: usize) -> bool {
    exists|start: int, len: int|
        1 <= len <= max_tokens && 0 <= start && start + len <= all.len() && query
            == #[trigger] excerpt(all, start, len)
}

/// `num_queries` queries, each of at most `max_tokens` different words of a
/// fixed dictionary in random order. The number of words asked for is random
/// between 1 and `max_tokens`; the dictionary gives at most all its five.
pub fn generate_queries_from_fixed_dictionary(num_queries: usize, max_tokens: usize) -> (out: Vec<
    String,
>)
    requires
        num_queries == 0 || max_tokens > 0,
    ensures
        out@.len() == num_queries,
        forall|i: int| 0 <= i < out@.len() ==> is_fixed_query(#[trigger] out@[i]@, max_tokens),
{
    let mut dictionary: Vec<String> = Vec::new();
    dictionary.push("The".to_owned());
    dictionary.push("quantity".to_owned());
    dictionary.push("respectable".to_owned());
    dictionary.push("she".to_owned());
    dictionary.push("announced".to_owned());
    assert(views(dictionary@) =~= self::dictionary());
    let mut out: Vec<String> = Vec::new();
    let mut i: usize = 0;
    while i < num_queries
        invariant
            i <= num_queries,
            num_queries == 0 || max_tokens > 0,
            out@.len() == i,
            views(dictionary@) == self::dictionary(),
            forall|k: int| 0 <= k < out@.len() ==> is_fixed_query(#[trigger] out@[k]@, max_tokens),
        decreases num_queries - i,
    {
        let amount = random_between(1, max_tokens);
        let chosen = choose_words(&dictionary, amount);
        let query = join_words(&chosen, 0, chosen.len());
        proof {
            assert(views(chosen@).subrange(0, chosen@.len() as int) =~= views(chosen@));
            assert(chosen_from(views(chosen@), self::dictionary(), amount));
        }
        out.push(query);
        i += 1;
    }
    out
}

/// `num_queries` queries of between 1 and `max_tokens` words, each word drawn
/// from `terms` with a chance in proportion to its weight; none where there
/// are no terms. A word may come more than once.
pub fn generate_queries_from_distribution(
    num_queries: usize,
    max_tokens: usize,
    terms: &Vec<(String, usize)>,
) -> (out: Vec<String>)
    requires
        terms@.len() > 0 ==> {
            &&& sum(weights_of(terms@)) <= usize::MAX
            &&& exists|j: int| 0 <= j < terms@.len() && (#[trigger] terms@[j]).1 > 0
            &&& num_queries == 0 || max_tokens > 0
        },
    ensures
        out@.len() == if terms@.len() == 0 {
            0
        } else {
            num_queries
        },
        forall|i: int|
            0 <= i < out@.len() ==> is_drawn_query(#[trigger] out@[i]@, terms@, max_tokens),
{
    let mut out: Vec<String> = Vec::new();
    if terms.len() == 0 {
        return out;
    }
    let mut weights: Vec<usize> = Vec::new();
    let mut j: usize = 0;
    while j < terms.len()
        invariant
            j <= terms@.len(),
            weights@ == weights_of(terms@).take(j as int),
        decreases terms@.len() - j,
    {
        weights.push(terms[j].1);
        assert(weights@ =~= weights_of(terms@).take(j + 1));
        j += 1;
    }
    proof {
        assert(weights@ =~= weights_of(terms@));
        let w = choose|w: int| 0 <= w < terms@.len() && (#[trigger] terms@[w]).1 > 0;
        assert(weights@[w] > 0);
    }
    let mut i: usize = 0;
    while i < num_queries
        invariant
            i <= num_queries,
            num_queries == 0 || max_tokens > 0,
            out@.len() == i,
            weights@ == weights_of(terms@),
            sum(weights@) <= usize::MAX,
            exists|w: int| 0 <= w < weights@.len() && weights@[w] > 0,
            forall|k: int|
                0 <= k < out@.len() ==> is_drawn_query(#[trigger] out@[k]@, terms@, max_tokens),
        decreases num_queries - i,
    {
        let amount = random_between(1, max_tokens);
        let mut drawn: Vec<String> = Vec::new();
        let mut k: usize = 0;
        while k < amount
            invariant
                k <= amount,
                drawn@.len() == k,
                weights@ == weights_of(terms@),
                sum(weights@) <= usize::MAX,
                exists|w: int| 0 <= w < weights@.len() && weights@[w] > 0,
                forall|m: int|
                    0 <= m < drawn@.len() ==> is_weighted_term(terms@, #[trigger] views(drawn@)[m]),
            decreases amount - k,
        {
            let at = weighted_pick(&weights);
            let ghost before = drawn@;
            drawn.push(terms[at].0.clone());
            proof {
                assert(terms@[at as int].0@ == drawn@[k as int]@);
                assert forall|m: int| 0 <= m < drawn@.len() implies is_weighted_term(
                    terms@,
                    #[trigger] views(drawn@)[m],
                ) by {
                    if m < k {
                        assert(views(drawn@)[m] == views(before)[m]);
                    }
                }
            }
            k += 1;
        }
        let query = join_words(&drawn, 0, drawn.len());
        proof {
            assert(views(drawn@).subrange(0, drawn@.len() as int) =~= views(drawn@));
            assert(query@ == joined(views(drawn@)));
        }
        out.push(query);
        i += 1;
    }
    out
}

/// `num_queries` queries cut out of `paragraph`: each is a run of between 1
/// and `max_tokens` of its words, from a random place and of a random length,
/// with one space between each two words. None where the paragraph has no
/// words or no query is asked for.
pub fn pull_query_from_paragraph(paragraph: &str, num_queries: usize, max_tokens: usize) -> (out:
    Vec<String>)
    requires
        num_queries == 0 || words(paragraph@).len() == 0 || max_tokens > 0,
    ensures
        out@.len() == if words(paragraph@).len() == 0 {
            0
        } else {
            num_queries
        },
        forall|i: int|
            0 <= i < out@.len() ==> is_excerpt(#[trigger] out@[i]@, words(paragraph@), max_tokens),
{
    let mut out: Vec<String> = Vec::new();
    if num_queries == 0 {
        return out;
    }
    let all = split_words(paragraph);
    let count = all.len();
    if count == 0 {
        return out;
    }
    let longest = if max_tokens <= count {
        max_tokens
    } else {
        count
    };
    let mut i: usize = 0;
    while i < num_queries
        invariant
            i <= num_queries,
            out@.len() == i,
            views(all@) == words(paragraph@),
            count == all@.len(),
            1 <= longest <= count,
            longest <= max_tokens,
            forall|k: int|
                0 <= k < out@.len() ==> is_excerpt(
                    #[trigger] out@[k]@,
                    words(paragraph@),
                    max_tokens,
                ),
        decreases num_queries - i,
    {
        let len = random_between(1, longest);
        let start = random_between(0, count - len);
        let query = join_words(&all, start, start + len);
        proof {
            assert(query@ == excerpt(words(paragraph@), start as int, len as int));
        }
        out.push(query);
        i += 1;
    }
    out
}

/// Whether `query` joins between 1 and `max_tokens` known terms of `m`.
pub open spec fn is_index_query(query: Seq<char>, m: IndexModel, max_tokens: usize) -> bool {
    exists|drawn: Seq<Seq<char>>|
        1 <= drawn.len() <= max_tokens && query == #[trigger] joined(drawn) && forall|k: int|
            0 <= k < drawn.len() ==> m.postings.contains_key(#[trigger] drawn[k])
}

/// Whether `queries` are what is asked for with `distribution`:
/// `num_queries` queries of the kind that the distribution makes, or none
/// where it has nothing to make them from.
pub open spec fn are_queries(
    queries: Seq<String>,
    distribution: QueryTokenDistribution,
    m: IndexModel,
    paragraph: Seq<char>,
    num_queries: usize,
    max_tokens: usize,
) -> bool {
    match distribution {
        QueryTokenDistribution::Fixed => {
            &&& queries.len() == num_queries
            &&& forall|i: int|
                0 <= i < queries.len() ==> is_fixed_query((#[trigger] queries[i])@, max_tokens)
        },
        QueryTokenDistribution::Uniform => {
            &&& queries.len() == if max_tokens == 0 || m.terms.len() == 0 {
                0
            } else {
                num_queries
            }
            &&& forall|i: int|
                0 <= i < queries.len() ==> is_index_query((#[trigger] queries[i])@, m, max_tokens)
        },
        QueryTokenDistribution::FromDocument => {
            &&& queries.len() == if words(paragraph).len() == 0 {
                0
            } else {
                num_queries
            }
            &&& forall|i: int|
                0 <= i < queries.len() ==> is_excerpt(
                    (#[trigger] queries[i])@,
                    words(paragraph),
                    max_tokens,
                )
        },
    }
}

/// The queries with which to exercise `index` after `paragraph` has been
/// ingested: from the fixed dictionary, from up to `max_tokens` terms drawn
/// from the index by their frequency, or cut out of the paragraph.
pub fn generate_queries(
    index: &PositionalInvertedIndex,
    distribution: QueryTokenDistribution,
    paragraph: &str,
    num_queries: usize,
    max_tokens: usize,
) -> (out: Vec<String>)
    requires
        index.wf(),
        num_queries == 0 || max_tokens > 0 || distribution == QueryTokenDistribution::Uniform || (
        distribution == QueryTokenDistribution::FromDocument && words(paragraph@).len() == 0),
    ensures
        are_queries(out@, distribution, index@, paragraph@, num_queries, max_tokens),
{
    match distribution {
        QueryTokenDistribution::Fixed => generate_queries_from_fixed_dictionary(
            num_queries,
            max_tokens,
        ),
        QueryTokenDistribution::Uniform => {
            let terms = index.get_random_term_list(max_tokens);
            proof {
                if terms@.len() > 0 {
                    assert(terms@[0].1 > 0);
                    index.lemma_wf();
                }
            }
            let out = generate_queries_from_distribution(num_queries, max_tokens, &terms);
            proof {
                assert forall|i: int| 0 <= i < out@.len() implies is_index_query(
                    (#[trigger] out@[i])@,
                    index@,
                    max_tokens,
                ) by {
                    let drawn = choose|drawn: Seq<Seq<char>>|
                        1 <= drawn.len() <= max_tokens && out@[i]@ == #[trigger] joined(drawn)
                            && forall|k: int|
                            0 <= k < drawn.len() ==> is_weighted_term(terms@, #[trigger] drawn[k]);
                    assert forall|k: int| 0 <= k < drawn.len() implies index@.postings.contains_key(
                        #[trigger] drawn[k],
                    ) by {
                        assert(is_weighted_term(terms@, drawn[k]));
                        let j = choose|j: int|
                            0 <= j < terms@.len() && (#[trigger] terms@[j]).0@ == drawn[k]
                                && terms@[j].1 > 0;
                    }
                }
            }
            out
        },
        QueryTokenDistribution::FromDocument => pull_query_from_paragraph(
            paragraph,
            num_queries,
            max_tokens,
        ),
    }
}

} // verus!
