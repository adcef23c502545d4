use vstd::prelude::*;

pub mod args;
pub mod order;
pub mod rank;
pub mod render;
pub mod tally;
pub mod text;

use crate::rank::{
    is_ranked, is_ranking, is_top_of, lemma_top_unique, rank, ranking_of, top_ranked,
};
use crate::tally::{
    count, distinct_count, entry_views, lemma_tally_domain, qualifying, tally_of,
};
use crate::text::{normalize_and_split, normalized_words};

verus! {

/// What one run is asked to do.
#[derive(Debug, Clone)]
pub struct Options {
    /// The greatest number of entries in the result.
    pub top_n: usize,
    /// The least number of characters of a word that counts.
    pub min_length: usize,
    /// Whether the result is rendered as a structured record.
    pub json: bool,
    /// The file to read in place of standard input.
    pub file_path: Option<String>,
}

/// A word and the number of its occurrences.
#[derive(Debug, Clone)]
pub struct WordCount {
    pub word: String,
    pub count: usize,
}

/// The result of one run, in the shape in which it is rendered.
#[derive(Debug, Clone)]
pub struct Output {
    pub total_words: usize,
    pub top_words: Vec<WordCount>,
}

impl View for WordCount {
    type V = (Seq<char>, nat);

    open spec fn view(&self) -> (Seq<char>, nat) {
        (self.word@, self.count as nat)
    }
}

impl View for Output {
    type V = (nat, Seq<(Seq<char>, nat)>);

    open spec fn view(&self) -> (nat, Seq<(Seq<char>, nat)>) {
        (self.total_words as nat, Seq::new(self.top_words@.len(), |i: int| self.top_words@[i]@))
    }
}

/// What `top_words` computes from a text: the number of qualifying words, and
/// the first `top_n` entries of the ranking of their tally.
pub open spec fn top_words_of(input: Seq<char>, top_n: nat, min_length: nat) -> (
    nat,
    Seq<(Seq<char>, nat)>,
) {
    let words = normalized_words(input);
    (qualifying(words, min_length).len(), top_ranked(tally_of(words, min_length), top_n))
}

/// `r` is a result for `input` under the given options: its total is the
/// number of qualifying words, and its list is the top of a ranking of their
/// tally.
pub open spec fn is_result_for(
    r: (nat, Seq<(Seq<char>, nat)>),
    input: Seq<char>,
    top_n: nat,
    min_length: nat,
) -> bool {
    let words = normalized_words(input);
    r.0 == qualifying(words, min_length).len() && is_top_of(
        r.1,
        tally_of(words, min_length),
        top_n,
    )
}

/// One text and one pair of options have one result: a second run gives what
/// the first gave, entry for entry.
pub proof fn lemma_result_is_determined(
    a: (nat, Seq<(Seq<char>, nat)>),
    b: (nat, Seq<(Seq<char>, nat)>),
    input: Seq<char>,
    top_n: nat,
    min_length: nat,
)
    requires
        is_result_for(a, input, top_n, min_length),
        is_result_for(b, input, top_n, min_length),
    ensures
        a == b,
        a == top_words_of(input, top_n, min_length),
{
    lemma_top_unique(a.1, b.1, tally_of(normalized_words(input), min_length), top_n);
}

/// Counts the words of `input` that have at least `min_length` characters and
/// returns their number together with the `top_n` most frequent of them, each
/// with its number of occurrences: the more frequent first, and of two that
/// are equally frequent the lexicographically smaller first.
pub fn top_words(input: &str, top_n: usize, min_length: usize) -> (r: (usize, Vec<(String, usize)>))
    ensures
        (r.0 as nat, entry_views(r.1@)) == top_words_of(input@, top_n as nat, min_length as nat),
        is_result_for((r.0 as nat, entry_views(r.1@)), input@, top_n as nat, min_length as nat),
        r.0 == qualifying(normalized_words(input@), min_length as nat).len(),
        is_ranked(entry_views(r.1@)),
        r.1@.len() == if top_n <= distinct_count(normalized_words(input@), min_length as nat) {
            top_n as nat
        } else {
            distinct_count(normalized_words(input@), min_length as nat)
        },
        forall|i: int|
            0 <= i < r.1@.len() ==> (#[trigger] entry_views(r.1@)[i]).1 == qualifying(
                normalized_words(input@),
                min_length as nat,
            ).to_multiset().count(entry_views(r.1@)[i].0),
{
    let words = normalize_and_split(input);
    let (total, tally) = count(&words, min_length);
    proof {
        lemma_tally_domain(normalized_words(input@), min_length as nat);
    }
    let ghost map = tally@;
    let top = rank(tally, top_n);
    proof {
        let full = ranking_of(map);
        assert(is_ranking(full, map));
        assert forall|i: int| 0 <= i < top@.len() implies (#[trigger] entry_views(top@)[i]).1
            == qualifying(normalized_words(input@), min_length as nat).to_multiset().count(
            entry_views(top@)[i].0,
        ) by {
            assert(entry_views(top@)[i] == full[i]);
            assert(map.contains_pair(full[i].0, full[i].1));
        }
    }
    (total, top)
}

/// Puts a total and a ranked list into the shape of an `Output`, entry by
/// entry and in the same order.
pub fn to_output_struct(total_words: usize, items: Vec<(String, usize)>) -> (out: Output)
    ensures
        out@ == (total_words as nat, entry_views(items@)),
        out.total_words == total_words,
        out.top_words@.len() == items@.len(),
{
    let mut top_words: Vec<WordCount> = Vec::new();
    for i in 0..items.len()
        invariant
            top_words@.len() == i,
            forall|k: int| 0 <= k < i ==> (#[trigger] top_words@[k])@ == entry_views(items@)[k],
    {
        let word = items[i].0.clone();
        let count = items[i].1;
        top_words.push(WordCount { word, count });
    }
    let out = Output { total_words, top_words };
    assert(out@.1 =~= entry_views(items@));
    out
}

} // verus!
