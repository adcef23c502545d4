use vstd::prelude::*;
use vstd::multiset::*;
use vstd::seq_lib::*;
use vstd::string::*;
use crate::order::{
    lemma_word_order_asymmetric, lemma_word_order_total, lemma_word_order_transitive, word_before,
    word_less,
};
use crate::text::word_views;

verus! {

/// The predicate "has at least `min_length` characters".
pub open spec fn long_enough(min_length: nat) -> spec_fn(Seq<char>) -> bool {
    |w: Seq<char>| w.len() >= min_length
}

/// The words that count: those of at least `min_length` characters, in order.
pub open spec fn qualifying(words: Seq<Seq<char>>, min_length: nat) -> Seq<Seq<char>> {
    words.filter(long_enough(min_length))
}

/// The mapping that sends each element of `m` to the number of times it occurs.
pub open spec fn counts(m: Multiset<Seq<char>>) -> Map<Seq<char>, nat> {
    Map::new(|w: Seq<char>| m.count(w) > 0, |w: Seq<char>| m.count(w))
}

/// The tally of a word list: each qualifying word mapped to its number of
/// occurrences.
pub open spec fn tally_of(words: Seq<Seq<char>>, min_length: nat) -> Map<Seq<char>, nat> {
    counts(qualifying(words, min_length).to_multiset())
}

/// The number of distinct qualifying words.
pub open spec fn distinct_count(words: Seq<Seq<char>>, min_length: nat) -> nat {
    qualifying(words, min_length).to_set().len()
}

/// A (word, count) pair as plain values.
pub open spec fn entry_view(e: (String, usize)) -> (Seq<char>, nat) {
    (e.0@, e.1 as nat)
}

/// A list of (word, count) pairs as plain values.
pub open spec fn entry_views(v: Seq<(String, usize)>) -> Seq<(Seq<char>, nat)> {
    Seq::new(v.len(), |i: int| entry_view(v[i]))
}

/// `entries` lists `map` without repetition: no word stands twice, every
/// entry is a pair of the map, and every key of the map has an entry.
pub open spec fn represents(entries: Seq<(Seq<char>, nat)>, map: Map<Seq<char>, nat>) -> bool {
    &&& forall|i: int, j: int|
        0 <= i < j < entries.len() ==> (#[trigger] entries[i]).0 != (#[trigger] entries[j]).0
    &&& forall|i: int|
        0 <= i < entries.len() ==> map.contains_pair(
            (#[trigger] entries[i]).0,
            entries[i].1,
        )
    &&& forall|w: Seq<char>| #[trigger]
        map.contains_key(w) ==> exists|i: int|
            0 <= i < entries.len() && (#[trigger] entries[i]).0 == w
}

/// The words of the entries stand in strictly ascending order.
pub open spec fn words_ascend(entries: Seq<(Seq<char>, nat)>) -> bool {
    forall|i: int, j: int|
        0 <= i < j < entries.len() ==> word_before(
            (#[trigger] entries[i]).0,
            (#[trigger] entries[j]).0,
        )
}

/// A mapping from word to number of occurrences, held as a list of entries
/// in ascending order of their words, so that no word stands twice.
pub struct Tally {
    entries: Vec<(String, usize)>,
    model: Ghost<Map<Seq<char>, nat>>,
}

impl View for Tally {
    type V = Map<Seq<char>, nat>;

    closed spec fn view(&self) -> Map<Seq<char>, nat> {
        self.model@
    }
}

impl Tally {
    /// The entries list exactly the mapping that the tally stands for, in
    /// ascending order of their words.
    #[verifier::type_invariant]
    spec fn wf(self) -> bool {
        &&& represents(entry_views(self.entries@), self.model@)
        &&& words_ascend(entry_views(self.entries@))
    }

    /// The entries of the tally, each word once, in ascending order of
    /// their words.
    pub fn into_entries(self) -> (r: Vec<(String, usize)>)
        ensures
            represents(entry_views(r@), self@),
            words_ascend(entry_views(r@)),
    {
        proof {
            use_type_invariant(&self);
        }
        self.entries
    }

    /// The number of distinct words in the tally.
    pub fn len(&self) -> (n: usize)
        ensures
            n == self@.dom().len(),
            self@.dom().finite(),
    {
        proof {
            use_type_invariant(self);
            lemma_domain_size(entry_views(self.entries@), self@);
        }
        self.entries.len()
    }
}

/// The words of a list of entries.
pub open spec fn words_in(entries: Seq<(Seq<char>, nat)>) -> Seq<Seq<char>> {
    Seq::new(entries.len(), |i: int| entries[i].0)
}

/// A list that represents a mapping has as many entries as the mapping has
/// keys.
pub proof fn lemma_domain_size(entries: Seq<(Seq<char>, nat)>, map: Map<Seq<char>, nat>)
    requires
        represents(entries, map),
    ensures
        map.dom().finite(),
        map.dom().len() == entries.len(),
{
    let ws = words_in(entries);
    assert(ws.no_duplicates()) by {
        assert forall|i: int, j: int| 0 <= i < ws.len() && 0 <= j < ws.len() && i != j implies ws[i]
            != ws[j] by {
            if i < j {
                assert(entries[i].0 != entries[j].0);
            } else {
                assert(entries[j].0 != entries[i].0);
            }
        }
    }
    ws.unique_seq_to_set();
    seq_to_set_is_finite(ws);
    assert(ws.to_set() =~= map.dom()) by {
        assert forall|w: Seq<char>| ws.to_set().contains(w) <==> map.dom().contains(w) by {
            if ws.to_set().contains(w) {
                let i = choose|i: int| 0 <= i < ws.len() && ws[i] == w;
                assert(map.contains_pair(entries[i].0, entries[i].1));
            }
            if map.dom().contains(w) {
                assert(map.contains_key(w));
                let i = choose|i: int| 0 <= i < entries.len() && (#[trigger] entries[i]).0 == w;
                assert(ws[i] == w);
            }
        }
    }
}

/// The tally of a word list has one key for each distinct qualifying word.
pub proof fn lemma_tally_domain(words: Seq<Seq<char>>, min_length: nat)
    ensures
        tally_of(words, min_length).dom() == qualifying(words, min_length).to_set(),
{
    broadcast use group_multiset_axioms;

    let q = qualifying(words, min_length);
    assert forall|w: Seq<char>|
        tally_of(words, min_length).dom().contains(w) <==> q.to_set().contains(w) by {
        to_multiset_contains(q, w);
    }
    assert(tally_of(words, min_length).dom() =~= q.to_set());
}

/// The place of `word` among entries in ascending order: every entry before
/// it has a smaller word, and no entry from it on has.
fn slot(entries: &Vec<(String, usize)>, word: &String) -> (k: usize)
    requires
        words_ascend(entry_views(entries@)),
    ensures
        k <= entries.len(),
        forall|i: int| 0 <= i < k ==> word_before((#[trigger] entry_views(entries@)[i]).0, word@),
        forall|i: int|
            k <= i < entries.len() ==> !word_before((#[trigger] entry_views(entries@)[i]).0, word@),
{
    let ghost e = entry_views(entries@);
    let mut lo: usize = 0;
    let mut hi: usize = entries.len();
    while lo < hi
        invariant
            lo <= hi <= entries.len(),
            e == entry_views(entries@),
            words_ascend(e),
            forall|i: int| 0 <= i < lo ==> word_before((#[trigger] e[i]).0, word@),
            forall|i: int| hi <= i < entries.len() ==> !word_before((#[trigger] e[i]).0, word@),
        decreases hi - lo,
    {
        let mid = lo + (hi - lo) / 2;
        assert(e[mid as int].0 == entries@[mid as int].0@);
        if word_less(entries[mid].0.as_str(), word.as_str()) {
            assert forall|i: int| 0 <= i < mid + 1 implies word_before((#[trigger] e[i]).0, word@) by {
                if i < mid {
                    assert(word_before(e[i].0, e[mid as int].0));
                    lemma_word_order_transitive(e[i].0, e[mid as int].0, word@);
                }
            }
            lo = mid + 1;
        } else {
            assert forall|i: int| mid <= i < entries.len() implies !word_before(
                (#[trigger] e[i]).0,
                word@,
            ) by {
                if i > mid && word_before(e[i].0, word@) {
                    assert(word_before(e[mid as int].0, e[i].0));
                    lemma_word_order_transitive(e[mid as int].0, e[i].0, word@);
                }
            }
            hi = mid;
        }
    }
    lo
}

/// Entries in ascending order of their words hold no word twice.
proof fn lemma_ascending_words_differ(entries: Seq<(Seq<char>, nat)>)
    requires
        words_ascend(entries),
    ensures
        forall|i: int, j: int|
            0 <= i < j < entries.len() ==> (#[trigger] entries[i]).0 != (#[trigger] entries[j]).0,
{
    assert forall|i: int, j: int| 0 <= i < j < entries.len() implies (#[trigger] entries[i]).0 != (
    #[trigger] entries[j]).0 by {
        assert(word_before(entries[i].0, entries[j].0));
        lemma_word_order_asymmetric(entries[i].0, entries[i].0);
    }
}

/// Records one more occurrence of `word`.
fn record(entries: &mut Vec<(String, usize)>, word: &String, Ghost(m): Ghost<Multiset<Seq<char>>>)
    requires
        represents(entry_views(old(entries)@), counts(m)),
        words_ascend(entry_views(old(entries)@)),
        m.len() < usize::MAX,
    ensures
        represents(entry_views(final(entries)@), counts(m.insert(word@))),
        words_ascend(entry_views(final(entries)@)),
{
    broadcast use group_multiset_axioms;

    let ghost before = entry_views(entries@);
    let k = slot(entries, word);
    if k < entries.len() && entries[k].0 == *word {
        let c: usize = entries[k].1;
        assert(before[k as int] == (word@, c as nat));
        assert(counts(m).contains_pair(before[k as int].0, before[k as int].1));
        entries.set(k, (word.clone(), c + 1));
        let ghost after = entry_views(entries@);
        assert(after =~= before.update(k as int, (word@, (c + 1) as nat)));
        assert forall|i: int, j: int| 0 <= i < j < after.len() implies word_before(
            (#[trigger] after[i]).0,
            (#[trigger] after[j]).0,
        ) by {
            assert(after[i].0 == before[i].0);
            assert(after[j].0 == before[j].0);
        }
        proof {
            lemma_ascending_words_differ(after);
        }
        assert forall|w: Seq<char>| #[trigger]
            counts(m.insert(word@)).contains_key(w) implies exists|i: int|
            0 <= i < after.len() && (#[trigger] after[i]).0 == w by {
            if w == word@ {
                assert(after[k as int].0 == w);
            } else {
                assert(counts(m).contains_key(w));
                let i = choose|i: int| 0 <= i < before.len() && (#[trigger] before[i]).0 == w;
                assert(after[i].0 == w);
            }
        }
        assert forall|i: int| 0 <= i < after.len() implies counts(m.insert(word@)).contains_pair(
            (#[trigger] after[i]).0,
            after[i].1,
        ) by {
            if i != k {
                assert(after[i] == before[i]);
                if i < k {
                    assert(before[i].0 != before[k as int].0);
                } else {
                    assert(before[k as int].0 != before[i].0);
                }
            }
        }
    } else {
        assert forall|i: int| k <= i < before.len() implies word_before(
            word@,
            (#[trigger] before[i]).0,
        ) by {
            assert(before[k as int].0 == entries@[k as int].0@);
            assert(!word_before(before[k as int].0, word@));
            lemma_word_order_total(word@, before[k as int].0);
            if i > k {
                assert(word_before(before[k as int].0, before[i].0));
                lemma_word_order_transitive(word@, before[k as int].0, before[i].0);
            }
        }
        assert forall|i: int| 0 <= i < before.len() implies (#[trigger] before[i]).0 != word@ by {
            lemma_word_order_asymmetric(word@, word@);
        }
        assert(m.count(word@) == 0) by {
            if counts(m).contains_key(word@) {
                let i = choose|i: int| 0 <= i < before.len() && (#[trigger] before[i]).0 == word@;
                assert(false);
            }
        }
        entries.insert(k, (word.clone(), 1));
        let ghost after = entry_views(entries@);
        assert(after =~= before.insert(k as int, (word@, 1nat)));
        assert forall|i: int, j: int| 0 <= i < j < after.len() implies word_before(
            (#[trigger] after[i]).0,
            (#[trigger] after[j]).0,
        ) by {
            if j < k {
                assert(word_before(before[i].0, before[j].0));
            } else if j == k {
                assert(word_before(before[i].0, word@));
            } else if i < k {
                assert(word_before(before[i].0, before[j - 1].0));
            } else if i == k {
                assert(word_before(word@, before[j - 1].0));
            } else {
                assert(word_before(before[i - 1].0, before[j - 1].0));
            }
        }
        proof {
            lemma_ascending_words_differ(after);
        }
        assert forall|w: Seq<char>| #[trigger]
            counts(m.insert(word@)).contains_key(w) implies exists|i: int|
            0 <= i < after.len() && (#[trigger] after[i]).0 == w by {
            if w == word@ {
                assert(after[k as int].0 == w);
            } else {
                assert(counts(m).contains_key(w));
                let i = choose|i: int| 0 <= i < before.len() && (#[trigger] before[i]).0 == w;
                if i < k {
                    assert(after[i].0 == w);
                } else {
                    assert(after[i + 1].0 == w);
                }
            }
        }
        assert forall|i: int| 0 <= i < after.len() implies counts(m.insert(word@)).contains_pair(
            (#[trigger] after[i]).0,
            after[i].1,
        ) by {
            if i < k {
                assert(after[i] == before[i]);
            } else if i > k {
                assert(after[i] == before[i - 1]);
            }
        }
    }
}

/// Tallies the words of at least `min_length` characters: returns how many
/// there are and, for each distinct one, how often it occurs. Shorter words
/// count for nothing.
pub fn count(words: &Vec<String>, min_length: usize) -> (r: (usize, Tally))
    ensures
        r.0 == qualifying(word_views(words@), min_length as nat).len(),
        r.1@ == tally_of(word_views(words@), min_length as nat),
{
    let mut total: usize = 0;
    let mut entries: Vec<(String, usize)> = Vec::new();
    let ghost all = word_views(words@);
    let ghost min = min_length as nat;
    proof {
        reveal(Seq::filter);
        broadcast use group_multiset_axioms, to_multiset_len;

        assert(qualifying(all.take(0), min).to_multiset().len() == 0);
    }
    for i in 0..words.len()
        invariant
            all == word_views(words@),
            min == min_length as nat,
            total == qualifying(all.take(i as int), min).len(),
            total <= i,
            represents(entry_views(entries@), tally_of(all.take(i as int), min)),
            words_ascend(entry_views(entries@)),
    {
        let word = &words[i];
        let ghost seen = qualifying(all.take(i as int), min);
        proof {
            reveal(Seq::filter);
            let next = all.take(i + 1);
            assert(next.drop_last() =~= all.take(i as int));
            assert(next.last() == word@);
            to_multiset_len(seen);
            to_multiset_build(seen, word@);
        }
        if word.as_str().unicode_len() >= min_length {
            total += 1;
            record(&mut entries, word, Ghost(seen.to_multiset()));
        }
    }
    assert(all.take(words@.len() as int) =~= all);
    (total, Tally { entries, model: Ghost(tally_of(all, min)) })
}

} // verus!
