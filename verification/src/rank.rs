use vstd::prelude::*;
use crate::order::{
    lemma_word_order_asymmetric, lemma_word_order_total, lemma_word_order_transitive, word_before,
    word_less,
};
use crate::tally::{entry_view, entry_views, lemma_domain_size, represents, Tally};

verus! {

/// The ranking order on (word, count) pairs: the greater count first, and of
/// two equal counts the lexicographically smaller word first.
pub open spec fn ranks_before(a: (Seq<char>, nat), b: (Seq<char>, nat)) -> bool {
    a.1 > b.1 || (a.1 == b.1 && word_before(a.0, b.0))
}

/// Every entry ranks strictly before each later one.
pub open spec fn is_ranked(r: Seq<(Seq<char>, nat)>) -> bool {
    forall|i: int, j: int| 0 <= i < j < r.len() ==> ranks_before(#[trigger] r[i], #[trigger] r[j])
}

/// `full` lists all of `map` in ranking order.
pub open spec fn is_ranking(full: Seq<(Seq<char>, nat)>, map: Map<Seq<char>, nat>) -> bool {
    is_ranked(full) && represents(full, map)
}

/// The ranking of a tally (well defined by `lemma_ranking_unique` wherever a
/// ranking exists, which is the case for every tally that `rank` is given).
pub open spec fn ranking_of(map: Map<Seq<char>, nat>) -> Seq<(Seq<char>, nat)> {
    choose|full: Seq<(Seq<char>, nat)>| is_ranking(full, map)
}

/// The first `top_n` entries of the ranking of `map`, or all of them if there
/// are fewer.
pub open spec fn top_ranked(map: Map<Seq<char>, nat>, top_n: nat) -> Seq<(Seq<char>, nat)> {
    leading(ranking_of(map), top_n)
}

/// The first `top_n` entries of `full`, or all of them if there are fewer.
pub open spec fn leading(full: Seq<(Seq<char>, nat)>, top_n: nat) -> Seq<(Seq<char>, nat)> {
    if top_n <= full.len() {
        full.take(top_n as int)
    } else {
        full
    }
}

/// The ranking order is a strict total order on (word, count) pairs:
/// asymmetric, transitive, and deciding between any two different pairs.
pub proof fn lemma_rank_order(a: (Seq<char>, nat), b: (Seq<char>, nat), c: (Seq<char>, nat))
    ensures
        !(ranks_before(a, b) && ranks_before(b, a)),
        a == b || ranks_before(a, b) || ranks_before(b, a),
        ranks_before(a, b) && ranks_before(b, c) ==> ranks_before(a, c),
{
    lemma_word_order_asymmetric(a.0, b.0);
    lemma_word_order_total(a.0, b.0);
    if word_before(a.0, b.0) && word_before(b.0, c.0) {
        lemma_word_order_transitive(a.0, b.0, c.0);
    }
}

/// Two rankings of one tally agree on their first `n` entries.
proof fn lemma_rankings_agree(
    a: Seq<(Seq<char>, nat)>,
    b: Seq<(Seq<char>, nat)>,
    map: Map<Seq<char>, nat>,
    n: nat,
)
    requires
        is_ranking(a, map),
        is_ranking(b, map),
        n <= a.len(),
    ensures
        n <= b.len(),
        forall|k: int| 0 <= k < n ==> a[k] == b[k],
    decreases n,
{
    if n > 0 {
        lemma_rankings_agree(a, b, map, (n - 1) as nat);
        let i = n - 1;
        lemma_rank_order(a[i], a[i], a[i]);
        assert(map.contains_pair(a[i].0, a[i].1));
        assert(map.contains_key(a[i].0));
        let j = choose|j: int| 0 <= j < b.len() && (#[trigger] b[j]).0 == a[i].0;
        assert(map.contains_pair(b[j].0, b[j].1));
        assert(b[j] == a[i]);
        if j < i {
            assert(a[j] == b[j]);
            assert(ranks_before(a[j], a[i]));
            assert(false);
        }
        assert(map.contains_pair(b[i].0, b[i].1));
        assert(map.contains_key(b[i].0));
        let k = choose|k: int| 0 <= k < a.len() && (#[trigger] a[k]).0 == b[i].0;
        assert(map.contains_pair(a[k].0, a[k].1));
        assert(a[k] == b[i]);
        lemma_rank_order(b[i], b[i], b[i]);
        if k < i {
            assert(a[k] == b[k]);
            assert(ranks_before(b[k], b[i]));
            assert(false);
        }
        if j > i && k > i {
            assert(ranks_before(b[i], b[j]));
            assert(ranks_before(a[i], a[k]));
            lemma_rank_order(a[i], b[i], a[i]);
            assert(false);
        }
    }
}

/// A tally has at most one ranking: the order of the result does not depend
/// on the order in which the tally was built or is walked, so equal inputs
/// give equal results.
pub proof fn lemma_ranking_unique(
    a: Seq<(Seq<char>, nat)>,
    b: Seq<(Seq<char>, nat)>,
    map: Map<Seq<char>, nat>,
)
    requires
        is_ranking(a, map),
        is_ranking(b, map),
    ensures
        a == b,
{
    lemma_rankings_agree(a, b, map, a.len());
    lemma_rankings_agree(b, a, map, b.len());
    assert(a =~= b);
}

/// `r` is the leading part, of at most `top_n` entries, of a ranking of `map`.
pub open spec fn is_top_of(r: Seq<(Seq<char>, nat)>, map: Map<Seq<char>, nat>, top_n: nat) -> bool {
    exists|full: Seq<(Seq<char>, nat)>|
        is_ranking(full, map) && r == leading(full, top_n)
}

/// Running the ranking twice on one tally with one limit gives one result:
/// whatever is the top of a ranking is the top of the ranking.
pub proof fn lemma_top_unique(
    a: Seq<(Seq<char>, nat)>,
    b: Seq<(Seq<char>, nat)>,
    map: Map<Seq<char>, nat>,
    top_n: nat,
)
    requires
        is_top_of(a, map, top_n),
        is_top_of(b, map, top_n),
    ensures
        a == b,
        a == top_ranked(map, top_n),
{
    let fa = choose|full: Seq<(Seq<char>, nat)>|
        is_ranking(full, map) && a == leading(full, top_n);
    let fb = choose|full: Seq<(Seq<char>, nat)>|
        is_ranking(full, map) && b == leading(full, top_n);
    lemma_ranking_unique(fa, fb, map);
    lemma_ranking_unique(fa, ranking_of(map), map);
}

/// A leading part of a ranked list is ranked, and every entry that it leaves
/// out ranks after each of its own.
pub proof fn lemma_top_of_ranking(full: Seq<(Seq<char>, nat)>, n: int)
    requires
        is_ranked(full),
        0 <= n <= full.len(),
    ensures
        is_ranked(full.take(n)),
        forall|i: int, j: int|
            0 <= i < n <= j < full.len() ==> ranks_before(
                #[trigger] full.take(n)[i],
                #[trigger] full[j],
            ),
{
    assert forall|i: int, j: int| 0 <= i < j < full.take(n).len() implies ranks_before(
        #[trigger] full.take(n)[i],
        #[trigger] full.take(n)[j],
    ) by {
        assert(ranks_before(full[i], full[j]));
    }
    assert forall|i: int, j: int| 0 <= i < n <= j < full.len() implies ranks_before(
        #[trigger] full.take(n)[i],
        #[trigger] full[j],
    ) by {
        assert(ranks_before(full[i], full[j]));
    }
}

/// Whether entry `a` ranks strictly before entry `b`.
pub fn entry_before(a: &(String, usize), b: &(String, usize)) -> (r: bool)
    ensures
        r == ranks_before(entry_view(*a), entry_view(*b)),
{
    a.1 > b.1 || (a.1 == b.1 && word_less(a.0.as_str(), b.0.as_str()))
}

/// The place at which `e` belongs in the ranked list `sorted`.
fn position(sorted: &Vec<(String, usize)>, e: &(String, usize)) -> (k: usize)
    requires
        is_ranked(entry_views(sorted@)),
        forall|i: int| 0 <= i < sorted.len() ==> (#[trigger] entry_views(sorted@)[i]) != entry_view(*e),
    ensures
        k <= sorted.len(),
        forall|i: int| 0 <= i < k ==> ranks_before(#[trigger] entry_views(sorted@)[i], entry_view(*e)),
        forall|i: int|
            k <= i < sorted.len() ==> ranks_before(
                entry_view(*e),
                #[trigger] entry_views(sorted@)[i],
            ),
{
    let ghost s = entry_views(sorted@);
    let ghost ev = entry_view(*e);
    let mut lo: usize = 0;
    let mut hi: usize = sorted.len();
    while lo < hi
        invariant
            lo <= hi <= sorted.len(),
            s == entry_views(sorted@),
            ev == entry_view(*e),
            is_ranked(s),
            forall|i: int| 0 <= i < s.len() ==> (#[trigger] s[i]) != ev,
            forall|i: int| 0 <= i < lo ==> ranks_before(#[trigger] s[i], ev),
            forall|i: int| hi <= i < s.len() ==> ranks_before(ev, #[trigger] s[i]),
        decreases hi - lo,
    {
        let mid = lo + (hi - lo) / 2;
        assert(s[mid as int] == entry_view(sorted@[mid as int]));
        if entry_before(&sorted[mid], e) {
            assert forall|i: int| 0 <= i < mid + 1 implies ranks_before(#[trigger] s[i], ev) by {
                if i < mid {
                    assert(ranks_before(s[i], s[mid as int]));
                    lemma_rank_order(s[i], s[mid as int], ev);
                }
            }
            lo = mid + 1;
        } else {
            assert forall|i: int| mid <= i < s.len() implies ranks_before(ev, #[trigger] s[i]) by {
                lemma_rank_order(ev, s[mid as int], s[i]);
                if i > mid {
                    assert(ranks_before(s[mid as int], s[i]));
                }
            }
            hi = mid;
        }
    }
    lo
}

/// Orders the entries of a tally by count, greater first, and by word where
/// counts are equal, and returns the first `top_n` of them.
pub fn rank(tally: Tally, top_n: usize) -> (r: Vec<(String, usize)>)
    ensures
        is_ranking(ranking_of(tally@), tally@),
        entry_views(r@) == top_ranked(tally@, top_n as nat),
        is_ranked(entry_views(r@)),
        tally@.dom().finite(),
        r.len() == if top_n <= tally@.dom().len() { top_n as nat } else { tally@.dom().len() },
{
    let ghost map = tally@;
    let mut rest = tally.into_entries();
    let ghost start = entry_views(rest@);
    let mut sorted: Vec<(String, usize)> = Vec::new();
    while rest.len() > 0
        invariant
            represents(start, map),
            rest.len() <= start.len(),
            entry_views(rest@) == start.take(rest.len() as int),
            is_ranked(entry_views(sorted@)),
            forall|j: int|
                rest.len() <= j < start.len() ==> entry_views(sorted@).contains(#[trigger] start[j]),
            forall|i: int|
                0 <= i < sorted.len() ==> exists|j: int|
                    rest.len() <= j < start.len() && start[j] == #[trigger] entry_views(sorted@)[i],
        decreases rest.len(),
    {
        let ghost s = entry_views(sorted@);
        let ghost n = rest.len() - 1;
        let e = rest.pop().unwrap();
        assert(entry_view(e) == start[n]) by {
            assert(start.take(n + 1)[n] == entry_view(e));
        }
        assert(entry_views(rest@) =~= start.take(n));
        assert forall|i: int| 0 <= i < sorted.len() implies (#[trigger] s[i]) != entry_view(e) by {
            let j = choose|j: int| n + 1 <= j < start.len() && start[j] == s[i];
            assert(start[n].0 != start[j].0);
        }
        let k = position(&sorted, &e);
        sorted.insert(k, e);
        let ghost t = entry_views(sorted@);
        assert(t =~= s.insert(k as int, start[n]));
        assert forall|i: int, j: int| 0 <= i < j < t.len() implies ranks_before(
            #[trigger] t[i],
            #[trigger] t[j],
        ) by {
            if i < k && j > k {
                assert(ranks_before(s[i], s[j - 1]));
            } else if i > k {
                assert(ranks_before(s[i - 1], s[j - 1]));
            } else if j < k {
                assert(ranks_before(s[i], s[j]));
            }
        }
        assert forall|j: int| n <= j < start.len() implies t.contains(#[trigger] start[j]) by {
            if j == n {
                assert(t[k as int] == start[j]);
            } else {
                assert(s.contains(start[j]));
                let i = choose|i: int| 0 <= i < s.len() && s[i] == start[j];
                if i < k {
                    assert(t[i] == start[j]);
                } else {
                    assert(t[i + 1] == start[j]);
                }
            }
        }
        assert forall|i: int| 0 <= i < t.len() implies exists|j: int|
            n <= j < start.len() && start[j] == #[trigger] t[i] by {
            if i == k {
                assert(start[n] == t[i]);
            } else {
                let i0 = if i < k { i } else { i - 1 };
                assert(t[i] == s[i0]);
                let j = choose|j: int| n + 1 <= j < start.len() && start[j] == s[i0];
                assert(start[j] == t[i]);
            }
        }
    }
    let ghost full = entry_views(sorted@);
    proof {
        assert forall|i: int| 0 <= i < full.len() implies map.contains_pair(
            (#[trigger] full[i]).0,
            full[i].1,
        ) by {
            let j = choose|j: int| 0 <= j < start.len() && start[j] == full[i];
            assert(map.contains_pair(start[j].0, start[j].1));
        }
        assert forall|i: int, j: int| 0 <= i < j < full.len() implies (#[trigger] full[i]).0 != (
        #[trigger] full[j]).0 by {
            assert(ranks_before(full[i], full[j]));
            lemma_rank_order(full[i], full[i], full[i]);
            assert(map.contains_pair(full[i].0, full[i].1));
            assert(map.contains_pair(full[j].0, full[j].1));
        }
        assert forall|w: Seq<char>| #[trigger] map.contains_key(w) implies exists|i: int|
            0 <= i < full.len() && (#[trigger] full[i]).0 == w by {
            let j = choose|j: int| 0 <= j < start.len() && (#[trigger] start[j]).0 == w;
            assert(full.contains(start[j]));
            let i = choose|i: int| 0 <= i < full.len() && full[i] == start[j];
            assert(full[i].0 == w);
        }
        assert(is_ranking(full, map));
        lemma_ranking_unique(full, ranking_of(map), map);
        lemma_domain_size(full, map);
        lemma_top_of_ranking(full, if top_n <= full.len() { top_n as int } else { full.len() as int });
    }
    sorted.truncate(top_n);
    assert(entry_views(sorted@) =~= top_ranked(map, top_n as nat));
    sorted
}

} // verus!
