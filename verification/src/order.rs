use vstd::prelude::*;

verus! {

/// Strict lexicographic order of words by code point: the first character in
/// which two words differ decides, and a proper prefix comes first.
pub open spec fn word_before(a: Seq<char>, b: Seq<char>) -> bool
    decreases a.len(),
{
    if b.len() == 0 {
        false
    } else if a.len() == 0 {
        true
    } else if a[0] != b[0] {
        (a[0] as int) < (b[0] as int)
    } else {
        word_before(a.drop_first(), b.drop_first())
    }
}

/// No word comes before itself, and of two words at most one comes before the
/// other.
pub proof fn lemma_word_order_asymmetric(a: Seq<char>, b: Seq<char>)
    ensures
        !(word_before(a, b) && word_before(b, a)),
    decreases a.len(),
{
    if a.len() > 0 && b.len() > 0 && a[0] == b[0] {
        lemma_word_order_asymmetric(a.drop_first(), b.drop_first());
    }
}

/// Of two different words one comes before the other.
pub proof fn lemma_word_order_total(a: Seq<char>, b: Seq<char>)
    ensures
        a == b || word_before(a, b) || word_before(b, a),
    decreases a.len(),
{
    if a.len() > 0 && b.len() > 0 && a[0] == b[0] {
        lemma_word_order_total(a.drop_first(), b.drop_first());
        if a.drop_first() == b.drop_first() {
            assert(a =~= seq![a[0]] + a.drop_first());
            assert(b =~= seq![b[0]] + b.drop_first());
        }
    } else if a.len() == 0 && b.len() == 0 {
        assert(a =~= b);
    }
}

/// The order of words is transitive.
pub proof fn lemma_word_order_transitive(a: Seq<char>, b: Seq<char>, c: Seq<char>)
    requires
        word_before(a, b),
        word_before(b, c),
    ensures
        word_before(a, c),
    decreases a.len(),
{
    if a.len() > 0 && a[0] == b[0] && b[0] == c[0] {
        lemma_word_order_transitive(a.drop_first(), b.drop_first(), c.drop_first());
    }
}

/// The order of `str` under `<`: lexicographic by byte values, which orders
/// strings by the code points of their characters.
#[verifier::external_body]
pub(crate) fn word_less(a: &str, b: &str) -> (r: bool)
    ensures
        r == word_before(a@, b@),
{
    a < b
}

} // verus!
