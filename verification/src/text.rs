use vstd::prelude::*;
use vstd::std_specs::iter::IteratorSpec;

verus! {

/// Lowercase form of a text, as the standard string facility folds it.
pub uninterp spec fn lowercase_of(s: Seq<char>) -> Seq<char>;

/// Whether a character is a letter or a digit.
pub uninterp spec fn is_alphanumeric(c: char) -> bool;

/// Whether a character is white space.
pub uninterp spec fn is_whitespace(c: char) -> bool;

/// `str::to_lowercase`: the lowercase form of `s` as a new string. The result
/// is a function of the characters of `s` alone, named `lowercase_of`.
#[verifier::external_body]
pub(crate) fn to_lowercase(s: &str) -> (r: String)
    ensures
        r@ == lowercase_of(s@),
{
    s.to_lowercase()
}

/// `char::is_alphanumeric`: a function of the character alone, named
/// `is_alphanumeric`.
#[verifier::external_body]
pub(crate) fn char_is_alphanumeric(c: char) -> (r: bool)
    ensures
        r == is_alphanumeric(c),
{
    c.is_alphanumeric()
}

/// `char::is_whitespace`: a function of the character alone, named
/// `is_whitespace`.
#[verifier::external_body]
pub(crate) fn char_is_whitespace(c: char) -> (r: bool)
    ensures
        r == is_whitespace(c),
{
    c.is_whitespace()
}

/// `String::push`: appends one character at the end.
#[verifier::external_body]
pub(crate) fn push_char(s: &mut String, c: char)
    ensures
        final(s)@ == old(s)@.push(c),
{
    s.push(c)
}

/// Whether normalization retains a character: letters, digits and white
/// space stay, everything else is deleted.
pub open spec fn is_kept(c: char) -> bool {
    is_alphanumeric(c) || is_whitespace(c)
}

/// `is_kept` as a predicate value.
pub open spec fn kept() -> spec_fn(char) -> bool {
    |c: char| is_kept(c)
}

/// The lowercased text with every character that is not kept deleted.
pub open spec fn cleaned(s: Seq<char>) -> Seq<char> {
    lowercase_of(s).filter(kept())
}

/// Reads `s` from the left and returns the words that white space has already
/// closed, together with the word that is still open at the end of `s`
/// (empty when `s` is empty or ends in white space).
pub open spec fn scan(s: Seq<char>) -> (Seq<Seq<char>>, Seq<char>)
    decreases s.len(),
{
    if s.len() == 0 {
        (Seq::empty(), Seq::empty())
    } else {
        let (done, open) = scan(s.drop_last());
        if is_whitespace(s.last()) {
            if open.len() > 0 {
                (done.push(open), Seq::empty())
            } else {
                (done, open)
            }
        } else {
            (done, open.push(s.last()))
        }
    }
}

/// The maximal runs of characters of `s` that hold no white space, from left
/// to right.
pub open spec fn words_of(s: Seq<char>) -> Seq<Seq<char>> {
    let (done, open) = scan(s);
    if open.len() > 0 {
        done.push(open)
    } else {
        done
    }
}

/// The words of a text after normalization.
pub open spec fn normalized_words(input: Seq<char>) -> Seq<Seq<char>> {
    words_of(cleaned(input))
}

/// The character sequences of a list of strings.
pub open spec fn word_views(v: Seq<String>) -> Seq<Seq<char>> {
    Seq::new(v.len(), |i: int| v[i]@)
}

/// No character of `w` is white space.
pub open spec fn has_no_white_space(w: Seq<char>) -> bool {
    forall|k: int| 0 <= k < w.len() ==> !is_whitespace(#[trigger] w[k])
}

/// A text without white space is read as one open word.
proof fn lemma_scan_of_run(w: Seq<char>)
    requires
        has_no_white_space(w),
    ensures
        scan(w) == (Seq::<Seq<char>>::empty(), w),
    decreases w.len(),
{
    if w.len() > 0 {
        lemma_scan_of_run(w.drop_last());
        assert(!is_whitespace(w[w.len() - 1]));
        assert(w.drop_last().push(w.last()) =~= w);
    } else {
        assert(w =~= Seq::<char>::empty());
    }
}

/// After a text that leaves no word open, reading goes on as from the start.
proof fn lemma_scan_after_break(x: Seq<char>, b: Seq<char>)
    requires
        scan(x).1.len() == 0,
    ensures
        scan(x + b) == (scan(x).0 + scan(b).0, scan(b).1),
    decreases b.len(),
{
    if b.len() == 0 {
        assert(x + b =~= x);
        assert(scan(x).0 + scan(b).0 =~= scan(x).0);
        assert(scan(x).1 =~= scan(b).1);
    } else {
        let rest = b.drop_last();
        lemma_scan_after_break(x, rest);
        assert((x + b).drop_last() =~= x + rest);
        assert((x + b).last() == b.last());
        let (done, open) = scan(rest);
        if is_whitespace(b.last()) && open.len() > 0 {
            assert((scan(x).0 + done).push(open) =~= scan(x).0 + done.push(open));
        }
    }
}

/// The empty text has no words.
pub proof fn lemma_words_of_nothing()
    ensures
        words_of(Seq::<char>::empty()) == Seq::<Seq<char>>::empty(),
{
}

/// A non-empty text without white space is one word: itself.
pub proof fn lemma_words_of_run(w: Seq<char>)
    requires
        w.len() > 0,
        has_no_white_space(w),
    ensures
        words_of(w) == seq![w],
{
    lemma_scan_of_run(w);
    assert(Seq::<Seq<char>>::empty().push(w) =~= seq![w]);
}

/// A white space character separates: the words of a text around one are the
/// words before it followed by the words after it.
pub proof fn lemma_words_split_at_white_space(a: Seq<char>, c: char, b: Seq<char>)
    requires
        is_whitespace(c),
    ensures
        words_of(a.push(c) + b) == words_of(a) + words_of(b),
{
    let x = a.push(c);
    assert(x.drop_last() =~= a);
    assert(x.last() == c);
    assert(scan(x) == (words_of(a), Seq::<char>::empty()));
    lemma_scan_after_break(x, b);
    let (done, open) = scan(b);
    if open.len() > 0 {
        assert((words_of(a) + done).push(open) =~= words_of(a) + done.push(open));
    }
}

/// A word: not empty, and made of alphanumeric characters only.
pub open spec fn is_word(w: Seq<char>) -> bool {
    w.len() > 0 && forall|k: int| 0 <= k < w.len() ==> is_alphanumeric(#[trigger] w[k])
}

/// Where every character of `s` is kept by normalization, every closed word
/// of `s` is a word, and the open one is made of alphanumeric characters.
proof fn lemma_scan_gives_words(s: Seq<char>)
    requires
        forall|k: int| 0 <= k < s.len() ==> is_kept(#[trigger] s[k]),
    ensures
        forall|i: int| 0 <= i < scan(s).0.len() ==> is_word(#[trigger] scan(s).0[i]),
        forall|k: int| 0 <= k < scan(s).1.len() ==> is_alphanumeric(#[trigger] scan(s).1[k]),
    decreases s.len(),
{
    if s.len() > 0 {
        lemma_scan_gives_words(s.drop_last());
        let (done, open) = scan(s.drop_last());
        assert(is_kept(s[s.len() - 1]));
        if is_whitespace(s.last()) && open.len() > 0 {
            assert(is_word(open));
            assert forall|i: int| 0 <= i < scan(s).0.len() implies is_word(
                #[trigger] scan(s).0[i],
            ) by {
                if i < done.len() {
                    assert(scan(s).0[i] == done[i]);
                }
            }
        }
    }
}

/// Every word of a normalized text is non-empty and holds only alphanumeric
/// characters: no punctuation and no white space is left in it.
pub proof fn lemma_normalized_words_are_words(input: Seq<char>)
    ensures
        forall|i: int|
            0 <= i < normalized_words(input).len() ==> is_word(#[trigger] normalized_words(input)[i]),
{
    let text = cleaned(input);
    assert forall|k: int| 0 <= k < text.len() implies is_kept(#[trigger] text[k]) by {
        lowercase_of(input).lemma_filter_pred(kept(), k);
        assert(kept()(text[k]));
    }
    lemma_scan_gives_words(text);
    let (done, open) = scan(text);
    assert forall|i: int| 0 <= i < normalized_words(input).len() implies is_word(
        #[trigger] normalized_words(input)[i],
    ) by {
        if i < done.len() {
            assert(normalized_words(input)[i] == done[i]);
        } else {
            assert(normalized_words(input)[i] == open);
        }
    }
}

/// Deletes from `text` every character that is neither alphanumeric nor
/// white space; what stays keeps its order.
pub fn strip(text: &str) -> (r: String)
    ensures
        r@ == text@.filter(kept()),
{
    let mut out = String::new();
    proof {
        reveal(Seq::filter);
    }
    for c in it: text.chars()
        invariant
            it.seq() == text@,
            out@ == text@.take(it.index() as int).filter(kept()),
    {
        proof {
            reveal(Seq::filter);
            let next = text@.take(it.index() + 1);
            assert(next.drop_last() =~= text@.take(it.index() as int));
            assert(next.last() == c);
        }
        if char_is_alphanumeric(c) || char_is_whitespace(c) {
            push_char(&mut out, c);
        }
    }
    assert(text@.take(text@.len() as int) =~= text@);
    out
}

/// Lowercases `input` and deletes every character that is neither
/// alphanumeric nor white space.
pub fn clean(input: &str) -> (r: String)
    ensures
        r@ == cleaned(input@),
{
    let lower = to_lowercase(input);
    strip(lower.as_str())
}

/// Splits `text` on runs of white space, dropping empty fragments.
pub fn split_words(text: &str) -> (r: Vec<String>)
    ensures
        word_views(r@) == words_of(text@),
{
    let mut done: Vec<String> = Vec::new();
    let mut open = String::new();
    assert(word_views(done@) =~= Seq::<Seq<char>>::empty());
    for c in it: text.chars()
        invariant
            it.seq() == text@,
            (word_views(done@), open@) == scan(text@.take(it.index() as int)),
    {
        proof {
            let next = text@.take(it.index() + 1);
            assert(next.drop_last() =~= text@.take(it.index() as int));
            assert(next.last() == c);
        }
        if char_is_whitespace(c) {
            if !open.as_str().is_empty() {
                assert(word_views(done@.push(open)) =~= word_views(done@).push(open@));
                done.push(open);
                open = String::new();
            }
        } else {
            push_char(&mut open, c);
        }
    }
    assert(text@.take(text@.len() as int) =~= text@);
    if !open.as_str().is_empty() {
        assert(word_views(done@.push(open)) =~= word_views(done@).push(open@));
        done.push(open);
    }
    done
}

/// Normalizes `input` and returns its words in order: lowercase, without
/// punctuation, split on white space.
pub fn normalize_and_split(input: &str) -> (r: Vec<String>)
    ensures
        word_views(r@) == normalized_words(input@),
{
    let text = clean(input);
    split_words(text.as_str())
}

} // verus!
