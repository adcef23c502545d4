use word_counter::rank::{entry_before, rank};
use word_counter::tally::count;
use word_counter::text::{clean, normalize_and_split, split_words, strip};
use word_counter::top_words;

fn pairs(items: &[(&str, usize)]) -> Vec<(String, usize)> {
    items.iter().map(|(w, c)| (w.to_string(), *c)).collect()
}

fn strings(items: &[&str]) -> Vec<String> {
    items.iter().map(|w| w.to_string()).collect()
}

#[test]
fn counts_total_words_and_top3_sorted() {
    // Input includes punctuation and mixed case; cleaning should normalize it.
    let input = "Rust je super, rust je BRZ!";
    let (total, top) = top_words(input, 3, 1);

    assert_eq!(total, 6);
    assert_eq!(
        top,
        vec![
            ("je".to_string(), 2),
            ("rust".to_string(), 2),
            ("brz".to_string(), 1),
        ]
    );
}

#[test]
fn ignores_punctuation_and_counts_correctly() {
    let input = "A! a, a... b? B";
    let (total, top) = top_words(input, 10, 1);

    assert_eq!(total, 5);
    assert_eq!(top, vec![("a".to_string(), 3), ("b".to_string(), 2)]);
}

#[test]
fn empty_or_non_alphanumeric_input_gives_empty_results() {
    let input = "   !!!   ... ??? ";
    let (total, top) = top_words(input, 3, 1);

    assert_eq!(total, 0);
    assert!(top.is_empty());
}

#[test]
fn top_n_limits_output_size() {
    let input = "one two three four";
    let (_total, top) = top_words(input, 2, 1);

    assert_eq!(top.len(), 2);
}

#[test]
fn deterministic_tie_break_by_word_ascending() {
    // All words have the same count (=1), so sorting should fall back to word asc.
    let input = "z a b";
    let (_total, top) = top_words(input, 10, 1);

    assert_eq!(
        top,
        vec![
            ("a".to_string(), 1),
            ("b".to_string(), 1),
            ("z".to_string(), 1),
        ]
    );
}

#[test]
fn top_n_zero_returns_empty_but_total_is_correct() {
    let input = "rust rust je";
    let (total, top) = top_words(input, 0, 1);

    assert_eq!(total, 3);
    assert!(top.is_empty());
}

#[test]
fn all_punctuation_gives_nothing_for_any_options() {
    for top_n in [0usize, 1, 3, 100] {
        for min_length in [0usize, 1, 2, 50] {
            let (total, top) = top_words("   !!!   ... ??? ", top_n, min_length);
            assert_eq!(total, 0);
            assert_eq!(top, Vec::<(String, usize)>::new());
        }
    }
}

#[test]
fn empty_input_gives_nothing() {
    let (total, top) = top_words("", 3, 1);
    assert_eq!(total, 0);
    assert!(top.is_empty());
}

#[test]
fn minimum_length_excludes_short_words() {
    let (total, top) = top_words("a ab abc ab abc abc", 10, 3);
    assert_eq!(total, 3);
    assert_eq!(top, pairs(&[("abc", 3)]));
}

#[test]
fn minimum_length_zero_and_one_admit_every_word() {
    let zero = top_words("a ab abc ab abc abc", 10, 0);
    let one = top_words("a ab abc ab abc abc", 10, 1);
    assert_eq!(zero, one);
    assert_eq!(zero.0, 6);
    assert_eq!(zero.1, pairs(&[("abc", 3), ("ab", 2), ("a", 1)]));
}

#[test]
fn minimum_length_counts_characters() {
    let (total, top) = top_words("\u{e9} \u{e9}\u{e9} b", 10, 2);
    assert_eq!(total, 1);
    assert_eq!(top, pairs(&[("\u{e9}\u{e9}", 1)]));
}

#[test]
fn punctuation_is_deleted_not_a_separator() {
    assert_eq!(normalize_and_split("Don't stop"), strings(&["dont", "stop"]));
    let (total, top) = top_words("don't dont", 5, 1);
    assert_eq!(total, 2);
    assert_eq!(top, pairs(&[("dont", 2)]));
}

#[test]
fn clean_lowercases_and_keeps_letters_digits_and_white_space() {
    assert_eq!(clean("Hello, World! 42\t(x)\n"), "hello world 42\tx\n");
    assert_eq!(clean("\u{c9}T\u{c9}"), "\u{e9}t\u{e9}");
    assert_eq!(clean("?!"), "");
}

#[test]
fn strip_deletes_punctuation_and_keeps_case() {
    assert_eq!(strip("It's 4 o'clock -- Go!"), "Its 4 oclock  Go");
    assert_eq!(strip(""), "");
    assert_eq!(strip("a_b-c"), "abc");
}

#[test]
fn split_words_drops_empty_fragments() {
    assert_eq!(split_words("  a \t b\n\nc  "), strings(&["a", "b", "c"]));
    assert_eq!(split_words("one"), strings(&["one"]));
    assert_eq!(split_words("a\u{a0}b\u{3000}c"), strings(&["a", "b", "c"]));
    assert_eq!(split_words(" \t\n"), Vec::<String>::new());
    assert_eq!(split_words(""), Vec::<String>::new());
}

#[test]
fn normalize_and_split_keeps_order_and_repeats() {
    assert_eq!(
        normalize_and_split("Rust je super, rust je BRZ!"),
        strings(&["rust", "je", "super", "rust", "je", "brz"])
    );
}

#[test]
fn count_tallies_each_qualifying_word() {
    let words = strings(&["b", "aa", "b", "ccc", "aa", "b"]);
    let (total, tally) = count(&words, 1);
    assert_eq!(total, 6);
    assert_eq!(tally.len(), 3);
    assert_eq!(tally.into_entries(), pairs(&[("aa", 2), ("b", 3), ("ccc", 1)]));

    let (total, tally) = count(&words, 2);
    assert_eq!(total, 3);
    assert_eq!(tally.into_entries(), pairs(&[("aa", 2), ("ccc", 1)]));

    let (total, tally) = count(&words, 4);
    assert_eq!(total, 0);
    assert_eq!(tally.len(), 0);
}

#[test]
fn rank_of_an_empty_tally_is_empty() {
    let (total, tally) = count(&Vec::new(), 1);
    assert_eq!(total, 0);
    assert_eq!(tally.len(), 0);
    assert!(rank(tally, 5).is_empty());
}

#[test]
fn rank_orders_by_count_then_word() {
    let words = strings(&["pear", "fig", "apple", "fig", "pear", "kiwi", "apple", "fig"]);
    let (_, tally) = count(&words, 1);
    assert_eq!(
        rank(tally, 10),
        pairs(&[("fig", 3), ("apple", 2), ("pear", 2), ("kiwi", 1)])
    );
    let (_, tally) = count(&words, 1);
    assert_eq!(rank(tally, 2), pairs(&[("fig", 3), ("apple", 2)]));
    let (_, tally) = count(&words, 1);
    assert_eq!(rank(tally, 0), Vec::<(String, usize)>::new());
}

#[test]
fn rank_does_not_depend_on_the_order_of_occurrence() {
    let (_, forward) = count(&strings(&["c", "b", "a", "b"]), 1);
    let (_, backward) = count(&strings(&["b", "a", "b", "c"]), 1);
    let expected = pairs(&[("b", 2), ("a", 1), ("c", 1)]);
    assert_eq!(rank(forward, 3), expected);
    assert_eq!(rank(backward, 3), expected);
}

#[test]
fn a_prefix_ranks_before_the_longer_word() {
    let (_, top) = top_words("abc ab a abd b", 10, 1);
    assert_eq!(top, pairs(&[("a", 1), ("ab", 1), ("abc", 1), ("abd", 1), ("b", 1)]));
}

#[test]
fn words_are_ordered_by_code_point() {
    let (_, top) = top_words("z \u{e9} 9 a", 10, 1);
    assert_eq!(top, pairs(&[("9", 1), ("a", 1), ("z", 1), ("\u{e9}", 1)]));
}

#[test]
fn entry_before_compares_count_first() {
    let hi = ("zebra".to_string(), 5usize);
    let lo = ("apple".to_string(), 2usize);
    let tie = ("apple".to_string(), 5usize);
    assert!(entry_before(&hi, &lo));
    assert!(!entry_before(&lo, &hi));
    assert!(entry_before(&tie, &hi));
    assert!(!entry_before(&hi, &tie));
    assert!(!entry_before(&hi, &hi));
}

#[test]
fn result_is_never_longer_than_top_n_or_the_distinct_words() {
    let input = "one two two three three three";
    for top_n in 0usize..6 {
        let (total, top) = top_words(input, top_n, 1);
        assert_eq!(total, 6);
        assert_eq!(top.len(), top_n.min(3));
    }
    let (_, top) = top_words(input, 10, 4);
    assert_eq!(top, pairs(&[("three", 3)]));
}

#[test]
fn every_entry_ranks_strictly_before_the_next() {
    let (_, top) = top_words("d c c b b a a a e e e f", 10, 1);
    assert_eq!(top.len(), 6);
    for pair in top.windows(2) {
        let (w1, c1) = &pair[0];
        let (w2, c2) = &pair[1];
        assert!(c1 > c2 || (c1 == c2 && w1 < w2));
    }
}

#[test]
fn same_input_gives_same_result() {
    let input = "To be, or not to be: that is the question.";
    let first = top_words(input, 4, 2);
    let second = top_words(input, 4, 2);
    assert_eq!(first, second);
    assert_eq!(first.0, 10);
    assert_eq!(first.1, pairs(&[("be", 2), ("to", 2), ("is", 1), ("not", 1)]));
}

#[test]
fn many_distinct_words_are_counted_and_ranked() {
    let mut input = String::new();
    for round in 0..4usize {
        for i in 0..3000usize {
            if i % (round + 1) == 0 {
                input.push_str(&format!("w{} ", i));
            }
        }
    }
    let (total, top) = top_words(&input, 3, 1);
    assert_eq!(total, 3000 + 1500 + 1000 + 750);
    assert_eq!(
        top,
        vec![("w0".to_string(), 4), ("w1008".to_string(), 4), ("w1020".to_string(), 4)]
    );
    let (_, all) = top_words(&input, usize::MAX, 1);
    assert_eq!(all.len(), 3000);
    assert_eq!(all[2999], ("w997".to_string(), 1));
}
