use word_counter::render::{push_decimal, render_lines};
use word_counter::top_words;

#[test]
fn report_has_the_total_and_one_line_for_each_entry() {
    let (total, top) = top_words("Rust je super, rust je BRZ!", 3, 1);
    assert_eq!(
        render_lines(total, &top),
        vec![
            "Total words: 6".to_string(),
            "je: 2".to_string(),
            "rust: 2".to_string(),
            "brz: 1".to_string(),
        ]
    );
}

#[test]
fn report_of_nothing_is_the_total_alone() {
    let (total, top) = top_words("   !!!   ... ??? ", 3, 1);
    assert_eq!(render_lines(total, &top), vec!["Total words: 0".to_string()]);
    let (total, top) = top_words("rust rust je", 0, 1);
    assert_eq!(render_lines(total, &top), vec!["Total words: 3".to_string()]);
}

#[test]
fn report_writes_counts_of_several_digits() {
    let items = vec![("alpha".to_string(), 1205usize), ("beta".to_string(), 10)];
    assert_eq!(
        render_lines(1215, &items),
        vec!["Total words: 1215".to_string(), "alpha: 1205".to_string(), "beta: 10".to_string()]
    );
}

#[test]
fn push_decimal_appends_the_digits() {
    for n in [0usize, 7, 9, 10, 11, 99, 100, 101, 4096, 1_000_000, usize::MAX] {
        let mut out = String::from("n=");
        push_decimal(&mut out, n);
        assert_eq!(out, format!("n={}", n));
    }
}
