use vstd::prelude::*;
use vstd::string::*;
use crate::tally::entry_views;
use crate::text::push_char;

verus! {

/// The character of a decimal digit.
pub open spec fn digit_char(d: nat) -> char
    recommends
        d < 10,
{
    (48 + d) as char
}

/// A number in decimal notation, without sign or leading zeros.
pub open spec fn decimal(n: nat) -> Seq<char>
    decreases n,
{
    if n < 10 {
        seq![digit_char(n)]
    } else {
        decimal(n / 10).push(digit_char(n % 10))
    }
}

/// The first line of the report: the total.
pub open spec fn total_line(total: nat) -> Seq<char> {
    "Total words: "@ + decimal(total)
}

/// The line of the report for one entry: the word, a colon and a space, and
/// its count.
pub open spec fn entry_line(e: (Seq<char>, nat)) -> Seq<char> {
    e.0 + ": "@ + decimal(e.1)
}

/// The lines of the report for a total and a ranked list: the total first,
/// then one line for each entry, in order.
pub open spec fn report_lines(total: nat, ranked: Seq<(Seq<char>, nat)>) -> Seq<Seq<char>> {
    Seq::new(
        ranked.len() + 1,
        |i: int|
            if i == 0 {
                total_line(total)
            } else {
                entry_line(ranked[i - 1])
            },
    )
}

/// The character sequences of a list of lines.
pub open spec fn line_views(lines: Seq<String>) -> Seq<Seq<char>> {
    Seq::new(lines.len(), |i: int| lines[i]@)
}

/// Appends `n` in decimal notation to `out`.
pub fn push_decimal(out: &mut String, n: usize)
    ensures
        final(out)@ == old(out)@ + decimal(n as nat),
    decreases n,
{
    if n >= 10 {
        push_decimal(out, n / 10);
    }
    let d: u8 = (n % 10) as u8;
    let c: char = (48u8 + d) as char;
    assert(c == digit_char((n % 10) as nat));
    push_char(out, c);
    assert(out@ =~= old(out)@ + decimal(n as nat));
}

/// Renders a result for a reader: a line with the total, then one line for
/// each ranked entry, in ranked order.
pub fn render_lines(total: usize, ranked: &Vec<(String, usize)>) -> (lines: Vec<String>)
    ensures
        line_views(lines@) == report_lines(total as nat, entry_views(ranked@)),
{
    let mut lines: Vec<String> = Vec::new();
    let mut first = String::from_str("Total words: ");
    push_decimal(&mut first, total);
    lines.push(first);
    for i in 0..ranked.len()
        invariant
            lines@.len() == i + 1,
            lines@[0]@ == total_line(total as nat),
            forall|k: int| 0 <= k < i ==> (#[trigger] lines@[k + 1])@ == entry_line(entry_views(ranked@)[k]),
    {
        let mut line = ranked[i].0.clone();
        line.append(": ");
        push_decimal(&mut line, ranked[i].1);
        lines.push(line);
    }
    assert forall|i: int| 0 <= i < lines@.len() implies line_views(lines@)[i] == report_lines(
        total as nat,
        entry_views(ranked@),
    )[i] by {
        if i > 0 {
            assert(lines@[(i - 1) + 1]@ == entry_line(entry_views(ranked@)[i - 1]));
        }
    }
    assert(line_views(lines@) =~= report_lines(total as nat, entry_views(ranked@)));
    lines
}

} // verus!
