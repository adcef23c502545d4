use vstd::prelude::*;
use vstd::string::*;
use crate::text::word_views;
use crate::Options;

verus! {

/// The settings of a run as plain values.
pub struct Settings {
    pub top_n: nat,
    pub min_length: nat,
    pub json: bool,
    pub file_path: Option<Seq<char>>,
}

impl View for Options {
    type V = Settings;

    open spec fn view(&self) -> Settings {
        Settings {
            top_n: self.top_n as nat,
            min_length: self.min_length as nat,
            json: self.json,
            file_path: match self.file_path {
                Some(p) => Some(p@),
                None => None,
            },
        }
    }
}

/// The settings of a run that is given no arguments.
pub open spec fn default_settings() -> Settings {
    Settings { top_n: 3, min_length: 1, json: false, file_path: None }
}

/// Whether a character is one of the ten decimal digits.
pub open spec fn is_digit(c: char) -> bool {
    '0' as int <= c as int <= '9' as int
}

/// The number that a string of decimal digits denotes.
pub open spec fn digits_value(s: Seq<char>) -> nat
    decreases s.len(),
{
    if s.len() == 0 {
        0
    } else {
        (digits_value(s.drop_last()) * 10 + (s.last() as int - '0' as int)) as nat
    }
}

/// The non-negative integer that `s` denotes: an optional `+`, then one or
/// more decimal digits and nothing else, of a value that the machine's word
/// holds. `None` for every other string.
pub open spec fn number_of(s: Seq<char>) -> Option<usize> {
    let digits = unsigned_part(s);
    if digits.len() > 0 && all_digits(digits) && digits_value(digits) <= usize::MAX {
        Some(digits_value(digits) as usize)
    } else {
        None
    }
}

/// `s` without its leading `+`, if it has one.
pub open spec fn unsigned_part(s: Seq<char>) -> Seq<char> {
    if s.len() > 0 && s[0] == '+' {
        s.drop_first()
    } else {
        s
    }
}

/// Every character of `s` is a decimal digit.
pub open spec fn all_digits(s: Seq<char>) -> bool {
    forall|i: int| 0 <= i < s.len() ==> is_digit(#[trigger] s[i])
}

/// `str::parse` to a `usize`: accepts an optional `+` sign followed by
/// decimal digits only, and fails on an empty string, on any other character
/// and on a value that a `usize` cannot hold.
#[verifier::external_body]
pub(crate) fn parse_number(s: &str) -> (r: Option<usize>)
    ensures
        r == number_of(s@),
{
    s.parse::<usize>().ok()
}

/// What the arguments from position `i` on make of the settings `so_far`:
/// the final settings, or the message of the first argument that is refused.
pub open spec fn parse_from(args: Seq<Seq<char>>, i: int, so_far: Settings) -> Result<
    Settings,
    Seq<char>,
>
    decreases args.len() - i,
{
    if i < 0 || i >= args.len() {
        Ok(so_far)
    } else if args[i] == "--top"@ {
        if i + 1 >= args.len() {
            Err("Expected a value after --top"@)
        } else {
            match number_of(args[i + 1]) {
                Some(n) => parse_from(args, i + 2, Settings { top_n: n as nat, ..so_far }),
                None => Err("The value after --top must be a positive integer"@),
            }
        }
    } else if args[i] == "--min-length"@ {
        if i + 1 >= args.len() {
            Err("Expected a value after --min-length"@)
        } else {
            match number_of(args[i + 1]) {
                Some(n) => parse_from(args, i + 2, Settings { min_length: n as nat, ..so_far }),
                None => Err("The value after --min-length must be a positive integer"@),
            }
        }
    } else if args[i] == "--file"@ {
        if i + 1 >= args.len() {
            Err("Expected a value after --file"@)
        } else {
            parse_from(args, i + 2, Settings { file_path: Some(args[i + 1]), ..so_far })
        }
    } else if args[i] == "--json"@ {
        parse_from(args, i + 1, Settings { json: true, ..so_far })
    } else if args[i] == "--help"@ {
        Err("Usage: word_counter --top N --min-length M"@)
    } else {
        Err("Unknown argument: "@ + args[i])
    }
}

/// What a whole argument list means.
pub open spec fn parsed(args: Seq<Seq<char>>) -> Result<Settings, Seq<char>> {
    parse_from(args, 0, default_settings())
}

/// The outcome of `parse_args` as plain values.
pub open spec fn outcome_view(r: Result<Options, String>) -> Result<Settings, Seq<char>> {
    match r {
        Ok(o) => Ok(o@),
        Err(m) => Err(m@),
    }
}

/// Reads the settings of a run from its arguments (without the program's
/// name), left to right; a later flag overrides an earlier one. Fails with a
/// message at the first unknown argument, missing value, value that is no
/// non-negative integer, or request for help.
pub fn parse_args(args: Vec<String>) -> (r: Result<Options, String>)
    ensures
        outcome_view(r) == parsed(word_views(args@)),
{
    let mut options = Options { top_n: 3, min_length: 1, json: false, file_path: None };
    let ghost all = word_views(args@);
    let top = String::from_str("--top");
    let min_length = String::from_str("--min-length");
    let file = String::from_str("--file");
    let json = String::from_str("--json");
    let help = String::from_str("--help");
    let mut i: usize = 0;
    while i < args.len()
        invariant
            i <= args.len(),
            all == word_views(args@),
            top@ == "--top"@,
            min_length@ == "--min-length"@,
            file@ == "--file"@,
            json@ == "--json"@,
            help@ == "--help"@,
            parsed(all) == parse_from(all, i as int, options@),
        decreases args.len() - i,
    {
        let arg = &args[i];
        assert(all[i as int] == arg@);
        if *arg == top {
            if i + 1 >= args.len() {
                return Err(String::from_str("Expected a value after --top"));
            }
            assert(all[i + 1] == args@[i + 1]@);
            match parse_number(args[i + 1].as_str()) {
                Some(n) => {
                    options.top_n = n;
                },
                None => {
                    return Err(
                        String::from_str("The value after --top must be a positive integer"),
                    );
                },
            }
            i += 2;
        } else if *arg == min_length {
            if i + 1 >= args.len() {
                return Err(String::from_str("Expected a value after --min-length"));
            }
            assert(all[i + 1] == args@[i + 1]@);
            match parse_number(args[i + 1].as_str()) {
                Some(n) => {
                    options.min_length = n;
                },
                None => {
                    return Err(
                        String::from_str("The value after --min-length must be a positive integer"),
                    );
                },
            }
            i += 2;
        } else if *arg == file {
            if i + 1 >= args.len() {
                return Err(String::from_str("Expected a value after --file"));
            }
            assert(all[i + 1] == args@[i + 1]@);
            options.file_path = Some(args[i + 1].clone());
            i += 2;
        } else if *arg == json {
            options.json = true;
            i += 1;
        } else if *arg == help {
            return Err(String::from_str("Usage: word_counter --top N --min-length M"));
        } else {
            return Err(String::from_str("Unknown argument: ").concat(arg.as_str()));
        }
    }
    Ok(options)
}

} // verus!
