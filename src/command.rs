//! The commands of the interactive shell, read from a line of text.

use vstd::prelude::*;
use vstd::string::StrSliceExecFns;

verus! {

/// One request to the shell: a record (an age and a name) to insert, erase
/// or look up, printing the tree, leaving, or a line that is no command.
#[derive(Debug)]
pub enum Command {
    Insert { age: u32, name: String },
    Erase { age: u32, name: String },
    Contains { age: u32, name: String },
    Print,
    Exit,
    Error(String),
}

/// The words of a line: its maximal runs of characters other than Unicode
/// white space, in order.
pub uninterp spec fn words_of(s: Seq<char>) -> Seq<Seq<char>>;

/// Relies on `str::split_whitespace`, which yields the words of the line.
#[verifier::external_body]
fn split_words(s: &str) -> (r: Vec<&str>)
    ensures
        r@.map_values(|w: &str| w@) == words_of(s@),
{
    s.split_whitespace().collect()
}

/// The value of a string of decimal digits, the last one the least
/// significant.
pub open spec fn digits_value(d: Seq<char>) -> int
    decreases d.len(),
{
    if d.len() == 0 {
        0
    } else {
        digits_value(d.drop_last()) * 10 + (d.last() as int - '0' as int)
    }
}

/// What `u32`'s `from_str` makes of `s`: an optional `+` followed by one or
/// more ASCII digits gives their value where it fits in `u32`; anything else
/// is an error.
pub open spec fn decimal_u32(s: Seq<char>) -> Option<u32> {
    let d = if s.len() > 0 && s[0] == '+' {
        s.drop_first()
    } else {
        s
    };
    if d.len() > 0 && (forall|i: int| 0 <= i < d.len() ==> '0' <= #[trigger] d[i] <= '9')
        && digits_value(d) <= u32::MAX {
        Some(digits_value(d) as u32)
    } else {
        None
    }
}

/// Relies on `str::parse::<u32>`, which reads an optional `+` and decimal
/// digits and fails on anything else or on a value past `u32::MAX`.
#[verifier::external_body]
fn parse_u32(s: &str) -> (r: Option<u32>)
    ensures
        r == decimal_u32(s@),
{
    s.parse::<u32>().ok()
}

/// The word is the one character `c`.
pub open spec fn is_word(w: Seq<char>, c: char) -> bool {
    w == seq![c]
}

/// `cmd` is the command that the words spell. `p` and `x` alone print and
/// leave; `i`, `e` and `c` followed by an age and a name insert, erase and
/// look up that record; every other line is an error whose message says
/// what is wrong.
pub open spec fn spells(words: Seq<Seq<char>>, cmd: Command) -> bool {
    let n = words.len();
    let takes_record = n == 3 && (is_word(words[0], 'i') || is_word(words[0], 'e') || is_word(
        words[0],
        'c',
    ));
    match cmd {
        Command::Print => n == 1 && is_word(words[0], 'p'),
        Command::Exit => n == 1 && is_word(words[0], 'x'),
        Command::Insert { age, name } => n == 3 && is_word(words[0], 'i') && decimal_u32(words[1])
            == Some(age) && name@ == words[2],
        Command::Erase { age, name } => n == 3 && is_word(words[0], 'e') && decimal_u32(words[1])
            == Some(age) && name@ == words[2],
        Command::Contains { age, name } => n == 3 && is_word(words[0], 'c') && decimal_u32(
            words[1],
        ) == Some(age) && name@ == words[2],
        Command::Error(msg) => if n == 0 {
            msg@ == "please insert a command"@
        } else if takes_record {
            decimal_u32(words[1]) is None && msg@ == "unable to parse int (age)."@
        } else {
            !(n == 1 && (is_word(words[0], 'p') || is_word(words[0], 'x')))
                && msg@ == "invalid command."@
        },
    }
}

/// Whether `w` is the one character `c`.
fn is_word_of(w: &str, c: char) -> (r: bool)
    ensures
        r == is_word(w@, c),
{
    if w.unicode_len() == 1 {
        let r = w.get_char(0) == c;
        proof {
            if r {
                assert(w@ =~= seq![c]);
            }
        }
        r
    } else {
        false
    }
}

/// The command that a line's words spell.
pub fn command_of_words(words: &Vec<&str>) -> (cmd: Command)
    ensures
        spells(words@.map_values(|w: &str| w@), cmd),
{
    let ghost ws = words@.map_values(|w: &str| w@);
    if words.len() == 0 {
        return Command::Error("please insert a command".to_owned());
    }
    let first = words[0];
    assert(ws[0] == first@);
    if words.len() == 1 && is_word_of(first, 'p') {
        return Command::Print;
    }
    if words.len() == 1 && is_word_of(first, 'x') {
        return Command::Exit;
    }
    if words.len() == 3 && (is_word_of(first, 'i') || is_word_of(first, 'e') || is_word_of(
        first,
        'c',
    )) {
        assert(ws[1] == words[1]@ && ws[2] == words[2]@);
        match parse_u32(words[1]) {
            None => Command::Error("unable to parse int (age).".to_owned()),
            Some(age) => {
                let name = words[2].to_owned();
                if is_word_of(first, 'i') {
                    Command::Insert { age, name }
                } else if is_word_of(first, 'e') {
                    Command::Erase { age, name }
                } else {
                    Command::Contains { age, name }
                }
            },
        }
    } else {
        Command::Error("invalid command.".to_owned())
    }
}

/// Reads a command from a line of input.
pub fn parse_command(input: String) -> (cmd: Command)
    ensures
        spells(words_of(input@), cmd),
{
    let words = split_words(input.as_str());
    command_of_words(&words)
}

} // verus!
