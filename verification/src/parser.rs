//! The decklist line parser: one line of text in, a quantity and a card
//! name out.
//!
//! A line is read in two steps. Names that hold digits of their own are
//! looked for first, in a fixed order; the first one found decides the
//! name, and the shorter of the two pieces around it is read as the
//! quantity. Every other line is cut by a heuristic on where its first
//! digit stands.

use crate::text::{
    byte_len, decimal_u32, find, find_class, find_in, first_of, lemma_byte_len_is_encoded_len,
    lemma_byte_len_split, lemma_find_from, lemma_first_of, parse_decimal, range_bytes, to_chars,
    trim_range, trimmed, CharClass,
};
use vstd::prelude::*;
use vstd::string::*;

verus! {

/// Why a line has no reading.
#[derive(Clone, Copy, Debug, PartialEq, Eq, Structural)]
pub enum ParseError {
    /// The line holds a digit, but the piece that should be the quantity is
    /// not a positive number.
    NoQuantity,
    /// Nothing is left for the name: the line is blank, or holds a quantity
    /// and no more.
    EmptyLine,
}

/// How many names hold digits of their own.
pub const SPECIAL_NAMES: usize = 11;

/// The names that hold digits of their own, in the order in which a line
/// is searched for them. They are matched as written, letter case
/// included: most stand in lower case only, the last two are names in
/// their printed capitals.
pub open spec fn special_names() -> Seq<Seq<char>> {
    seq![
        "borrowing 100,000 arrows"@,
        "borrowing 100000 arrows"@,
        "guan-yu's 1,000-li march"@,
        "guan-yu's 1000-li march"@,
        "+2 mace"@,
        "5 alarm fire"@,
        "50 feet of rope"@,
        "celebr-8000"@,
        "d00-dl, caricaturist"@,
        "50 Feet of Rope"@,
        "Celebr-8000"@,
    ]
}

/// The `k`-th of the names that hold digits of their own.
pub fn special_name(k: usize) -> (name: &'static str)
    requires
        k < SPECIAL_NAMES,
    ensures
        name@ == special_names()[k as int],
{
    if k == 0 {
        "borrowing 100,000 arrows"
    } else if k == 1 {
        "borrowing 100000 arrows"
    } else if k == 2 {
        "guan-yu's 1,000-li march"
    } else if k == 3 {
        "guan-yu's 1000-li march"
    } else if k == 4 {
        "+2 mace"
    } else if k == 5 {
        "5 alarm fire"
    } else if k == 6 {
        "50 feet of rope"
    } else if k == 7 {
        "celebr-8000"
    } else if k == 8 {
        "d00-dl, caricaturist"
    } else if k == 9 {
        "50 Feet of Rope"
    } else {
        "Celebr-8000"
    }
}

/// The index of the first special name, at or after `from` in their order,
/// that stands somewhere in `line`.
pub open spec fn first_special(line: Seq<char>, from: int) -> Option<int>
    decreases special_names().len() - from,
{
    if from < 0 || from >= special_names().len() {
        None
    } else if find(line, special_names()[from]) is Some {
        Some(from)
    } else {
        first_special(line, from + 1)
    }
}

/// The quantity that a fragment writes: what is left of it, once
/// whitespace and then the letter `x` are trimmed from both ends, read as a
/// decimal number. A quantity is positive: `None` for zero, and for a
/// fragment that is no number.
pub open spec fn quantity(fragment: Seq<char>) -> Option<u32> {
    match decimal_u32(trimmed(trimmed(fragment, CharClass::Space), CharClass::Times)) {
        Some(q) => if q > 0 {
            Some(q)
        } else {
            None
        },
        None => None,
    }
}

/// The quantity fragment of a line that holds the special name `name`: the
/// shorter, in bytes, of what stands before the first occurrence of the
/// name and what stands after it; the latter where they are equally long.
pub open spec fn special_fragment(line: Seq<char>, name: Seq<char>) -> Seq<char>
    recommends
        find(line, name) is Some,
{
    let at = find(line, name)->0;
    let before = line.subrange(0, at);
    let after = line.subrange(at + name.len(), line.len() as int);
    if byte_len(before) < byte_len(after) {
        before
    } else {
        after
    }
}

/// Whether a first digit at index `digit` stands in the back half of the
/// line: nearer, in bytes, to the end than half the line is long.
pub open spec fn digit_in_back_half(line: Seq<char>, digit: int) -> bool {
    byte_len(line) - byte_len(line.subrange(0, digit)) < byte_len(line) / 2
}

/// The quantity fragment of a line whose first digit stands at `digit`.
pub open spec fn generic_fragment(line: Seq<char>, digit: int) -> Seq<char> {
    if digit_in_back_half(line, digit) {
        line.subrange(digit, line.len() as int)
    } else {
        match first_of(line, CharClass::Space, 0) {
            Some(gap) => line.subrange(0, gap),
            None => line,
        }
    }
}

/// The name of a line whose first digit stands at `digit`: in the back
/// half, what stands before the digit, trimmed of `x` and then of
/// whitespace; else what follows the first whitespace character, trimmed of
/// whitespace.
pub open spec fn generic_name(line: Seq<char>, digit: int) -> Seq<char> {
    if digit_in_back_half(line, digit) {
        trimmed(trimmed(line.subrange(0, digit), CharClass::Times), CharClass::Space)
    } else {
        match first_of(line, CharClass::Space, 0) {
            Some(gap) => trimmed(line.subrange(gap + 1, line.len() as int), CharClass::Space),
            None => Seq::empty(),
        }
    }
}

/// A reading with the given quantity and name, if there is a name.
pub open spec fn reading(q: u32, name: Seq<char>) -> Result<(u32, Seq<char>), ParseError> {
    if name.len() == 0 {
        Err(ParseError::EmptyLine)
    } else {
        Ok((q, name))
    }
}

/// What a line reads as.
pub open spec fn parse_line(line: Seq<char>) -> Result<(u32, Seq<char>), ParseError> {
    match first_special(line, 0) {
        Some(k) => {
            let name = special_names()[k];
            match quantity(special_fragment(line, name)) {
                Some(q) => Ok((q, name)),
                None => Ok((1u32, name)),
            }
        },
        None => match first_of(line, CharClass::Digit, 0) {
            None => reading(1, trimmed(line, CharClass::Space)),
            Some(digit) => match quantity(generic_fragment(line, digit)) {
                None => Err(ParseError::NoQuantity),
                Some(q) => reading(q, generic_name(line, digit)),
            },
        },
    }
}

/// Reads `v[lo..hi]` as a quantity.
fn read_quantity(v: &Vec<char>, lo: usize, hi: usize) -> (r: Option<u32>)
    requires
        lo <= hi <= v.len(),
    ensures
        r == quantity(v@.subrange(lo as int, hi as int)),
{
    let (a, b) = trim_range(v, lo, hi, CharClass::Space);
    let (c, d) = trim_range(v, a, b, CharClass::Times);
    match parse_decimal(v, c, d) {
        Some(q) => if q > 0 {
            Some(q)
        } else {
            None
        },
        None => None,
    }
}

/// Looks for the first special name that stands in `line`, and where.
fn find_special(line: &Vec<char>) -> (r: Option<(usize, usize, usize)>)
    ensures
        match r {
            Some((k, at, len)) => {
                &&& k < SPECIAL_NAMES
                &&& first_special(line@, 0) == Some(k as int)
                &&& find(line@, special_names()[k as int]) == Some(at as int)
                &&& len == special_names()[k as int].len()
                &&& at + len <= line.len()
            },
            None => first_special(line@, 0) is None,
        },
{
    let mut k: usize = 0;
    while k < SPECIAL_NAMES
        invariant
            k <= SPECIAL_NAMES,
            special_names().len() == SPECIAL_NAMES,
            first_special(line@, 0) == first_special(line@, k as int),
        decreases SPECIAL_NAMES - k,
    {
        let name = to_chars(special_name(k));
        match find_in(line, &name) {
            Some(at) => {
                proof {
                    lemma_find_from(line@, name@, 0);
                }
                return Some((k, at, name.len()));
            },
            None => {},
        }
        k = k + 1;
    }
    None
}

/// Parses one line of a decklist into the quantity and the card name.
///
/// The result is `parse_line` of the line: the reading of a line that holds
/// a special name never fails; another line fails with `NoQuantity` where
/// it holds a digit and its quantity fragment is no positive number, and
/// with `EmptyLine` where nothing is left for the name.
pub fn parse_card_line(line: String) -> (r: Result<(u32, String), ParseError>)
    ensures
        match r {
            Ok((q, name)) => parse_line(line@) == Ok::<(u32, Seq<char>), ParseError>((q, name@)),
            Err(e) => parse_line(line@) == Err::<(u32, Seq<char>), ParseError>(e),
        },
        r matches Ok((q, name)) ==> q >= 1 && name@.len() > 0,
{
    proof {
        lemma_reading_is_sound(line@);
    }
    let text = line.as_str();
    let chars = to_chars(text);
    let total: usize = text.as_bytes().len();
    proof {
        lemma_byte_len_is_encoded_len(line@);
    }
    let n: usize = chars.len();
    match find_special(&chars) {
        Some((k, at, len)) => {
            let before: usize = range_bytes(&chars, 0, at);
            let after: usize = range_bytes(&chars, at + len, n);
            let found = if before < after {
                read_quantity(&chars, 0, at)
            } else {
                read_quantity(&chars, at + len, n)
            };
            let q: u32 = match found {
                Some(q) => q,
                None => 1,
            };
            return Ok((q, special_name(k).to_owned()));
        },
        None => {},
    }
    match find_class(&chars, CharClass::Digit, 0) {
        None => {
            let (a, b) = trim_range(&chars, 0, n, CharClass::Space);
            assert(chars@.subrange(0, n as int) =~= chars@);
            if a == b {
                return Err(ParseError::EmptyLine);
            }
            Ok((1, text.substring_char(a, b).to_owned()))
        },
        Some(digit) => {
            proof {
                lemma_first_of(chars@, CharClass::Digit, 0);
                lemma_byte_len_split(chars@, 0, digit as int);
            }
            let head: usize = range_bytes(&chars, 0, digit);
            let (found, a, b) = if total - head < total / 2 {
                let (c, d) = trim_range(&chars, 0, digit, CharClass::Times);
                let (a, b) = trim_range(&chars, c, d, CharClass::Space);
                (read_quantity(&chars, digit, n), a, b)
            } else {
                match find_class(&chars, CharClass::Space, 0) {
                    Some(gap) => {
                        proof {
                            lemma_first_of(chars@, CharClass::Space, 0);
                        }
                        let (a, b) = trim_range(&chars, gap + 1, n, CharClass::Space);
                        (read_quantity(&chars, 0, gap), a, b)
                    },
                    None => {
                        assert(chars@.subrange(0, n as int) =~= chars@);
                        (read_quantity(&chars, 0, n), 0, 0)
                    },
                }
            };
            match found {
                None => Err(ParseError::NoQuantity),
                Some(q) => {
                    if a == b {
                        return Err(ParseError::EmptyLine);
                    }
                    Ok((q, text.substring_char(a, b).to_owned()))
                },
            }
        },
    }
}

/// No special name is empty.
pub proof fn lemma_special_names_are_names()
    ensures
        special_names().len() == SPECIAL_NAMES,
        forall|k: int| 0 <= k < SPECIAL_NAMES ==> (#[trigger] special_names()[k]).len() > 0,
{
    reveal_strlit("borrowing 100,000 arrows");
    reveal_strlit("borrowing 100000 arrows");
    reveal_strlit("guan-yu's 1,000-li march");
    reveal_strlit("guan-yu's 1000-li march");
    reveal_strlit("+2 mace");
    reveal_strlit("5 alarm fire");
    reveal_strlit("50 feet of rope");
    reveal_strlit("celebr-8000");
    reveal_strlit("d00-dl, caricaturist");
    reveal_strlit("50 Feet of Rope");
    reveal_strlit("Celebr-8000");
}

/// What `first_special` finds is a special name that stands in the line,
/// and no special name before it in their order does.
pub proof fn lemma_first_special(line: Seq<char>, from: int)
    requires
        0 <= from,
    ensures
        match first_special(line, from) {
            Some(k) => from <= k < special_names().len() && find(line, special_names()[k]) is Some
                && forall|j: int| from <= j < k ==> find(line, #[trigger] special_names()[j]) is None,
            None => forall|j: int|
                from <= j < special_names().len() ==> find(line, #[trigger] special_names()[j])
                    is None,
        },
    decreases special_names().len() - from,
{
    if from < special_names().len() && find(line, special_names()[from]) is None {
        lemma_first_special(line, from + 1);
    }
}

/// A reading holds a positive quantity and a name that is not empty.
pub proof fn lemma_reading_is_sound(line: Seq<char>)
    ensures
        match parse_line(line) {
            Ok((q, name)) => q >= 1 && name.len() > 0,
            Err(_) => true,
        },
{
    lemma_special_names_are_names();
    lemma_first_special(line, 0);
}

} // verus!
