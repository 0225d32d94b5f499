//! What holds of every reading: laws of the line parser.

use crate::parser::{
    digit_in_back_half, first_special, lemma_first_special, lemma_special_names_are_names,
    parse_line, quantity, special_names, ParseError, SPECIAL_NAMES,
};
use crate::text::{
    all_digits, byte_len, digits_value, find, first_of, is_digit, is_space, lemma_byte_len_at_least,
    lemma_find_from, lemma_find_in_part, lemma_first_of, lemma_first_of_is, lemma_first_of_none,
    lemma_trimmed, lemma_trimmed_core, lemma_trimmed_twice, trimmed,
    CharClass,
};
use vstd::prelude::*;

verus! {

/// A text that lacks one of the needle's characters does not hold the
/// needle.
pub proof fn lemma_missing_char(hay: Seq<char>, needle: Seq<char>, m: int)
    requires
        0 <= m < needle.len(),
        forall|i: int| 0 <= i < hay.len() ==> hay[i] != needle[m],
    ensures
        find(hay, needle) is None,
{
    lemma_find_from(hay, needle, 0);
    if find(hay, needle) is Some {
        let i = find(hay, needle)->0;
        assert(hay.subrange(i, i + needle.len())[m] == needle[m]);
    }
}

/// A text stands in itself, at its start.
pub proof fn lemma_find_self(text: Seq<char>)
    ensures
        find(text, text) == Some(0int),
{
    assert(text.subrange(0, text.len() as int) =~= text);
}

/// No special name holds one that comes before it in their order.
pub proof fn lemma_special_names_apart()
    ensures
        forall|j: int, k: int|
            0 <= j < k < SPECIAL_NAMES ==> find(
                #[trigger] special_names()[k],
                #[trigger] special_names()[j],
            ) is None,
{
    reveal_strlit("borrowing 100,000 arrows");
    reveal_strlit("borrowing 100000 arrows");
    reveal_strlit("guan-yu's 1,000-li march");
    reveal_strlit("guan-yu's 1000-li march");
    reveal_strlit("+2 mace");
    reveal_strlit("5 alarm fire");
    reveal_strlit("50 feet of rope");
    reveal_strlit("celebr-8000");
    reveal_strlit("d00-dl, caricaturist");
    reveal_strlit("50 Feet of Rope");
    reveal_strlit("Celebr-8000");
    let n = special_names();
    lemma_missing_char(n[2], n[0], 0);
    lemma_missing_char(n[2], n[1], 0);
    lemma_missing_char(n[3], n[1], 0);
    lemma_missing_char(n[5], n[4], 0);
    lemma_missing_char(n[6], n[4], 0);
    lemma_missing_char(n[6], n[5], 2);
    lemma_missing_char(n[7], n[4], 0);
    lemma_missing_char(n[8], n[4], 0);
    lemma_missing_char(n[8], n[5], 0);
    lemma_missing_char(n[8], n[6], 0);
    lemma_missing_char(n[8], n[7], 1);
    lemma_missing_char(n[9], n[4], 0);
    lemma_missing_char(n[9], n[5], 2);
    lemma_missing_char(n[9], n[6], 11);
    lemma_missing_char(n[9], n[7], 0);
    lemma_missing_char(n[10], n[4], 0);
    lemma_missing_char(n[10], n[7], 0);
}

/// A special name on a line of its own reads as one copy of itself.
pub proof fn lemma_special_name_alone(k: int)
    requires
        0 <= k < SPECIAL_NAMES,
    ensures
        parse_line(special_names()[k]) == Ok::<(u32, Seq<char>), ParseError>(
            (1u32, special_names()[k]),
        ),
{
    let name = special_names()[k];
    lemma_special_names_are_names();
    lemma_special_names_apart();
    lemma_first_special(name, 0);
    lemma_find_self(name);
    assert(first_special(name, 0) == Some(k));
    let nothing = name.subrange(name.len() as int, name.len() as int);
    assert(nothing =~= Seq::<char>::empty());
    assert(quantity(nothing) is None);
}

/// A special name with text on one side only reads as one copy: the
/// empty side is the shorter one, and it writes no quantity. So a quantity
/// put right before or right after a special name, with nothing on the
/// other side, is not read.
pub proof fn lemma_special_name_one_sided(line: Seq<char>, k: int, at: int)
    requires
        first_special(line, 0) == Some(k),
        find(line, special_names()[k]) == Some(at),
        at == 0 || at + special_names()[k].len() == line.len(),
    ensures
        parse_line(line) == Ok::<(u32, Seq<char>), ParseError>((1u32, special_names()[k])),
{
    let name = special_names()[k];
    lemma_find_from(line, name, 0);
    let before = line.subrange(0, at);
    let after = line.subrange(at + name.len(), line.len() as int);
    lemma_byte_len_at_least(after);
    let nothing = Seq::<char>::empty();
    assert(quantity(nothing) is None);
    if at + name.len() == line.len() {
        assert(after =~= nothing);
    } else {
        assert(before =~= nothing);
    }
}

/// A special name with text on both sides takes its quantity from the
/// shorter side, in bytes, and from what follows it where both are equally
/// long; where that side writes no quantity, the line reads as one copy.
pub proof fn lemma_special_name_two_sided(line: Seq<char>, k: int, at: int)
    requires
        first_special(line, 0) == Some(k),
        find(line, special_names()[k]) == Some(at),
    ensures
        parse_line(line) == Ok::<(u32, Seq<char>), ParseError>(
            (
                match quantity(
                    if byte_len(line.subrange(0, at)) < byte_len(
                        line.subrange(at + special_names()[k].len(), line.len() as int),
                    ) {
                        line.subrange(0, at)
                    } else {
                        line.subrange(at + special_names()[k].len(), line.len() as int)
                    },
                ) {
                    Some(q) => q,
                    None => 1u32,
                },
                special_names()[k],
            ),
        ),
{
}

/// A part of a line that holds no special name holds none either.
pub proof fn lemma_part_has_no_special(line: Seq<char>, lo: int, hi: int)
    requires
        0 <= lo <= hi <= line.len(),
        first_special(line, 0) is None,
    ensures
        first_special(line.subrange(lo, hi), 0) is None,
{
    let part = line.subrange(lo, hi);
    lemma_first_special(line, 0);
    lemma_first_special(part, 0);
    if first_special(part, 0) is Some {
        let k = first_special(part, 0)->0;
        lemma_find_in_part(line, lo, hi, special_names()[k]);
    }
}

/// A plain name reads as one copy of itself: a text that is not empty,
/// holds no digit and no special name, and neither starts nor ends with
/// whitespace.
pub proof fn lemma_plain_name(name: Seq<char>)
    requires
        name.len() > 0,
        first_special(name, 0) is None,
        first_of(name, CharClass::Digit, 0) is None,
        trimmed(name, CharClass::Space) == name,
    ensures
        parse_line(name) == Ok::<(u32, Seq<char>), ParseError>((1u32, name)),
{
}

/// Reading is stable: the name of a reading, read again as a line of its
/// own, is one copy of the same name.
///
/// This holds of every special name, and of every other name that holds
/// no digit. A name with a digit, as a line such as `1 Foo 2` gives one,
/// is cut again when it is read again.
pub proof fn lemma_reading_is_stable(line: Seq<char>)
    requires
        parse_line(line) is Ok,
        first_special(line, 0) is Some || first_of(
            parse_line(line)->Ok_0.1,
            CharClass::Digit,
            0,
        ) is None,
    ensures
        parse_line(parse_line(line)->Ok_0.1) == Ok::<(u32, Seq<char>), ParseError>(
            (1u32, parse_line(line)->Ok_0.1),
        ),
{
    let name = parse_line(line)->Ok_0.1;
    lemma_first_special(line, 0);
    match first_special(line, 0) {
        Some(k) => {
            lemma_special_name_alone(k);
        },
        None => {
            let len = line.len() as int;
            match first_of(line, CharClass::Digit, 0) {
                None => {
                    let r = lemma_trimmed(line, CharClass::Space);
                    lemma_part_has_no_special(line, r.0, r.1);
                    lemma_trimmed_twice(line, CharClass::Space);
                },
                Some(digit) => {
                    lemma_first_of(line, CharClass::Digit, 0);
                    if digit_in_back_half(line, digit) {
                        let head = line.subrange(0, digit);
                        let a = lemma_trimmed(head, CharClass::Times);
                        let inner = head.subrange(a.0, a.1);
                        let b = lemma_trimmed(inner, CharClass::Space);
                        assert(inner.subrange(b.0, b.1) =~= line.subrange(a.0 + b.0, a.0 + b.1));
                        lemma_part_has_no_special(line, a.0 + b.0, a.0 + b.1);
                        lemma_trimmed_twice(inner, CharClass::Space);
                    } else {
                        lemma_first_of(line, CharClass::Space, 0);
                        match first_of(line, CharClass::Space, 0) {
                            Some(gap) => {
                                let tail = line.subrange(gap + 1, len);
                                let b = lemma_trimmed(tail, CharClass::Space);
                                assert(tail.subrange(b.0, b.1) =~= line.subrange(
                                    gap + 1 + b.0,
                                    gap + 1 + b.1,
                                ));
                                lemma_part_has_no_special(line, gap + 1 + b.0, gap + 1 + b.1);
                                lemma_trimmed_twice(tail, CharClass::Space);
                            },
                            None => {},
                        }
                    }
                },
            }
            lemma_plain_name(name);
        },
    }
}

/// A simple name: not empty, without digits, and with no whitespace at
/// either end.
pub open spec fn simple_name(name: Seq<char>) -> bool {
    &&& name.len() > 0
    &&& forall|i: int| 0 <= i < name.len() ==> !is_digit(#[trigger] name[i])
    &&& !is_space(name[0])
    &&& !is_space(name.last())
}

/// Whether a text is whitespace throughout.
pub open spec fn blank(s: Seq<char>) -> bool {
    forall|i: int| 0 <= i < s.len() ==> is_space(#[trigger] s[i])
}

/// Whether the digits `d` write the quantity `n`: a positive number.
pub open spec fn writes(d: Seq<char>, n: u32) -> bool {
    &&& d.len() > 0
    &&& all_digits(d)
    &&& digits_value(d) == n
    &&& n >= 1
}

/// Digits are read as the quantity that they write, with or without
/// letters `x` beside them and whitespace around those.
pub proof fn lemma_quantity_written(
    lead: Seq<char>,
    before: Seq<char>,
    d: Seq<char>,
    after: Seq<char>,
    trail: Seq<char>,
    n: u32,
)
    requires
        writes(d, n),
        blank(lead),
        blank(trail),
        forall|i: int| 0 <= i < before.len() ==> #[trigger] before[i] == 'x',
        forall|i: int| 0 <= i < after.len() ==> #[trigger] after[i] == 'x',
    ensures
        quantity(lead + before + d + after + trail) == Some(n),
{
    let fragment = lead + before + d + after + trail;
    let a = lead.len() as int;
    let lo = a + before.len();
    let hi = lo + d.len();
    let b = hi + after.len();
    assert(is_digit(d[0]) && is_digit(d[d.len() - 1]));
    assert(forall|i: int| 0 <= i < a ==> fragment[i] == lead[i]);
    assert(forall|i: int| a <= i < lo ==> fragment[i] == before[i - a]);
    assert(forall|i: int| lo <= i < hi ==> fragment[i] == d[i - lo]);
    assert(forall|i: int| hi <= i < b ==> fragment[i] == after[i - hi]);
    assert(forall|i: int| b <= i < fragment.len() ==> fragment[i] == trail[i - b]);
    assert(!is_space(fragment[a])) by {
        if a < lo {
            assert(before[0] == 'x');
        }
    }
    assert(!is_space(fragment[b - 1])) by {
        if hi < b {
            assert(after[b - 1 - hi] == 'x');
        }
    }
    lemma_trimmed_core(fragment, CharClass::Space, a, b);
    let core = fragment.subrange(a, b);
    assert(forall|i: int| 0 <= i < core.len() ==> core[i] == fragment[a + i]);
    lemma_trimmed_core(core, CharClass::Times, lo - a, hi - a);
    assert(core.subrange(lo - a, hi - a) =~= d);
}

/// A line that leads with its quantity: the fragment up to the first
/// whitespace, then the name with whitespace around it.
proof fn lemma_leading_form(
    left: Seq<char>,
    gap: Seq<char>,
    name: Seq<char>,
    trail: Seq<char>,
    n: u32,
)
    requires
        simple_name(name),
        left.len() > 0,
        forall|i: int| 0 <= i < left.len() ==> !is_space(#[trigger] left[i]),
        is_digit(left[0]) || (left.len() > 1 && left[0] == 'x' && is_digit(left[1])),
        quantity(left) == Some(n),
        gap.len() > 0,
        blank(gap),
        blank(trail),
        first_special(left + gap + name + trail, 0) is None,
    ensures
        parse_line(left + gap + name + trail) == Ok::<(u32, Seq<char>), ParseError>((n, name)),
{
    let line = left + gap + name + trail;
    let cut = left.len() as int;
    let lo = cut + gap.len();
    let hi = lo + name.len();
    let len = line.len() as int;
    assert(forall|i: int| 0 <= i < cut ==> line[i] == left[i]);
    assert(forall|i: int| cut <= i < lo ==> line[i] == gap[i - cut]);
    assert(forall|i: int| lo <= i < hi ==> line[i] == name[i - lo]);
    assert(forall|i: int| hi <= i < len ==> line[i] == trail[i - hi]);
    let digit: int = if is_digit(left[0]) {
        0
    } else {
        1
    };
    lemma_first_of_is(line, CharClass::Digit, 0, digit);
    assert(!digit_in_back_half(line, digit)) by {
        lemma_byte_len_at_least(line);
        let head = line.subrange(0, digit);
        if digit == 1 {
            assert(head.drop_last() =~= Seq::<char>::empty());
            assert(head.last() == 'x');
            reveal_with_fuel(byte_len, 2);
            assert(byte_len(head) == 1);
        } else {
            assert(byte_len(head) == 0);
        }
    }
    lemma_first_of_is(line, CharClass::Space, 0, cut);
    assert(line.subrange(0, cut) =~= left);
    let rest = line.subrange(cut + 1, len);
    assert(forall|i: int| 0 <= i < rest.len() ==> rest[i] == line[cut + 1 + i]);
    assert(rest[lo - cut - 1] == name[0]);
    assert(rest[hi - cut - 2] == name.last());
    lemma_trimmed_core(rest, CharClass::Space, lo - cut - 1, hi - cut - 1);
    assert(rest.subrange(lo - cut - 1, hi - cut - 1) =~= name);
}

/// A line that ends with its quantity: the name with whitespace around
/// it, perhaps letters `x`, then the fragment from the first digit on.
proof fn lemma_trailing_form(
    lead: Seq<char>,
    name: Seq<char>,
    gap: Seq<char>,
    marks: Seq<char>,
    right: Seq<char>,
    n: u32,
)
    requires
        simple_name(name),
        blank(lead),
        lead.len() > 0 || name[0] != 'x',
        gap.len() > 0,
        blank(gap),
        forall|i: int| 0 <= i < marks.len() ==> #[trigger] marks[i] == 'x',
        right.len() > 0,
        is_digit(right[0]),
        quantity(right) == Some(n),
        first_special(lead + name + gap + marks + right, 0) is None,
        digit_in_back_half(
            lead + name + gap + marks + right,
            (lead.len() + name.len() + gap.len() + marks.len()) as int,
        ),
    ensures
        parse_line(lead + name + gap + marks + right) == Ok::<(u32, Seq<char>), ParseError>(
            (n, name),
        ),
{
    let line = lead + name + gap + marks + right;
    let lo = lead.len() as int;
    let hi = lo + name.len();
    let cut = hi + gap.len();
    let digit = cut + marks.len();
    let len = line.len() as int;
    assert(forall|i: int| 0 <= i < lo ==> line[i] == lead[i]);
    assert(forall|i: int| lo <= i < hi ==> line[i] == name[i - lo]);
    assert(forall|i: int| hi <= i < cut ==> line[i] == gap[i - hi]);
    assert(forall|i: int| cut <= i < digit ==> line[i] == marks[i - cut]);
    assert(line[digit] == right[0]);
    assert forall|i: int| 0 <= i < digit implies !is_digit(#[trigger] line[i]) by {
        if i < lo {
            assert(is_space(lead[i]));
        } else if i < hi {
            assert(!is_digit(name[i - lo]));
        } else if i < cut {
            assert(is_space(gap[i - hi]));
        } else {
            assert(marks[i - cut] == 'x');
        }
    }
    lemma_first_of_is(line, CharClass::Digit, 0, digit);
    assert(line.subrange(digit, len) =~= right);
    let head = line.subrange(0, digit);
    assert(forall|i: int| 0 <= i < digit ==> head[i] == line[i]);
    assert(!CharClass::Times.has(head[0])) by {
        if lo > 0 {
            assert(is_space(lead[0]));
        }
    }
    assert(!CharClass::Times.has(head[cut - 1])) by {
        assert(is_space(gap[cut - 1 - hi]));
    }
    lemma_trimmed_core(head, CharClass::Times, 0, cut);
    let spaced = head.subrange(0, cut);
    assert(forall|i: int| 0 <= i < cut ==> spaced[i] == line[i]);
    assert(spaced[lo] == name[0]);
    assert(spaced[hi - 1] == name.last());
    lemma_trimmed_core(spaced, CharClass::Space, lo, hi);
    assert(spaced.subrange(lo, hi) =~= name);
}

/// The bare form: a simple name alone, with or without whitespace around
/// it, reads as one copy of it.
pub proof fn lemma_bare_name(lead: Seq<char>, name: Seq<char>, trail: Seq<char>)
    requires
        simple_name(name),
        blank(lead),
        blank(trail),
        first_special(lead + name + trail, 0) is None,
    ensures
        parse_line(lead + name + trail) == Ok::<(u32, Seq<char>), ParseError>((1u32, name)),
{
    let line = lead + name + trail;
    let lo = lead.len() as int;
    let hi = lo + name.len();
    assert(forall|i: int| 0 <= i < lo ==> line[i] == lead[i]);
    assert(forall|i: int| lo <= i < hi ==> line[i] == name[i - lo]);
    assert(forall|i: int| hi <= i < line.len() ==> line[i] == trail[i - hi]);
    assert forall|i: int| 0 <= i < line.len() implies !is_digit(#[trigger] line[i]) by {
        if i < lo {
            assert(is_space(lead[i]));
        } else if i < hi {
            assert(!is_digit(name[i - lo]));
        } else {
            assert(is_space(trail[i - hi]));
        }
    }
    lemma_first_of_none(line, CharClass::Digit);
    assert(line[lo] == name[0]);
    assert(line[hi - 1] == name.last());
    lemma_trimmed_core(line, CharClass::Space, lo, hi);
    assert(line.subrange(lo, hi) =~= name);
}

/// The form `4 Name`: the digits, whitespace, the name; whitespace may
/// follow.
pub proof fn lemma_number_then_name(
    d: Seq<char>,
    n: u32,
    gap: Seq<char>,
    name: Seq<char>,
    trail: Seq<char>,
)
    requires
        simple_name(name),
        writes(d, n),
        gap.len() > 0,
        blank(gap),
        blank(trail),
        first_special(d + gap + name + trail, 0) is None,
    ensures
        parse_line(d + gap + name + trail) == Ok::<(u32, Seq<char>), ParseError>((n, name)),
{
    let none = Seq::<char>::empty();
    lemma_quantity_written(none, none, d, none, none, n);
    assert(none + none + d + none + none =~= d);
    lemma_leading_form(d, gap, name, trail, n);
}

/// The form `4x Name`: the digits, the letter `x`, whitespace, the name;
/// whitespace may follow.
pub proof fn lemma_number_x_then_name(
    d: Seq<char>,
    n: u32,
    gap: Seq<char>,
    name: Seq<char>,
    trail: Seq<char>,
)
    requires
        simple_name(name),
        writes(d, n),
        gap.len() > 0,
        blank(gap),
        blank(trail),
        first_special(d + seq!['x'] + gap + name + trail, 0) is None,
    ensures
        parse_line(d + seq!['x'] + gap + name + trail) == Ok::<(u32, Seq<char>), ParseError>(
            (n, name),
        ),
{
    let none = Seq::<char>::empty();
    lemma_quantity_written(none, none, d, seq!['x'], none, n);
    let left = d + seq!['x'];
    assert(none + none + d + seq!['x'] + none =~= left);
    assert(left[0] == d[0]);
    assert forall|i: int| 0 <= i < left.len() implies !is_space(#[trigger] left[i]) by {
        if i < d.len() {
            assert(is_digit(d[i]));
        }
    }
    lemma_leading_form(left, gap, name, trail, n);
}

/// The form `x4 Name`: the letter `x`, the digits, whitespace, the name;
/// whitespace may follow.
pub proof fn lemma_x_number_then_name(
    d: Seq<char>,
    n: u32,
    gap: Seq<char>,
    name: Seq<char>,
    trail: Seq<char>,
)
    requires
        simple_name(name),
        writes(d, n),
        gap.len() > 0,
        blank(gap),
        blank(trail),
        first_special(seq!['x'] + d + gap + name + trail, 0) is None,
    ensures
        parse_line(seq!['x'] + d + gap + name + trail) == Ok::<(u32, Seq<char>), ParseError>(
            (n, name),
        ),
{
    let none = Seq::<char>::empty();
    lemma_quantity_written(none, seq!['x'], d, none, none, n);
    let left = seq!['x'] + d;
    assert(none + seq!['x'] + d + none + none =~= left);
    assert(left[1] == d[0]);
    assert forall|i: int| 0 <= i < left.len() implies !is_space(#[trigger] left[i]) by {
        if i > 0 {
            assert(is_digit(d[i - 1]));
        }
    }
    lemma_leading_form(left, gap, name, trail, n);
}

/// The form `Name x4`: the name, whitespace, the letter `x`, the digits;
/// whitespace may stand before the name and after the digits.
///
/// The cut is made at the first digit only where it stands in the back
/// half of the line. A letter `x` at the very start of the line would be
/// trimmed with the one before the digits.
pub proof fn lemma_name_then_x_number(
    lead: Seq<char>,
    name: Seq<char>,
    gap: Seq<char>,
    d: Seq<char>,
    n: u32,
    trail: Seq<char>,
)
    requires
        simple_name(name),
        writes(d, n),
        blank(lead),
        lead.len() > 0 || name[0] != 'x',
        gap.len() > 0,
        blank(gap),
        blank(trail),
        first_special(lead + name + gap + seq!['x'] + (d + trail), 0) is None,
        digit_in_back_half(
            lead + name + gap + seq!['x'] + (d + trail),
            (lead.len() + name.len() + gap.len() + 1) as int,
        ),
    ensures
        parse_line(lead + name + gap + seq!['x'] + (d + trail)) == Ok::<
            (u32, Seq<char>),
            ParseError,
        >((n, name)),
{
    let none = Seq::<char>::empty();
    lemma_quantity_written(none, none, d, none, trail, n);
    let right = d + trail;
    assert(none + none + d + none + trail =~= right);
    assert(right[0] == d[0]);
    lemma_trailing_form(lead, name, gap, seq!['x'], right, n);
}

/// The form `Name 4x`: the name, whitespace, the digits, the letter `x`;
/// whitespace may stand before the name and after the `x`.
///
/// The cut is made at the first digit only where it stands in the back
/// half of the line. A letter `x` at the very start of the line would be
/// trimmed from the name.
pub proof fn lemma_name_then_number_x(
    lead: Seq<char>,
    name: Seq<char>,
    gap: Seq<char>,
    d: Seq<char>,
    n: u32,
    trail: Seq<char>,
)
    requires
        simple_name(name),
        writes(d, n),
        blank(lead),
        lead.len() > 0 || name[0] != 'x',
        gap.len() > 0,
        blank(gap),
        blank(trail),
        first_special(lead + name + gap + (d + seq!['x'] + trail), 0) is None,
        digit_in_back_half(
            lead + name + gap + (d + seq!['x'] + trail),
            (lead.len() + name.len() + gap.len()) as int,
        ),
    ensures
        parse_line(lead + name + gap + (d + seq!['x'] + trail)) == Ok::<
            (u32, Seq<char>),
            ParseError,
        >((n, name)),
{
    let none = Seq::<char>::empty();
    lemma_quantity_written(none, none, d, seq!['x'], trail, n);
    let right = d + seq!['x'] + trail;
    assert(none + none + d + seq!['x'] + trail =~= right);
    assert(right[0] == d[0]);
    assert(lead + name + gap + none + right =~= lead + name + gap + right);
    lemma_trailing_form(lead, name, gap, none, right, n);
}

/// The digit that writes `k`, for `k` below ten.
pub open spec fn digit_char(k: nat) -> char {
    ((0x30 + k) as u8) as char
}

/// The digits that write `n` in decimal, without leading zeros.
pub open spec fn decimal(n: nat) -> Seq<char>
    decreases n,
{
    if n < 10 {
        seq![digit_char(n)]
    } else {
        decimal(n / 10).push(digit_char(n % 10))
    }
}

/// Every positive quantity has digits that write it, so the forms above
/// speak of every quantity.
pub proof fn lemma_decimal_writes(n: u32)
    requires
        n >= 1,
    ensures
        writes(decimal(n as nat), n),
{
    lemma_decimal(n as nat);
}

/// `decimal` gives digits, and they are worth the number.
proof fn lemma_decimal(n: nat)
    ensures
        decimal(n).len() > 0,
        all_digits(decimal(n)),
        digits_value(decimal(n)) == n,
    decreases n,
{
    let d = decimal(n);
    if n < 10 {
        assert(d.drop_last() =~= Seq::<char>::empty());
        assert(is_digit(d[0]));
        reveal_with_fuel(digits_value, 2);
    } else {
        lemma_decimal(n / 10);
        assert(d.drop_last() =~= decimal(n / 10));
        assert(is_digit(d.last()));
        assert forall|i: int| 0 <= i < d.len() implies is_digit(#[trigger] d[i]) by {
            if i < d.len() - 1 {
                assert(d[i] == decimal(n / 10)[i]);
            }
        }
    }
}

} // verus!
