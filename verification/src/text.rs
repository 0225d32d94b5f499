//! Character-level building blocks: classes of characters, encoded widths,
//! trimming, searching and decimal numbers, each with its model over
//! `Seq<char>`.

use vstd::prelude::*;
use vstd::utf8::*;

verus! {

/// The classes of characters that lines are cut and trimmed by.
#[derive(Clone, Copy, Debug)]
pub enum CharClass {
    /// Characters with Unicode's `White_Space` property.
    Space,
    /// The ASCII digits `0` to `9`.
    Digit,
    /// The lower-case letter `x`, as in `4x`.
    Times,
    /// The line feed, which ends a line.
    LineFeed,
}

/// The characters that carry Unicode's `White_Space` property.
pub open spec fn is_space(c: char) -> bool {
    let u = c as u32;
    ||| 0x09 <= u <= 0x0D
    ||| u == 0x20
    ||| u == 0x85
    ||| u == 0xA0
    ||| u == 0x1680
    ||| 0x2000 <= u <= 0x200A
    ||| u == 0x2028
    ||| u == 0x2029
    ||| u == 0x202F
    ||| u == 0x205F
    ||| u == 0x3000
}

/// The ten ASCII digits.
pub open spec fn is_digit(c: char) -> bool {
    0x30 <= c as u32 <= 0x39
}

impl CharClass {
    /// Whether `c` belongs to the class.
    pub open spec fn has(self, c: char) -> bool {
        match self {
            CharClass::Space => is_space(c),
            CharClass::Digit => is_digit(c),
            CharClass::Times => c == 'x',
            CharClass::LineFeed => c == '\n',
        }
    }

    /// Whether `c` belongs to the class.
    pub fn holds(self, c: char) -> (b: bool)
        ensures
            b == self.has(c),
    {
        let u: u32 = c as u32;
        match self {
            CharClass::Space => {
                (0x09 <= u && u <= 0x0D) || u == 0x20 || u == 0x85 || u == 0xA0 || u == 0x1680 || (
                0x2000 <= u && u <= 0x200A) || u == 0x2028 || u == 0x2029 || u == 0x202F || u
                    == 0x205F || u == 0x3000
            },
            CharClass::Digit => 0x30 <= u && u <= 0x39,
            CharClass::Times => c == 'x',
            CharClass::LineFeed => c == '\n',
        }
    }
}

/// The number of bytes that `c` takes in UTF-8.
pub open spec fn width(c: char) -> nat {
    let u = c as u32;
    if u < 0x80 {
        1
    } else if u < 0x800 {
        2
    } else if u < 0x10000 {
        3
    } else {
        4
    }
}

/// The number of bytes that `s` takes in UTF-8: the sum of its widths.
pub open spec fn byte_len(s: Seq<char>) -> nat
    decreases s.len(),
{
    if s.len() == 0 {
        0
    } else {
        byte_len(s.drop_last()) + width(s.last())
    }
}

/// Byte lengths add up over concatenation.
pub proof fn lemma_byte_len_concat(a: Seq<char>, b: Seq<char>)
    ensures
        byte_len(a + b) == byte_len(a) + byte_len(b),
    decreases b.len(),
{
    if b.len() == 0 {
        assert(a + b =~= a);
    } else {
        assert((a + b).drop_last() =~= a + b.drop_last());
        lemma_byte_len_concat(a, b.drop_last());
    }
}

/// A part of a sequence takes no more bytes than the whole, and the three
/// pieces around it add up to the whole.
pub proof fn lemma_byte_len_split(s: Seq<char>, lo: int, hi: int)
    requires
        0 <= lo <= hi <= s.len(),
    ensures
        byte_len(s) == byte_len(s.subrange(0, lo)) + byte_len(s.subrange(lo, hi)) + byte_len(
            s.subrange(hi, s.len() as int),
        ),
{
    let a = s.subrange(0, lo);
    let b = s.subrange(lo, hi);
    let c = s.subrange(hi, s.len() as int);
    assert(s =~= (a + b) + c);
    lemma_byte_len_concat(a + b, c);
    lemma_byte_len_concat(a, b);
}

/// `byte_len` is the length of the UTF-8 encoding.
pub proof fn lemma_byte_len_is_encoded_len(s: Seq<char>)
    ensures
        byte_len(s) == encode_utf8(s).len(),
    decreases s.len(),
{
    if s.len() > 0 {
        let head = seq![s[0]];
        assert(s =~= head + s.drop_first());
        lemma_byte_len_concat(head, s.drop_first());
        assert(head.drop_last() =~= Seq::<char>::empty());
        assert(byte_len(head) == width(s[0])) by {
            reveal_with_fuel(byte_len, 2);
        }
        char_is_scalar(s[0]);
        lemma_byte_len_is_encoded_len(s.drop_first());
    }
}

pub fn char_width(c: char) -> (w: usize)
    ensures
        w == width(c),
{
    let u: u32 = c as u32;
    if u < 0x80 {
        1
    } else if u < 0x800 {
        2
    } else if u < 0x10000 {
        3
    } else {
        4
    }
}

/// The characters of a string slice, one element each.
pub fn to_chars(s: &str) -> (v: Vec<char>)
    ensures
        v@ == s@,
{
    let mut v: Vec<char> = Vec::new();
    for c in it: s.chars()
        invariant
            it.seq() == s@,
            v@ == it.seq().take(it.index() as int),
    {
        v.push(c);
    }
    v
}

/// The number of bytes that the characters `v[lo..hi]` take in UTF-8.
pub fn range_bytes(v: &Vec<char>, lo: usize, hi: usize) -> (n: usize)
    requires
        lo <= hi <= v.len(),
        byte_len(v@) <= usize::MAX,
    ensures
        n == byte_len(v@.subrange(lo as int, hi as int)),
{
    let mut n: usize = 0;
    let mut i: usize = lo;
    while i < hi
        invariant
            lo <= i <= hi <= v.len(),
            byte_len(v@) <= usize::MAX,
            n == byte_len(v@.subrange(lo as int, i as int)),
        decreases hi - i,
    {
        proof {
            let next = v@.subrange(lo as int, i + 1);
            assert(next.drop_last() =~= v@.subrange(lo as int, i as int));
            lemma_byte_len_split(v@, lo as int, i + 1);
        }
        n = n + char_width(v[i]);
        i = i + 1;
    }
    n
}

/// `s` without its longest prefix of characters of `class`.
pub open spec fn drop_leading(s: Seq<char>, class: CharClass) -> Seq<char>
    decreases s.len(),
{
    if s.len() > 0 && class.has(s[0]) {
        drop_leading(s.drop_first(), class)
    } else {
        s
    }
}

/// `s` without its longest suffix of characters of `class`.
pub open spec fn drop_trailing(s: Seq<char>, class: CharClass) -> Seq<char>
    decreases s.len(),
{
    if s.len() > 0 && class.has(s.last()) {
        drop_trailing(s.drop_last(), class)
    } else {
        s
    }
}

/// `s` with the characters of `class` removed from both ends.
pub open spec fn trimmed(s: Seq<char>, class: CharClass) -> Seq<char> {
    drop_trailing(drop_leading(s, class), class)
}

/// The bounds of `v[lo..hi]` after trimming the characters of `class` from
/// both of its ends.
pub fn trim_range(v: &Vec<char>, lo: usize, hi: usize, class: CharClass) -> (r: (usize, usize))
    requires
        lo <= hi <= v.len(),
    ensures
        lo <= r.0 <= r.1 <= hi,
        v@.subrange(r.0 as int, r.1 as int) == trimmed(v@.subrange(lo as int, hi as int), class),
{
    let mut a: usize = lo;
    while a < hi && class.holds(v[a])
        invariant
            lo <= a <= hi <= v.len(),
            drop_leading(v@.subrange(lo as int, hi as int), class) == drop_leading(
                v@.subrange(a as int, hi as int),
                class,
            ),
        decreases hi - a,
    {
        assert(v@.subrange(a as int, hi as int).drop_first() =~= v@.subrange(a + 1, hi as int));
        a = a + 1;
    }
    let mut b: usize = hi;
    while a < b && class.holds(v[b - 1])
        invariant
            a <= b <= hi <= v.len(),
            drop_trailing(v@.subrange(a as int, hi as int), class) == drop_trailing(
                v@.subrange(a as int, b as int),
                class,
            ),
        decreases b - a,
    {
        assert(v@.subrange(a as int, b as int).drop_last() =~= v@.subrange(a as int, b - 1));
        b = b - 1;
    }
    (a, b)
}

/// The index of the first character of `class` in `s` at or after `from`.
pub open spec fn first_of(s: Seq<char>, class: CharClass, from: int) -> Option<int>
    decreases s.len() - from,
{
    if from < 0 || from >= s.len() {
        None
    } else if class.has(s[from]) {
        Some(from)
    } else {
        first_of(s, class, from + 1)
    }
}

/// What `first_of` finds is the least index of a character of the class.
pub proof fn lemma_first_of(s: Seq<char>, class: CharClass, from: int)
    requires
        0 <= from,
    ensures
        match first_of(s, class, from) {
            Some(i) => from <= i < s.len() && class.has(s[i]) && forall|j: int|
                from <= j < i ==> !class.has(#[trigger] s[j]),
            None => forall|j: int| from <= j < s.len() ==> !class.has(#[trigger] s[j]),
        },
    decreases s.len() - from,
{
    if from < s.len() && !class.has(s[from]) {
        lemma_first_of(s, class, from + 1);
    }
}

/// The index of the first character of `class` in `v` at or after `from`.
pub fn find_class(v: &Vec<char>, class: CharClass, from: usize) -> (r: Option<usize>)
    ensures
        match r {
            Some(i) => first_of(v@, class, from as int) == Some(i as int) && from <= i < v.len(),
            None => first_of(v@, class, from as int) is None,
        },
{
    let mut i: usize = from;
    while i < v.len()
        invariant
            from <= i,
            first_of(v@, class, from as int) == first_of(v@, class, i as int),
        decreases v.len() - i,
    {
        if class.holds(v[i]) {
            return Some(i);
        }
        i = i + 1;
    }
    None
}

/// Whether `needle` stands in `hay` at index `i`.
pub open spec fn occurs_at(hay: Seq<char>, needle: Seq<char>, i: int) -> bool {
    0 <= i && i + needle.len() <= hay.len() && hay.subrange(i, i + needle.len()) == needle
}

/// Whether `needle` stands somewhere in `hay`.
pub open spec fn contains(hay: Seq<char>, needle: Seq<char>) -> bool {
    exists|i: int| occurs_at(hay, needle, i)
}

/// The index of the first occurrence of `needle` in `hay` at or after `from`.
pub open spec fn find_from(hay: Seq<char>, needle: Seq<char>, from: int) -> Option<int>
    decreases hay.len() + 1 - from,
{
    if from < 0 || from + needle.len() > hay.len() {
        None
    } else if occurs_at(hay, needle, from) {
        Some(from)
    } else {
        find_from(hay, needle, from + 1)
    }
}

/// The index of the first occurrence of `needle` in `hay`.
pub open spec fn find(hay: Seq<char>, needle: Seq<char>) -> Option<int> {
    find_from(hay, needle, 0)
}

/// What `find_from` finds is the least index of an occurrence.
pub proof fn lemma_find_from(hay: Seq<char>, needle: Seq<char>, from: int)
    requires
        0 <= from,
    ensures
        match find_from(hay, needle, from) {
            Some(i) => from <= i && occurs_at(hay, needle, i) && forall|j: int|
                from <= j < i ==> !occurs_at(hay, needle, j),
            None => forall|j: int| from <= j ==> !occurs_at(hay, needle, j),
        },
    decreases hay.len() + 1 - from,
{
    if from + needle.len() <= hay.len() && !occurs_at(hay, needle, from) {
        lemma_find_from(hay, needle, from + 1);
    }
}

/// `find` succeeds exactly where the needle is contained.
pub proof fn lemma_find_contains(hay: Seq<char>, needle: Seq<char>)
    ensures
        find(hay, needle) is Some <==> contains(hay, needle),
{
    lemma_find_from(hay, needle, 0);
}

/// Whether `needle` stands in `hay` at index `i`.
fn matches_at(hay: &Vec<char>, needle: &Vec<char>, i: usize) -> (b: bool)
    requires
        i + needle.len() <= hay.len(),
    ensures
        b == occurs_at(hay@, needle@, i as int),
{
    let mut k: usize = 0;
    while k < needle.len()
        invariant
            k <= needle.len(),
            i + needle.len() <= hay.len(),
            forall|j: int| 0 <= j < k ==> hay@[i + j] == needle@[j],
        decreases needle.len() - k,
    {
        if hay[i + k] != needle[k] {
            assert(hay@.subrange(i as int, i + needle.len())[k as int] != needle@[k as int]);
            return false;
        }
        k = k + 1;
    }
    assert(hay@.subrange(i as int, i + needle.len()) =~= needle@);
    true
}

/// The index of the first occurrence of `needle` in `hay`.
pub fn find_in(hay: &Vec<char>, needle: &Vec<char>) -> (r: Option<usize>)
    ensures
        match r {
            Some(i) => find(hay@, needle@) == Some(i as int),
            None => find(hay@, needle@) is None,
        },
{
    let mut i: usize = 0;
    while i <= hay.len() && needle.len() <= hay.len() - i
        invariant
            i <= hay.len() + 1,
            find(hay@, needle@) == find_from(hay@, needle@, i as int),
        decreases hay.len() + 1 - i,
    {
        if matches_at(hay, needle, i) {
            return Some(i);
        }
        proof {
            if needle.len() == 0 {
                assert(hay@.subrange(i as int, i as int) =~= needle@);
            }
        }
        i = i + 1;
    }
    None
}

/// The value of a run of decimal digits, read left to right.
pub open spec fn digits_value(s: Seq<char>) -> nat
    decreases s.len(),
{
    if s.len() == 0 {
        0
    } else {
        digits_value(s.drop_last()) * 10 + (s.last() as u32 - 0x30) as nat
    }
}

/// Whether every character of `s` is an ASCII digit.
pub open spec fn all_digits(s: Seq<char>) -> bool {
    forall|i: int| 0 <= i < s.len() ==> is_digit(#[trigger] s[i])
}

/// The unsigned 32-bit number that a run of digits writes: `None` where
/// `s` is empty, holds another character, or the number does not fit.
pub open spec fn digits_u32(s: Seq<char>) -> Option<u32> {
    if s.len() > 0 && all_digits(s) && digits_value(s) <= u32::MAX {
        Some(digits_value(s) as u32)
    } else {
        None
    }
}

/// The unsigned 32-bit number that `s` writes in decimal: an optional `+`,
/// then one digit or more, leading zeros allowed. `None` where `s` has
/// another shape or the number does not fit.
pub open spec fn decimal_u32(s: Seq<char>) -> Option<u32> {
    if s.len() > 0 && s[0] == '+' {
        digits_u32(s.drop_first())
    } else {
        digits_u32(s)
    }
}

/// A longer run of digits is worth no less than any of its prefixes.
pub proof fn lemma_digits_value_grows(s: Seq<char>, n: int)
    requires
        0 <= n <= s.len(),
        all_digits(s),
    ensures
        digits_value(s.take(n)) <= digits_value(s),
    decreases s.len() - n,
{
    if n == s.len() {
        assert(s.take(n) =~= s);
    } else {
        assert(s.take(n + 1).drop_last() =~= s.take(n));
        assert(is_digit(s[n]));
        lemma_digits_value_grows(s, n + 1);
    }
}

/// Reads `v[lo..hi]` as a run of decimal digits.
fn parse_digits(v: &Vec<char>, lo: usize, hi: usize) -> (r: Option<u32>)
    requires
        lo <= hi <= v.len(),
    ensures
        r == digits_u32(v@.subrange(lo as int, hi as int)),
{
    let ghost digits = v@.subrange(lo as int, hi as int);
    if lo == hi {
        return None;
    }
    let mut acc: u64 = 0;
    let mut i: usize = lo;
    while i < hi
        invariant
            lo <= i <= hi <= v.len(),
            digits == v@.subrange(lo as int, hi as int),
            all_digits(digits.take(i - lo)),
            acc == digits_value(digits.take(i - lo)),
            acc <= u32::MAX,
        decreases hi - i,
    {
        let c = v[i];
        if !CharClass::Digit.holds(c) {
            assert(!is_digit(digits[i - lo]));
            return None;
        }
        let ghost before = digits.take(i - lo);
        let ghost upto = digits.take(i + 1 - lo);
        proof {
            assert(upto.drop_last() =~= before);
            assert(upto.last() == c);
            assert forall|j: int| 0 <= j < upto.len() implies is_digit(#[trigger] upto[j]) by {
                if j < before.len() {
                    assert(upto[j] == before[j]);
                }
            }
        }
        let next: u64 = acc * 10 + (c as u32 - 0x30) as u64;
        if next > u32::MAX as u64 {
            proof {
                if all_digits(digits) {
                    lemma_digits_value_grows(digits, i + 1 - lo);
                }
            }
            return None;
        }
        acc = next;
        i = i + 1;
    }
    assert(digits.take(hi - lo) =~= digits);
    Some(acc as u32)
}

/// Reads `v[lo..hi]` as an unsigned 32-bit decimal number.
pub fn parse_decimal(v: &Vec<char>, lo: usize, hi: usize) -> (r: Option<u32>)
    requires
        lo <= hi <= v.len(),
    ensures
        r == decimal_u32(v@.subrange(lo as int, hi as int)),
{
    if lo < hi && v[lo] == '+' {
        assert(v@.subrange(lo as int, hi as int).drop_first() =~= v@.subrange(lo + 1, hi as int));
        parse_digits(v, lo + 1, hi)
    } else {
        parse_digits(v, lo, hi)
    }
}

/// Whether two string slices hold the same text.
pub fn same_text(a: &str, b: &str) -> (same: bool)
    ensures
        same == (a@ == b@),
{
    broadcast use encode_utf8_decode_utf8;

    let x = a.as_bytes();
    let y = b.as_bytes();
    if x.len() != y.len() {
        return false;
    }
    let mut i: usize = 0;
    while i < x.len()
        invariant
            i <= x.len(),
            x.len() == y.len(),
            x@ == encode_utf8(a@),
            y@ == encode_utf8(b@),
            forall|j: int| 0 <= j < i ==> x@[j] == y@[j],
        decreases x.len() - i,
    {
        if x[i] != y[i] {
            return false;
        }
        i = i + 1;
    }
    assert(x@ =~= y@);
    assert(decode_utf8(encode_utf8(a@)) == a@);
    assert(decode_utf8(encode_utf8(b@)) == b@);
    true
}

/// Whether `text` ends with `suffix`.
pub open spec fn ends_with(text: Seq<char>, suffix: Seq<char>) -> bool {
    suffix.len() <= text.len() && text.subrange(text.len() - suffix.len(), text.len() as int)
        == suffix
}

/// Whether `text` ends with `suffix`.
pub fn has_suffix(text: &str, suffix: &str) -> (b: bool)
    ensures
        b == ends_with(text@, suffix@),
{
    let hay = to_chars(text);
    let needle = to_chars(suffix);
    if needle.len() > hay.len() {
        return false;
    }
    matches_at(&hay, &needle, hay.len() - needle.len())
}

/// A line without the carriage return that may end it.
pub open spec fn without_return(line: Seq<char>) -> Seq<char> {
    if line.len() > 0 && line.last() == '\r' {
        line.drop_last()
    } else {
        line
    }
}

/// The lines of `text` from index `from` on. A line ends with a line feed,
/// or with a carriage return and a line feed; neither belongs to the line.
/// What follows the last line feed is a line too, unless nothing follows.
pub open spec fn lines_from(text: Seq<char>, from: int) -> Seq<Seq<char>>
    decreases text.len() - from,
{
    if from < 0 || from >= text.len() {
        Seq::empty()
    } else {
        match first_of(text, CharClass::LineFeed, from) {
            // What `first_of` finds always lies in this range.
            Some(end) => if from <= end < text.len() {
                seq![without_return(text.subrange(from, end))] + lines_from(text, end + 1)
            } else {
                Seq::empty()
            },
            None => seq![text.subrange(from, text.len() as int)],
        }
    }
}

/// The lines of `text`.
pub open spec fn lines_of(text: Seq<char>) -> Seq<Seq<char>> {
    lines_from(text, 0)
}

/// The text of each string.
pub open spec fn texts(lines: Seq<String>) -> Seq<Seq<char>> {
    Seq::new(lines.len(), |i: int| lines[i]@)
}

/// Splits a text into its lines.
pub fn split_lines(text: &str) -> (lines: Vec<String>)
    ensures
        texts(lines@) == lines_of(text@),
{
    let chars = to_chars(text);
    let mut lines: Vec<String> = Vec::new();
    let mut from: usize = 0;
    assert(texts(lines@) =~= Seq::<Seq<char>>::empty());
    while from < chars.len()
        invariant
            chars@ == text@,
            lines_of(text@) == texts(lines@) + lines_from(text@, from as int),
        decreases chars.len() - from,
    {
        let ghost before = texts(lines@);
        match find_class(&chars, CharClass::LineFeed, from) {
            Some(end) => {
                let stop: usize = if from < end && chars[end - 1] == '\r' {
                    end - 1
                } else {
                    end
                };
                proof {
                    let line = text@.subrange(from as int, end as int);
                    if stop < end {
                        assert(line.last() == '\r');
                        assert(line.drop_last() =~= text@.subrange(from as int, stop as int));
                    } else {
                        assert(without_return(line) == line);
                    }
                }
                lines.push(text.substring_char(from, stop).to_owned());
                proof {
                    let line = text@.subrange(from as int, stop as int);
                    assert(texts(lines@) =~= before.push(line));
                    assert(before + (seq![line] + lines_from(text@, end + 1)) =~= before.push(line)
                        + lines_from(text@, end + 1));
                }
                from = end + 1;
            },
            None => {
                lines.push(text.substring_char(from, chars.len()).to_owned());
                proof {
                    let line = text@.subrange(from as int, text@.len() as int);
                    assert(texts(lines@) =~= before.push(line));
                    assert(before + seq![line] =~= before.push(line));
                }
                return lines;
            },
        }
    }
    assert(texts(lines@) + Seq::<Seq<char>>::empty() =~= texts(lines@));
    lines
}

/// Where `drop_leading` cuts: at the first character that is not of the
/// class.
pub proof fn lemma_drop_leading(s: Seq<char>, class: CharClass) -> (a: int)
    ensures
        0 <= a <= s.len(),
        drop_leading(s, class) == s.subrange(a, s.len() as int),
        forall|i: int| 0 <= i < a ==> class.has(#[trigger] s[i]),
        a < s.len() ==> !class.has(s[a]),
    decreases s.len(),
{
    if s.len() > 0 && class.has(s[0]) {
        let rest = s.drop_first();
        let b = lemma_drop_leading(rest, class);
        assert(rest.subrange(b, rest.len() as int) =~= s.subrange(b + 1, s.len() as int));
        assert forall|i: int| 0 <= i < b + 1 implies class.has(#[trigger] s[i]) by {
            if i > 0 {
                assert(rest[i - 1] == s[i]);
            }
        }
        b + 1
    } else {
        assert(s.subrange(0, s.len() as int) =~= s);
        0
    }
}

/// Where `drop_trailing` cuts: behind the last character that is not of
/// the class.
pub proof fn lemma_drop_trailing(s: Seq<char>, class: CharClass) -> (b: int)
    ensures
        0 <= b <= s.len(),
        drop_trailing(s, class) == s.subrange(0, b),
        forall|i: int| b <= i < s.len() ==> class.has(#[trigger] s[i]),
        0 < b ==> !class.has(s[b - 1]),
    decreases s.len(),
{
    if s.len() > 0 && class.has(s.last()) {
        let rest = s.drop_last();
        let b = lemma_drop_trailing(rest, class);
        assert(rest.subrange(0, b) =~= s.subrange(0, b));
        assert forall|i: int| b <= i < s.len() implies class.has(#[trigger] s[i]) by {
            if i < rest.len() {
                assert(rest[i] == s[i]);
            }
        }
        b
    } else {
        assert(s.subrange(0, s.len() as int) =~= s);
        s.len() as int
    }
}

/// What trimming leaves is a part of the text, and neither of its ends is
/// of the class.
pub proof fn lemma_trimmed(s: Seq<char>, class: CharClass) -> (r: (int, int))
    ensures
        0 <= r.0 <= r.1 <= s.len(),
        trimmed(s, class) == s.subrange(r.0, r.1),
        r.0 < r.1 ==> !class.has(s[r.0]) && !class.has(s[r.1 - 1]),
        forall|i: int| 0 <= i < r.0 ==> class.has(#[trigger] s[i]),
        forall|i: int| r.1 <= i < s.len() ==> class.has(#[trigger] s[i]),
{
    let a = lemma_drop_leading(s, class);
    let rest = s.subrange(a, s.len() as int);
    let b = lemma_drop_trailing(rest, class);
    assert(rest.subrange(0, b) =~= s.subrange(a, a + b));
    if 0 < b {
        assert(rest[b - 1] == s[a + b - 1]);
        assert(rest[0] == s[a]);
    }
    assert forall|i: int| a + b <= i < s.len() implies class.has(#[trigger] s[i]) by {
        assert(rest[i - a] == s[i]);
    }
    (a, a + b)
}

/// Trimming leaves alone a text whose ends are not of the class.
pub proof fn lemma_trimmed_fixed(s: Seq<char>, class: CharClass)
    requires
        s.len() > 0 ==> !class.has(s[0]) && !class.has(s.last()),
    ensures
        trimmed(s, class) == s,
{
}

/// Trimming twice is trimming once.
pub proof fn lemma_trimmed_twice(s: Seq<char>, class: CharClass)
    ensures
        trimmed(trimmed(s, class), class) == trimmed(s, class),
{
    let r = lemma_trimmed(s, class);
    let t = s.subrange(r.0, r.1);
    if t.len() > 0 {
        assert(t[0] == s[r.0]);
        assert(t.last() == s[r.1 - 1]);
    }
    lemma_trimmed_fixed(t, class);
}

/// What stands in a part of a text stands in the text.
pub proof fn lemma_find_in_part(hay: Seq<char>, lo: int, hi: int, needle: Seq<char>)
    requires
        0 <= lo <= hi <= hay.len(),
        find(hay.subrange(lo, hi), needle) is Some,
    ensures
        find(hay, needle) is Some,
{
    let part = hay.subrange(lo, hi);
    lemma_find_from(part, needle, 0);
    let i = find(part, needle)->0;
    assert(part.subrange(i, i + needle.len()) =~= hay.subrange(lo + i, lo + i + needle.len()));
    assert(occurs_at(hay, needle, lo + i));
    lemma_find_from(hay, needle, 0);
}

/// The first character of a class is the one before which none of the
/// class stands.
pub proof fn lemma_first_of_is(s: Seq<char>, class: CharClass, from: int, at: int)
    requires
        0 <= from <= at < s.len(),
        class.has(s[at]),
        forall|i: int| from <= i < at ==> !class.has(#[trigger] s[i]),
    ensures
        first_of(s, class, from) == Some(at),
{
    lemma_first_of(s, class, from);
}

/// A text without a character of the class has no first one.
pub proof fn lemma_first_of_none(s: Seq<char>, class: CharClass)
    requires
        forall|i: int| 0 <= i < s.len() ==> !class.has(#[trigger] s[i]),
    ensures
        first_of(s, class, 0) is None,
{
    lemma_first_of(s, class, 0);
}

/// What trimming leaves, told by its ends: the part between the first and
/// the last character that are not of the class.
pub proof fn lemma_trimmed_core(s: Seq<char>, class: CharClass, lo: int, hi: int)
    requires
        0 <= lo < hi <= s.len(),
        !class.has(s[lo]),
        !class.has(s[hi - 1]),
        forall|i: int| 0 <= i < lo ==> class.has(#[trigger] s[i]),
        forall|i: int| hi <= i < s.len() ==> class.has(#[trigger] s[i]),
    ensures
        trimmed(s, class) == s.subrange(lo, hi),
{
    let r = lemma_trimmed(s, class);
    if r.0 > lo {
        assert(class.has(s[lo]));
    }
    if r.1 < hi {
        assert(class.has(s[hi - 1]));
    }
    if r.0 < lo {
        assert(class.has(s[r.0]));
    }
    if r.1 > hi {
        assert(class.has(s[r.1 - 1]));
    }
}

/// Every character takes a byte at least.
pub proof fn lemma_byte_len_at_least(s: Seq<char>)
    ensures
        byte_len(s) >= s.len(),
    decreases s.len(),
{
    if s.len() > 0 {
        lemma_byte_len_at_least(s.drop_last());
    }
}

} // verus!
