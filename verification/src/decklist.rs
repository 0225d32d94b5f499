//! Decklists: how many copies of each card a deck holds, and the two ways
//! of building one. Lines of text add up: a card named on several lines
//! has the sum of their quantities. A saved document is taken at its word:
//! each entry sets the quantity of its card.

use crate::json::{json_value, read_json};
use crate::name_map::{distinct_names, lemma_to_map_dom, lemma_to_map_entry, to_map, NameMap};
use crate::parser::{
    lemma_reading_is_sound, parse_card_line, parse_line, ParseError,
};
use crate::raw::{RawField, RawValue};
use crate::text::{ends_with, has_suffix, lines_of, split_lines, texts};
use vstd::prelude::*;

verus! {

/// Why no decklist could be built.
#[derive(Clone, Copy, Debug, PartialEq, Eq)]
pub enum AggregationError {
    /// The line with this index, counted from zero, has no reading.
    Parse { line: usize, error: ParseError },
    /// With the line of this index a card would have more copies than a
    /// `u32` can count.
    TooManyCopies { line: usize },
    /// The saved document is not one JSON document.
    Syntax,
    /// The document has no record called `list`.
    MissingList,
    /// The entry of this index in the document's list has an empty name,
    /// or a quantity that is not a whole number from 1 to `u32::MAX`.
    InvalidEntry { entry: usize },
}

/// A decklist: for each card name, how many copies.
///
/// No name is empty and every quantity is at least 1. The entries keep
/// the order in which their names first came.
#[derive(Debug)]
pub struct Decklist {
    cards: NameMap<u32>,
}

impl View for Decklist {
    type V = Map<Seq<char>, u32>;

    open spec fn view(&self) -> Map<Seq<char>, u32> {
        to_map(self.entries())
    }
}

/// The map after `q` more copies of `name`; `None` where the sum does not
/// fit a `u32`.
pub open spec fn add_copies(held: Map<Seq<char>, u32>, name: Seq<char>, q: u32) -> Option<
    Map<Seq<char>, u32>,
> {
    let before: int = if held.contains_key(name) {
        held[name] as int
    } else {
        0
    };
    if before + q <= u32::MAX {
        Some(held.insert(name, (before + q) as u32))
    } else {
        None
    }
}

/// The decklist that a sequence of lines adds up to, or the first error on
/// the way.
pub open spec fn aggregate(lines: Seq<Seq<char>>) -> Result<Map<Seq<char>, u32>, AggregationError>
    decreases lines.len(),
{
    if lines.len() == 0 {
        Ok(Map::empty())
    } else {
        let last = (lines.len() - 1) as usize;
        match aggregate(lines.drop_last()) {
            Err(e) => Err(e),
            Ok(held) => match parse_line(lines.last()) {
                Err(e) => Err(AggregationError::Parse { line: last, error: e }),
                Ok((q, name)) => match add_copies(held, name, q) {
                    Some(sum) => Ok(sum),
                    None => Err(AggregationError::TooManyCopies { line: last }),
                },
            },
        }
    }
}

/// The quantity that an entry's value gives: a whole number from 1 to
/// `u32::MAX`.
pub open spec fn entry_quantity(value: RawValue) -> Option<u32> {
    match value.unsigned() {
        Some(n) => if 1 <= n <= u32::MAX {
            Some(n as u32)
        } else {
            None
        },
        None => None,
    }
}

/// The decklist that the entries of a saved list set, one after the
/// other, or the first error on the way.
pub open spec fn load_entries(fields: Seq<RawField>) -> Result<
    Map<Seq<char>, u32>,
    AggregationError,
>
    decreases fields.len(),
{
    if fields.len() == 0 {
        Ok(Map::empty())
    } else {
        let last = (fields.len() - 1) as usize;
        match load_entries(fields.drop_last()) {
            Err(e) => Err(e),
            Ok(held) => match entry_quantity(fields.last().value) {
                Some(q) => if fields.last().name@.len() > 0 {
                    Ok(held.insert(fields.last().name@, q))
                } else {
                    Err(AggregationError::InvalidEntry { entry: last })
                },
                None => Err(AggregationError::InvalidEntry { entry: last }),
            },
        }
    }
}

/// The decklist that a saved document holds: what the entries of its
/// `list` set. Nothing else of the document is read.
pub open spec fn load(doc: RawValue) -> Result<Map<Seq<char>, u32>, AggregationError> {
    match doc.field("list"@) {
        Some(list) => match list.fields() {
            Some(fields) => load_entries(fields),
            None => Err(AggregationError::MissingList),
        },
        None => Err(AggregationError::MissingList),
    }
}

/// An error among the first lines is the error of the whole.
pub proof fn lemma_aggregate_error_stays(lines: Seq<Seq<char>>, n: int)
    requires
        0 <= n <= lines.len(),
        aggregate(lines.take(n)) is Err,
    ensures
        aggregate(lines) == aggregate(lines.take(n)),
    decreases lines.len() - n,
{
    if n == lines.len() {
        assert(lines.take(n) =~= lines);
    } else {
        assert(lines.take(n + 1).drop_last() =~= lines.take(n));
        lemma_aggregate_error_stays(lines, n + 1);
    }
}

/// An error among the first entries is the error of the whole.
pub proof fn lemma_load_error_stays(fields: Seq<RawField>, n: int)
    requires
        0 <= n <= fields.len(),
        load_entries(fields.take(n)) is Err,
    ensures
        load_entries(fields) == load_entries(fields.take(n)),
    decreases fields.len() - n,
{
    if n == fields.len() {
        assert(fields.take(n) =~= fields);
    } else {
        assert(fields.take(n + 1).drop_last() =~= fields.take(n));
        lemma_load_error_stays(fields, n + 1);
    }
}

impl Decklist {
    /// The entries, in the order in which their names first came.
    pub closed spec fn entries(&self) -> Seq<(Seq<char>, u32)> {
        self.cards.entries()
    }

    /// The invariant: no name twice, no empty name, no quantity of zero.
    pub closed spec fn wf(&self) -> bool {
        &&& self.cards.wf()
        &&& forall|i: int|
            0 <= i < self.entries().len() ==> (#[trigger] self.entries()[i]).0.len() > 0
                && self.entries()[i].1 >= 1
    }

    /// What the invariant says of the entries and of the map.
    pub proof fn lemma_wf(&self)
        requires
            self.wf(),
        ensures
            distinct_names(self.entries()),
            forall|i: int|
                0 <= i < self.entries().len() ==> (#[trigger] self.entries()[i]).0.len() > 0
                    && self.entries()[i].1 >= 1,
            forall|name: Seq<char>| #[trigger]
                self@.contains_key(name) ==> name.len() > 0 && self@[name] >= 1,
    {
        self.cards.lemma_wf();
        assert forall|name: Seq<char>| #[trigger] self@.contains_key(name) implies name.len() > 0
            && self@[name] >= 1 by {
            lemma_to_map_dom(self.entries(), name);
            let i = choose|i: int|
                0 <= i < self.entries().len() && (#[trigger] self.entries()[i]).0 == name;
            lemma_to_map_entry(self.entries(), i);
        }
    }

    /// A decklist without cards.
    pub fn new() -> (d: Self)
        ensures
            d.wf(),
            d@ == Map::<Seq<char>, u32>::empty(),
            d.entries() == Seq::<(Seq<char>, u32)>::empty(),
    {
        Decklist { cards: NameMap::new() }
    }

    /// The number of different cards.
    pub fn len(&self) -> (n: usize)
        requires
            self.wf(),
        ensures
            n == self.entries().len(),
    {
        self.cards.len()
    }

    /// The name of the `i`-th card.
    pub fn name_at(&self, i: usize) -> (name: &String)
        requires
            self.wf(),
            i < self.entries().len(),
        ensures
            name@ == self.entries()[i as int].0,
    {
        self.cards.name_at(i)
    }

    /// The quantity of the `i`-th card.
    pub fn quantity_at(&self, i: usize) -> (q: u32)
        requires
            self.wf(),
            i < self.entries().len(),
        ensures
            q == self.entries()[i as int].1,
    {
        self.cards.value_at(i)
    }

    /// How many copies of `name` the deck holds, if any.
    pub fn quantity(&self, name: &str) -> (r: Option<u32>)
        requires
            self.wf(),
        ensures
            r == if self@.contains_key(name@) {
                Some(self@[name@])
            } else {
                None
            },
    {
        self.cards.get(name)
    }

    /// Adds `q` copies of `name` to those that the deck holds. Where the
    /// sum does not fit, the deck stays as it was and the result is
    /// `false`.
    pub fn add(&mut self, name: String, q: u32) -> (done: bool)
        requires
            old(self).wf(),
            name@.len() > 0,
            q >= 1,
        ensures
            final(self).wf(),
            match add_copies(old(self)@, name@, q) {
                Some(sum) => done && final(self)@ == sum,
                None => !done && *final(self) == *old(self),
            },
    {
        let held: u32 = match self.cards.get(name.as_str()) {
            Some(n) => n,
            None => 0,
        };
        if q > u32::MAX - held {
            return false;
        }
        proof {
            self.cards.lemma_position_of(name@);
        }
        self.cards.set(name, held + q);
        true
    }

    /// Sets the quantity of `name`, whatever it was.
    pub fn set(&mut self, name: String, q: u32)
        requires
            old(self).wf(),
            name@.len() > 0,
            q >= 1,
        ensures
            final(self).wf(),
            final(self)@ == old(self)@.insert(name@, q),
    {
        proof {
            self.cards.lemma_position_of(name@);
        }
        self.cards.set(name, q);
        assert forall|i: int| 0 <= i < self.entries().len() implies (#[trigger] self.entries()[i]).0.len()
            > 0 && self.entries()[i].1 >= 1 by {
            if i < old(self).entries().len() {
                assert(old(self).entries()[i].0.len() > 0);
            }
        }
    }

    /// Builds the decklist that the lines add up to.
    ///
    /// Each line is parsed, and its quantity is added to what its card has
    /// so far. The first line that has no reading, or that takes a card
    /// beyond `u32::MAX` copies, ends the work with its error: no part of a
    /// list is returned. No lines give an empty decklist.
    pub fn from_lines(lines: &Vec<String>) -> (r: Result<Decklist, AggregationError>)
        ensures
            match r {
                Ok(d) => d.wf() && aggregate(texts(lines@)) == Ok::<
                    Map<Seq<char>, u32>,
                    AggregationError,
                >(d@),
                Err(e) => aggregate(texts(lines@)) == Err::<Map<Seq<char>, u32>, AggregationError>(
                    e,
                ),
            },
    {
        let ghost all = texts(lines@);
        let mut deck = Decklist::new();
        let mut i: usize = 0;
        assert(all.take(0) =~= Seq::<Seq<char>>::empty());
        while i < lines.len()
            invariant
                i <= lines.len(),
                all == texts(lines@),
                deck.wf(),
                aggregate(all.take(i as int)) == Ok::<Map<Seq<char>, u32>, AggregationError>(
                    deck@,
                ),
            decreases lines.len() - i,
        {
            proof {
                assert(all.take(i + 1).drop_last() =~= all.take(i as int));
                assert(all.take(i + 1).last() == lines@[i as int]@);
            }
            match parse_card_line(lines[i].clone()) {
                Err(e) => {
                    proof {
                        lemma_aggregate_error_stays(all, i + 1);
                    }
                    return Err(AggregationError::Parse { line: i, error: e });
                },
                Ok((q, name)) => {
                    if !deck.add(name, q) {
                        proof {
                            lemma_aggregate_error_stays(all, i + 1);
                        }
                        return Err(AggregationError::TooManyCopies { line: i });
                    }
                },
            }
            i = i + 1;
        }
        assert(all.take(lines.len() as int) =~= all);
        Ok(deck)
    }

    /// Builds the decklist that a saved document holds.
    ///
    /// Only the document's `list` is read: a record from card names to
    /// quantities. Each entry sets the quantity of its card. A document
    /// without such a record gives `MissingList`; the first entry with an
    /// empty name, or whose value is not a whole number from 1 to
    /// `u32::MAX`, gives `InvalidEntry`. An empty list gives an empty
    /// decklist.
    pub fn from_document(doc: &RawValue) -> (r: Result<Decklist, AggregationError>)
        ensures
            match r {
                Ok(d) => d.wf() && load(*doc) == Ok::<Map<Seq<char>, u32>, AggregationError>(d@),
                Err(e) => load(*doc) == Err::<Map<Seq<char>, u32>, AggregationError>(e),
            },
    {
        let fields = match doc.get("list") {
            Some(list) => match list.as_record() {
                Some(fields) => fields,
                None => {
                    return Err(AggregationError::MissingList);
                },
            },
            None => {
                return Err(AggregationError::MissingList);
            },
        };
        let mut deck = Decklist::new();
        let mut i: usize = 0;
        assert(fields@.take(0) =~= Seq::<RawField>::empty());
        while i < fields.len()
            invariant
                i <= fields.len(),
                deck.wf(),
                load(*doc) == load_entries(fields@),
                load_entries(fields@.take(i as int)) == Ok::<Map<Seq<char>, u32>, AggregationError>(
                    deck@,
                ),
            decreases fields.len() - i,
        {
            proof {
                assert(fields@.take(i + 1).drop_last() =~= fields@.take(i as int));
                assert(fields@.take(i + 1).last() == fields@[i as int]);
            }
            let entry = &fields[i];
            let found: Option<u32> = match entry.value.as_unsigned() {
                Some(n) => if 1 <= n && n <= u32::MAX as u64 {
                    Some(n as u32)
                } else {
                    None
                },
                None => None,
            };
            assert(found == entry_quantity(entry.value));
            match found {
                Some(q) => {
                    if entry.name.as_str().is_empty() {
                        proof {
                            lemma_load_error_stays(fields@, i + 1);
                        }
                        return Err(AggregationError::InvalidEntry { entry: i });
                    }
                    deck.set(entry.name.clone(), q);
                },
                None => {
                    proof {
                        lemma_load_error_stays(fields@, i + 1);
                    }
                    return Err(AggregationError::InvalidEntry { entry: i });
                },
            }
            i = i + 1;
        }
        assert(fields@.take(fields.len() as int) =~= fields@);
        Ok(deck)
    }
}

/// Whether a file name is that of a saved deck: it ends in `.dk`.
pub open spec fn is_saved_deck(filename: Seq<char>) -> bool {
    ends_with(filename, ".dk"@)
}

/// The decklist that a file holds, where `doc` is what its contents read
/// as in JSON. A saved deck is loaded from its document; any other file is
/// a list of lines.
pub open spec fn deck_of(filename: Seq<char>, contents: Seq<char>, doc: Option<RawValue>) -> Result<
    Map<Seq<char>, u32>,
    AggregationError,
> {
    if is_saved_deck(filename) {
        match doc {
            Some(value) => load(value),
            None => Err(AggregationError::Syntax),
        }
    } else {
        aggregate(lines_of(contents))
    }
}

/// Builds the decklist that a file holds, from its name and its contents.
///
/// A file whose name ends in `.dk` is a saved deck: its contents are read
/// as JSON and loaded as `Decklist::from_document` says, and contents that
/// are not JSON give `Syntax`. Any other file is split into lines, which
/// are added up as `Decklist::from_lines` says.
pub fn parse_deck_file(filename: &str, contents: &str) -> (r: Result<Decklist, AggregationError>)
    ensures
        match r {
            Ok(d) => d.wf() && deck_of(filename@, contents@, json_value(contents@)) == Ok::<
                Map<Seq<char>, u32>,
                AggregationError,
            >(d@),
            Err(e) => deck_of(filename@, contents@, json_value(contents@)) == Err::<
                Map<Seq<char>, u32>,
                AggregationError,
            >(e),
        },
{
    if has_suffix(filename, ".dk") {
        match read_json(contents) {
            Some(doc) => Decklist::from_document(&doc),
            None => Err(AggregationError::Syntax),
        }
    } else {
        let lines = split_lines(contents);
        Decklist::from_lines(&lines)
    }
}

/// How many copies of `name` the lines name in all: the sum of the
/// quantities of the lines that read as `name`.
pub open spec fn copies_named(lines: Seq<Seq<char>>, name: Seq<char>) -> nat
    decreases lines.len(),
{
    if lines.len() == 0 {
        0
    } else {
        let before = copies_named(lines.drop_last(), name);
        match parse_line(lines.last()) {
            Ok((q, n)) => if n == name {
                before + q as nat
            } else {
                before
            },
            Err(_) => before,
        }
    }
}

/// Lines add up: in the decklist of a sequence of lines, each card has
/// the sum of the quantities of all the lines that read as that card, and
/// the cards of the decklist are those that some line names.
pub proof fn lemma_lines_add_up(lines: Seq<Seq<char>>, name: Seq<char>)
    requires
        aggregate(lines) is Ok,
    ensures
        aggregate(lines)->Ok_0.contains_key(name) <==> copies_named(lines, name) > 0,
        aggregate(lines)->Ok_0.contains_key(name) ==> aggregate(lines)->Ok_0[name]
            == copies_named(lines, name),
    decreases lines.len(),
{
    if lines.len() > 0 {
        lemma_lines_add_up(lines.drop_last(), name);
        lemma_reading_is_sound(lines.last());
    }
}

/// Two lines that read as the same card give one entry, with the sum of
/// their quantities.
pub proof fn lemma_two_lines_add_up(
    first: Seq<char>,
    second: Seq<char>,
    name: Seq<char>,
    q1: u32,
    q2: u32,
)
    requires
        parse_line(first) == Ok::<(u32, Seq<char>), ParseError>((q1, name)),
        parse_line(second) == Ok::<(u32, Seq<char>), ParseError>((q2, name)),
        q1 + q2 <= u32::MAX,
    ensures
        aggregate(seq![first, second]) == Ok::<Map<Seq<char>, u32>, AggregationError>(
            Map::<Seq<char>, u32>::empty().insert(name, (q1 + q2) as u32),
        ),
{
    let both = seq![first, second];
    let one = both.drop_last();
    assert(one =~= seq![first]);
    assert(one.drop_last() =~= Seq::<Seq<char>>::empty());
    assert(aggregate(one.drop_last()) == Ok::<Map<Seq<char>, u32>, AggregationError>(
        Map::empty(),
    ));
    let held = Map::<Seq<char>, u32>::empty().insert(name, q1);
    assert(aggregate(one) == Ok::<Map<Seq<char>, u32>, AggregationError>(held));
    assert(held.insert(name, (q1 + q2) as u32) =~= Map::<Seq<char>, u32>::empty().insert(
        name,
        (q1 + q2) as u32,
    ));
}

/// A saved list overwrites: the quantity of a card is what the last entry
/// of its name says, whatever stands before it.
pub proof fn lemma_document_overwrites(fields: Seq<RawField>, i: int)
    requires
        load_entries(fields) is Ok,
        0 <= i < fields.len(),
        forall|j: int| i < j < fields.len() ==> (#[trigger] fields[j]).name@ != fields[i].name@,
    ensures
        load_entries(fields)->Ok_0.contains_key(fields[i].name@),
        entry_quantity(fields[i].value) == Some(load_entries(fields)->Ok_0[fields[i].name@]),
    decreases fields.len(),
{
    if i < fields.len() - 1 {
        let front = fields.drop_last();
        assert(fields[fields.len() - 1].name@ != fields[i].name@);
        assert forall|j: int| i < j < front.len() implies (#[trigger] front[j]).name@
            != front[i].name@ by {
            assert(fields[j].name@ != fields[i].name@);
        }
        lemma_document_overwrites(front, i);
    }
}

/// The cards of a saved list are the names of its entries.
pub proof fn lemma_document_names(fields: Seq<RawField>, name: Seq<char>)
    requires
        load_entries(fields) is Ok,
    ensures
        load_entries(fields)->Ok_0.contains_key(name) <==> exists|i: int|
            0 <= i < fields.len() && (#[trigger] fields[i]).name@ == name,
    decreases fields.len(),
{
    if fields.len() > 0 {
        let front = fields.drop_last();
        lemma_document_names(front, name);
        if load_entries(fields)->Ok_0.contains_key(name) {
            if fields.last().name@ == name {
                assert(fields[fields.len() - 1].name@ == name);
            } else {
                let i = choose|i: int| 0 <= i < front.len() && (#[trigger] front[i]).name@ == name;
                assert(fields[i].name@ == name);
            }
        }
        if exists|i: int| 0 <= i < fields.len() && (#[trigger] fields[i]).name@ == name {
            let i = choose|i: int| 0 <= i < fields.len() && (#[trigger] fields[i]).name@ == name;
            if i < front.len() {
                assert(front[i].name@ == name);
            }
        }
    }
}

} // verus!
