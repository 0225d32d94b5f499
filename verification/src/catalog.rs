//! The card catalog normalizer: from the raw records of a bulk feed to the
//! few fields of each card that the tool keeps.
//!
//! Cards with two faces, whose names hold `//`, are not supported: their
//! records are left out of the catalog. Every other record must hold all
//! seven fields in their expected shapes; the first one that does not ends
//! the whole run.

use crate::json::{json_value, read_json};
use crate::name_map::NameMap;
use crate::raw::{RawField, RawValue};
use crate::text::{find, find_in, same_text, to_chars};
use vstd::prelude::*;

verus! {

/// The fields that are read of a raw record, in the order in which they
/// are checked.
#[derive(Clone, Copy, Debug, PartialEq, Eq)]
pub enum CardField {
    Name,
    OracleText,
    ColorIdentity,
    Legalities,
    TypeLine,
    ManaCost,
    Cmc,
}

/// What is wrong with a field.
#[derive(Clone, Copy, Debug, PartialEq, Eq)]
pub enum Fault {
    /// The record has no such field, or is no record at all.
    Missing,
    /// The field is there with a value of another type than expected: text
    /// for most, a list of text for the color identity, a record for the
    /// legalities, a number for the converted cost.
    WrongType,
    /// A format's status in the legalities is not text.
    MalformedLegality,
}

/// Why no catalog could be built.
#[derive(Clone, Copy, Debug, PartialEq, Eq)]
pub enum CatalogError {
    /// The feed is not one JSON document.
    Syntax,
    /// The feed is no list of records.
    NotAList,
    /// The first fault: the index of the record in the feed, counted from
    /// zero, the field, and what is wrong with it.
    Record { record: usize, field: CardField, fault: Fault },
}

/// One card of the catalog.
#[derive(Debug)]
pub struct Card {
    pub name: String,
    pub type_line: String,
    pub mana_cost: String,
    /// The converted cost, as the bit pattern of an IEEE 754 double.
    pub cmc_bits: u64,
    pub oracle: String,
    /// The colors of the card's identity, in the order of the feed.
    pub color_id: Vec<String>,
    /// For each format that the feed names, whether the card is legal in
    /// it.
    pub legality: NameMap<bool>,
}

/// A card as plain values.
pub struct CardView {
    pub name: Seq<char>,
    pub type_line: Seq<char>,
    pub mana_cost: Seq<char>,
    pub cmc_bits: u64,
    pub oracle: Seq<char>,
    pub color_id: Seq<Seq<char>>,
    pub legality: Map<Seq<char>, bool>,
}

impl View for Card {
    type V = CardView;

    open spec fn view(&self) -> CardView {
        CardView {
            name: self.name@,
            type_line: self.type_line@,
            mana_cost: self.mana_cost@,
            cmc_bits: self.cmc_bits,
            oracle: self.oracle@,
            color_id: Seq::new(self.color_id.len() as nat, |i: int| self.color_id[i]@),
            legality: self.legality@,
        }
    }
}

impl Card {
    /// The invariant: the legalities name no format twice.
    pub open spec fn wf(&self) -> bool {
        self.legality.wf()
    }
}

impl CardField {
    /// The name of the field in a raw record.
    pub open spec fn key(self) -> Seq<char> {
        match self {
            CardField::Name => "name"@,
            CardField::OracleText => "oracle_text"@,
            CardField::ColorIdentity => "color_identity"@,
            CardField::Legalities => "legalities"@,
            CardField::TypeLine => "type_line"@,
            CardField::ManaCost => "mana_cost"@,
            CardField::Cmc => "cmc"@,
        }
    }

    /// The name of the field in a raw record.
    pub fn key_text(self) -> (key: &'static str)
        ensures
            key@ == self.key(),
    {
        match self {
            CardField::Name => "name",
            CardField::OracleText => "oracle_text",
            CardField::ColorIdentity => "color_identity",
            CardField::Legalities => "legalities",
            CardField::TypeLine => "type_line",
            CardField::ManaCost => "mana_cost",
            CardField::Cmc => "cmc",
        }
    }
}

/// The text of a field that must be text.
pub open spec fn text_field(record: RawValue, field: CardField) -> Result<Seq<char>, Fault> {
    match record.field(field.key()) {
        None => Err(Fault::Missing),
        Some(value) => match value.text() {
            Some(text) => Ok(text),
            None => Err(Fault::WrongType),
        },
    }
}

/// The colors that a list holds: each item must be text.
pub open spec fn colors_of(items: Seq<RawValue>) -> Result<Seq<Seq<char>>, Fault> {
    if forall|i: int| 0 <= i < items.len() ==> (#[trigger] items[i]).text() is Some {
        Ok(Seq::new(items.len(), |i: int| items[i].text()->0))
    } else {
        Err(Fault::WrongType)
    }
}

/// The colors of a record's identity.
pub open spec fn color_field(record: RawValue) -> Result<Seq<Seq<char>>, Fault> {
    match record.field(CardField::ColorIdentity.key()) {
        None => Err(Fault::Missing),
        Some(value) => match value.items() {
            Some(items) => colors_of(items),
            None => Err(Fault::WrongType),
        },
    }
}

/// Whether a format's status says that the card is legal: only the exact
/// word does. Banned, restricted and anything else are all not legal.
pub open spec fn is_legal(status: Seq<char>) -> bool {
    status == "legal"@
}

/// The legality that the entries of a raw legalities record give, one
/// after the other: each status must be text.
pub open spec fn legality_of(fields: Seq<RawField>) -> Result<Map<Seq<char>, bool>, Fault>
    decreases fields.len(),
{
    if fields.len() == 0 {
        Ok(Map::empty())
    } else {
        match legality_of(fields.drop_last()) {
            Err(fault) => Err(fault),
            Ok(held) => match fields.last().value.text() {
                Some(status) => Ok(held.insert(fields.last().name@, is_legal(status))),
                None => Err(Fault::MalformedLegality),
            },
        }
    }
}

/// The legality of a record.
pub open spec fn legality_field(record: RawValue) -> Result<Map<Seq<char>, bool>, Fault> {
    match record.field(CardField::Legalities.key()) {
        None => Err(Fault::Missing),
        Some(value) => match value.fields() {
            Some(fields) => legality_of(fields),
            None => Err(Fault::WrongType),
        },
    }
}

/// The converted cost of a record, as the bits of a double.
pub open spec fn cost_field(record: RawValue) -> Result<u64, Fault> {
    match record.field(CardField::Cmc.key()) {
        None => Err(Fault::Missing),
        Some(value) => match value.double() {
            Some(bits) => Ok(bits),
            None => Err(Fault::WrongType),
        },
    }
}

/// Whether a name is that of a card with two faces.
pub open spec fn is_split_name(name: Seq<char>) -> bool {
    find(name, "//"@) is Some
}

/// What one raw record normalizes to: a card; nothing, for a card with two
/// faces; or the first field at fault, in the order of `CardField`.
///
/// The name is looked at first: a record with a split name is left out
/// whatever its other fields hold.
pub open spec fn normalize(record: RawValue) -> Result<Option<CardView>, (CardField, Fault)> {
    let name = text_field(record, CardField::Name);
    let oracle = text_field(record, CardField::OracleText);
    let colors = color_field(record);
    let legality = legality_field(record);
    let type_line = text_field(record, CardField::TypeLine);
    let mana_cost = text_field(record, CardField::ManaCost);
    let cost = cost_field(record);
    if name is Err {
        Err((CardField::Name, name->Err_0))
    } else if is_split_name(name->Ok_0) {
        Ok(None)
    } else if oracle is Err {
        Err((CardField::OracleText, oracle->Err_0))
    } else if colors is Err {
        Err((CardField::ColorIdentity, colors->Err_0))
    } else if legality is Err {
        Err((CardField::Legalities, legality->Err_0))
    } else if type_line is Err {
        Err((CardField::TypeLine, type_line->Err_0))
    } else if mana_cost is Err {
        Err((CardField::ManaCost, mana_cost->Err_0))
    } else if cost is Err {
        Err((CardField::Cmc, cost->Err_0))
    } else {
        Ok(
            Some(
                CardView {
                    name: name->Ok_0,
                    type_line: type_line->Ok_0,
                    mana_cost: mana_cost->Ok_0,
                    cmc_bits: cost->Ok_0,
                    oracle: oracle->Ok_0,
                    color_id: colors->Ok_0,
                    legality: legality->Ok_0,
                },
            ),
        )
    }
}

/// The catalog that a sequence of raw records normalizes to, in their
/// order, or the first fault on the way.
pub open spec fn normalize_all(records: Seq<RawValue>) -> Result<Seq<CardView>, CatalogError>
    decreases records.len(),
{
    if records.len() == 0 {
        Ok(Seq::empty())
    } else {
        let last = (records.len() - 1) as usize;
        match normalize_all(records.drop_last()) {
            Err(e) => Err(e),
            Ok(cards) => match normalize(records.last()) {
                Err((field, fault)) => Err(CatalogError::Record { record: last, field, fault }),
                Ok(None) => Ok(cards),
                Ok(Some(card)) => Ok(cards.push(card)),
            },
        }
    }
}

/// The cards as plain values.
pub open spec fn card_views(cards: Seq<Card>) -> Seq<CardView> {
    Seq::new(cards.len(), |i: int| cards[i]@)
}

/// A fault among the first records is the fault of the whole.
pub proof fn lemma_normalize_error_stays(records: Seq<RawValue>, n: int)
    requires
        0 <= n <= records.len(),
        normalize_all(records.take(n)) is Err,
    ensures
        normalize_all(records) == normalize_all(records.take(n)),
    decreases records.len() - n,
{
    if n == records.len() {
        assert(records.take(n) =~= records);
    } else {
        assert(records.take(n + 1).drop_last() =~= records.take(n));
        lemma_normalize_error_stays(records, n + 1);
    }
}

/// A fault among the first legalities is the fault of the whole.
pub proof fn lemma_legality_error_stays(fields: Seq<RawField>, n: int)
    requires
        0 <= n <= fields.len(),
        legality_of(fields.take(n)) is Err,
    ensures
        legality_of(fields) == legality_of(fields.take(n)),
    decreases fields.len() - n,
{
    if n == fields.len() {
        assert(fields.take(n) =~= fields);
    } else {
        assert(fields.take(n + 1).drop_last() =~= fields.take(n));
        lemma_legality_error_stays(fields, n + 1);
    }
}

/// Reads a field that must be text.
fn read_text(record: &RawValue, field: CardField) -> (r: Result<String, Fault>)
    ensures
        match r {
            Ok(text) => text_field(*record, field) == Ok::<Seq<char>, Fault>(text@),
            Err(fault) => text_field(*record, field) == Err::<Seq<char>, Fault>(fault),
        },
{
    match record.get(field.key_text()) {
        None => Err(Fault::Missing),
        Some(value) => match value.as_text() {
            Some(text) => Ok(text.clone()),
            None => Err(Fault::WrongType),
        },
    }
}

/// Reads the color identity.
fn read_colors(record: &RawValue) -> (r: Result<Vec<String>, Fault>)
    ensures
        match r {
            Ok(colors) => color_field(*record) == Ok::<Seq<Seq<char>>, Fault>(
                Seq::new(colors.len() as nat, |i: int| colors[i]@),
            ),
            Err(fault) => color_field(*record) == Err::<Seq<Seq<char>>, Fault>(fault),
        },
{
    let items = match record.get(CardField::ColorIdentity.key_text()) {
        None => {
            return Err(Fault::Missing);
        },
        Some(value) => match value.as_list() {
            Some(items) => items,
            None => {
                return Err(Fault::WrongType);
            },
        },
    };
    let mut colors: Vec<String> = Vec::new();
    let mut i: usize = 0;
    while i < items.len()
        invariant
            i <= items.len(),
            colors.len() == i,
            color_field(*record) == colors_of(items@),
            forall|j: int| 0 <= j < i ==> (#[trigger] items@[j]).text() == Some(colors[j]@),
        decreases items.len() - i,
    {
        match items[i].as_text() {
            Some(text) => {
                colors.push(text.clone());
            },
            None => {
                assert(items@[i as int].text() is None);
                return Err(Fault::WrongType);
            },
        }
        i = i + 1;
    }
    assert(Seq::new(colors.len() as nat, |i: int| colors[i]@) =~= Seq::new(
        items@.len(),
        |i: int| items@[i].text()->0,
    ));
    Ok(colors)
}

/// Reads the legalities.
fn read_legality(record: &RawValue) -> (r: Result<NameMap<bool>, Fault>)
    ensures
        match r {
            Ok(legality) => legality.wf() && legality_field(*record) == Ok::<
                Map<Seq<char>, bool>,
                Fault,
            >(legality@),
            Err(fault) => legality_field(*record) == Err::<Map<Seq<char>, bool>, Fault>(fault),
        },
{
    let fields = match record.get(CardField::Legalities.key_text()) {
        None => {
            return Err(Fault::Missing);
        },
        Some(value) => match value.as_record() {
            Some(fields) => fields,
            None => {
                return Err(Fault::WrongType);
            },
        },
    };
    let mut legality: NameMap<bool> = NameMap::new();
    let mut i: usize = 0;
    assert(fields@.take(0) =~= Seq::<RawField>::empty());
    while i < fields.len()
        invariant
            i <= fields.len(),
            legality.wf(),
            legality_field(*record) == legality_of(fields@),
            legality_of(fields@.take(i as int)) == Ok::<Map<Seq<char>, bool>, Fault>(legality@),
        decreases fields.len() - i,
    {
        proof {
            assert(fields@.take(i + 1).drop_last() =~= fields@.take(i as int));
            assert(fields@.take(i + 1).last() == fields@[i as int]);
        }
        match fields[i].value.as_text() {
            Some(status) => {
                let legal = same_text(status.as_str(), "legal");
                legality.set(fields[i].name.clone(), legal);
            },
            None => {
                proof {
                    lemma_legality_error_stays(fields@, i + 1);
                }
                return Err(Fault::MalformedLegality);
            },
        }
        i = i + 1;
    }
    assert(fields@.take(fields.len() as int) =~= fields@);
    Ok(legality)
}

/// Reads the converted cost.
fn read_cost(record: &RawValue) -> (r: Result<u64, Fault>)
    ensures
        r == cost_field(*record),
{
    match record.get(CardField::Cmc.key_text()) {
        None => Err(Fault::Missing),
        Some(value) => match value.as_double() {
            Some(bits) => Ok(bits),
            None => Err(Fault::WrongType),
        },
    }
}

/// Whether a name is that of a card with two faces.
pub fn has_split_name(name: &str) -> (split: bool)
    ensures
        split == is_split_name(name@),
{
    let hay = to_chars(name);
    let needle = to_chars("//");
    find_in(&hay, &needle).is_some()
}

/// Normalizes one raw record.
///
/// The result is a card, `None` for a card with two faces, or the first
/// field at fault with what is wrong with it.
pub fn normalize_record(record: &RawValue) -> (r: Result<Option<Card>, (CardField, Fault)>)
    ensures
        match r {
            Ok(Some(card)) => card.wf() && normalize(*record) == Ok::<
                Option<CardView>,
                (CardField, Fault),
            >(Some(card@)),
            Ok(None) => normalize(*record) == Ok::<Option<CardView>, (CardField, Fault)>(None),
            Err(e) => normalize(*record) == Err::<Option<CardView>, (CardField, Fault)>(e),
        },
{
    let name = match read_text(record, CardField::Name) {
        Ok(name) => name,
        Err(fault) => {
            return Err((CardField::Name, fault));
        },
    };
    if has_split_name(name.as_str()) {
        return Ok(None);
    }
    let oracle = match read_text(record, CardField::OracleText) {
        Ok(oracle) => oracle,
        Err(fault) => {
            return Err((CardField::OracleText, fault));
        },
    };
    let color_id = match read_colors(record) {
        Ok(colors) => colors,
        Err(fault) => {
            return Err((CardField::ColorIdentity, fault));
        },
    };
    let legality = match read_legality(record) {
        Ok(legality) => legality,
        Err(fault) => {
            return Err((CardField::Legalities, fault));
        },
    };
    let type_line = match read_text(record, CardField::TypeLine) {
        Ok(type_line) => type_line,
        Err(fault) => {
            return Err((CardField::TypeLine, fault));
        },
    };
    let mana_cost = match read_text(record, CardField::ManaCost) {
        Ok(mana_cost) => mana_cost,
        Err(fault) => {
            return Err((CardField::ManaCost, fault));
        },
    };
    let cmc_bits = match read_cost(record) {
        Ok(bits) => bits,
        Err(fault) => {
            return Err((CardField::Cmc, fault));
        },
    };
    Ok(Some(Card { name, type_line, mana_cost, cmc_bits, oracle, color_id, legality }))
}

/// Normalizes the raw records of a feed into a catalog.
///
/// The catalog holds one card for each record whose name is not split, in
/// the order of the feed; nothing is sorted and no name is looked for
/// twice. The first record at fault ends the run with its index, the
/// field and the fault: no part of a catalog is returned.
pub fn normalize_records(records: &Vec<RawValue>) -> (r: Result<Vec<Card>, CatalogError>)
    ensures
        match r {
            Ok(cards) => {
                &&& normalize_all(records@) == Ok::<Seq<CardView>, CatalogError>(card_views(cards@))
                &&& forall|i: int| 0 <= i < cards.len() ==> (#[trigger] cards[i]).wf()
            },
            Err(e) => normalize_all(records@) == Err::<Seq<CardView>, CatalogError>(e),
        },
{
    let mut cards: Vec<Card> = Vec::new();
    let mut i: usize = 0;
    assert(records@.take(0) =~= Seq::<RawValue>::empty());
    assert(card_views(cards@) =~= Seq::<CardView>::empty());
    while i < records.len()
        invariant
            i <= records.len(),
            normalize_all(records@.take(i as int)) == Ok::<Seq<CardView>, CatalogError>(
                card_views(cards@),
            ),
            forall|j: int| 0 <= j < cards.len() ==> (#[trigger] cards[j]).wf(),
        decreases records.len() - i,
    {
        proof {
            assert(records@.take(i + 1).drop_last() =~= records@.take(i as int));
            assert(records@.take(i + 1).last() == records@[i as int]);
        }
        match normalize_record(&records[i]) {
            Err((field, fault)) => {
                proof {
                    lemma_normalize_error_stays(records@, i + 1);
                }
                return Err(CatalogError::Record { record: i, field, fault });
            },
            Ok(None) => {},
            Ok(Some(card)) => {
                let ghost before = card_views(cards@);
                cards.push(card);
                assert(card_views(cards@) =~= before.push(card@));
            },
        }
        i = i + 1;
    }
    assert(records@.take(records.len() as int) =~= records@);
    Ok(cards)
}

/// The catalog that a feed normalizes to, where `doc` is what the feed
/// reads as: `None` for a feed that is not JSON.
pub open spec fn normalize_feed(doc: Option<RawValue>) -> Result<Seq<CardView>, CatalogError> {
    match doc {
        None => Err(CatalogError::Syntax),
        Some(value) => match value.items() {
            Some(records) => normalize_all(records),
            None => Err(CatalogError::NotAList),
        },
    }
}

/// Normalizes a feed that has been read: a list of raw records.
pub fn normalize_document(doc: &RawValue) -> (r: Result<Vec<Card>, CatalogError>)
    ensures
        match r {
            Ok(cards) => {
                &&& normalize_feed(Some(*doc)) == Ok::<Seq<CardView>, CatalogError>(
                    card_views(cards@),
                )
                &&& forall|i: int| 0 <= i < cards.len() ==> (#[trigger] cards[i]).wf()
            },
            Err(e) => normalize_feed(Some(*doc)) == Err::<Seq<CardView>, CatalogError>(e),
        },
{
    match doc.as_list() {
        Some(records) => normalize_records(records),
        None => Err(CatalogError::NotAList),
    }
}

/// Builds the catalog from the text of a bulk feed: a JSON array of card
/// records.
///
/// The text is read as JSON and the document is normalized as
/// `normalize_document` says. A text that is not JSON gives `Syntax`.
pub fn build_lightweight_cards(feed: &str) -> (r: Result<Vec<Card>, CatalogError>)
    ensures
        match r {
            Ok(cards) => {
                &&& normalize_feed(json_value(feed@)) == Ok::<Seq<CardView>, CatalogError>(
                    card_views(cards@),
                )
                &&& forall|i: int| 0 <= i < cards.len() ==> (#[trigger] cards[i]).wf()
            },
            Err(e) => normalize_feed(json_value(feed@)) == Err::<Seq<CardView>, CatalogError>(e),
        },
{
    match read_json(feed) {
        Some(doc) => normalize_document(&doc),
        None => Err(CatalogError::Syntax),
    }
}

/// Where the bulk feed can be fetched, as an index document says in its
/// `download_uri`: `None` where the document has no such text.
pub open spec fn download_uri_of(doc: Option<RawValue>) -> Option<Seq<char>> {
    match doc {
        Some(value) => match value.field("download_uri"@) {
            Some(uri) => uri.text(),
            None => None,
        },
        None => None,
    }
}

/// Where the bulk feed can be fetched, as an index document says.
pub fn download_uri(doc: &RawValue) -> (r: Option<String>)
    ensures
        match r {
            Some(uri) => download_uri_of(Some(*doc)) == Some(uri@),
            None => download_uri_of(Some(*doc)) is None,
        },
{
    match doc.get("download_uri") {
        Some(uri) => match uri.as_text() {
            Some(text) => Some(text.clone()),
            None => None,
        },
        None => None,
    }
}

/// Where the bulk feed can be fetched, as the text of an index document
/// says.
pub fn bulk_download_uri(body: &str) -> (r: Option<String>)
    ensures
        match r {
            Some(uri) => download_uri_of(json_value(body@)) == Some(uri@),
            None => download_uri_of(json_value(body@)) is None,
        },
{
    match read_json(body) {
        Some(doc) => download_uri(&doc),
        None => None,
    }
}

/// A record whose name is split gives no card, whatever else it holds.
pub proof fn lemma_split_record_is_skipped(record: RawValue, name: Seq<char>)
    requires
        text_field(record, CardField::Name) == Ok::<Seq<char>, Fault>(name),
        is_split_name(name),
    ensures
        normalize(record) == Ok::<Option<CardView>, (CardField, Fault)>(None),
{
}

/// No card of a catalog has a split name.
pub proof fn lemma_no_split_card(records: Seq<RawValue>)
    requires
        normalize_all(records) is Ok,
    ensures
        forall|i: int|
            0 <= i < normalize_all(records)->Ok_0.len() ==> !is_split_name(
                (#[trigger] normalize_all(records)->Ok_0[i]).name,
            ),
    decreases records.len(),
{
    if records.len() > 0 {
        lemma_no_split_card(records.drop_last());
    }
}

/// A catalog holds at most one card for each record.
pub proof fn lemma_catalog_len(records: Seq<RawValue>)
    requires
        normalize_all(records) is Ok,
    ensures
        normalize_all(records)->Ok_0.len() <= records.len(),
    decreases records.len(),
{
    if records.len() > 0 {
        lemma_catalog_len(records.drop_last());
    }
}

/// Only the word `legal` is legal: in the legality of a record, each
/// format has `true` exactly where the last status given for it is the
/// text `legal`.
pub proof fn lemma_legality_maps_exactly(fields: Seq<RawField>, i: int)
    requires
        legality_of(fields) is Ok,
        0 <= i < fields.len(),
        forall|j: int| i < j < fields.len() ==> (#[trigger] fields[j]).name@ != fields[i].name@,
    ensures
        fields[i].value.text() is Some,
        legality_of(fields)->Ok_0.contains_key(fields[i].name@),
        legality_of(fields)->Ok_0[fields[i].name@] == (fields[i].value.text()->0 == "legal"@),
    decreases fields.len(),
{
    if i < fields.len() - 1 {
        let front = fields.drop_last();
        assert(fields[fields.len() - 1].name@ != fields[i].name@);
        assert forall|j: int| i < j < front.len() implies (#[trigger] front[j]).name@
            != front[i].name@ by {
            assert(fields[j].name@ != fields[i].name@);
        }
        lemma_legality_maps_exactly(front, i);
    }
}

/// A fault is fatal: one record at fault, and there is no catalog.
pub proof fn lemma_fault_is_fatal(records: Seq<RawValue>, i: int)
    requires
        0 <= i < records.len(),
        normalize(records[i]) is Err,
    ensures
        normalize_all(records) is Err,
    decreases records.len(),
{
    if i < records.len() - 1 {
        lemma_fault_is_fatal(records.drop_last(), i);
    }
}

/// A record without converted cost is at fault, unless its name is split.
pub proof fn lemma_missing_cost_is_a_fault(record: RawValue)
    requires
        record.field("cmc"@) is None,
    ensures
        normalize(record) is Err || (text_field(record, CardField::Name) is Ok && is_split_name(
            text_field(record, CardField::Name)->Ok_0,
        )),
{
}

/// A feed with a record that lacks its converted cost, and whose name is
/// not split, has no catalog: the record is not skipped.
pub proof fn lemma_missing_cost_is_fatal(records: Seq<RawValue>, i: int)
    requires
        0 <= i < records.len(),
        records[i].field("cmc"@) is None,
        !(text_field(records[i], CardField::Name) is Ok && is_split_name(
            text_field(records[i], CardField::Name)->Ok_0,
        )),
    ensures
        normalize_all(records) is Err,
{
    lemma_missing_cost_is_a_fault(records[i]);
    lemma_fault_is_fatal(records, i);
}

} // verus!
