//! Reading decklists and card catalogs from loose text.
//!
//! Two pipelines share nothing but their manners: they put up with untidy
//! input and fail loudly on what they cannot read. One parses the lines of
//! a decklist, such as `1x Abbey Matron` or `Abbey Matron x1`, and adds
//! them up into a [`Decklist`]; it also loads a decklist that was saved
//! as a document. The other normalizes the raw records of a bulk card feed
//! into the [`Card`]s of a catalog.
//!
//! Every function states what it returns over a model of its data, and is
//! proved to return that. What is taken on trust, of `serde_json` alone,
//! stands in [`json`].

pub mod catalog;
pub mod confirm;
pub mod decklist;
pub mod json;
pub mod name_map;
pub mod parser;
pub mod parser_laws;
pub mod raw;
pub mod text;

pub use catalog::{
    build_lightweight_cards, bulk_download_uri, download_uri, normalize_document,
    normalize_record, normalize_records, Card, CardField, CatalogError, Fault,
};
pub use confirm::{read_answer, Answer};
pub use decklist::{parse_deck_file, AggregationError, Decklist};
pub use name_map::NameMap;
pub use parser::{parse_card_line, ParseError};
pub use raw::{RawField, RawNumber, RawValue};
