use deckliste_rs::{
    parse_deck_file, AggregationError, Decklist, ParseError, RawField, RawNumber, RawValue,
};

fn lines(texts: &[&str]) -> Vec<String> {
    texts.iter().map(|t| String::from(*t)).collect()
}

fn whole(n: u64) -> RawValue {
    RawValue::Number(RawNumber { unsigned: Some(n), double: Some((n as f64).to_bits()) })
}

fn record(fields: Vec<(&str, RawValue)>) -> RawValue {
    RawValue::Record(
        fields.into_iter().map(|(k, v)| RawField { name: String::from(k), value: v }).collect(),
    )
}

#[test]
fn two_lines_for_one_card_add_up() {
    let deck = Decklist::from_lines(&lines(&["1 Foo", "2 Foo"])).unwrap();
    assert_eq!(deck.len(), 1);
    assert_eq!(deck.quantity("Foo"), Some(3));
    assert_eq!(deck.name_at(0), "Foo");
    assert_eq!(deck.quantity_at(0), 3);
}

#[test]
fn lines_keep_the_order_of_first_mention() {
    let deck =
        Decklist::from_lines(&lines(&["4 Island", "Abbey Matron x2", "3x Island", "Opt"])).unwrap();
    assert_eq!(deck.len(), 3);
    assert_eq!(deck.name_at(0), "Island");
    assert_eq!(deck.quantity_at(0), 7);
    assert_eq!(deck.name_at(1), "Abbey Matron");
    assert_eq!(deck.quantity_at(1), 2);
    assert_eq!(deck.name_at(2), "Opt");
    assert_eq!(deck.quantity_at(2), 1);
    assert_eq!(deck.quantity("Mountain"), None);
}

#[test]
fn no_lines_give_an_empty_decklist() {
    let deck = Decklist::from_lines(&Vec::new()).unwrap();
    assert_eq!(deck.len(), 0);
}

#[test]
fn a_bad_line_fails_the_whole_list() {
    let r = Decklist::from_lines(&lines(&["1 Foo", "2nd Bar", "", "3 Baz"]));
    assert_eq!(
        r.err(),
        Some(AggregationError::Parse { line: 1, error: ParseError::NoQuantity })
    );
    let r = Decklist::from_lines(&lines(&["1 Foo", "", "2nd Bar"]));
    assert_eq!(r.err(), Some(AggregationError::Parse { line: 1, error: ParseError::EmptyLine }));
}

#[test]
fn too_many_copies_are_an_error() {
    let r = Decklist::from_lines(&lines(&["4294967295 Foo", "1 Bar", "1 Foo"]));
    assert_eq!(r.err(), Some(AggregationError::TooManyCopies { line: 2 }));
    let deck = Decklist::from_lines(&lines(&["4294967294 Foo", "1 Foo"])).unwrap();
    assert_eq!(deck.quantity("Foo"), Some(4294967295));
}

#[test]
fn add_and_set_differ() {
    let mut deck = Decklist::new();
    assert!(deck.add(String::from("Foo"), 2));
    assert!(deck.add(String::from("Foo"), 5));
    assert_eq!(deck.quantity("Foo"), Some(7));
    deck.set(String::from("Foo"), 4);
    assert_eq!(deck.quantity("Foo"), Some(4));
    assert!(!deck.add(String::from("Foo"), u32::MAX));
    assert_eq!(deck.quantity("Foo"), Some(4));
    assert_eq!(deck.len(), 1);
}

#[test]
fn a_document_sets_its_quantities() {
    let doc = record(vec![
        ("format", RawValue::Text(String::from("modern"))),
        ("list", record(vec![("Foo", whole(4))])),
        ("name", RawValue::Text(String::from("deck.dk"))),
    ]);
    let deck = Decklist::from_document(&doc).unwrap();
    assert_eq!(deck.len(), 1);
    assert_eq!(deck.quantity("Foo"), Some(4));
}

#[test]
fn a_document_overwrites_where_lines_would_add() {
    let doc = record(vec![("list", record(vec![("Foo", whole(1)), ("Foo", whole(4))]))]);
    let deck = Decklist::from_document(&doc).unwrap();
    assert_eq!(deck.len(), 1);
    assert_eq!(deck.quantity("Foo"), Some(4));
}

#[test]
fn an_empty_list_gives_an_empty_decklist() {
    let doc = record(vec![("list", record(vec![]))]);
    assert_eq!(Decklist::from_document(&doc).unwrap().len(), 0);
}

#[test]
fn a_document_without_list_is_refused() {
    let doc = record(vec![("name", RawValue::Text(String::from("x")))]);
    assert_eq!(Decklist::from_document(&doc).err(), Some(AggregationError::MissingList));
    let doc = record(vec![("list", RawValue::List(vec![]))]);
    assert_eq!(Decklist::from_document(&doc).err(), Some(AggregationError::MissingList));
    assert_eq!(Decklist::from_document(&RawValue::Null).err(), Some(AggregationError::MissingList));
}

#[test]
fn a_bad_entry_is_refused() {
    let doc = record(vec![("list", record(vec![("Foo", whole(4)), ("Bar", whole(0))]))]);
    assert_eq!(
        Decklist::from_document(&doc).err(),
        Some(AggregationError::InvalidEntry { entry: 1 })
    );
    let doc = record(vec![("list", record(vec![("", whole(4))]))]);
    assert_eq!(
        Decklist::from_document(&doc).err(),
        Some(AggregationError::InvalidEntry { entry: 0 })
    );
    let doc = record(vec![("list", record(vec![("Foo", whole(4294967296))]))]);
    assert_eq!(
        Decklist::from_document(&doc).err(),
        Some(AggregationError::InvalidEntry { entry: 0 })
    );
    let doc =
        record(vec![("list", record(vec![("Foo", RawValue::Text(String::from("4")))]))]);
    assert_eq!(
        Decklist::from_document(&doc).err(),
        Some(AggregationError::InvalidEntry { entry: 0 })
    );
}

#[test]
fn a_saved_deck_file_is_read_as_json() {
    let deck =
        parse_deck_file("burn.dk", "{\"format\":\"modern\",\"list\":{\"Foo\":4,\"Bar\":2},\"name\":\"burn.dk\"}")
            .unwrap();
    assert_eq!(deck.len(), 2);
    assert_eq!(deck.quantity("Foo"), Some(4));
    assert_eq!(deck.quantity("Bar"), Some(2));
    assert_eq!(parse_deck_file("burn.dk", "1 Foo").err(), Some(AggregationError::Syntax));
    assert_eq!(parse_deck_file("burn.dk", "{}").err(), Some(AggregationError::MissingList));
    assert_eq!(
        parse_deck_file("burn.dk", "{\"list\":{\"Foo\":-1}}").err(),
        Some(AggregationError::InvalidEntry { entry: 0 })
    );
    assert_eq!(
        parse_deck_file("burn.dk", "{\"list\":{\"Foo\":1.5}}").err(),
        Some(AggregationError::InvalidEntry { entry: 0 })
    );
}

#[test]
fn a_text_deck_file_is_read_line_by_line() {
    let deck = parse_deck_file("burn.txt", "1 Foo\r\n2 Foo\nBar x3").unwrap();
    assert_eq!(deck.len(), 2);
    assert_eq!(deck.quantity("Foo"), Some(3));
    assert_eq!(deck.quantity("Bar"), Some(3));
    let deck = parse_deck_file("dk", "1 Foo\n").unwrap();
    assert_eq!(deck.quantity("Foo"), Some(1));
    assert_eq!(parse_deck_file("burn.txt", "").unwrap().len(), 0);
    assert_eq!(
        parse_deck_file("burn.txt", "1 Foo\n\n2 Bar").err(),
        Some(AggregationError::Parse { line: 1, error: ParseError::EmptyLine })
    );
}
