use deckliste_rs::{
    build_lightweight_cards, bulk_download_uri, download_uri, normalize_record, normalize_records,
    CardField, CatalogError, Fault, RawField, RawNumber, RawValue,
};

fn text(s: &str) -> RawValue {
    RawValue::Text(String::from(s))
}

fn cost(x: f64) -> RawValue {
    RawValue::Number(RawNumber { unsigned: None, double: Some(x.to_bits()) })
}

fn record(fields: Vec<(&str, RawValue)>) -> RawValue {
    RawValue::Record(
        fields.into_iter().map(|(k, v)| RawField { name: String::from(k), value: v }).collect(),
    )
}

fn fields_of(name: &str) -> Vec<(&'static str, RawValue)> {
    vec![
        ("name", text(name)),
        ("oracle_text", text("Draw a card.")),
        ("color_identity", RawValue::List(vec![text("U"), text("R")])),
        ("legalities", record(vec![("standard", text("legal")), ("modern", text("banned"))])),
        ("type_line", text("Instant")),
        ("mana_cost", text("{1}{U}")),
        ("cmc", cost(2.0)),
    ]
}

fn without(name: &str, field: &str) -> RawValue {
    record(fields_of(name).into_iter().filter(|(k, _)| *k != field).collect())
}

fn replaced(name: &str, field: &str, value: RawValue) -> RawValue {
    let mut fields: Vec<(&str, RawValue)> =
        fields_of(name).into_iter().filter(|(k, _)| *k != field).collect();
    fields.push(match field {
        "name" => ("name", value),
        "oracle_text" => ("oracle_text", value),
        "color_identity" => ("color_identity", value),
        "legalities" => ("legalities", value),
        "type_line" => ("type_line", value),
        "mana_cost" => ("mana_cost", value),
        _ => ("cmc", value),
    });
    record(fields)
}

#[test]
fn a_record_is_projected_field_by_field() {
    let card = normalize_record(&record(fields_of("Opt"))).unwrap().unwrap();
    assert_eq!(card.name, "Opt");
    assert_eq!(card.type_line, "Instant");
    assert_eq!(card.mana_cost, "{1}{U}");
    assert_eq!(f64::from_bits(card.cmc_bits), 2.0);
    assert_eq!(card.oracle, "Draw a card.");
    assert_eq!(card.color_id, vec![String::from("U"), String::from("R")]);
    assert_eq!(card.legality.len(), 2);
}

#[test]
fn only_the_word_legal_is_legal() {
    let legalities = record(vec![
        ("standard", text("legal")),
        ("modern", text("banned")),
        ("legacy", text("restricted")),
        ("vintage", text("not_legal")),
        ("pauper", text("Legal")),
        ("penny", text("")),
    ]);
    let card = normalize_record(&replaced("Opt", "legalities", legalities)).unwrap().unwrap();
    assert_eq!(card.legality.len(), 6);
    assert_eq!(card.legality.get("standard"), Some(true));
    assert_eq!(card.legality.get("modern"), Some(false));
    assert_eq!(card.legality.get("legacy"), Some(false));
    assert_eq!(card.legality.get("vintage"), Some(false));
    assert_eq!(card.legality.get("pauper"), Some(false));
    assert_eq!(card.legality.get("penny"), Some(false));
    assert_eq!(card.legality.get("commander"), None);
}

#[test]
fn split_cards_are_left_out() {
    assert!(normalize_record(&record(fields_of("Fire // Ice"))).unwrap().is_none());
    assert!(normalize_record(&record(vec![("name", text("Fire // Ice"))])).unwrap().is_none());
    let cards = normalize_records(&vec![
        record(fields_of("Opt")),
        record(fields_of("Fire // Ice")),
        record(fields_of("Shock")),
    ])
    .unwrap();
    assert_eq!(cards.len(), 2);
    assert_eq!(cards[0].name, "Opt");
    assert_eq!(cards[1].name, "Shock");
}

#[test]
fn a_single_slash_is_no_split() {
    let card = normalize_record(&record(fields_of("Who/What/When"))).unwrap().unwrap();
    assert_eq!(card.name, "Who/What/When");
}

#[test]
fn a_missing_cost_fails_the_whole_run() {
    let r = normalize_records(&vec![
        record(fields_of("Opt")),
        without("Shock", "cmc"),
        record(fields_of("Bolt")),
    ]);
    assert_eq!(
        r.err(),
        Some(CatalogError::Record { record: 1, field: CardField::Cmc, fault: Fault::Missing })
    );
}

#[test]
fn each_field_is_required() {
    let cases = [
        ("name", CardField::Name),
        ("oracle_text", CardField::OracleText),
        ("color_identity", CardField::ColorIdentity),
        ("legalities", CardField::Legalities),
        ("type_line", CardField::TypeLine),
        ("mana_cost", CardField::ManaCost),
        ("cmc", CardField::Cmc),
    ];
    for (key, field) in cases {
        assert_eq!(normalize_record(&without("Opt", key)).err(), Some((field, Fault::Missing)));
        assert_eq!(
            normalize_record(&replaced("Opt", key, RawValue::Bool(true))).err(),
            Some((field, Fault::WrongType))
        );
    }
    assert_eq!(normalize_record(&RawValue::Null).err(), Some((CardField::Name, Fault::Missing)));
}

#[test]
fn the_first_fault_in_field_order_is_reported() {
    let broken = record(vec![("name", text("Opt")), ("cmc", text("2"))]);
    assert_eq!(normalize_record(&broken).err(), Some((CardField::OracleText, Fault::Missing)));
}

#[test]
fn colors_and_legalities_must_be_text() {
    let colors = RawValue::List(vec![text("U"), RawValue::Null]);
    assert_eq!(
        normalize_record(&replaced("Opt", "color_identity", colors)).err(),
        Some((CardField::ColorIdentity, Fault::WrongType))
    );
    let legalities = record(vec![("standard", text("legal")), ("modern", RawValue::Bool(true))]);
    assert_eq!(
        normalize_record(&replaced("Opt", "legalities", legalities)).err(),
        Some((CardField::Legalities, Fault::MalformedLegality))
    );
}

#[test]
fn duplicate_names_stay_and_order_is_kept() {
    let cards = normalize_records(&vec![
        record(fields_of("Shock")),
        record(fields_of("Opt")),
        record(fields_of("Shock")),
    ])
    .unwrap();
    let names: Vec<&str> = cards.iter().map(|c| c.name.as_str()).collect();
    assert_eq!(names, vec!["Shock", "Opt", "Shock"]);
    assert_eq!(normalize_records(&Vec::new()).unwrap().len(), 0);
}

#[test]
fn a_feed_is_read_as_json() {
    let feed = "[{\"name\":\"Opt\",\"oracle_text\":\"Scry 1.\\nDraw a card.\",\
        \"color_identity\":[\"U\"],\"legalities\":{\"standard\":\"legal\",\"modern\":\"banned\"},\
        \"type_line\":\"Instant\",\"mana_cost\":\"{U}\",\"cmc\":1.0},\
        {\"name\":\"Fire // Ice\"},\
        {\"name\":\"Island\",\"oracle_text\":\"\",\"color_identity\":[],\"legalities\":{},\
        \"type_line\":\"Basic Land\",\"mana_cost\":\"\",\"cmc\":0}]";
    let cards = build_lightweight_cards(feed).unwrap();
    assert_eq!(cards.len(), 2);
    assert_eq!(cards[0].name, "Opt");
    assert_eq!(cards[0].oracle, "Scry 1.\nDraw a card.");
    assert_eq!(f64::from_bits(cards[0].cmc_bits), 1.0);
    assert_eq!(cards[0].color_id, vec![String::from("U")]);
    assert_eq!(cards[0].legality.get("standard"), Some(true));
    assert_eq!(cards[0].legality.get("modern"), Some(false));
    assert_eq!(cards[1].name, "Island");
    assert_eq!(f64::from_bits(cards[1].cmc_bits), 0.0);
    assert_eq!(cards[1].legality.len(), 0);
}

#[test]
fn a_feed_that_is_no_list_is_refused() {
    assert_eq!(build_lightweight_cards("[").err(), Some(CatalogError::Syntax));
    assert_eq!(build_lightweight_cards("").err(), Some(CatalogError::Syntax));
    assert_eq!(build_lightweight_cards("{}").err(), Some(CatalogError::NotAList));
    assert_eq!(build_lightweight_cards("[]").unwrap().len(), 0);
    assert_eq!(
        build_lightweight_cards("[{\"name\":\"Opt\",\"oracle_text\":\"\",\"color_identity\":[],\
            \"legalities\":{},\"type_line\":\"\",\"mana_cost\":\"\"}]")
        .err(),
        Some(CatalogError::Record { record: 0, field: CardField::Cmc, fault: Fault::Missing })
    );
}

#[test]
fn the_download_uri_is_found_in_the_index() {
    let body = "{\"object\":\"bulk_data\",\"download_uri\":\"https://example.org/cards.json\"}";
    assert_eq!(bulk_download_uri(body), Some(String::from("https://example.org/cards.json")));
    assert_eq!(bulk_download_uri("{\"download_uri\":5}"), None);
    assert_eq!(bulk_download_uri("{}"), None);
    assert_eq!(bulk_download_uri("not json"), None);
    assert_eq!(download_uri(&record(vec![("download_uri", text("u"))])), Some(String::from("u")));
    assert_eq!(download_uri(&RawValue::Null), None);
}
