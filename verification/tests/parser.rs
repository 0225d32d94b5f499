use deckliste_rs::{parse_card_line, ParseError};

#[test]
fn parse_card_test() {
    let lines = [
        "Abbey Matron",
        "1 Abbey Matron",
        "1x Abbey Matron",
        "x1 Abbey Matron",
        "Abbey Matron x1",
        "Abbey Matron 1x",
    ];
    for cardline in lines {
        let result = parse_card_line(String::from(cardline));
        assert_eq!(result, Ok((1, String::from("Abbey Matron"))));
    }
}

#[test]
fn six_variants_carry_the_quantity() {
    let lines = [
        "4 Abbey Matron",
        "4x Abbey Matron",
        "x4 Abbey Matron",
        "Abbey Matron x4",
        "Abbey Matron 4x",
        "4  Abbey Matron ",
    ];
    for cardline in lines {
        let result = parse_card_line(String::from(cardline));
        assert_eq!(result, Ok((4, String::from("Abbey Matron"))));
    }
}

#[test]
fn special_names_read_as_one_copy() {
    let names = [
        "borrowing 100,000 arrows",
        "borrowing 100000 arrows",
        "guan-yu's 1,000-li march",
        "guan-yu's 1000-li march",
        "+2 mace",
        "5 alarm fire",
        "50 feet of rope",
        "celebr-8000",
        "d00-dl, caricaturist",
        "50 Feet of Rope",
        "Celebr-8000",
    ];
    for name in names {
        let result = parse_card_line(String::from(name));
        assert_eq!(result, Ok((1, String::from(name))));
    }
}

#[test]
fn empty_line_has_no_name() {
    assert_eq!(parse_card_line(String::new()), Err(ParseError::EmptyLine));
    assert_eq!(parse_card_line(String::from("   ")), Err(ParseError::EmptyLine));
    assert_eq!(parse_card_line(String::from("3")), Err(ParseError::EmptyLine));
}

#[test]
fn unreadable_quantity_is_an_error() {
    assert_eq!(parse_card_line(String::from("1st Foo")), Err(ParseError::NoQuantity));
    assert_eq!(parse_card_line(String::from("0 Foo")), Err(ParseError::NoQuantity));
    assert_eq!(parse_card_line(String::from("4294967296 Foo")), Err(ParseError::NoQuantity));
}

#[test]
fn leading_whitespace_leaves_no_quantity() {
    assert_eq!(parse_card_line(String::from(" 4 Abbey Matron")), Err(ParseError::NoQuantity));
}

#[test]
fn a_quantity_beside_a_special_name_alone_is_not_read() {
    assert_eq!(
        parse_card_line(String::from("3 50 feet of rope")),
        Ok((1, String::from("50 feet of rope")))
    );
    assert_eq!(
        parse_card_line(String::from("50 feet of rope x3")),
        Ok((1, String::from("50 feet of rope")))
    );
    assert_eq!(
        parse_card_line(String::from("4x Celebr-8000")),
        Ok((1, String::from("Celebr-8000")))
    );
}

#[test]
fn a_special_name_takes_its_quantity_from_the_shorter_side() {
    assert_eq!(
        parse_card_line(String::from("3 50 feet of rope (foil)")),
        Ok((3, String::from("50 feet of rope")))
    );
    assert_eq!(
        parse_card_line(String::from("(playset) Celebr-8000 4x")),
        Ok((4, String::from("Celebr-8000")))
    );
    assert_eq!(parse_card_line(String::from("2 +2 mace 3")), Ok((3, String::from("+2 mace"))));
    assert_eq!(
        parse_card_line(String::from("(foil) 5 alarm fire 0")),
        Ok((1, String::from("5 alarm fire")))
    );
    assert_eq!(
        parse_card_line(String::from("x 5 alarm fire (foil)")),
        Ok((1, String::from("5 alarm fire")))
    );
}

#[test]
fn the_first_special_name_in_list_order_wins() {
    assert_eq!(
        parse_card_line(String::from("+2 mace, borrowing 100,000 arrows")),
        Ok((1, String::from("borrowing 100,000 arrows")))
    );
    assert_eq!(
        parse_card_line(String::from("50 Feet of Rope and 50 feet of rope")),
        Ok((1, String::from("50 feet of rope")))
    );
}

#[test]
fn special_names_are_matched_as_written() {
    assert_eq!(parse_card_line(String::from("5 Alarm Fire")), Ok((5, String::from("Alarm Fire"))));
    assert_eq!(parse_card_line(String::from("+2 Mace")), Ok((2, String::from("Mace"))));
}

#[test]
fn a_first_digit_in_the_back_half_cuts_the_line() {
    assert_eq!(parse_card_line(String::from("Ab x1")), Ok((1, String::from("Ab"))));
    assert_eq!(parse_card_line(String::from("A 1x")), Err(ParseError::NoQuantity));
    assert_eq!(parse_card_line(String::from("Opt 1000x")), Err(ParseError::NoQuantity));
    assert_eq!(parse_card_line(String::from("Opts 1000x")), Err(ParseError::NoQuantity));
    assert_eq!(parse_card_line(String::from("Optss 1000x")), Err(ParseError::NoQuantity));
    assert_eq!(parse_card_line(String::from("Optsss 1000x")), Ok((1000, String::from("Optsss"))));
}

#[test]
fn the_halves_are_measured_in_bytes() {
    assert_eq!(parse_card_line(String::from("\u{c9}a 1x")), Ok((1, String::from("\u{c9}a"))));
    assert_eq!(parse_card_line(String::from("Ea 1x")), Err(ParseError::NoQuantity));
}

#[test]
fn any_whitespace_separates() {
    assert_eq!(parse_card_line(String::from("2\tFoo")), Ok((2, String::from("Foo"))));
    assert_eq!(parse_card_line(String::from("2\u{a0}Foo Bar")), Ok((2, String::from("Foo Bar"))));
    assert_eq!(
        parse_card_line(String::from("\u{3000}Abbey Matron\u{2003}")),
        Ok((1, String::from("Abbey Matron")))
    );
    assert_eq!(
        parse_card_line(String::from("Abbey Matron \t x12 \r")),
        Ok((12, String::from("Abbey Matron")))
    );
}

#[test]
fn quantities_are_decimal_numbers() {
    assert_eq!(parse_card_line(String::from("+2 Foo")), Ok((2, String::from("Foo"))));
    assert_eq!(parse_card_line(String::from("007 Foo")), Ok((7, String::from("Foo"))));
    assert_eq!(parse_card_line(String::from("xx3xx Foo")), Ok((3, String::from("Foo"))));
    assert_eq!(
        parse_card_line(String::from("4294967295 Foo")),
        Ok((4294967295, String::from("Foo")))
    );
    assert_eq!(parse_card_line(String::from("-2 Foo")), Err(ParseError::NoQuantity));
    assert_eq!(parse_card_line(String::from("+ 2 Foo")), Err(ParseError::NoQuantity));
    assert_eq!(parse_card_line(String::from("2.5 Foo")), Err(ParseError::NoQuantity));
    assert_eq!(parse_card_line(String::from("000 Foo")), Err(ParseError::NoQuantity));
    assert_eq!(parse_card_line(String::from("3X Foo")), Err(ParseError::NoQuantity));
}

#[test]
fn a_line_without_whitespace_has_no_name() {
    assert_eq!(parse_card_line(String::from("12")), Err(ParseError::EmptyLine));
    assert_eq!(parse_card_line(String::from("1xFoo")), Err(ParseError::NoQuantity));
    assert_eq!(parse_card_line(String::from("7 ")), Err(ParseError::EmptyLine));
    assert_eq!(parse_card_line(String::from("       x12")), Err(ParseError::EmptyLine));
}

#[test]
fn a_leading_x_is_trimmed_from_a_name_before_its_quantity() {
    assert_eq!(parse_card_line(String::from("xenagos x1")), Ok((1, String::from("enagos"))));
    assert_eq!(parse_card_line(String::from(" xenagos x1")), Ok((1, String::from("xenagos"))));
    assert_eq!(parse_card_line(String::from("1 xenagos")), Ok((1, String::from("xenagos"))));
    assert_eq!(parse_card_line(String::from("Lynx x2")), Ok((2, String::from("Lynx"))));
}

#[test]
fn split_names_get_no_help() {
    assert_eq!(parse_card_line(String::from("Fire // Ice")), Ok((1, String::from("Fire // Ice"))));
    assert_eq!(
        parse_card_line(String::from("2 Fire // Ice")),
        Ok((2, String::from("Fire // Ice")))
    );
}

#[test]
fn reading_a_name_again_gives_one_copy_of_it() {
    let lines = [
        "Abbey Matron x4",
        "4x Abbey Matron",
        "  Abbey Matron ",
        "3 50 feet of rope (foil)",
        "Celebr-8000",
        "12 J\u{f6}tun Grunt",
    ];
    for line in lines {
        let (_, name) = parse_card_line(String::from(line)).unwrap();
        assert_eq!(parse_card_line(name.clone()), Ok((1, name)));
    }
}

#[test]
fn a_name_with_a_digit_is_cut_again() {
    assert_eq!(parse_card_line(String::from("1 Foo 2")), Ok((1, String::from("Foo 2"))));
    assert_eq!(parse_card_line(String::from("Foo 2")), Ok((2, String::from("Foo"))));
}
