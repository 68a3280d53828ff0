use knapsack::parse::{parse, ParseError};

fn bytes(text: &str) -> Vec<u8> {
    text.as_bytes().to_vec()
}

#[test]
fn parses_a_plain_instance() {
    let input = bytes("3 50\n60 10\n100 20\n120 30\n");
    let (capacity, items) = parse(&input).unwrap();
    assert_eq!(capacity, 50);
    assert_eq!(items.len(), 3);
    for (k, it) in items.iter().enumerate() {
        assert_eq!(it.index, k);
    }
    assert_eq!((items[0].value, items[0].weight), (60, 10));
    assert_eq!((items[1].value, items[1].weight), (100, 20));
    assert_eq!((items[2].value, items[2].weight), (120, 30));
}

#[test]
fn parses_without_trailing_newline_and_with_extra_blanks() {
    let input = bytes("2 9\n 4  3 \n\t5\t6");
    let (capacity, items) = parse(&input).unwrap();
    assert_eq!(capacity, 9);
    assert_eq!(items.len(), 2);
    assert_eq!((items[0].value, items[0].weight), (4, 3));
    assert_eq!((items[1].value, items[1].weight), (5, 6));
}

#[test]
fn parses_carriage_return_line_endings() {
    let input = bytes("1 7\r\n3 2\r\n");
    let (capacity, items) = parse(&input).unwrap();
    assert_eq!(capacity, 7);
    assert_eq!(items.len(), 1);
    assert_eq!((items[0].value, items[0].weight), (3, 2));
}

#[test]
fn extra_tokens_on_a_line_are_ignored_but_must_be_numbers() {
    let input = bytes("2 9 777\n4 3 1 2\n5 6\n");
    let (capacity, items) = parse(&input).unwrap();
    assert_eq!(capacity, 9);
    assert_eq!(items.len(), 2);
    assert_eq!((items[0].value, items[0].weight), (4, 3));

    let bad = bytes("2 9\n4 3 x\n5 6\n");
    assert_eq!(parse(&bad), Err(ParseError::InvalidNumber(2)));
}

#[test]
fn empty_input_has_no_header() {
    assert_eq!(parse(&bytes("")), Err(ParseError::MissingHeader));
}

#[test]
fn short_lines_are_rejected_with_their_line_number() {
    assert_eq!(parse(&bytes("3\n1 2\n")), Err(ParseError::MissingField(1)));
    assert_eq!(parse(&bytes("1 5\n7\n")), Err(ParseError::MissingField(2)));
    // a blank line in item position has no tokens at all
    assert_eq!(parse(&bytes("1 5\n7 3\n\n1 1\n")), Err(ParseError::MissingField(3)));
}

#[test]
fn non_numeric_tokens_are_rejected_with_their_line_number() {
    assert_eq!(parse(&bytes("a 5\n")), Err(ParseError::InvalidNumber(1)));
    assert_eq!(parse(&bytes("1 5\n3 -2\n")), Err(ParseError::InvalidNumber(2)));
    assert_eq!(parse(&bytes("1 5\n3 2\n4 2x\n")), Err(ParseError::InvalidNumber(3)));
}

#[test]
fn numbers_beyond_the_machine_word_are_rejected() {
    let huge = "123456789012345678901234567890";
    assert_eq!(
        parse(&bytes(&format!("1 {}\n1 1\n", huge))),
        Err(ParseError::Overflow(1))
    );
    assert_eq!(
        parse(&bytes(&format!("1 5\n{} 1\n", huge))),
        Err(ParseError::Overflow(2))
    );
    // the largest machine word itself is accepted
    let max = usize::MAX.to_string();
    let (capacity, items) = parse(&bytes(&format!("1 {}\n4 3\n", max))).unwrap();
    assert_eq!(capacity, usize::MAX);
    assert_eq!(items.len(), 1);
}

#[test]
fn declared_count_is_not_enforced() {
    // the header's first number is read but never checked against the
    // number of item lines that follow
    let (capacity, items) = parse(&bytes("9 5\n1 1\n")).unwrap();
    assert_eq!(capacity, 5);
    assert_eq!(items.len(), 1);
}
