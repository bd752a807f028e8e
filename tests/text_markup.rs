use mediumrare::text_markup::{SpanContent, TextSpan};
use mediumrare::utf16::{split_at_utf16_offset, utf16_to_byte_offset};

#[test]
fn utf16_index_one_byte_chars() {
    let input = "0123456789";
    assert_eq!(0, utf16_to_byte_offset(input, 0));
    assert_eq!(5, utf16_to_byte_offset(input, 5));
    assert_eq!(9, utf16_to_byte_offset(input, 9));
}

#[test]
fn utf16_index_mixed_byte_chars() {
    let input = "L 👋🏽 R";
    // | 0 | 1 | 2 | 3 | 4 | 5 | 6 | 7 | 8 | 9 | 0 | 1 | utf8 byte index
    // |---|---|---|---|---|---|---|---|---|---|---|---|
    // | L |   | hand wave     | skin tone     |   | R | utf8 codepoint
    // | 0 | 1 |   2   |   3   |   4   |   5   | 6 | 7 | utf16 index
    assert_eq!(0, utf16_to_byte_offset(input, 0));
    assert_eq!(1, utf16_to_byte_offset(input, 1));
    assert_eq!(2, utf16_to_byte_offset(input, 2));
    assert_eq!(6, utf16_to_byte_offset(input, 4));
    assert_eq!(10, utf16_to_byte_offset(input, 6));
    assert_eq!(11, utf16_to_byte_offset(input, 7));
}

#[test]
fn utf16_split() {
    let input = "L 👋🏽 R";
    assert_eq!(("L ", "👋🏽 R"), split_at_utf16_offset(input, 2));
    assert_eq!(("L 👋🏽", " R"), split_at_utf16_offset(input, 6));
}

#[test]
fn test_does_not_split_for_full_range() {
    let input = "0123456789";

    let mut span = TextSpan::create(input);
    let sub_span = span.get_sub_span_mut(0, 9);

    assert_eq!(SpanContent::Text(input), sub_span.unwrap().content);
}

#[test]
fn test_real_example() {
    let input = "hi 👋🏽 there\nthis is a test";

    let mut span = TextSpan::create(input);

    assert_eq!(
        SpanContent::Text("hi "),
        span.get_sub_span_mut(0, 2).unwrap().content
    );
    assert_eq!(
        SpanContent::Text("there"),
        span.get_sub_span_mut(8, 12).unwrap().content
    );
    assert_eq!(
        SpanContent::Text("test"),
        span.get_sub_span_mut(24, 27).unwrap().content
    );
}

fn leaf(start: usize, end: usize, text: &str) -> TextSpan<'_> {
    TextSpan {
        start,
        end,
        content: SpanContent::Text(text),
        wraps: vec![],
    }
}

#[test]
fn test_split_first_part() {
    let input = String::from("0123456789");

    let mut span = TextSpan::create(&input);
    let _ = span.get_sub_span_mut(0, 3);

    assert_eq!(
        TextSpan {
            start: 0,
            end: 9,
            content: SpanContent::Spans(vec![
                TextSpan {
                    start: 0,
                    end: 3,
                    content: SpanContent::Text("0123"),
                    wraps: vec![],
                },
                TextSpan {
                    start: 4,
                    end: 9,
                    content: SpanContent::Text("456789"),
                    wraps: vec![],
                },
            ]),
            wraps: vec![],
        },
        span
    );
}

#[test]
fn test_split_last_part() {
    let input = String::from("0123456789");

    let mut span = TextSpan::create(&input);
    let _ = span.get_sub_span_mut(6, 9);

    assert_eq!(
        TextSpan {
            start: 0,
            end: 9,
            content: SpanContent::Spans(vec![
                TextSpan {
                    start: 0,
                    end: 5,
                    content: SpanContent::Text("012345"),
                    wraps: vec![],
                },
                TextSpan {
                    start: 6,
                    end: 9,
                    content: SpanContent::Text("6789"),
                    wraps: vec![],
                },
            ]),
            wraps: vec![],
        },
        span
    );
}

#[test]
fn test_split_middle_part() {
    let input = String::from("0123456789");

    let mut span = TextSpan::create(&input);
    let _ = span.get_sub_span_mut(4, 6);

    assert_eq!(
        TextSpan {
            start: 0,
            end: 9,
            content: SpanContent::Spans(vec![
                TextSpan {
                    start: 0,
                    end: 3,
                    content: SpanContent::Text("0123"),
                    wraps: vec![],
                },
                TextSpan {
                    start: 4,
                    end: 6,
                    content: SpanContent::Text("456"),
                    wraps: vec![],
                },
                TextSpan {
                    start: 7,
                    end: 9,
                    content: SpanContent::Text("789"),
                    wraps: vec![],
                },
            ]),
            wraps: vec![],
        },
        span
    );
}

#[test]
fn test_split_single_char_middle() {
    let input = String::from("0123456789");

    let mut span = TextSpan::create(&input);
    let _ = span.get_sub_span_mut(5, 5);

    assert_eq!(
        TextSpan {
            start: 0,
            end: 9,
            content: SpanContent::Spans(vec![
                TextSpan {
                    start: 0,
                    end: 4,
                    content: SpanContent::Text("01234"),
                    wraps: vec![],
                },
                TextSpan {
                    start: 5,
                    end: 5,
                    content: SpanContent::Text("5"),
                    wraps: vec![],
                },
                TextSpan {
                    start: 6,
                    end: 9,
                    content: SpanContent::Text("6789"),
                    wraps: vec![],
                },
            ]),
            wraps: vec![],
        },
        span
    );
}

#[test]
fn test_split_second_layer() {
    let input = String::from("0123456789");

    let mut span = TextSpan::create(&input);
    let _ = span.get_sub_span_mut(3, 7);

    assert_eq!(
        TextSpan {
            start: 0,
            end: 9,
            content: SpanContent::Spans(vec![
                leaf(0, 2, "012"),
                leaf(3, 7, "34567"),
                leaf(8, 9, "89"),
            ]),
            wraps: vec![],
        },
        span
    );

    let _ = span.get_sub_span_mut(5, 6);

    assert_eq!(
        TextSpan {
            start: 0,
            end: 9,
            content: SpanContent::Spans(vec![
                leaf(0, 2, "012"),
                TextSpan {
                    start: 3,
                    end: 7,
                    content: SpanContent::Spans(vec![
                        leaf(3, 4, "34"),
                        leaf(5, 6, "56"),
                        leaf(7, 7, "7"),
                    ]),
                    wraps: vec![],
                },
                leaf(8, 9, "89"),
            ]),
            wraps: vec![],
        },
        span
    );
}
