use pdf2ptext::extract::{extract_text, page_text};
use pdf2ptext::operations::{Op, TextDecodeError, TextElement};
use pdf2ptext::scanner::text_objects;

fn draw(s: &str) -> Op {
    Op::TextDraw(s.as_bytes().to_vec())
}

#[test]
fn scanner_yields_one_object_per_complete_block() {
    let ops = vec![
        Op::BeginText,
        draw("Hi"),
        Op::EndText,
        Op::BeginText,
        draw("Hi"),
        Op::EndText,
        Op::BeginText,
        draw("Bye"),
        Op::EndText,
    ];
    let mut parser = text_objects(&ops);
    let mut texts: Vec<String> = Vec::new();
    while let Some(t) = parser.next().unwrap() {
        texts.push(t.text);
    }
    assert_eq!(texts, vec!["Hi".to_string(), "Hi".to_string(), "Bye".to_string()]);
}

#[test]
fn end_to_end_adjacent_duplicates_collapse() {
    let ops = vec![
        Op::BeginText,
        draw("Hi"),
        Op::EndText,
        Op::BeginText,
        draw("Hi"),
        Op::EndText,
        Op::BeginText,
        draw("Bye"),
        Op::EndText,
    ];
    assert_eq!(page_text(&ops).unwrap(), "HiBye");
}

#[test]
fn adjusted_draw_ignores_positioning_elements() {
    let ops = vec![
        Op::BeginText,
        Op::TextDrawAdjusted(vec![
            TextElement::Text(b"A".to_vec()),
            TextElement::Adjustment(-50),
            TextElement::Text(b"B".to_vec()),
        ]),
        Op::EndText,
    ];
    let mut parser = text_objects(&ops);
    let first = parser.next().unwrap().unwrap();
    assert_eq!(first.text, "AB");
    assert!(parser.next().unwrap().is_none());
    assert_eq!(page_text(&ops).unwrap(), "AB");
}

#[test]
fn unterminated_trailing_block_is_dropped() {
    let ops = vec![
        Op::BeginText,
        draw("Hi"),
        Op::EndText,
        Op::BeginText,
        draw("Zed"),
    ];
    let mut parser = text_objects(&ops);
    assert_eq!(parser.next().unwrap().unwrap().text, "Hi");
    assert!(parser.next().unwrap().is_none());
    assert_eq!(page_text(&ops).unwrap(), "Hi");
}

#[test]
fn empty_block_yields_empty_text_object() {
    let ops = vec![Op::BeginText, Op::EndText];
    let mut parser = text_objects(&ops);
    let t = parser.next().unwrap().unwrap();
    assert_eq!(t.text, "");
    assert!(parser.next().unwrap().is_none());
}

#[test]
fn repeated_empty_blocks_collapse_without_error() {
    let ops = vec![Op::BeginText, Op::EndText, Op::BeginText, Op::EndText];
    assert_eq!(page_text(&ops).unwrap(), "");
}

#[test]
fn other_operations_between_draws_change_nothing() {
    let with_others = vec![
        Op::BeginText,
        draw("a"),
        Op::Other,
        Op::Other,
        draw("b"),
        Op::EndText,
    ];
    let without = vec![Op::BeginText, draw("a"), draw("b"), Op::EndText];
    assert_eq!(page_text(&with_others).unwrap(), "ab");
    assert_eq!(page_text(&with_others).unwrap(), page_text(&without).unwrap());
}

#[test]
fn nested_begin_does_not_reset_accumulator() {
    let with_nested = vec![
        Op::BeginText,
        draw("a"),
        Op::BeginText,
        draw("b"),
        Op::EndText,
    ];
    let without = vec![Op::BeginText, draw("a"), draw("b"), Op::EndText];
    assert_eq!(page_text(&with_nested).unwrap(), "ab");
    assert_eq!(page_text(&with_nested).unwrap(), page_text(&without).unwrap());
}

#[test]
fn malformed_payload_fails_extraction() {
    let ops = vec![Op::BeginText, Op::TextDraw(vec![0xff]), Op::EndText];
    assert_eq!(page_text(&ops), Err(TextDecodeError));
    let mut parser = text_objects(&ops);
    assert_eq!(parser.next(), Err(TextDecodeError));
}

#[test]
fn malformed_payload_in_trailing_block_still_fails() {
    let ops = vec![
        Op::BeginText,
        draw("ok"),
        Op::EndText,
        Op::BeginText,
        Op::TextDraw(vec![0xff]),
    ];
    assert_eq!(page_text(&ops), Err(TextDecodeError));
}

#[test]
fn utf16_payload_is_decoded() {
    let ops = vec![
        Op::BeginText,
        Op::TextDraw(vec![0xfe, 0xff, 0x00, 0x48, 0x00, 0x69]),
        Op::EndText,
    ];
    assert_eq!(page_text(&ops).unwrap(), "Hi");
}

#[test]
fn document_concatenates_pages_without_cross_page_dedup() {
    let pages = vec![
        vec![Op::BeginText, draw("Hi"), Op::EndText],
        vec![Op::BeginText, draw("Hi"), Op::EndText],
    ];
    assert_eq!(extract_text(&pages).unwrap(), "HiHi");
}

#[test]
fn document_with_failing_page_reports_the_error() {
    let pages = vec![
        vec![Op::BeginText, draw("Hi"), Op::EndText],
        vec![Op::BeginText, Op::TextDraw(vec![0xff]), Op::EndText],
    ];
    assert_eq!(extract_text(&pages), Err(TextDecodeError));
}

#[test]
fn empty_document_yields_empty_text() {
    let pages: Vec<Vec<Op>> = Vec::new();
    assert_eq!(extract_text(&pages).unwrap(), "");
    let no_ops: Vec<Op> = Vec::new();
    assert_eq!(page_text(&no_ops).unwrap(), "");
}

#[test]
fn draws_outside_any_block_accumulate_until_an_end_marker() {
    let ops = vec![draw("X"), Op::BeginText, Op::EndText];
    assert_eq!(page_text(&ops).unwrap(), "X");
}
