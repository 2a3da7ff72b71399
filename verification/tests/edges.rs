use mdtree::doc::DocItem;
use mdtree::parse;
use mdtree::render;
use mdtree::text::Item;
use mdtree::ParseError;

#[test]
fn bang_without_bracket_is_plain_text() {
    let d = parse("a!b").unwrap();
    match &d.content[0] {
        DocItem::Paragraph(p) => assert_eq!(p.0, vec![Item::Def(String::from("a!b"))]),
        other => panic!("expected a paragraph, got {:?}", other),
    }
}

#[test]
fn doubled_backslashes_are_literal() {
    let d = parse("a\\\\\nb").unwrap();
    match &d.content[0] {
        DocItem::Paragraph(p) => {
            assert_eq!(p.0, vec![
                Item::Def(String::from("a\\\\")),
                Item::NewLine,
                Item::Def(String::from("b"))
            ]);
        }
        other => panic!("expected a paragraph, got {:?}", other),
    }
}

#[test]
fn marker_kinds_split_lists() {
    let d = parse("- a\n1. b").unwrap();
    assert_eq!(d.content.len(), 2);
    match (&d.content[0], &d.content[1]) {
        (DocItem::List(a), DocItem::List(b)) => {
            assert!(!a.ordered);
            assert!(b.ordered);
        }
        other => panic!("expected two lists, got {:?}", other),
    }
}

#[test]
fn quote_ends_at_blank_line() {
    let d = parse("> a\n\nb").unwrap();
    assert_eq!(d.content.len(), 2);
    assert!(matches!(d.content[0], DocItem::Quote(_)));
    assert!(matches!(d.content[1], DocItem::Paragraph(_)));
}

#[test]
fn paragraph_stops_before_a_heading() {
    let d = parse("text\n# head").unwrap();
    assert_eq!(d.content.len(), 2);
    assert!(matches!(d.content[0], DocItem::Paragraph(_)));
    assert!(matches!(d.content[1], DocItem::Heading(_)));
}

#[test]
fn code_with_trailing_text_on_the_fence_line_is_rejected() {
    assert_eq!(parse("``x`` y"), Err(ParseError::UnexpectedChar(' ', 5)));
}

#[test]
fn definition_round_trip_keeps_the_title() {
    let text = "[a]: <http://example.com/x>(Title)";
    let d1 = parse(text).unwrap();
    let r = render(&d1);
    let d2 = parse(&r).unwrap();
    assert_eq!(d1, d2);
}

#[test]
fn mid_word_backticks_are_plain_text() {
    let d = parse("say `hi` now").unwrap();
    match &d.content[0] {
        DocItem::Paragraph(p) => {
            assert_eq!(p.0, vec![Item::Def(String::from("say `hi` now"))]);
        }
        other => panic!("expected a paragraph, got {:?}", other),
    }
}

#[test]
fn reference_style_link_round_trips_with_its_definition() {
    let text = "[x]: <http://example.com/a>\n\nsee [docs][x]";
    let d1 = parse(text).unwrap();
    let r = render(&d1);
    let d2 = parse(&r).unwrap();
    assert_eq!(d1, d2);
}
