use mdtree::block::CodeKind;
use mdtree::doc::DocItem;
use mdtree::parse;
use mdtree::render;
use mdtree::text::Item;
use mdtree::text::LinkSource;
use mdtree::ParseError;

#[test]
fn empty_fences_are_empty_content() {
    assert_eq!(parse("``````"), Err(ParseError::EmptyContent));
}

#[test]
fn double_backtick_span() {
    let d = parse("``hello world``").unwrap();
    assert_eq!(d.content.len(), 1);
    match &d.content[0] {
        DocItem::Code(c) => {
            assert_eq!(c.content.as_str(), "hello world");
            assert_eq!(c.kind, CodeKind::Plain(2));
            assert!(!c.is_block());
        }
        other => panic!("expected a code item, got {:?}", other),
    }
}

#[test]
fn seven_markers_clamp_to_level_six() {
    let d = parse("####### Title").unwrap();
    match &d.content[0] {
        DocItem::Heading(h) => {
            assert_eq!(h.level.num(), 6);
            assert_eq!(h.content, vec![Item::Def(String::from("Title"))]);
        }
        other => panic!("expected a heading, got {:?}", other),
    }
}

#[test]
fn missing_reference_is_reported_by_name() {
    assert_eq!(
        parse("[text][missing]"),
        Err(ParseError::UnresolvedReference(String::from("missing")))
    );
}

#[test]
fn one_asterisk_is_italic() {
    let d = parse("*a*").unwrap();
    match &d.content[0] {
        DocItem::Paragraph(p) => assert_eq!(p.0, vec![Item::Italic(String::from("a"))]),
        other => panic!("expected a paragraph, got {:?}", other),
    }
}

#[test]
fn two_asterisks_are_bold() {
    let d = parse("**a**").unwrap();
    match &d.content[0] {
        DocItem::Paragraph(p) => assert_eq!(p.0, vec![Item::Bold(String::from("a"))]),
        other => panic!("expected a paragraph, got {:?}", other),
    }
}

#[test]
fn three_asterisks_are_bold_italic() {
    let d = parse("***a***").unwrap();
    match &d.content[0] {
        DocItem::Paragraph(p) => assert_eq!(p.0, vec![Item::BoldItalic(String::from("a"))]),
        other => panic!("expected a paragraph, got {:?}", other),
    }
}

#[test]
fn four_asterisks_wrap_back_to_bold() {
    let d = parse("****a****").unwrap();
    match &d.content[0] {
        DocItem::Paragraph(p) => assert_eq!(p.0, vec![Item::Bold(String::from("a"))]),
        other => panic!("expected a paragraph, got {:?}", other),
    }
}

#[test]
fn unterminated_fence_is_unexpected_end() {
    assert_eq!(parse("```abc"), Err(ParseError::UnexpectedEnd));
}

#[test]
fn reference_names_ignore_case_and_spaces() {
    let upper = parse("[x]: <http://example.com>\n\n[t][X]").unwrap();
    let spaced = parse("[x]: <http://example.com>\n\n[t][ x ]").unwrap();
    let target_of = |d: &mdtree::doc::Document| -> String {
        match &d.content[1] {
            DocItem::Paragraph(p) => match &p.0[0] {
                Item::Link(l) => match &l.src {
                    LinkSource::Url(u) => u.clone(),
                    other => panic!("expected a literal target, got {:?}", other),
                },
                other => panic!("expected a link, got {:?}", other),
            },
            other => panic!("expected a paragraph, got {:?}", other),
        }
    };
    let a = target_of(&upper);
    let b = target_of(&spaced);
    assert_eq!(a, b);
    assert!(a.starts_with("http://example.com"));
}

#[test]
fn empty_input_is_empty_document() {
    assert_eq!(parse(""), Err(ParseError::EmptyDocument));
    assert_eq!(parse("  \n \n"), Err(ParseError::EmptyDocument));
}

#[test]
fn stray_closing_bracket_is_unexpected_char() {
    assert_eq!(parse("]x"), Err(ParseError::UnexpectedChar(']', 0)));
}

#[test]
fn empty_link_name_is_incomplete_builder_data() {
    assert_eq!(parse("[](http://example.com)"), Err(ParseError::IncompleteBuilderData));
}

#[test]
fn empty_heading_is_incomplete_builder_data() {
    assert_eq!(parse("#"), Err(ParseError::IncompleteBuilderData));
}

#[test]
fn unclosed_emphasis_is_unexpected_end() {
    assert_eq!(parse("*a"), Err(ParseError::UnexpectedEnd));
}

#[test]
fn fenced_block_with_language_tag() {
    let d = parse("```rust\nfn x() {}\n```").unwrap();
    match &d.content[0] {
        DocItem::Code(c) => {
            assert_eq!(c.kind, CodeKind::Rust(3));
            assert_eq!(c.content.as_str(), "\nfn x() {}\n");
            assert!(c.is_block());
        }
        other => panic!("expected a code item, got {:?}", other),
    }
}

#[test]
fn unknown_language_tag_is_kept_verbatim() {
    let d = parse("```zig\ncode\n```").unwrap();
    match &d.content[0] {
        DocItem::Code(c) => {
            assert_eq!(c.kind, CodeKind::Unknown(String::from("zig"), 3));
        }
        other => panic!("expected a code item, got {:?}", other),
    }
}

#[test]
fn rule_line_is_horizontal_rule() {
    let d = parse("---").unwrap();
    assert_eq!(d.content, vec![DocItem::HorizontalRule]);
    let d2 = parse("*****").unwrap();
    assert_eq!(d2.content, vec![DocItem::HorizontalRule]);
}

#[test]
fn bullet_lines_collect_into_a_list() {
    let d = parse("- one\n- two\n- three").unwrap();
    match &d.content[0] {
        DocItem::List(l) => {
            assert!(!l.ordered);
            assert_eq!(l.items, vec![
                String::from("one"),
                String::from("two"),
                String::from("three")
            ]);
        }
        other => panic!("expected a list, got {:?}", other),
    }
}

#[test]
fn ordinal_lines_collect_into_an_ordered_list() {
    let d = parse("1. one\n2. two").unwrap();
    match &d.content[0] {
        DocItem::List(l) => {
            assert!(l.ordered);
            assert_eq!(l.items, vec![String::from("one"), String::from("two")]);
        }
        other => panic!("expected a list, got {:?}", other),
    }
}

#[test]
fn quote_lines_nest_recursively() {
    let d = parse("> # Top\n>> nested").unwrap();
    match &d.content[0] {
        DocItem::Quote(q) => {
            assert_eq!(q.0.len(), 2);
            assert!(matches!(q.0[0], DocItem::Heading(_)));
            match &q.0[1] {
                DocItem::Quote(inner) => {
                    assert!(matches!(inner.0[0], DocItem::Paragraph(_)));
                }
                other => panic!("expected a nested quote, got {:?}", other),
            }
        }
        other => panic!("expected a quote, got {:?}", other),
    }
}

#[test]
fn deep_quote_nesting_parses() {
    let mut text = String::new();
    for _ in 0..1000 {
        text.push('>');
    }
    text.push('x');
    let d = parse(&text).unwrap();
    assert_eq!(d.content.len(), 1);
}

#[test]
fn direct_link_and_image() {
    let d = parse("see [here](http://example.com/a) and ![pic](http://example.com/b.png)")
        .unwrap();
    match &d.content[0] {
        DocItem::Paragraph(p) => {
            assert_eq!(p.0.len(), 4);
            match &p.0[1] {
                Item::Link(l) => {
                    assert_eq!(l.name.as_str(), "here");
                    assert!(!l.img);
                    assert_eq!(l.src, LinkSource::Url(String::from("http://example.com/a")));
                }
                other => panic!("expected a link, got {:?}", other),
            }
            match &p.0[3] {
                Item::Link(l) => {
                    assert_eq!(l.name.as_str(), "pic");
                    assert!(l.img);
                }
                other => panic!("expected an image, got {:?}", other),
            }
        }
        other => panic!("expected a paragraph, got {:?}", other),
    }
}

#[test]
fn empty_reference_name_uses_display_name() {
    let d = parse("[x]: <http://example.com>\n\n[x][]").unwrap();
    match &d.content[1] {
        DocItem::Paragraph(p) => match &p.0[0] {
            Item::Link(l) => assert!(matches!(l.src, LinkSource::Url(_))),
            other => panic!("expected a link, got {:?}", other),
        },
        other => panic!("expected a paragraph, got {:?}", other),
    }
}

#[test]
fn continuation_backslash_joins_lines() {
    let d = parse("one\\\ntwo").unwrap();
    match &d.content[0] {
        DocItem::Paragraph(p) => {
            assert_eq!(p.0, vec![Item::Def(String::from("one two"))]);
        }
        other => panic!("expected a paragraph, got {:?}", other),
    }
}

#[test]
fn definition_with_title_is_kept() {
    let d = parse("[docs]: <http://example.com/d>(The Docs)").unwrap();
    match &d.content[0] {
        DocItem::Reference(r) => {
            assert_eq!(r.name.as_str(), "docs");
            assert_eq!(r.title.as_str(), "The Docs");
            assert_eq!(r.href.as_str(), "http://example.com/d");
        }
        other => panic!("expected a definition, got {:?}", other),
    }
    assert_eq!(d.references.len(), 1);
    assert_eq!(d.references[0].name.as_str(), "docs");
}

#[test]
fn first_definition_wins() {
    let d = parse("[x]: <http://example.com/first>\n\n[X]: <http://example.com/second>\n\n[t][x]")
        .unwrap();
    assert_eq!(d.references.len(), 1);
    assert_eq!(d.references[0].href.as_str(), "http://example.com/first");
}

#[test]
fn invalid_target_text_is_kept_verbatim() {
    let d = parse("[a](not a url)").unwrap();
    match &d.content[0] {
        DocItem::Paragraph(p) => match &p.0[0] {
            Item::Link(l) => {
                assert_eq!(l.src, LinkSource::Url(String::from("not a url")));
            }
            other => panic!("expected a link, got {:?}", other),
        },
        other => panic!("expected a paragraph, got {:?}", other),
    }
}

#[test]
fn render_is_stable_under_reparse() {
    let inputs = [
        "# Title\n\nhello *world* **loud** ***both***",
        "``hello world``",
        "```rust\nfn x() {}\n```",
        "> # Top\n>> nested *deep*",
        "- one\n- two\n\n1. first\n2. second",
        "---",
        "[x]: <http://example.com>\n\n[t][X] and [u](http://example.com/u)",
        "a paragraph\nover two lines",
        "![img](http://example.com/i.png)",
        "one\\\ntwo",
    ];
    for text in inputs {
        let d1 = parse(text).unwrap_or_else(|e| panic!("{} failed: {:?}", text, e));
        let r1 = render(&d1);
        let d2 = parse(&r1).unwrap_or_else(|e| panic!("{} re-parse failed: {:?}", r1, e));
        assert_eq!(d1, d2, "round trip differs for {}", text);
        let r2 = render(&d2);
        assert_eq!(r1, r2, "rendering differs for {}", text);
    }
}

#[test]
fn render_heading_is_canonical() {
    let d = parse("##Tight").unwrap();
    assert_eq!(render(&d), "## Tight");
}

#[test]
fn mismatched_emphasis_steps_the_ladder() {
    let d = parse("*a**b**").unwrap();
    match &d.content[0] {
        DocItem::Paragraph(p) => assert_eq!(p.0, vec![Item::Bold(String::from("ab"))]),
        other => panic!("expected a paragraph, got {:?}", other),
    }
}
