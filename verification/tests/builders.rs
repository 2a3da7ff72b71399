use mdtree::block::Code;
use mdtree::block::CodeBuilder;
use mdtree::block::CodeKind;
use mdtree::builders::HeadingBuilder;
use mdtree::builders::ItemBuilder;
use mdtree::builders::LinkBuilder;
use mdtree::builders::ReferenceBuilder;
use mdtree::text::HeadingLvl;
use mdtree::text::Item;
use mdtree::text::LinkSource;
use mdtree::BuildError;
use mdtree::Builder;

#[test]
fn code_builder_requires_a_kind() {
    let missing = CodeBuilder::default().content("x").build();
    assert_eq!(missing, Err(BuildError::IncompleteData));
    let ok = CodeBuilder::default().content("x").kind(CodeKind::Rust(3)).build();
    assert_eq!(ok, Ok(Code { content: String::from("x"), kind: CodeKind::Rust(3) }));
}

#[test]
fn code_kind_widening_keeps_the_tag() {
    let k = CodeKind::Lua(2).increase_indent(3);
    assert_eq!(k, CodeKind::Lua(5));
    assert_eq!(k.get_index(), 5);
    let u = CodeKind::Unknown(String::from("zig"), 1).increase_indent(1);
    assert_eq!(u, CodeKind::Unknown(String::from("zig"), 2));
}

#[test]
fn heading_levels_saturate() {
    let mut l = HeadingLvl::Level5;
    l = l.increment();
    assert_eq!(l, HeadingLvl::Level6);
    l = l.increment();
    assert_eq!(l, HeadingLvl::Level6);
    let mut d = HeadingLvl::Level2;
    d = d.decrement();
    assert_eq!(d, HeadingLvl::Level1);
    d = d.decrement();
    assert_eq!(d, HeadingLvl::Level1);
}

#[test]
fn item_builder_toggles_walk_the_ladder() {
    let b = ItemBuilder::default().content(String::from("t"));
    assert_eq!(b.clone().italic().build(), Ok(Item::Italic(String::from("t"))));
    assert_eq!(b.clone().bold().build(), Ok(Item::Bold(String::from("t"))));
    assert_eq!(b.clone().bold().italic().build(), Ok(Item::BoldItalic(String::from("t"))));
    assert_eq!(b.clone().bold().bold().build(), Ok(Item::Def(String::from("t"))));
    assert_eq!(ItemBuilder::default().build(), Err(BuildError::IncompleteData));
}

#[test]
fn link_builder_requires_a_nonempty_name() {
    let missing = LinkBuilder::default().href(String::from("http://example.com/")).build();
    assert_eq!(missing, Err(BuildError::IncompleteData));
    let l = LinkBuilder::default()
        .name(String::from("n"))
        .href(String::from("http://example.com/"))
        .make_img()
        .build()
        .unwrap();
    assert_eq!(l.name.as_str(), "n");
    assert!(l.img);
    assert_eq!(l.src, LinkSource::Url(String::from("http://example.com/")));
}

#[test]
fn link_builder_name_grows_in_place() {
    let mut b = LinkBuilder::default();
    b.name_push('a');
    b.name_push_str("bc");
    let l = b.href(String::from("u")).build().unwrap();
    assert_eq!(l.name.as_str(), "abc");
}

#[test]
fn reference_builder_requires_name_and_target() {
    let no_target = ReferenceBuilder::default().name("x").build();
    assert_eq!(no_target, Err(BuildError::IncompleteData));
    let no_name = ReferenceBuilder::default().href(String::from("u")).build();
    assert_eq!(no_name, Err(BuildError::IncompleteData));
    let r = ReferenceBuilder::default().name("x").title("T").href(String::from("u")).build()
        .unwrap();
    assert_eq!(r.name.as_str(), "x");
    assert_eq!(r.title.as_str(), "T");
    assert_eq!(r.href.as_str(), "u");
}

#[test]
fn heading_builder_requires_content() {
    let empty = HeadingBuilder::default().level(HeadingLvl::Level3).build();
    assert_eq!(empty, Err(BuildError::IncompleteData));
    let h = HeadingBuilder::default()
        .level(HeadingLvl::Level3)
        .content(vec![Item::Def(String::from("t"))])
        .build()
        .unwrap();
    assert_eq!(h.level, HeadingLvl::Level3);
}

#[test]
fn asterick_steps_emphasis_spans() {
    let mut it = Item::Italic(String::from("a"));
    it.asterick();
    assert_eq!(it, Item::Bold(String::from("a")));
    it.asterick();
    assert_eq!(it, Item::BoldItalic(String::from("a")));
    it.asterick();
    assert_eq!(it, Item::Bold(String::from("a")));
    assert_eq!(
        Item::BoldItalic(String::from("b")).asterick_cons(),
        Item::Bold(String::from("b"))
    );
    let nl = Item::NewLine;
    assert_eq!(nl.asterick_cons(), Item::NewLine);
}

#[test]
fn is_empty_flags_hollow_emphasis() {
    assert!(Item::Italic(String::new()).is_empty());
    assert!(!Item::Bold(String::from("x")).is_empty());
    assert!(!Item::Def(String::new()).is_empty());
}
