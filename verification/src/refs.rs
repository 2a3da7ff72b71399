use vstd::prelude::*;
use crate::ErrView;
use crate::ParseError;
use crate::chars::chars_of;
use crate::chars::push_char;
use crate::chars::lemma_skip_sp;
use crate::chars::lemma_trim_end_at;
use crate::chars::scan_sp;
use crate::chars::skip_sp;
use crate::chars::trim_end_at;
use crate::doc::DocItem;
use crate::doc::DocItemView;
use crate::doc::Document;
use crate::doc::DocView;
use crate::doc::Quote;
use crate::doc::doc_item_view;
use crate::doc::doc_items_view;
use crate::doc::lemma_doc_items_view_from;
use crate::text::Heading;
use crate::text::Item;
use crate::text::ItemView;
use crate::text::Link;
use crate::text::LinkSource;
use crate::text::Paragraph;
use crate::text::Reference;
use crate::text::ReferenceView;
use crate::text::SourceView;

verus! {

/// The character with upper-case ASCII letters folded to lower case.
pub open spec fn lower_char(c: char) -> char {
    if 'A' <= c && c <= 'Z' {
        (((c as u8) + 32) as char)
    } else {
        c
    }
}

/// Fold one character to lower case.
pub fn lower_char_x(c: char) -> (r: char)
    ensures
        r == lower_char(c),
{
    if c >= 'A' && c <= 'Z' {
        ((c as u8) + 32) as char
    } else {
        c
    }
}

/// The text with surrounding spaces removed.
pub open spec fn spec_trim(s: Seq<char>) -> Seq<char> {
    let a = skip_sp(s, 0);
    let b = trim_end_at(s, s.len() as int);
    if a <= b {
        s.subrange(a, b)
    } else {
        Seq::empty()
    }
}

/// The text folded to lower case.
pub open spec fn spec_lower(s: Seq<char>) -> Seq<char> {
    Seq::new(s.len(), |i: int| lower_char(s[i]))
}

/// A reference name in the form the table is keyed by: surrounding spaces
/// removed, then folded to lower case (ASCII case folding).
pub open spec fn spec_normalize_name(s: Seq<char>) -> Seq<char> {
    spec_lower(spec_trim(s))
}

/// Normalizing twice is the same as normalizing once.
pub proof fn lemma_normalize_stable(s: Seq<char>)
    ensures
        spec_normalize_name(spec_normalize_name(s)) == spec_normalize_name(s),
{
    let n = spec_normalize_name(s);
    lemma_skip_sp(s, 0);
    lemma_trim_end_at(s, s.len() as int);
    assert forall|i: int| 0 <= i < n.len() implies n[i] != ' ' || !('A' <= n[i] <= 'Z') by {}
    let t = spec_trim(s);
    assert(forall|i: int| 0 <= i < n.len() ==> #[trigger] n[i] == lower_char(t[i]));
    if n.len() > 0 {
        assert(t[0] != ' ');
        assert(n[0] != ' ');
        assert(t[t.len() - 1] != ' ');
        assert(n[n.len() - 1] != ' ');
        lemma_skip_sp(n, 0);
        assert(skip_sp(n, 0) == 0);
        crate::chars::lemma_trim_end_at_unique(n, n.len() as int, n.len() as int);
        assert(spec_trim(n) =~= n);
        assert forall|i: int| 0 <= i < n.len() implies #[trigger] lower_char(n[i]) == n[i] by {
            assert(n[i] == lower_char(t[i]));
        }
        assert(spec_normalize_name(n) =~= n);
    } else {
        assert(skip_sp(n, 0) == 0);
        assert(trim_end_at(n, 0) == 0);
        assert(spec_normalize_name(n) =~= n);
    }
}

/// Law: reference resolution ignores the case of a reference name and the
/// spaces around it. Two reference-style links whose names normalize alike
/// resolve against any table to the same target, or both fail.
pub proof fn lemma_resolution_insensitive(a: Seq<char>, b: Seq<char>, t: Seq<ReferenceView>)
    requires
        spec_normalize_name(a) == spec_normalize_name(b),
    ensures
        match (spec_resolve_src(SourceView::Ref(a), t), spec_resolve_src(SourceView::Ref(b), t)) {
            (Ok(x), Ok(y)) => x == y,
            (Err(_), Err(_)) => true,
            _ => false,
        },
{
}

/// Normalize a reference name.
pub fn normalize_name(s: &str) -> (r: String)
    ensures
        r@ == spec_normalize_name(s@),
{
    let v = chars_of(s);
    let a = scan_sp(&v, 0);
    let b = crate::chars::scan_trim_end(&v);
    let mut r = String::new();
    if a >= b {
        proof {
            assert(spec_trim(s@).len() == 0);
            assert(spec_normalize_name(s@) =~= r@);
        }
        return r;
    }
    let mut i: usize = a;
    while i < b
        invariant
            a <= i <= b <= v@.len(),
            v@ == s@,
            r@ =~= spec_lower(v@.subrange(a as int, b as int)).subrange(0, i - a),
        decreases b - i,
    {
        push_char(&mut r, lower_char_x(v[i]));
        proof {
            assert(r@ =~= spec_lower(v@.subrange(a as int, b as int)).subrange(0, i + 1 - a));
        }
        i = i + 1;
    }
    proof {
        assert(r@ =~= spec_lower(v@.subrange(a as int, b as int)));
        assert(spec_trim(s@) == v@.subrange(a as int, b as int));
    }
    r
}

/// Whether the table already holds an entry under the given key.
pub open spec fn table_has(t: Seq<ReferenceView>, key: Seq<char>) -> bool {
    exists|i: int| 0 <= i < t.len() && #[trigger] t[i].name == key
}

/// The first table entry under the given key, searching from `i` on.
pub open spec fn spec_lookup(t: Seq<ReferenceView>, key: Seq<char>, i: int) -> Option<ReferenceView>
    decreases t.len() - i,
{
    if i < 0 || i >= t.len() {
        None
    } else if t[i].name == key {
        Some(t[i])
    } else {
        spec_lookup(t, key, i + 1)
    }
}

/// A lookup finds an entry exactly when the table has the key.
pub proof fn lemma_lookup_has(t: Seq<ReferenceView>, key: Seq<char>, i: int)
    requires
        0 <= i <= t.len(),
    ensures
        spec_lookup(t, key, i) is Some <==> exists|j: int|
            i <= j < t.len() && #[trigger] t[j].name == key,
        spec_lookup(t, key, i) matches Some(e) ==> e.name == key,
    decreases t.len() - i,
{
    if i < t.len() && t[i].name != key {
        lemma_lookup_has(t, key, i + 1);
    }
}

/// What one block item adds to the reference table: a definition enters
/// under its normalized name unless that key is already taken (the first
/// definition wins); a blockquote contributes its nested definitions; other
/// items add nothing.
pub open spec fn spec_table_item(it: DocItemView, acc: Seq<ReferenceView>) -> Seq<ReferenceView>
    decreases it, 0int,
{
    match it {
        DocItemView::Reference(r) => {
            let key = spec_normalize_name(r.name);
            if table_has(acc, key) {
                acc
            } else {
                acc.push(ReferenceView { name: key, title: r.title, href: r.href })
            }
        },
        DocItemView::Quote(q) => spec_table_items(q, 0, acc),
        _ => acc,
    }
}

/// The table the block items from `i` on build, starting from `acc`.
pub open spec fn spec_table_items(
    items: Seq<DocItemView>,
    i: int,
    acc: Seq<ReferenceView>,
) -> Seq<ReferenceView>
    decreases items, items.len() - i + 1,
{
    if i < 0 || i >= items.len() {
        acc
    } else {
        spec_table_items(items, i + 1, spec_table_item(items[i], acc))
    }
}

/// The reference table of a document's block items.
pub open spec fn spec_table(items: Seq<DocItemView>) -> Seq<ReferenceView> {
    spec_table_items(items, 0, Seq::empty())
}

/// Whether the table holds an entry under the given key.
fn table_has_x(t: &Vec<Reference>, key: &String) -> (r: bool)
    ensures
        r == table_has(t.deep_view(), key@),
{
    let mut i: usize = 0;
    while i < t.len()
        invariant
            i <= t@.len(),
            forall|j: int| 0 <= j < i ==> #[trigger] t.deep_view()[j].name != key@,
        decreases t@.len() - i,
    {
        if t[i].name.eq(key) {
            proof {
                assert(t.deep_view()[i as int].name == key@);
            }
            return true;
        }
        i = i + 1;
    }
    false
}

/// Find the target of the entry under the given key.
fn lookup_href(t: &Vec<Reference>, key: &String) -> (r: Option<String>)
    ensures
        match r {
            Some(h) => spec_lookup(t.deep_view(), key@, 0) matches Some(e) && e.href == h@,
            None => spec_lookup(t.deep_view(), key@, 0) is None,
        },
{
    let mut i: usize = 0;
    while i < t.len()
        invariant
            i <= t@.len(),
            spec_lookup(t.deep_view(), key@, 0) == spec_lookup(t.deep_view(), key@, i as int),
        decreases t@.len() - i,
    {
        if t[i].name.eq(key) {
            proof {
                assert(t.deep_view()[i as int].name == key@);
            }
            return Some(t[i].href.clone());
        }
        proof {
            assert(t.deep_view()[i as int].name != key@);
        }
        i = i + 1;
    }
    None
}

/// Add one block item's definitions to the table.
fn table_add_item(it: &DocItem, acc: &mut Vec<Reference>)
    ensures
        final(acc).deep_view() == spec_table_item(it@, old(acc).deep_view()),
    decreases *it, 0int,
{
    match it {
        DocItem::Reference(r) => {
            let key = normalize_name(r.name.as_str());
            if !table_has_x(acc, &key) {
                let entry = Reference { name: key, title: r.title.clone(), href: r.href.clone() };
                acc.push(entry);
                proof {
                    assert(acc.deep_view() =~= old(acc).deep_view().push(
                        ReferenceView {
                            name: spec_normalize_name(r@.name),
                            title: r@.title,
                            href: r@.href,
                        },
                    ));
                }
            }
        },
        DocItem::Quote(q) => {
            table_add_items(&q.0, acc);
        },
        _ => {},
    }
}

/// Add the definitions of the block items to the table.
fn table_add_items(v: &Vec<DocItem>, acc: &mut Vec<Reference>)
    ensures
        final(acc).deep_view() == spec_table_items(doc_items_view(*v), 0, old(acc).deep_view()),
    decreases *v, 0int,
{
    proof {
        lemma_doc_items_view_from(*v, 0);
    }
    let ghost vs = doc_items_view(*v);
    let mut i: usize = 0;
    while i < v.len()
        invariant
            i <= v@.len(),
            vs == doc_items_view(*v),
            vs.len() == v@.len(),
            forall|j: int| 0 <= j < v@.len() ==> vs[j] == doc_item_view(v@[j]),
            spec_table_items(vs, 0, old(acc).deep_view()) == spec_table_items(
                vs,
                i as int,
                acc.deep_view(),
            ),
        decreases v@.len() - i,
    {
        table_add_item(&v[i], acc);
        i = i + 1;
    }
}

/// Build the reference table of the given block items.
pub fn build_table(v: &Vec<DocItem>) -> (r: Vec<Reference>)
    ensures
        r.deep_view() == spec_table(doc_items_view(*v)),
{
    let mut acc: Vec<Reference> = Vec::new();
    proof {
        assert(acc.deep_view() =~= Seq::<ReferenceView>::empty());
    }
    table_add_items(v, &mut acc);
    acc
}

use crate::text::LinkView;
use crate::text::HeadingView;

/// What resolution does to a link source: a literal target stays; a
/// reference is replaced by the target of its definition, or fails as
/// unresolved; an unset source (possible only in an unfinished builder)
/// fails as incomplete.
pub open spec fn spec_resolve_src(src: SourceView, t: Seq<ReferenceView>) -> Result<
    SourceView,
    ErrView,
> {
    match src {
        SourceView::Url(u) => Ok(SourceView::Url(u)),
        SourceView::Ref(n) => match spec_lookup(t, spec_normalize_name(n), 0) {
            Some(e) => Ok(SourceView::Url(e.href)),
            None => Err(ErrView::UnresolvedReference(n)),
        },
        SourceView::Unset => Err(ErrView::IncompleteBuilderData),
    }
}

/// What resolution does to one inline item: only links change, and only in
/// their source.
pub open spec fn spec_resolve_item(it: ItemView, t: Seq<ReferenceView>) -> Result<
    ItemView,
    ErrView,
> {
    match it {
        ItemView::Link(l) => match spec_resolve_src(l.src, t) {
            Ok(s) => Ok(ItemView::Link(LinkView { name: l.name, src: s, img: l.img })),
            Err(e) => Err(e),
        },
        _ => Ok(it),
    }
}

/// Resolve the inline items from `i` on, failing on the first unresolved
/// link.
pub open spec fn spec_resolve_items(its: Seq<ItemView>, t: Seq<ReferenceView>, i: int) -> Result<
    Seq<ItemView>,
    ErrView,
>
    decreases its.len() - i,
{
    if i < 0 || i >= its.len() {
        Ok(Seq::empty())
    } else {
        match spec_resolve_item(its[i], t) {
            Err(e) => Err(e),
            Ok(x) => match spec_resolve_items(its, t, i + 1) {
                Err(e) => Err(e),
                Ok(rest) => Ok(seq![x] + rest),
            },
        }
    }
}

/// Resolve every link inside one block item, recursively through
/// blockquotes.
pub open spec fn spec_resolve_doc_item(it: DocItemView, t: Seq<ReferenceView>) -> Result<
    DocItemView,
    ErrView,
>
    decreases it, 0int,
{
    match it {
        DocItemView::Heading(h) => match spec_resolve_items(h.content, t, 0) {
            Ok(c) => Ok(DocItemView::Heading(HeadingView { level: h.level, content: c })),
            Err(e) => Err(e),
        },
        DocItemView::Paragraph(p) => match spec_resolve_items(p, t, 0) {
            Ok(c) => Ok(DocItemView::Paragraph(c)),
            Err(e) => Err(e),
        },
        DocItemView::Quote(q) => match spec_resolve_doc_items(q, t, 0) {
            Ok(c) => Ok(DocItemView::Quote(c)),
            Err(e) => Err(e),
        },
        _ => Ok(it),
    }
}

/// Resolve the block items from `i` on, failing on the first unresolved
/// link.
pub open spec fn spec_resolve_doc_items(
    items: Seq<DocItemView>,
    t: Seq<ReferenceView>,
    i: int,
) -> Result<Seq<DocItemView>, ErrView>
    decreases items, items.len() - i + 1,
{
    if i < 0 || i >= items.len() {
        Ok(Seq::empty())
    } else {
        match spec_resolve_doc_item(items[i], t) {
            Err(e) => Err(e),
            Ok(x) => match spec_resolve_doc_items(items, t, i + 1) {
                Err(e) => Err(e),
                Ok(rest) => Ok(seq![x] + rest),
            },
        }
    }
}

/// An equal copy of a vector of strings.
fn clone_strings(v: &Vec<String>) -> (r: Vec<String>)
    ensures
        r@ =~= v@,
        r.deep_view() =~= v.deep_view(),
{
    let mut r: Vec<String> = Vec::new();
    let mut i: usize = 0;
    while i < v.len()
        invariant
            i <= v@.len(),
            r@ =~= v@.subrange(0, i as int),
        decreases v@.len() - i,
    {
        r.push(v[i].clone());
        proof {
            assert(r@ =~= v@.subrange(0, i + 1 as int));
        }
        i = i + 1;
    }
    proof {
        assert(r@ =~= v@);
        assert forall|j: int| 0 <= j < v@.len() implies r.deep_view()[j] == v.deep_view()[j] by {
            assert(r@[j] == v@[j]);
        }
    }
    r
}

/// Resolve one inline item against the table.
fn resolve_item_x(it: &Item, t: &Vec<Reference>) -> (r: Result<Item, ParseError>)
    ensures
        match r {
            Ok(x) => spec_resolve_item(it@, t.deep_view()) == Ok::<ItemView, ErrView>(x@),
            Err(e) => spec_resolve_item(it@, t.deep_view()) == Err::<ItemView, ErrView>(e@),
        },
{
    match it {
        Item::Bold(s) => Ok(Item::Bold(s.clone())),
        Item::BoldItalic(s) => Ok(Item::BoldItalic(s.clone())),
        Item::Def(s) => Ok(Item::Def(s.clone())),
        Item::Italic(s) => Ok(Item::Italic(s.clone())),
        Item::NewLine => Ok(Item::NewLine),
        Item::Link(l) => {
            match &l.src {
                LinkSource::Url(u) => Ok(
                    Item::Link(
                        Link {
                            name: l.name.clone(),
                            src: LinkSource::Url(u.clone()),
                            img: l.img,
                        },
                    ),
                ),
                LinkSource::Ref(n) => {
                    let key = normalize_name(n.as_str());
                    match lookup_href(t, &key) {
                        Some(h) => Ok(
                            Item::Link(
                                Link {
                                    name: l.name.clone(),
                                    src: LinkSource::Url(h),
                                    img: l.img,
                                },
                            ),
                        ),
                        None => Err(ParseError::UnresolvedReference(n.clone())),
                    }
                },
                LinkSource::Unset => Err(ParseError::IncompleteBuilderData),
            }
        },
    }
}

/// Resolve a run of inline items against the table.
fn resolve_items_x(v: &Vec<Item>, t: &Vec<Reference>) -> (r: Result<Vec<Item>, ParseError>)
    ensures
        match r {
            Ok(out) => spec_resolve_items(v.deep_view(), t.deep_view(), 0) == Ok::<
                Seq<ItemView>,
                ErrView,
            >(out.deep_view()),
            Err(e) => spec_resolve_items(v.deep_view(), t.deep_view(), 0) == Err::<
                Seq<ItemView>,
                ErrView,
            >(e@),
        },
{
    let ghost vs = v.deep_view();
    let ghost tv = t.deep_view();
    let mut out: Vec<Item> = Vec::new();
    let mut i: usize = 0;
    while i < v.len()
        invariant
            i <= v@.len(),
            vs == v.deep_view(),
            tv == t.deep_view(),
            vs.len() == v@.len(),
            match spec_resolve_items(vs, tv, i as int) {
                Ok(rest) => spec_resolve_items(vs, tv, 0) == Ok::<Seq<ItemView>, ErrView>(
                    out.deep_view() + rest,
                ),
                Err(e) => spec_resolve_items(vs, tv, 0) == Err::<Seq<ItemView>, ErrView>(e),
            },
        decreases v@.len() - i,
    {
        proof {
            assert(vs[i as int] == v@[i as int]@);
        }
        match resolve_item_x(&v[i], t) {
            Ok(x) => {
                let ghost old_out = out.deep_view();
                out.push(x);
                proof {
                    assert(out.deep_view() =~= old_out.push(x@));
                    if let Ok(rest) = spec_resolve_items(vs, tv, i + 1) {
                        assert(old_out + (seq![x@] + rest) =~= old_out.push(x@) + rest);
                    }
                }
            },
            Err(e) => {
                return Err(e);
            },
        }
        i = i + 1;
    }
    proof {
        assert(out.deep_view() + Seq::<ItemView>::empty() =~= out.deep_view());
    }
    Ok(out)
}

/// Resolve one block item against the table.
fn resolve_doc_item_x(it: &DocItem, t: &Vec<Reference>) -> (r: Result<DocItem, ParseError>)
    ensures
        match r {
            Ok(x) => spec_resolve_doc_item(it@, t.deep_view()) == Ok::<DocItemView, ErrView>(x@),
            Err(e) => spec_resolve_doc_item(it@, t.deep_view()) == Err::<DocItemView, ErrView>(e@),
        },
    decreases *it, 1int,
{
    match it {
        DocItem::Heading(h) => {
            match resolve_items_x(&h.content, t) {
                Ok(c) => Ok(DocItem::Heading(Heading { level: h.level, content: c })),
                Err(e) => Err(e),
            }
        },
        DocItem::Paragraph(p) => {
            match resolve_items_x(&p.0, t) {
                Ok(c) => Ok(DocItem::Paragraph(Paragraph(c))),
                Err(e) => Err(e),
            }
        },
        DocItem::Quote(q) => {
            match resolve_doc_from_x(&q.0, 0, t) {
                Ok(c) => {
                    proof {
                        lemma_doc_items_view_from(q.0, 0);
                    }
                    Ok(DocItem::Quote(Quote(c)))
                },
                Err(e) => Err(e),
            }
        },
        DocItem::Code(c) => Ok(
            DocItem::Code(
                crate::block::Code { content: c.content.clone(), kind: c.kind.duplicate() },
            ),
        ),
        DocItem::List(l) => Ok(
            DocItem::List(crate::doc::List { items: clone_strings(&l.items), ordered: l.ordered }),
        ),
        DocItem::HorizontalRule => Ok(DocItem::HorizontalRule),
        DocItem::Reference(d) => Ok(
            DocItem::Reference(
                Reference { name: d.name.clone(), title: d.title.clone(), href: d.href.clone() },
            ),
        ),
    }
}

/// Resolve the block items from `i` on against the table.
fn resolve_doc_from_x(v: &Vec<DocItem>, i: usize, t: &Vec<Reference>) -> (r: Result<
    Vec<DocItem>,
    ParseError,
>)
    requires
        i <= v@.len(),
    ensures
        match r {
            Ok(out) => spec_resolve_doc_items(doc_items_view(*v), t.deep_view(), i as int) == Ok::<
                Seq<DocItemView>,
                ErrView,
            >(doc_items_view(out)),
            Err(e) => spec_resolve_doc_items(doc_items_view(*v), t.deep_view(), i as int) == Err::<
                Seq<DocItemView>,
                ErrView,
            >(e@),
        },
    decreases *v, v@.len() - i + 1,
{
    proof {
        lemma_doc_items_view_from(*v, 0);
    }
    if i >= v.len() {
        let out: Vec<DocItem> = Vec::new();
        proof {
            lemma_doc_items_view_from(out, 0);
            assert(doc_items_view(out) =~= Seq::<DocItemView>::empty());
        }
        return Ok(out);
    }
    match resolve_doc_item_x(&v[i], t) {
        Err(e) => Err(e),
        Ok(head) => {
            match resolve_doc_from_x(v, i + 1, t) {
                Err(e) => Err(e),
                Ok(rest) => {
                    proof {
                        lemma_doc_items_view_from(rest, 0);
                    }
                    let ghost rest_seq = rest@;
                    let ghost rest_views = doc_items_view(rest);
                    let ghost head_view = head@;
                    let mut out = rest;
                    out.insert(0, head);
                    proof {
                        lemma_doc_items_view_from(out, 0);
                        assert(out@ =~= seq![out@[0]] + rest_seq);
                        assert(doc_items_view(out).len() == rest_views.len() + 1);
                        assert forall|j: int| 0 <= j < out@.len() implies doc_items_view(out)[j]
                            == (seq![head_view] + rest_views)[j] by {
                            if j == 0 {
                                assert(doc_item_view(out@[0]) == head_view);
                            } else {
                                assert(out@[j] == rest_seq[j - 1]);
                                assert(rest_views[j - 1] == doc_item_view(rest_seq[j - 1]));
                            }
                        }
                        assert(doc_items_view(out) =~= seq![head_view] + rest_views);
                        assert(doc_items_view(*v)[i as int] == v@[i as int]@);
                    }
                    Ok(out)
                },
            }
        },
    }
}

/// What assembly yields: the reference table of the items, and the items
/// with every link resolved against it, or the first resolution error.
pub open spec fn spec_assemble(name: Seq<char>, items: Seq<DocItemView>) -> Result<
    DocView,
    ErrView,
> {
    let t = spec_table(items);
    match spec_resolve_doc_items(items, t, 0) {
        Ok(c) => Ok(DocView { name, content: c, references: t }),
        Err(e) => Err(e),
    }
}

/// Combine segmented block items into a finished document: build the
/// reference table, then substitute every reference-style link target.
pub fn assemble(name: String, items: Vec<DocItem>) -> (r: Result<Document, ParseError>)
    ensures
        match r {
            Ok(d) => spec_assemble(name@, doc_items_view(items)) == Ok::<DocView, ErrView>(d@),
            Err(e) => spec_assemble(name@, doc_items_view(items)) == Err::<DocView, ErrView>(e@),
        },
{
    let table = build_table(&items);
    match resolve_doc_from_x(&items, 0, &table) {
        Ok(content) => Ok(Document { name, content, references: table }),
        Err(e) => Err(e),
    }
}


/// A successfully resolved link source is a literal target.
proof fn lemma_resolve_src_literal(src: SourceView, t: Seq<ReferenceView>)
    ensures
        spec_resolve_src(src, t) matches Ok(s) ==> s is Url,
{
}

/// Successfully resolved inline items all carry literal link targets.
proof fn lemma_resolve_items_literal(its: Seq<ItemView>, t: Seq<ReferenceView>, i: int)
    requires
        0 <= i <= its.len(),
    ensures
        spec_resolve_items(its, t, i) matches Ok(out) ==> forall|k: int|
            0 <= k < out.len() ==> link_literal(#[trigger] out[k]),
    decreases its.len() - i,
{
    if i < its.len() {
        lemma_resolve_items_literal(its, t, i + 1);
        if let Ok(x) = spec_resolve_item(its[i], t) {
            if let Ok(rest) = spec_resolve_items(its, t, i + 1) {
                assert forall|k: int| 0 <= k < (seq![x] + rest).len() implies link_literal(
                    #[trigger] (seq![x] + rest)[k],
                ) by {
                    if k == 0 {
                        lemma_resolve_src_literal(
                            match its[i] {
                                ItemView::Link(l) => l.src,
                                _ => SourceView::Unset,
                            },
                            t,
                        );
                    } else {
                        assert((seq![x] + rest)[k] == rest[k - 1]);
                    }
                }
            }
        }
    }
}

/// Whether an inline item's link target, if it is a link, is literal.
pub open spec fn link_literal(it: ItemView) -> bool {
    match it {
        ItemView::Link(l) => l.src is Url,
        _ => true,
    }
}

/// Whether every link anywhere in a block item has a literal target,
/// recursively through blockquotes.
pub open spec fn links_literal_item(it: DocItemView) -> bool
    decreases it, 0int,
{
    match it {
        DocItemView::Heading(h) => forall|k: int|
            0 <= k < h.content.len() ==> link_literal(#[trigger] h.content[k]),
        DocItemView::Paragraph(p) => forall|k: int|
            0 <= k < p.len() ==> link_literal(#[trigger] p[k]),
        DocItemView::Quote(q) => links_literal_items(q, 0),
        _ => true,
    }
}

/// Whether every link in the block items from `i` on has a literal target.
pub open spec fn links_literal_items(items: Seq<DocItemView>, i: int) -> bool
    decreases items, items.len() - i + 1,
{
    if i < 0 || i >= items.len() {
        true
    } else {
        links_literal_item(items[i]) && links_literal_items(items, i + 1)
    }
}

/// Successfully resolved block items all carry literal link targets.
proof fn lemma_resolve_doc_items_literal(items: Seq<DocItemView>, t: Seq<ReferenceView>, i: int)
    requires
        0 <= i <= items.len(),
    ensures
        spec_resolve_doc_items(items, t, i) matches Ok(out) ==> links_literal_items(out, 0),
    decreases items, items.len() - i + 1, 1int,
{
    if i < items.len() {
        lemma_resolve_doc_item_literal(items[i], t);
        lemma_resolve_doc_items_literal(items, t, i + 1);
        if let Ok(x) = spec_resolve_doc_item(items[i], t) {
            if let Ok(rest) = spec_resolve_doc_items(items, t, i + 1) {
                lemma_links_literal_cons(x, rest);
            }
        }
    }
}

/// One successfully resolved block item carries literal link targets.
proof fn lemma_resolve_doc_item_literal(it: DocItemView, t: Seq<ReferenceView>)
    ensures
        spec_resolve_doc_item(it, t) matches Ok(out) ==> links_literal_item(out),
    decreases it, 0int, 1int,
{
    match it {
        DocItemView::Heading(h) => {
            lemma_resolve_items_literal(h.content, t, 0);
        },
        DocItemView::Paragraph(p) => {
            lemma_resolve_items_literal(p, t, 0);
        },
        DocItemView::Quote(q) => {
            lemma_resolve_doc_items_literal(q, t, 0);
        },
        _ => {},
    }
}

/// Literal-target items stay literal when one is put in front.
proof fn lemma_links_literal_cons(x: DocItemView, rest: Seq<DocItemView>)
    requires
        links_literal_item(x),
        links_literal_items(rest, 0),
    ensures
        links_literal_items(seq![x] + rest, 0),
    decreases rest.len(),
{
    assert((seq![x] + rest).subrange(1, (seq![x] + rest).len() as int) =~= rest);
    lemma_links_literal_shift(seq![x] + rest, 1);
    assert((seq![x] + rest)[0] == x);
}

/// The tail reading of the literal-links predicate matches dropping.
proof fn lemma_links_literal_shift(items: Seq<DocItemView>, i: int)
    requires
        1 <= i <= items.len(),
        links_literal_items(items.subrange(1, items.len() as int), i - 1),
    ensures
        links_literal_items(items, i),
    decreases items.len() - i,
{
    if i < items.len() {
        assert(items.subrange(1, items.len() as int)[i - 1] == items[i]);
        lemma_links_literal_shift(items, i + 1);
    }
}

/// Law: a finished document holds no dangling or unset link target. Whenever
/// assembly succeeds, every link anywhere in the document's content carries
/// a literal target: reference-style targets have all been substituted.
pub proof fn lemma_assembled_links_literal(name: Seq<char>, items: Seq<DocItemView>)
    ensures
        spec_assemble(name, items) matches Ok(d) ==> links_literal_items(d.content, 0),
{
    lemma_resolve_doc_items_literal(items, spec_table(items), 0);
}

} // verus!
