use vstd::prelude::*;
use crate::block::Code;
use crate::block::CodeView;
use crate::text::Heading;
use crate::text::HeadingView;
use crate::text::ItemView;
use crate::text::Paragraph;
use crate::text::Reference;
use crate::text::ReferenceView;

verus! {

/// A blockquote: a nested run of block items.
#[derive(Debug, PartialEq, Eq)]
pub struct Quote(pub Vec<DocItem>);

/// A list: the text of each item, and whether the marker is ordinal
/// (numbered) rather than a bullet. The marker kind is recorded once for the
/// whole list.
#[derive(Debug, Clone, PartialEq, Eq)]
pub struct List {
    pub items: Vec<String>,
    pub ordered: bool,
}

/// One structural unit of a document.
#[derive(Debug, PartialEq, Eq)]
pub enum DocItem {
    Heading(Heading),
    Paragraph(Paragraph),
    Code(Code),
    Quote(Quote),
    List(List),
    HorizontalRule,
    Reference(Reference),
}

/// The mathematical value of a `DocItem`.
pub enum DocItemView {
    Heading(HeadingView),
    Paragraph(Seq<ItemView>),
    Code(CodeView),
    Quote(Seq<DocItemView>),
    List(Seq<Seq<char>>, bool),
    HorizontalRule,
    Reference(ReferenceView),
}

/// The mathematical value of one block item.
pub open spec fn doc_item_view(it: DocItem) -> DocItemView
    decreases it, 0int,
{
    match it {
        DocItem::Heading(h) => DocItemView::Heading(h@),
        DocItem::Paragraph(p) => DocItemView::Paragraph(p@),
        DocItem::Code(c) => DocItemView::Code(c@),
        DocItem::Quote(q) => DocItemView::Quote(doc_items_view_from(q.0, 0)),
        DocItem::List(l) => DocItemView::List(l.items.deep_view(), l.ordered),
        DocItem::HorizontalRule => DocItemView::HorizontalRule,
        DocItem::Reference(r) => DocItemView::Reference(r@),
    }
}

/// The mathematical values of the block items from index `i` on.
pub open spec fn doc_items_view_from(v: Vec<DocItem>, i: int) -> Seq<DocItemView>
    decreases v, v@.len() - i + 1,
{
    if i < 0 || i >= v@.len() {
        Seq::empty()
    } else {
        seq![doc_item_view(v@[i])] + doc_items_view_from(v, i + 1)
    }
}

/// The mathematical values of a vector of block items.
pub open spec fn doc_items_view(v: Vec<DocItem>) -> Seq<DocItemView> {
    doc_items_view_from(v, 0)
}

impl View for DocItem {
    type V = DocItemView;

    open spec fn view(&self) -> DocItemView {
        doc_item_view(*self)
    }
}

impl DeepView for DocItem {
    type V = DocItemView;

    open spec fn deep_view(&self) -> DocItemView {
        doc_item_view(*self)
    }
}

/// The view of the items from `i` on is the items' views, one each.
pub proof fn lemma_doc_items_view_from(v: Vec<DocItem>, i: int)
    requires
        0 <= i <= v@.len(),
    ensures
        doc_items_view_from(v, i).len() == v@.len() - i,
        forall|j: int|
            i <= j < v@.len() ==> doc_items_view_from(v, i)[j - i] == doc_item_view(v@[j]),
    decreases v@.len() - i,
{
    if i < v@.len() {
        lemma_doc_items_view_from(v, i + 1);
    }
}

/// The view of a vector of items is the items' views, one each.
pub proof fn lemma_doc_items_view(v: Vec<DocItem>)
    ensures
        doc_items_view(v).len() == v@.len(),
        forall|j: int| 0 <= j < v@.len() ==> doc_items_view(v)[j] == doc_item_view(v@[j]),
        doc_items_view(v) =~= v.deep_view(),
{
    lemma_doc_items_view_from(v, 0);
}

/// A whole document: its name, its block items in order, and the reference
/// table built from the definitions among the items (normalized name, first
/// definition wins). Built once by parsing or assembly; read-only afterward.
#[derive(Debug, PartialEq, Eq)]
pub struct Document {
    pub name: String,
    pub content: Vec<DocItem>,
    pub references: Vec<Reference>,
}

/// The mathematical value of a `Document`.
pub struct DocView {
    pub name: Seq<char>,
    pub content: Seq<DocItemView>,
    pub references: Seq<ReferenceView>,
}

impl View for Document {
    type V = DocView;

    open spec fn view(&self) -> DocView {
        DocView {
            name: self.name@,
            content: doc_items_view(self.content),
            references: self.references.deep_view(),
        }
    }
}

/// Whether an inline item may appear in a finished document: emphasis spans
/// enclose text, and every link has a nonempty name and a literal target
/// (reference-style targets are resolved away by assembly).
pub open spec fn resolved_item(it: ItemView) -> bool {
    match it {
        ItemView::Bold(s) => s.len() > 0,
        ItemView::BoldItalic(s) => s.len() > 0,
        ItemView::Italic(s) => s.len() > 0,
        ItemView::Def(s) => s.len() > 0,
        ItemView::Link(l) => l.name.len() > 0 && l.src is Url,
        ItemView::NewLine => true,
    }
}

/// Whether every inline item of the sequence may appear in a finished
/// document.
pub open spec fn resolved_items(its: Seq<ItemView>) -> bool {
    forall|i: int| 0 <= i < its.len() ==> resolved_item(#[trigger] its[i])
}

/// Whether a block item may appear in a finished document: all its inline
/// content is resolved, recursively through blockquotes.
pub open spec fn resolved_doc_item(it: DocItemView) -> bool
    decreases it, 0int,
{
    match it {
        DocItemView::Heading(h) => resolved_items(h.content),
        DocItemView::Paragraph(p) => resolved_items(p),
        DocItemView::Code(_) => true,
        DocItemView::Quote(q) => resolved_doc_items_from(q, 0),
        DocItemView::List(_, _) => true,
        DocItemView::HorizontalRule => true,
        DocItemView::Reference(_) => true,
    }
}

/// Whether the block items from index `i` on are all resolved.
pub open spec fn resolved_doc_items_from(items: Seq<DocItemView>, i: int) -> bool
    decreases items, items.len() - i + 1,
{
    if i < 0 || i >= items.len() {
        true
    } else {
        resolved_doc_item(items[i]) && resolved_doc_items_from(items, i + 1)
    }
}

/// Whether all the block items are resolved.
pub open spec fn resolved_doc_items(items: Seq<DocItemView>) -> bool {
    resolved_doc_items_from(items, 0)
}

} // verus!
