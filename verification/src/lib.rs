use vstd::prelude::*;

pub mod block;
pub mod builders;
pub mod chars;
pub mod doc;
pub mod href;
pub mod inline;
pub mod refs;
pub mod render;
pub mod round_trip;
pub mod segment;
pub mod text;

verus! {

/// An error from finalizing a builder whose mandatory fields are not all set.
#[derive(Debug, Clone, Copy, PartialEq, Eq, Structural)]
pub enum BuildError {
    IncompleteData,
}

/// A scratch value that accumulates the fields of one node and is finalized
/// by a single `build` call, which validates that every mandatory field is
/// present.
pub trait Builder {
    type Output;

    fn build(self) -> Result<Self::Output, BuildError>;
}

/// Why a parse failed. The first error aborts the whole parse; no partial
/// document is ever produced.
#[derive(Debug, Clone, PartialEq, Eq)]
pub enum ParseError {
    /// The input holds no content at all.
    EmptyDocument,
    /// A delimited span (such as a pair of code fences) encloses nothing.
    EmptyContent,
    /// The character at the given position is invalid in the current state.
    /// The position counts characters of the parsed text after continuation
    /// lines have been joined.
    UnexpectedChar(char, usize),
    /// The input ended before a construct was closed.
    UnexpectedEnd,
    /// A reference-style link names a definition that does not exist.
    UnresolvedReference(String),
    /// A builder was finalized without a mandatory field.
    IncompleteBuilderData,
}

/// The mathematical value of a `ParseError`.
pub enum ErrView {
    EmptyDocument,
    EmptyContent,
    UnexpectedChar(char, int),
    UnexpectedEnd,
    UnresolvedReference(Seq<char>),
    IncompleteBuilderData,
}

impl View for ParseError {
    type V = ErrView;

    open spec fn view(&self) -> ErrView {
        match self {
            ParseError::EmptyDocument => ErrView::EmptyDocument,
            ParseError::EmptyContent => ErrView::EmptyContent,
            ParseError::UnexpectedChar(c, p) => ErrView::UnexpectedChar(*c, *p as int),
            ParseError::UnexpectedEnd => ErrView::UnexpectedEnd,
            ParseError::UnresolvedReference(n) => ErrView::UnresolvedReference(n@),
            ParseError::IncompleteBuilderData => ErrView::IncompleteBuilderData,
        }
    }
}

impl DeepView for ParseError {
    type V = ErrView;

    open spec fn deep_view(&self) -> ErrView {
        self.view()
    }
}

/// What parsing a whole document yields: continuation lines are joined, the
/// text is split into block items, a text with no items at all is rejected,
/// and the items are assembled with every reference-style link resolved.
/// The first error aborts the parse, segmentation errors before resolution
/// errors.
pub open spec fn spec_parse(s: Seq<char>) -> Result<doc::DocView, ErrView> {
    let t = chars::spec_join(s);
    match segment::spec_segment(t) {
        Err(e) => Err(e),
        Ok(items) => if items.len() == 0 {
            Err(ErrView::EmptyDocument)
        } else {
            refs::spec_assemble(Seq::empty(), items)
        },
    }
}

/// Law: a parsed document never holds a dangling or unset link target.
/// Whenever parsing succeeds, every link anywhere in the document's content
/// carries a literal target: reference-style targets have all been resolved
/// away.
pub proof fn lemma_parse_links_literal(s: Seq<char>)
    ensures
        spec_parse(s) matches Ok(d) ==> refs::links_literal_items(d.content, 0),
{
    let t = chars::spec_join(s);
    if let Ok(items) = segment::spec_segment(t) {
        if items.len() > 0 {
            refs::lemma_assembled_links_literal(Seq::empty(), items);
        }
    }
}

/// Parse a whole document, failing fast on the first error.
pub fn parse(text: &str) -> (r: Result<doc::Document, ParseError>)
    ensures
        match r {
            Ok(d) => spec_parse(text@) == Ok::<doc::DocView, ErrView>(d@),
            Err(e) => spec_parse(text@) == Err::<doc::DocView, ErrView>(e@),
        },
{
    let cs = chars::chars_of(text);
    let joined = chars::join_text(&cs);
    match segment::segment(joined) {
        Err(e) => Err(e),
        Ok(items) => {
            proof {
                doc::lemma_doc_items_view(items);
            }
            if items.len() == 0 {
                return Err(ParseError::EmptyDocument);
            }
            refs::assemble(String::new(), items)
        },
    }
}

/// Render a document back to canonical text: total over any document value.
pub fn render(d: &doc::Document) -> (r: String)
    ensures
        r@ == render::render_doc(d@),
{
    render::render(d)
}

} // verus!
