use vstd::prelude::*;
use vstd::string::StringExecFns;
use crate::chars::chars_of;
use crate::chars::push_char;
use crate::doc::DocItem;
use crate::doc::DocItemView;
use crate::doc::Document;
use crate::doc::DocView;
use crate::doc::doc_items_view;
use crate::doc::lemma_doc_items_view;
use crate::text::Item;
use crate::text::ItemView;
use crate::text::SourceView;

verus! {

/// `n` repeats of one character.
pub open spec fn repeat_char(c: char, n: int) -> Seq<char>
    decreases n,
{
    if n <= 0 {
        Seq::empty()
    } else {
        seq![c] + repeat_char(c, n - 1)
    }
}

/// Repeating once more appends one character.
pub proof fn lemma_repeat_snoc(c: char, n: int)
    requires
        n >= 0,
    ensures
        repeat_char(c, n + 1) == repeat_char(c, n).push(c),
        repeat_char(c, n).len() == n,
    decreases n,
{
    if n > 0 {
        lemma_repeat_snoc(c, n - 1);
        assert(repeat_char(c, n + 1) =~= repeat_char(c, n).push(c));
    } else {
        assert(repeat_char(c, 1) =~= repeat_char(c, 0).push(c));
    }
}

/// How a link source renders: a literal target in parentheses, a reference
/// name in brackets, or empty parentheses while unset.
pub open spec fn render_src(src: SourceView) -> Seq<char> {
    match src {
        SourceView::Url(u) => seq!['('] + u + seq![')'],
        SourceView::Ref(r) => seq!['['] + r + seq![']'],
        SourceView::Unset => seq!['(', ')'],
    }
}

/// How one inline item renders: plain text as itself, an emphasis span
/// wrapped in as many asterisks as its kind, a link as its bracketed name
/// and its source (with a leading exclamation mark for an image), and a line
/// break as itself.
pub open spec fn render_item(it: ItemView) -> Seq<char> {
    match it {
        ItemView::Def(s) => s,
        ItemView::Italic(s) => seq!['*'] + s + seq!['*'],
        ItemView::Bold(s) => seq!['*', '*'] + s + seq!['*', '*'],
        ItemView::BoldItalic(s) => seq!['*', '*', '*'] + s + seq!['*', '*', '*'],
        ItemView::NewLine => seq!['\n'],
        ItemView::Link(l) => (if l.img {
            seq!['!']
        } else {
            Seq::empty()
        }) + seq!['['] + l.name + seq![']'] + render_src(l.src),
    }
}

/// How a run of inline items renders: each in turn.
pub open spec fn render_items(its: Seq<ItemView>, i: int) -> Seq<char>
    decreases its.len() - i,
{
    if i < 0 || i >= its.len() {
        Seq::empty()
    } else {
        render_item(its[i]) + render_items(its, i + 1)
    }
}

/// The text with a quote marker in front of itself and of every line break.
pub open spec fn prefix_rest(t: Seq<char>, i: int) -> Seq<char>
    decreases t.len() - i,
{
    if i < 0 || i >= t.len() {
        Seq::empty()
    } else if t[i] == '\n' {
        seq!['\n', '>'] + prefix_rest(t, i + 1)
    } else {
        seq![t[i]] + prefix_rest(t, i + 1)
    }
}

/// Every line of the text prefixed with the quote marker.
pub open spec fn prefix_lines(t: Seq<char>) -> Seq<char> {
    seq!['>'] + prefix_rest(t, 0)
}

/// How a list renders: one line per item, a bullet marker or the canonical
/// ordinal marker before each item's text.
pub open spec fn render_list(items: Seq<Seq<char>>, i: int, ordered: bool) -> Seq<char>
    decreases items.len() - i,
{
    if i < 0 || i >= items.len() {
        Seq::empty()
    } else {
        (if ordered {
            seq!['1', '.', ' ']
        } else {
            seq!['-', ' ']
        }) + items[i] + (if i + 1 < items.len() {
            seq!['\n']
        } else {
            Seq::empty()
        }) + render_list(items, i + 1, ordered)
    }
}

/// How one block item renders: a heading as its marker run, one space and
/// its inline content; a paragraph as its inline content; code between its
/// fences with its tag; a blockquote as its nested rendering with every line
/// prefixed; a list line by line; a horizontal rule as its fixed token; a
/// reference definition as its name, its angle-bracketed target and its
/// optional parenthesized title.
pub open spec fn render_doc_item(it: DocItemView) -> Seq<char>
    decreases it, 0int,
{
    match it {
        DocItemView::Heading(h) => repeat_char('#', h.level.spec_num()) + seq![' ']
            + render_items(h.content, 0),
        DocItemView::Paragraph(p) => render_items(p, 0),
        DocItemView::Code(c) => repeat_char('`', c.kind.width()) + c.kind.tag() + c.content
            + repeat_char('`', c.kind.width()),
        DocItemView::Quote(q) => prefix_lines(render_doc_items(q, 0)),
        DocItemView::List(items, ordered) => render_list(items, 0, ordered),
        DocItemView::HorizontalRule => seq!['-', '-', '-'],
        DocItemView::Reference(r) => seq!['['] + r.name + seq![']', ':', ' ', '<'] + r.href + seq![
            '>',
        ] + (if r.title.len() > 0 {
            seq!['('] + r.title + seq![')']
        } else {
            Seq::empty()
        }),
    }
}

/// How a run of block items renders: each in turn, one blank line between
/// neighbours.
pub open spec fn render_doc_items(items: Seq<DocItemView>, i: int) -> Seq<char>
    decreases items, items.len() - i + 1,
{
    if i < 0 || i >= items.len() {
        Seq::empty()
    } else {
        render_doc_item(items[i]) + (if i + 1 < items.len() {
            seq!['\n', '\n']
        } else {
            Seq::empty()
        }) + render_doc_items(items, i + 1)
    }
}

/// How a whole document renders: its block items. Reference definitions are
/// retained in the block sequence, so they render at their positions and a
/// rendered document resolves the same way when parsed again.
pub open spec fn render_doc(d: DocView) -> Seq<char> {
    render_doc_items(d.content, 0)
}

/// Append one inline item's rendering.
fn render_item_x(it: &Item, out: &mut String)
    ensures
        final(out)@ == old(out)@ + render_item(it@),
{
    match it {
        Item::Def(s) => {
            out.append(s.as_str());
        },
        Item::Italic(s) => {
            push_char(out, '*');
            out.append(s.as_str());
            push_char(out, '*');
        },
        Item::Bold(s) => {
            push_char(out, '*');
            push_char(out, '*');
            out.append(s.as_str());
            push_char(out, '*');
            push_char(out, '*');
        },
        Item::BoldItalic(s) => {
            push_char(out, '*');
            push_char(out, '*');
            push_char(out, '*');
            out.append(s.as_str());
            push_char(out, '*');
            push_char(out, '*');
            push_char(out, '*');
        },
        Item::NewLine => {
            push_char(out, '\n');
        },
        Item::Link(l) => {
            if l.img {
                push_char(out, '!');
            }
            push_char(out, '[');
            out.append(l.name.as_str());
            push_char(out, ']');
            match &l.src {
                crate::text::LinkSource::Url(u) => {
                    push_char(out, '(');
                    out.append(u.as_str());
                    push_char(out, ')');
                },
                crate::text::LinkSource::Ref(r) => {
                    push_char(out, '[');
                    out.append(r.as_str());
                    push_char(out, ']');
                },
                crate::text::LinkSource::Unset => {
                    push_char(out, '(');
                    push_char(out, ')');
                },
            }
        },
    }
    proof {
        assert(final(out)@ =~= old(out)@ + render_item(it@));
    }
}

/// Append a run of inline items' rendering.
fn render_items_x(v: &Vec<Item>, out: &mut String)
    ensures
        final(out)@ == old(out)@ + render_items(v.deep_view(), 0),
{
    let ghost orig = out@;
    let ghost vs = v.deep_view();
    let mut i: usize = 0;
    while i < v.len()
        invariant
            i <= v@.len(),
            vs == v.deep_view(),
            vs.len() == v@.len(),
            orig + render_items(vs, 0) =~= out@ + render_items(vs, i as int),
        decreases v@.len() - i,
    {
        proof {
            assert(vs[i as int] == v@[i as int]@);
        }
        render_item_x(&v[i], out);
        i = i + 1;
    }
    proof {
        assert(render_items(vs, i as int) == Seq::<char>::empty());
        assert(out@ =~= orig + render_items(vs, 0));
    }
}

/// Append `n` repeats of one character.
fn push_repeat(out: &mut String, c: char, n: usize)
    ensures
        final(out)@ == old(out)@ + repeat_char(c, n as int),
{
    let ghost orig = out@;
    let mut k: usize = 0;
    proof {
        lemma_repeat_snoc(c, 0);
    }
    while k < n
        invariant
            k <= n,
            out@ =~= orig + repeat_char(c, k as int),
        decreases n - k,
    {
        push_char(out, c);
        proof {
            lemma_repeat_snoc(c, k as int);
            assert(out@ =~= orig + repeat_char(c, k + 1 as int));
        }
        k = k + 1;
    }
}

/// Append one block item's rendering.
fn render_doc_item_x(it: &DocItem, out: &mut String)
    ensures
        final(out)@ == old(out)@ + render_doc_item(it@),
    decreases *it, 1int,
{
    match it {
        DocItem::Heading(h) => {
            let n = h.level.num();
            push_repeat(out, '#', n);
            push_char(out, ' ');
            render_items_x(&h.content, out);
            proof {
                assert(final(out)@ =~= old(out)@ + render_doc_item(it@));
            }
        },
        DocItem::Paragraph(p) => {
            render_items_x(&p.0, out);
        },
        DocItem::Code(c) => {
            let w = c.kind.get_index();
            push_repeat(out, '`', w);
            let tag = c.kind.tag_text();
            out.append(tag.as_str());
            out.append(c.content.as_str());
            push_repeat(out, '`', w);
            proof {
                assert(final(out)@ =~= old(out)@ + render_doc_item(it@));
            }
        },
        DocItem::Quote(q) => {
            let mut tmp = String::new();
            render_doc_items_x(&q.0, 0, &mut tmp);
            let cs = chars_of(tmp.as_str());
            push_char(out, '>');
            let ghost base = out@;
            let ghost cv = cs@;
            let mut i: usize = 0;
            while i < cs.len()
                invariant
                    i <= cv.len(),
                    cv == cs@,
                    base + prefix_rest(cv, 0) =~= out@ + prefix_rest(cv, i as int),
                decreases cv.len() - i,
            {
                let c = cs[i];
                if c == '\n' {
                    push_char(out, '\n');
                    push_char(out, '>');
                } else {
                    push_char(out, c);
                }
                i = i + 1;
            }
            proof {
                assert(prefix_rest(cv, i as int) == Seq::<char>::empty());
                assert(out@ =~= base + prefix_rest(cv, 0));
                crate::doc::lemma_doc_items_view_from(q.0, 0);
                assert(final(out)@ =~= old(out)@ + render_doc_item(it@));
            }
        },
        DocItem::List(l) => {
            let ghost ls = l.items.deep_view();
            let ghost orig = out@;
            let mut i: usize = 0;
            while i < l.items.len()
                invariant
                    i <= l.items@.len(),
                    ls == l.items.deep_view(),
                    ls.len() == l.items@.len(),
                    orig + render_list(ls, 0, l.ordered) =~= out@ + render_list(
                        ls,
                        i as int,
                        l.ordered,
                    ),
                decreases l.items@.len() - i,
            {
                if l.ordered {
                    push_char(out, '1');
                    push_char(out, '.');
                    push_char(out, ' ');
                } else {
                    push_char(out, '-');
                    push_char(out, ' ');
                }
                out.append(l.items[i].as_str());
                if i + 1 < l.items.len() {
                    push_char(out, '\n');
                }
                proof {
                    assert(ls[i as int] == l.items@[i as int]@);
                    assert(orig + render_list(ls, 0, l.ordered) =~= out@ + render_list(
                        ls,
                        i + 1 as int,
                        l.ordered,
                    ));
                }
                i = i + 1;
            }
            proof {
                assert(render_list(ls, i as int, l.ordered) == Seq::<char>::empty());
                assert(out@ =~= orig + render_list(ls, 0, l.ordered));
            }
        },
        DocItem::HorizontalRule => {
            push_char(out, '-');
            push_char(out, '-');
            push_char(out, '-');
            proof {
                assert(final(out)@ =~= old(out)@ + render_doc_item(it@));
            }
        },
        DocItem::Reference(r) => {
            push_char(out, '[');
            out.append(r.name.as_str());
            push_char(out, ']');
            push_char(out, ':');
            push_char(out, ' ');
            push_char(out, '<');
            out.append(r.href.as_str());
            push_char(out, '>');
            if !r.title.as_str().is_empty() {
                push_char(out, '(');
                out.append(r.title.as_str());
                push_char(out, ')');
            }
            proof {
                assert(final(out)@ =~= old(out)@ + render_doc_item(it@));
            }
        },
    }
}

/// Append the rendering of the block items from `i` on.
fn render_doc_items_x(v: &Vec<DocItem>, i: usize, out: &mut String)
    requires
        i <= v@.len(),
    ensures
        final(out)@ == old(out)@ + render_doc_items(doc_items_view(*v), i as int),
    decreases *v, v@.len() - i + 1,
{
    proof {
        lemma_doc_items_view(*v);
    }
    if i >= v.len() {
        proof {
            assert(final(out)@ =~= old(out)@ + render_doc_items(doc_items_view(*v), i as int));
        }
        return ;
    }
    render_doc_item_x(&v[i], out);
    if i + 1 < v.len() {
        push_char(out, '\n');
        push_char(out, '\n');
    }
    render_doc_items_x(v, i + 1, out);
    proof {
        assert(final(out)@ =~= old(out)@ + render_doc_items(doc_items_view(*v), i as int));
    }
}

/// Render a document back to text: a pure pass over the tree that never
/// fails on any document value.
pub fn render(d: &Document) -> (r: String)
    ensures
        r@ == render_doc(d@),
{
    let mut out = String::new();
    render_doc_items_x(&d.content, 0, &mut out);
    out
}

} // verus!
