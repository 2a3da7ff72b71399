use vstd::prelude::*;
use crate::ErrView;
use crate::ParseError;
use crate::Builder;
use crate::builders::LinkBuilder;
use crate::chars::find_stop;
use crate::chars::lemma_find_stop;
use crate::chars::lemma_run_len;
use crate::chars::push_char;
use crate::chars::run_len;
use crate::chars::scan_run;
use crate::chars::scan_stop;
use crate::chars::sub_chars;
use crate::chars::sub_string;
use crate::href::canonical_target;
use crate::href::spec_canonical_target;
use crate::text::Item;
use crate::text::ItemView;
use crate::text::LinkView;
use crate::text::SourceView;
use crate::text::ladder_next;

verus! {

/// The kind of an emphasis span, selected by the length of an asterisk run.
#[derive(Debug, Copy, Clone, PartialEq, Eq, Structural)]
pub enum EmphKind {
    Italic,
    Bold,
    BoldItalic,
}

impl EmphKind {
    /// The kind's position on the emphasis ladder.
    pub open spec fn spec_num(self) -> int {
        match self {
            EmphKind::Italic => 1,
            EmphKind::Bold => 2,
            EmphKind::BoldItalic => 3,
        }
    }

    /// One step along the emphasis ladder: italic to bold to bold-italic,
    /// wrapping from bold-italic back to bold.
    pub open spec fn spec_step(self) -> EmphKind {
        match self {
            EmphKind::Italic => EmphKind::Bold,
            EmphKind::Bold => EmphKind::BoldItalic,
            EmphKind::BoldItalic => EmphKind::Bold,
        }
    }

    /// The emphasis step is the heading ladder's step with the top wrapping
    /// back one place instead of saturating.
    pub proof fn lemma_step_ladder(self)
        ensures
            self.spec_step().spec_num() == ladder_next(self.spec_num(), 3, 2),
    {
    }

    /// Step the emphasis ladder.
    pub fn step(self) -> (r: Self)
        ensures
            r == self.spec_step(),
    {
        match self {
            EmphKind::Italic => EmphKind::Bold,
            EmphKind::Bold => EmphKind::BoldItalic,
            EmphKind::BoldItalic => EmphKind::Bold,
        }
    }
}

/// The emphasis kind a run of `r` asterisks selects: one toggles italic, two
/// bold, three bold-italic; longer runs keep stepping the ladder, wrapping
/// between bold and bold-italic.
pub open spec fn ladder_kind(r: int) -> EmphKind {
    if r == 1 {
        EmphKind::Italic
    } else if r % 2 == 0 {
        EmphKind::Bold
    } else {
        EmphKind::BoldItalic
    }
}

/// The emphasis kind a run selects.
pub fn ladder_kind_x(r: usize) -> (k: EmphKind)
    ensures
        k == ladder_kind(r as int),
{
    if r == 1 {
        EmphKind::Italic
    } else if r % 2 == 0 {
        EmphKind::Bold
    } else {
        EmphKind::BoldItalic
    }
}

/// The emphasis span of the given kind around the given text.
pub open spec fn emph_item(k: EmphKind, s: Seq<char>) -> ItemView {
    match k {
        EmphKind::Italic => ItemView::Italic(s),
        EmphKind::Bold => ItemView::Bold(s),
        EmphKind::BoldItalic => ItemView::BoldItalic(s),
    }
}

/// Build the emphasis span of the given kind.
pub fn emph_item_x(k: EmphKind, s: String) -> (r: Item)
    ensures
        r@ == emph_item(k, s@),
{
    match k {
        EmphKind::Italic => Item::Italic(s),
        EmphKind::Bold => Item::Bold(s),
        EmphKind::BoldItalic => Item::BoldItalic(s),
    }
}

/// The tokenizer's emphasis state: outside any span, or inside a span of a
/// known kind with the text buffered so far.
pub enum TokStView {
    Plain,
    Open(EmphKind, Seq<char>),
}

/// The pending plain text as items: one plain-text item, or nothing when the
/// buffer is empty.
pub open spec fn flush(pend: Seq<char>) -> Seq<ItemView> {
    if pend.len() == 0 {
        Seq::empty()
    } else {
        seq![ItemView::Def(pend)]
    }
}

/// What scanning a link at `i` (just past the opening bracket) yields: the
/// position after the link and the link item, or the error. The name runs to
/// the closing bracket; a parenthesized literal target or a bracketed
/// reference name must follow at once (an empty reference name means the
/// display name doubles as the reference name); a literal target is stored
/// in canonical form. A line break inside the link is invalid and the end of
/// input leaves it unterminated; a link with an empty display name fails as
/// an incomplete build.
pub open spec fn spec_link(t: Seq<char>, i: int, img: bool) -> Result<(int, ItemView), ErrView> {
    let e = find_stop(t, i, ']', '\n');
    if e >= t.len() {
        Err(ErrView::UnexpectedEnd)
    } else if t[e] == '\n' {
        Err(ErrView::UnexpectedChar('\n', e))
    } else {
        let name = t.subrange(i, e);
        if e + 1 >= t.len() {
            Err(ErrView::UnexpectedEnd)
        } else if t[e + 1] == '(' {
            let f = find_stop(t, e + 2, ')', '\n');
            if f >= t.len() {
                Err(ErrView::UnexpectedEnd)
            } else if t[f] == '\n' {
                Err(ErrView::UnexpectedChar('\n', f))
            } else if name.len() == 0 {
                Err(ErrView::IncompleteBuilderData)
            } else {
                Ok(
                    (
                        f + 1,
                        ItemView::Link(
                            LinkView {
                                name,
                                src: SourceView::Url(spec_canonical_target(t.subrange(e + 2, f))),
                                img,
                            },
                        ),
                    ),
                )
            }
        } else if t[e + 1] == '[' {
            let f = find_stop(t, e + 2, ']', '\n');
            if f >= t.len() {
                Err(ErrView::UnexpectedEnd)
            } else if t[f] == '\n' {
                Err(ErrView::UnexpectedChar('\n', f))
            } else if name.len() == 0 {
                Err(ErrView::IncompleteBuilderData)
            } else {
                let rn = t.subrange(e + 2, f);
                let key = if rn.len() == 0 {
                    name
                } else {
                    rn
                };
                Ok((f + 1, ItemView::Link(LinkView { name, src: SourceView::Ref(key), img })))
            }
        } else {
            Err(ErrView::UnexpectedChar(t[e + 1], e + 1))
        }
    }
}

/// A successful link scan moves forward and stays within the text.
pub proof fn lemma_spec_link_bounds(t: Seq<char>, i: int, img: bool)
    requires
        0 <= i <= t.len(),
    ensures
        spec_link(t, i, img) matches Ok(p) ==> i < p.0 <= t.len(),
{
    lemma_find_stop(t, i, ']', '\n');
    let e = find_stop(t, i, ']', '\n');
    if e < t.len() && t[e] != '\n' && e + 1 < t.len() {
        if t[e + 1] == '(' || t[e + 1] == '[' {
            if t[e + 1] == '(' {
                lemma_find_stop(t, e + 2, ')', '\n');
            } else {
                lemma_find_stop(t, e + 2, ']', '\n');
            }
        }
    }
}

/// What tokenizing the text from `i` on yields, given the pending plain
/// text, the emphasis state, and the items already produced. One
/// left-to-right pass: an asterisk run opens, closes, or steps an emphasis
/// span; brackets open a link and an exclamation mark directly before one
/// marks an image; a line break is its own item; a stray closing bracket is
/// invalid; anything else is plain text, or span text while a span is open.
pub open spec fn tok_from(
    t: Seq<char>,
    i: int,
    pend: Seq<char>,
    st: TokStView,
    acc: Seq<ItemView>,
) -> Result<Seq<ItemView>, ErrView>
    decreases t.len() - i,
    via tok_from_decreases
{
    if i < 0 {
        Err(ErrView::UnexpectedEnd)
    } else if i >= t.len() {
        match st {
            TokStView::Open(_, _) => Err(ErrView::UnexpectedEnd),
            TokStView::Plain => Ok(acc + flush(pend)),
        }
    } else {
        let c = t[i];
        match st {
            TokStView::Plain => {
                if c == '*' {
                    let r = run_len(t, i, '*');
                    tok_from(
                        t,
                        i + r,
                        Seq::empty(),
                        TokStView::Open(ladder_kind(r), Seq::empty()),
                        acc + flush(pend),
                    )
                } else if c == '[' {
                    match spec_link(t, i + 1, false) {
                        Err(e) => Err(e),
                        Ok(p) => tok_from(
                            t,
                            p.0,
                            Seq::empty(),
                            TokStView::Plain,
                            acc + flush(pend) + seq![p.1],
                        ),
                    }
                } else if c == '!' && i + 1 < t.len() && t[i + 1] == '[' {
                    match spec_link(t, i + 2, true) {
                        Err(e) => Err(e),
                        Ok(p) => tok_from(
                            t,
                            p.0,
                            Seq::empty(),
                            TokStView::Plain,
                            acc + flush(pend) + seq![p.1],
                        ),
                    }
                } else if c == ']' {
                    Err(ErrView::UnexpectedChar(']', i))
                } else if c == '\n' {
                    tok_from(
                        t,
                        i + 1,
                        Seq::empty(),
                        TokStView::Plain,
                        acc + flush(pend) + seq![ItemView::NewLine],
                    )
                } else {
                    tok_from(t, i + 1, pend.push(c), TokStView::Plain, acc)
                }
            },
            TokStView::Open(k, buf) => {
                if c == '*' {
                    let r = run_len(t, i, '*');
                    if ladder_kind(r) == k {
                        if buf.len() == 0 {
                            Err(ErrView::EmptyContent)
                        } else {
                            tok_from(t, i + r, pend, TokStView::Plain, acc.push(emph_item(k, buf)))
                        }
                    } else {
                        tok_from(t, i + r, pend, TokStView::Open(k.spec_step(), buf), acc)
                    }
                } else {
                    tok_from(t, i + 1, pend, TokStView::Open(k, buf.push(c)), acc)
                }
            },
        }
    }
}

#[via_fn]
proof fn tok_from_decreases(
    t: Seq<char>,
    i: int,
    pend: Seq<char>,
    st: TokStView,
    acc: Seq<ItemView>,
) {
    if 0 <= i < t.len() {
        if t[i] == '*' {
            lemma_run_len(t, i, '*');
        }
        lemma_spec_link_bounds(t, i + 1, false);
        if i + 2 <= t.len() {
            lemma_spec_link_bounds(t, i + 2, true);
        }
    }
}

/// What tokenizing a block's text yields: its inline items, or the first
/// error.
pub open spec fn spec_tokenize(t: Seq<char>) -> Result<Seq<ItemView>, ErrView> {
    tok_from(t, 0, Seq::empty(), TokStView::Plain, Seq::empty())
}

/// Scan a link at `i` (just past the opening bracket).
fn link_x(t: &Vec<char>, i: usize, img: bool) -> (r: Result<(usize, Item), ParseError>)
    requires
        i <= t@.len(),
    ensures
        match r {
            Ok(p) => spec_link(t@, i as int, img) == Ok::<(int, ItemView), ErrView>(
                (p.0 as int, p.1@),
            ) && i < p.0 <= t@.len(),
            Err(e) => spec_link(t@, i as int, img) == Err::<(int, ItemView), ErrView>(e@),
        },
{
    proof {
        lemma_spec_link_bounds(t@, i as int, img);
    }
    let e = scan_stop(t, i, ']', '\n');
    if e >= t.len() {
        return Err(ParseError::UnexpectedEnd);
    }
    if t[e] == '\n' {
        return Err(ParseError::UnexpectedChar('\n', e));
    }
    let name = sub_string(t, i, e);
    let b = LinkBuilder::default().name(name);
    let b = if img {
        b.make_img()
    } else {
        b
    };
    if e + 1 >= t.len() {
        return Err(ParseError::UnexpectedEnd);
    }
    let c1 = t[e + 1];
    if c1 == '(' {
        let f = scan_stop(t, e + 2, ')', '\n');
        if f >= t.len() {
            return Err(ParseError::UnexpectedEnd);
        }
        if t[f] == '\n' {
            return Err(ParseError::UnexpectedChar('\n', f));
        }
        let target = sub_chars(t, e + 2, f);
        let b = b.href(canonical_target(&target));
        match b.build() {
            Ok(l) => Ok((f + 1, Item::Link(l))),
            Err(_) => Err(ParseError::IncompleteBuilderData),
        }
    } else if c1 == '[' {
        let f = scan_stop(t, e + 2, ']', '\n');
        if f >= t.len() {
            return Err(ParseError::UnexpectedEnd);
        }
        if t[f] == '\n' {
            return Err(ParseError::UnexpectedChar('\n', f));
        }
        let key = if f == e + 2 {
            sub_string(t, i, e)
        } else {
            sub_string(t, e + 2, f)
        };
        let b = b.reference_name(key);
        match b.build() {
            Ok(l) => Ok((f + 1, Item::Link(l))),
            Err(_) => Err(ParseError::IncompleteBuilderData),
        }
    } else {
        Err(ParseError::UnexpectedChar(c1, e + 1))
    }
}

/// Tokenize one block's text into inline items: a single left-to-right pass
/// with constant state for each character.
pub fn tokenize(t: &Vec<char>) -> (r: Result<Vec<Item>, ParseError>)
    ensures
        match r {
            Ok(items) => spec_tokenize(t@) == Ok::<Seq<ItemView>, ErrView>(items.deep_view()),
            Err(e) => spec_tokenize(t@) == Err::<Seq<ItemView>, ErrView>(e@),
        },
{
    let mut i: usize = 0;
    let mut pend: String = String::new();
    let mut kind_opt: Option<EmphKind> = None;
    let mut buf: String = String::new();
    let mut acc: Vec<Item> = Vec::new();
    proof {
        assert(acc.deep_view() =~= Seq::<ItemView>::empty());
    }
    while i < t.len()
        invariant
            i <= t@.len(),
            spec_tokenize(t@) == tok_from(
                t@,
                i as int,
                pend@,
                match kind_opt {
                    None => TokStView::Plain,
                    Some(k) => TokStView::Open(k, buf@),
                },
                acc.deep_view(),
            ),
        decreases t@.len() - i,
    {
        let ghost stv = match kind_opt {
            None => TokStView::Plain,
            Some(k) => TokStView::Open(k, buf@),
        };
        let ghost pend0 = pend@;
        let ghost acc0 = acc.deep_view();
        let c = t[i];
        match kind_opt {
            None => {
                if c == '*' {
                    let r = scan_run(t, i, '*');
                    proof {
                        lemma_run_len(t@, i as int, '*');
                    }
                    if !pend.as_str().is_empty() {
                        let p = pend;
                        pend = String::new();
                        acc.push(Item::Def(p));
                    }
                    kind_opt = Some(ladder_kind_x(r));
                    buf = String::new();
                    proof {
                        assert(acc.deep_view() =~= acc0 + flush(pend0));
                        assert(pend@ =~= Seq::<char>::empty());
                        assert(buf@ =~= Seq::<char>::empty());
                        assert(tok_from(t@, i as int, pend0, stv, acc0) == tok_from(
                            t@,
                            i + r,
                            Seq::empty(),
                            TokStView::Open(ladder_kind(r as int), Seq::empty()),
                            acc0 + flush(pend0),
                        ));
                    }
                    i = i + r;
                } else if c == '[' {
                    match link_x(t, i + 1, false) {
                        Err(e) => {
                            return Err(e);
                        },
                        Ok(p) => {
                            if !pend.as_str().is_empty() {
                                let q = pend;
                                pend = String::new();
                                acc.push(Item::Def(q));
                            }
                            let ghost item_view = p.1@;
                            acc.push(p.1);
                            proof {
                                assert(acc.deep_view() =~= acc0 + flush(pend0) + seq![item_view]);
                                assert(pend@ =~= Seq::<char>::empty());
                                assert(tok_from(t@, i as int, pend0, stv, acc0) == tok_from(
                                    t@,
                                    p.0 as int,
                                    Seq::empty(),
                                    TokStView::Plain,
                                    acc0 + flush(pend0) + seq![item_view],
                                ));
                            }
                            i = p.0;
                        },
                    }
                } else if c == '!' && i + 1 < t.len() && t[i + 1] == '[' {
                    match link_x(t, i + 2, true) {
                        Err(e) => {
                            return Err(e);
                        },
                        Ok(p) => {
                            if !pend.as_str().is_empty() {
                                let q = pend;
                                pend = String::new();
                                acc.push(Item::Def(q));
                            }
                            let ghost item_view = p.1@;
                            acc.push(p.1);
                            proof {
                                assert(acc.deep_view() =~= acc0 + flush(pend0) + seq![item_view]);
                                assert(pend@ =~= Seq::<char>::empty());
                                assert(tok_from(t@, i as int, pend0, stv, acc0) == tok_from(
                                    t@,
                                    p.0 as int,
                                    Seq::empty(),
                                    TokStView::Plain,
                                    acc0 + flush(pend0) + seq![item_view],
                                ));
                            }
                            i = p.0;
                        },
                    }
                } else if c == ']' {
                    return Err(ParseError::UnexpectedChar(']', i));
                } else if c == '\n' {
                    if !pend.as_str().is_empty() {
                        let q = pend;
                        pend = String::new();
                        acc.push(Item::Def(q));
                    }
                    acc.push(Item::NewLine);
                    proof {
                        assert(acc.deep_view() =~= acc0 + flush(pend0) + seq![ItemView::NewLine]);
                        assert(pend@ =~= Seq::<char>::empty());
                        assert(tok_from(t@, i as int, pend0, stv, acc0) == tok_from(
                            t@,
                            i + 1,
                            Seq::empty(),
                            TokStView::Plain,
                            acc0 + flush(pend0) + seq![ItemView::NewLine],
                        ));
                    }
                    i = i + 1;
                } else {
                    push_char(&mut pend, c);
                    proof {
                        assert(tok_from(t@, i as int, pend0, stv, acc0) == tok_from(
                            t@,
                            i + 1,
                            pend0.push(c),
                            TokStView::Plain,
                            acc0,
                        ));
                    }
                    i = i + 1;
                }
            },
            Some(k) => {
                if c == '*' {
                    let r = scan_run(t, i, '*');
                    proof {
                        lemma_run_len(t@, i as int, '*');
                    }
                    let lk = ladder_kind_x(r);
                    if lk == k {
                        if buf.as_str().is_empty() {
                            return Err(ParseError::EmptyContent);
                        }
                        let b = buf;
                        buf = String::new();
                        kind_opt = None;
                        let ghost bview = b@;
                        acc.push(emph_item_x(k, b));
                        proof {
                            assert(acc.deep_view() =~= acc0.push(emph_item(k, bview)));
                            assert(tok_from(t@, i as int, pend0, stv, acc0) == tok_from(
                                t@,
                                i + r,
                                pend0,
                                TokStView::Plain,
                                acc0.push(emph_item(k, bview)),
                            ));
                        }
                        i = i + r;
                    } else {
                        proof {
                            assert(tok_from(t@, i as int, pend0, stv, acc0) == tok_from(
                                t@,
                                i + r,
                                pend0,
                                TokStView::Open(k.spec_step(), buf@),
                                acc0,
                            ));
                        }
                        kind_opt = Some(k.step());
                        i = i + r;
                    } 
                } else {
                    let ghost buf0 = buf@;
                    push_char(&mut buf, c);
                    proof {
                        assert(tok_from(t@, i as int, pend0, stv, acc0) == tok_from(
                            t@,
                            i + 1,
                            pend0,
                            TokStView::Open(k, buf0.push(c)),
                            acc0,
                        ));
                    }
                    i = i + 1;
                }
            },
        }
    }
    match kind_opt {
        Some(_) => Err(ParseError::UnexpectedEnd),
        None => {
            let ghost pend0 = pend@;
            let ghost acc0 = acc.deep_view();
            if !pend.as_str().is_empty() {
                let p = pend;
                acc.push(Item::Def(p));
            }
            proof {
                assert(acc.deep_view() =~= acc0 + flush(pend0));
            }
            Ok(acc)
        },
    }
}

} // verus!
