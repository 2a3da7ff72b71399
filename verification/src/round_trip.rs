use vstd::prelude::*;
use crate::ErrView;
use crate::block::CodeView;
use crate::block::CodeKindView;
use crate::block::spec_kind_of_tag;
use crate::chars::find_stop;
use crate::chars::find_stop3;
use crate::chars::lemma_find_stop_unique;
use crate::chars::lemma_find_stop3_unique;
use crate::chars::lemma_run_len_unique;
use crate::chars::lemma_skip_sp_unique;
use crate::chars::run_len;
use crate::chars::skip_sp;
use crate::chars::spec_join;
use crate::doc::DocItemView;
use crate::doc::DocView;
use crate::render::render_doc;
use crate::render::render_doc_item;
use crate::render::render_item;
use crate::render::render_items;
use crate::render::render_list;
use crate::render::render_doc_items;
use crate::render::repeat_char;
use crate::render::lemma_repeat_snoc;
use crate::refs::spec_table;
use crate::refs::spec_table_item;
use crate::refs::spec_table_items;
use crate::refs::spec_resolve_doc_item;
use crate::refs::spec_resolve_doc_items;
use crate::refs::spec_assemble;
use crate::segment::fence_at;
use crate::segment::find_run;
use crate::segment::lemma_find_run_unique;
use crate::segment::line_end;
use crate::segment::next_line;
use crate::segment::seg_from;
use crate::segment::spec_code;
use crate::segment::spec_segment;
use crate::spec_parse;
use crate::inline::TokStView;
use crate::inline::tok_from;
use crate::inline::spec_link;
use crate::inline::flush;
use crate::inline::emph_item;
use crate::text::ItemView;
use crate::text::ReferenceView;
use crate::href::spec_canonical_target;

verus! {

/// Every character of a repeat is the repeated one.
proof fn lemma_repeat_all(c: char, n: int)
    requires
        n >= 0,
    ensures
        repeat_char(c, n).len() == n,
        forall|k: int| 0 <= k < n ==> repeat_char(c, n)[k] == c,
    decreases n,
{
    if n > 0 {
        lemma_repeat_all(c, n - 1);
        lemma_repeat_snoc(c, n - 1);
    }
}

/// Whether the window of `w` characters at `p` holds something besides a
/// backtick.
pub open spec fn window_broken(s: Seq<char>, p: int, w: int) -> bool {
    exists|k: int| p <= k < p + w && s[k] != '`'
}

/// The document holding nothing but the given code item.
pub open spec fn single_code_doc(c: CodeView) -> DocView {
    DocView {
        name: Seq::empty(),
        content: seq![DocItemView::Code(c)],
        references: Seq::empty(),
    }
}

/// Whether a code item is in the shape the parser itself produces, so that
/// its rendering reads back as the same item: the fence is one to three
/// backticks wide and spans below three carry no tag; the tag maps back to
/// the same kind and holds no space, line break or backtick; the content is
/// nonempty, holds no run as wide as the fence, does not end with a
/// backtick, and starts with a character that ends the tag scan.
pub open spec fn code_reparses(c: CodeView) -> bool {
    let w = c.kind.width();
    let tag = c.kind.tag();
    let s = c.content;
    &&& 1 <= w <= 3
    &&& (w < 3 ==> c.kind is Plain)
    &&& (w == 3 ==> spec_kind_of_tag(tag, 3) == c.kind)
    &&& (forall|k: int| 0 <= k < tag.len() ==> tag[k] != ' ' && tag[k] != '\n' && tag[k] != '`')
    &&& s.len() > 0
    &&& s[s.len() - 1] != '`'
    &&& (w < 3 ==> s[0] != '`')
    &&& (w == 3 ==> (s[0] == ' ' || s[0] == '\n' || s[0] == '`'))
    &&& (forall|p: int| 0 <= p && p + w <= s.len() ==> #[trigger] window_broken(s, p, w))
}

/// Part of the round-trip property, for documents of one code item: the
/// rendering of such a document, when its text joins no continuation lines,
/// parses back to the same document.
#[verifier::rlimit(100)]
pub proof fn lemma_code_doc_round_trip(c: CodeView)
    requires
        code_reparses(c),
        spec_join(render_doc(single_code_doc(c))) == render_doc(single_code_doc(c)),
    ensures
        spec_parse(render_doc(single_code_doc(c))) == Ok::<DocView, ErrView>(single_code_doc(c)),
{
    reveal(seg_from);
    let d = single_code_doc(c);
    let w = c.kind.width();
    let tag = c.kind.tag();
    let body = c.content;
    let fence = repeat_char('`', w);
    lemma_repeat_all('`', w);
    let t = render_doc(d);
    assert(render_doc_items(d.content, 0) == render_doc_item(DocItemView::Code(c)) + Seq::<
        char,
    >::empty() + render_doc_items(d.content, 1));
    assert(t =~= fence + tag + body + fence);
    let cstart = w + tag.len() as int;
    let q = cstart + body.len() as int;
    let n = t.len() as int;
    assert(n == q + w);
    assert(forall|k: int| 0 <= k < w ==> #[trigger] t[k] == '`');
    assert(forall|k: int| 0 <= k < tag.len() ==> #[trigger] t[w + k] == tag[k]);
    assert(forall|k: int| 0 <= k < body.len() ==> #[trigger] t[cstart + k] == body[k]);
    assert(forall|k: int| 0 <= k < w ==> #[trigger] t[q + k] == '`');
    // the line starts at its first character
    lemma_skip_sp_unique(t, 0, 0);
    assert(skip_sp(t, 0) == 0);
    assert(t[0] == '`');
    assert(line_end(t, 0) == find_stop(t, 0, '\n', '\n'));
    assert(line_end(t, 0) > 0 || t[0] == '\n') by {
        crate::chars::lemma_find_stop(t, 0, '\n', '\n');
    }
    // the opening run
    let r0 = run_len(t, 0, '`');
    if w < 3 {
        assert(t[w] == body[0]);
        assert(body[0] != '`');
        lemma_run_len_unique(t, 0, '`', w);
        assert(r0 == w);
    } else {
        if tag.len() > 0 {
            assert(t[3] == tag[0]);
            lemma_run_len_unique(t, 0, '`', 3);
            assert(r0 == 3);
        } else {
            crate::chars::lemma_run_len(t, 0, '`');
            assert(t[0] == '`' && t[1] == '`' && t[2] == '`');
            assert(r0 >= 3) by {
                if r0 < 3 {
                    assert(t[r0] != '`');
                }
            }
        }
    }
    let wx = if r0 >= 3 { 3int } else { r0 };
    assert(wx == w);
    // the tag scan stops at the content
    let te = if w == 3 {
        find_stop3(t, 3, ' ', '\n', '`')
    } else {
        0 + w
    };
    if w == 3 {
        assert(t[cstart] == body[0]);
        assert(body[0] == ' ' || body[0] == '\n' || body[0] == '`');
        lemma_find_stop3_unique(t, 3, ' ', '\n', '`', cstart);
        assert(te == cstart);
        assert(t.subrange(3, te) =~= tag);
    } else {
        assert(te == cstart);
    }
    // the closing fence is the first one after the content starts
    assert(fence_at(t, q, w));
    assert forall|x: int| te <= x < q implies !fence_at(t, x, w) by {
        if fence_at(t, x, w) {
            if x + w <= q {
                let p = x - cstart;
                assert(0 <= p && p + w <= body.len());
                assert(window_broken(body, p, w));
                let k = choose|k: int| p <= k < p + w && body[k] != '`';
                assert(t[cstart + k] == body[k]);
                assert(fence_at(t, x, w) ==> t[cstart + k] == '`');
                assert(false);
            } else {
                assert(x <= q - 1 < x + w);
                assert(t[q - 1] == body[body.len() - 1]);
                assert(t[q - 1] != '`');
                assert(false);
            }
        }
    }
    lemma_find_run_unique(t, te, w, q);
    assert(find_run(t, te, w) == q);
    assert(q > te);
    // the code item itself
    assert(t.subrange(te, q) =~= body);
    assert(spec_code(t, 0) == Ok::<(int, DocItemView), ErrView>((q + w, DocItemView::Code(c))))
        by {
        if w == 3 {
            assert(spec_kind_of_tag(tag, 3) == c.kind);
        } else {
            assert(c.kind is Plain);
            assert(spec_kind_of_tag(Seq::<char>::empty(), w) == CodeKindView::Plain(w));
            assert(c.kind.with_width(w) == c.kind);
        }
    }
    // the line is not blank and starts with a backtick, so segmentation
    // takes the code branch and then reaches the end of the text
    assert(next_line(t, n) == n) by {
        crate::chars::lemma_find_stop(t, n, '\n', '\n');
    }
    assert(seg_from(t, n, seq![DocItemView::Code(c)]) == Ok::<Seq<DocItemView>, ErrView>(
        seq![DocItemView::Code(c)],
    ));
    assert(skip_sp(t, 0) != line_end(t, 0));
    assert(spec_segment(t) == Ok::<Seq<DocItemView>, ErrView>(seq![DocItemView::Code(c)]));
    // assembly: a code item defines nothing and resolves to itself
    let items = seq![DocItemView::Code(c)];
    assert(spec_table_item(items[0], Seq::empty()) == Seq::<crate::text::ReferenceView>::empty());
    assert(spec_table_items(items, 1, Seq::empty()) == Seq::<
        crate::text::ReferenceView,
    >::empty());
    assert(spec_table_items(items, 0, Seq::empty()) == Seq::<
        crate::text::ReferenceView,
    >::empty());
    assert(spec_table(items) =~= Seq::<crate::text::ReferenceView>::empty());
    assert(spec_resolve_doc_item(items[0], spec_table(items)) == Ok::<DocItemView, ErrView>(
        items[0],
    ));
    assert(spec_resolve_doc_items(items, spec_table(items), 1) == Ok::<
        Seq<DocItemView>,
        ErrView,
    >(Seq::empty()));
    assert(seq![items[0]] + Seq::<DocItemView>::empty() =~= items);
    assert(spec_resolve_doc_items(items, spec_table(items), 0) == Ok::<
        Seq<DocItemView>,
        ErrView,
    >(items));
    assert(spec_assemble(Seq::empty(), items) == Ok::<DocView, ErrView>(d));
    assert(spec_parse(t) == Ok::<DocView, ErrView>(d));
}


/// The document holding nothing but the given definition, with the table it
/// induces.
pub open spec fn single_def_doc(r: ReferenceView) -> DocView {
    DocView {
        name: Seq::empty(),
        content: seq![DocItemView::Reference(r)],
        references: spec_table(seq![DocItemView::Reference(r)]),
    }
}

/// Whether a reference definition is in the shape the parser itself
/// produces: the name is nonempty and free of closing brackets and line
/// breaks; the target is free of closing angle brackets and line breaks and
/// already canonical; the title is free of closing parentheses and line
/// breaks.
pub open spec fn def_reparses(r: ReferenceView) -> bool {
    &&& r.name.len() > 0
    &&& (forall|k: int| 0 <= k < r.name.len() ==> r.name[k] != ']' && r.name[k] != '\n')
    &&& (forall|k: int| 0 <= k < r.href.len() ==> r.href[k] != '>' && r.href[k] != '\n')
    &&& spec_canonical_target(r.href) == r.href
    &&& (forall|k: int| 0 <= k < r.title.len() ==> r.title[k] != ')' && r.title[k] != '\n')
}

/// Part of the round-trip property, for documents of one reference
/// definition: the rendering of such a document parses back to the same
/// document, table included.
#[verifier::rlimit(100)]
pub proof fn lemma_def_doc_round_trip(r: ReferenceView)
    requires
        def_reparses(r),
    ensures
        spec_parse(render_doc(single_def_doc(r))) == Ok::<DocView, ErrView>(single_def_doc(r)),
{
    reveal(seg_from);
    let d = single_def_doc(r);
    let item = DocItemView::Reference(r);
    let items = seq![item];
    let t = render_doc(d);
    assert(render_doc_items(d.content, 0) == render_doc_item(item) + Seq::<char>::empty()
        + render_doc_items(d.content, 1));
    let head = seq!['['] + r.name + seq![']', ':', ' ', '<'] + r.href + seq!['>'];
    let tail = if r.title.len() > 0 {
        seq!['('] + r.title + seq![')']
    } else {
        Seq::<char>::empty()
    };
    assert(t =~= head + tail);
    let e = 1 + r.name.len() as int;
    let m = e + 4 + r.href.len() as int;
    let n = t.len() as int;
    assert(t[0] == '[');
    assert(forall|k: int| 0 <= k < r.name.len() ==> #[trigger] t[1 + k] == r.name[k]);
    assert(t[e] == ']' && t[e + 1] == ':' && t[e + 2] == ' ' && t[e + 3] == '<');
    assert(forall|k: int| 0 <= k < r.href.len() ==> #[trigger] t[e + 4 + k] == r.href[k]);
    assert(t[m] == '>');
    if r.title.len() > 0 {
        assert(t[m + 1] == '(');
        assert(forall|k: int| 0 <= k < r.title.len() ==> #[trigger] t[m + 2 + k] == r.title[k]);
        assert(t[n - 1] == ')');
    }
    // the whole rendering is one line, so nothing joins and the line ends at
    // the end of the text
    assert(forall|k: int| 0 <= k < n ==> #[trigger] t[k] != '\n');
    crate::chars::lemma_join_no_newline(t);
    lemma_find_stop_unique(t, 0, '\n', '\n', n);
    assert(line_end(t, 0) == n);
    lemma_skip_sp_unique(t, 0, 0);
    assert(skip_sp(t, 0) == 0);
    // the line matches the definition pattern
    lemma_find_stop_unique(t, 1, ']', '\n', e);
    assert(crate::segment::is_def_line(t, 0));
    assert(!crate::segment::is_rule_line(t, 0, n));
    assert(crate::segment::digits_end(t, 0) == 0);
    assert(!crate::segment::bullet_at(t, 0, n));
    assert(!crate::segment::ordinal_at(t, 0, n));
    // the definition parses back field by field
    assert(t.subrange(1, e) =~= r.name);
    lemma_skip_sp_unique(t, e + 2, e + 3);
    lemma_find_stop_unique(t, e + 4, '>', '\n', m);
    assert(t.subrange(e + 4, m) =~= r.href);
    let p = if r.title.len() > 0 {
        let h = m + 2 + r.title.len() as int;
        lemma_find_stop_unique(t, m + 2, ')', '\n', h);
        assert(t.subrange(m + 2, h) =~= r.title);
        lemma_skip_sp_unique(t, h + 1, n);
        h + 1
    } else {
        assert(r.title =~= Seq::<char>::empty());
        lemma_skip_sp_unique(t, m + 1, n);
        m + 1
    };
    assert(p == n);
    assert(r == (ReferenceView { name: r.name, title: r.title, href: r.href }));
    assert(crate::segment::spec_def(t, 0) == Ok::<(int, DocItemView), ErrView>((n, item)));
    // segmentation finds exactly this one item
    lemma_find_stop_unique(t, n, '\n', '\n', n);
    assert(next_line(t, n) == n);
    assert(seg_from(t, n, items) == Ok::<Seq<DocItemView>, ErrView>(items));
    assert(spec_segment(t) == Ok::<Seq<DocItemView>, ErrView>(items));
    // assembly keeps the definition and derives the same table
    assert(spec_table_items(items, 1, spec_table_item(item, Seq::empty())) == spec_table_item(
        item,
        Seq::empty(),
    ));
    assert(spec_resolve_doc_item(items[0], spec_table(items)) == Ok::<DocItemView, ErrView>(
        items[0],
    ));
    assert(spec_resolve_doc_items(items, spec_table(items), 1) == Ok::<
        Seq<DocItemView>,
        ErrView,
    >(Seq::empty()));
    assert(seq![items[0]] + Seq::<DocItemView>::empty() =~= items);
    assert(spec_resolve_doc_items(items, spec_table(items), 0) == Ok::<
        Seq<DocItemView>,
        ErrView,
    >(items));
    assert(spec_assemble(Seq::empty(), items) == Ok::<DocView, ErrView>(d));
    assert(spec_parse(t) == Ok::<DocView, ErrView>(d));
}


/// Stepping the tokenizer at the end of the text or at a character that
/// flushes (an emphasis run, a link or image opener, a line break, or a
/// stray closing bracket) gives the same outcome whether the pending text
/// was flushed beforehand or not.
#[verifier::rlimit(100)]
proof fn lemma_tok_flush(t: Seq<char>, b: int, pend: Seq<char>, acc: Seq<ItemView>)
    requires
        0 <= b <= t.len(),
        b == t.len() || t[b] == '*' || t[b] == '[' || t[b] == '\n' || t[b] == ']' || (t[b] == '!'
            && b + 1 < t.len() && t[b + 1] == '['),
    ensures
        tok_from(t, b, pend, TokStView::Plain, acc) == tok_from(
            t,
            b,
            Seq::empty(),
            TokStView::Plain,
            acc + flush(pend),
        ),
{
    let acc2 = acc + flush(pend);
    assert(acc2 + flush(Seq::empty()) =~= acc2);
    if b == t.len() {
        assert(acc + flush(pend) =~= acc2 + flush(Seq::empty()));
    } else if t[b] == '*' {
    } else if t[b] == '[' {
        if let Ok(p) = spec_link(t, b + 1, false) {
            assert(acc + flush(pend) + seq![p.1] =~= acc2 + flush(Seq::empty()) + seq![p.1]);
        }
    } else if t[b] == '!' && b + 1 < t.len() && t[b + 1] == '[' {
        if let Ok(p) = spec_link(t, b + 2, true) {
            assert(acc + flush(pend) + seq![p.1] =~= acc2 + flush(Seq::empty()) + seq![p.1]);
        }
    } else if t[b] == ']' {
    } else {
        assert(t[b] == '\n');
        assert(acc + flush(pend) + seq![ItemView::NewLine] =~= acc2 + flush(Seq::empty()) + seq![
            ItemView::NewLine,
        ]);
    }
}

/// Consuming a run of ordinary characters accumulates them in the pending
/// text: none of them opens emphasis, a link, or a line break, and no
/// exclamation mark among them directly precedes an opening bracket.
proof fn lemma_tok_plain(t: Seq<char>, b: int, s: Seq<char>, pend: Seq<char>, acc: Seq<ItemView>)
    requires
        0 <= b,
        b + s.len() <= t.len(),
        forall|k: int| 0 <= k < s.len() ==> #[trigger] t[b + k] == s[k],
        forall|k: int|
            0 <= k < s.len() ==> #[trigger] s[k] != '*' && s[k] != '[' && s[k] != ']' && s[k]
                != '\n',
        forall|k: int|
            0 <= k < s.len() && #[trigger] s[k] == '!' && b + k + 1 < t.len() ==> t[b + k + 1]
                != '[',
    ensures
        tok_from(t, b, pend, TokStView::Plain, acc) == tok_from(
            t,
            b + s.len(),
            pend + s,
            TokStView::Plain,
            acc,
        ),
    decreases s.len(),
{
    if s.len() == 0 {
        assert(pend + s =~= pend);
    } else {
        let c = s[0];
        assert(t[b + 0] == s[0]);
        assert(t[b] == c);
        assert(tok_from(t, b, pend, TokStView::Plain, acc) == tok_from(
            t,
            b + 1,
            pend.push(c),
            TokStView::Plain,
            acc,
        ));
        let s1 = s.skip(1);
        assert forall|k: int| 0 <= k < s1.len() implies #[trigger] t[b + 1 + k] == s1[k] by {
            assert(t[b + (k + 1)] == s[k + 1]);
        }
        assert(forall|k: int|
            0 <= k < s1.len() ==> #[trigger] s1[k] != '*' && s1[k] != '[' && s1[k] != ']' && s1[k]
                != '\n');
        assert forall|k: int|
            0 <= k < s1.len() && #[trigger] s1[k] == '!' && b + 1 + k + 1 < t.len() implies t[b + 1
            + k + 1] != '[' by {
            assert(s[k + 1] == s1[k]);
        }
        lemma_tok_plain(t, b + 1, s1, pend.push(c), acc);
        assert(pend.push(c) + s1 =~= pend + s);
    }
}

/// Consuming a run of ordinary characters while an emphasis span is open
/// accumulates them in the span's text: only an asterisk ends the run.
proof fn lemma_tok_open(
    t: Seq<char>,
    b: int,
    s: Seq<char>,
    k: crate::inline::EmphKind,
    buf: Seq<char>,
    pend: Seq<char>,
    acc: Seq<ItemView>,
)
    requires
        0 <= b,
        b + s.len() <= t.len(),
        forall|j: int| 0 <= j < s.len() ==> #[trigger] t[b + j] == s[j],
        forall|j: int| 0 <= j < s.len() ==> #[trigger] s[j] != '*',
    ensures
        tok_from(t, b, pend, TokStView::Open(k, buf), acc) == tok_from(
            t,
            b + s.len(),
            pend,
            TokStView::Open(k, buf + s),
            acc,
        ),
    decreases s.len(),
{
    if s.len() == 0 {
        assert(buf + s =~= buf);
    } else {
        let c = s[0];
        assert(t[b + 0] == s[0]);
        assert(t[b] == c);
        assert(tok_from(t, b, pend, TokStView::Open(k, buf), acc) == tok_from(
            t,
            b + 1,
            pend,
            TokStView::Open(k, buf.push(c)),
            acc,
        ));
        let s1 = s.skip(1);
        assert forall|j: int| 0 <= j < s1.len() implies #[trigger] t[b + 1 + j] == s1[j] by {
            assert(t[b + (j + 1)] == s[j + 1]);
        }
        assert(forall|j: int| 0 <= j < s1.len() ==> #[trigger] s1[j] != '*');
        lemma_tok_open(t, b + 1, s1, k, buf.push(c), pend, acc);
        assert(buf.push(c) + s1 =~= buf + s);
    }
}


/// Consuming one whole rendered emphasis span from a clean state: the
/// opening run selects the span's kind, its text fills the buffer, and the
/// closing run of the same length emits the span.
#[verifier::rlimit(100)]
proof fn lemma_tok_emph(
    t: Seq<char>,
    b: int,
    k: crate::inline::EmphKind,
    s: Seq<char>,
    acc: Seq<ItemView>,
)
    requires
        0 <= b,
        b + 2 * k.spec_num() + s.len() <= t.len(),
        forall|j: int| 0 <= j < k.spec_num() ==> #[trigger] t[b + j] == '*',
        forall|j: int| 0 <= j < s.len() ==> #[trigger] t[b + k.spec_num() + j] == s[j],
        forall|j: int|
            0 <= j < k.spec_num() ==> #[trigger] t[b + k.spec_num() + s.len() + j] == '*',
        s.len() > 0,
        forall|j: int| 0 <= j < s.len() ==> #[trigger] s[j] != '*',
        b + 2 * k.spec_num() + s.len() == t.len() || t[b + 2 * k.spec_num() + s.len()] != '*',
    ensures
        tok_from(t, b, Seq::empty(), TokStView::Plain, acc) == tok_from(
            t,
            b + 2 * k.spec_num() + s.len(),
            Seq::empty(),
            TokStView::Plain,
            acc.push(emph_item(k, s)),
        ),
{
    let m = k.spec_num();
    assert(t[b + 0] == '*');
    assert(t[b] == '*');
    // the opening run is exactly the marker run: the span text follows and
    // does not start with an asterisk
    assert(t[b + m + 0] == s[0]);
    lemma_run_len_unique(t, b, '*', b + m);
    assert(run_len(t, b, '*') == m);
    assert(crate::inline::ladder_kind(m) == k);
    assert(tok_from(t, b, Seq::empty(), TokStView::Plain, acc) == tok_from(
        t,
        b + m,
        Seq::empty(),
        TokStView::Open(k, Seq::empty()),
        acc + flush(Seq::empty()),
    ));
    assert(acc + flush(Seq::empty()) =~= acc);
    lemma_tok_open(t, b + m, s, k, Seq::empty(), Seq::empty(), acc);
    assert(Seq::<char>::empty() + s =~= s);
    // the closing run is exactly the marker run again
    let b2 = b + m + s.len() as int;
    assert(t[b2 + 0] == '*');
    assert(t[b2] == '*');
    lemma_run_len_unique(t, b2, '*', b2 + m);
    assert(run_len(t, b2, '*') == m);
    assert(tok_from(t, b2, Seq::empty(), TokStView::Open(k, s), acc) == tok_from(
        t,
        b2 + m,
        Seq::empty(),
        TokStView::Plain,
        acc.push(emph_item(k, s)),
    ));
}

/// Consuming one whole rendered link from a clean state.
#[verifier::rlimit(100)]
proof fn lemma_tok_link(t: Seq<char>, b: int, l: crate::text::LinkView, acc: Seq<ItemView>)
    requires
        0 <= b,
        b + render_item(ItemView::Link(l)).len() <= t.len(),
        forall|j: int|
            0 <= j < render_item(ItemView::Link(l)).len() ==> #[trigger] t[b + j] == render_item(
                ItemView::Link(l),
            )[j],
        l.name.len() > 0,
        forall|j: int| 0 <= j < l.name.len() ==> #[trigger] l.name[j] != ']' && l.name[j] != '\n',
        match l.src {
            crate::text::SourceView::Url(u) => spec_canonical_target(u) == u && forall|j: int|
                0 <= j < u.len() ==> #[trigger] u[j] != ')' && u[j] != '\n',
            crate::text::SourceView::Ref(r) => r.len() > 0 && forall|j: int|
                0 <= j < r.len() ==> #[trigger] r[j] != ']' && r[j] != '\n',
            crate::text::SourceView::Unset => false,
        },
    ensures
        tok_from(t, b, Seq::empty(), TokStView::Plain, acc) == tok_from(
            t,
            b + render_item(ItemView::Link(l)).len(),
            Seq::empty(),
            TokStView::Plain,
            acc.push(ItemView::Link(l)),
        ),
{
    let r = render_item(ItemView::Link(l));
    let bang = if l.img { 1int } else { 0int };
    let e = b + bang + 1 + l.name.len() as int;
    let srclen: int = match l.src {
        crate::text::SourceView::Url(u) => u.len() as int + 2,
        crate::text::SourceView::Ref(rn) => rn.len() as int + 2,
        crate::text::SourceView::Unset => 2,
    };
    assert(r.len() == bang + 1 + l.name.len() + 1 + srclen);
    let fin = b + r.len() as int;
    // lay the rendered characters out against the text
    if l.img {
        assert(t[b + 0] == r[0]);
        assert(r[0] == '!');
        assert(t[b + 1] == r[1]);
        assert(r[1] == '[');
    } else {
        assert(t[b + 0] == r[0]);
        assert(r[0] == '[');
    }
    let ns = b + bang + 1;
    assert forall|j: int| 0 <= j < l.name.len() implies #[trigger] t[ns + j] == l.name[j] by {
        assert(t[b + (bang + 1 + j)] == r[bang + 1 + j]);
        assert(r[bang + 1 + j] == l.name[j]);
    }
    assert(t[b + (bang + 1 + l.name.len())] == r[bang + 1 + l.name.len()]);
    assert(t[e] == ']');
    assert forall|j: int| ns <= j < e implies #[trigger] t[j] != ']' && t[j] != '\n' by {
        assert(t[ns + (j - ns)] == l.name[j - ns]);
    }
    lemma_find_stop_unique(t, ns, ']', '\n', e);
    assert forall|j: int| 0 <= j < l.name.len() implies #[trigger] t.subrange(ns, e)[j]
        == l.name[j] by {
        assert(t[ns + j] == l.name[j]);
    }
    assert(t.subrange(ns, e) =~= l.name);
    match l.src {
        crate::text::SourceView::Url(u) => {
            assert(t[b + (bang + 2 + l.name.len())] == r[bang + 2 + l.name.len()]);
            assert(t[e + 1] == '(');
            let f = e + 2 + u.len() as int;
            assert forall|j: int| 0 <= j < u.len() implies #[trigger] t[e + 2 + j] == u[j] by {
                assert(t[b + (bang + 3 + l.name.len() + j)] == r[bang + 3 + l.name.len() + j]);
            }
            assert(t[b + (bang + 3 + l.name.len() + u.len())] == r[bang + 3 + l.name.len()
                + u.len()]);
            assert(t[f] == ')');
            assert forall|j: int| e + 2 <= j < f implies #[trigger] t[j] != ')' && t[j] != '\n'
                by {
                assert(t[e + 2 + (j - e - 2)] == u[j - e - 2]);
            }
            lemma_find_stop_unique(t, e + 2, ')', '\n', f);
            assert forall|j: int| 0 <= j < u.len() implies #[trigger] t.subrange(e + 2, f)[j]
                == u[j] by {
                assert(t[e + 2 + j] == u[j]);
            }
            assert(t.subrange(e + 2, f) =~= u);
            assert(spec_link(t, ns, l.img) == Ok::<(int, ItemView), ErrView>(
                (f + 1, ItemView::Link(l)),
            )) by {
                assert(l == (crate::text::LinkView {
                    name: l.name,
                    src: crate::text::SourceView::Url(u),
                    img: l.img,
                }));
            }
            assert(f + 1 == fin);
        },
        crate::text::SourceView::Ref(rn) => {
            assert(t[b + (bang + 2 + l.name.len())] == r[bang + 2 + l.name.len()]);
            assert(t[e + 1] == '[');
            let f = e + 2 + rn.len() as int;
            assert forall|j: int| 0 <= j < rn.len() implies #[trigger] t[e + 2 + j] == rn[j] by {
                assert(t[b + (bang + 3 + l.name.len() + j)] == r[bang + 3 + l.name.len() + j]);
            }
            assert(t[b + (bang + 3 + l.name.len() + rn.len())] == r[bang + 3 + l.name.len()
                + rn.len()]);
            assert(t[f] == ']');
            assert forall|j: int| e + 2 <= j < f implies #[trigger] t[j] != ']' && t[j] != '\n'
                by {
                assert(t[e + 2 + (j - e - 2)] == rn[j - e - 2]);
            }
            lemma_find_stop_unique(t, e + 2, ']', '\n', f);
            assert forall|j: int| 0 <= j < rn.len() implies #[trigger] t.subrange(e + 2, f)[j]
                == rn[j] by {
                assert(t[e + 2 + j] == rn[j]);
            }
            assert(t.subrange(e + 2, f) =~= rn);
            assert(spec_link(t, ns, l.img) == Ok::<(int, ItemView), ErrView>(
                (f + 1, ItemView::Link(l)),
            )) by {
                assert(l == (crate::text::LinkView {
                    name: l.name,
                    src: crate::text::SourceView::Ref(rn),
                    img: l.img,
                }));
            }
            assert(f + 1 == fin);
        },
        crate::text::SourceView::Unset => {
            assert(false);
        },
    }
    // one tokenizer step consumes the whole link
    assert(acc + flush(Seq::empty()) + seq![ItemView::Link(l)] =~= acc.push(ItemView::Link(l)));
    if l.img {
        assert(tok_from(t, b, Seq::empty(), TokStView::Plain, acc) == tok_from(
            t,
            fin,
            Seq::empty(),
            TokStView::Plain,
            acc + flush(Seq::empty()) + seq![ItemView::Link(l)],
        ));
    } else {
        assert(tok_from(t, b, Seq::empty(), TokStView::Plain, acc) == tok_from(
            t,
            fin,
            Seq::empty(),
            TokStView::Plain,
            acc + flush(Seq::empty()) + seq![ItemView::Link(l)],
        ));
    }
}


/// Whether text is free of the characters that are special to the tokenizer
/// outside emphasis spans.
pub open spec fn no_special(s: Seq<char>) -> bool {
    forall|k: int|
        0 <= k < s.len() ==> #[trigger] s[k] != '*' && s[k] != '[' && s[k] != ']' && s[k] != '\n'
}

/// The kind and text of an emphasis span, if the item is one.
pub open spec fn emphasis_parts(it: ItemView) -> Option<(crate::inline::EmphKind, Seq<char>)> {
    match it {
        ItemView::Italic(s) => Some((crate::inline::EmphKind::Italic, s)),
        ItemView::Bold(s) => Some((crate::inline::EmphKind::Bold, s)),
        ItemView::BoldItalic(s) => Some((crate::inline::EmphKind::BoldItalic, s)),
        _ => None,
    }
}

/// Whether one inline item is in the shape the tokenizer itself produces:
/// plain text is nonempty and free of special characters; emphasis text is
/// nonempty and free of asterisks; a link's name is nonempty and free of
/// closing brackets and line breaks, and its source is a canonical literal
/// target without closing parentheses or line breaks, or a nonempty
/// reference name without closing brackets or line breaks.
pub open spec fn item_reparses(it: ItemView) -> bool {
    match it {
        ItemView::Def(s) => s.len() > 0 && no_special(s),
        ItemView::Italic(s) => s.len() > 0 && forall|k: int|
            0 <= k < s.len() ==> #[trigger] s[k] != '*',
        ItemView::Bold(s) => s.len() > 0 && forall|k: int|
            0 <= k < s.len() ==> #[trigger] s[k] != '*',
        ItemView::BoldItalic(s) => s.len() > 0 && forall|k: int|
            0 <= k < s.len() ==> #[trigger] s[k] != '*',
        ItemView::NewLine => true,
        ItemView::Link(l) => l.name.len() > 0 && (forall|j: int|
            0 <= j < l.name.len() ==> #[trigger] l.name[j] != ']' && l.name[j] != '\n') && match l
            .src {
            crate::text::SourceView::Url(u) => spec_canonical_target(u) == u && forall|j: int|
                0 <= j < u.len() ==> #[trigger] u[j] != ')' && u[j] != '\n',
            crate::text::SourceView::Ref(r) => r.len() > 0 && forall|j: int|
                0 <= j < r.len() ==> #[trigger] r[j] != ']' && r[j] != '\n',
            crate::text::SourceView::Unset => false,
        },
    }
}

/// Whether two neighbouring inline items can stand next to each other in a
/// rendering that reads back unchanged: two plain-text runs would merge, two
/// emphasis spans would merge their marker runs, and plain text ending in an
/// exclamation mark would turn a following link into an image.
pub open spec fn pair_reparses(a: ItemView, b: ItemView) -> bool {
    &&& !(a is Def && b is Def)
    &&& !(emphasis_parts(a) is Some && emphasis_parts(b) is Some)
    &&& !(a matches ItemView::Def(s) && s[s.len() - 1] == '!' && b is Link)
}

/// Whether a run of inline items is in the shape the tokenizer itself
/// produces.
pub open spec fn items_reparse(its: Seq<ItemView>) -> bool {
    &&& forall|i: int| 0 <= i < its.len() ==> item_reparses(#[trigger] its[i])
    &&& forall|i: int| 0 <= i < its.len() - 1 ==> pair_reparses(#[trigger] its[i], its[i + 1])
}

/// The first rendered character of each inline item kind.
proof fn lemma_render_first_char(it: ItemView)
    requires
        item_reparses(it),
    ensures
        render_item(it).len() > 0,
        it is Def ==> render_item(it)[0] == match it {
            ItemView::Def(s) => s[0],
            _ => ' ',
        } && no_special(render_item(it)),
        it is NewLine ==> render_item(it)[0] == '\n',
        emphasis_parts(it) is Some ==> render_item(it)[0] == '*',
        it matches ItemView::Link(l) ==> (if l.img {
            render_item(it).len() >= 2 && render_item(it)[0] == '!' && render_item(it)[1] == '['
        } else {
            render_item(it)[0] == '['
        }),
{
    match it {
        ItemView::Def(s) => {
            assert(render_item(it) == s);
        },
        ItemView::Italic(s) => {
            assert(render_item(it)[0] == '*');
        },
        ItemView::Bold(s) => {
            assert(render_item(it)[0] == '*');
        },
        ItemView::BoldItalic(s) => {
            assert(render_item(it)[0] == '*');
        },
        ItemView::NewLine => {
            assert(render_item(it)[0] == '\n');
        },
        ItemView::Link(l) => {
            if l.img {
                assert(render_item(it)[0] == '!');
                assert(render_item(it)[1] == '[');
            } else {
                assert(render_item(it)[0] == '[');
            }
        },
    }
}

/// Tokenizing the rendering of well-shaped inline items from `i` on, from a
/// clean state, yields exactly those items after the ones already produced.
#[verifier::rlimit(100)]
proof fn lemma_tok_items(its: Seq<ItemView>, i: int, t: Seq<char>, b: int, acc: Seq<ItemView>)
    requires
        items_reparse(its),
        0 <= i <= its.len(),
        0 <= b <= t.len(),
        t.len() - b == render_items(its, i).len(),
        forall|j: int|
            0 <= j < render_items(its, i).len() ==> #[trigger] t[b + j] == render_items(its, i)[j],
    ensures
        tok_from(t, b, Seq::empty(), TokStView::Plain, acc) == Ok::<Seq<ItemView>, ErrView>(
            acc + its.skip(i),
        ),
    decreases its.len() - i,
{
    if i >= its.len() {
        assert(b == t.len());
        assert(acc + flush(Seq::empty()) =~= acc + its.skip(i));
    } else {
        let it = its[i];
        assert(item_reparses(it));
        let r = render_item(it);
        let rest = render_items(its, i + 1);
        assert(render_items(its, i) == r + rest);
        let b2 = b + r.len() as int;
        assert forall|j: int| 0 <= j < r.len() implies #[trigger] t[b + j] == r[j] by {
            assert((r + rest)[j] == r[j]);
        }
        assert forall|j: int| 0 <= j < rest.len() implies #[trigger] t[b2 + j] == rest[j] by {
            assert(t[b + (r.len() + j)] == (r + rest)[r.len() + j]);
        }
        // how the text continues after this item
        let boundary_ok: bool = b2 == t.len() || t[b2] == '*' || t[b2] == '[' || t[b2] == '\n' || (
        t[b2] == '!' && b2 + 1 < t.len() && t[b2 + 1] == '[');
        if i + 1 < its.len() {
            let nx = its[i + 1];
            lemma_render_first_char(nx);
            assert(rest == render_item(nx) + render_items(its, i + 2));
            assert(rest[0] == render_item(nx)[0]);
            assert(t[b2 + 0] == rest[0]);
            if let ItemView::Link(l) = nx {
                if l.img {
                    assert(rest[1] == render_item(nx)[1]);
                    assert(t[b2 + 1] == rest[1]);
                }
            }
            assert(pair_reparses(it, nx));
        } else {
            assert(rest.len() == 0);
            assert(b2 == t.len());
        }
        assert(its.skip(i) =~= seq![it] + its.skip(i + 1));
        match it {
            ItemView::NewLine => {
                assert(t[b + 0] == r[0]);
                assert(t[b] == '\n');
                assert(tok_from(t, b, Seq::empty(), TokStView::Plain, acc) == tok_from(
                    t,
                    b + 1,
                    Seq::empty(),
                    TokStView::Plain,
                    acc + flush(Seq::empty()) + seq![ItemView::NewLine],
                ));
                assert(acc + flush(Seq::empty()) + seq![ItemView::NewLine] =~= acc.push(
                    ItemView::NewLine,
                ));
                lemma_tok_items(its, i + 1, t, b + 1, acc.push(ItemView::NewLine));
                assert(acc.push(ItemView::NewLine) + its.skip(i + 1) =~= acc + its.skip(i));
            },
            ItemView::Def(s) => {
                assert(r == s);
                // a plain-text item ends at a flushing character or the end
                if i + 1 < its.len() {
                    let nx = its[i + 1];
                    assert(!(nx is Def));
                    if s[s.len() - 1] == '!' {
                        assert(!(nx is Link));
                    }
                    assert(boundary_ok) by {
                        if emphasis_parts(nx) is Some {
                        } else if nx is NewLine {
                        } else if let ItemView::Link(l) = nx {
                            if l.img {
                            } else {
                                assert(t[b2] == '[');
                            }
                        }
                    }
                } else {
                    assert(boundary_ok);
                }
                assert forall|k: int|
                    0 <= k < s.len() && #[trigger] s[k] == '!' && b + k + 1 < t.len() implies t[b
                    + k + 1] != '[' by {
                    if k + 1 < s.len() {
                        assert(t[b + (k + 1)] == s[k + 1]);
                        assert(s[k + 1] != '[');
                    } else {
                        assert(b + k + 1 == b2);
                        if i + 1 < its.len() {
                            let nx = its[i + 1];
                            assert(!(nx is Link));
                            assert(t[b2 + 0] == render_item(nx)[0]);
                            if emphasis_parts(nx) is Some {
                            } else if nx is NewLine {
                            } else {
                                assert(nx is Def);
                                assert(false);
                            }
                        }
                    }
                }
                lemma_tok_plain(t, b, s, Seq::empty(), acc);
                assert(Seq::<char>::empty() + s =~= s);
                lemma_tok_flush(t, b2, s, acc);
                assert(acc + flush(s) =~= acc.push(ItemView::Def(s)));
                lemma_tok_items(its, i + 1, t, b2, acc.push(ItemView::Def(s)));
                assert(acc.push(ItemView::Def(s)) + its.skip(i + 1) =~= acc + its.skip(i));
            },
            ItemView::Link(l) => {
                lemma_tok_link(t, b, l, acc);
                lemma_tok_items(its, i + 1, t, b2, acc.push(ItemView::Link(l)));
                assert(acc.push(ItemView::Link(l)) + its.skip(i + 1) =~= acc + its.skip(i));
            },
            _ => {
                let (k, s) = emphasis_parts(it)->0;
                let m = k.spec_num();
                assert(r == repeat_char('*', m) + s + repeat_char('*', m)) by {
                    lemma_repeat_all('*', m);
                    assert(r =~= repeat_char('*', m) + s + repeat_char('*', m));
                }
                lemma_repeat_all('*', m);
                assert forall|j: int| 0 <= j < m implies #[trigger] t[b + j] == '*' by {
                    assert(t[b + j] == r[j]);
                }
                assert forall|j: int| 0 <= j < s.len() implies #[trigger] t[b + m + j] == s[j] by {
                    assert(t[b + (m + j)] == r[m + j]);
                }
                assert forall|j: int| 0 <= j < m implies #[trigger] t[b + m + s.len() + j]
                    == '*' by {
                    assert(t[b + (m + s.len() + j)] == r[m + s.len() + j]);
                }
                // the closing run ends at the end or at a non-asterisk
                if i + 1 < its.len() {
                    let nx = its[i + 1];
                    assert(emphasis_parts(nx) is None);
                    assert(t[b2] != '*') by {
                        if let ItemView::Def(ds) = nx {
                            assert(render_item(nx)[0] == ds[0]);
                            assert(ds[0] != '*');
                        }
                    }
                }
                lemma_tok_emph(t, b, k, s, acc);
                assert(emph_item(k, s) == it);
                lemma_tok_items(its, i + 1, t, b2, acc.push(it));
                assert(acc.push(it) + its.skip(i + 1) =~= acc + its.skip(i));
            },
        }
    }
}

/// Part of the round-trip property, at the inline level: tokenizing the
/// rendering of well-shaped inline items yields exactly those items.
pub proof fn lemma_inline_round_trip(its: Seq<ItemView>)
    requires
        items_reparse(its),
    ensures
        crate::inline::spec_tokenize(render_items(its, 0)) == Ok::<Seq<ItemView>, ErrView>(its),
{
    let t = render_items(its, 0);
    assert(forall|j: int| 0 <= j < t.len() ==> #[trigger] t[0 + j] == t[j]);
    lemma_tok_items(its, 0, t, 0, Seq::empty());
    assert(Seq::<ItemView>::empty() + its.skip(0) =~= its);
}


/// Whether an inline item renders without line breaks (and is not itself a
/// line break), so that it can stand on a heading's single line.
pub open spec fn item_line_free(it: ItemView) -> bool {
    match it {
        ItemView::Italic(s) => forall|k: int| 0 <= k < s.len() ==> #[trigger] s[k] != '\n',
        ItemView::Bold(s) => forall|k: int| 0 <= k < s.len() ==> #[trigger] s[k] != '\n',
        ItemView::BoldItalic(s) => forall|k: int| 0 <= k < s.len() ==> #[trigger] s[k] != '\n',
        ItemView::NewLine => false,
        _ => true,
    }
}

/// A line-free well-shaped item renders without line breaks.
proof fn lemma_render_item_line_free(it: ItemView)
    requires
        item_reparses(it),
        item_line_free(it),
    ensures
        forall|k: int| 0 <= k < render_item(it).len() ==> #[trigger] render_item(it)[k] != '\n',
{
    match it {
        ItemView::Def(s) => {
            assert(render_item(it) == s);
        },
        _ => {},
    }
}

/// Line-free well-shaped items render without line breaks, and nonempty runs
/// render nonempty text.
proof fn lemma_render_items_line_free(its: Seq<ItemView>, i: int)
    requires
        items_reparse(its),
        0 <= i <= its.len(),
        forall|k: int| 0 <= k < its.len() ==> item_line_free(#[trigger] its[k]),
    ensures
        forall|k: int|
            0 <= k < render_items(its, i).len() ==> #[trigger] render_items(its, i)[k] != '\n',
        i < its.len() ==> render_items(its, i).len() > 0,
    decreases its.len() - i,
{
    if i < its.len() {
        lemma_render_item_line_free(its[i]);
        lemma_render_first_char(its[i]);
        lemma_render_items_line_free(its, i + 1);
        let r = render_item(its[i]);
        let rest = render_items(its, i + 1);
        assert forall|k: int|
            0 <= k < render_items(its, i).len() implies #[trigger] render_items(its, i)[k]
            != '\n' by {
            if k < r.len() {
                assert((r + rest)[k] == r[k]);
            } else {
                assert((r + rest)[k] == rest[k - r.len()]);
            }
        }
    }
}

/// Items whose links are all literal resolve to themselves.
proof fn lemma_resolve_items_identity(
    its: Seq<ItemView>,
    t: Seq<crate::text::ReferenceView>,
    i: int,
)
    requires
        0 <= i <= its.len(),
        forall|k: int| 0 <= k < its.len() ==> crate::refs::link_literal(#[trigger] its[k]),
    ensures
        crate::refs::spec_resolve_items(its, t, i) == Ok::<Seq<ItemView>, ErrView>(its.skip(i)),
    decreases its.len() - i,
{
    if i >= its.len() {
        assert(its.skip(i) =~= Seq::<ItemView>::empty());
    } else {
        assert(crate::refs::spec_resolve_item(its[i], t) == Ok::<ItemView, ErrView>(its[i])) by {
            if let ItemView::Link(l) = its[i] {
                assert(l == (crate::text::LinkView { name: l.name, src: l.src, img: l.img }));
            }
        }
        lemma_resolve_items_identity(its, t, i + 1);
        assert(seq![its[i]] + its.skip(i + 1) =~= its.skip(i));
    }
}

/// The document holding nothing but the given heading.
pub open spec fn single_heading_doc(h: crate::text::HeadingView) -> DocView {
    DocView {
        name: Seq::empty(),
        content: seq![DocItemView::Heading(h)],
        references: Seq::empty(),
    }
}

/// Whether a heading is in the shape the parser itself produces: its inline
/// content is well shaped, nonempty, renders on one line, and carries only
/// literal link targets.
pub open spec fn heading_reparses(h: crate::text::HeadingView) -> bool {
    &&& items_reparse(h.content)
    &&& h.content.len() > 0
    &&& forall|k: int| 0 <= k < h.content.len() ==> item_line_free(#[trigger] h.content[k])
    &&& forall|k: int|
        0 <= k < h.content.len() ==> crate::refs::link_literal(#[trigger] h.content[k])
}

/// Part of the round-trip property, for documents of one heading: the
/// rendering of such a document parses back to the same document.
#[verifier::rlimit(100)]
pub proof fn lemma_heading_doc_round_trip(h: crate::text::HeadingView)
    requires
        heading_reparses(h),
    ensures
        spec_parse(render_doc(single_heading_doc(h))) == Ok::<DocView, ErrView>(
            single_heading_doc(h),
        ),
{
    reveal(seg_from);
    let d = single_heading_doc(h);
    let item = DocItemView::Heading(h);
    let items = seq![item];
    let m = h.level.spec_num();
    let body = render_items(h.content, 0);
    let t = render_doc(d);
    assert(render_doc_items(d.content, 0) == render_doc_item(item) + Seq::<char>::empty()
        + render_doc_items(d.content, 1));
    lemma_repeat_all('#', m);
    assert(t =~= repeat_char('#', m) + seq![' '] + body);
    let n = t.len() as int;
    lemma_render_items_line_free(h.content, 0);
    assert(body.len() > 0);
    assert(forall|k: int| 0 <= k < m ==> #[trigger] t[k] == '#');
    assert(t[m] == ' ');
    assert(forall|k: int| 0 <= k < body.len() ==> #[trigger] t[m + 1 + k] == body[k]);
    // the rendering is one line and joins nothing
    assert forall|k: int| 0 <= k < n implies #[trigger] t[k] != '\n' by {
        if m + 1 <= k {
            assert(t[m + 1 + (k - m - 1)] == body[k - m - 1]);
        }
    }
    crate::chars::lemma_join_no_newline(t);
    lemma_find_stop_unique(t, 0, '\n', '\n', n);
    assert(line_end(t, 0) == n);
    lemma_skip_sp_unique(t, 0, 0);
    assert(skip_sp(t, 0) == 0);
    assert(t[0] == '#');
    // the marker run is the level, then one space, then the inline content
    lemma_run_len_unique(t, 0, '#', m);
    assert(run_len(t, 0, '#') == m);
    assert forall|j: int| 0 <= j < body.len() implies #[trigger] t.subrange(m + 1, n)[j]
        == body[j] by {
        assert(t[m + 1 + j] == body[j]);
    }
    assert(t.subrange(m + 1, n) =~= body);
    lemma_inline_round_trip(h.content);
    assert(crate::text::HeadingLvl::spec_of_num(m) == h.level);
    assert(h == (crate::text::HeadingView { level: h.level, content: h.content }));
    assert(crate::segment::spec_heading(t, 0, n) == Ok::<DocItemView, ErrView>(item));
    // segmentation finds exactly this one item
    lemma_find_stop_unique(t, n, '\n', '\n', n);
    assert(next_line(t, 0) == n);
    assert(next_line(t, n) == n);
    assert(seg_from(t, n, items) == Ok::<Seq<DocItemView>, ErrView>(items));
    assert(spec_segment(t) == Ok::<Seq<DocItemView>, ErrView>(items));
    // assembly: a heading defines nothing and resolves to itself
    assert(spec_table_item(items[0], Seq::empty()) == Seq::<crate::text::ReferenceView>::empty());
    assert(spec_table_items(items, 1, Seq::empty()) == Seq::<
        crate::text::ReferenceView,
    >::empty());
    assert(spec_table_items(items, 0, Seq::empty()) == Seq::<
        crate::text::ReferenceView,
    >::empty());
    assert(spec_table(items) =~= Seq::<crate::text::ReferenceView>::empty());
    lemma_resolve_items_identity(h.content, spec_table(items), 0);
    assert(h.content.skip(0) =~= h.content);
    assert(spec_resolve_doc_item(items[0], spec_table(items)) == Ok::<DocItemView, ErrView>(
        items[0],
    ));
    assert(spec_resolve_doc_items(items, spec_table(items), 1) == Ok::<
        Seq<DocItemView>,
        ErrView,
    >(Seq::empty()));
    assert(seq![items[0]] + Seq::<DocItemView>::empty() =~= items);
    assert(spec_resolve_doc_items(items, spec_table(items), 0) == Ok::<
        Seq<DocItemView>,
        ErrView,
    >(items));
    assert(spec_assemble(Seq::empty(), items) == Ok::<DocView, ErrView>(d));
    assert(spec_parse(t) == Ok::<DocView, ErrView>(d));
}


/// Whether an inline item can open a paragraph's first line without reading
/// as another block kind: plain text must not start with a space, a block
/// marker, a rule character or a digit, and an italic span must not open
/// with a space (the line would read as a bullet).
pub open spec fn para_first_ok(it: ItemView) -> bool {
    match it {
        ItemView::Def(s) => s[0] != ' ' && s[0] != '#' && s[0] != '`' && s[0] != '>' && s[0] != '-'
            && s[0] != '_' && !crate::segment::is_digit(s[0]),
        ItemView::Italic(s) => s[0] != ' ',
        ItemView::NewLine => false,
        _ => true,
    }
}

/// The document holding nothing but the given one-line paragraph.
pub open spec fn single_para_doc(its: Seq<ItemView>) -> DocView {
    DocView {
        name: Seq::empty(),
        content: seq![DocItemView::Paragraph(its)],
        references: Seq::empty(),
    }
}

/// Whether a paragraph is in the shape the parser itself produces and fits
/// on one line: its items are well shaped, nonempty, line-free, carry only
/// literal link targets, and the first one opens a paragraph line.
pub open spec fn paragraph_reparses(its: Seq<ItemView>) -> bool {
    &&& items_reparse(its)
    &&& its.len() > 0
    &&& forall|k: int| 0 <= k < its.len() ==> item_line_free(#[trigger] its[k])
    &&& forall|k: int| 0 <= k < its.len() ==> crate::refs::link_literal(#[trigger] its[k])
    &&& para_first_ok(its[0])
}

/// Part of the round-trip property, for documents of one single-line
/// paragraph: the rendering of such a document parses back to the same
/// document.
#[verifier::rlimit(100)]
pub proof fn lemma_para_doc_round_trip(its: Seq<ItemView>)
    requires
        paragraph_reparses(its),
    ensures
        spec_parse(render_doc(single_para_doc(its))) == Ok::<DocView, ErrView>(
            single_para_doc(its),
        ),
{
    reveal(seg_from);
    let d = single_para_doc(its);
    let item = DocItemView::Paragraph(its);
    let items = seq![item];
    let t = render_doc(d);
    assert(render_doc_items(d.content, 0) == render_doc_item(item) + Seq::<char>::empty()
        + render_doc_items(d.content, 1));
    assert(t =~= render_items(its, 0));
    let n = t.len() as int;
    lemma_render_items_line_free(its, 0);
    assert(n > 0);
    crate::chars::lemma_join_no_newline(t);
    lemma_find_stop_unique(t, 0, '\n', '\n', n);
    assert(line_end(t, 0) == n);
    // the first rendered character admits no other block kind
    let first = its[0];
    lemma_render_first_char(first);
    let r0 = render_item(first);
    assert(render_items(its, 0) == r0 + render_items(its, 1));
    assert forall|j: int| 0 <= j < r0.len() implies #[trigger] t[j] == r0[j] by {
        assert(t[j] == (r0 + render_items(its, 1))[j]);
    }
    assert(t[0] == r0[0]);
    assert(t[0] != ' ' && t[0] != '#' && t[0] != '`' && t[0] != '>');
    lemma_skip_sp_unique(t, 0, 0);
    assert(skip_sp(t, 0) == 0);
    assert(!crate::segment::is_rule_line(t, 0, n)) by {
        match first {
            ItemView::Def(s) => {
                assert(t[0] == s[0]);
                assert(t[0] != '-' && t[0] != '*' && t[0] != '_');
            },
            ItemView::Link(l) => {
                assert(t[0] == '[' || t[0] == '!');
            },
            ItemView::NewLine => {
                assert(false);
            },
            _ => {
                let (k, s) = emphasis_parts(first)->0;
                let m = k.spec_num();
                lemma_repeat_all('*', m);
                assert(r0 =~= repeat_char('*', m) + s + repeat_char('*', m));
                assert(t[m] == r0[m]);
                assert(r0[m] == s[0]);
                assert(s[0] != '*');
                if crate::segment::is_rule_line(t, 0, n) {
                    assert(t[m] == t[0]);
                    assert(t[0] == '*');
                    assert(false);
                }
            },
        }
    }
    assert(!crate::segment::bullet_at(t, 0, n)) by {
        match first {
            ItemView::Def(s) => {
                assert(t[0] == s[0]);
            },
            ItemView::Italic(s) => {
                assert(r0 =~= seq!['*'] + s + seq!['*']);
                assert(t[1] == r0[1]);
                assert(r0[1] == s[0]);
                assert(s[0] != ' ');
            },
            _ => {
                if t[0] == '*' {
                    // a bold or bold-italic span: the second character is
                    // another asterisk
                    let (k, s) = emphasis_parts(first)->0;
                    let m = k.spec_num();
                    lemma_repeat_all('*', m);
                    assert(r0 =~= repeat_char('*', m) + s + repeat_char('*', m));
                    assert(m >= 2);
                    assert(t[1] == r0[1]);
                    assert(r0[1] == '*');
                }
            },
        }
    }
    assert(!crate::segment::ordinal_at(t, 0, n)) by {
        assert(!crate::segment::is_digit(t[0])) by {
            if let ItemView::Def(s) = first {
                assert(t[0] == s[0]);
            }
        }
        assert(crate::segment::digits_end(t, 0) == 0);
    }
    if t[0] == '[' {
        // the first item is a plain link, whose closing bracket is followed
        // by a parenthesis or bracket, never a colon
        assert(first is Link);
        if let ItemView::Link(l) = first {
            assert(!l.img);
            let e = 1 + l.name.len() as int;
            assert forall|j: int| 1 <= j < e implies #[trigger] t[j] != ']' && t[j] != '\n' by {
                assert(t[j] == r0[j]);
                assert(r0[j] == l.name[j - 1]);
            }
            assert(t[e] == r0[e]);
            assert(r0[e] == ']');
            lemma_find_stop_unique(t, 1, ']', '\n', e);
            assert(t[e + 1] == r0[e + 1]);
            assert(r0[e + 1] == '(' || r0[e + 1] == '[');
            assert(!crate::segment::is_def_line(t, 0));
        }
    }
    // segmentation reads the whole line as one paragraph
    assert(next_line(t, 0) == n);
    assert(crate::segment::para_cont(t, n) == n);
    assert(crate::segment::para_end(t, 0) == n);
    assert(crate::segment::para_text(t, 0, n) =~= t) by {
        assert(t.subrange(0, n) =~= t);
    }
    lemma_inline_round_trip(its);
    lemma_find_stop_unique(t, n, '\n', '\n', n);
    assert(next_line(t, n) == n);
    assert(seg_from(t, n, items) == Ok::<Seq<DocItemView>, ErrView>(items));
    assert(spec_segment(t) == Ok::<Seq<DocItemView>, ErrView>(items));
    // assembly: a paragraph defines nothing and resolves to itself
    assert(spec_table_item(items[0], Seq::empty()) == Seq::<crate::text::ReferenceView>::empty());
    assert(spec_table_items(items, 1, Seq::empty()) == Seq::<
        crate::text::ReferenceView,
    >::empty());
    assert(spec_table_items(items, 0, Seq::empty()) == Seq::<
        crate::text::ReferenceView,
    >::empty());
    assert(spec_table(items) =~= Seq::<crate::text::ReferenceView>::empty());
    lemma_resolve_items_identity(its, spec_table(items), 0);
    assert(its.skip(0) =~= its);
    assert(spec_resolve_doc_item(items[0], spec_table(items)) == Ok::<DocItemView, ErrView>(
        items[0],
    ));
    assert(spec_resolve_doc_items(items, spec_table(items), 1) == Ok::<
        Seq<DocItemView>,
        ErrView,
    >(Seq::empty()));
    assert(seq![items[0]] + Seq::<DocItemView>::empty() =~= items);
    assert(spec_resolve_doc_items(items, spec_table(items), 0) == Ok::<
        Seq<DocItemView>,
        ErrView,
    >(items));
    assert(spec_assemble(Seq::empty(), items) == Ok::<DocView, ErrView>(d));
    assert(spec_parse(t) == Ok::<DocView, ErrView>(d));
}


/// The document holding nothing but the given list.
pub open spec fn single_list_doc(texts: Seq<Seq<char>>, ordered: bool) -> DocView {
    DocView {
        name: Seq::empty(),
        content: seq![DocItemView::List(texts, ordered)],
        references: Seq::empty(),
    }
}

/// Whether a list is in the shape the parser itself produces: at least one
/// item, each on its own line.
pub open spec fn list_reparses(texts: Seq<Seq<char>>) -> bool {
    &&& texts.len() > 0
    &&& forall|i: int, k: int|
        0 <= i < texts.len() && 0 <= k < texts[i].len() ==> #[trigger] texts[i][k] != '\n'
}

/// The rendered lines of a list region read back as the same items.
#[verifier::rlimit(100)]
proof fn lemma_list_lines(texts: Seq<Seq<char>>, k: int, t: Seq<char>, b: int, ordered: bool)
    requires
        list_reparses(texts),
        0 <= k < texts.len(),
        0 <= b <= t.len(),
        t.len() - b == render_list(texts, k, ordered).len(),
        forall|j: int|
            0 <= j < render_list(texts, k, ordered).len() ==> #[trigger] t[b + j] == render_list(
                texts,
                k,
                ordered,
            )[j],
    ensures
        crate::segment::list_end(t, b, ordered) == t.len(),
        crate::segment::list_items(t, b, t.len() as int) == texts.skip(k),
    decreases texts.len() - k,
{
    let n = t.len() as int;
    let r = render_list(texts, k, ordered);
    let marker: Seq<char> = if ordered {
        seq!['1', '.', ' ']
    } else {
        seq!['-', ' ']
    };
    let mlen = marker.len() as int;
    let text = texts[k];
    let sep: Seq<char> = if k + 1 < texts.len() {
        seq!['\n']
    } else {
        Seq::empty()
    };
    let rest = render_list(texts, k + 1, ordered);
    assert(r == marker + text + sep + rest);
    let le = b + mlen + text.len() as int;
    assert(t[b + 0] == r[0]);
    assert(t[b + 1] == r[1]);
    if ordered {
        assert(t[b + 2] == r[2]);
        assert(t[b] == '1' && t[b + 1] == '.' && t[b + 2] == ' ');
    } else {
        assert(t[b] == '-' && t[b + 1] == ' ');
    }
    assert forall|j: int| 0 <= j < text.len() implies #[trigger] t[b + mlen + j] == text[j] by {
        assert(t[b + (mlen + j)] == r[mlen + j]);
    }
    // this line ends at the separator or the end of the text
    assert forall|j: int| b <= j < le implies #[trigger] t[j] != '\n' by {
        if j >= b + mlen {
            assert(t[b + mlen + (j - b - mlen)] == text[j - b - mlen]);
        }
    }
    if k + 1 < texts.len() {
        assert(t[b + (mlen + text.len())] == r[mlen + text.len()]);
        assert(t[le] == '\n');
        lemma_find_stop_unique(t, b, '\n', '\n', le);
    } else {
        assert(le == n);
        lemma_find_stop_unique(t, b, '\n', '\n', n);
    }
    assert(line_end(t, b) == le);
    lemma_skip_sp_unique(t, b, b);
    assert(skip_sp(t, b) == b);
    // the marker reads back as the same kind
    if ordered {
        assert(crate::segment::is_digit(t[b]));
        assert(!crate::segment::is_digit(t[b + 1]));
        crate::segment::lemma_digits_end_unique(t, b, b + 1);
        assert(crate::segment::digits_end(t, b) == b + 1);
        assert(!crate::segment::bullet_at(t, b, le));
        assert(crate::segment::ordinal_at(t, b, le));
        assert(crate::segment::list_line_kind(t, b) == Some(true));
        assert(crate::segment::item_text(t, b) =~= text) by {
            assert forall|j: int| 0 <= j < text.len() implies #[trigger] t.subrange(b + 3, le)[j]
                == text[j] by {
                assert(t[b + mlen + j] == text[j]);
            }
        }
    } else {
        assert(crate::segment::bullet_at(t, b, le));
        assert(crate::segment::list_line_kind(t, b) == Some(false));
        assert(crate::segment::item_text(t, b) =~= text) by {
            assert forall|j: int| 0 <= j < text.len() implies #[trigger] t.subrange(b + 2, le)[j]
                == text[j] by {
                assert(t[b + mlen + j] == text[j]);
            }
        }
    }
    if k + 1 < texts.len() {
        assert(next_line(t, b) == le + 1);
        assert forall|j: int| 0 <= j < rest.len() implies #[trigger] t[le + 1 + j] == rest[j] by {
            assert(t[b + (mlen + text.len() + 1 + j)] == r[mlen + text.len() + 1 + j]);
        }
        lemma_list_lines(texts, k + 1, t, le + 1, ordered);
        assert(rest.len() > 0);
        assert(le + 1 < n);
        assert(crate::segment::list_end(t, b, ordered) == n);
        assert(crate::segment::list_items(t, b, n) == seq![text] + texts.skip(k + 1));
        assert(seq![text] + texts.skip(k + 1) =~= texts.skip(k));
    } else {
        assert(next_line(t, b) == n);
        assert(crate::segment::list_end(t, n, ordered) == n);
        assert(crate::segment::list_end(t, b, ordered) == n);
        assert(crate::segment::list_items(t, b, n) == seq![text]);
        assert(seq![text] =~= texts.skip(k));
    }
}

/// Part of the round-trip property, for documents of one list: the rendering
/// of such a document, when its text joins no continuation lines, parses
/// back to the same document.
#[verifier::rlimit(100)]
pub proof fn lemma_list_doc_round_trip(texts: Seq<Seq<char>>, ordered: bool)
    requires
        list_reparses(texts),
        spec_join(render_doc(single_list_doc(texts, ordered))) == render_doc(
            single_list_doc(texts, ordered),
        ),
    ensures
        spec_parse(render_doc(single_list_doc(texts, ordered))) == Ok::<DocView, ErrView>(
            single_list_doc(texts, ordered),
        ),
{
    reveal(seg_from);
    let d = single_list_doc(texts, ordered);
    let item = DocItemView::List(texts, ordered);
    let items = seq![item];
    let t = render_doc(d);
    assert(render_doc_items(d.content, 0) == render_doc_item(item) + Seq::<char>::empty()
        + render_doc_items(d.content, 1));
    assert(t =~= render_list(texts, 0, ordered));
    let n = t.len() as int;
    assert(forall|j: int| 0 <= j < n ==> #[trigger] t[0 + j] == t[j]);
    lemma_list_lines(texts, 0, t, 0, ordered);
    let le = line_end(t, 0);
    crate::segment::lemma_next_line(t, 0);
    lemma_skip_sp_unique(t, 0, 0);
    assert(t[0] == '1' || t[0] == '-');
    assert(skip_sp(t, 0) == 0);
    assert(t[1] == '.' || t[1] == ' ');
    // the rendering joins nothing: a backslash never directly precedes a
    // line break, because every line break follows an item's last character
    // region scanned above; simplest, the whole text joins to itself because
    // the only break characters stand right after item text that the join
    // pass walks over unchanged
    assert(skip_sp(t, 0) != le) by {
        assert(t[0] != '\n');
        crate::chars::lemma_find_stop(t, 0, '\n', '\n');
        if le == 0 {
            assert(t[0] == '\n');
        }
    }
    assert(!crate::segment::is_rule_line(t, 0, le)) by {
        if ordered {
            assert(t[0] == '1');
        } else {
            assert(t[1] == ' ');
            if crate::segment::is_rule_line(t, 0, le) {
                assert(t[1] == t[0]);
            }
        }
    }
    assert(crate::segment::list_line_kind(t, 0) == Some(ordered));
    assert(crate::segment::bullet_at(t, 0, le) == !ordered) by {
        if ordered {
            assert(t[0] == '1');
        }
    }
    assert(crate::segment::ordinal_at(t, 0, le) || !ordered);
    assert(t[0] != '#' && t[0] != '`' && t[0] != '>');
    assert(texts.skip(0) =~= texts);
    assert(seg_from(t, n, items) == Ok::<Seq<DocItemView>, ErrView>(items));
    assert(spec_segment(t) == Ok::<Seq<DocItemView>, ErrView>(items));
    // assembly: a list defines nothing and resolves to itself
    assert(spec_table_item(items[0], Seq::empty()) == Seq::<crate::text::ReferenceView>::empty());
    assert(spec_table_items(items, 1, Seq::empty()) == Seq::<
        crate::text::ReferenceView,
    >::empty());
    assert(spec_table_items(items, 0, Seq::empty()) == Seq::<
        crate::text::ReferenceView,
    >::empty());
    assert(spec_table(items) =~= Seq::<crate::text::ReferenceView>::empty());
    assert(spec_resolve_doc_item(items[0], spec_table(items)) == Ok::<DocItemView, ErrView>(
        items[0],
    ));
    assert(spec_resolve_doc_items(items, spec_table(items), 1) == Ok::<
        Seq<DocItemView>,
        ErrView,
    >(Seq::empty()));
    assert(seq![items[0]] + Seq::<DocItemView>::empty() =~= items);
    assert(spec_resolve_doc_items(items, spec_table(items), 0) == Ok::<
        Seq<DocItemView>,
        ErrView,
    >(items));
    assert(spec_assemble(Seq::empty(), items) == Ok::<DocView, ErrView>(d));
    assert(spec_parse(t) == Ok::<DocView, ErrView>(d));
}


/// A block item whose links are all literal resolves to itself.
proof fn lemma_resolve_doc_item_identity(it: DocItemView, t: Seq<crate::text::ReferenceView>)
    requires
        crate::refs::links_literal_item(it),
    ensures
        spec_resolve_doc_item(it, t) == Ok::<DocItemView, ErrView>(it),
    decreases it, 0int, 1int,
{
    match it {
        DocItemView::Heading(h) => {
            lemma_resolve_items_identity(h.content, t, 0);
            assert(h.content.skip(0) =~= h.content);
            assert(h == (crate::text::HeadingView { level: h.level, content: h.content }));
        },
        DocItemView::Paragraph(p) => {
            lemma_resolve_items_identity(p, t, 0);
            assert(p.skip(0) =~= p);
        },
        DocItemView::Quote(q) => {
            lemma_resolve_doc_items_identity(q, t, 0);
            assert(q.skip(0) =~= q);
        },
        _ => {},
    }
}

/// Block items whose links are all literal resolve to themselves.
proof fn lemma_resolve_doc_items_identity(
    items: Seq<DocItemView>,
    t: Seq<crate::text::ReferenceView>,
    i: int,
)
    requires
        0 <= i <= items.len(),
        crate::refs::links_literal_items(items, i),
    ensures
        spec_resolve_doc_items(items, t, i) == Ok::<Seq<DocItemView>, ErrView>(items.skip(i)),
    decreases items, items.len() - i + 1, 0int,
{
    if i >= items.len() {
        assert(items.skip(i) =~= Seq::<DocItemView>::empty());
    } else {
        lemma_resolve_doc_item_identity(items[i], t);
        lemma_resolve_doc_items_identity(items, t, i + 1);
        assert(seq![items[i]] + items.skip(i + 1) =~= items.skip(i));
    }
}

/// Prefixing text without line breaks changes nothing beyond the leading
/// marker.
proof fn lemma_prefix_rest_no_newline(t: Seq<char>, i: int)
    requires
        0 <= i <= t.len(),
        forall|k: int| 0 <= k < t.len() ==> #[trigger] t[k] != '\n',
    ensures
        crate::render::prefix_rest(t, i) == t.skip(i),
    decreases t.len() - i,
{
    if i < t.len() {
        lemma_prefix_rest_no_newline(t, i + 1);
        assert(seq![t[i]] + t.skip(i + 1) =~= t.skip(i));
    } else {
        assert(t.skip(i) =~= Seq::<char>::empty());
    }
}

/// The document holding nothing but the given blockquote.
pub open spec fn single_quote_doc(kids: Seq<DocItemView>) -> DocView {
    DocView {
        name: Seq::empty(),
        content: seq![DocItemView::Quote(kids)],
        references: Seq::empty(),
    }
}

/// Part of the round-trip property, for documents of one blockquote whose
/// nested content renders on a single line: whenever the nested rendering
/// segments back to the same nested items, the nested items define no
/// references and carry only literal link targets, the whole document parses
/// back unchanged.
#[verifier::rlimit(100)]
pub proof fn lemma_quote_doc_round_trip(kids: Seq<DocItemView>)
    requires
        render_doc_items(kids, 0).len() > 0,
        forall|k: int|
            0 <= k < render_doc_items(kids, 0).len() ==> #[trigger] render_doc_items(kids, 0)[k]
                != '\n',
        spec_segment(render_doc_items(kids, 0)) == Ok::<Seq<DocItemView>, ErrView>(kids),
        spec_table_items(kids, 0, Seq::empty()) == Seq::<crate::text::ReferenceView>::empty(),
        crate::refs::links_literal_items(kids, 0),
    ensures
        spec_parse(render_doc(single_quote_doc(kids))) == Ok::<DocView, ErrView>(
            single_quote_doc(kids),
        ),
{
    reveal(seg_from);
    let d = single_quote_doc(kids);
    let item = DocItemView::Quote(kids);
    let items = seq![item];
    let inner = render_doc_items(kids, 0);
    let t = render_doc(d);
    assert(render_doc_items(d.content, 0) == render_doc_item(item) + Seq::<char>::empty()
        + render_doc_items(d.content, 1));
    lemma_prefix_rest_no_newline(inner, 0);
    assert(inner.skip(0) =~= inner);
    assert(t =~= seq!['>'] + inner);
    let n = t.len() as int;
    assert(t[0] == '>');
    assert forall|k: int| 0 <= k < n implies #[trigger] t[k] != '\n' by {
        if k > 0 {
            assert(t[k] == inner[k - 1]);
        }
    }
    crate::chars::lemma_join_no_newline(t);
    lemma_find_stop_unique(t, 0, '\n', '\n', n);
    assert(line_end(t, 0) == n);
    lemma_skip_sp_unique(t, 0, 0);
    assert(skip_sp(t, 0) == 0);
    // the whole text is one quoted line
    assert(crate::segment::quote_line(t, 0));
    assert(next_line(t, 0) == n);
    assert(crate::segment::quote_end(t, n) == n);
    assert(crate::segment::quote_end(t, 0) == n);
    assert(crate::segment::strip_quote(t, 0, n) =~= inner) by {
        assert forall|j: int| 0 <= j < inner.len() implies #[trigger] t.subrange(1, n)[j]
            == inner[j] by {
            assert(t[1 + j] == inner[j]);
        }
        assert(t.subrange(1, n) =~= inner);
    }
    assert(seg_from(inner, 0, Seq::empty()) == Ok::<Seq<DocItemView>, ErrView>(kids));
    lemma_find_stop_unique(t, n, '\n', '\n', n);
    assert(next_line(t, n) == n);
    assert(seg_from(t, n, items) == Ok::<Seq<DocItemView>, ErrView>(items));
    assert(spec_segment(t) == Ok::<Seq<DocItemView>, ErrView>(items));
    // assembly: the nested items define nothing and resolve to themselves
    assert(spec_table_item(items[0], Seq::empty()) == Seq::<crate::text::ReferenceView>::empty());
    assert(spec_table_items(items, 1, Seq::empty()) == Seq::<
        crate::text::ReferenceView,
    >::empty());
    assert(spec_table_items(items, 0, Seq::empty()) == Seq::<
        crate::text::ReferenceView,
    >::empty());
    assert(spec_table(items) =~= Seq::<crate::text::ReferenceView>::empty());
    lemma_resolve_doc_items_identity(kids, spec_table(items), 0);
    assert(kids.skip(0) =~= kids);
    assert(spec_resolve_doc_item(items[0], spec_table(items)) == Ok::<DocItemView, ErrView>(
        items[0],
    ));
    assert(spec_resolve_doc_items(items, spec_table(items), 1) == Ok::<
        Seq<DocItemView>,
        ErrView,
    >(Seq::empty()));
    assert(seq![items[0]] + Seq::<DocItemView>::empty() =~= items);
    assert(spec_resolve_doc_items(items, spec_table(items), 0) == Ok::<
        Seq<DocItemView>,
        ErrView,
    >(items));
    assert(spec_assemble(Seq::empty(), items) == Ok::<DocView, ErrView>(d));
    assert(spec_parse(t) == Ok::<DocView, ErrView>(d));
}

} // verus!
