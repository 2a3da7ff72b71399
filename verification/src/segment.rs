use vstd::prelude::*;
use crate::ErrView;
use crate::block::CodeView;
use crate::block::spec_kind_of_tag;
use crate::chars::find_stop;
use crate::chars::find_stop3;
use crate::chars::lemma_find_stop;
use crate::chars::lemma_find_stop3;
use crate::chars::lemma_run_len;
use crate::chars::lemma_skip_sp;
use crate::chars::run_len;
use crate::chars::scan_sp;
use crate::chars::scan_run;
use crate::chars::scan_stop;
use crate::chars::skip_sp;
use crate::block::CodeKind;
use crate::doc::DocItem;
use crate::doc::DocItemView;
use crate::ParseError;
use vstd::string::StringExecFns;
use crate::href::spec_canonical_target;
use crate::inline::spec_tokenize;
use crate::text::HeadingLvl;
use crate::text::HeadingView;
use crate::text::ReferenceView;

verus! {

/// The position of the line break that ends the line holding `i`, or the
/// text's length on the last line.
pub open spec fn line_end(s: Seq<char>, i: int) -> int {
    find_stop(s, i, '\n', '\n')
}

/// The start of the line after the one holding `i`, or the text's length.
pub open spec fn next_line(s: Seq<char>, i: int) -> int {
    if line_end(s, i) < s.len() {
        line_end(s, i) + 1
    } else {
        s.len() as int
    }
}

/// Where the next line starts: after `i`, and never past the end.
pub proof fn lemma_next_line(s: Seq<char>, i: int)
    requires
        0 <= i <= s.len(),
    ensures
        i <= next_line(s, i) <= s.len(),
        i < s.len() ==> i < next_line(s, i),
        i <= line_end(s, i) <= s.len(),
{
    lemma_find_stop(s, i, '\n', '\n');
}

/// Whether `c` is a decimal digit.
pub open spec fn is_digit(c: char) -> bool {
    '0' <= c && c <= '9'
}

/// The first position at or after `i` holding a non-digit, or the length.
pub open spec fn digits_end(s: Seq<char>, i: int) -> int
    decreases s.len() - i,
{
    if i < 0 || i >= s.len() {
        s.len() as int
    } else if is_digit(s[i]) {
        digits_end(s, i + 1)
    } else {
        i
    }
}

/// What `digits_end` returns.
pub proof fn lemma_digits_end(s: Seq<char>, i: int)
    requires
        0 <= i <= s.len(),
    ensures
        i <= digits_end(s, i) <= s.len(),
        forall|k: int| i <= k < digits_end(s, i) ==> is_digit(#[trigger] s[k]),
        digits_end(s, i) < s.len() ==> !is_digit(s[digits_end(s, i)]),
    decreases s.len() - i,
{
    if i < s.len() && is_digit(s[i]) {
        lemma_digits_end(s, i + 1);
    }
}

/// The position characterized by `lemma_digits_end` is unique.
pub proof fn lemma_digits_end_unique(s: Seq<char>, i: int, j: int)
    requires
        0 <= i <= j <= s.len(),
        forall|k: int| i <= k < j ==> is_digit(#[trigger] s[k]),
        j < s.len() ==> !is_digit(s[j]),
    ensures
        digits_end(s, i) == j,
    decreases j - i,
{
    if i < j {
        assert(is_digit(s[i]));
        lemma_digits_end_unique(s, i + 1, j);
    } else {
        lemma_digits_end(s, i);
    }
}

/// Whether the line `[j, le)` is a horizontal rule: at least three repeats
/// of one of the rule characters and nothing else.
pub open spec fn is_rule_line(s: Seq<char>, j: int, le: int) -> bool {
    &&& le - j >= 3
    &&& (s[j] == '-' || s[j] == '*' || s[j] == '_')
    &&& forall|k: int| j <= k < le ==> s[k] == s[j]
}

/// Whether a bullet list item starts at `j` on the line ending at `le`.
pub open spec fn bullet_at(s: Seq<char>, j: int, le: int) -> bool {
    &&& (s[j] == '-' || s[j] == '*')
    &&& j + 1 < le
    &&& s[j + 1] == ' '
}

/// Whether an ordinal list item starts at `j` on the line ending at `le`.
pub open spec fn ordinal_at(s: Seq<char>, j: int, le: int) -> bool {
    let d = digits_end(s, j);
    &&& d > j
    &&& d + 1 < le
    &&& s[d] == '.'
    &&& s[d + 1] == ' '
}

/// Whether a reference definition starts at `j`: a bracketed name followed
/// directly by a colon.
pub open spec fn is_def_line(s: Seq<char>, j: int) -> bool {
    let e = find_stop(s, j + 1, ']', '\n');
    &&& s[j] == '['
    &&& e < s.len()
    &&& s[e] == ']'
    &&& e + 1 < s.len()
    &&& s[e + 1] == ':'
}

/// Whether the line starting at `i` continues a paragraph: it is not blank
/// and starts no other block kind.
pub open spec fn para_line(s: Seq<char>, i: int) -> bool {
    let j = skip_sp(s, i);
    let le = line_end(s, i);
    &&& j < le
    &&& s[j] != '#'
    &&& s[j] != '`'
    &&& s[j] != '>'
    &&& !is_rule_line(s, j, le)
    &&& !bullet_at(s, j, le)
    &&& !ordinal_at(s, j, le)
    &&& !(s[j] == '[' && is_def_line(s, j))
}

/// Whether the line starting at `i` belongs to a blockquote: its first
/// non-space character is the quote marker.
pub open spec fn quote_line(s: Seq<char>, i: int) -> bool {
    let j = skip_sp(s, i);
    let le = line_end(s, i);
    j < le && s[j] == '>'
}

/// The start of the first line after `i` that does not belong to the
/// blockquote.
pub open spec fn quote_end(s: Seq<char>, i: int) -> int
    decreases s.len() - i,
    via quote_end_decreases
{
    if i < 0 || i >= s.len() {
        i
    } else if quote_line(s, i) {
        quote_end(s, next_line(s, i))
    } else {
        i
    }
}

#[via_fn]
proof fn quote_end_decreases(s: Seq<char>, i: int) {
    if 0 <= i < s.len() {
        lemma_next_line(s, i);
    }
}

/// Where the blockquote ends: after `i`, and never past the end.
pub proof fn lemma_quote_end(s: Seq<char>, i: int)
    requires
        0 <= i <= s.len(),
    ensures
        i <= quote_end(s, i) <= s.len(),
        i < s.len() && quote_line(s, i) ==> next_line(s, i) <= quote_end(s, i),
        quote_end(s, i) == quote_end(s, next_line(s, i)) || !(i < s.len() && quote_line(s, i)),
    decreases s.len() - i,
{
    if 0 <= i < s.len() && quote_line(s, i) {
        lemma_next_line(s, i);
        lemma_quote_end(s, next_line(s, i));
    }
}

/// The quoted lines in `[i, end)` with each line's marker (and anything
/// before it) removed, joined by line breaks.
pub open spec fn strip_quote(s: Seq<char>, i: int, end: int) -> Seq<char>
    decreases end - i,
    via strip_quote_decreases
{
    if i < 0 || i >= end || end > s.len() {
        Seq::empty()
    } else {
        let j = skip_sp(s, i);
        let le = line_end(s, i);
        let piece = if j + 1 <= le {
            s.subrange(j + 1, le)
        } else {
            Seq::empty()
        };
        if next_line(s, i) >= end {
            piece
        } else {
            piece + seq!['\n'] + strip_quote(s, next_line(s, i), end)
        }
    }
}

#[via_fn]
proof fn strip_quote_decreases(s: Seq<char>, i: int, end: int) {
    if 0 <= i < end <= s.len() {
        lemma_next_line(s, i);
    }
}

/// The stripped text of a blockquote region is strictly shorter than the
/// region: every line loses its marker.
pub proof fn lemma_strip_quote_len(s: Seq<char>, i: int)
    requires
        0 <= i < s.len(),
        quote_line(s, i),
    ensures
        i < quote_end(s, i) <= s.len(),
        strip_quote(s, i, quote_end(s, i)).len() < quote_end(s, i) - i,
    decreases s.len() - i,
{
    lemma_next_line(s, i);
    lemma_skip_sp(s, i);
    lemma_quote_end(s, i);
    let j = skip_sp(s, i);
    let le = line_end(s, i);
    let nx = next_line(s, i);
    let end = quote_end(s, i);
    lemma_quote_end(s, nx);
    if nx >= end {
        assert(end == nx);
        assert(j + 1 <= le);
        assert(strip_quote(s, i, end).len() == le - j - 1);
    } else {
        assert(quote_end(s, nx) == end);
        if nx >= s.len() || !quote_line(s, nx) {
            assert(quote_end(s, nx) == nx);
            assert(false);
        }
        lemma_strip_quote_len(s, nx);
        assert(le < s.len());
        assert(strip_quote(s, i, end).len() == (le - j - 1) + 1 + strip_quote(s, nx, end).len());
    }
}

/// The kind of list item the line starting at `i` opens, if any: `false`
/// for a bullet, `true` for an ordinal.
pub open spec fn list_line_kind(s: Seq<char>, i: int) -> Option<bool> {
    let j = skip_sp(s, i);
    let le = line_end(s, i);
    if j < le && bullet_at(s, j, le) {
        Some(false)
    } else if j < le && ordinal_at(s, j, le) {
        Some(true)
    } else {
        None
    }
}

/// The start of the first line after `i` that does not continue a list of
/// the given kind.
pub open spec fn list_end(s: Seq<char>, i: int, ordered: bool) -> int
    decreases s.len() - i,
    via list_end_decreases
{
    if i < 0 || i >= s.len() {
        i
    } else if list_line_kind(s, i) == Some(ordered) {
        list_end(s, next_line(s, i), ordered)
    } else {
        i
    }
}

#[via_fn]
proof fn list_end_decreases(s: Seq<char>, i: int, ordered: bool) {
    if 0 <= i < s.len() {
        lemma_next_line(s, i);
    }
}

/// Where the list ends: after `i`, and never past the end.
pub proof fn lemma_list_end(s: Seq<char>, i: int, ordered: bool)
    requires
        0 <= i <= s.len(),
    ensures
        i <= list_end(s, i, ordered) <= s.len(),
        i < s.len() && list_line_kind(s, i) == Some(ordered) ==> next_line(s, i) <= list_end(
            s,
            i,
            ordered,
        ),
    decreases s.len() - i,
{
    if 0 <= i < s.len() && list_line_kind(s, i) == Some(ordered) {
        lemma_next_line(s, i);
        lemma_list_end(s, next_line(s, i), ordered);
    }
}

/// The text of the list item on the line starting at `i`: everything after
/// the marker and the single space that follows it.
pub open spec fn item_text(s: Seq<char>, i: int) -> Seq<char> {
    let j = skip_sp(s, i);
    let le = line_end(s, i);
    if j < le && bullet_at(s, j, le) {
        s.subrange(j + 2, le)
    } else {
        let d = digits_end(s, j);
        if j < le && ordinal_at(s, j, le) {
            s.subrange(d + 2, le)
        } else {
            Seq::empty()
        }
    }
}

/// The item texts of the list lines in `[i, end)`.
pub open spec fn list_items(s: Seq<char>, i: int, end: int) -> Seq<Seq<char>>
    decreases end - i,
    via list_items_decreases
{
    if i < 0 || i >= end || end > s.len() {
        Seq::empty()
    } else if next_line(s, i) >= end {
        seq![item_text(s, i)]
    } else {
        seq![item_text(s, i)] + list_items(s, next_line(s, i), end)
    }
}

#[via_fn]
proof fn list_items_decreases(s: Seq<char>, i: int, end: int) {
    if 0 <= i < end <= s.len() {
        lemma_next_line(s, i);
    }
}

/// The start of the first line at or after `i` that does not continue a
/// paragraph.
pub open spec fn para_cont(s: Seq<char>, i: int) -> int
    decreases s.len() - i,
    via para_cont_decreases
{
    if i < 0 || i >= s.len() {
        i
    } else if para_line(s, i) {
        para_cont(s, next_line(s, i))
    } else {
        i
    }
}

#[via_fn]
proof fn para_cont_decreases(s: Seq<char>, i: int) {
    if 0 <= i < s.len() {
        lemma_next_line(s, i);
    }
}

/// Where the paragraph continuation scan ends: after `i`, never past the
/// end.
pub proof fn lemma_para_cont(s: Seq<char>, i: int)
    requires
        0 <= i <= s.len(),
    ensures
        i <= para_cont(s, i) <= s.len(),
        i < s.len() && para_line(s, i) ==> next_line(s, i) <= para_cont(s, i),
    decreases s.len() - i,
{
    if 0 <= i < s.len() && para_line(s, i) {
        lemma_next_line(s, i);
        lemma_para_cont(s, next_line(s, i));
    }
}

/// Where the paragraph starting at `i` ends: at the first following line
/// that is blank or opens another block kind.
pub open spec fn para_end(s: Seq<char>, i: int) -> int {
    para_cont(s, next_line(s, i))
}

/// The paragraph's raw text: each line from its first non-space character to
/// its end, joined by line breaks.
pub open spec fn para_text(s: Seq<char>, i: int, end: int) -> Seq<char>
    decreases end - i,
    via para_text_decreases
{
    if i < 0 || i >= end || end > s.len() {
        Seq::empty()
    } else {
        let j = skip_sp(s, i);
        let le = line_end(s, i);
        let piece = s.subrange(j, le);
        if next_line(s, i) >= end {
            piece
        } else {
            piece + seq!['\n'] + para_text(s, next_line(s, i), end)
        }
    }
}

#[via_fn]
proof fn para_text_decreases(s: Seq<char>, i: int, end: int) {
    if 0 <= i < end <= s.len() {
        lemma_next_line(s, i);
    }
}

/// What parsing a heading line yields: the marker run, clamped to depth 6,
/// an optional single space, then the rest of the line as inline content,
/// which must be nonempty.
pub open spec fn spec_heading(s: Seq<char>, j: int, le: int) -> Result<DocItemView, ErrView> {
    let r = run_len(s, j, '#');
    let c0 = if j + r < le && s[j + r] == ' ' {
        j + r + 1
    } else {
        j + r
    };
    match spec_tokenize(s.subrange(c0, le)) {
        Err(e) => Err(e),
        Ok(items) => if items.len() == 0 {
            Err(ErrView::IncompleteBuilderData)
        } else {
            Ok(
                DocItemView::Heading(
                    HeadingView { level: HeadingLvl::spec_of_num(r), content: items },
                ),
            )
        },
    }
}

/// Whether a closing fence of width `w` stands at `p`.
pub open spec fn fence_at(s: Seq<char>, p: int, w: int) -> bool {
    p + w <= s.len() && forall|k: int| p <= k < p + w ==> s[k] == '`'
}

/// The first position at or after `p` where a fence of width `w` stands, or
/// the length if there is none.
pub open spec fn find_run(s: Seq<char>, p: int, w: int) -> int
    decreases s.len() - p,
{
    if p < 0 || p + w > s.len() {
        s.len() as int
    } else if fence_at(s, p, w) {
        p
    } else {
        find_run(s, p + 1, w)
    }
}

/// What `find_run` returns.
pub proof fn lemma_find_run(s: Seq<char>, p: int, w: int)
    requires
        0 <= p <= s.len(),
        w >= 1,
    ensures
        p <= find_run(s, p, w) <= s.len(),
        forall|x: int| p <= x < find_run(s, p, w) ==> !fence_at(s, x, w),
        find_run(s, p, w) < s.len() ==> fence_at(s, find_run(s, p, w), w),
    decreases s.len() - p,
{
    if p + w > s.len() {
        assert forall|x: int| p <= x < s.len() implies !fence_at(s, x, w) by {}
    } else if !fence_at(s, p, w) {
        lemma_find_run(s, p + 1, w);
    }
}

/// The position characterized by `lemma_find_run` is unique.
pub proof fn lemma_find_run_unique(s: Seq<char>, p: int, w: int, q: int)
    requires
        0 <= p <= q <= s.len(),
        w >= 1,
        forall|x: int| p <= x < q ==> !fence_at(s, x, w),
        q < s.len() ==> fence_at(s, q, w),
    ensures
        find_run(s, p, w) == q,
    decreases q - p,
{
    if p < q {
        assert(!fence_at(s, p, w));
        lemma_find_run_unique(s, p + 1, w, q);
    } else {
        lemma_find_run(s, p, w);
        if q < s.len() && find_run(s, p, w) > q {
            assert(!fence_at(s, q, w));
        }
    }
}

/// What parsing a code span or block at `j` (a backtick) yields: the
/// position just after the closing fence and the code item, or the error.
/// The opening run is capped at width 3; at width 3 a language tag may
/// follow at once; the content runs to the first fence of the same width,
/// must be nonempty, and the closing fence must end its line.
pub open spec fn spec_code(s: Seq<char>, j: int) -> Result<(int, DocItemView), ErrView> {
    let r0 = run_len(s, j, '`');
    let w = if r0 >= 3 {
        3
    } else {
        r0
    };
    let te = if w == 3 {
        find_stop3(s, j + 3, ' ', '\n', '`')
    } else {
        j + w
    };
    let tag = if w == 3 {
        s.subrange(j + 3, te)
    } else {
        Seq::empty()
    };
    let q = find_run(s, te, w);
    if q >= s.len() {
        Err(ErrView::UnexpectedEnd)
    } else if q == te {
        Err(ErrView::EmptyContent)
    } else {
        let after = q + w;
        if after < s.len() && s[after] != '\n' {
            Err(ErrView::UnexpectedChar(s[after], after))
        } else {
            Ok(
                (
                    after,
                    DocItemView::Code(
                        CodeView { content: s.subrange(te, q), kind: spec_kind_of_tag(tag, w) },
                    ),
                ),
            )
        }
    }
}

/// What parsing a reference definition line at `j` yields: the position of
/// its line end and the definition, or the error. After the bracketed name
/// and the colon come optional spaces, the target in angle brackets, an
/// optional parenthesized title, and nothing else but spaces to the end of
/// the line. The name must be nonempty; the target is stored in canonical
/// form.
pub open spec fn spec_def(s: Seq<char>, j: int) -> Result<(int, DocItemView), ErrView> {
    let e = find_stop(s, j + 1, ']', '\n');
    let name = s.subrange(j + 1, e);
    let k = skip_sp(s, e + 2);
    if k >= s.len() {
        Err(ErrView::UnexpectedEnd)
    } else if s[k] != '<' {
        Err(ErrView::UnexpectedChar(s[k], k))
    } else {
        let m = find_stop(s, k + 1, '>', '\n');
        if m >= s.len() {
            Err(ErrView::UnexpectedEnd)
        } else if s[m] == '\n' {
            Err(ErrView::UnexpectedChar('\n', m))
        } else {
            let target = s.subrange(k + 1, m);
            let g = m + 1;
            if g < s.len() && s[g] == '(' {
                let h = find_stop(s, g + 1, ')', '\n');
                if h >= s.len() {
                    Err(ErrView::UnexpectedEnd)
                } else if s[h] == '\n' {
                    Err(ErrView::UnexpectedChar('\n', h))
                } else {
                    spec_def_tail(s, name, target, s.subrange(g + 1, h), h + 1)
                }
            } else {
                spec_def_tail(s, name, target, Seq::empty(), g)
            }
        }
    }
}

/// The end of a definition line: only spaces may remain before the line
/// break, and the builder requires a nonempty name.
pub open spec fn spec_def_tail(
    s: Seq<char>,
    name: Seq<char>,
    target: Seq<char>,
    title: Seq<char>,
    after: int,
) -> Result<(int, DocItemView), ErrView> {
    let p = skip_sp(s, after);
    if p < s.len() && s[p] != '\n' {
        Err(ErrView::UnexpectedChar(s[p], p))
    } else if name.len() == 0 {
        Err(ErrView::IncompleteBuilderData)
    } else {
        Ok(
            (
                p,
                DocItemView::Reference(
                    ReferenceView { name, title, href: spec_canonical_target(target) },
                ),
            ),
        )
    }
}

/// What segmenting the text from `i` on yields, with the items already
/// produced: the whole text split into block items, or the first error.
/// A line is classified by its first non-space character: a blank line
/// separates blocks; marker runs open headings; backticks open code;
/// quote markers open a blockquote whose stripped lines are segmented as
/// nested blocks; a line of three or more repeated rule characters is a
/// horizontal rule; bullet or ordinal markers collect a list; a bracketed
/// name with a colon is a reference definition; anything else starts a
/// paragraph, which runs until a blank line or a line opening another block
/// kind.
#[verifier::opaque]
#[verifier::rlimit(100)]
pub open spec fn seg_from(s: Seq<char>, i: int, acc: Seq<DocItemView>) -> Result<
    Seq<DocItemView>,
    ErrView,
>
    decreases s.len() - i,
    via seg_from_decreases
{
    if i < 0 {
        Err(ErrView::UnexpectedEnd)
    } else if i >= s.len() {
        Ok(acc)
    } else {
        let j = skip_sp(s, i);
        let le = line_end(s, i);
        if j == le {
            seg_from(s, next_line(s, i), acc)
        } else {
            let c = s[j];
            if c == '#' {
                match spec_heading(s, j, le) {
                    Err(e) => Err(e),
                    Ok(it) => seg_from(s, next_line(s, i), acc.push(it)),
                }
            } else if c == '`' {
                match spec_code(s, j) {
                    Err(e) => Err(e),
                    Ok(p) => seg_from(s, next_line(s, p.0), acc.push(p.1)),
                }
            } else if c == '>' {
                let end = quote_end(s, i);
                match seg_from(strip_quote(s, i, end), 0, Seq::empty()) {
                    Err(e) => Err(e),
                    Ok(kids) => seg_from(s, end, acc.push(DocItemView::Quote(kids))),
                }
            } else if is_rule_line(s, j, le) {
                seg_from(s, next_line(s, i), acc.push(DocItemView::HorizontalRule))
            } else if bullet_at(s, j, le) || ordinal_at(s, j, le) {
                let ordered = !bullet_at(s, j, le);
                let end = list_end(s, i, ordered);
                seg_from(s, end, acc.push(DocItemView::List(list_items(s, i, end), ordered)))
            } else if c == '[' && is_def_line(s, j) {
                match spec_def(s, j) {
                    Err(e) => Err(e),
                    Ok(p) => seg_from(s, next_line(s, p.0), acc.push(p.1)),
                }
            } else {
                let end = para_end(s, i);
                match spec_tokenize(para_text(s, i, end)) {
                    Err(e) => Err(e),
                    Ok(items) => seg_from(s, end, acc.push(DocItemView::Paragraph(items))),
                }
            }
        }
    }
}

/// A parsed code item ends after `j`, within the text.
pub proof fn lemma_spec_code_bounds(s: Seq<char>, j: int)
    requires
        0 <= j < s.len(),
        s[j] == '`',
    ensures
        spec_code(s, j) matches Ok(p) ==> j < p.0 <= s.len(),
{
    lemma_run_len(s, j, '`');
    let r0 = run_len(s, j, '`');
    let w = if r0 >= 3 {
        3int
    } else {
        r0
    };
    if w == 3 {
        lemma_find_stop3(s, j + 3, ' ', '\n', '`');
        lemma_find_run(s, find_stop3(s, j + 3, ' ', '\n', '`'), 3);
    } else {
        lemma_find_run(s, j + w, w);
    }
}

/// A parsed definition ends at its line end, after `j` and within the text.
pub proof fn lemma_spec_def_bounds(s: Seq<char>, j: int)
    requires
        0 <= j < s.len(),
    ensures
        spec_def(s, j) matches Ok(p) ==> j < p.0 <= s.len(),
{
    lemma_find_stop(s, j + 1, ']', '\n');
    let e = find_stop(s, j + 1, ']', '\n');
    if e + 2 <= s.len() {
        lemma_skip_sp(s, e + 2);
        let k = skip_sp(s, e + 2);
        if k < s.len() && s[k] == '<' {
            lemma_find_stop(s, k + 1, '>', '\n');
            let m = find_stop(s, k + 1, '>', '\n');
            if m < s.len() && s[m] != '\n' {
                let g = m + 1;
                if g < s.len() && s[g] == '(' {
                    lemma_find_stop(s, g + 1, ')', '\n');
                    let h = find_stop(s, g + 1, ')', '\n');
                    if h + 1 <= s.len() {
                        lemma_skip_sp(s, h + 1);
                    }
                } else {
                    lemma_skip_sp(s, g);
                }
            }
        }
    }
}

#[via_fn]
proof fn seg_from_decreases(s: Seq<char>, i: int, acc: Seq<DocItemView>) {
    if 0 <= i < s.len() {
        lemma_next_line(s, i);
        lemma_skip_sp(s, i);
        lemma_find_stop(s, i, '\n', '\n');
        let j = skip_sp(s, i);
        let le = line_end(s, i);
        if j > le {
            assert(le < s.len());
            assert(s[le] == '\n');
            assert(s[le] == ' ');
        }
        assert(j <= le);
        if j != le {
            if s[j] == '`' {
                lemma_spec_code_bounds(s, j);
                if let Ok(p) = spec_code(s, j) {
                    assert(j < p.0 <= s.len());
                    lemma_next_line(s, p.0);
                    assert(i < next_line(s, p.0) <= s.len());
                    assert(0 <= s.len() - next_line(s, p.0) < s.len() - i);
                }
            }
            if s[j] == '>' {
                assert(quote_line(s, i));
                lemma_strip_quote_len(s, i);
                assert(0 <= s.len() - quote_end(s, i) < s.len() - i);
            }
            lemma_list_end(s, i, false);
            lemma_list_end(s, i, true);
            if s[j] == '[' && is_def_line(s, j) {
                lemma_spec_def_bounds(s, j);
                if let Ok(p) = spec_def(s, j) {
                    assert(j < p.0 <= s.len());
                    lemma_next_line(s, p.0);
                    assert(i < next_line(s, p.0) <= s.len());
                }
            }
            lemma_para_cont(s, next_line(s, i));
        }
    }
}

/// What segmenting a whole text yields.
pub open spec fn spec_segment(s: Seq<char>) -> Result<Seq<DocItemView>, ErrView> {
    seg_from(s, 0, Seq::empty())
}

/// Find the position of the line break ending the line holding `i`.
fn line_end_x(t: &Vec<char>, i: usize) -> (r: usize)
    requires
        i <= t@.len(),
    ensures
        r as int == line_end(t@, i as int),
        i <= r <= t@.len(),
{
    scan_stop(t, i, '\n', '\n')
}

/// Find the start of the next line.
fn next_line_x(t: &Vec<char>, i: usize) -> (r: usize)
    requires
        i <= t@.len(),
    ensures
        r as int == next_line(t@, i as int),
        i <= r <= t@.len(),
        i < t@.len() ==> i < r,
{
    proof {
        lemma_next_line(t@, i as int);
    }
    let le = line_end_x(t, i);
    if le < t.len() {
        le + 1
    } else {
        t.len()
    }
}

/// Find the first non-digit position at or after `i`.
fn scan_digits(t: &Vec<char>, i: usize) -> (r: usize)
    requires
        i <= t@.len(),
    ensures
        r as int == digits_end(t@, i as int),
        i <= r <= t@.len(),
{
    let mut j: usize = i;
    while j < t.len()
        invariant
            i <= j <= t@.len(),
            forall|k: int| i <= k < j ==> is_digit(#[trigger] t@[k]),
        decreases t@.len() - j,
    {
        let c = t[j];
        if !(c >= '0' && c <= '9') {
            proof {
                lemma_digits_end_unique(t@, i as int, j as int);
            }
            return j;
        }
        j = j + 1;
    }
    proof {
        lemma_digits_end_unique(t@, i as int, j as int);
    }
    j
}

/// Whether the line `[j, le)` is a horizontal rule.
fn is_rule_x(t: &Vec<char>, j: usize, le: usize) -> (r: bool)
    requires
        j < le <= t@.len(),
    ensures
        r == is_rule_line(t@, j as int, le as int),
{
    let c = t[j];
    if !(c == '-' || c == '*' || c == '_') {
        return false;
    }
    if le - j < 3 {
        return false;
    }
    let mut k: usize = j;
    while k < le
        invariant
            j <= k <= le <= t@.len(),
            c == t@[j as int],
            forall|x: int| j <= x < k ==> t@[x] == t@[j as int],
        decreases le - k,
    {
        if t[k] != c {
            return false;
        }
        k = k + 1;
    }
    true
}

/// Whether a bullet list item starts at `j` on the line ending at `le`.
fn bullet_x(t: &Vec<char>, j: usize, le: usize) -> (r: bool)
    requires
        j < le <= t@.len(),
    ensures
        r == bullet_at(t@, j as int, le as int),
{
    let c = t[j];
    (c == '-' || c == '*') && j + 1 < le && t[j + 1] == ' '
}

/// Whether an ordinal list item starts at `j` on the line ending at `le`.
fn ordinal_x(t: &Vec<char>, j: usize, le: usize) -> (r: bool)
    requires
        j < le <= t@.len(),
    ensures
        r == ordinal_at(t@, j as int, le as int),
{
    let n = t.len();
    let d = scan_digits(t, j);
    d > j && d < le && d + 1 < le && t[d] == '.' && t[d + 1] == ' '
}

/// Whether a reference definition pattern starts at `j`.
fn is_def_x(t: &Vec<char>, j: usize) -> (r: bool)
    requires
        j < t@.len(),
    ensures
        r == is_def_line(t@, j as int),
{
    let n = t.len();
    if t[j] != '[' {
        return false;
    }
    let e = scan_stop(t, j + 1, ']', '\n');
    e < n && t[e] == ']' && e + 1 < n && t[e + 1] == ':'
}

/// Whether the line starting at `i` continues a paragraph.
fn para_line_x(t: &Vec<char>, i: usize) -> (r: bool)
    requires
        i <= t@.len(),
    ensures
        r == para_line(t@, i as int),
{
    let j = scan_sp(t, i);
    let le = line_end_x(t, i);
    if j >= le {
        return false;
    }
    let c = t[j];
    if c == '#' || c == '`' || c == '>' {
        return false;
    }
    if is_rule_x(t, j, le) {
        return false;
    }
    if bullet_x(t, j, le) {
        return false;
    }
    if ordinal_x(t, j, le) {
        return false;
    }
    if c == '[' && is_def_x(t, j) {
        return false;
    }
    true
}

/// Whether the line starting at `i` belongs to a blockquote.
fn quote_line_x(t: &Vec<char>, i: usize) -> (r: bool)
    requires
        i <= t@.len(),
    ensures
        r == quote_line(t@, i as int),
{
    let j = scan_sp(t, i);
    let le = line_end_x(t, i);
    j < le && t[j] == '>'
}

/// Find where the blockquote starting at `i` ends.
fn quote_end_x(t: &Vec<char>, i: usize) -> (r: usize)
    requires
        i <= t@.len(),
    ensures
        r as int == quote_end(t@, i as int),
        i <= r <= t@.len(),
{
    let mut p: usize = i;
    while p < t.len()
        invariant
            i <= p <= t@.len(),
            quote_end(t@, i as int) == quote_end(t@, p as int),
        decreases t@.len() - p,
    {
        if !quote_line_x(t, p) {
            return p;
        }
        proof {
            lemma_next_line(t@, p as int);
        }
        p = next_line_x(t, p);
    }
    p
}

/// The stripped text of the blockquote region `[i, end)`.
fn strip_quote_x(t: &Vec<char>, i: usize, end: usize) -> (r: Vec<char>)
    requires
        i <= end <= t@.len(),
    ensures
        r@ == strip_quote(t@, i as int, end as int),
{
    let mut out: Vec<char> = Vec::new();
    let mut p: usize = i;
    while p < end
        invariant
            i <= p <= end <= t@.len(),
            strip_quote(t@, i as int, end as int) =~= out@ + strip_quote(
                t@,
                p as int,
                end as int,
            ),
        decreases end - p,
    {
        let ghost before = out@;
        let j = scan_sp(t, p);
        let le = line_end_x(t, p);
        if j < le {
            let mut piece = crate::chars::sub_chars(t, j + 1, le);
            out.append(&mut piece);
        }
        let nx = next_line_x(t, p);
        proof {
            lemma_next_line(t@, p as int);
        }
        if nx < end {
            out.push('\n');
        }
        proof {
            let jj = skip_sp(t@, p as int);
            let ll = line_end(t@, p as int);
            let piece_v = if jj + 1 <= ll {
                t@.subrange(jj + 1, ll)
            } else {
                Seq::<char>::empty()
            };
            if nx < end {
                assert(strip_quote(t@, p as int, end as int) == piece_v + seq!['\n'] + strip_quote(
                    t@,
                    nx as int,
                    end as int,
                ));
                assert(out@ =~= before + piece_v + seq!['\n']);
            } else {
                assert(strip_quote(t@, p as int, end as int) == piece_v);
                assert(out@ =~= before + piece_v);
                assert(strip_quote(t@, nx as int, end as int) == Seq::<char>::empty());
            }
            assert(strip_quote(t@, i as int, end as int) =~= out@ + strip_quote(
                t@,
                nx as int,
                end as int,
            ));
        }
        p = if nx > end {
            end
        } else {
            nx
        };
        proof {
            if p != nx {
                assert(strip_quote(t@, p as int, end as int) == Seq::<char>::empty());
                assert(strip_quote(t@, nx as int, end as int) == Seq::<char>::empty());
            }
        }
    }
    proof {
        assert(strip_quote(t@, p as int, end as int) == Seq::<char>::empty());
        assert(strip_quote(t@, i as int, end as int) =~= out@);
    }
    out
}

/// The kind of list item the line starting at `i` opens, if any.
fn list_kind_x(t: &Vec<char>, i: usize) -> (r: Option<bool>)
    requires
        i <= t@.len(),
    ensures
        r == list_line_kind(t@, i as int),
{
    let j = scan_sp(t, i);
    let le = line_end_x(t, i);
    if j >= le {
        return None;
    }
    if bullet_x(t, j, le) {
        Some(false)
    } else if ordinal_x(t, j, le) {
        Some(true)
    } else {
        None
    }
}

/// Find where the list starting at `i` ends.
fn list_end_x(t: &Vec<char>, i: usize, ordered: bool) -> (r: usize)
    requires
        i <= t@.len(),
    ensures
        r as int == list_end(t@, i as int, ordered),
        i <= r <= t@.len(),
{
    let mut p: usize = i;
    while p < t.len()
        invariant
            i <= p <= t@.len(),
            list_end(t@, i as int, ordered) == list_end(t@, p as int, ordered),
        decreases t@.len() - p,
    {
        let k = list_kind_x(t, p);
        if k != Some(ordered) {
            return p;
        }
        proof {
            lemma_next_line(t@, p as int);
        }
        p = next_line_x(t, p);
    }
    p
}

/// The text of the list item on the line starting at `i`.
fn item_text_x(t: &Vec<char>, i: usize) -> (r: String)
    requires
        i <= t@.len(),
    ensures
        r@ == item_text(t@, i as int),
{
    let j = scan_sp(t, i);
    let le = line_end_x(t, i);
    if j < le && bullet_x(t, j, le) {
        crate::chars::sub_string(t, j + 2, le)
    } else {
        let d = scan_digits(t, j);
        if j < le && ordinal_x(t, j, le) {
            crate::chars::sub_string(t, d + 2, le)
        } else {
            String::new()
        }
    }
}

/// The item texts of the list region `[i, end)`.
fn list_items_x(t: &Vec<char>, i: usize, end: usize) -> (r: Vec<String>)
    requires
        i <= end <= t@.len(),
    ensures
        r.deep_view() == list_items(t@, i as int, end as int),
{
    let mut out: Vec<String> = Vec::new();
    let mut p: usize = i;
    proof {
        assert(out.deep_view() =~= Seq::<Seq<char>>::empty());
    }
    while p < end
        invariant
            i <= p <= end <= t@.len(),
            list_items(t@, i as int, end as int) =~= out.deep_view() + list_items(
                t@,
                p as int,
                end as int,
            ),
        decreases end - p,
    {
        let ghost before = out.deep_view();
        let txt = item_text_x(t, p);
        let ghost txt_v = txt@;
        out.push(txt);
        let nx = next_line_x(t, p);
        proof {
            lemma_next_line(t@, p as int);
            assert(out.deep_view() =~= before.push(txt_v));
            if nx < end {
                assert(list_items(t@, p as int, end as int) == seq![item_text(t@, p as int)]
                    + list_items(t@, nx as int, end as int));
            } else {
                assert(list_items(t@, p as int, end as int) == seq![item_text(t@, p as int)]);
                assert(list_items(t@, nx as int, end as int) == Seq::<Seq<char>>::empty());
            }
            assert(list_items(t@, i as int, end as int) =~= out.deep_view() + list_items(
                t@,
                nx as int,
                end as int,
            ));
        }
        p = if nx > end {
            end
        } else {
            nx
        };
        proof {
            if p != nx {
                assert(list_items(t@, p as int, end as int) == Seq::<Seq<char>>::empty());
                assert(list_items(t@, nx as int, end as int) == Seq::<Seq<char>>::empty());
            }
        }
    }
    proof {
        assert(list_items(t@, p as int, end as int) == Seq::<Seq<char>>::empty());
        assert(list_items(t@, i as int, end as int) =~= out.deep_view());
    }
    out
}

/// Find where the paragraph continuation scan starting at `i` ends.
fn para_cont_x(t: &Vec<char>, i: usize) -> (r: usize)
    requires
        i <= t@.len(),
    ensures
        r as int == para_cont(t@, i as int),
        i <= r <= t@.len(),
{
    let mut p: usize = i;
    while p < t.len()
        invariant
            i <= p <= t@.len(),
            para_cont(t@, i as int) == para_cont(t@, p as int),
        decreases t@.len() - p,
    {
        if !para_line_x(t, p) {
            return p;
        }
        proof {
            lemma_next_line(t@, p as int);
        }
        p = next_line_x(t, p);
    }
    p
}

/// The raw text of the paragraph region `[i, end)`.
fn para_text_x(t: &Vec<char>, i: usize, end: usize) -> (r: Vec<char>)
    requires
        i <= end <= t@.len(),
    ensures
        r@ == para_text(t@, i as int, end as int),
{
    let mut out: Vec<char> = Vec::new();
    let mut p: usize = i;
    while p < end
        invariant
            i <= p <= end <= t@.len(),
            para_text(t@, i as int, end as int) =~= out@ + para_text(t@, p as int, end as int),
        decreases end - p,
    {
        let ghost before = out@;
        let j = scan_sp(t, p);
        let le = line_end_x(t, p);
        proof {
            lemma_skip_sp(t@, p as int);
            lemma_find_stop(t@, p as int, '\n', '\n');
            if j > le {
                assert(t@[le as int] == '\n');
                assert(t@[le as int] == ' ');
            }
        }
        let mut piece = crate::chars::sub_chars(t, j, le);
        out.append(&mut piece);
        let nx = next_line_x(t, p);
        proof {
            lemma_next_line(t@, p as int);
        }
        if nx < end {
            out.push('\n');
        }
        proof {
            let piece_v = t@.subrange(j as int, le as int);
            if nx < end {
                assert(para_text(t@, p as int, end as int) == piece_v + seq!['\n'] + para_text(
                    t@,
                    nx as int,
                    end as int,
                ));
                assert(out@ =~= before + piece_v + seq!['\n']);
            } else {
                assert(para_text(t@, p as int, end as int) == piece_v);
                assert(out@ =~= before + piece_v);
                assert(para_text(t@, nx as int, end as int) == Seq::<char>::empty());
            }
            assert(para_text(t@, i as int, end as int) =~= out@ + para_text(
                t@,
                nx as int,
                end as int,
            ));
        }
        p = if nx > end {
            end
        } else {
            nx
        };
        proof {
            if p != nx {
                assert(para_text(t@, p as int, end as int) == Seq::<char>::empty());
                assert(para_text(t@, nx as int, end as int) == Seq::<char>::empty());
            }
        }
    }
    proof {
        assert(para_text(t@, p as int, end as int) == Seq::<char>::empty());
        assert(para_text(t@, i as int, end as int) =~= out@);
    }
    out
}

/// Whether a fence of width `w` stands at `q`.
fn fence_x(t: &Vec<char>, q: usize, w: usize) -> (r: bool)
    requires
        q + w <= t@.len(),
    ensures
        r == fence_at(t@, q as int, w as int),
{
    let n = t.len();
    let mut k: usize = 0;
    while k < w
        invariant
            k <= w,
            n == t@.len(),
            q + w <= n,
            forall|x: int| q <= x < q + k ==> t@[x] == '`',
        decreases w - k,
    {
        if t[q + k] != '`' {
            assert(t@[q + k] != '`');
            return false;
        }
        k = k + 1;
    }
    true
}

/// Find the first fence of width `w` at or after `p`.
fn scan_find_run(t: &Vec<char>, p: usize, w: usize) -> (q: usize)
    requires
        p <= t@.len(),
        1 <= w,
    ensures
        q as int == find_run(t@, p as int, w as int),
        p <= q <= t@.len(),
{
    let n = t.len();
    let mut q: usize = p;
    while q < n
        invariant
            p <= q <= n,
            n == t@.len(),
            1 <= w,
            forall|x: int| p <= x < q ==> !fence_at(t@, x, w as int),
        decreases n - q,
    {
        if n - q < w {
            proof {
                assert forall|x: int| p <= x < n implies !fence_at(t@, x, w as int) by {
                    if x >= q {
                        assert(x + w > n);
                    }
                }
                lemma_find_run_unique(t@, p as int, w as int, n as int);
            }
            return n;
        }
        if fence_x(t, q, w) {
            proof {
                lemma_find_run_unique(t@, p as int, w as int, q as int);
            }
            return q;
        }
        q = q + 1;
    }
    proof {
        lemma_find_run_unique(t@, p as int, w as int, n as int);
    }
    n
}

/// Whether the string equals the literal.
fn str_eq(a: &String, lit: &str) -> (r: bool)
    ensures
        r == (a@ == lit@),
{
    let s = String::from_str(lit);
    a.eq(&s)
}

/// The kind a tag maps to.
fn kind_of_tag_x(tag: String, w: usize) -> (r: CodeKind)
    ensures
        r@ == spec_kind_of_tag(tag@, w as int),
{
    if tag.as_str().is_empty() {
        proof {
            assert(tag@ =~= Seq::<char>::empty());
        }
        CodeKind::Plain(w)
    } else if str_eq(&tag, "csharp") {
        CodeKind::CSharp(w)
    } else if str_eq(&tag, "c") {
        CodeKind::CStandard(w)
    } else if str_eq(&tag, "cpp") {
        CodeKind::Cpp(w)
    } else if str_eq(&tag, "go") {
        CodeKind::Go(w)
    } else if str_eq(&tag, "haskell") {
        CodeKind::Haskell(w)
    } else if str_eq(&tag, "java") {
        CodeKind::Java(w)
    } else if str_eq(&tag, "javascript") {
        CodeKind::JavaScript(w)
    } else if str_eq(&tag, "lua") {
        CodeKind::Lua(w)
    } else if str_eq(&tag, "python") {
        CodeKind::Python(w)
    } else if str_eq(&tag, "ruby") {
        CodeKind::Ruby(w)
    } else if str_eq(&tag, "rust") {
        CodeKind::Rust(w)
    } else {
        proof {
            assert(tag@ != Seq::<char>::empty());
        }
        CodeKind::Unknown(tag, w)
    }
}

/// Parse a heading line.
fn heading_x(t: &Vec<char>, j: usize, le: usize) -> (r: Result<DocItem, ParseError>)
    requires
        j < le <= t@.len(),
        le as int == line_end(t@, j as int),
        t@[j as int] == '#',
    ensures
        match r {
            Ok(it) => spec_heading(t@, j as int, le as int) == Ok::<DocItemView, ErrView>(it@),
            Err(e) => spec_heading(t@, j as int, le as int) == Err::<DocItemView, ErrView>(e@),
        },
{
    let r = scan_run(t, j, '#');
    proof {
        lemma_run_len(t@, j as int, '#');
        lemma_find_stop(t@, j as int, '\n', '\n');
        if j + r > le {
            assert(t@[le as int] == '#');
            assert(t@[le as int] == '\n');
        }
        assert(j + r <= le);
    }
    let c0 = if j + r < le && t[j + r] == ' ' {
        j + r + 1
    } else {
        j + r
    };
    let txt = crate::chars::sub_chars(t, c0, le);
    match crate::inline::tokenize(&txt) {
        Err(e) => Err(e),
        Ok(items) => {
            let b = crate::builders::HeadingBuilder::default().level(HeadingLvl::of_num(r)).content(
                items,
            );
            match crate::Builder::build(b) {
                Ok(h) => Ok(DocItem::Heading(h)),
                Err(_) => Err(ParseError::IncompleteBuilderData),
            }
        },
    }
}

/// Parse a code span or block whose opening backtick stands at `j`.
fn code_x(t: &Vec<char>, j: usize) -> (r: Result<(usize, DocItem), ParseError>)
    requires
        j < t@.len(),
        t@[j as int] == '`',
    ensures
        match r {
            Ok(p) => spec_code(t@, j as int) == Ok::<(int, DocItemView), ErrView>(
                (p.0 as int, p.1@),
            ) && j < p.0 <= t@.len(),
            Err(e) => spec_code(t@, j as int) == Err::<(int, DocItemView), ErrView>(e@),
        },
{
    proof {
        lemma_spec_code_bounds(t@, j as int);
        lemma_run_len(t@, j as int, '`');
    }
    let n = t.len();
    let r0 = scan_run(t, j, '`');
    proof {
        assert(j + r0 <= n);
    }
    let w = if r0 >= 3 {
        3
    } else {
        r0
    };
    let te = if w == 3 {
        crate::chars::scan_stop3(t, j + 3, ' ', '\n', '`')
    } else {
        j + w
    };
    let tag = if w == 3 {
        crate::chars::sub_string(t, j + 3, te)
    } else {
        String::new()
    };
    proof {
        if w != 3 {
            assert(tag@ =~= Seq::<char>::empty());
        }
    }
    let q = scan_find_run(t, te, w);
    if q >= t.len() {
        return Err(ParseError::UnexpectedEnd);
    }
    if q == te {
        return Err(ParseError::EmptyContent);
    }
    proof {
        lemma_find_run(t@, te as int, w as int);
        assert(fence_at(t@, q as int, w as int));
    }
    let after = q + w;
    if after < t.len() && t[after] != '\n' {
        return Err(ParseError::UnexpectedChar(t[after], after));
    }
    let content = crate::chars::sub_string(t, te, q);
    let kind = kind_of_tag_x(tag, w);
    let b = crate::block::CodeBuilder::default().content(content.as_str()).kind(kind);
    match crate::Builder::build(b) {
        Ok(code) => Ok((after, DocItem::Code(code))),
        Err(_) => Err(ParseError::IncompleteBuilderData),
    }
}

/// Parse a reference definition line whose opening bracket stands at `j`.
fn def_x(t: &Vec<char>, j: usize) -> (r: Result<(usize, DocItem), ParseError>)
    requires
        j < t@.len(),
        is_def_line(t@, j as int),
    ensures
        match r {
            Ok(p) => spec_def(t@, j as int) == Ok::<(int, DocItemView), ErrView>(
                (p.0 as int, p.1@),
            ) && j < p.0 <= t@.len(),
            Err(e) => spec_def(t@, j as int) == Err::<(int, DocItemView), ErrView>(e@),
        },
{
    proof {
        lemma_spec_def_bounds(t@, j as int);
    }
    let n = t.len();
    let e = scan_stop(t, j + 1, ']', '\n');
    proof {
        assert(e + 1 < n);
    }
    let name = crate::chars::sub_string(t, j + 1, e);
    let k = scan_sp(t, e + 2);
    if k >= t.len() {
        return Err(ParseError::UnexpectedEnd);
    }
    if t[k] != '<' {
        return Err(ParseError::UnexpectedChar(t[k], k));
    }
    let m = scan_stop(t, k + 1, '>', '\n');
    if m >= t.len() {
        return Err(ParseError::UnexpectedEnd);
    }
    if t[m] == '\n' {
        return Err(ParseError::UnexpectedChar('\n', m));
    }
    let target = crate::chars::sub_chars(t, k + 1, m);
    let g = m + 1;
    let has_title = g < t.len() && t[g] == '(';
    let mut title = String::new();
    let mut after = g;
    if has_title {
        let h = scan_stop(t, g + 1, ')', '\n');
        if h >= t.len() {
            return Err(ParseError::UnexpectedEnd);
        }
        if t[h] == '\n' {
            return Err(ParseError::UnexpectedChar('\n', h));
        }
        title = crate::chars::sub_string(t, g + 1, h);
        after = h + 1;
    }
    let p = scan_sp(t, after);
    if p < t.len() && t[p] != '\n' {
        return Err(ParseError::UnexpectedChar(t[p], p));
    }
    let b = crate::builders::ReferenceBuilder::default().name(name.as_str()).title(
        title.as_str(),
    ).href(crate::href::canonical_target(&target));
    match crate::Builder::build(b) {
        Ok(d) => Ok((p, DocItem::Reference(d))),
        Err(_) => Err(ParseError::IncompleteBuilderData),
    }
}


/// One segmentation step at position `i`: what the step produces and where
/// the scan continues.
pub enum StepRes {
    /// A blank line: continue at the given position.
    Blank(usize),
    /// One finished block item, and the position after it.
    Item(DocItem, usize),
    /// A blockquote region: its stripped nested text, and the position after
    /// the region.
    QuoteStep(Vec<char>, usize),
    /// The step failed.
    Error(ParseError),
}

/// Run one segmentation step at `i`.
fn step_x(t: &Vec<char>, i: usize) -> (r: StepRes)
    requires
        i < t@.len(),
    ensures
        match r {
            StepRes::Blank(n) => i < n <= t@.len() && forall|acc: Seq<DocItemView>|
                #[trigger] seg_from(t@, i as int, acc) == seg_from(t@, n as int, acc),
            StepRes::Item(it, n) => i < n <= t@.len() && forall|acc: Seq<DocItemView>|
                #[trigger] seg_from(t@, i as int, acc) == seg_from(t@, n as int, acc.push(it@)),
            StepRes::QuoteStep(stripped, n) => i < n <= t@.len() && stripped@.len() < n - i
                && forall|acc: Seq<DocItemView>| #[trigger] seg_from(t@, i as int, acc) == (
            match seg_from(stripped@, 0, Seq::empty()) {
                Err(e) => Err(e),
                Ok(kids) => seg_from(t@, n as int, acc.push(DocItemView::Quote(kids))),
            }),
            StepRes::Error(e) => forall|acc: Seq<DocItemView>|
                #[trigger] seg_from(t@, i as int, acc) == Err::<Seq<DocItemView>, ErrView>(e@),
        },
{
    let j = scan_sp(t, i);
    let le = line_end_x(t, i);
    proof {
        reveal(seg_from);
        lemma_skip_sp(t@, i as int);
        lemma_find_stop(t@, i as int, '\n', '\n');
        lemma_next_line(t@, i as int);
        if j > le {
            assert(t@[le as int] == '\n');
            assert(t@[le as int] == ' ');
        }
        assert(j <= le);
        crate::chars::lemma_find_stop_unique(t@, j as int, '\n', '\n', le as int);
    }
    if j == le {
        let n = next_line_x(t, i);
        return StepRes::Blank(n);
    }
    let c = t[j];
    if c == '#' {
        match heading_x(t, j, le) {
            Err(e) => StepRes::Error(e),
            Ok(it) => {
                let n = next_line_x(t, i);
                StepRes::Item(it, n)
            },
        }
    } else if c == '`' {
        match code_x(t, j) {
            Err(e) => StepRes::Error(e),
            Ok(p) => {
                let n = next_line_x(t, p.0);
                proof {
                    lemma_next_line(t@, p.0 as int);
                }
                StepRes::Item(p.1, n)
            },
        }
    } else if c == '>' {
        proof {
            assert(quote_line(t@, i as int));
            lemma_strip_quote_len(t@, i as int);
        }
        let end = quote_end_x(t, i);
        let stripped = strip_quote_x(t, i, end);
        StepRes::QuoteStep(stripped, end)
    } else if is_rule_x(t, j, le) {
        let n = next_line_x(t, i);
        StepRes::Item(DocItem::HorizontalRule, n)
    } else {
        let bullet = bullet_x(t, j, le);
        let ordinal = ordinal_x(t, j, le);
        if bullet || ordinal {
            let ordered = !bullet;
            proof {
                lemma_list_end(t@, i as int, ordered);
                assert(list_line_kind(t@, i as int) == Some(ordered));
            }
            let end = list_end_x(t, i, ordered);
            let items = list_items_x(t, i, end);
            StepRes::Item(DocItem::List(crate::doc::List { items, ordered }), end)
        } else if c == '[' && is_def_x(t, j) {
            match def_x(t, j) {
                Err(e) => StepRes::Error(e),
                Ok(p) => {
                    let n = next_line_x(t, p.0);
                    proof {
                        lemma_next_line(t@, p.0 as int);
                    }
                    StepRes::Item(p.1, n)
                },
            }
        } else {
            let nl = next_line_x(t, i);
            let end = para_cont_x(t, nl);
            proof {
                lemma_para_cont(t@, nl as int);
            }
            let text = para_text_x(t, i, end);
            match crate::inline::tokenize(&text) {
                Err(e) => StepRes::Error(e),
                Ok(items) => StepRes::Item(DocItem::Paragraph(crate::text::Paragraph(items)), end),
            }
        }
    }
}


/// One frame of the segmenter's explicit work stack: a text being segmented,
/// the position reached in it, and the items produced so far.
struct SegFrame {
    text: Vec<char>,
    pos: usize,
    items: Vec<DocItem>,
}

/// The mathematical value of a stack frame.
pub struct FrameView {
    pub text: Seq<char>,
    pub pos: int,
    pub items: Seq<DocItemView>,
}

impl View for SegFrame {
    type V = FrameView;

    closed spec fn view(&self) -> FrameView {
        FrameView {
            text: self.text@,
            pos: self.pos as int,
            items: crate::doc::doc_items_view(self.items),
        }
    }
}

impl DeepView for SegFrame {
    type V = FrameView;

    closed spec fn deep_view(&self) -> FrameView {
        self@
    }
}

/// What segmenting a frame's text from its position yields.
pub open spec fn frame_result(f: FrameView) -> Result<Seq<DocItemView>, ErrView> {
    seg_from(f.text, f.pos, f.items)
}

/// Hand a nested result back to the frame below: an error propagates; items
/// become one blockquote appended to that frame's own items.
pub open spec fn wrap(f: FrameView, r: Result<Seq<DocItemView>, ErrView>) -> Result<
    Seq<DocItemView>,
    ErrView,
> {
    match r {
        Err(e) => Err(e),
        Ok(kids) => seg_from(f.text, f.pos, f.items.push(DocItemView::Quote(kids))),
    }
}

/// Hand a result down through the whole stack below the top frame.
pub open spec fn unwind(frames: Seq<FrameView>, r: Result<Seq<DocItemView>, ErrView>) -> Result<
    Seq<DocItemView>,
    ErrView,
>
    decreases frames.len(),
{
    if frames.len() == 0 {
        r
    } else {
        unwind(frames.drop_last(), wrap(frames.last(), r))
    }
}

/// Segmenting an exhausted text yields the accumulated items.
proof fn lemma_seg_done(s: Seq<char>, i: int, acc: Seq<DocItemView>)
    requires
        0 <= i,
        i >= s.len(),
    ensures
        seg_from(s, i, acc) == Ok::<Seq<DocItemView>, ErrView>(acc),
{
    reveal(seg_from);
}

/// An error passes through the whole stack unchanged.
proof fn lemma_unwind_err(frames: Seq<FrameView>, e: ErrView)
    ensures
        unwind(frames, Err(e)) == Err::<Seq<DocItemView>, ErrView>(e),
    decreases frames.len(),
{
    if frames.len() > 0 {
        lemma_unwind_err(frames.drop_last(), e);
    }
}

/// Unwinding past a pushed frame wraps the result in it.
proof fn lemma_unwind_push(frames: Seq<FrameView>, f: FrameView, r: Result<
    Seq<DocItemView>,
    ErrView,
>)
    ensures
        unwind(frames.push(f), r) == unwind(frames, wrap(f, r)),
{
    assert(frames.push(f).drop_last() =~= frames);
    assert(frames.push(f).last() == f);
}

/// How much text is left to segment in one frame.
pub open spec fn rem(f: FrameView) -> nat {
    if 0 <= f.pos <= f.text.len() {
        (f.text.len() - f.pos) as nat
    } else {
        0
    }
}

/// How much text is left to segment across the stack.
pub open spec fn sum_rem(frames: Seq<FrameView>) -> nat
    decreases frames.len(),
{
    if frames.len() == 0 {
        0
    } else {
        sum_rem(frames.drop_last()) + rem(frames.last())
    }
}

/// Adding a frame adds its remaining text to the total.
proof fn lemma_sum_rem_push(frames: Seq<FrameView>, f: FrameView)
    ensures
        sum_rem(frames.push(f)) == sum_rem(frames) + rem(f),
{
    assert(frames.push(f).drop_last() =~= frames);
    assert(frames.push(f).last() == f);
}

/// Split a whole text into block items. Nested blockquote content is handled
/// with an explicit work stack, so arbitrarily deep nesting cannot exhaust
/// the call stack.
#[verifier::rlimit(100)]
#[verifier::spinoff_prover]
pub fn segment(text: Vec<char>) -> (r: Result<Vec<DocItem>, ParseError>)
    ensures
        match r {
            Ok(items) => spec_segment(text@) == Ok::<Seq<DocItemView>, ErrView>(
                crate::doc::doc_items_view(items),
            ),
            Err(e) => spec_segment(text@) == Err::<Seq<DocItemView>, ErrView>(e@),
        },
{
    let ghost target = spec_segment(text@);
    let mut stack: Vec<SegFrame> = Vec::new();
    let first = SegFrame { text, pos: 0, items: Vec::new() };
    proof {
        crate::doc::lemma_doc_items_view(first.items);
        assert(first@.items =~= Seq::<DocItemView>::empty());
    }
    stack.push(first);
    proof {
        assert(stack.deep_view() =~= seq![first@]);
        assert(stack.deep_view().drop_last() =~= Seq::<FrameView>::empty());
        assert(unwind(stack.deep_view().drop_last(), frame_result(stack.deep_view().last()))
            == target);
    }
    loop
        invariant
            target == spec_segment(text@),
            stack@.len() >= 1,
            forall|k: int|
                0 <= k < stack@.len() ==> (#[trigger] stack.deep_view()[k]).pos
                    <= stack.deep_view()[k].text.len(),
            unwind(stack.deep_view().drop_last(), frame_result(stack.deep_view().last()))
                == target,
        decreases sum_rem(stack.deep_view()), stack@.len(),
    {
        let ghost frames0 = stack.deep_view();
        let mut f = match stack.pop() {
            Some(fr) => fr,
            None => {
                proof {
                    assert(false);
                }
                return Err(ParseError::UnexpectedEnd);
            },
        };
        proof {
            assert(frames0.last() == f@);
            assert(stack.deep_view() =~= frames0.drop_last());
        }
        if f.pos >= f.text.len() {
            // The top frame is exhausted: its result is its items.
            proof {
                lemma_seg_done(f@.text, f@.pos, f@.items);
            }
            if stack.len() == 0 {
                proof {
                    assert(frames0.drop_last() =~= Seq::<FrameView>::empty());
                    assert(unwind(
                        Seq::<FrameView>::empty(),
                        Ok::<Seq<DocItemView>, ErrView>(f@.items),
                    ) == target);
                }
                return Ok(f.items);
            }
            let ghost frames1 = stack.deep_view();
            let mut below = match stack.pop() {
                Some(fr) => fr,
                None => {
                    proof {
                        assert(false);
                    }
                    return Err(ParseError::UnexpectedEnd);
                },
            };
            let ghost below0 = below@;
            let ghost kids = f@.items;
            proof {
                crate::doc::lemma_doc_items_view(below.items);
            }
            below.items.push(DocItem::Quote(crate::doc::Quote(f.items)));
            proof {
                assert(frames1.last() == below0);
                assert(stack.deep_view() =~= frames1.drop_last());
                crate::doc::lemma_doc_items_view(below.items);
                assert(below@.items =~= below0.items.push(DocItemView::Quote(kids)));
                assert(below@.pos == below0.pos && below@.text == below0.text);
                assert(wrap(below0, Ok::<Seq<DocItemView>, ErrView>(kids)) == frame_result(
                    below@,
                ));
                assert(unwind(frames1.drop_last(), frame_result(below@)) == target);
                // termination: the exhausted top contributed nothing
                assert(rem(f@) == 0);
                lemma_sum_rem_push(frames1.drop_last(), below0);
                lemma_sum_rem_push(frames1.drop_last(), below@);
                assert(rem(below@) == rem(below0));
                lemma_sum_rem_push(frames1, f@);
                assert(sum_rem(stack.deep_view().push(below@)) <= sum_rem(frames0));
            }
            stack.push(below);
            proof {
                assert(stack.deep_view() =~= frames1.drop_last().push(below@));
                assert(stack.deep_view().drop_last() =~= frames1.drop_last());
                assert(stack.deep_view().last() == below@);
            }
        } else {
            let step = step_x(&f.text, f.pos);
            let ghost f0 = f@;
            match step {
                StepRes::Error(e) => {
                    proof {
                        assert(seg_from(f0.text, f0.pos, f0.items) == Err::<
                            Seq<DocItemView>,
                            ErrView,
                        >(e@));
                        lemma_unwind_err(frames0.drop_last(), e@);
                    }
                    return Err(e);
                },
                StepRes::Blank(n) => {
                    f.pos = n;
                    proof {
                        assert(f@.items == f0.items && f@.text == f0.text);
                        assert(frame_result(f@) == frame_result(f0));
                        assert(rem(f@) < rem(f0));
                        lemma_sum_rem_push(frames0.drop_last(), f0);
                        lemma_sum_rem_push(frames0.drop_last(), f@);
                    }
                    stack.push(f);
                    proof {
                        assert(stack.deep_view() =~= frames0.drop_last().push(f@));
                        assert(stack.deep_view().drop_last() =~= frames0.drop_last());
                    }
                },
                StepRes::Item(it, n) => {
                    let ghost it_view = it@;
                    proof {
                        crate::doc::lemma_doc_items_view(f.items);
                    }
                    f.items.push(it);
                    f.pos = n;
                    proof {
                        crate::doc::lemma_doc_items_view(f.items);
                        assert(f@.items =~= f0.items.push(it_view));
                        assert(frame_result(f@) == frame_result(f0));
                        assert(rem(f@) < rem(f0));
                        lemma_sum_rem_push(frames0.drop_last(), f0);
                        lemma_sum_rem_push(frames0.drop_last(), f@);
                    }
                    stack.push(f);
                    proof {
                        assert(stack.deep_view() =~= frames0.drop_last().push(f@));
                        assert(stack.deep_view().drop_last() =~= frames0.drop_last());
                    }
                },
                StepRes::QuoteStep(stripped, n) => {
                    let ghost stripped_v = stripped@;
                    f.pos = n;
                    let ghost f1 = f@;
                    let child = SegFrame { text: stripped, pos: 0, items: Vec::new() };
                    proof {
                        crate::doc::lemma_doc_items_view(child.items);
                        assert(child@.items =~= Seq::<DocItemView>::empty());
                        assert(child@.text == stripped_v && child@.pos == 0);
                        assert(frame_result(f0) == wrap(f1, frame_result(child@)));
                        lemma_unwind_push(frames0.drop_last(), f1, frame_result(child@));
                        // termination: the region is consumed and the child
                        // holds strictly less text
                        assert(rem(f1) + rem(child@) < rem(f0));
                        lemma_sum_rem_push(frames0.drop_last(), f0);
                        lemma_sum_rem_push(frames0.drop_last(), f1);
                        lemma_sum_rem_push(frames0.drop_last().push(f1), child@);
                    }
                    stack.push(f);
                    stack.push(child);
                    proof {
                        assert(stack.deep_view() =~= frames0.drop_last().push(f1).push(child@));
                        assert(stack.deep_view().drop_last() =~= frames0.drop_last().push(f1));
                        assert(stack.deep_view().last() == child@);
                    }
                },
            }
        }
    }
}

} // verus!
