use vstd::prelude::*;
use vstd::string::StrSliceExecFns;

verus! {

/// The characters of a string slice, as a vector the parser can index.
pub fn chars_of(s: &str) -> (v: Vec<char>)
    ensures
        v@ == s@,
{
    let n = s.unicode_len();
    let mut v: Vec<char> = Vec::new();
    let mut i: usize = 0;
    while i < n
        invariant
            i <= n,
            n == s@.len(),
            v@ =~= s@.subrange(0, i as int),
        decreases n - i,
    {
        let c = s.get_char(i);
        v.push(c);
        i = i + 1;
    }
    proof {
        assert(v@ =~= s@);
    }
    v
}

/// Relies on String::push: appends the given character at the end of the
/// string, changing nothing else.
#[verifier::external_body]
pub(crate) fn push_char(s: &mut String, c: char)
    ensures
        final(s)@ == old(s)@.push(c),
{
    s.push(c);
}

/// A fresh string holding the given characters.
pub fn string_of_chars(v: &Vec<char>) -> (s: String)
    ensures
        s@ == v@,
{
    let mut s = String::new();
    let mut i: usize = 0;
    while i < v.len()
        invariant
            i <= v@.len(),
            s@ =~= v@.subrange(0, i as int),
        decreases v@.len() - i,
    {
        push_char(&mut s, v[i]);
        i = i + 1;
    }
    proof {
        assert(s@ =~= v@);
    }
    s
}

/// The first position at or after `i` holding `a` or `b`, or the length if
/// there is none.
pub open spec fn find_stop(t: Seq<char>, i: int, a: char, b: char) -> int
    decreases t.len() - i,
{
    if i < 0 || i >= t.len() {
        t.len() as int
    } else if t[i] == a || t[i] == b {
        i
    } else {
        find_stop(t, i + 1, a, b)
    }
}

/// What `find_stop` returns: the first stop character at or after `i`, or
/// the length.
pub proof fn lemma_find_stop(t: Seq<char>, i: int, a: char, b: char)
    requires
        0 <= i <= t.len(),
    ensures
        i <= find_stop(t, i, a, b) <= t.len(),
        forall|k: int| i <= k < find_stop(t, i, a, b) ==> #[trigger] t[k] != a && t[k] != b,
        find_stop(t, i, a, b) < t.len() ==> t[find_stop(t, i, a, b)] == a || t[find_stop(
            t,
            i,
            a,
            b,
        )] == b,
    decreases t.len() - i,
{
    if i < t.len() && !(t[i] == a || t[i] == b) {
        lemma_find_stop(t, i + 1, a, b);
    }
}

/// The position characterized by `lemma_find_stop` is unique, so a scan that
/// establishes those properties has computed `find_stop`.
pub proof fn lemma_find_stop_unique(t: Seq<char>, i: int, a: char, b: char, j: int)
    requires
        0 <= i <= j <= t.len(),
        forall|k: int| i <= k < j ==> #[trigger] t[k] != a && t[k] != b,
        j < t.len() ==> t[j] == a || t[j] == b,
    ensures
        find_stop(t, i, a, b) == j,
    decreases j - i,
{
    if i < j {
        assert(t[i] != a && t[i] != b);
        lemma_find_stop_unique(t, i + 1, a, b, j);
    } else {
        lemma_find_stop(t, i, a, b);
    }
}

/// The first position at or after `i` holding `a`, `b` or `c`, or the length.
pub open spec fn find_stop3(t: Seq<char>, i: int, a: char, b: char, c: char) -> int
    decreases t.len() - i,
{
    if i < 0 || i >= t.len() {
        t.len() as int
    } else if t[i] == a || t[i] == b || t[i] == c {
        i
    } else {
        find_stop3(t, i + 1, a, b, c)
    }
}

/// What `find_stop3` returns.
pub proof fn lemma_find_stop3(t: Seq<char>, i: int, a: char, b: char, c: char)
    requires
        0 <= i <= t.len(),
    ensures
        i <= find_stop3(t, i, a, b, c) <= t.len(),
        forall|k: int|
            i <= k < find_stop3(t, i, a, b, c) ==> #[trigger] t[k] != a && t[k] != b && t[k] != c,
        find_stop3(t, i, a, b, c) < t.len() ==> (t[find_stop3(t, i, a, b, c)] == a || t[find_stop3(
            t,
            i,
            a,
            b,
            c,
        )] == b || t[find_stop3(t, i, a, b, c)] == c),
    decreases t.len() - i,
{
    if i < t.len() && !(t[i] == a || t[i] == b || t[i] == c) {
        lemma_find_stop3(t, i + 1, a, b, c);
    }
}

/// The position characterized by `lemma_find_stop3` is unique.
pub proof fn lemma_find_stop3_unique(t: Seq<char>, i: int, a: char, b: char, c: char, j: int)
    requires
        0 <= i <= j <= t.len(),
        forall|k: int| i <= k < j ==> #[trigger] t[k] != a && t[k] != b && t[k] != c,
        j < t.len() ==> t[j] == a || t[j] == b || t[j] == c,
    ensures
        find_stop3(t, i, a, b, c) == j,
    decreases j - i,
{
    if i < j {
        assert(t[i] != a && t[i] != b && t[i] != c);
        lemma_find_stop3_unique(t, i + 1, a, b, c, j);
    } else {
        lemma_find_stop3(t, i, a, b, c);
    }
}

/// The length of the run of `c` starting at `i`.
pub open spec fn run_len(t: Seq<char>, i: int, c: char) -> int
    decreases t.len() - i,
{
    if i < 0 || i >= t.len() || t[i] != c {
        0
    } else {
        1 + run_len(t, i + 1, c)
    }
}

/// What `run_len` returns: the maximal run of `c` starting at `i`.
pub proof fn lemma_run_len(t: Seq<char>, i: int, c: char)
    requires
        0 <= i <= t.len(),
    ensures
        0 <= run_len(t, i, c),
        i + run_len(t, i, c) <= t.len(),
        forall|k: int| i <= k < i + run_len(t, i, c) ==> #[trigger] t[k] == c,
        i + run_len(t, i, c) < t.len() ==> t[i + run_len(t, i, c)] != c,
        i < t.len() && t[i] == c ==> run_len(t, i, c) >= 1,
    decreases t.len() - i,
{
    if i < t.len() && t[i] == c {
        lemma_run_len(t, i + 1, c);
    }
}

/// The run length characterized by `lemma_run_len` is unique.
pub proof fn lemma_run_len_unique(t: Seq<char>, i: int, c: char, j: int)
    requires
        0 <= i <= j <= t.len(),
        forall|k: int| i <= k < j ==> #[trigger] t[k] == c,
        j < t.len() ==> t[j] != c,
    ensures
        i + run_len(t, i, c) == j,
    decreases j - i,
{
    if i < j {
        assert(t[i] == c);
        lemma_run_len_unique(t, i + 1, c, j);
    } else {
        lemma_run_len(t, i, c);
    }
}

/// The first position at or after `i` holding something other than a space,
/// or the length.
pub open spec fn skip_sp(t: Seq<char>, i: int) -> int
    decreases t.len() - i,
{
    if i < 0 || i >= t.len() {
        t.len() as int
    } else if t[i] == ' ' {
        skip_sp(t, i + 1)
    } else {
        i
    }
}

/// What `skip_sp` returns.
pub proof fn lemma_skip_sp(t: Seq<char>, i: int)
    requires
        0 <= i <= t.len(),
    ensures
        i <= skip_sp(t, i) <= t.len(),
        forall|k: int| i <= k < skip_sp(t, i) ==> #[trigger] t[k] == ' ',
        skip_sp(t, i) < t.len() ==> t[skip_sp(t, i)] != ' ',
    decreases t.len() - i,
{
    if i < t.len() && t[i] == ' ' {
        lemma_skip_sp(t, i + 1);
    }
}

/// The position characterized by `lemma_skip_sp` is unique.
pub proof fn lemma_skip_sp_unique(t: Seq<char>, i: int, j: int)
    requires
        0 <= i <= j <= t.len(),
        forall|k: int| i <= k < j ==> #[trigger] t[k] == ' ',
        j < t.len() ==> t[j] != ' ',
    ensures
        skip_sp(t, i) == j,
    decreases j - i,
{
    if i < j {
        assert(t[i] == ' ');
        lemma_skip_sp_unique(t, i + 1, j);
    } else {
        lemma_skip_sp(t, i);
    }
}

/// The position just after the last non-space character before `j`, or 0.
pub open spec fn trim_end_at(t: Seq<char>, j: int) -> int
    decreases j,
{
    if j <= 0 {
        0
    } else if t[j - 1] == ' ' {
        trim_end_at(t, j - 1)
    } else {
        j
    }
}

/// What `trim_end_at` returns.
pub proof fn lemma_trim_end_at(t: Seq<char>, j: int)
    requires
        0 <= j <= t.len(),
    ensures
        0 <= trim_end_at(t, j) <= j,
        forall|k: int| trim_end_at(t, j) <= k < j ==> #[trigger] t[k] == ' ',
        trim_end_at(t, j) > 0 ==> t[trim_end_at(t, j) - 1] != ' ',
    decreases j,
{
    if j > 0 && t[j - 1] == ' ' {
        lemma_trim_end_at(t, j - 1);
    }
}

/// The position characterized by `lemma_trim_end_at` is unique.
pub proof fn lemma_trim_end_at_unique(t: Seq<char>, j: int, b: int)
    requires
        0 <= b <= j <= t.len(),
        forall|k: int| b <= k < j ==> #[trigger] t[k] == ' ',
        b > 0 ==> t[b - 1] != ' ',
    ensures
        trim_end_at(t, j) == b,
    decreases j - b,
{
    if b < j {
        assert(t[j - 1] == ' ');
        lemma_trim_end_at_unique(t, j - 1, b);
    } else {
        lemma_trim_end_at(t, j);
    }
}

/// Find the first position at or after `i` holding `a` or `b` (or the end).
pub fn scan_stop(t: &Vec<char>, i: usize, a: char, b: char) -> (r: usize)
    requires
        i <= t@.len(),
    ensures
        r as int == find_stop(t@, i as int, a, b),
        i <= r <= t@.len(),
    {
    let mut j: usize = i;
    while j < t.len()
        invariant
            i <= j <= t@.len(),
            forall|k: int| i <= k < j ==> #[trigger] t@[k] != a && t@[k] != b,
        decreases t@.len() - j,
    {
        let c = t[j];
        if c == a || c == b {
            proof {
                lemma_find_stop_unique(t@, i as int, a, b, j as int);
            }
            return j;
        }
        j = j + 1;
    }
    proof {
        lemma_find_stop_unique(t@, i as int, a, b, j as int);
    }
    j
}

/// Find the first position at or after `i` holding `a`, `b` or `c`.
pub fn scan_stop3(t: &Vec<char>, i: usize, a: char, b: char, c: char) -> (r: usize)
    requires
        i <= t@.len(),
    ensures
        r as int == find_stop3(t@, i as int, a, b, c),
        i <= r <= t@.len(),
    {
    let mut j: usize = i;
    while j < t.len()
        invariant
            i <= j <= t@.len(),
            forall|k: int| i <= k < j ==> #[trigger] t@[k] != a && t@[k] != b && t@[k] != c,
        decreases t@.len() - j,
    {
        let x = t[j];
        if x == a || x == b || x == c {
            proof {
                lemma_find_stop3_unique(t@, i as int, a, b, c, j as int);
            }
            return j;
        }
        j = j + 1;
    }
    proof {
        lemma_find_stop3_unique(t@, i as int, a, b, c, j as int);
    }
    j
}

/// Count the run of `c` starting at `i`.
pub fn scan_run(t: &Vec<char>, i: usize, c: char) -> (r: usize)
    requires
        i <= t@.len(),
    ensures
        r as int == run_len(t@, i as int, c),
        i + r <= t@.len(),
    {
    let mut j: usize = i;
    while j < t.len()
        invariant
            i <= j <= t@.len(),
            forall|k: int| i <= k < j ==> #[trigger] t@[k] == c,
        decreases t@.len() - j,
    {
        if t[j] != c {
            proof {
                lemma_run_len_unique(t@, i as int, c, j as int);
            }
            return j - i;
        }
        j = j + 1;
    }
    proof {
        lemma_run_len_unique(t@, i as int, c, j as int);
    }
    j - i
}

/// Find the first position at or after `i` holding something besides a
/// space.
pub fn scan_sp(t: &Vec<char>, i: usize) -> (r: usize)
    requires
        i <= t@.len(),
    ensures
        r as int == skip_sp(t@, i as int),
        i <= r <= t@.len(),
    {
    let mut j: usize = i;
    while j < t.len()
        invariant
            i <= j <= t@.len(),
            forall|k: int| i <= k < j ==> #[trigger] t@[k] == ' ',
        decreases t@.len() - j,
    {
        if t[j] != ' ' {
            proof {
                lemma_skip_sp_unique(t@, i as int, j as int);
            }
            return j;
        }
        j = j + 1;
    }
    proof {
        lemma_skip_sp_unique(t@, i as int, j as int);
    }
    j
}

/// Find the position just after the last non-space character.
pub fn scan_trim_end(v: &Vec<char>) -> (b: usize)
    ensures
        b as int == trim_end_at(v@, v@.len() as int),
        b <= v@.len(),
{
    let mut b: usize = v.len();
    while b > 0
        invariant
            b <= v@.len(),
            trim_end_at(v@, v@.len() as int) == trim_end_at(v@, b as int),
        decreases b,
    {
        if v[b - 1] != ' ' {
            proof {
                assert(trim_end_at(v@, b as int) == b);
            }
            return b;
        }
        b = b - 1;
    }
    proof {
        assert(trim_end_at(v@, 0) == 0);
    }
    0
}

/// Copy the characters in `[from, to)` into a fresh string.
pub fn sub_string(t: &Vec<char>, from: usize, to: usize) -> (r: String)
    requires
        from <= to <= t@.len(),
    ensures
        r@ == t@.subrange(from as int, to as int),
{
    let mut s = String::new();
    let mut i: usize = from;
    while i < to
        invariant
            from <= i <= to <= t@.len(),
            s@ =~= t@.subrange(from as int, i as int),
        decreases to - i,
    {
        push_char(&mut s, t[i]);
        proof {
            assert(s@ =~= t@.subrange(from as int, i + 1 as int));
        }
        i = i + 1;
    }
    proof {
        assert(s@ =~= t@.subrange(from as int, to as int));
    }
    s
}

/// Copy the characters in `[from, to)` into a fresh vector.
pub fn sub_chars(t: &Vec<char>, from: usize, to: usize) -> (r: Vec<char>)
    requires
        from <= to <= t@.len(),
    ensures
        r@ == t@.subrange(from as int, to as int),
{
    let mut v: Vec<char> = Vec::new();
    let mut i: usize = from;
    while i < to
        invariant
            from <= i <= to <= t@.len(),
            v@ =~= t@.subrange(from as int, i as int),
        decreases to - i,
    {
        v.push(t[i]);
        proof {
            assert(v@ =~= t@.subrange(from as int, i + 1 as int));
        }
        i = i + 1;
    }
    proof {
        assert(v@ =~= t@.subrange(from as int, to as int));
    }
    v
}

/// The text with every line that ends in a single trailing backslash joined
/// to the following line: the backslash and the line break are replaced by
/// one space. A pair of backslashes is literal and joins nothing.
pub open spec fn spec_join(s: Seq<char>) -> Seq<char>
    decreases s.len(),
{
    if s.len() == 0 {
        Seq::empty()
    } else if s.len() >= 2 && s[0] == '\\' && s[1] == '\n' {
        seq![' '] + spec_join(s.skip(2))
    } else if s.len() >= 2 && s[0] == '\\' && s[1] == '\\' {
        seq!['\\', '\\'] + spec_join(s.skip(2))
    } else {
        seq![s[0]] + spec_join(s.skip(1))
    }
}

/// Joining continuation lines twice is the same as joining them once.
pub proof fn lemma_join_stable(s: Seq<char>)
    ensures
        spec_join(spec_join(s)) == spec_join(s),
    decreases s.len(),
{
    if s.len() == 0 {
    } else if s.len() >= 2 && s[0] == '\\' && s[1] == '\n' {
        lemma_join_stable(s.skip(2));
        assert(spec_join(s) == seq![' '] + spec_join(s.skip(2)));
        let t = seq![' '] + spec_join(s.skip(2));
        assert(t.len() >= 1 && t[0] == ' ');
        assert(t.skip(1) =~= spec_join(s.skip(2)));
        assert(spec_join(t) == seq![t[0]] + spec_join(t.skip(1)));
        assert(spec_join(spec_join(s)) =~= spec_join(s));
    } else if s.len() >= 2 && s[0] == '\\' && s[1] == '\\' {
        lemma_join_stable(s.skip(2));
        let t = seq!['\\', '\\'] + spec_join(s.skip(2));
        assert(t[0] == '\\' && t[1] == '\\');
        assert(t.skip(2) =~= spec_join(s.skip(2)));
        assert(spec_join(t) == seq!['\\', '\\'] + spec_join(t.skip(2)));
        assert(spec_join(spec_join(s)) =~= spec_join(s));
    } else {
        lemma_join_stable(s.skip(1));
        let t = seq![s[0]] + spec_join(s.skip(1));
        assert(t[0] == s[0]);
        assert(t.skip(1) =~= spec_join(s.skip(1)));
        if t.len() >= 2 && t[0] == '\\' && (t[1] == '\n' || t[1] == '\\') {
            // The head is a backslash not followed by a line break or a second
            // backslash in `s`, so the joined tail cannot start with either:
            // its head is the next literal character of `s`.
            assert(s[0] == '\\');
            assert(s.len() >= 2);
            assert(s[1] != '\n' && s[1] != '\\');
            assert(spec_join(s.skip(1))[0] == s.skip(1)[0]);
            assert(false);
        }
        assert(spec_join(t) == seq![t[0]] + spec_join(t.skip(1)));
        assert(spec_join(spec_join(s)) =~= spec_join(s));
    }
}

/// Join continuation lines.
pub fn join_text(v: &Vec<char>) -> (r: Vec<char>)
    ensures
        r@ == spec_join(v@),
{
    let mut out: Vec<char> = Vec::new();
    let mut i: usize = 0;
    proof {
        assert(v@.skip(0) =~= v@);
    }
    while i < v.len()
        invariant
            i <= v@.len(),
            spec_join(v@) =~= out@ + spec_join(v@.skip(i as int)),
        decreases v@.len() - i,
    {
        let ghost rest = v@.skip(i as int);
        let c = v[i];
        if c == '\\' && i + 1 < v.len() && v[i + 1] == '\n' {
            out.push(' ');
            proof {
                assert(rest[0] == '\\' && rest[1] == '\n');
                assert(rest.skip(2) =~= v@.skip(i + 2 as int));
                assert(spec_join(rest) == seq![' '] + spec_join(v@.skip(i + 2 as int)));
            }
            i = i + 2;
        } else if c == '\\' && i + 1 < v.len() && v[i + 1] == '\\' {
            out.push('\\');
            out.push('\\');
            proof {
                assert(rest[0] == '\\' && rest[1] == '\\');
                assert(rest.skip(2) =~= v@.skip(i + 2 as int));
                assert(spec_join(rest) == seq!['\\', '\\'] + spec_join(v@.skip(i + 2 as int)));
            }
            i = i + 2;
        } else {
            out.push(c);
            proof {
                assert(rest[0] == c);
                assert(rest.skip(1) =~= v@.skip(i + 1 as int));
                assert(spec_join(rest) == seq![c] + spec_join(v@.skip(i + 1 as int)));
            }
            i = i + 1;
        }
    }
    proof {
        assert(v@.skip(i as int).len() == 0);
        assert(spec_join(v@) =~= out@);
    }
    out
}


/// Text without line breaks joins nothing.
pub proof fn lemma_join_no_newline(s: Seq<char>)
    requires
        forall|k: int| 0 <= k < s.len() ==> s[k] != '\n',
    ensures
        spec_join(s) == s,
    decreases s.len(),
{
    if s.len() == 0 {
        assert(spec_join(s) =~= s);
    } else if s.len() >= 2 && s[0] == '\\' && s[1] == '\\' {
        assert(forall|k: int| 0 <= k < s.skip(2).len() ==> #[trigger] s.skip(2)[k] != '\n');
        lemma_join_no_newline(s.skip(2));
        assert(spec_join(s) =~= s);
    } else {
        assert(forall|k: int| 0 <= k < s.skip(1).len() ==> #[trigger] s.skip(1)[k] != '\n');
        lemma_join_no_newline(s.skip(1));
        assert(spec_join(s) =~= s);
    }
}

} // verus!
