use vstd::prelude::*;
use crate::chars::chars_of;
use crate::chars::string_of_chars;

verus! {

/// What parsing the text as an absolute URL yields: the serialization of the
/// parsed URL, or nothing when the text is not a valid URL. The outcome is a
/// function of the text alone.
pub uninterp spec fn url_normal(s: Seq<char>) -> Option<Seq<char>>;

/// Relies on url::Url::parse and url::Url::as_str: `parse` either rejects
/// the text or yields a URL value, and `as_str` returns that value's
/// serialization; both depend on the input text alone.
#[verifier::external_body]
fn normalize_url(s: &str) -> (r: Option<String>)
    ensures
        r is Some <==> url_normal(s@) is Some,
        r matches Some(n) ==> url_normal(s@) == Some(n@),
{
    match url::Url::parse(s) {
        Ok(u) => Some(String::from(u.as_str())),
        Err(_) => None,
    }
}

/// Whether target text can stand between the closing delimiters the
/// serializer uses: no closing parenthesis, no closing angle bracket, and no
/// line break.
pub open spec fn spec_target_ok(t: Seq<char>) -> bool {
    forall|i: int| 0 <= i < t.len() ==> #[trigger] t[i] != ')' && t[i] != '>' && t[i] != '\n'
}

/// The canonical form of a link or definition target: the URL's
/// serialization where the text is a valid URL whose serialization is stable
/// under reparsing and fits between the serializer's delimiters, else the
/// text as written.
pub open spec fn spec_canonical_target(t: Seq<char>) -> Seq<char> {
    match url_normal(t) {
        Some(n) => if url_normal(n) == Some(n) && spec_target_ok(n) {
            n
        } else {
            t
        },
        None => t,
    }
}

/// Canonicalizing a target twice is the same as canonicalizing it once.
pub proof fn lemma_canonical_target_stable(t: Seq<char>)
    ensures
        spec_canonical_target(spec_canonical_target(t)) == spec_canonical_target(t),
{
}

/// A canonical target fits the serializer's delimiters whenever the original
/// text did.
pub proof fn lemma_canonical_target_ok(t: Seq<char>)
    requires
        spec_target_ok(t),
    ensures
        spec_target_ok(spec_canonical_target(t)),
{
}

/// Whether the characters can stand between the closing delimiters the
/// serializer uses for targets.
pub fn target_ok(v: &Vec<char>) -> (r: bool)
    ensures
        r == spec_target_ok(v@),
{
    let mut i: usize = 0;
    while i < v.len()
        invariant
            i <= v@.len(),
            forall|j: int| 0 <= j < i ==> #[trigger] v@[j] != ')' && v@[j] != '>' && v@[j] != '\n',
        decreases v@.len() - i,
    {
        let c = v[i];
        if c == ')' || c == '>' || c == '\n' {
            return false;
        }
        i = i + 1;
    }
    true
}

/// The canonical form of a target, as text.
pub fn canonical_target(t: &Vec<char>) -> (r: String)
    ensures
        r@ == spec_canonical_target(t@),
{
    let s = string_of_chars(t);
    match normalize_url(s.as_str()) {
        Some(n) => {
            let stable = match normalize_url(n.as_str()) {
                Some(n2) => n2.eq(&n),
                None => false,
            };
            if stable {
                let nv = chars_of(n.as_str());
                if target_ok(&nv) {
                    proof {
                        assert(url_normal(n@) == Some(n@));
                    }
                    n
                } else {
                    s
                }
            } else {
                s
            }
        },
        None => s,
    }
}

} // verus!
