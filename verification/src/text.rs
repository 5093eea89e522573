//! Text: what is proved here about splitting, and the few operations on
//! strings that are taken on trust from the standard library and from the
//! crates `quick_xml` and `regex`.

use vstd::prelude::*;
use vstd::string::StringSliceAdditionalSpecFns;
use vstd::utf8::valid_utf8;

verus! {

/// The pieces of `s` between occurrences of `sep`: one piece more than
/// there are separators, so that the empty sequence has one empty piece.
pub open spec fn pieces<T>(s: Seq<T>, sep: T) -> Seq<Seq<T>>
    decreases s.len(),
{
    if s.len() == 0 {
        seq![Seq::empty()]
    } else {
        let before = pieces(s.drop_last(), sep);
        if s.last() == sep {
            before.push(Seq::empty())
        } else {
            before.drop_last().push(before.last().push(s.last()))
        }
    }
}

/// What stands before the first opening parenthesis: all of `s` where there
/// is none.
pub open spec fn before_paren(s: Seq<char>) -> Seq<char> {
    pieces(s, '(').first()
}

/// The strings of a list as sequences of characters.
pub open spec fn string_views(v: Seq<String>) -> Seq<Seq<char>> {
    Seq::new(v.len(), |i: int| v[i]@)
}

/// What `quick_xml::escape::unescape` makes of a text: the text with each
/// character reference and each predefined entity replaced by what it
/// stands for, or nothing where a reference is malformed or unknown.
pub uninterp spec fn unescaped(raw: Seq<char>) -> Option<Seq<char>>;

/// What `str::to_lowercase` makes of a text.
pub uninterp spec fn lowercased(s: Seq<char>) -> Seq<char>;

/// What `str::trim` leaves of a text.
pub uninterp spec fn trimmed(s: Seq<char>) -> Seq<char>;

/// What the group `group` of the regular expression `pattern` captures at
/// the first match in `text`, as `regex::Regex::captures` finds it: nothing
/// where the pattern is not valid, does not match, or the group takes no part
/// in the match.
pub uninterp spec fn regex_capture(pattern: Seq<char>, group: Seq<char>, text: Seq<char>) -> Option<Seq<char>>;

/// Calls `std::str::from_utf8`: the bytes as text where they are UTF-8, and
/// nothing where they are not.
#[verifier::external_body]
pub(crate) fn utf8_text(bytes: &[u8]) -> (r: Option<&str>)
    ensures
        r is Some <==> valid_utf8(bytes@),
        r matches Some(s) ==> s.spec_bytes() == bytes@,
{
    std::str::from_utf8(bytes).ok()
}

/// Calls `quick_xml::escape::unescape`. The result is given the name
/// `unescaped`. A text without an ampersand holds no reference, and comes
/// back as it is.
#[verifier::external_body]
pub(crate) fn unescape_text(raw: &str) -> (r: Option<String>)
    ensures
        match r {
            Some(s) => unescaped(raw@) == Some(s@),
            None => unescaped(raw@) is None,
        },
        !raw@.contains('&') ==> r is Some && r->Some_0@ == raw@,
{
    quick_xml::escape::unescape(raw).ok().map(|s| s.into_owned())
}

/// Calls `str::split` with a semicolon as the separator: the pieces between
/// the semicolons, in order.
#[verifier::external_body]
pub(crate) fn split_semicolons(s: &str) -> (r: Vec<String>)
    ensures
        string_views(r@) == pieces(s@, ';'),
{
    s.split(';').map(|piece| piece.to_string()).collect()
}

/// Calls `str::to_lowercase`. The result is given the name `lowercased`.
#[verifier::external_body]
pub(crate) fn lowercase_text(s: &str) -> (r: String)
    ensures
        r@ == lowercased(s@),
{
    s.to_lowercase()
}

/// Calls `str::trim`. The result is given the name `trimmed`.
#[verifier::external_body]
pub(crate) fn trim_text(s: &str) -> (r: String)
    ensures
        r@ == trimmed(s@),
{
    s.trim().to_string()
}

/// The pattern that takes a name apart: the base name, then an optional
/// qualifier in parentheses.
pub open spec fn base_name_pattern() -> Seq<char> {
    "(?<base_name>[^(]*)(\\(.*\\))?"@
}

/// Calls `regex::Regex::new` and `regex::Regex::captures`, and takes the
/// group `group` of the match. The result is given the name `regex_capture`.
/// The group `base_name` of `base_name_pattern` is a run of characters other
/// than an opening parenthesis, as long as it can be, at the start of the
/// leftmost match, which begins where the text begins: so what it captures is
/// what stands before the first opening parenthesis.
#[verifier::external_body]
pub(crate) fn capture_group(pattern: &str, group: &str, text: &str) -> (r: Option<String>)
    ensures
        match r {
            Some(s) => regex_capture(pattern@, group@, text@) == Some(s@),
            None => regex_capture(pattern@, group@, text@) is None,
        },
        pattern@ == base_name_pattern() && group@ == "base_name"@ ==> (r matches Some(s) ==> s@
            == before_paren(text@)),
{
    let re = regex::Regex::new(pattern).ok()?;
    re.captures(text)?.name(group).map(|m| m.as_str().to_string())
}

} // verus!
