//! The trusted boundary: the few outside calls the library relies on, each
//! behind a wrapper whose contract states no more than the outside source
//! promises. Everything else in the crate is verified against these
//! contracts.

use vstd::prelude::*;
use vstd::utf8::decode_utf8;
use vstd::utf8::valid_utf8;
use crate::encode::views_of;

verus! {

/// What `quick_xml::escape::unescape` returns for a given character
/// sequence: `None` where the escape syntax is invalid, otherwise the text
/// with every `&...;` entity replaced. The result is a function of the
/// characters alone.
pub uninterp spec fn unescaped_of(s: Seq<char>) -> Option<Seq<char>>;

/// What compiling `pattern` with `regex::Regex::new` and searching `hay`
/// with `Regex::captures` yields: `None` where the pattern does not compile
/// or does not match, otherwise one entry per capture group — the full match
/// first, an unmatched group as the empty sequence. The result is a function
/// of the two character sequences alone.
pub uninterp spec fn captures_of(pattern: Seq<char>, hay: Seq<char>) -> Option<Seq<Seq<char>>>;

/// Relies on `std::str::from_utf8`, which succeeds exactly on valid UTF-8,
/// and on `str::chars`, which yields the decoded characters.
#[verifier::external_body]
pub fn decode_utf8_chars(b: &[u8]) -> (r: Option<Vec<char>>)
    ensures
        r is Some <==> valid_utf8(b@),
        r is Some ==> r->0@ == decode_utf8(b@),
{
    match std::str::from_utf8(b) {
        Ok(s) => Some(s.chars().collect()),
        Err(_) => None,
    }
}

/// Relies on `str::chars`: a string slice's characters are exactly its view.
#[verifier::external_body]
pub fn chars_of_str(s: &str) -> (r: Vec<char>)
    ensures
        r@ == s@,
{
    s.chars().collect()
}

/// Relies on `quick_xml::escape::unescape`. Its source scans for `&`; a text
/// without `&` is handed back unchanged, which the last clause records.
#[verifier::external_body]
pub fn unescape_chars(s: &Vec<char>) -> (r: Option<Vec<char>>)
    ensures
        r is Some <==> unescaped_of(s@) is Some,
        r is Some ==> r->0@ == unescaped_of(s@)->0,
        (forall|i: int| 0 <= i < s@.len() ==> s@[i] != '&') ==> (r is Some && r->0@ == s@),
{
    let joined: String = s.iter().collect();
    match quick_xml::escape::unescape(&joined) {
        Ok(u) => Some(u.chars().collect()),
        Err(_) => None,
    }
}

/// Relies on `regex::Regex::new` and `regex::Regex::captures`, both
/// functions of their string arguments alone; see [`captures_of`] for the
/// shape of the result.
#[verifier::external_body]
pub fn regex_captures(pattern: &Vec<char>, hay: &Vec<char>) -> (r: Option<Vec<Vec<char>>>)
    ensures
        r is Some <==> captures_of(pattern@, hay@) is Some,
        r is Some ==> views_of(r->0@) == captures_of(pattern@, hay@)->0,
{
    let p: String = pattern.iter().collect();
    let h: String = hay.iter().collect();
    let re = match regex::Regex::new(&p) {
        Ok(re) => re,
        Err(_) => return None,
    };
    let caps = re.captures(&h)?;
    Some(
        caps.iter().map(
            |m| m.map_or(Vec::new(), |g| g.as_str().chars().collect()),
        ).collect(),
    )
}

} // verus!
