//! The one door to the `regex` crate: whether a pattern matches a text.

use regex::Regex;
use vstd::prelude::*;

verus! {

/// What `regex` answers for a pattern and a text: `Some(true)` where the
/// pattern compiles and matches somewhere in the text, `Some(false)` where it
/// compiles and matches nowhere, `None` where it does not compile.
pub uninterp spec fn regex_match(pattern: Seq<char>, text: Seq<char>) -> Option<bool>;

/// Calls `regex::Regex::new` on `pattern` and, where that yields a regex,
/// `Regex::is_match` on `text`. Nothing is proved of the answer; it is only
/// given the name [`regex_match`], which rests on `regex` answering alike
/// whenever it is asked the same.
#[verifier::external_body]
pub(crate) fn regex_is_match(pattern: &str, text: &str) -> (r: Option<bool>)
    ensures
        r == regex_match(pattern@, text@),
{
    match Regex::new(pattern) {
        Ok(re) => Some(re.is_match(text)),
        Err(_) => None,
    }
}

} // verus!
