//! Splitting raw document text into terms.
use crate::vocab::strings_view;
use vstd::prelude::*;

verus! {

/// The pieces of `s` between runs of white space, in order.
pub uninterp spec fn whitespace_tokens(s: Seq<char>) -> Seq<Seq<char>>;

/// Relies on `str::split_whitespace`: the result is a function of the text
/// alone, the pieces between runs of Unicode white space, in order.
#[verifier::external_body]
fn split_on_whitespace(s: &str) -> (r: Vec<String>)
    ensures
        strings_view(r@) == whitespace_tokens(s@),
{
    s.split_whitespace().map(|t| t.to_string()).collect()
}

/// The terms of a raw document.
pub fn tokenize(text: &String) -> (r: Vec<String>)
    ensures
        strings_view(r@) == whitespace_tokens(text@),
{
    split_on_whitespace(text.as_str())
}

} // verus!
