use vstd::prelude::*;
use crate::record::views;

verus! {

/// The terms of a text, in order, repeats kept.
pub uninterp spec fn words_of(s: Seq<char>) -> Seq<Seq<char>>;

/// Relies on str::split_whitespace: the text's maximal runs of
/// non-whitespace characters, in order; the result depends on the text alone.
#[verifier::external_body]
pub(crate) fn split_words(text: &str) -> (r: Vec<String>)
    ensures
        views(r@) == words_of(text@),
{
    text.split_whitespace().map(String::from).collect()
}

} // verus!
