//! The markdown-to-HTML edge: rendering is done by an outside renderer and
//! taken on trust; everything downstream treats the result as opaque text.

use vstd::prelude::*;

verus! {

/// What the outside renderer produces for a given markdown text.
pub uninterp spec fn html_of(md: Seq<char>) -> Seq<char>;

/// Relies on `markdown::to_html_with_options` with `Options::gfm()`: the
/// rendering is a function of the input text alone, and per the crate's
/// documentation the call errors only when MDX is enabled, which the GFM
/// options do not do.
#[verifier::external_body]
pub fn to_html(content: &str) -> (r: Result<String, String>)
    ensures
        r is Ok,
        r is Ok ==> r->Ok_0@ == html_of(content@),
{
    match ::markdown::to_html_with_options(content, &::markdown::Options::gfm()) {
        Ok(html) => Ok(html),
        Err(message) => Err(message.to_string()),
    }
}

} // verus!
