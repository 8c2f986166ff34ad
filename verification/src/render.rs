//! Rendering of resolved text for a file format.

use vstd::prelude::*;
use crate::text::to_chars;

verus! {

/// The HTML that the crate `comrak` makes of a Markdown text under its
/// default options.
pub uninterp spec fn markdown_html(text: Seq<char>) -> Seq<char>;

/// `comrak::markdown_to_html` of the crate `comrak`, with the options that
/// `Options::default()` gives. Under these the call reads nothing but the
/// text, so its result has a name: the contract says that the string
/// returned is `markdown_html` of the text, and no more.
#[verifier::external_body]
fn markdown_to_html(text: &str) -> (html: String)
    ensures
        html@ == markdown_html(text@),
{
    comrak::markdown_to_html(text, &comrak::Options::default())
}

/// The file extension of Markdown.
pub open spec fn markdown_extension() -> Seq<char> {
    seq!['m', 'd']
}

/// What `render_text` returns.
pub open spec fn rendered(text: Seq<char>, file_extension: Seq<char>) -> Seq<char> {
    if file_extension == markdown_extension() {
        markdown_html(text)
    } else {
        text
    }
}

/// Renders `text_to_render` for a file with the extension
/// `file_extension`: as HTML for `md`, unchanged for any other.
pub fn render_text(text_to_render: &str, file_extension: &str) -> (r: String)
    ensures
        r@ == rendered(text_to_render@, file_extension@),
{
    let extension = to_chars(file_extension);
    if extension.len() == 2 && extension[0] == 'm' && extension[1] == 'd' {
        assert(file_extension@ =~= markdown_extension());
        markdown_to_html(text_to_render)
    } else {
        text_to_render.to_owned()
    }
}

} // verus!
