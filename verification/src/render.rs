//! The markdown renderer: a deterministic transform from a document body to
//! HTML, performed by pulldown_cmark with strikethrough-style extended
//! syntax enabled.

use vstd::prelude::*;

verus! {

/// The HTML that the renderer produces for a body. Rendering is a pure,
/// deterministic function of the characters alone; its rules are the
/// renderer's own and are not restated here.
pub uninterp spec fn html_of(md: Seq<char>) -> Seq<char>;

/// Relies on pulldown_cmark's `Parser::new_ext` and `html::push_html`:
/// parsing and emission depend on the input characters and the fixed
/// option set alone, so the result is `html_of` of the input.
#[verifier::external_body]
fn render_markdown(md_content: &str) -> (r: String)
    ensures
        r@ == html_of(md_content@),
{
    let mut option = pulldown_cmark::Options::empty();
    option.insert(pulldown_cmark::Options::ENABLE_STRIKETHROUGH);
    let parser = pulldown_cmark::Parser::new_ext(md_content, option);
    let mut html_output = String::new();
    pulldown_cmark::html::push_html(&mut html_output, parser);
    html_output
}

/// The markdown renderer. Strikethrough-style extended syntax is always
/// enabled, as the catalogue's documents use it.
pub struct MarkdownRenderer {
    pub strikethrough: bool,
}

impl MarkdownRenderer {
    pub fn new() -> (r: Self)
        ensures
            r.strikethrough,
    {
        MarkdownRenderer { strikethrough: true }
    }

    /// Render one document body to HTML.
    pub fn render(&self, md_content: &str) -> (r: String)
        ensures
            r@ == html_of(md_content@),
    {
        render_markdown(md_content)
    }
}

} // verus!
