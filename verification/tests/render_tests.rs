use push_server::content::EssayContent;
use push_server::render::MarkdownRenderer;

#[test]
fn renderer_produces_html() {
    let r = MarkdownRenderer::new();
    assert_eq!(r.render("# Title"), "<h1>Title</h1>\n");
    assert_eq!(r.render("plain"), "<p>plain</p>\n");
}

#[test]
fn renderer_supports_strikethrough() {
    let r = MarkdownRenderer::new();
    assert_eq!(r.render("~~gone~~"), "<p><del>gone</del></p>\n");
}

#[test]
fn essay_content_from_renders_markdown() {
    let c = EssayContent::from("**bold**");
    assert_eq!(c.content, "<p><strong>bold</strong></p>\n");
}
