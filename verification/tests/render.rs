use docweave::render_text;

#[test]
fn render_markdown_gives_html() {
    assert_eq!(render_text("# Title", "md"), "<h1>Title</h1>\n");
    assert_eq!(
        render_text("Hello *world*, `x`", "md"),
        "<p>Hello <em>world</em>, <code>x</code></p>\n"
    );
    assert_eq!(render_text("", "md"), "");
}

#[test]
fn render_other_formats_gives_the_text_back() {
    assert_eq!(render_text("# Title", "txt"), "# Title");
    assert_eq!(render_text("# Title", "html"), "# Title");
    assert_eq!(render_text("# Title", ""), "# Title");
    assert_eq!(render_text("# Title", "MD"), "# Title");
    assert_eq!(render_text("# Title", "mdx"), "# Title");
    assert_eq!(render_text("# Title", "m"), "# Title");
}
