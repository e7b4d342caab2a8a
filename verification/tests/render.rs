use post2html::render::{
    detect_format, extract_body, highlight_code_blocks, html_decode, html_escape, postprocess_markdown_html,
    render_content, render_html_passthrough, render_rst_output, render_txt, replace_wikilinks, ContentFormat,
    RenderError,
};

fn s(x: &str) -> String {
    x.to_string()
}

#[test]
fn detect_format_markdown() {
    assert_eq!(detect_format("post.md").unwrap(), ContentFormat::Markdown);
}

#[test]
fn detect_format_rst() {
    assert_eq!(detect_format("post.rst").unwrap(), ContentFormat::Rst);
}

#[test]
fn detect_format_html() {
    assert_eq!(detect_format("post.html").unwrap(), ContentFormat::Html);
}

#[test]
fn detect_format_htm() {
    assert_eq!(detect_format("post.htm").unwrap(), ContentFormat::Html);
}

#[test]
fn detect_format_txt() {
    assert_eq!(detect_format("post.txt").unwrap(), ContentFormat::Txt);
}

#[test]
fn detect_format_unknown() {
    let err = detect_format("post.docx").unwrap_err();
    let msg = err.message();
    assert!(msg.contains("unsupported content format: docx"), "expected unsupported format error, got: {msg}");
}

#[test]
fn detect_format_no_extension() {
    let err = detect_format("README").unwrap_err();
    let msg = err.message();
    assert!(msg.contains("(no extension)"), "expected no-extension error, got: {msg}");
}

#[test]
fn detect_format_path_edge_cases() {
    assert_eq!(detect_format("/a/b.c/post.md").unwrap(), ContentFormat::Markdown);
    assert_eq!(detect_format("dir/post.md/").unwrap(), ContentFormat::Markdown);
    assert_eq!(detect_format("dir/archive.tar.txt").unwrap(), ContentFormat::Txt);
    assert!(matches!(detect_format(".md"), Err(RenderError::UnsupportedFormat(e)) if e == "(no extension)"));
    assert!(matches!(detect_format("post.MD"), Err(RenderError::UnsupportedFormat(e)) if e == "MD"));
    assert!(matches!(detect_format("post."), Err(RenderError::UnsupportedFormat(e)) if e.is_empty()));
    assert!(matches!(detect_format(""), Err(RenderError::UnsupportedFormat(e)) if e == "(no extension)"));
    assert!(matches!(detect_format("a/.."), Err(RenderError::UnsupportedFormat(e)) if e == "(no extension)"));
}

#[test]
fn html_passthrough_returns_content_as_is() {
    let content = "<h1>Title</h1>\n<p>Some paragraph.</p>";
    let result = render_html_passthrough(content);
    assert_eq!(result, content);
}

#[test]
fn html_passthrough_replaces_wikilinks() {
    let content = "<p>See [[other-page]] for details.</p>";
    let result = render_html_passthrough(content);
    assert!(
        result.contains("<a class=\"wikilink\" data-slug=\"other-page\">[[other-page]]</a>"),
        "expected wikilink in HTML passthrough, got: {result}"
    );
}

#[test]
fn txt_wraps_in_pre() {
    let content = "Hello world\nSecond line";
    let result = render_txt(content);
    assert!(result.starts_with("<pre class=\"plaintext\">"), "expected <pre> wrapper, got: {result}");
    assert!(result.ends_with("</pre>"), "expected </pre> closing, got: {result}");
}

#[test]
fn txt_escapes_html_entities() {
    let content = "<script>alert('xss')</script>";
    let result = render_txt(content);
    assert!(!result.contains("<script>"), "should escape HTML tags in txt, got: {result}");
    assert!(result.contains("&lt;script&gt;"), "expected escaped tags, got: {result}");
}

#[test]
fn txt_replaces_wikilinks() {
    let content = "See [[my-page]] for info.";
    let result = render_txt(content);
    assert!(
        result.contains("<a class=\"wikilink\" data-slug=\"my-page\">"),
        "expected wikilink in txt, got: {result}"
    );
}

#[test]
fn txt_exact_output() {
    assert_eq!(
        render_txt("a & b\n[[x|y]]"),
        "<pre class=\"plaintext\">a &amp; b\n<a class=\"wikilink\" data-slug=\"x\">y</a></pre>"
    );
}

#[test]
fn rst_body_extraction() {
    let full = r#"<!DOCTYPE html>
<html><head><title>T</title></head>
<body>
<div class="document">
<p>Hello world</p>
</div>
</body>
</html>"#;
    let body = extract_body(full);
    assert!(body.contains("<p>Hello world</p>"), "expected body content, got: {body}");
    assert!(!body.contains("<html"), "should not contain html tag, got: {body}");
    assert!(!body.contains("<head"), "should not contain head tag, got: {body}");
}

#[test]
fn rst_body_extraction_no_body_tag() {
    let fragment = "<p>Just a fragment</p>";
    let result = extract_body(fragment);
    assert_eq!(result, "<p>Just a fragment</p>");
}

#[test]
fn body_extraction_exact_cases() {
    assert_eq!(extract_body("<BODY>\n x \n</Body>"), "x");
    assert_eq!(extract_body("a<body>one</body>two</body>b"), "one</body>two");
    assert_eq!(extract_body("  <body> open only "), "<body> open only");
    assert_eq!(extract_body("</body><body>"), "</body><body>");
}

#[test]
fn rst_output_extracts_body_and_replaces_links() {
    let out = render_rst_output("<html><body>\n<p>[[a-b]]</p>\n</body></html>");
    assert_eq!(out, "<p><a class=\"wikilink\" data-slug=\"a-b\">[[a-b]]</a></p>");
}

#[test]
fn rst_missing_binary() {
    let err = RenderError::Rst2HtmlNotFound;
    let msg = err.message();
    assert!(msg.contains("rst2html5 not found on PATH"), "expected clear error message, got: {msg}");
    assert!(msg.contains("python3Packages.docutils"), "expected install hint, got: {msg}");
}

#[test]
fn render_error_messages() {
    assert_eq!(
        RenderError::ReadFailed(s("a.md"), s("gone")).message(),
        "failed to read content file a.md: gone"
    );
    assert_eq!(
        RenderError::WriteFailed(s("out/content.html"), s("full")).message(),
        "failed to write output file out/content.html: full"
    );
    assert_eq!(
        RenderError::UnsupportedFormat(s("docx")).message(),
        "unsupported content format: docx (supported: .md, .rst, .html, .txt)"
    );
    assert_eq!(RenderError::RstFailed(s("boom")).message(), "RST rendering failed: boom");
}

#[test]
fn wikilink_simple_slug() {
    let html = replace_wikilinks("check [[my-page]] here");
    assert_eq!(html, "check <a class=\"wikilink\" data-slug=\"my-page\">[[my-page]]</a> here");
}

#[test]
fn wikilink_with_display_text() {
    let html = replace_wikilinks("see [[my-page|My Page]]");
    assert_eq!(html, "see <a class=\"wikilink\" data-slug=\"my-page\">My Page</a>");
}

#[test]
fn wikilink_multiple_in_one_string() {
    let html = replace_wikilinks("a [[one]] b [[two|Two]] c");
    assert!(
        html.contains("<a class=\"wikilink\" data-slug=\"one\">[[one]]</a>"),
        "expected first wikilink, got: {html}"
    );
    assert!(html.contains("<a class=\"wikilink\" data-slug=\"two\">Two</a>"), "expected second wikilink, got: {html}");
}

#[test]
fn wikilink_none_passthrough() {
    let input = "<p>No links here.</p>";
    let html = replace_wikilinks(input);
    assert_eq!(html, input);
}

#[test]
fn wikilink_edge_cases() {
    // The slug is escaped in the attribute, kept as written in the shown text.
    assert_eq!(
        replace_wikilinks("[[a&b]]"),
        "<a class=\"wikilink\" data-slug=\"a&amp;b\">[[a&b]]</a>"
    );
    // Empty slugs, empty display texts and unclosed links are left alone.
    assert_eq!(replace_wikilinks("[[]] [[a|]] [[b"), "[[]] [[a|]] [[b");
    // A third bracket is not part of the link.
    assert_eq!(replace_wikilinks("[[[a]]"), "[<a class=\"wikilink\" data-slug=\"a\">[[a]]</a>");
    assert_eq!(replace_wikilinks("[[a]]]"), "<a class=\"wikilink\" data-slug=\"a\">[[a]]</a>]");
    // Display text may hold a `|`.
    assert_eq!(replace_wikilinks("[[a|b|c]]"), "<a class=\"wikilink\" data-slug=\"a\">b|c</a>");
}

#[test]
fn html_escape_exact() {
    assert_eq!(html_escape("<a href=\"x\">&</a>'"), "&lt;a href=&quot;x&quot;&gt;&amp;&lt;/a&gt;'");
    assert_eq!(html_escape(""), "");
}

#[test]
fn html_decode_decodes_each_entity_once() {
    assert_eq!(html_decode("&lt;b&gt; &quot;q&quot; &amp;lt;"), "<b> \"q\" &lt;");
    assert_eq!(html_decode("&amp;amp; &ampx &lt"), "&amp; &ampx &lt");
}

#[test]
fn decoding_undoes_escaping() {
    for text in ["a < b && c > \"d\"", "&lt;already&gt;", "&amp;", "plain", ""] {
        assert_eq!(html_decode(&html_escape(text)), text);
    }
}

fn comrak_html(md: &str) -> String {
    comrak::markdown_to_html(md, &comrak::Options::default())
}

#[test]
fn wikilink_inside_paragraph() {
    let html = postprocess_markdown_html(&comrak_html("Check [[some-slug]] for details."));
    assert!(
        html.contains("<a class=\"wikilink\" data-slug=\"some-slug\">[[some-slug]]</a>"),
        "expected wikilink inside <p>, got: {html}"
    );
    assert!(html.contains("<p>"), "expected paragraph wrapper, got: {html}");
}

#[test]
fn highlight_known_language() {
    let html = postprocess_markdown_html(&comrak_html("```rust\nfn main() {}\n```"));
    assert!(html.contains("<span class="), "expected highlighted spans for Rust code, got: {html}");
    assert!(html.contains("class=\"language-rust\""), "expected language-rust class, got: {html}");
}

#[test]
fn highlight_unknown_language_passthrough() {
    let html = postprocess_markdown_html(&comrak_html("```nosuchlanguage\nsome code\n```"));
    assert!(
        html.contains("<pre><code class=\"language-nosuchlanguage\">some code"),
        "expected unchanged code block for unknown language, got: {html}"
    );
    assert!(!html.contains("<span class="), "should not contain highlighted spans for unknown language, got: {html}");
}

#[test]
fn highlight_no_language_passthrough() {
    let html = postprocess_markdown_html(&comrak_html("```\nplain code\n```"));
    assert!(html.contains("<pre><code>plain code"), "expected plain code block without language, got: {html}");
    assert!(!html.contains("<span class="), "should not contain highlighted spans for no-language block, got: {html}");
}

#[test]
fn highlight_does_not_affect_inline_code() {
    let html = postprocess_markdown_html(&comrak_html("Use `fn main()` in Rust."));
    assert!(html.contains("<code>fn main()</code>"), "expected inline code untouched, got: {html}");
    assert!(!html.contains("<span class="), "should not contain highlighted spans for inline code, got: {html}");
}

#[test]
fn highlight_decodes_entities_before_highlighting() {
    let html = highlight_code_blocks("<pre><code class=\"language-rust\">let a = &amp;b;\n</code></pre>");
    assert!(html.starts_with("<pre><code class=\"language-rust\">"), "got: {html}");
    assert!(html.ends_with("</code></pre>"), "got: {html}");
    assert!(html.contains("<span class="), "got: {html}");
    assert_ne!(html, "<pre><code class=\"language-rust\">let a = &amp;b;\n</code></pre>");
}

#[test]
fn render_content_dispatches_on_format() {
    assert_eq!(render_content(ContentFormat::Html, "<p>[[a]]</p>"), "<p><a class=\"wikilink\" data-slug=\"a\">[[a]]</a></p>");
    assert_eq!(render_content(ContentFormat::Txt, "<"), "<pre class=\"plaintext\">&lt;</pre>");
    assert_eq!(render_content(ContentFormat::Rst, "<body> x </body>"), "x");
    assert_eq!(render_content(ContentFormat::Markdown, "<p>[[a|b]]</p>\n"), "<p><a class=\"wikilink\" data-slug=\"a\">b</a></p>\n");
}

#[test]
fn unknown_languages_leave_the_document_unchanged() {
    let html = "<p>x</p><pre><code class=\"language-nosuchlanguage\">a &lt; b\n</code></pre>\
<pre><code class=\"language-alsonotone\">c</code></pre><code>d</code>";
    assert_eq!(highlight_code_blocks(html), html);
}
