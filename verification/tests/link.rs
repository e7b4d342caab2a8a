use post2html::link::{resolve_wikilinks, LinkEntry, LinksRegistry};
use post2html::render::replace_wikilinks;

fn sample_registry() -> LinksRegistry {
    let mut reg = LinksRegistry::new();
    reg.insert(
        "hello-world".to_string(),
        LinkEntry { title: "Hello World".to_string(), url: "/posts/hello-world/".to_string() },
    );
    reg.insert(
        "second-post".to_string(),
        LinkEntry { title: "A Second Post".to_string(), url: "/posts/second-post/".to_string() },
    );
    reg
}

#[test]
fn resolves_known_slug_with_default_display() {
    let html = r#"<p>See <a class="wikilink" data-slug="hello-world">[[hello-world]]</a> for more.</p>"#;
    let (resolved, broken) = resolve_wikilinks(html, &sample_registry());
    assert_eq!(resolved, r#"<p>See <a href="/posts/hello-world/">Hello World</a> for more.</p>"#);
    assert!(broken.is_empty());
}

#[test]
fn resolves_known_slug_with_custom_display() {
    let html = r#"<a class="wikilink" data-slug="second-post">click here</a>"#;
    let (resolved, broken) = resolve_wikilinks(html, &sample_registry());
    assert_eq!(resolved, r#"<a href="/posts/second-post/">click here</a>"#);
    assert!(broken.is_empty());
}

#[test]
fn broken_link_adds_class_and_reports() {
    let html = r#"<a class="wikilink" data-slug="nonexistent">[[nonexistent]]</a>"#;
    let (resolved, broken) = resolve_wikilinks(html, &sample_registry());
    assert_eq!(resolved, r#"<a class="wikilink broken-link" data-slug="nonexistent">[[nonexistent]]</a>"#);
    assert_eq!(broken, vec!["nonexistent"]);
}

#[test]
fn multiple_links_in_one_document() {
    let html = r#"<p><a class="wikilink" data-slug="hello-world">[[hello-world]]</a> and <a class="wikilink" data-slug="second-post">my link</a></p>"#;
    let (resolved, broken) = resolve_wikilinks(html, &sample_registry());
    assert!(resolved.contains(r#"<a href="/posts/hello-world/">Hello World</a>"#), "got: {resolved}");
    assert!(resolved.contains(r#"<a href="/posts/second-post/">my link</a>"#), "got: {resolved}");
    assert!(broken.is_empty());
}

#[test]
fn no_wikilinks_passthrough() {
    let html = "<p>No links here.</p>";
    let (resolved, broken) = resolve_wikilinks(html, &sample_registry());
    assert_eq!(resolved, html);
    assert!(broken.is_empty());
}

#[test]
fn mixed_known_and_broken() {
    let html = r#"<a class="wikilink" data-slug="hello-world">[[hello-world]]</a> <a class="wikilink" data-slug="missing">oops</a>"#;
    let (resolved, broken) = resolve_wikilinks(html, &sample_registry());
    assert!(resolved.contains(r#"<a href="/posts/hello-world/">Hello World</a>"#));
    assert!(resolved.contains(r#"class="wikilink broken-link""#));
    assert_eq!(broken, vec!["missing"]);
}

#[test]
fn placeholder_with_extra_white_space_and_tags_in_text() {
    // White space between the attributes may be any run of white space.
    let html = "<a  class=\"wikilink\"\n data-slug=\"hello-world\">x</a>";
    let (resolved, _) = resolve_wikilinks(html, &sample_registry());
    assert_eq!(resolved, "<a href=\"/posts/hello-world/\">x</a>");
    // A text holding a tag is no placeholder and is left alone.
    let html = "<a class=\"wikilink\" data-slug=\"hello-world\"><b>x</b></a>";
    let (resolved, broken) = resolve_wikilinks(html, &sample_registry());
    assert_eq!(resolved, html);
    assert!(broken.is_empty());
}

#[test]
fn broken_slugs_reported_in_order_with_repeats() {
    let html = "<a class=\"wikilink\" data-slug=\"b\">1</a><a class=\"wikilink\" data-slug=\"a\">2</a><a class=\"wikilink\" data-slug=\"b\">3</a>";
    let (_, broken) = resolve_wikilinks(html, &sample_registry());
    assert_eq!(broken, vec!["b", "a", "b"]);
}

#[test]
fn registry_insert_replaces_and_get_reads_back() {
    let mut reg = sample_registry();
    assert_eq!(reg.len(), 2);
    assert!(!reg.is_empty());
    reg.insert("hello-world".to_string(), LinkEntry { title: "New".to_string(), url: "/new/".to_string() });
    assert_eq!(reg.len(), 2);
    let e = reg.get("hello-world").unwrap();
    assert_eq!(e.title, "New");
    assert_eq!(e.url, "/new/");
    assert!(reg.get("nope").is_none());
    assert!(LinksRegistry::new().is_empty());
}

#[test]
fn rendered_links_resolve_end_to_end() {
    let rendered = replace_wikilinks("<p>[[hello-world]], [[second-post|see]] and [[gone]]</p>");
    let (resolved, broken) = resolve_wikilinks(&rendered, &sample_registry());
    assert_eq!(
        resolved,
        "<p><a href=\"/posts/hello-world/\">Hello World</a>, <a href=\"/posts/second-post/\">see</a> and <a class=\"wikilink broken-link\" data-slug=\"gone\">[[gone]]</a></p>"
    );
    assert_eq!(broken, vec!["gone"]);
}

#[test]
fn resolving_twice_changes_nothing() {
    let html = "<p><a class=\"wikilink\" data-slug=\"hello-world\">[[hello-world]]</a> <a class=\"wikilink\" data-slug=\"gone\">x</a> <a class=\"wikilink\" data-slug=\"<a\">y</a></p>";
    let (once, _) = resolve_wikilinks(html, &sample_registry());
    let (twice, broken) = resolve_wikilinks(&once, &sample_registry());
    assert_eq!(twice, once);
    assert!(broken.is_empty());
}
