use post2html::link::{resolve_wikilinks, LinkEntry, LinksRegistry};
use post2html::render::{html_escape, replace_wikilinks};

fn registry() -> LinksRegistry {
    let mut reg = LinksRegistry::new();
    reg.insert(s("known"), LinkEntry { title: s("Known Post"), url: s("/posts/known/") });
    reg
}

fn s(x: &str) -> String {
    x.to_string()
}

fn render_then_link(text: &str) -> (String, Vec<String>) {
    resolve_wikilinks(&replace_wikilinks(text), &registry())
}

#[test]
fn plain_text_is_unchanged_by_both_steps() {
    let (out, broken) = render_then_link("Nothing to see here, only text.");
    assert_eq!(out, "Nothing to see here, only text.");
    assert!(broken.is_empty());
}

#[test]
fn known_link_shows_title_and_unknown_link_is_marked() {
    let (out, broken) = render_then_link("a [[known]] b [[unknown]] c");
    assert_eq!(
        out,
        "a <a href=\"/posts/known/\">Known Post</a> b <a class=\"wikilink broken-link\" data-slug=\"unknown\">[[unknown]]</a> c"
    );
    assert_eq!(broken, vec!["unknown"]);
}

#[test]
fn labelled_link_keeps_its_label() {
    let (out, broken) = render_then_link("[[known|read this]] and [[gone|that]]");
    assert_eq!(
        out,
        "<a href=\"/posts/known/\">read this</a> and <a class=\"wikilink broken-link\" data-slug=\"gone\">that</a>"
    );
    assert_eq!(broken, vec!["gone"]);
}

#[test]
fn escaped_slug_does_not_match_registry() {
    // A slug with `&` is escaped in the placeholder, so resolution looks up
    // the escaped form.
    let mut reg = registry();
    reg.insert(s("a&b"), LinkEntry { title: s("AB"), url: s("/ab/") });
    let (out, broken) = resolve_wikilinks(&replace_wikilinks("[[a&b]]"), &reg);
    assert_eq!(out, "<a class=\"wikilink broken-link\" data-slug=\"a&amp;b\">[[a&b]]</a>");
    assert_eq!(broken, vec!["a&amp;b"]);
}

#[test]
fn escaped_text_has_no_markup() {
    let e = html_escape("<tag attr=\"v\">x & y</tag>");
    assert!(!e.contains('<') && !e.contains('>') && !e.contains('"'));
    assert_eq!(html_escape("plain-slug_1"), "plain-slug_1");
}

#[test]
fn markup_around_links_is_kept() {
    let (out, broken) = render_then_link("<p class=\"x\">See <em>[[known]]</em></p>");
    assert_eq!(out, "<p class=\"x\">See <em><a href=\"/posts/known/\">Known Post</a></em></p>");
    assert!(broken.is_empty());
}
