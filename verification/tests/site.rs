use post2html::compose::{FeedConfig, PostEntry, SiteConfig};
use post2html::json::JsonValue;
use post2html::site::plan_site;

fn s(x: &str) -> String {
    x.to_string()
}

fn post(slug: &str, date: &str, tags: &[&str]) -> PostEntry {
    PostEntry {
        slug: s(slug),
        metadata: JsonValue::Object(vec![
            (s("slug"), JsonValue::Str(s(slug))),
            (s("title"), JsonValue::Str(slug.to_uppercase())),
            (s("date"), JsonValue::Str(s(date))),
            (s("tags"), JsonValue::Array(tags.iter().map(|t| JsonValue::Str(t.to_string())).collect())),
        ]),
        content: format!("<p>{slug}</p>"),
        source_dir: format!("/src/{slug}"),
    }
}

fn site(feed: bool) -> SiteConfig {
    SiteConfig {
        site_name: s("Test Blog"),
        base_url: s("https://example.com"),
        language: s("en"),
        nav: vec![],
        posts_per_page: 2,
        feed: if feed { Some(FeedConfig { enable: true, title: Some(s("Feed")), description: None }) } else { None },
        author: None,
    }
}

fn layout(plan: &post2html::site::SitePlan) -> Vec<(String, String, String)> {
    plan.pages.iter().map(|p| (p.dir.clone(), p.file.clone(), p.template.clone())).collect()
}

#[test]
fn plan_lists_every_page_in_order() {
    let posts = vec![
        post("first-post", "2024-03-15", &["rust", "nix"]),
        post("second-post", "2024-04-01", &["rust"]),
        post("third-post", "2023-12-01", &["Nix OS"]),
    ];
    let plan = plan_site(&site(true), &JsonValue::Null, posts);
    let order: Vec<&str> = plan.posts.iter().map(|p| p.slug.as_str()).collect();
    assert_eq!(order, vec!["second-post", "first-post", "third-post"]);
    let want: Vec<(String, String, String)> = [
        ("posts/second-post", "index.html", "post.html"),
        ("posts/first-post", "index.html", "post.html"),
        ("posts/third-post", "index.html", "post.html"),
        ("", "index.html", "index.html"),
        ("page/2", "index.html", "index.html"),
        ("tags/nix-os", "index.html", "tag.html"),
        ("tags/nix", "index.html", "tag.html"),
        ("tags/rust", "index.html", "tag.html"),
        ("archive", "index.html", "archive.html"),
        ("", "feed.xml", "feed.xml"),
    ]
    .iter()
    .map(|(a, b, c)| (s(a), s(b), s(c)))
    .collect();
    assert_eq!(layout(&plan), want);
    assert_eq!(plan.years, vec![s("2024"), s("2023")]);
    assert_eq!(plan.pages[0].assets_from.as_deref(), Some("/src/second-post"));
    assert!(plan.pages[3].assets_from.is_none());
    let feed = plan.feed.as_ref().unwrap();
    assert_eq!(feed.title, "Feed");
    assert_eq!(feed.updated, "2024-04-01T00:00:00Z");
    // the tag page of "rust" lists the posts newest first
    let rust = plan.pages[7].context.get("posts").unwrap().as_array().unwrap();
    assert_eq!(rust[0].get("slug"), Some(&JsonValue::Str(s("second-post"))));
    assert_eq!(rust[1].get("slug"), Some(&JsonValue::Str(s("first-post"))));
    // every template sees the tag counts
    let counts = JsonValue::Object(vec![
        (s("Nix OS"), JsonValue::UInt(1)),
        (s("nix"), JsonValue::UInt(1)),
        (s("rust"), JsonValue::UInt(2)),
    ]);
    for p in &plan.pages[..9] {
        assert_eq!(p.context.get("tags"), Some(&counts));
    }
}

#[test]
fn plan_of_empty_site_without_feed() {
    let plan = plan_site(&site(false), &JsonValue::Null, vec![]);
    let want: Vec<(String, String, String)> =
        vec![(s(""), s("index.html"), s("index.html")), (s("archive"), s("index.html"), s("archive.html"))];
    assert_eq!(layout(&plan), want);
    assert!(plan.feed.is_none());
    assert!(plan.years.is_empty());
}
