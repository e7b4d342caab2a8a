use post2html::compose::{
    collect_tags, group_posts_by_year, posts_with_tag, AuthorConfig, FeedConfig, PostEntry, SiteConfig,
};
use post2html::json::JsonValue;
use post2html::pages::{
    archive_json, archive_page_context, feed_context, feed_settings, index_page_context, paginate, post_context,
    post_dir, post_page_context, post_slug, post_url, push_decimal, tag_dir, tag_page_context, tag_url, tags_json,
    total_pages,
};

fn s(x: &str) -> String {
    x.to_string()
}

fn obj(entries: Vec<(&str, JsonValue)>) -> JsonValue {
    JsonValue::Object(entries.into_iter().map(|(k, v)| (k.to_string(), v)).collect())
}

fn post(slug: &str, date: &str, tags: &[&str]) -> PostEntry {
    PostEntry {
        slug: s(slug),
        metadata: obj(vec![
            ("slug", JsonValue::Str(s(slug))),
            ("date", JsonValue::Str(s(date))),
            ("tags", JsonValue::Array(tags.iter().map(|t| JsonValue::Str(t.to_string())).collect())),
        ]),
        content: format!("<p>{slug}</p>"),
        source_dir: format!("posts/{slug}"),
    }
}

fn site(feed: Option<FeedConfig>, author: Option<AuthorConfig>) -> SiteConfig {
    SiteConfig {
        site_name: s("Test Blog"),
        base_url: s("https://example.com"),
        language: s("en"),
        nav: vec![],
        posts_per_page: 2,
        feed,
        author,
    }
}

#[test]
fn decimal_notation() {
    for (n, want) in [(0usize, "0"), (7, "7"), (10, "10"), (305, "305"), (usize::MAX, &usize::MAX.to_string()[..])] {
        let mut out = s("n=");
        push_decimal(&mut out, n);
        assert_eq!(out, format!("n={want}"));
    }
}

#[test]
fn total_pages_rounds_up() {
    assert_eq!(total_pages(0, 10), 1);
    assert_eq!(total_pages(0, 0), 1);
    assert_eq!(total_pages(3, 2), 2);
    assert_eq!(total_pages(4, 2), 2);
    assert_eq!(total_pages(5, 2), 3);
    assert_eq!(total_pages(1, usize::MAX), 1);
}

#[test]
fn paginate_three_posts_two_per_page() {
    let pages = paginate(3, 2);
    assert_eq!(pages.len(), 2);
    let p1 = &pages[0];
    assert_eq!((p1.current, p1.total_pages, p1.start, p1.end), (1, 2, 0, 2));
    assert_eq!(p1.current_url, "/");
    assert_eq!(p1.dir, "");
    assert_eq!(p1.prev_url, None);
    assert_eq!(p1.next_url.as_deref(), Some("/page/2/"));
    let p2 = &pages[1];
    assert_eq!((p2.current, p2.total_pages, p2.start, p2.end), (2, 2, 2, 3));
    assert_eq!(p2.current_url, "/page/2/");
    assert_eq!(p2.dir, "page/2");
    assert_eq!(p2.prev_url.as_deref(), Some("/"));
    assert_eq!(p2.next_url, None);
}

#[test]
fn paginate_no_posts_gives_one_empty_page() {
    let pages = paginate(0, 10);
    assert_eq!(pages.len(), 1);
    assert_eq!((pages[0].start, pages[0].end), (0, 0));
    assert_eq!(pages[0].prev_url, None);
    assert_eq!(pages[0].next_url, None);
}

#[test]
fn paginate_pages_cover_posts_without_overlap() {
    for total in 1..40usize {
        for per in 1..12usize {
            let pages = paginate(total, per);
            assert_eq!(pages[0].start, 0);
            assert_eq!(pages[pages.len() - 1].end, total);
            for w in pages.windows(2) {
                assert_eq!(w[0].end, w[1].start);
            }
            for p in &pages {
                assert!(p.start < p.end && p.end - p.start <= per);
            }
        }
    }
    let pages = paginate(25, 10);
    assert_eq!(pages[2].prev_url.as_deref(), Some("/page/2/"));
    assert_eq!(pages[1].next_url.as_deref(), Some("/page/3/"));
}

#[test]
fn urls_and_dirs() {
    assert_eq!(post_url("hello"), "/posts/hello/");
    assert_eq!(tag_url("rust-lang"), "/tags/rust-lang/");
    assert_eq!(post_dir("hello"), "posts/hello");
    assert_eq!(tag_dir("rust-lang"), "tags/rust-lang");
}

#[test]
fn post_slug_prefers_metadata() {
    assert_eq!(post_slug(&obj(vec![("slug", JsonValue::Str(s("from-meta")))]), "dir"), "from-meta");
    assert_eq!(post_slug(&obj(vec![("slug", JsonValue::UInt(1))]), "dir"), "dir");
    assert_eq!(post_slug(&JsonValue::Null, "dir"), "dir");
}

#[test]
fn post_context_adds_content() {
    let p = post("a", "2024-01-01", &["x"]);
    let c = post_context(&p);
    assert_eq!(c.get("content"), Some(&JsonValue::Str(s("<p>a</p>"))));
    assert_eq!(c.get("slug"), Some(&JsonValue::Str(s("a"))));
    assert_eq!(c.as_object().unwrap().len(), 4);
    let mut q = p;
    q.metadata = obj(vec![("content", JsonValue::Str(s("old"))), ("n", JsonValue::UInt(1))]);
    let c = post_context(&q);
    assert_eq!(c, obj(vec![("content", JsonValue::Str(s("<p>a</p>"))), ("n", JsonValue::UInt(1))]));
    q.metadata = JsonValue::Array(vec![]);
    assert_eq!(post_context(&q), JsonValue::Array(vec![]));
}

#[test]
fn tags_json_in_tag_order() {
    let posts = vec![post("a", "2024-01-01", &["nix", "rust"]), post("b", "2024-01-02", &["rust"])];
    let t = tags_json(&collect_tags(&posts));
    assert_eq!(t, obj(vec![("nix", JsonValue::UInt(1)), ("rust", JsonValue::UInt(2))]));
}

#[test]
fn archive_json_shape() {
    let posts = vec![post("a", "2024-01-01", &[]), post("b", "2023-05-05", &[])];
    let groups = group_posts_by_year(&posts);
    let a = archive_json(&groups);
    assert_eq!(a.len(), 2);
    assert_eq!(
        a[0],
        obj(vec![("year", JsonValue::Str(s("2024"))), ("posts", JsonValue::Array(vec![posts[0].metadata.deep_clone()]))])
    );
}

#[test]
fn feed_settings_defaults_and_values() {
    let posts = vec![post("a", "2024-04-01", &[]), post("b", "2024-03-01", &[])];
    assert!(feed_settings(&site(None, None), &posts).is_none());
    let disabled = FeedConfig { enable: false, title: Some(s("T")), description: None };
    assert!(feed_settings(&site(Some(disabled), None), &posts).is_none());
    let bare = FeedConfig { enable: true, title: None, description: None };
    let f = feed_settings(&site(Some(bare), None), &posts).unwrap();
    assert_eq!(f.title, "Test Blog");
    assert_eq!(f.description, "");
    assert_eq!(f.author_name, "");
    assert_eq!(f.author_email, "");
    assert_eq!(f.post_count, 2);
    assert_eq!(f.updated, "2024-04-01T00:00:00Z");
    let full = FeedConfig { enable: true, title: Some(s("Feed")), description: Some(s("About")) };
    let author = AuthorConfig { name: s("Ann"), email: Some(s("ann@example.com")) };
    let f = feed_settings(&site(Some(full), Some(author)), &[]).unwrap();
    assert_eq!((f.title.as_str(), f.description.as_str()), ("Feed", "About"));
    assert_eq!((f.author_name.as_str(), f.author_email.as_str()), ("Ann", "ann@example.com"));
    assert_eq!(f.post_count, 0);
    assert_eq!(f.updated, "1970-01-01T00:00:00Z");
}

#[test]
fn feed_lists_at_most_twenty_posts() {
    let posts: Vec<PostEntry> = (0..25).map(|i| post(&format!("p{i}"), "2024-01-01", &[])).collect();
    let on = FeedConfig { enable: true, title: None, description: None };
    let f = feed_settings(&site(Some(on), None), &posts).unwrap();
    assert_eq!(f.post_count, 20);
    let ctx = feed_context(&JsonValue::Null, &f, &posts);
    assert_eq!(ctx.get("posts").unwrap().as_array().unwrap().len(), 20);
    assert_eq!(ctx.get("updated"), Some(&JsonValue::Str(s("2024-01-01T00:00:00Z"))));
    let o = ctx.as_object().unwrap();
    let keys: Vec<&str> = o.iter().map(|(k, _)| k.as_str()).collect();
    assert_eq!(keys, vec!["site", "feed_title", "feed_description", "author_name", "author_email", "posts", "updated"]);
}

#[test]
fn page_contexts_hold_what_templates_read() {
    let posts = vec![post("a", "2024-04-01", &["rust"]), post("b", "2024-03-01", &["rust", "nix"]), post("c", "2023-01-01", &[])];
    let site_v = obj(vec![("site_name", JsonValue::Str(s("Test Blog")))]);
    let tags_v = tags_json(&collect_tags(&posts));

    let pc = post_page_context(&site_v, &tags_v, &posts[0]);
    assert_eq!(pc.get("site"), Some(&site_v));
    assert_eq!(pc.get("current_url"), Some(&JsonValue::Str(s("/posts/a/"))));
    assert_eq!(pc.get("tags"), Some(&tags_v));
    assert_eq!(pc.get("post").unwrap().get("content"), Some(&JsonValue::Str(s("<p>a</p>"))));

    let pages = paginate(posts.len(), 2);
    let ic = index_page_context(&site_v, &tags_v, &posts, &pages[1]);
    assert_eq!(ic.get("current_url"), Some(&JsonValue::Str(s("/page/2/"))));
    assert_eq!(ic.get("posts"), Some(&JsonValue::Array(vec![posts[2].metadata.deep_clone()])));
    assert_eq!(
        ic.get("pagination"),
        Some(&obj(vec![
            ("current", JsonValue::UInt(2)),
            ("total_pages", JsonValue::UInt(2)),
            ("prev_url", JsonValue::Str(s("/"))),
            ("next_url", JsonValue::Null),
        ]))
    );

    let tagged = posts_with_tag(&posts, "nix");
    let tc = tag_page_context(&site_v, &tags_v, "nix", "nix", &tagged);
    assert_eq!(tc.get("current_url"), Some(&JsonValue::Str(s("/tags/nix/"))));
    assert_eq!(tc.get("tag_name"), Some(&JsonValue::Str(s("nix"))));
    assert_eq!(tc.get("posts"), Some(&JsonValue::Array(vec![posts[1].metadata.deep_clone()])));

    let groups = group_posts_by_year(&posts);
    let ac = archive_page_context(&site_v, &tags_v, &groups);
    assert_eq!(ac.get("current_url"), Some(&JsonValue::Str(s("/archive/"))));
    assert_eq!(ac.get("years").unwrap().as_array().unwrap().len(), 2);
}
