use post2html::compose::{
    collect_tags, default_posts_per_page, group_posts_by_year, posts_with_tag, slugify_tag, sort_posts_by_date,
    xml_escape, PostEntry,
};
use post2html::json::JsonValue;

fn s(x: &str) -> String {
    x.to_string()
}

fn obj(entries: Vec<(&str, JsonValue)>) -> JsonValue {
    JsonValue::Object(entries.into_iter().map(|(k, v)| (k.to_string(), v)).collect())
}

fn tags(ts: &[&str]) -> JsonValue {
    JsonValue::Array(ts.iter().map(|t| JsonValue::Str(t.to_string())).collect())
}

fn post(slug: &str, metadata: JsonValue) -> PostEntry {
    PostEntry { slug: s(slug), metadata, content: String::new(), source_dir: String::new() }
}

#[test]
fn collect_tags_from_posts() {
    let posts = vec![
        post("a", obj(vec![("tags", tags(&["rust", "nix"]))])),
        post("b", obj(vec![("tags", tags(&["rust"]))])),
        post("c", obj(vec![])),
    ];
    let tags = collect_tags(&posts);
    assert_eq!(tags.get("rust"), Some(&2));
    assert_eq!(tags.get("nix"), Some(&1));
    assert_eq!(tags.len(), 2);
}

#[test]
fn collect_tags_empty_posts() {
    let tags = collect_tags(&[]);
    assert!(tags.is_empty());
}

#[test]
fn collect_tags_ordered_and_skipping_non_strings() {
    let posts = vec![
        post("a", obj(vec![("tags", JsonValue::Array(vec![JsonValue::Str(s("zeta")), JsonValue::UInt(3), JsonValue::Str(s("alpha"))]))])),
        post("b", obj(vec![("tags", JsonValue::Str(s("not-an-array")))])),
        post("c", JsonValue::Array(vec![])),
        post("d", obj(vec![("tags", tags(&["alpha", "alpha"]))])),
    ];
    let t = collect_tags(&posts);
    let e: Vec<(String, usize)> = t.entries().iter().map(|(k, n)| (k.clone(), *n)).collect();
    assert_eq!(e, vec![(s("alpha"), 3), (s("zeta"), 1)]);
    assert_eq!(t.get("beta"), None);
}

#[test]
fn posts_with_tag_filters_correctly() {
    let posts = vec![
        post("a", obj(vec![("tags", tags(&["rust", "nix"]))])),
        post("b", obj(vec![("tags", tags(&["rust"]))])),
        post("c", obj(vec![("tags", tags(&["nix"]))])),
    ];
    let rust_posts = posts_with_tag(&posts, "rust");
    assert_eq!(rust_posts.len(), 2);
    let nix_posts = posts_with_tag(&posts, "nix");
    assert_eq!(nix_posts.len(), 2);
    assert_eq!(nix_posts[0].slug, "a");
    assert_eq!(nix_posts[1].slug, "c");
    let missing = posts_with_tag(&posts, "python");
    assert!(missing.is_empty());
}

#[test]
fn group_posts_by_year_correct() {
    let posts = vec![
        post("a", obj(vec![("date", JsonValue::Str(s("2024-04-01"))), ("title", JsonValue::Str(s("A")))])),
        post("b", obj(vec![("date", JsonValue::Str(s("2024-01-15"))), ("title", JsonValue::Str(s("B")))])),
        post("c", obj(vec![("date", JsonValue::Str(s("2023-06-01"))), ("title", JsonValue::Str(s("C")))])),
    ];
    let years = group_posts_by_year(&posts);
    assert_eq!(years.len(), 2);
    assert_eq!(years[0].0, "2024");
    assert_eq!(years[0].1.len(), 2);
    assert_eq!(years[1].0, "2023");
    assert_eq!(years[1].1.len(), 1);
}

#[test]
fn group_posts_by_year_empty() {
    let years = group_posts_by_year(&[]);
    assert!(years.is_empty());
}

#[test]
fn group_posts_by_year_unknown_and_undashed() {
    let posts = vec![
        post("a", obj(vec![])),
        post("b", obj(vec![("date", JsonValue::Str(s("1999")))])),
        post("c", obj(vec![("date", JsonValue::UInt(2020))])),
        post("d", obj(vec![("date", JsonValue::Str(s("2001-02-03")))])),
    ];
    let years = group_posts_by_year(&posts);
    let keys: Vec<&str> = years.iter().map(|(y, _)| y.as_str()).collect();
    assert_eq!(keys, vec!["Unknown", "2001", "1999"]);
    assert_eq!(years[0].1.len(), 2);
    assert_eq!(*years[0].1[0], posts[0].metadata);
    assert_eq!(*years[0].1[1], posts[2].metadata);
}

#[test]
fn sort_posts_newest_first_and_stable() {
    let mut posts = vec![
        post("old", obj(vec![("date", JsonValue::Str(s("2023-12-01")))])),
        post("undated", obj(vec![])),
        post("new", obj(vec![("date", JsonValue::Str(s("2024-04-01")))])),
        post("mid-1", obj(vec![("date", JsonValue::Str(s("2024-03-15")))])),
        post("mid-2", obj(vec![("date", JsonValue::Str(s("2024-03-15")))])),
    ];
    sort_posts_by_date(&mut posts);
    let order: Vec<&str> = posts.iter().map(|p| p.slug.as_str()).collect();
    assert_eq!(order, vec!["new", "mid-1", "mid-2", "old", "undated"]);
}

#[test]
fn slugify_tag_examples() {
    assert_eq!(slugify_tag("Rust Lang"), "rust-lang");
    assert_eq!(slugify_tag("  C++ & Nix!! "), "c-nix");
    assert_eq!(slugify_tag("a--b"), "a-b");
    assert_eq!(slugify_tag("---"), "");
    assert_eq!(slugify_tag("Ünïcode Tag"), "ncode-tag");
    assert_eq!(slugify_tag(""), "");
}

#[test]
fn xml_escape_all_five() {
    assert_eq!(xml_escape("<a href=\"x\">Tom & Jerry's</a>"), "&lt;a href=&quot;x&quot;&gt;Tom &amp; Jerry&apos;s&lt;/a&gt;");
    assert_eq!(xml_escape("&amp;"), "&amp;amp;");
}

#[test]
fn default_posts_per_page_is_ten() {
    assert_eq!(default_posts_per_page(), 10);
}

#[test]
fn slugify_is_idempotent_on_ascii_and_lower_case() {
    for tag in ["Rust Lang", "  C++ & Nix!! ", "A--B", "---", "MiXeD 42 Case"] {
        let once = slugify_tag(tag);
        assert_eq!(slugify_tag(&once), once);
        assert!(once.chars().all(|c| c.is_ascii_lowercase() || c.is_ascii_digit() || c == '-'));
        assert_eq!(once.is_empty(), !tag.chars().any(|c| c.is_ascii_alphanumeric()));
    }
}

#[test]
fn slugify_matches_split_and_join() {
    for tag in ["a - b", "-x--y-", "Hello World", "?!"] {
        let kept: String = tag
            .to_lowercase()
            .chars()
            .map(|c| if c == ' ' { '-' } else { c })
            .filter(|c| c.is_ascii_alphanumeric() || *c == '-')
            .collect();
        let joined = kept.split('-').filter(|p| !p.is_empty()).collect::<Vec<_>>().join("-");
        assert_eq!(slugify_tag(tag), joined);
    }
}

#[test]
fn tagged_posts_agree_with_tag_counts() {
    let posts = vec![
        post("a", obj(vec![("tags", tags(&["rust", "rust"]))])),
        post("b", obj(vec![("tags", tags(&["rust", "nix"]))])),
    ];
    let counts = collect_tags(&posts);
    for t in ["rust", "nix", "python"] {
        let n = posts_with_tag(&posts, t).len();
        let c = counts.get(t).copied().unwrap_or(0);
        assert_eq!(n == 0, c == 0);
        assert!(n <= c);
    }
    assert_eq!(posts_with_tag(&posts, "rust").len(), 2);
    assert_eq!(counts.get("rust"), Some(&3));
}

#[test]
fn slugify_non_ascii_tags_is_lower_case_and_idempotent() {
    assert_eq!(slugify_tag("\u{212A}elvin"), "kelvin");
    assert_eq!(slugify_tag("ÑANDÚ Río"), "and-ro");
    for tag in ["Ünïcode Tag", "\u{212A}elvin", "ÑANDÚ Río", "ÅÆØ", "Straße 2"] {
        let once = slugify_tag(tag);
        assert_eq!(slugify_tag(&once), once);
        assert!(once.chars().all(|c| c.is_ascii_lowercase() || c.is_ascii_digit() || c == '-'));
        assert_eq!(once.is_empty(), !tag.to_lowercase().chars().any(|c| c.is_ascii_alphanumeric()));
    }
    assert_eq!(slugify_tag("ÅÆØ"), "");
}

#[test]
fn one_tag_entry_for_each_distinct_tag() {
    let posts = vec![
        post("a", obj(vec![("tags", tags(&["b", "a", "b"]))])),
        post("b", obj(vec![("tags", tags(&["a", "c"]))])),
        post("c", obj(vec![("tags", JsonValue::Str(s("a")))])),
    ];
    let counts = collect_tags(&posts);
    assert_eq!(counts.len(), 3);
    let keys: Vec<&str> = counts.entries().iter().map(|(t, _)| t.as_str()).collect();
    assert_eq!(keys, vec!["a", "b", "c"]);
    assert_eq!(counts.get("a"), Some(&2));
    assert_eq!(counts.get("b"), Some(&2));
    assert_eq!(counts.get("c"), Some(&1));
}
