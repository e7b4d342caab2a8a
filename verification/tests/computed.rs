use post2html::computed::{build_computed_json, reading_time_minutes, strip_html_tags, word_count, ComputedError};
use post2html::config::PostConfig;
use post2html::json::JsonValue;

fn s(x: &str) -> String {
    x.to_string()
}

#[test]
fn strip_tags_simple() {
    assert_eq!(strip_html_tags("<p>Hello <strong>world</strong></p>").trim(), "Hello  world");
}

#[test]
fn strip_tags_empty() {
    assert_eq!(strip_html_tags(""), "");
}

#[test]
fn strip_tags_no_tags() {
    assert_eq!(strip_html_tags("plain text"), "plain text");
}

#[test]
fn strip_tags_closing_bracket_becomes_space() {
    assert_eq!(strip_html_tags("<p>a</p><p>b</p>"), " a  b ");
    assert_eq!(strip_html_tags("x > y"), "x   y");
}

#[test]
fn word_count_basic() {
    let html = "<p>Hello <strong>world</strong>, how are you?</p>";
    assert_eq!(word_count(html), 6);
}

#[test]
fn word_count_simple_sentence() {
    let html = "<p>one two three four five</p>";
    assert_eq!(word_count(html), 5);
}

#[test]
fn word_count_empty_html() {
    assert_eq!(word_count(""), 0);
}

#[test]
fn word_count_tags_only() {
    assert_eq!(word_count("<br/><hr/>"), 0);
}

#[test]
fn word_count_multiple_paragraphs() {
    let html = "<p>First paragraph.</p><p>Second paragraph.</p>";
    assert_eq!(word_count(html), 4);
}

#[test]
fn word_count_unicode_white_space() {
    // U+3000 (ideographic space) and U+00A0 separate words like a space does.
    assert_eq!(word_count("a\u{3000}b\u{a0}c\td\ne"), 5);
}

#[test]
fn reading_time_zero_words() {
    assert_eq!(reading_time_minutes(0), 1);
}

#[test]
fn reading_time_one_word() {
    assert_eq!(reading_time_minutes(1), 1);
}

#[test]
fn reading_time_250_words() {
    assert_eq!(reading_time_minutes(250), 1);
}

#[test]
fn reading_time_251_words() {
    assert_eq!(reading_time_minutes(251), 2);
}

#[test]
fn reading_time_500_words() {
    assert_eq!(reading_time_minutes(500), 2);
}

#[test]
fn reading_time_1000_words() {
    assert_eq!(reading_time_minutes(1000), 4);
}

#[test]
fn reading_time_is_monotone_and_at_least_one() {
    let mut last = 0;
    for n in 0..2000usize {
        let m = reading_time_minutes(n);
        assert!(m >= 1);
        assert!(m >= last);
        last = m;
    }
    assert_eq!(reading_time_minutes(usize::MAX), usize::MAX / 250 + 1);
}

fn config(slug: &str, title: &str, date: &str, extra: Vec<(String, JsonValue)>) -> PostConfig {
    PostConfig { slug: s(slug), title: s(title), date: s(date), extra }
}

#[test]
fn build_json_merges_all_fields() {
    let cfg = config(
        "test-post",
        "Test Post",
        "2024-01-15",
        vec![(s("tags"), JsonValue::Array(vec![JsonValue::Str(s("rust"))]))],
    );
    let html = "<p>one two three four five six seven eight nine ten</p>";
    let json = build_computed_json(&cfg, html);
    assert!(json.as_object().is_some());
    assert_eq!(json.get("slug"), Some(&JsonValue::Str(s("test-post"))));
    assert_eq!(json.get("title"), Some(&JsonValue::Str(s("Test Post"))));
    assert_eq!(json.get("date"), Some(&JsonValue::Str(s("2024-01-15"))));
    assert_eq!(json.get("tags"), Some(&JsonValue::Array(vec![JsonValue::Str(s("rust"))])));
    assert_eq!(json.get("word_count"), Some(&JsonValue::UInt(10)));
    assert_eq!(json.get("reading_time_minutes"), Some(&JsonValue::UInt(1)));
}

#[test]
fn build_json_no_extra_fields() {
    let cfg = config("s", "t", "d", vec![]);
    let json = build_computed_json(&cfg, "<p>word</p>");
    let obj = json.as_object().unwrap();
    assert_eq!(obj.len(), 5);
}

#[test]
fn build_json_computed_fields_win_over_extra() {
    let cfg = config(
        "s",
        "t",
        "d",
        vec![(s("word_count"), JsonValue::UInt(99)), (s("summary"), JsonValue::Str(s("x")))],
    );
    let json = build_computed_json(&cfg, "<p>two words</p>");
    assert_eq!(json.get("word_count"), Some(&JsonValue::UInt(2)));
    assert_eq!(json.get("summary"), Some(&JsonValue::Str(s("x"))));
    assert_eq!(json.as_object().unwrap().len(), 6);
}

#[test]
fn computed_error_message() {
    let e = ComputedError::WriteFailed(s("/out/computed.json"), s("denied"));
    assert_eq!(e.message(), "failed to write computed.json at /out/computed.json: denied");
}

#[test]
fn a_tag_separates_words() {
    let a = "alpha beta";
    let b = "gamma";
    let joined = format!("{a}<br class=\"x\">{b}");
    assert_eq!(word_count(&joined), word_count(a) + word_count(b));
    assert_eq!(word_count("one<i>two"), 2);
}
