use post2html::computed::ComputedError;
use post2html::config::{PostConfig, PostConfigError};
use post2html::json::JsonValue;
use post2html::render::RenderError;
use post2html::{run_render, PipelineError};

fn s(x: &str) -> String {
    x.to_string()
}

fn config(date: &str) -> PostConfig {
    PostConfig {
        slug: s("hello"),
        title: s("Hello <World> & \"Friends\""),
        date: s(date),
        extra: vec![(s("summary"), JsonValue::Str(s("Short")))],
    }
}

#[test]
fn validate_accepts_iso_dates_and_rejects_others() {
    assert!(config("2024-01-15").validate().is_ok());
    for bad in ["2024-1-15", "15-01-2024", "2024/01/15", "", "2024-01-15 ", "x2024-01-15"] {
        match config(bad).validate() {
            Err(PostConfigError::InvalidDate(d)) => assert_eq!(d, bad),
            other => panic!("expected InvalidDate for {bad:?}, got {other:?}"),
        }
    }
}

#[test]
fn config_error_messages() {
    assert_eq!(
        PostConfigError::InvalidDate(s("01/02/2024")).message(),
        "date must be YYYY-MM-DD format, got: 01/02/2024"
    );
    assert_eq!(
        PostConfigError::ReadFailed(s("meta.json"), s("missing")).message(),
        "failed to read config file meta.json: missing"
    );
    assert_eq!(
        PostConfigError::ParseFailed(s("meta.json"), s("bad")).message(),
        "failed to parse config file meta.json: bad"
    );
}

#[test]
fn pipeline_error_message_is_inner_message() {
    let e = PipelineError::Render(RenderError::Rst2HtmlNotFound);
    assert_eq!(e.message(), RenderError::Rst2HtmlNotFound.message());
    let e = PipelineError::Config(PostConfigError::InvalidDate(s("x")));
    assert_eq!(e.message(), "date must be YYYY-MM-DD format, got: x");
    let e = PipelineError::Computed(ComputedError::WriteFailed(s("p"), s("e")));
    assert_eq!(e.message(), "failed to write computed.json at p: e");
}

#[test]
fn run_render_txt_produces_fragment_and_metadata() {
    let (html, json) = run_render(&config("2024-01-15"), "post.txt", "one two [[x]]").unwrap();
    assert_eq!(
        html,
        "<pre class=\"plaintext\">one two <a class=\"wikilink\" data-slug=\"x\">[[x]]</a></pre>"
    );
    assert_eq!(json.get("word_count"), Some(&JsonValue::UInt(3)));
    assert_eq!(json.get("reading_time_minutes"), Some(&JsonValue::UInt(1)));
    assert_eq!(json.get("title"), Some(&JsonValue::Str(s("Hello <World> & \"Friends\""))));
    assert_eq!(json.get("summary"), Some(&JsonValue::Str(s("Short"))));
}

#[test]
fn run_render_markdown_postprocesses_renderer_output() {
    let md_html = comrak::markdown_to_html("See [[other]].", &comrak::Options::default());
    let (html, _) = run_render(&config("2024-01-15"), "content/post.md", &md_html).unwrap();
    assert_eq!(html, "<p>See <a class=\"wikilink\" data-slug=\"other\">[[other]]</a>.</p>\n");
}

#[test]
fn run_render_reports_the_first_problem() {
    match run_render(&config("January"), "post.docx", "") {
        Err(PipelineError::Config(PostConfigError::InvalidDate(d))) => assert_eq!(d, "January"),
        other => panic!("expected a config error, got {other:?}"),
    }
    match run_render(&config("2024-01-15"), "post.docx", "") {
        Err(PipelineError::Render(RenderError::UnsupportedFormat(e))) => assert_eq!(e, "docx"),
        other => panic!("expected a format error, got {other:?}"),
    }
}

#[test]
fn pipeline_error_from_each_stage() {
    assert!(matches!(PipelineError::from(RenderError::Rst2HtmlNotFound), PipelineError::Render(RenderError::Rst2HtmlNotFound)));
    assert!(matches!(
        PipelineError::from(PostConfigError::InvalidDate(s("d"))),
        PipelineError::Config(PostConfigError::InvalidDate(d)) if d == "d"
    ));
    assert!(matches!(
        PipelineError::from(ComputedError::WriteFailed(s("p"), s("e"))),
        PipelineError::Computed(ComputedError::WriteFailed(p, e)) if p == "p" && e == "e"
    ));
}
