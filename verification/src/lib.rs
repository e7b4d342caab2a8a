//! A static site engine's verified core: rendering post content to HTML
//! fragments, computing post metadata, resolving wiki-links between posts,
//! and the decisions behind composing a site from rendered posts.
use vstd::prelude::*;

pub mod compose;
pub mod computed;
pub mod config;
pub mod json;
pub mod link;
pub mod order;
pub mod pages;
pub mod render;
pub mod roundtrip;
pub mod scan;
pub mod site;
pub mod text;

use crate::computed::{ComputedError, build_computed_json, computed_field, computed_error_text};
use crate::config::{PostConfig, PostConfigError, config_error_text, date_pattern, regex_matches};
use crate::json::{JsonValue, keys_distinct, lookup};
use crate::render::{
    RenderError,
    content_rendered,
    detect_format,
    format_of_path,
    render_content,
    render_error_text,
    unsupported_text,
};

verus! {

/// Why the render pipeline stopped.
#[derive(Debug)]
pub enum PipelineError {
    Config(PostConfigError),
    Render(RenderError),
    Computed(ComputedError),
}

/// The text a `PipelineError` is shown as: that of the error it holds.
pub open spec fn pipeline_error_text(e: PipelineError) -> Seq<char> {
    match e {
        PipelineError::Config(c) => config_error_text(c),
        PipelineError::Render(r) => render_error_text(r),
        PipelineError::Computed(c) => computed_error_text(c),
    }
}

impl PipelineError {
    /// The error as text, for people.
    pub fn message(&self) -> (r: String)
        ensures
            r@ == pipeline_error_text(*self),
    {
        match self {
            PipelineError::Config(e) => e.message(),
            PipelineError::Render(e) => e.message(),
            PipelineError::Computed(e) => e.message(),
        }
    }
}

impl From<PostConfigError> for PipelineError {
    fn from(e: PostConfigError) -> (r: PipelineError) {
        PipelineError::Config(e)
    }
}

impl vstd::std_specs::convert::FromSpecImpl<PostConfigError> for PipelineError {
    open spec fn obeys_from_spec() -> bool {
        true
    }

    open spec fn from_spec(e: PostConfigError) -> PipelineError {
        PipelineError::Config(e)
    }
}

impl From<RenderError> for PipelineError {
    fn from(e: RenderError) -> (r: PipelineError) {
        PipelineError::Render(e)
    }
}

impl vstd::std_specs::convert::FromSpecImpl<RenderError> for PipelineError {
    open spec fn obeys_from_spec() -> bool {
        true
    }

    open spec fn from_spec(e: RenderError) -> PipelineError {
        PipelineError::Render(e)
    }
}

impl From<ComputedError> for PipelineError {
    fn from(e: ComputedError) -> (r: PipelineError) {
        PipelineError::Computed(e)
    }
}

impl vstd::std_specs::convert::FromSpecImpl<ComputedError> for PipelineError {
    open spec fn obeys_from_spec() -> bool {
        true
    }

    open spec fn from_spec(e: ComputedError) -> PipelineError {
        PipelineError::Computed(e)
    }
}

/// The render pipeline between reading and writing: checks the post's
/// configuration, detects the content's format from `content_path`,
/// finishes the HTML fragment from what the format's outside step
/// `produced` (the Markdown renderer's HTML, `rst2html5`'s document, or the
/// file's text), and builds the computed metadata. Returns the fragment and
/// the metadata object.
pub fn run_render(config: &PostConfig, content_path: &str, produced: &str) -> (r: Result<
    (String, JsonValue),
    PipelineError,
>)
    ensures
        r is Ok <==> regex_matches(date_pattern(), config.date@) && format_of_path(content_path@) is Some,
        !regex_matches(date_pattern(), config.date@) ==> (r matches Err(
            PipelineError::Config(PostConfigError::InvalidDate(d)),
        ) && d@ == config.date@),
        regex_matches(date_pattern(), config.date@) && format_of_path(content_path@) is None ==> (
        r matches Err(PipelineError::Render(RenderError::UnsupportedFormat(e))) && e@ == unsupported_text(
            content_path@,
        )),
        r matches Ok((html, json)) ==> html@ == content_rendered(format_of_path(content_path@).unwrap(), produced@)
            && (json matches JsonValue::Object(o) && keys_distinct(o@) && (forall|k: Seq<char>| #[trigger]
            lookup(o@, k) == computed_field(*config, html@, k))),
{
    match config.validate() {
        Ok(()) => {},
        Err(e) => {
            return Err(PipelineError::Config(e));
        },
    }
    let format = match detect_format(content_path) {
        Ok(f) => f,
        Err(e) => {
            return Err(PipelineError::Render(e));
        },
    };
    let html = render_content(format, produced);
    let json = build_computed_json(config, html.as_str());
    Ok((html, json))
}

} // verus!
