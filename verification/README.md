# post2html

The verified core of a small static site engine. Posts written in Markdown,
reStructuredText, HTML or plain text are rendered to HTML fragments with
wiki-link placeholders; a link step resolves the placeholders against a
registry of known posts; a compose step lays the posts out as a site (post
pages, paginated indexes, tag pages, an archive by year and an Atom feed)
through Tera templates.

## Layout

- `src/` is the library, written in Verus and verified:
  - `text.rs`, `scan.rs`, `order.rs`, `json.rs`: character sequences,
    scanning, string order and the JSON value model.
  - `render.rs`: format detection, escaping, wiki-link placeholders, body
    extraction, code highlighting (through syntect) and the renderers.
  - `config.rs`, `computed.rs`: a post's configuration and its computed
    metadata (word count, reading time).
  - `link.rs`: the links registry and placeholder resolution.
  - `roundtrip.rs`: what a wiki-link becomes after rendering and linking.
  - `compose.rs`, `pages.rs`, `site.rs`: tags, ordering, archive years,
    pagination, the feed, the values each template is given, and the plan
    of the whole site.
  - `lib.rs`: the render pipeline between reading and writing.
- `tests/` exercises the library on concrete values.
- `app/` is the `post2html` command and everything that touches the file
  system, `rst2html5`, the Markdown renderer (comrak), serde and Tera.
