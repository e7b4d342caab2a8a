//! Rendering content to HTML fragments: format detection, HTML escaping,
//! wiki-link placeholders, `<body>` extraction, code-block highlighting and
//! Markdown rendering.
use vstd::prelude::*;
use crate::scan::{
    CharClass, in_class, run_end, lemma_run_end, find_run_end, occurs, occurs_at, find_ci_from,
    find_ci_last, find_ci, find_ci_last_exec,
};
use crate::text::{
    chars_of, push_char, push_range, trimmed, trim_range, string_of_range,
    opt_view,
};
use crate::scan::{find_from, lemma_find_from, find_literal, lemma_run_end_at};

verus! {

// ---------------------------------------------------------------------------
// HTML escaping
// ---------------------------------------------------------------------------

/// What `html_escape` writes for one character.
pub open spec fn escape_char(c: char) -> Seq<char> {
    if c == '&' {
        "&amp;"@
    } else if c == '"' {
        "&quot;"@
    } else if c == '<' {
        "&lt;"@
    } else if c == '>' {
        "&gt;"@
    } else {
        seq![c]
    }
}

/// `s` with `&`, `"`, `<` and `>` replaced by their entities.
pub open spec fn html_escaped(s: Seq<char>) -> Seq<char>
    decreases s.len(),
{
    if s.len() == 0 {
        Seq::empty()
    } else {
        html_escaped(s.drop_last()) + escape_char(s.last())
    }
}

/// Escaped text holds no `<`, `>` or `"`: it cannot open or close a tag or
/// end an attribute value.
pub proof fn law_escaped_is_inert(s: Seq<char>)
    ensures
        forall|k: int| 0 <= k < html_escaped(s).len() ==> #[trigger] html_escaped(s)[k] != '<'
            && html_escaped(s)[k] != '>' && html_escaped(s)[k] != '"',
    decreases s.len(),
{
    reveal_strlit("&amp;");
    reveal_strlit("&quot;");
    reveal_strlit("&lt;");
    reveal_strlit("&gt;");
    if s.len() > 0 {
        law_escaped_is_inert(s.drop_last());
        let p = html_escaped(s.drop_last());
        let e = escape_char(s.last());
        assert forall|k: int| 0 <= k < html_escaped(s).len() implies #[trigger] html_escaped(s)[k] != '<'
            && html_escaped(s)[k] != '>' && html_escaped(s)[k] != '"' by {
            if k < p.len() {
                assert(html_escaped(s)[k] == p[k]);
            } else {
                assert(html_escaped(s)[k] == e[k - p.len()]);
            }
        }
    }
}

/// Appends the escaped form of `v[from..to]` to `out`.
pub fn push_escaped(out: &mut String, v: &Vec<char>, from: usize, to: usize)
    requires
        from <= to <= v@.len(),
    ensures
        final(out)@ == old(out)@ + html_escaped(v@.subrange(from as int, to as int)),
{
    let mut i = from;
    assert(v@.subrange(from as int, from as int) =~= Seq::<char>::empty());
    while i < to
        invariant
            from <= i <= to <= v@.len(),
            out@ == old(out)@ + html_escaped(v@.subrange(from as int, i as int)),
        decreases to - i,
    {
        let c = v[i];
        let ghost before = out@;
        if c == '&' {
            out.append("&amp;");
        } else if c == '"' {
            out.append("&quot;");
        } else if c == '<' {
            out.append("&lt;");
        } else if c == '>' {
            out.append("&gt;");
        } else {
            push_char(out, c);
        }
        assert(out@ == before + escape_char(c));
        assert(v@.subrange(from as int, i + 1).drop_last() =~= v@.subrange(from as int, i as int));
        i = i + 1;
    }
}

/// Escapes the characters that are special in HTML attribute values and content.
pub fn html_escape(s: &str) -> (r: String)
    ensures
        r@ == html_escaped(s@),
{
    let v = chars_of(s);
    let mut out = String::new();
    push_escaped(&mut out, &v, 0, v.len());
    assert(v@.subrange(0, v@.len() as int) =~= s@);
    out
}

// ---------------------------------------------------------------------------
// Wiki-link placeholders
// ---------------------------------------------------------------------------

/// The wiki-link that starts at position `i` of `s`, if one does: `[[slug]]`
/// or `[[slug|display]]`, where the slug holds no `[`, `]` or `|` and the
/// display text no `[` or `]`, and neither is empty. It is given as
/// `(p, d, e)`: the slug is `s[i + 2 .. p]`, the display text `s[p + 1 .. q]`
/// when `d` is `Some(q)`, and the link ends at `e`.
pub open spec fn wikilink_at(s: Seq<char>, i: int) -> Option<(int, Option<int>, int)> {
    if !occurs(s, i, seq!['[', '[']) {
        None
    } else {
        let p = run_end(s, i + 2, CharClass::SlugChar);
        if p == i + 2 {
            None
        } else if p < s.len() && s[p] == '|' {
            let q = run_end(s, p + 1, CharClass::DisplayChar);
            if q > p + 1 && occurs(s, q, seq![']', ']']) {
                Some((p, Some(q), q + 2))
            } else {
                None
            }
        } else if occurs(s, p, seq![']', ']']) {
            Some((p, None, p + 2))
        } else {
            None
        }
    }
}

pub proof fn lemma_wikilink_at(s: Seq<char>, i: int)
    requires
        0 <= i <= s.len(),
    ensures
        wikilink_at(s, i) matches Some((p, d, e)) ==> {
            &&& i + 2 < p < e <= s.len()
            &&& forall|k: int| i + 2 <= k < p ==> in_class(CharClass::SlugChar, #[trigger] s[k])
            &&& d matches Some(q) ==> p + 1 < q && e == q + 2 && s[p] == '|' && forall|k: int|
                p + 1 <= k < q ==> in_class(CharClass::DisplayChar, #[trigger] s[k])
            &&& d is None ==> e == p + 2
        },
{
    if occurs(s, i, seq!['[', '[']) {
        lemma_run_end(s, i + 2, CharClass::SlugChar);
        let p = run_end(s, i + 2, CharClass::SlugChar);
        if p < s.len() && s[p] == '|' {
            lemma_run_end(s, p + 1, CharClass::DisplayChar);
        }
    }
}

/// The opening of a placeholder anchor, up to its `data-slug` value.
pub open spec fn wikilink_open() -> Seq<char> {
    "<a class=\"wikilink\" data-slug=\""@
}

/// The placeholder anchor that stands for a wiki-link to `slug` showing `display`.
pub open spec fn wikilink_anchor(slug: Seq<char>, display: Option<Seq<char>>) -> Seq<char> {
    wikilink_open() + html_escaped(slug) + "\">"@ + match display {
        Some(d) => d,
        None => "[["@ + slug + "]]"@,
    } + "</a>"@
}

/// `s[i..]` with every wiki-link, found from left to right, replaced by its
/// placeholder anchor.
pub open spec fn wikilinks_from(s: Seq<char>, i: int) -> Seq<char>
    decreases s.len() - i,
{
    if i < 0 || i >= s.len() {
        Seq::empty()
    } else {
        match wikilink_at(s, i) {
            Some((p, d, e)) => {
                proof {
                    lemma_wikilink_at(s, i);
                }
                wikilink_anchor(
                    s.subrange(i + 2, p),
                    match d {
                        Some(q) => Some(s.subrange(p + 1, q)),
                        None => None,
                    },
                ) + wikilinks_from(s, e)
            },
            None => seq![s[i]] + wikilinks_from(s, i + 1),
        }
    }
}

/// `s` with every wiki-link replaced by its placeholder anchor.
pub open spec fn wikilinks_replaced(s: Seq<char>) -> Seq<char> {
    wikilinks_from(s, 0)
}

/// `wikilink_at` on a vector.
pub fn match_wikilink(v: &Vec<char>, i: usize) -> (r: Option<(usize, Option<usize>, usize)>)
    requires
        i <= v@.len(),
    ensures
        r matches Some((p, d, e)) ==> wikilink_at(v@, i as int) == Some(
            (
                p as int,
                match d {
                    Some(q) => Some(q as int),
                    None => None,
                },
                e as int,
            ),
        ),
        r is None ==> wikilink_at(v@, i as int) is None,
{
    proof {
        lemma_wikilink_at(v@, i as int);
    }
    let n = v.len();
    let open_brackets = ['[', '['];
    let close_brackets = [']', ']'];
    assert(open_brackets@ == seq!['[', '[']);
    assert(close_brackets@ == seq![']', ']']);
    if !occurs_at(v, i, &open_brackets) {
        return None;
    }
    proof {
        lemma_run_end(v@, i + 2, CharClass::SlugChar);
    }
    let p = find_run_end(v, i + 2, CharClass::SlugChar);
    if p == i + 2 {
        return None;
    }
    if p < v.len() && v[p] == '|' {
        proof {
            lemma_run_end(v@, p + 1, CharClass::DisplayChar);
        }
        let q = find_run_end(v, p + 1, CharClass::DisplayChar);
        if q > p + 1 && occurs_at(v, q, &close_brackets) {
            Some((p, Some(q), q + 2))
        } else {
            None
        }
    } else if occurs_at(v, p, &close_brackets) {
        Some((p, None, p + 2))
    } else {
        None
    }
}

/// Replaces Obsidian-style wiki-links with placeholder anchors:
/// `[[slug]]` becomes `<a class="wikilink" data-slug="slug">[[slug]]</a>` and
/// `[[slug|display text]]` becomes `<a class="wikilink" data-slug="slug">display text</a>`,
/// the slug HTML-escaped inside the attribute.
pub fn replace_wikilinks(html: &str) -> (r: String)
    ensures
        r@ == wikilinks_replaced(html@),
{
    let v = chars_of(html);
    let mut out = String::new();
    let mut i: usize = 0;
    while i < v.len()
        invariant
            i <= v@.len(),
            v@ == html@,
            out@ + wikilinks_from(v@, i as int) == wikilinks_replaced(html@),
        decreases v@.len() - i,
    {
        let ghost before = out@;
        proof {
            lemma_wikilink_at(v@, i as int);
        }
        match match_wikilink(&v, i) {
            Some((p, d, e)) => {
                out.append("<a class=\"wikilink\" data-slug=\"");
                push_escaped(&mut out, &v, i + 2, p);
                out.append("\">");
                match d {
                    Some(q) => {
                        push_range(&mut out, &v, p + 1, q);
                    },
                    None => {
                        out.append("[[");
                        push_range(&mut out, &v, i + 2, p);
                        out.append("]]");
                    },
                }
                out.append("</a>");
                let ghost anchor = wikilink_anchor(
                    v@.subrange(i + 2, p as int),
                    match d {
                        Some(q) => Some(v@.subrange(p + 1, q as int)),
                        None => None,
                    },
                );
                assert(out@ =~= before + anchor);
                assert(before + (anchor + wikilinks_from(v@, e as int)) =~= out@ + wikilinks_from(
                    v@,
                    e as int,
                ));
                i = e;
            },
            None => {
                push_char(&mut out, v[i]);
                assert(before + (seq![v@[i as int]] + wikilinks_from(v@, i + 1)) =~= out@
                    + wikilinks_from(v@, i + 1));
                i = i + 1;
            },
        }
    }
    assert(out@ + wikilinks_from(v@, i as int) =~= out@);
    out
}

// ---------------------------------------------------------------------------
// Body extraction
// ---------------------------------------------------------------------------

/// Where the content between `<body>` and `</body>` lies in `s`, tags matched
/// without regard to ASCII case: from the end of the first `<body>` to the
/// start of the last `</body>` after it.
pub open spec fn body_range(s: Seq<char>) -> Option<(int, int)> {
    match find_ci_from(s, 0, "<body>"@) {
        Some(i) => match find_ci_last(
            s,
            i + "<body>"@.len(),
            s.len() - "</body>"@.len(),
            "</body>"@,
        ) {
            Some(j) => Some((i + "<body>"@.len(), j)),
            None => None,
        },
        None => None,
    }
}

/// What `extract_body` gives for `s`.
pub open spec fn body_extracted(s: Seq<char>) -> Seq<char> {
    match body_range(s) {
        Some((a, b)) => trimmed(s.subrange(a, b)),
        None => trimmed(s),
    }
}

/// Extracts the content between `<body>` and `</body>` (trimmed); when the
/// tags are not found, the whole input trimmed.
pub fn extract_body(html: &str) -> (r: String)
    ensures
        r@ == body_extracted(html@),
{
    let v = chars_of(html);
    let n = v.len();
    let open = chars_of("<body>");
    let close = chars_of("</body>");
    match find_ci(&v, 0, &open) {
        Some(i) => {
            proof {
                crate::scan::lemma_find_ci_from(v@, 0, open@);
            }
            let a = i + open.len();
            match find_ci_last_exec(&v, a, &close) {
                Some(j) => {
                    proof {
                        crate::scan::lemma_find_ci_last(v@, a as int, v@.len() - close@.len(), close@);
                    }
                    return trim_range(&v, a, j);
                },
                None => {},
            }
        },
        None => {},
    }
    assert(v@.subrange(0, v@.len() as int) =~= v@);
    trim_range(&v, 0, v.len())
}

// ---------------------------------------------------------------------------
// Syntax highlighting of fenced code blocks
// ---------------------------------------------------------------------------

/// The entity `&amp;`.
pub open spec fn amp_entity() -> Seq<char> {
    seq!['&', 'a', 'm', 'p', ';']
}

/// The entity `&lt;`.
pub open spec fn lt_entity() -> Seq<char> {
    seq!['&', 'l', 't', ';']
}

/// The entity `&gt;`.
pub open spec fn gt_entity() -> Seq<char> {
    seq!['&', 'g', 't', ';']
}

/// The entity `&quot;`.
pub open spec fn quot_entity() -> Seq<char> {
    seq!['&', 'q', 'u', 'o', 't', ';']
}

/// `s` with the entities `&amp;`, `&lt;`, `&gt;` and `&quot;` decoded in
/// one pass from left to right: each entity is decoded once, and what
/// decoding produces is not decoded again.
pub open spec fn html_decoded(s: Seq<char>) -> Seq<char>
    decreases s.len(),
{
    if s.len() == 0 {
        Seq::empty()
    } else if occurs(s, 0, amp_entity()) {
        seq!['&'] + html_decoded(s.skip(5))
    } else if occurs(s, 0, lt_entity()) {
        seq!['<'] + html_decoded(s.skip(4))
    } else if occurs(s, 0, gt_entity()) {
        seq!['>'] + html_decoded(s.skip(4))
    } else if occurs(s, 0, quot_entity()) {
        seq!['"'] + html_decoded(s.skip(6))
    } else {
        seq![s[0]] + html_decoded(s.skip(1))
    }
}

/// Decodes the basic HTML entities that the Markdown renderer writes inside
/// `<code>`, each once.
pub fn html_decode(s: &str) -> (r: String)
    ensures
        r@ == html_decoded(s@),
{
    let v = chars_of(s);
    let amp = ['&', 'a', 'm', 'p', ';'];
    let lt = ['&', 'l', 't', ';'];
    let gt = ['&', 'g', 't', ';'];
    let quot = ['&', 'q', 'u', 'o', 't', ';'];
    assert(amp@ == amp_entity() && lt@ == lt_entity() && gt@ == gt_entity() && quot@ == quot_entity());
    let mut out = String::new();
    let mut i: usize = 0;
    assert(v@.skip(0) =~= v@);
    while i < v.len()
        invariant
            v@ == s@,
            i <= v@.len(),
            amp@ == amp_entity(),
            lt@ == lt_entity(),
            gt@ == gt_entity(),
            quot@ == quot_entity(),
            out@ + html_decoded(v@.skip(i as int)) == html_decoded(s@),
        decreases v@.len() - i,
    {
        let ghost rest = v@.skip(i as int);
        let ghost before = out@;
        proof {
            lemma_occurs_skip(v@, i as int, amp_entity());
            lemma_occurs_skip(v@, i as int, lt_entity());
            lemma_occurs_skip(v@, i as int, gt_entity());
            lemma_occurs_skip(v@, i as int, quot_entity());
        }
        let (c, k): (char, usize) = if occurs_at(&v, i, &amp) {
            ('&', 5)
        } else if occurs_at(&v, i, &lt) {
            ('<', 4)
        } else if occurs_at(&v, i, &gt) {
            ('>', 4)
        } else if occurs_at(&v, i, &quot) {
            ('"', 6)
        } else {
            (v[i], 1)
        };
        push_char(&mut out, c);
        proof {
            assert(rest.skip(k as int) =~= v@.skip(i + k));
            assert(html_decoded(rest) == seq![c] + html_decoded(v@.skip(i + k)));
            assert(before + (seq![c] + html_decoded(v@.skip(i + k))) =~= out@ + html_decoded(v@.skip(i + k)));
        }
        i = i + k;
    }
    assert(v@.skip(i as int) =~= Seq::<char>::empty());
    out
}

/// Whether `pat` occurs at `i` of `s` is whether it starts `s[i..]`.
proof fn lemma_occurs_skip(s: Seq<char>, i: int, pat: Seq<char>)
    requires
        0 <= i <= s.len(),
    ensures
        occurs(s, i, pat) == occurs(s.skip(i), 0, pat),
{
    if i + pat.len() <= s.len() {
        assert(s.subrange(i, i + pat.len()) =~= s.skip(i).subrange(0, pat.len() as int));
    }
}

/// Decoding undoes escaping: the text is given back, `&` included.
pub proof fn law_decode_escaped(s: Seq<char>)
    ensures
        html_decoded(html_escaped(s)) == s,
    decreases s.len(),
{
    if s.len() > 0 {
        let t = s.drop_first();
        law_decode_escaped(t);
        lemma_escaped_front(s[0], t);
        assert(seq![s[0]] + t =~= s);
        let e = escape_char(s[0]) + html_escaped(t);
        reveal_strlit("&amp;");
        reveal_strlit("&quot;");
        reveal_strlit("&lt;");
        reveal_strlit("&gt;");
        let k = escape_char(s[0]).len() as int;
        assert(e.skip(k) =~= html_escaped(t));
        if s[0] == '&' {
            assert(e.subrange(0, 5) =~= amp_entity());
        } else if s[0] == '<' {
            assert(!occurs(e, 0, amp_entity())) by {
                if occurs(e, 0, amp_entity()) {
                    assert(e.subrange(0, 5)[1] == e[1]);
                }
            }
            assert(e.subrange(0, 4) =~= lt_entity());
        } else if s[0] == '>' {
            assert(!occurs(e, 0, amp_entity())) by {
                if occurs(e, 0, amp_entity()) {
                    assert(e.subrange(0, 5)[1] == e[1]);
                }
            }
            assert(!occurs(e, 0, lt_entity())) by {
                if occurs(e, 0, lt_entity()) {
                    assert(e.subrange(0, 4)[1] == e[1]);
                }
            }
            assert(e.subrange(0, 4) =~= gt_entity());
        } else if s[0] == '"' {
            assert(!occurs(e, 0, amp_entity())) by {
                if occurs(e, 0, amp_entity()) {
                    assert(e.subrange(0, 5)[1] == e[1]);
                }
            }
            assert(!occurs(e, 0, lt_entity())) by {
                if occurs(e, 0, lt_entity()) {
                    assert(e.subrange(0, 4)[1] == e[1]);
                }
            }
            assert(!occurs(e, 0, gt_entity())) by {
                if occurs(e, 0, gt_entity()) {
                    assert(e.subrange(0, 4)[1] == e[1]);
                }
            }
            assert(e.subrange(0, 6) =~= quot_entity());
        } else {
            assert(e[0] == s[0]);
            assert(!occurs(e, 0, amp_entity())) by {
                if occurs(e, 0, amp_entity()) {
                    assert(e.subrange(0, 5)[0] == e[0]);
                }
            }
            assert(!occurs(e, 0, lt_entity())) by {
                if occurs(e, 0, lt_entity()) {
                    assert(e.subrange(0, 4)[0] == e[0]);
                }
            }
            assert(!occurs(e, 0, gt_entity())) by {
                if occurs(e, 0, gt_entity()) {
                    assert(e.subrange(0, 4)[0] == e[0]);
                }
            }
            assert(!occurs(e, 0, quot_entity())) by {
                if occurs(e, 0, quot_entity()) {
                    assert(e.subrange(0, 6)[0] == e[0]);
                }
            }
        }
    }
}

/// Escaping works character by character from the front too.
pub proof fn lemma_escaped_front(c: char, t: Seq<char>)
    ensures
        html_escaped(seq![c] + t) == escape_char(c) + html_escaped(t),
    decreases t.len(),
{
    if t.len() == 0 {
        assert(seq![c] + t =~= seq![c]);
        assert(seq![c].drop_last() =~= Seq::<char>::empty());
        assert(html_escaped(Seq::<char>::empty()) == Seq::<char>::empty());
        assert(escape_char(c) + html_escaped(t) =~= escape_char(c));
        assert(Seq::<char>::empty() + escape_char(c) =~= escape_char(c));
    } else {
        lemma_escaped_front(c, t.drop_last());
        assert((seq![c] + t).drop_last() =~= seq![c] + t.drop_last());
        assert((seq![c] + t).last() == t.last());
        assert(escape_char(c) + html_escaped(t.drop_last()) + escape_char(t.last()) =~= escape_char(c) + (
        html_escaped(t.drop_last()) + escape_char(t.last())));
    }
}

/// Syntect's class-annotated HTML for `code` in the language that `lang`
/// names: `None` when the default syntax set knows no such language.
pub uninterp spec fn syntect_classed_html(lang: Seq<char>, code: Seq<char>) -> Option<Seq<char>>;

/// Whether the default syntax set finds a syntax for the token `lang`
/// (`SyntaxSet::find_syntax_by_token` gives `Some`).
pub uninterp spec fn syntect_knows(lang: Seq<char>) -> bool;

/// Highlights `code` with syntect: looks `lang` up with
/// `SyntaxSet::find_syntax_by_token` in the default syntax set
/// (`SyntaxSet::load_defaults_newlines`), feeds each line, newline included,
/// to a `ClassedHTMLGenerator` with spaced class names, and returns what
/// `finalize` gives. The contract names the result, a function of the two
/// strings, and says that it is `None` exactly when the lookup of `lang`
/// finds no syntax.
#[verifier::external_body]
fn syntect_highlight(lang: &str, code: &str) -> (r: Option<String>)
    ensures
        opt_view(&r) == syntect_classed_html(lang@, code@),
        r is Some <==> syntect_knows(lang@),
{
    let set = syntect::parsing::SyntaxSet::load_defaults_newlines();
    let syntax = set.find_syntax_by_token(lang)?;
    let mut generator = syntect::html::ClassedHTMLGenerator::new_with_class_style(
        syntax,
        &set,
        syntect::html::ClassStyle::Spaced,
    );
    for line in syntect::util::LinesWithEndings::from(code) {
        let _ = generator.parse_html_for_line_which_includes_newline(line);
    }
    Some(generator.finalize())
}

/// The opening of a fenced code block with a language, up to the language name.
pub open spec fn code_open() -> Seq<char> {
    "<pre><code class=\"language-"@
}

/// The closing of a fenced code block.
pub open spec fn code_close() -> Seq<char> {
    "</code></pre>"@
}

/// The fenced code block that starts at `i` of `s`, if one does:
/// `<pre><code class="language-LANG">CODE</code></pre>` where `LANG` is a
/// non-empty run without `"` and `CODE` ends at the first `</code></pre>`.
/// Given as `(a, b, e)`: `LANG` is `s[i + |open| .. a]`, `CODE` is
/// `s[a + 2 .. b]` and the block ends at `e`.
pub open spec fn code_block_at(s: Seq<char>, i: int) -> Option<(int, int, int)> {
    if !occurs(s, i, code_open()) {
        None
    } else {
        let a = run_end(s, i + code_open().len(), CharClass::NotQuote);
        if a == i + code_open().len() || !occurs(s, a, "\">"@) {
            None
        } else {
            match find_from(s, a + "\">"@.len(), code_close()) {
                Some(b) => Some((a, b, b + code_close().len())),
                None => None,
            }
        }
    }
}

pub proof fn lemma_code_block_at(s: Seq<char>, i: int)
    requires
        0 <= i <= s.len(),
    ensures
        code_block_at(s, i) matches Some((a, b, e)) ==> {
            &&& i + code_open().len() < a
            &&& a + "\">"@.len() <= b
            &&& e == b + code_close().len()
            &&& e <= s.len()
            &&& i < e
        },
{
    if occurs(s, i, code_open()) {
        lemma_run_end(s, i + code_open().len(), CharClass::NotQuote);
        let a = run_end(s, i + code_open().len(), CharClass::NotQuote);
        if a != i + code_open().len() && occurs(s, a, "\">"@) {
            lemma_find_from(s, a + "\">"@.len(), code_close());
        }
    }
}

/// What a fenced code block with language `lang` and (entity-encoded) code
/// `code` becomes, `whole` being the block as written: the highlighted block
/// when syntect knows the language, the block unchanged otherwise.
pub open spec fn highlighted_block(lang: Seq<char>, code: Seq<char>, whole: Seq<char>) -> Seq<char> {
    match syntect_classed_html(lang, html_decoded(code)) {
        Some(h) => code_open() + lang + "\">"@ + h + code_close(),
        None => whole,
    }
}

/// `s[i..]` with every fenced code block, found from left to right, highlighted.
pub open spec fn highlights_from(s: Seq<char>, i: int) -> Seq<char>
    decreases s.len() - i,
{
    if i < 0 || i >= s.len() {
        Seq::empty()
    } else {
        match code_block_at(s, i) {
            Some((a, b, e)) => {
                proof {
                    lemma_code_block_at(s, i);
                }
                highlighted_block(
                    s.subrange(i + code_open().len(), a),
                    s.subrange(a + "\">"@.len(), b),
                    s.subrange(i, e),
                ) + highlights_from(s, e)
            },
            None => seq![s[i]] + highlights_from(s, i + 1),
        }
    }
}

/// `s` with every fenced code block that names a known language highlighted.
pub open spec fn highlights_applied(s: Seq<char>) -> Seq<char> {
    highlights_from(s, 0)
}

/// No fenced code block of `s[i..]`, found as `highlights_from` finds them,
/// names a language that syntect knows.
pub open spec fn langs_unknown_from(s: Seq<char>, i: int) -> bool
    decreases s.len() - i,
{
    if i < 0 || i >= s.len() {
        true
    } else {
        match code_block_at(s, i) {
            Some((a, b, e)) => {
                proof {
                    lemma_code_block_at(s, i);
                }
                !syntect_knows(s.subrange(i + code_open().len(), a)) && langs_unknown_from(s, e)
            },
            None => langs_unknown_from(s, i + 1),
        }
    }
}

/// A fenced code block begins with the opening at `i`, names a non-empty
/// language without `"`, and its code ends at the first `</code></pre>` after
/// the language: no closing tag occurs inside the code.
pub proof fn law_code_block_ends_at_first_close(s: Seq<char>, i: int)
    requires
        0 <= i <= s.len(),
    ensures
        code_block_at(s, i) matches Some((a, b, e)) ==> {
            &&& occurs(s, i, code_open())
            &&& i + code_open().len() < a
            &&& forall|k: int| i + code_open().len() <= k < a ==> #[trigger] s[k] != '"'
            &&& occurs(s, a, "\">"@)
            &&& a + "\">"@.len() <= b
            &&& occurs(s, b, code_close())
            &&& forall|k: int| a + "\">"@.len() <= k < b ==> !#[trigger] occurs(s, k, code_close())
            &&& e == b + code_close().len()
        },
{
    lemma_code_block_at(s, i);
    if occurs(s, i, code_open()) {
        lemma_run_end(s, i + code_open().len(), CharClass::NotQuote);
        let a = run_end(s, i + code_open().len(), CharClass::NotQuote);
        if a != i + code_open().len() && occurs(s, a, "\">"@) {
            lemma_find_from(s, a + "\">"@.len(), code_close());
            assert forall|k: int| i + code_open().len() <= k < a implies #[trigger] s[k] != '"' by {
                assert(in_class(CharClass::NotQuote, s[k]));
            }
        }
    }
}

/// Text in which no fenced code block opens comes out of highlighting as it
/// went in.
pub proof fn law_highlight_leaves_plain_text(s: Seq<char>)
    requires
        forall|k: int| 0 <= k < s.len() ==> !#[trigger] occurs(s, k, code_open()),
    ensures
        highlights_applied(s) == s,
{
    lemma_plain_from(s, 0);
    assert(s.skip(0) =~= s);
}

proof fn lemma_plain_from(s: Seq<char>, i: int)
    requires
        0 <= i <= s.len(),
        forall|k: int| 0 <= k < s.len() ==> !#[trigger] occurs(s, k, code_open()),
    ensures
        highlights_from(s, i) == s.skip(i),
    decreases s.len() - i,
{
    if i < s.len() {
        assert(!occurs(s, i, code_open()));
        lemma_plain_from(s, i + 1);
        assert(seq![s[i]] + s.skip(i + 1) =~= s.skip(i));
    } else {
        assert(s.skip(i) =~= Seq::<char>::empty());
    }
}

/// The first occurrence of `pat` at or after `i` is at `b`.
proof fn lemma_find_from_at(s: Seq<char>, i: int, b: int, pat: Seq<char>)
    requires
        0 <= i <= b,
        occurs(s, b, pat),
        forall|k: int| i <= k < b ==> !#[trigger] occurs(s, k, pat),
    ensures
        find_from(s, i, pat) == Some(b),
    decreases b - i,
{
    if i < b {
        assert(!occurs(s, i, pat));
        lemma_find_from_at(s, i + 1, b, pat);
    }
}

/// A fenced code block of source `src`, entity-encoded as the Markdown
/// renderer writes it, is highlighted from the source itself: syntect is
/// given `src`, not its encoded form, and a language syntect does not know
/// leaves the block as written.
pub proof fn law_highlight_sees_decoded_source(lang: Seq<char>, src: Seq<char>)
    requires
        lang.len() > 0,
        forall|k: int| 0 <= k < lang.len() ==> #[trigger] lang[k] != '"',
    ensures
        ({
            let block = code_open() + lang + "\">"@ + html_escaped(src) + code_close();
            highlights_applied(block) == match syntect_classed_html(lang, src) {
                Some(h) => code_open() + lang + "\">"@ + h + code_close(),
                None => block,
            }
        }),
{
    reveal_strlit("\">");
    reveal_strlit("</code></pre>");
    reveal_strlit("<pre><code class=\"language-");
    let esc = html_escaped(src);
    let block = code_open() + lang + "\">"@ + esc + code_close();
    let o = code_open().len() as int;
    let a = o + lang.len();
    let c = a + 2;
    let b = c + esc.len();
    let e = b + code_close().len();
    assert(block.len() == e);
    assert(block.subrange(0, o) =~= code_open());
    assert(occurs(block, 0, code_open()));
    assert forall|k: int| o <= k < a implies in_class(CharClass::NotQuote, #[trigger] block[k]) by {
        assert(block[k] == lang[k - o]);
    }
    assert(block[a] == '"');
    lemma_run_end_at(block, o, a, CharClass::NotQuote);
    assert(block.subrange(a, a + 2) =~= "\">"@);
    assert(occurs(block, a, "\">"@));
    assert(block.subrange(b, e) =~= code_close());
    law_escaped_is_inert(src);
    assert forall|k: int| c <= k < b implies !#[trigger] occurs(block, k, code_close()) by {
        if occurs(block, k, code_close()) {
            assert(block.subrange(k, k + code_close().len())[0] == block[k]);
            assert(block[k] == esc[k - c]);
        }
    }
    lemma_find_from_at(block, c, b, code_close());
    assert(code_block_at(block, 0) == Some((a, b, e)));
    assert(block.subrange(o, a) =~= lang);
    assert(block.subrange(c, b) =~= esc);
    assert(block.subrange(0, e) =~= block);
    law_decode_escaped(src);
    assert(highlights_from(block, e) =~= Seq::<char>::empty());
    assert(highlights_applied(block) == highlighted_block(lang, esc, block) + highlights_from(block, e));
    assert(highlighted_block(lang, esc, block) + Seq::<char>::empty() =~= highlighted_block(lang, esc, block));
}

/// `code_block_at` on a vector.
fn match_code_block(v: &Vec<char>, i: usize, open: &Vec<char>, qgt: &Vec<char>, close: &Vec<char>) -> (r: Option<(usize, usize, usize)>)
    requires
        i <= v@.len(),
        open@ == code_open(),
        qgt@ == "\">"@,
        close@ == code_close(),
    ensures
        r matches Some((a, b, e)) ==> code_block_at(v@, i as int) == Some((a as int, b as int, e as int)),
        r is None ==> code_block_at(v@, i as int) is None,
{
    let n = v.len();
    if !occurs_at(v, i, open.as_slice()) {
        return None;
    }
    proof {
        lemma_run_end(v@, i + open@.len(), CharClass::NotQuote);
    }
    let a = find_run_end(v, i + open.len(), CharClass::NotQuote);
    if a == i + open.len() || !occurs_at(v, a, qgt.as_slice()) {
        return None;
    }
    match find_literal(v, a + qgt.len(), close.as_slice()) {
        Some(b) => {
            proof {
                lemma_find_from(v@, a + qgt@.len(), close@);
            }
            Some((a, b, b + close.len()))
        },
        None => None,
    }
}

/// Applies syntax highlighting to fenced code blocks: every
/// `<pre><code class="language-LANG">CODE</code></pre>` whose language syntect
/// knows has its code (entities decoded) replaced by syntect's classed HTML;
/// other blocks, blocks without a language and inline code stay unchanged.
pub fn highlight_code_blocks(html: &str) -> (r: String)
    ensures
        r@ == highlights_applied(html@),
        langs_unknown_from(html@, 0) ==> r@ == html@,
{
    let v = chars_of(html);
    let open = chars_of("<pre><code class=\"language-");
    let qgt = chars_of("\">");
    let close = chars_of("</code></pre>");
    let mut out = String::new();
    let mut i: usize = 0;
    while i < v.len()
        invariant
            i <= v@.len(),
            v@ == html@,
            open@ == code_open(),
            qgt@ == "\">"@,
            close@ == code_close(),
            out@ + highlights_from(v@, i as int) == highlights_applied(html@),
            langs_unknown_from(v@, 0) ==> out@ == v@.subrange(0, i as int) && langs_unknown_from(v@, i as int),
        decreases v@.len() - i,
    {
        let ghost before = out@;
        proof {
            lemma_code_block_at(v@, i as int);
        }
        match match_code_block(&v, i, &open, &qgt, &close) {
            Some((a, b, e)) => {
                let lang = string_of_range(&v, i + open.len(), a);
                let code_html = string_of_range(&v, a + qgt.len(), b);
                let code = html_decode(code_html.as_str());
                let ghost block = highlighted_block(lang@, code_html@, v@.subrange(i as int, e as int));
                match syntect_highlight(lang.as_str(), code.as_str()) {
                    Some(h) => {
                        out.append("<pre><code class=\"language-");
                        out.append(lang.as_str());
                        out.append("\">");
                        out.append(h.as_str());
                        out.append("</code></pre>");
                    },
                    None => {
                        push_range(&mut out, &v, i, e);
                    },
                }
                assert(out@ =~= before + block);
                assert(before + (block + highlights_from(v@, e as int)) =~= out@ + highlights_from(
                    v@,
                    e as int,
                ));
                assert(langs_unknown_from(v@, 0) ==> out@ =~= v@.subrange(0, e as int));
                i = e;
            },
            None => {
                push_char(&mut out, v[i]);
                assert(before + (seq![v@[i as int]] + highlights_from(v@, i + 1)) =~= out@
                    + highlights_from(v@, i + 1));
                assert(langs_unknown_from(v@, 0) ==> out@ =~= v@.subrange(0, i + 1));
                i = i + 1;
            },
        }
    }
    assert(out@ + highlights_from(v@, i as int) =~= out@);
    assert(v@.subrange(0, i as int) =~= v@);
    out
}

// ---------------------------------------------------------------------------
// Markdown
// ---------------------------------------------------------------------------

/// What follows the Markdown renderer: code blocks highlighted, then
/// wiki-links replaced by placeholders.
pub open spec fn markdown_postprocessed(html: Seq<char>) -> Seq<char> {
    wikilinks_replaced(highlights_applied(html))
}

/// Post-processes the renderer's HTML: highlights code blocks, then replaces wiki-links.
pub fn postprocess_markdown_html(html: &str) -> (r: String)
    ensures
        r@ == markdown_postprocessed(html@),
{
    let highlighted = highlight_code_blocks(html);
    replace_wikilinks(highlighted.as_str())
}

// ---------------------------------------------------------------------------
// HTML passthrough, plain text, reStructuredText output
// ---------------------------------------------------------------------------

/// HTML content is already HTML: only wiki-links are replaced.
pub fn render_html_passthrough(content: &str) -> (r: String)
    ensures
        r@ == wikilinks_replaced(content@),
{
    replace_wikilinks(content)
}

/// What `render_txt` gives for `s`.
pub open spec fn txt_rendered(s: Seq<char>) -> Seq<char> {
    wikilinks_replaced("<pre class=\"plaintext\">"@ + html_escaped(s) + "</pre>"@)
}

/// Plain text: HTML-escaped, wrapped in `<pre class="plaintext">`, then
/// wiki-links replaced.
pub fn render_txt(content: &str) -> (r: String)
    ensures
        r@ == txt_rendered(content@),
{
    let mut wrapped = String::new();
    wrapped.append("<pre class=\"plaintext\">");
    let escaped = html_escape(content);
    wrapped.append(escaped.as_str());
    wrapped.append("</pre>");
    replace_wikilinks(wrapped.as_str())
}

/// What `rst2html5`'s output becomes: its `<body>` content, wiki-links replaced.
pub fn render_rst_output(full_html: &str) -> (r: String)
    ensures
        r@ == wikilinks_replaced(body_extracted(full_html@)),
{
    let body = extract_body(full_html);
    replace_wikilinks(body.as_str())
}

/// What a post's content renders to, given what its format's outside step
/// produced: the Markdown renderer's HTML, `rst2html5`'s document, or the
/// file's own text for HTML and plain text.
pub open spec fn content_rendered(format: ContentFormat, produced: Seq<char>) -> Seq<char> {
    match format {
        ContentFormat::Markdown => markdown_postprocessed(produced),
        ContentFormat::Rst => wikilinks_replaced(body_extracted(produced)),
        ContentFormat::Html => wikilinks_replaced(produced),
        ContentFormat::Txt => txt_rendered(produced),
    }
}

/// Finishes rendering content of `format` from what its outside step
/// produced (see `content_rendered`).
pub fn render_content(format: ContentFormat, produced: &str) -> (r: String)
    ensures
        r@ == content_rendered(format, produced@),
{
    match format {
        ContentFormat::Markdown => postprocess_markdown_html(produced),
        ContentFormat::Rst => render_rst_output(produced),
        ContentFormat::Html => render_html_passthrough(produced),
        ContentFormat::Txt => render_txt(produced),
    }
}

// ---------------------------------------------------------------------------
// Format detection
// ---------------------------------------------------------------------------

/// Content format detected from a file extension.
#[derive(Debug, Clone, Copy, PartialEq, Eq)]
pub enum ContentFormat {
    Markdown,
    Rst,
    Html,
    Txt,
}

/// The position of the last `c` in `s`, or -1.
pub open spec fn last_index_of(s: Seq<char>, c: char) -> int
    decreases s.len(),
{
    if s.len() == 0 {
        -1
    } else if s.last() == c {
        s.len() - 1
    } else {
        last_index_of(s.drop_last(), c)
    }
}

pub proof fn lemma_last_index_of(s: Seq<char>, c: char)
    ensures
        -1 <= last_index_of(s, c) < s.len(),
        last_index_of(s, c) >= 0 ==> s[last_index_of(s, c)] == c,
        forall|k: int| last_index_of(s, c) < k < s.len() ==> #[trigger] s[k] != c,
    decreases s.len(),
{
    if s.len() > 0 && s.last() != c {
        lemma_last_index_of(s.drop_last(), c);
        assert forall|k: int| last_index_of(s, c) < k < s.len() implies #[trigger] s[k] != c by {
            if k < s.len() - 1 {
                assert(s[k] == s.drop_last()[k]);
            }
        }
    }
}

/// The final component of a `/`-separated path (`Path::file_name`): empty
/// components and `.` components are skipped; a final `..`, or no component
/// at all, gives `None`.
pub open spec fn file_name(s: Seq<char>) -> Option<Seq<char>>
    decreases s.len(),
{
    let j = last_index_of(s, '/');
    let seg = s.subrange(j + 1, s.len() as int);
    if seg.len() == 0 || seg == seq!['.'] {
        if j < 0 {
            None
        } else {
            proof {
                lemma_last_index_of(s, '/');
            }
            file_name(s.subrange(0, j))
        }
    } else if seg == seq!['.', '.'] {
        None
    } else {
        Some(seg)
    }
}

/// `Path::extension`: the part of the file name after its last `.`; `None`
/// when there is no file name, no `.`, or only a leading `.`.
pub open spec fn extension(path: Seq<char>) -> Option<Seq<char>> {
    match file_name(path) {
        Some(name) => {
            let d = last_index_of(name, '.');
            if d <= 0 {
                None
            } else {
                Some(name.subrange(d + 1, name.len() as int))
            }
        },
        None => None,
    }
}

/// The format that an extension names, if any.
pub open spec fn format_of_extension(ext: Seq<char>) -> Option<ContentFormat> {
    if ext == "md"@ {
        Some(ContentFormat::Markdown)
    } else if ext == "rst"@ {
        Some(ContentFormat::Rst)
    } else if ext == "html"@ || ext == "htm"@ {
        Some(ContentFormat::Html)
    } else if ext == "txt"@ {
        Some(ContentFormat::Txt)
    } else {
        None
    }
}

/// The last position of `c` in `v[a..end]`, relative to `a`, if any.
fn rfind_char(v: &Vec<char>, a: usize, end: usize, c: char) -> (r: Option<usize>)
    requires
        a <= end <= v@.len(),
    ensures
        r matches Some(j) ==> a <= j < end && last_index_of(v@.subrange(a as int, end as int), c) == j - a,
        r is None ==> last_index_of(v@.subrange(a as int, end as int), c) == -1,
{
    let mut k = end;
    while k > a
        invariant
            a <= k <= end <= v@.len(),
            last_index_of(v@.subrange(a as int, end as int), c) == last_index_of(
                v@.subrange(a as int, k as int),
                c,
            ),
        decreases k,
    {
        if v[k - 1] == c {
            return Some(k - 1);
        }
        assert(v@.subrange(a as int, k as int).drop_last() =~= v@.subrange(a as int, k - 1));
        k = k - 1;
    }
    None
}

/// `file_name` on a vector, as a range `(start, end)`.
#[verifier::spinoff_prover]
#[verifier::rlimit(30)]
fn file_name_range(v: &Vec<char>) -> (r: Option<(usize, usize)>)
    ensures
        r matches Some((a, b)) ==> a <= b <= v@.len() && file_name(v@) == Some(v@.subrange(a as int, b as int)),
        r is None ==> file_name(v@) is None,
{
    let mut end = v.len();
    assert(v@.subrange(0, end as int) =~= v@);
    loop
        invariant
            end <= v@.len(),
            file_name(v@.subrange(0, end as int)) == file_name(v@),
        decreases end,
    {
        let ghost s = v@.subrange(0, end as int);
        proof {
            lemma_last_index_of(s, '/');
        }
        let start = match rfind_char(v, 0, end, '/') {
            Some(j) => j + 1,
            None => 0,
        };
        let len = end - start;
        let ghost seg = s.subrange(last_index_of(s, '/') + 1, s.len() as int);
        assert(seg =~= v@.subrange(start as int, end as int));
        if len == 0 || (len == 1 && v[start] == '.') {
            if start == 0 {
                assert(seg.len() == 0 || seg =~= seq!['.']);
                return None;
            }
            assert(seg.len() == 0 || seg =~= seq!['.']);
            assert(s.subrange(0, start - 1) =~= v@.subrange(0, start - 1));
            end = start - 1;
        } else if len == 2 && v[start] == '.' && v[start + 1] == '.' {
            assert(seg =~= seq!['.', '.']);
            return None;
        } else {
            assert(seg.len() != 0);
            assert(seg != seq!['.']) by {
                if len == 1 {
                    assert(seg[0] != '.');
                }
            };
            assert(seg != seq!['.', '.']) by {
                if len == 2 {
                    assert(seg[0] != '.' || seg[1] != '.');
                }
            };
            return Some((start, end));
        }
    }
}

/// Whether `v[a..b]` spells `lit`.
fn range_is(v: &Vec<char>, a: usize, b: usize, lit: &str) -> (r: bool)
    requires
        a <= b <= v@.len(),
    ensures
        r == (v@.subrange(a as int, b as int) == lit@),
{
    let l = chars_of(lit);
    if b - a != l.len() {
        return false;
    }
    let r = crate::scan::occurs_at(v, a, l.as_slice());
    assert(r == (v@.subrange(a as int, b as int) == lit@));
    r
}

/// The format a content path names by its extension, if any.
pub open spec fn format_of_path(path: Seq<char>) -> Option<ContentFormat> {
    match extension(path) {
        Some(ext) => format_of_extension(ext),
        None => None,
    }
}

/// What an `UnsupportedFormat` error for `path` holds: the extension, or
/// "(no extension)".
pub open spec fn unsupported_text(path: Seq<char>) -> Seq<char> {
    match extension(path) {
        Some(ext) => ext,
        None => "(no extension)"@,
    }
}

/// Detects the content format from the extension of `path`: `.md`, `.rst`,
/// `.html` or `.htm`, `.txt`; any other extension, or none, is an
/// `UnsupportedFormat` error holding the extension or `(no extension)`.
pub fn detect_format(path: &str) -> (r: Result<ContentFormat, RenderError>)
    ensures
        match extension(path@) {
            Some(ext) => match format_of_extension(ext) {
                Some(f) => r == Ok::<ContentFormat, RenderError>(f),
                None => r matches Err(RenderError::UnsupportedFormat(e)) && e@ == ext,
            },
            None => r matches Err(RenderError::UnsupportedFormat(e)) && e@ == "(no extension)"@,
        },
{
    let v = chars_of(path);
    match file_name_range(&v) {
        Some((a, b)) => {
            let ghost name = v@.subrange(a as int, b as int);
            proof {
                lemma_last_index_of(name, '.');
            }
            let dot = rfind_char(&v, a, b, '.');
            match dot {
                Some(d) if d > a => {
                    let ghost ext = name.subrange(d - a + 1, name.len() as int);
                    assert(ext =~= v@.subrange(d + 1, b as int));
                    if range_is(&v, d + 1, b, "md") {
                        Ok(ContentFormat::Markdown)
                    } else if range_is(&v, d + 1, b, "rst") {
                        Ok(ContentFormat::Rst)
                    } else if range_is(&v, d + 1, b, "html") || range_is(&v, d + 1, b, "htm") {
                        Ok(ContentFormat::Html)
                    } else if range_is(&v, d + 1, b, "txt") {
                        Ok(ContentFormat::Txt)
                    } else {
                        Err(RenderError::UnsupportedFormat(string_of_range(&v, d + 1, b)))
                    }
                },
                _ => {
                    assert(last_index_of(name, '.') <= 0);
                    Err(RenderError::UnsupportedFormat(String::from_str("(no extension)")))
                },
            }
        },
        None => Err(RenderError::UnsupportedFormat(String::from_str("(no extension)"))),
    }
}

// ---------------------------------------------------------------------------
// Errors
// ---------------------------------------------------------------------------

/// Why rendering failed. Paths and I/O errors are held as their text.
#[derive(Debug)]
pub enum RenderError {
    ReadFailed(String, String),
    WriteFailed(String, String),
    UnsupportedFormat(String),
    Rst2HtmlNotFound,
    RstFailed(String),
}

/// The text a `RenderError` is shown as.
pub open spec fn render_error_text(e: RenderError) -> Seq<char> {
    match e {
        RenderError::ReadFailed(path, err) => "failed to read content file "@ + path@ + ": "@ + err@,
        RenderError::WriteFailed(path, err) => "failed to write output file "@ + path@ + ": "@ + err@,
        RenderError::UnsupportedFormat(ext) => "unsupported content format: "@ + ext@
            + " (supported: .md, .rst, .html, .txt)"@,
        RenderError::Rst2HtmlNotFound => "rst2html5 not found on PATH (install python3Packages.docutils)"@,
        RenderError::RstFailed(msg) => "RST rendering failed: "@ + msg@,
    }
}

impl RenderError {
    /// The error as text, for people.
    pub fn message(&self) -> (r: String)
        ensures
            r@ == render_error_text(*self),
    {
        match self {
            RenderError::ReadFailed(path, err) => {
                let mut r = String::from_str("failed to read content file ");
                r.append(path.as_str());
                r.append(": ");
                r.append(err.as_str());
                r
            },
            RenderError::WriteFailed(path, err) => {
                let mut r = String::from_str("failed to write output file ");
                r.append(path.as_str());
                r.append(": ");
                r.append(err.as_str());
                r
            },
            RenderError::UnsupportedFormat(ext) => {
                let mut r = String::from_str("unsupported content format: ");
                r.append(ext.as_str());
                r.append(" (supported: .md, .rst, .html, .txt)");
                r
            },
            RenderError::Rst2HtmlNotFound => String::from_str(
                "rst2html5 not found on PATH (install python3Packages.docutils)",
            ),
            RenderError::RstFailed(msg) => {
                let mut r = String::from_str("RST rendering failed: ");
                r.append(msg.as_str());
                r
            },
        }
    }
}

} // verus!
