//! What a wiki-link written in a post becomes once the post is rendered and
//! its links are resolved.
use vstd::prelude::*;
use crate::scan::{CharClass, in_class, run_end, occurs, lemma_run_end_at};
use crate::render::{html_escaped, wikilink_at, wikilink_open, wikilink_anchor, wikilinks_from, wikilinks_replaced};
use crate::link::{placeholder_at, resolved_anchor, resolved_from, broken_from};
use crate::text::is_white_space;

verus! {

// ---------------------------------------------------------------------------
// Scanning does not look back: a text after a prefix scans as on its own
// ---------------------------------------------------------------------------

pub proof fn lemma_run_end_shift(x: Seq<char>, s: Seq<char>, i: int, cls: CharClass)
    requires
        0 <= i <= s.len(),
    ensures
        run_end(x + s, x.len() + i, cls) == x.len() + run_end(s, i, cls),
    decreases s.len() - i,
{
    if i < s.len() {
        assert((x + s)[x.len() + i] == s[i]);
        if in_class(cls, s[i]) {
            lemma_run_end_shift(x, s, i + 1, cls);
        }
    }
}

pub proof fn lemma_occurs_shift(x: Seq<char>, s: Seq<char>, i: int, pat: Seq<char>)
    requires
        0 <= i,
    ensures
        occurs(x + s, x.len() + i, pat) == occurs(s, i, pat),
{
    if i + pat.len() <= s.len() {
        assert((x + s).subrange(x.len() + i, x.len() + i + pat.len()) =~= s.subrange(i, i + pat.len()));
    }
}

pub proof fn lemma_wikilink_at_shift(x: Seq<char>, s: Seq<char>, i: int)
    requires
        0 <= i <= s.len(),
    ensures
        wikilink_at(x + s, x.len() + i) == match wikilink_at(s, i) {
            Some((p, d, e)) => Some(
                (
                    x.len() + p,
                    match d {
                        Some(q) => Some(x.len() + q),
                        None => None,
                    },
                    x.len() + e,
                ),
            ),
            None => None,
        },
{
    let n = x.len() as int;
    let y = x + s;
    lemma_occurs_shift(x, s, i, seq!['[', '[']);
    if occurs(s, i, seq!['[', '[']) {
        lemma_run_end_shift(x, s, i + 2, CharClass::SlugChar);
        crate::scan::lemma_run_end(s, i + 2, CharClass::SlugChar);
        let p = run_end(s, i + 2, CharClass::SlugChar);
        if p < s.len() {
            assert(y[n + p] == s[p]);
        }
        if p < s.len() && s[p] == '|' {
            lemma_run_end_shift(x, s, p + 1, CharClass::DisplayChar);
            crate::scan::lemma_run_end(s, p + 1, CharClass::DisplayChar);
            let q = run_end(s, p + 1, CharClass::DisplayChar);
            lemma_occurs_shift(x, s, q, seq![']', ']']);
        } else {
            lemma_occurs_shift(x, s, p, seq![']', ']']);
        }
    }
}

pub proof fn lemma_wikilinks_from_shift(x: Seq<char>, s: Seq<char>, i: int)
    requires
        0 <= i <= s.len(),
    ensures
        wikilinks_from(x + s, x.len() + i) == wikilinks_from(s, i),
    decreases s.len() - i,
{
    let n = x.len() as int;
    let y = x + s;
    if i < s.len() {
        lemma_wikilink_at_shift(x, s, i);
        crate::render::lemma_wikilink_at(s, i);
        match wikilink_at(s, i) {
            Some((p, d, e)) => {
                lemma_wikilinks_from_shift(x, s, e);
                assert(y.subrange(n + i + 2, n + p) =~= s.subrange(i + 2, p));
                match d {
                    Some(q) => {
                        assert(y.subrange(n + p + 1, n + q) =~= s.subrange(p + 1, q));
                    },
                    None => {},
                }
            },
            None => {
                lemma_wikilinks_from_shift(x, s, i + 1);
                assert(y[n + i] == s[i]);
            },
        }
    }
}

pub proof fn lemma_placeholder_at_shift(x: Seq<char>, s: Seq<char>, i: int)
    requires
        0 <= i <= s.len(),
    ensures
        placeholder_at(x + s, x.len() + i) == match placeholder_at(s, i) {
            Some((c0, c, d, e)) => Some((x.len() + c0, x.len() + c, x.len() + d, x.len() + e)),
            None => None,
        },
{
    let y = x + s;
    lemma_occurs_shift(x, s, i, "<a"@);
    if occurs(s, i, "<a"@) {
        lemma_run_end_shift(x, s, i + "<a"@.len(), CharClass::Space);
        crate::scan::lemma_run_end(s, i + "<a"@.len(), CharClass::Space);
        let a = run_end(s, i + "<a"@.len(), CharClass::Space);
        lemma_occurs_shift(x, s, a, "class=\"wikilink\""@);
        if a != i + "<a"@.len() && occurs(s, a, "class=\"wikilink\""@) {
            let b0 = a + "class=\"wikilink\""@.len();
            lemma_run_end_shift(x, s, b0, CharClass::Space);
            crate::scan::lemma_run_end(s, b0, CharClass::Space);
            let b = run_end(s, b0, CharClass::Space);
            lemma_occurs_shift(x, s, b, "data-slug=\""@);
            if b != b0 && occurs(s, b, "data-slug=\""@) {
                let c0 = b + "data-slug=\""@.len();
                lemma_run_end_shift(x, s, c0, CharClass::NotQuote);
                crate::scan::lemma_run_end(s, c0, CharClass::NotQuote);
                let c = run_end(s, c0, CharClass::NotQuote);
                lemma_occurs_shift(x, s, c, "\">"@);
                if c != c0 && occurs(s, c, "\">"@) {
                    lemma_run_end_shift(x, s, c + "\">"@.len(), CharClass::NotLt);
                    crate::scan::lemma_run_end(s, c + "\">"@.len(), CharClass::NotLt);
                    let d = run_end(s, c + "\">"@.len(), CharClass::NotLt);
                    lemma_occurs_shift(x, s, d, "</a>"@);
                }
            }
        }
    }
}

pub proof fn lemma_resolved_from_shift(x: Seq<char>, s: Seq<char>, i: int, reg: Map<Seq<char>, (Seq<char>, Seq<char>)>)
    requires
        0 <= i <= s.len(),
    ensures
        resolved_from(x + s, x.len() + i, reg) == resolved_from(s, i, reg),
        broken_from(x + s, x.len() + i, reg) == broken_from(s, i, reg),
    decreases s.len() - i,
{
    let n = x.len() as int;
    let y = x + s;
    if i < s.len() {
        lemma_placeholder_at_shift(x, s, i);
        crate::link::lemma_placeholder_at(s, i);
        match placeholder_at(s, i) {
            Some((c0, c, d, e)) => {
                lemma_resolved_from_shift(x, s, e, reg);
                assert(y.subrange(n + c0, n + c) =~= s.subrange(c0, c));
                assert(y.subrange(n + c + "\">"@.len(), n + d) =~= s.subrange(c + "\">"@.len(), d));
            },
            None => {
                lemma_resolved_from_shift(x, s, i + 1, reg);
                assert(y[n + i] == s[i]);
            },
        }
    }
}

pub proof fn lemma_run_end_concat(b: Seq<char>, x: Seq<char>, i: int, cls: CharClass)
    requires
        0 <= i <= b.len(),
    ensures
        run_end(b + x, i, cls) == if run_end(b, i, cls) < b.len() {
            run_end(b, i, cls)
        } else {
            b.len() + run_end(x, 0, cls)
        },
    decreases b.len() - i,
{
    crate::scan::lemma_run_end(b, i, cls);
    if i < b.len() {
        assert((b + x)[i] == b[i]);
        if in_class(cls, b[i]) {
            lemma_run_end_concat(b, x, i + 1, cls);
        }
    } else {
        lemma_run_end_shift(b, x, 0, cls);
    }
}

pub proof fn lemma_occurs_prefix(b: Seq<char>, x: Seq<char>, i: int, pat: Seq<char>)
    requires
        0 <= i,
        i + pat.len() <= b.len(),
    ensures
        occurs(b + x, i, pat) == occurs(b, i, pat),
{
    assert((b + x).subrange(i, i + pat.len()) =~= b.subrange(i, i + pat.len()));
}

/// A text without a wiki-link in it keeps having none when a text starting
/// with `[[` follows: no wiki-link can start in it and end after it.
pub proof fn lemma_wikilink_no_straddle(b: Seq<char>, x: Seq<char>, i: int)
    requires
        0 <= i < b.len(),
        wikilink_at(b, i) is None,
        x.len() >= 2,
        x[0] == '[',
        x[1] == '[',
    ensures
        wikilink_at(b + x, i) is None,
{
    let s = b + x;
    let n = b.len() as int;
    assert(s[n] == '[' && s[n + 1] == '[');
    if i + 2 > n {
        // only "[[" across the boundary can start here; its target is empty
        if occurs(s, i, seq!['[', '[']) {
            assert(run_end(s, i + 2, CharClass::SlugChar) == i + 2);
        }
    } else {
        lemma_occurs_prefix(b, x, i, seq!['[', '[']);
        if occurs(s, i, seq!['[', '[']) {
            lemma_run_end_concat(b, x, i + 2, CharClass::SlugChar);
            crate::scan::lemma_run_end(b, i + 2, CharClass::SlugChar);
            assert(run_end(x, 0, CharClass::SlugChar) == 0);
            let p = run_end(s, i + 2, CharClass::SlugChar);
            if p < n {
                assert(s[p] == b[p]);
                if p + 2 <= n {
                    lemma_occurs_prefix(b, x, p, seq![']', ']']);
                } else {
                    assert(!occurs(s, p, seq![']', ']'])) by {
                        if occurs(s, p, seq![']', ']']) {
                            assert(s.subrange(p, p + 2)[1] == s[n]);
                        }
                    }
                }
                if b[p] == '|' {
                    lemma_run_end_concat(b, x, p + 1, CharClass::DisplayChar);
                    crate::scan::lemma_run_end(b, p + 1, CharClass::DisplayChar);
                    assert(run_end(x, 0, CharClass::DisplayChar) == 0);
                    let q = run_end(s, p + 1, CharClass::DisplayChar);
                    if q + 2 <= n {
                        lemma_occurs_prefix(b, x, q, seq![']', ']']);
                    } else {
                        assert(!occurs(s, q, seq![']', ']'])) by {
                            if occurs(s, q, seq![']', ']']) {
                                if q == n - 1 {
                                    assert(s.subrange(q, q + 2)[1] == s[n]);
                                } else {
                                    assert(s.subrange(q, q + 2)[0] == s[n]);
                                }
                            }
                        }
                    }
                }
            } else {
                assert(p == n);
                assert(!occurs(s, p, seq![']', ']'])) by {
                    if occurs(s, p, seq![']', ']']) {
                        assert(s.subrange(p, p + 2)[0] == s[n]);
                    }
                }
            }
        }
    }
}

/// A text without a placeholder anchor in it keeps having none when a
/// placeholder anchor follows: no placeholder can start in it and end after it.
pub proof fn lemma_placeholder_no_straddle(b: Seq<char>, x: Seq<char>, i: int)
    requires
        0 <= i < b.len(),
        placeholder_at(b, i) is None,
        x.len() >= 31,
        x.subrange(0, 31) == wikilink_open(),
    ensures
        placeholder_at(b + x, i) is None,
{
    reveal_strlit("<a class=\"wikilink\" data-slug=\"");
    assert forall|k: int| 0 <= k < 31 implies #[trigger] x[k] == wikilink_open()[k] by {
        assert(x.subrange(0, 31)[k] == x[k]);
    }
    assert forall|k: int| 0 <= k < 9 implies #[trigger] x[k] != '"' by {}
    lemma_placeholder_no_straddle_at(b, x, i, 9);
}

/// As `lemma_placeholder_no_straddle`, for any text that follows which opens
/// with `<a` and whose first quote, at `q`, is not followed by `>`.
pub proof fn lemma_placeholder_no_straddle_at(b: Seq<char>, x: Seq<char>, i: int, q: int)
    requires
        0 <= i < b.len(),
        placeholder_at(b, i) is None,
        2 <= q,
        x.len() >= q + 2,
        x[0] == '<',
        x[1] == 'a',
        forall|k: int| 0 <= k < q ==> #[trigger] x[k] != '"',
        x[q] == '"',
        x[q + 1] != '>',
    ensures
        placeholder_at(b + x, i) is None,
{
    reveal_strlit("<a");
    reveal_strlit("class=\"wikilink\"");
    reveal_strlit("data-slug=\"");
    reveal_strlit("\">");
    reveal_strlit("</a>");
    let s = b + x;
    let n = b.len() as int;
    let open = "<a"@;
    let class = "class=\"wikilink\""@;
    let data = "data-slug=\""@;
    let qgt = "\">"@;
    let close = "</a>"@;
    assert(s[n] == '<' && s[n + 1] == 'a' && s[n + q] == '"' && s[n + q + 1] != '>');
    assert(run_end(x, 0, CharClass::Space) == 0);
    assert(run_end(x, 0, CharClass::NotLt) == 0);
    assert(run_end(x, 0, CharClass::NotQuote) == q) by {
        lemma_run_end_at(x, 0, q, CharClass::NotQuote);
    }
    if placeholder_at(s, i) is Some {
        // "<a" lies within `b`
        assert(i + 2 <= n) by {
            if i + 2 > n {
                assert(s.subrange(i, i + 2)[1] == s[n]);
            }
        }
        lemma_occurs_prefix(b, x, i, open);
        lemma_run_end_concat(b, x, i + 2, CharClass::Space);
        let a = run_end(s, i + 2, CharClass::Space);
        // so does "class=\"wikilink\""
        assert(a + 16 <= n) by {
            if a + 16 > n {
                if a >= n {
                    assert(s.subrange(a, a + 16)[0] == s[a]);
                } else {
                    assert(s.subrange(a, a + 16)[n - a] == s[n]);
                }
            }
        }
        lemma_occurs_prefix(b, x, a, class);
        let b0 = a + 16;
        lemma_run_end_concat(b, x, b0, CharClass::Space);
        let bb = run_end(s, b0, CharClass::Space);
        // and "data-slug=\""
        assert(bb + 11 <= n) by {
            if bb + 11 > n {
                if bb >= n {
                    assert(s.subrange(bb, bb + 11)[0] == s[bb]);
                } else {
                    assert(s.subrange(bb, bb + 11)[n - bb] == s[n]);
                }
            }
        }
        lemma_occurs_prefix(b, x, bb, data);
        let c0 = bb + 11;
        lemma_run_end_concat(b, x, c0, CharClass::NotQuote);
        crate::scan::lemma_run_end(b, c0, CharClass::NotQuote);
        let c = run_end(s, c0, CharClass::NotQuote);
        // and the quote that ends the slug, with its ">"
        assert(c + 2 <= n) by {
            if c + 2 > n {
                if c >= n {
                    assert(c == n + q);
                    assert(s.subrange(c, c + 2)[1] == s[n + q + 1]);
                } else {
                    assert(s.subrange(c, c + 2)[1] == s[n]);
                }
            }
        }
        lemma_occurs_prefix(b, x, c, qgt);
        lemma_run_end_concat(b, x, c + 2, CharClass::NotLt);
        let d = run_end(s, c + 2, CharClass::NotLt);
        // and "</a>"
        assert(d + 4 <= n) by {
            if d + 4 > n {
                if d >= n {
                    assert(s.subrange(d, d + 4)[1] == s[n + 1]);
                } else {
                    assert(s.subrange(d, d + 4)[n - d] == s[n]);
                }
            }
        }
        lemma_occurs_prefix(b, x, d, close);
        assert(placeholder_at(b, i) is Some);
    }
}

/// No wiki-link starts anywhere in `s`.
pub open spec fn no_wikilink(s: Seq<char>) -> bool {
    forall|i: int| 0 <= i < s.len() ==> #[trigger] wikilink_at(s, i) is None
}

/// No placeholder anchor starts anywhere in `s`.
pub open spec fn no_placeholder(s: Seq<char>) -> bool {
    forall|i: int| 0 <= i < s.len() ==> #[trigger] placeholder_at(s, i) is None
}

/// Text that neither step touches: it holds no wiki-link and no placeholder
/// anchor (such as text between links, markup included).
pub open spec fn link_free(s: Seq<char>) -> bool {
    no_wikilink(s) && no_placeholder(s)
}

/// Where no wiki-link starts, rendering's wiki-link step copies the text.
pub proof fn lemma_wikilinks_none(s: Seq<char>, i: int, j: int)
    requires
        0 <= i <= j <= s.len(),
        forall|k: int| i <= k < j ==> #[trigger] wikilink_at(s, k) is None,
    ensures
        wikilinks_from(s, i) == s.subrange(i, j) + wikilinks_from(s, j),
    decreases j - i,
{
    if i < j {
        lemma_wikilinks_none(s, i + 1, j);
        assert(wikilink_at(s, i) is None);
        assert(s.subrange(i, j) =~= seq![s[i]] + s.subrange(i + 1, j));
    } else {
        assert(s.subrange(i, j) =~= Seq::<char>::empty());
    }
}

/// Where no placeholder starts, link resolution copies the text.
pub proof fn lemma_resolved_none(s: Seq<char>, i: int, j: int, reg: Map<Seq<char>, (Seq<char>, Seq<char>)>)
    requires
        0 <= i <= j <= s.len(),
        forall|k: int| i <= k < j ==> #[trigger] placeholder_at(s, k) is None,
    ensures
        resolved_from(s, i, reg) == s.subrange(i, j) + resolved_from(s, j, reg),
        broken_from(s, i, reg) == broken_from(s, j, reg),
    decreases j - i,
{
    if i < j {
        lemma_resolved_none(s, i + 1, j, reg);
        assert(placeholder_at(s, i) is None);
        assert(s.subrange(i, j) =~= seq![s[i]] + s.subrange(i + 1, j));
    } else {
        assert(s.subrange(i, j) =~= Seq::<char>::empty());
    }
}

/// A character that HTML escaping leaves as it is.
pub open spec fn escape_free(c: char) -> bool {
    c != '&' && c != '"' && c != '<' && c != '>'
}

/// A text without `&`, `"`, `<` and `>` is its own escaped form.
pub proof fn lemma_escape_identity(s: Seq<char>)
    requires
        forall|k: int| 0 <= k < s.len() ==> escape_free(#[trigger] s[k]),
    ensures
        html_escaped(s) == s,
    decreases s.len(),
{
    if s.len() > 0 {
        lemma_escape_identity(s.drop_last());
        assert(escape_free(s[s.len() - 1]));
        assert(s.drop_last().push(s.last()) =~= s);
    }
}

/// A placeholder anchor for `slug` showing `text` at the start of a text
/// is found whole and resolves as `resolved_anchor` says.
pub proof fn lemma_resolve_placeholder(
    slug: Seq<char>,
    text: Seq<char>,
    rest: Seq<char>,
    reg: Map<Seq<char>, (Seq<char>, Seq<char>)>,
)
    requires
        slug.len() > 0,
        forall|k: int| 0 <= k < slug.len() ==> #[trigger] slug[k] != '"',
        forall|k: int| 0 <= k < text.len() ==> #[trigger] text[k] != '<',
    ensures
        resolved_from(wikilink_open() + slug + "\">"@ + text + "</a>"@ + rest, 0, reg) == resolved_anchor(slug, text, reg)
            + resolved_from(rest, 0, reg),
        broken_from(wikilink_open() + slug + "\">"@ + text + "</a>"@ + rest, 0, reg) == (if reg.contains_key(slug) {
            Seq::<Seq<char>>::empty()
        } else {
            seq![slug]
        }) + broken_from(rest, 0, reg),
{
    reveal_strlit("<a class=\"wikilink\" data-slug=\"");
    reveal_strlit("<a");
    reveal_strlit("class=\"wikilink\"");
    reveal_strlit("data-slug=\"");
    reveal_strlit("\">");
    reveal_strlit("</a>");
    let open = wikilink_open();
    let anchor = open + slug + "\">"@ + text + "</a>"@;
    let p = anchor + rest;
    assert(open.len() == 31);
    let c0: int = 31;
    let c = c0 + slug.len();
    let d = c + 2 + text.len();
    let e = d + 4;
    assert(anchor.len() == e);
    assert forall|k: int| 0 <= k < 31 implies p[k] == open[k] by {}
    assert forall|k: int| c0 <= k < c implies p[k] == slug[k - c0] by {}
    assert(p[c] == '"' && p[c + 1] == '>');
    assert forall|k: int| c + 2 <= k < d implies p[k] == text[k - c - 2] by {}
    assert(p[d] == '<' && p[d + 1] == '/' && p[d + 2] == 'a' && p[d + 3] == '>');
    // "<a", white space, "class=\"wikilink\"", white space, "data-slug=\""
    assert(p.subrange(0, 2) =~= "<a"@);
    assert(is_white_space(p[2]) && !is_white_space(p[3]));
    lemma_run_end_at(p, 2, 3, CharClass::Space);
    assert(p.subrange(3, 19) =~= "class=\"wikilink\""@);
    assert(is_white_space(p[19]) && !is_white_space(p[20]));
    lemma_run_end_at(p, 19, 20, CharClass::Space);
    assert(p.subrange(20, 31) =~= "data-slug=\""@);
    // the slug runs up to the closing quote
    assert forall|k: int| c0 <= k < c implies in_class(CharClass::NotQuote, #[trigger] p[k]) by {
        assert(p[k] == slug[k - c0]);
    }
    lemma_run_end_at(p, c0, c, CharClass::NotQuote);
    assert(p.subrange(c, c + 2) =~= "\">"@);
    // the text runs up to "</a>"
    assert forall|k: int| c + 2 <= k < d implies in_class(CharClass::NotLt, #[trigger] p[k]) by {
        assert(p[k] == text[k - c - 2]);
    }
    lemma_run_end_at(p, c + 2, d, CharClass::NotLt);
    assert(p.subrange(d, d + 4) =~= "</a>"@);
    assert(placeholder_at(p, 0) == Some((c0, c, d, e)));
    assert(p.subrange(c0, c) =~= slug);
    assert(p.subrange(c + 2, d) =~= text);
    lemma_resolved_from_shift(anchor, rest, 0, reg);
    if rest.len() == 0 {
        assert(resolved_from(p, e, reg) == Seq::<char>::empty());
        assert(resolved_from(rest, 0, reg) == Seq::<char>::empty());
        assert(broken_from(p, e, reg) == Seq::<Seq<char>>::empty());
        assert(broken_from(rest, 0, reg) == Seq::<Seq<char>>::empty());
    }
}

/// `[[slug]]` at the start of a text is rendered to the placeholder anchor
/// for `slug`.
pub proof fn lemma_render_plain_link(slug: Seq<char>, rest: Seq<char>)
    requires
        slug.len() > 0,
        forall|k: int| 0 <= k < slug.len() ==> in_class(CharClass::SlugChar, #[trigger] slug[k]),
    ensures
        wikilinks_replaced("[["@ + slug + "]]"@ + rest) == wikilink_anchor(slug, None) + wikilinks_replaced(rest),
{
    reveal_strlit("[[");
    reveal_strlit("]]");
    let link = "[["@ + slug + "]]"@;
    let t = link + rest;
    let p: int = 2 + slug.len() as int;
    assert forall|k: int| 2 <= k < p implies in_class(CharClass::SlugChar, #[trigger] t[k]) by {
        assert(t[k] == slug[k - 2]);
    }
    assert(t[p] == ']' && t[p + 1] == ']');
    lemma_run_end_at(t, 2, p, CharClass::SlugChar);
    assert(t.subrange(0, 2) =~= seq!['[', '[']);
    assert(t.subrange(p, p + 2) =~= seq![']', ']']);
    assert(wikilink_at(t, 0) == Some((p, None::<int>, p + 2)));
    assert(t.subrange(2, p) =~= slug);
    lemma_wikilinks_from_shift(link, rest, 0);
    if rest.len() == 0 {
        assert(wikilinks_from(t, p + 2) == Seq::<char>::empty());
        assert(wikilinks_from(rest, 0) == Seq::<char>::empty());
    }
}

/// `[[slug|text]]` at the start of a text is rendered to the placeholder
/// anchor for `slug` showing `text`.
pub proof fn lemma_render_labelled_link(slug: Seq<char>, text: Seq<char>, rest: Seq<char>)
    requires
        slug.len() > 0,
        text.len() > 0,
        forall|k: int| 0 <= k < slug.len() ==> in_class(CharClass::SlugChar, #[trigger] slug[k]),
        forall|k: int| 0 <= k < text.len() ==> in_class(CharClass::DisplayChar, #[trigger] text[k]),
    ensures
        wikilinks_replaced("[["@ + slug + "|"@ + text + "]]"@ + rest) == wikilink_anchor(slug, Some(text))
            + wikilinks_replaced(rest),
{
    reveal_strlit("[[");
    reveal_strlit("]]");
    reveal_strlit("|");
    let link = "[["@ + slug + "|"@ + text + "]]"@;
    let t = link + rest;
    let p: int = 2 + slug.len() as int;
    let q: int = p + 1 + text.len();
    assert forall|k: int| 2 <= k < p implies in_class(CharClass::SlugChar, #[trigger] t[k]) by {
        assert(t[k] == slug[k - 2]);
    }
    assert(t[p] == '|');
    lemma_run_end_at(t, 2, p, CharClass::SlugChar);
    assert forall|k: int| p + 1 <= k < q implies in_class(CharClass::DisplayChar, #[trigger] t[k]) by {
        assert(t[k] == text[k - p - 1]);
    }
    assert(t[q] == ']' && t[q + 1] == ']');
    lemma_run_end_at(t, p + 1, q, CharClass::DisplayChar);
    assert(t.subrange(0, 2) =~= seq!['[', '[']);
    assert(t.subrange(q, q + 2) =~= seq![']', ']']);
    assert(wikilink_at(t, 0) == Some((p, Some(q), q + 2)));
    assert(t.subrange(2, p) =~= slug);
    assert(t.subrange(p + 1, q) =~= text);
    lemma_wikilinks_from_shift(link, rest, 0);
    if rest.len() == 0 {
        assert(wikilinks_from(t, q + 2) == Seq::<char>::empty());
        assert(wikilinks_from(rest, 0) == Seq::<char>::empty());
    }
}

/// A slug that can be linked to by name: not empty, and without the
/// characters that end a wiki-link's target or that escaping rewrites.
pub open spec fn linkable_slug(slug: Seq<char>) -> bool {
    &&& slug.len() > 0
    &&& forall|k: int| 0 <= k < slug.len() ==> in_class(CharClass::SlugChar, #[trigger] slug[k]) && escape_free(slug[k])
}

/// A wiki-link's shown text that survives until link resolution: not empty,
/// without `[`, `]` and `<`.
pub open spec fn linkable_text(text: Seq<char>) -> bool {
    &&& text.len() > 0
    &&& forall|k: int| 0 <= k < text.len() ==> in_class(CharClass::DisplayChar, #[trigger] text[k]) && text[k] != '<'
}

/// What a wiki-link to `slug` showing `text` ends as against `reg`: a link
/// to the post's URL, or the anchor marked `broken-link`.
pub open spec fn final_link(slug: Seq<char>, text: Seq<char>, reg: Map<Seq<char>, (Seq<char>, Seq<char>)>) -> Seq<char> {
    if reg.contains_key(slug) {
        "<a href=\""@ + reg[slug].1 + "\">"@ + text + "</a>"@
    } else {
        "<a class=\"wikilink broken-link\" data-slug=\""@ + slug + "\">"@ + text + "</a>"@
    }
}

/// The slugs a wiki-link to `slug` reports broken against `reg`.
pub open spec fn broken_link(slug: Seq<char>, reg: Map<Seq<char>, (Seq<char>, Seq<char>)>) -> Seq<Seq<char>> {
    if reg.contains_key(slug) {
        Seq::empty()
    } else {
        seq![slug]
    }
}

/// Text without wiki-links and placeholder anchors passes rendering and
/// link resolution unchanged, and reports no broken link.
pub proof fn law_link_free_text_unchanged(s: Seq<char>, reg: Map<Seq<char>, (Seq<char>, Seq<char>)>)
    requires
        link_free(s),
    ensures
        wikilinks_replaced(s) == s,
        resolved_from(wikilinks_replaced(s), 0, reg) == s,
        broken_from(wikilinks_replaced(s), 0, reg) == Seq::<Seq<char>>::empty(),
{
    lemma_wikilinks_none(s, 0, s.len() as int);
    lemma_resolved_none(s, 0, s.len() as int, reg);
    assert(s.subrange(0, s.len() as int) =~= s);
    assert(s + Seq::<char>::empty() =~= s);
}

/// Text without links followed by a wiki-link `[[slug]]`, rendered and
/// then resolved against the registry `reg`: the text is kept, the link becomes a link to
/// the post's URL showing the post's title when the registry knows the
/// slug, or else the anchor marked `broken-link` still showing `[[slug]]`,
/// and the rest of the text is treated on its own. The broken slugs are
/// reported in order.
pub proof fn law_plain_link_resolves(
    before: Seq<char>,
    slug: Seq<char>,
    rest: Seq<char>,
    reg: Map<Seq<char>, (Seq<char>, Seq<char>)>,
)
    requires
        link_free(before),
        linkable_slug(slug),
    ensures
        resolved_from(wikilinks_replaced(before + ("[["@ + slug + "]]"@) + rest), 0, reg) == before + final_link(
            slug,
            if reg.contains_key(slug) {
                reg[slug].0
            } else {
                "[["@ + slug + "]]"@
            },
            reg,
        ) + resolved_from(wikilinks_replaced(rest), 0, reg),
        broken_from(wikilinks_replaced(before + ("[["@ + slug + "]]"@) + rest), 0, reg) == broken_link(slug, reg)
            + broken_from(wikilinks_replaced(rest), 0, reg),
{
    let link = "[["@ + slug + "]]"@;
    let text = link;
    lemma_render_plain_link(slug, rest);
    lemma_escape_identity(slug);
    assert forall|k: int| 0 <= k < text.len() implies #[trigger] text[k] != '<' by {
        reveal_strlit("[[");
        reveal_strlit("]]");
        if 2 <= k < 2 + slug.len() {
            assert(text[k] == slug[k - 2]);
            assert(escape_free(slug[k - 2]));
        }
    }
    assert forall|k: int| 0 <= k < slug.len() implies #[trigger] slug[k] != '"' by {
        assert(escape_free(slug[k]));
    }
    let r = wikilinks_replaced(rest);
    let anchor = wikilink_anchor(slug, None);
    assert(anchor == wikilink_open() + slug + "\">"@ + text + "</a>"@);
    lemma_resolve_placeholder(slug, text, r, reg);
    lemma_anchor_opens(slug, text, r);
    assert(link + rest =~= "[["@ + (slug + "]]"@ + rest));
    lemma_brackets_open(slug + "]]"@ + rest);
    lemma_link_after_text(before, link + rest, anchor + r, reg);
    assert(before + (link + rest) =~= before + link + rest);
    assert(before + (anchor + r) =~= before + anchor + r);
}

/// Text without links followed by a wiki-link `[[slug|text]]`, rendered and
/// then resolved against the registry `reg`: the text is kept, the link becomes
/// a link to the post's URL showing `text` when the registry knows the
/// slug, or else the anchor marked `broken-link` showing `text`, and the
/// rest of the text is treated on its own. The broken slugs are reported
/// in order.
pub proof fn law_labelled_link_resolves(
    before: Seq<char>,
    slug: Seq<char>,
    text: Seq<char>,
    rest: Seq<char>,
    reg: Map<Seq<char>, (Seq<char>, Seq<char>)>,
)
    requires
        link_free(before),
        linkable_slug(slug),
        linkable_text(text),
    ensures
        resolved_from(wikilinks_replaced(before + ("[["@ + slug + "|"@ + text + "]]"@) + rest), 0, reg) == before
            + final_link(slug, text, reg) + resolved_from(wikilinks_replaced(rest), 0, reg),
        broken_from(wikilinks_replaced(before + ("[["@ + slug + "|"@ + text + "]]"@) + rest), 0, reg)
            == broken_link(slug, reg) + broken_from(wikilinks_replaced(rest), 0, reg),
{
    let link = "[["@ + slug + "|"@ + text + "]]"@;
    lemma_render_labelled_link(slug, text, rest);
    lemma_escape_identity(slug);
    assert forall|k: int| 0 <= k < slug.len() implies #[trigger] slug[k] != '"' by {
        assert(escape_free(slug[k]));
    }
    assert forall|k: int| 0 <= k < text.len() implies #[trigger] text[k] != '<' by {
        assert(linkable_text(text));
    }
    let r = wikilinks_replaced(rest);
    let anchor = wikilink_anchor(slug, Some(text));
    assert(anchor == wikilink_open() + slug + "\">"@ + text + "</a>"@);
    lemma_resolve_placeholder(slug, text, r, reg);
    // the shown text is no `[[slug]]`: it holds no `[`
    assert(text != "[["@ + slug + "]]"@) by {
        reveal_strlit("[[");
        if text == "[["@ + slug + "]]"@ {
            assert(text[0] == '[');
            assert(in_class(CharClass::DisplayChar, text[0]));
        }
    }
    lemma_anchor_opens(slug, text, r);
    assert(link + rest =~= "[["@ + (slug + "|"@ + text + "]]"@ + rest));
    lemma_brackets_open(slug + "|"@ + text + "]]"@ + rest);
    lemma_link_after_text(before, link + rest, anchor + r, reg);
    assert(before + (link + rest) =~= before + link + rest);
    assert(before + (anchor + r) =~= before + anchor + r);
}

proof fn lemma_anchor_opens(slug: Seq<char>, text: Seq<char>, r: Seq<char>)
    ensures
        (wikilink_open() + slug + "\">"@ + text + "</a>"@ + r).len() >= 31,
        (wikilink_open() + slug + "\">"@ + text + "</a>"@ + r).subrange(0, 31) == wikilink_open(),
{
    reveal_strlit("<a class=\"wikilink\" data-slug=\"");
    let a = wikilink_open() + slug + "\">"@ + text + "</a>"@ + r;
    assert(a.subrange(0, 31) =~= wikilink_open());
}

proof fn lemma_brackets_open(y: Seq<char>)
    ensures
        ("[["@ + y).len() >= 2,
        ("[["@ + y)[0] == '[',
        ("[["@ + y)[1] == '[',
{
    reveal_strlit("[[");
}

/// Rendering and resolution go past text without links unchanged, up to
/// a wiki-link and the placeholder it is rendered to.
proof fn lemma_link_after_text(
    before: Seq<char>,
    t: Seq<char>,
    rendered: Seq<char>,
    reg: Map<Seq<char>, (Seq<char>, Seq<char>)>,
)
    requires
        link_free(before),
        t.len() >= 2,
        t[0] == '[',
        t[1] == '[',
        rendered.len() >= 31,
        rendered.subrange(0, 31) == wikilink_open(),
        wikilinks_replaced(t) == rendered,
    ensures
        wikilinks_replaced(before + t) == before + rendered,
        resolved_from(before + rendered, 0, reg) == before + resolved_from(rendered, 0, reg),
        broken_from(before + rendered, 0, reg) == broken_from(rendered, 0, reg),
{
    let s = before + t;
    let n = before.len() as int;
    assert forall|k: int| 0 <= k < n implies #[trigger] wikilink_at(s, k) is None by {
        assert(wikilink_at(before, k) is None);
        lemma_wikilink_no_straddle(before, t, k);
    }
    lemma_wikilinks_none(s, 0, n);
    lemma_wikilinks_from_shift(before, t, 0);
    assert(s.subrange(0, n) =~= before);
    let u = before + rendered;
    assert forall|k: int| 0 <= k < n implies #[trigger] placeholder_at(u, k) is None by {
        assert(placeholder_at(before, k) is None);
        lemma_placeholder_no_straddle(before, rendered, k);
    }
    lemma_resolved_none(u, 0, n, reg);
    lemma_resolved_from_shift(before, rendered, 0, reg);
    assert(u.subrange(0, n) =~= before);
}


// ---------------------------------------------------------------------------
// Resolution settles: a second pass changes nothing
// ---------------------------------------------------------------------------

/// Text without `<`, `>` and `"`.
pub open spec fn inert_text(t: Seq<char>) -> bool {
    forall|k: int| 0 <= k < t.len() ==> #[trigger] t[k] != '<' && t[k] != '>' && t[k] != '"'
}

/// Every title and URL of the registry is inert text.
pub open spec fn inert_registry(reg: Map<Seq<char>, (Seq<char>, Seq<char>)>) -> bool {
    forall|k: Seq<char>| #[trigger] reg.contains_key(k) ==> inert_text(reg[k].0) && inert_text(reg[k].1)
}

/// The first position at or after `i` where a placeholder starts (the end
/// of `s` when none does).
pub open spec fn next_placeholder(s: Seq<char>, i: int) -> int
    decreases s.len() - i,
{
    if i < 0 || i >= s.len() {
        s.len() as int
    } else if placeholder_at(s, i) is Some {
        i
    } else {
        next_placeholder(s, i + 1)
    }
}

proof fn lemma_next_placeholder(s: Seq<char>, i: int)
    requires
        0 <= i <= s.len(),
    ensures
        i <= next_placeholder(s, i) <= s.len(),
        forall|k: int| i <= k < next_placeholder(s, i) ==> #[trigger] placeholder_at(s, k) is None,
        next_placeholder(s, i) < s.len() ==> placeholder_at(s, next_placeholder(s, i)) is Some,
    decreases s.len() - i,
{
    if i < s.len() && placeholder_at(s, i) is None {
        lemma_next_placeholder(s, i + 1);
    }
}

/// A placeholder found in a text is found alike whatever follows it.
proof fn lemma_placeholder_extends(b: Seq<char>, x: Seq<char>, i: int)
    requires
        0 <= i < b.len(),
        placeholder_at(b, i) is Some,
    ensures
        placeholder_at(b + x, i) == placeholder_at(b, i),
{
    reveal_strlit("<a");
    reveal_strlit("class=\"wikilink\"");
    reveal_strlit("data-slug=\"");
    reveal_strlit("\">");
    reveal_strlit("</a>");
    lemma_occurs_prefix(b, x, i, "<a"@);
    let a = run_end(b, i + 2, CharClass::Space);
    lemma_run_end_concat(b, x, i + 2, CharClass::Space);
    lemma_occurs_prefix(b, x, a, "class=\"wikilink\""@);
    let b0 = a + 16;
    let bb = run_end(b, b0, CharClass::Space);
    lemma_run_end_concat(b, x, b0, CharClass::Space);
    lemma_occurs_prefix(b, x, bb, "data-slug=\""@);
    let c0 = bb + 11;
    let c = run_end(b, c0, CharClass::NotQuote);
    lemma_run_end_concat(b, x, c0, CharClass::NotQuote);
    lemma_occurs_prefix(b, x, c, "\">"@);
    let d = run_end(b, c + 2, CharClass::NotLt);
    lemma_run_end_concat(b, x, c + 2, CharClass::NotLt);
    lemma_occurs_prefix(b, x, d, "</a>"@);
}

/// Where the first quote of a resolved anchor is: after `<a href=` or after
/// `<a class=`.
pub open spec fn anchor_quote(slug: Seq<char>, reg: Map<Seq<char>, (Seq<char>, Seq<char>)>) -> int {
    if reg.contains_key(slug) {
        8
    } else {
        9
    }
}

/// No placeholder starts inside a resolved anchor, whatever follows it; and
/// the anchor opens as `<a` with a first quote not followed by `>`.
proof fn lemma_anchor_settled(
    slug: Seq<char>,
    text: Seq<char>,
    r: Seq<char>,
    reg: Map<Seq<char>, (Seq<char>, Seq<char>)>,
)
    requires
        forall|k: int| 0 <= k < slug.len() ==> #[trigger] slug[k] != '"',
        forall|k: int| 0 <= k < text.len() ==> #[trigger] text[k] != '<',
        inert_registry(reg),
    ensures
        ({
            let a = resolved_anchor(slug, text, reg);
            let q = anchor_quote(slug, reg);
            &&& forall|m: int| 0 <= m < a.len() ==> #[trigger] placeholder_at(a + r, m) is None
            &&& a.len() >= q + 2
            &&& a[0] == '<'
            &&& a[1] == 'a'
            &&& forall|k: int| 0 <= k < q ==> #[trigger] a[k] != '"'
            &&& a[q] == '"'
            &&& a[q + 1] != '>'
        }),
{
    reveal_strlit("<a href=\"");
    reveal_strlit("\">");
    reveal_strlit("</a>");
    reveal_strlit("<a class=\"wikilink broken-link\" data-slug=\"");
    reveal_strlit("<a");
    reveal_strlit("class=\"wikilink\"");
    let a = resolved_anchor(slug, text, reg);
    let y = a + r;
    let class = "class=\"wikilink\""@;
    assert forall|m: int| 0 <= m < a.len() implies y[m] == a[m] by {}
    if reg.contains_key(slug) {
        let url = reg[slug].1;
        let shown = if text == "[["@ + slug + "]]"@ {
            reg[slug].0
        } else {
            text
        };
        assert(inert_text(reg[slug].0) && inert_text(url));
        assert forall|k: int| 0 <= k < shown.len() implies #[trigger] shown[k] != '<' by {
            if text == "[["@ + slug + "]]"@ {
                assert(inert_text(reg[slug].0));
            }
        }
        let u0: int = 9;
        let t0: int = u0 + url.len() + 2;
        let e0: int = t0 + shown.len();
        assert(a == "<a href=\""@ + url + "\">"@ + shown + "</a>"@);
        assert(a.len() == e0 + 4);
        assert forall|k: int| 0 <= k < url.len() implies a[u0 + k] == url[k] by {}
        assert forall|k: int| 0 <= k < shown.len() implies a[t0 + k] == shown[k] by {}
        assert(a[u0 + url.len()] == '"' && a[u0 + url.len() + 1] == '>');
        assert(a[e0] == '<' && a[e0 + 1] == '/');
        assert(a[9] != '>') by {
            if url.len() > 0 {
                assert(a[9] == url[0]);
            }
        }
        assert forall|m: int| 0 <= m < a.len() implies #[trigger] placeholder_at(y, m) is None by {
            if m == 0 {
                assert(is_white_space(y[2]) && !is_white_space(y[3]));
                lemma_run_end_at(y, 2, 3, CharClass::Space);
                assert(!occurs(y, 3, class)) by {
                    if occurs(y, 3, class) {
                        assert(y.subrange(3, 19)[0] == y[3]);
                    }
                }
            } else if m == e0 {
                assert(!occurs(y, m, "<a"@)) by {
                    if occurs(y, m, "<a"@) {
                        assert(y.subrange(m, m + 2)[1] == y[m + 1]);
                    }
                }
            } else {
                assert(y[m] != '<') by {
                    if u0 <= m < u0 + url.len() {
                        assert(y[m] == url[m - u0]);
                    } else if t0 <= m < e0 {
                        assert(y[m] == shown[m - t0]);
                    }
                }
                assert(!occurs(y, m, "<a"@)) by {
                    if occurs(y, m, "<a"@) {
                        assert(y.subrange(m, m + 2)[0] == y[m]);
                    }
                }
            }
        }
    } else {
        let b1 = "<a class=\"wikilink broken-link\" data-slug=\""@;
        assert(b1.len() == 43);
        let p_sep: int = 43 + slug.len() as int;
        let t0: int = p_sep + 2;
        let e0: int = t0 + text.len();
        assert(a == b1 + slug + "\">"@ + text + "</a>"@);
        assert(a.len() == e0 + 4);
        assert forall|k: int| 0 <= k < slug.len() implies a[43 + k] == slug[k] by {}
        assert forall|k: int| 0 <= k < text.len() implies a[t0 + k] == text[k] by {}
        assert(a[p_sep] == '"' && a[p_sep + 1] == '>');
        assert(a[e0] == '<' && a[e0 + 1] == '/');
        assert forall|m: int| 0 <= m < a.len() implies #[trigger] placeholder_at(y, m) is None by {
            if m == 0 {
                assert(is_white_space(y[2]) && !is_white_space(y[3]));
                lemma_run_end_at(y, 2, 3, CharClass::Space);
                assert(!occurs(y, 3, class)) by {
                    if occurs(y, 3, class) {
                        assert(y.subrange(3, 19)[15] == y[18]);
                    }
                }
            } else if m == e0 {
                assert(!occurs(y, m, "<a"@)) by {
                    if occurs(y, m, "<a"@) {
                        assert(y.subrange(m, m + 2)[1] == y[m + 1]);
                    }
                }
            } else if 43 <= m < p_sep {
                if occurs(y, m, "<a"@) {
                    assert(m + 1 < p_sep) by {
                        assert(y.subrange(m, m + 2)[1] == y[m + 1]);
                    }
                    crate::scan::lemma_run_end(y, m + 2, CharClass::Space);
                    let sp = run_end(y, m + 2, CharClass::Space);
                    assert(sp <= p_sep) by {
                        if sp > p_sep {
                            assert(in_class(CharClass::Space, y[p_sep]));
                        }
                    }
                    assert(!occurs(y, sp, class)) by {
                        if occurs(y, sp, class) {
                            if sp + 6 < p_sep {
                                assert(y.subrange(sp, sp + 16)[6] == y[sp + 6]);
                                assert(y[sp + 6] == slug[sp + 6 - 43]);
                            } else if sp + 6 == p_sep {
                                assert(y.subrange(sp, sp + 16)[7] == y[sp + 7]);
                            } else {
                                assert(y.subrange(sp, sp + 16)[p_sep - sp] == y[p_sep]);
                            }
                        }
                    }
                }
            } else {
                assert(y[m] != '<') by {
                    if t0 <= m < e0 {
                        assert(y[m] == text[m - t0]);
                    }
                }
                assert(!occurs(y, m, "<a"@)) by {
                    if occurs(y, m, "<a"@) {
                        assert(y.subrange(m, m + 2)[0] == y[m]);
                    }
                }
            }
        }
    }
}

/// A stretch of `s` where no placeholder starts holds none on its own.
proof fn lemma_copied_clear(s: Seq<char>, i: int, j: int)
    requires
        0 <= i <= j <= s.len(),
        forall|k: int| i <= k < j ==> #[trigger] placeholder_at(s, k) is None,
    ensures
        no_placeholder(s.subrange(i, j)),
{
    let n = s.len() as int;
    let pre = s.subrange(0, i);
    let suf = s.subrange(i, n);
    assert(pre + suf =~= s);
    let cc = s.subrange(i, j);
    let rest = s.subrange(j, n);
    assert(cc + rest =~= suf);
    assert forall|k: int| 0 <= k < cc.len() implies #[trigger] placeholder_at(cc, k) is None by {
        if placeholder_at(cc, k) is Some {
            lemma_placeholder_extends(cc, rest, k);
            lemma_placeholder_at_shift(pre, suf, k);
            assert(placeholder_at(s, i + k) is None);
        }
    }
}

/// Text without placeholders followed by an anchor-led text without any.
proof fn lemma_concat_clear(cc: Seq<char>, x: Seq<char>, q: int)
    requires
        no_placeholder(cc),
        no_placeholder(x),
        2 <= q,
        x.len() >= q + 2,
        x[0] == '<',
        x[1] == 'a',
        forall|k: int| 0 <= k < q ==> #[trigger] x[k] != '"',
        x[q] == '"',
        x[q + 1] != '>',
    ensures
        no_placeholder(cc + x),
{
    let out = cc + x;
    assert forall|m: int| 0 <= m < out.len() implies #[trigger] placeholder_at(out, m) is None by {
        if m < cc.len() {
            lemma_placeholder_no_straddle_at(cc, x, m, q);
        } else {
            lemma_placeholder_at_shift(cc, x, m - cc.len());
            assert(placeholder_at(x, m - cc.len()) is None);
        }
    }
}

/// An anchor that holds no placeholder, followed by text without any.
proof fn lemma_anchor_then_clear(anchor: Seq<char>, re: Seq<char>)
    requires
        forall|m: int| 0 <= m < anchor.len() ==> #[trigger] placeholder_at(anchor + re, m) is None,
        no_placeholder(re),
    ensures
        no_placeholder(anchor + re),
{
    let x = anchor + re;
    assert forall|m: int| 0 <= m < x.len() implies #[trigger] placeholder_at(x, m) is None by {
        if m >= anchor.len() {
            lemma_placeholder_at_shift(anchor, re, m - anchor.len());
            assert(placeholder_at(re, m - anchor.len()) is None);
        }
    }
}

/// The slug of a placeholder holds no quote and its text no `<`.
proof fn lemma_placeholder_parts(s: Seq<char>, j: int)
    requires
        0 <= j < s.len(),
        placeholder_at(s, j) is Some,
    ensures
        ({
            let (c0, c, d, e) = placeholder_at(s, j).unwrap();
            &&& j < c0 < c && c + 2 <= d && e == d + 4 && e <= s.len()
            &&& forall|k: int| c0 <= k < c ==> #[trigger] s[k] != '"'
            &&& forall|k: int| c + 2 <= k < d ==> #[trigger] s[k] != '<'
        }),
{
    reveal_strlit("\">");
    reveal_strlit("</a>");
    crate::link::lemma_placeholder_at(s, j);
    let (c0, c, d, e) = placeholder_at(s, j).unwrap();
    crate::scan::lemma_run_end(s, c0, CharClass::NotQuote);
    crate::scan::lemma_run_end(s, c + 2, CharClass::NotLt);
    assert forall|k: int| c0 <= k < c implies #[trigger] s[k] != '"' by {
        assert(in_class(CharClass::NotQuote, s[k]));
    }
    assert forall|k: int| c + 2 <= k < d implies #[trigger] s[k] != '<' by {
        assert(in_class(CharClass::NotLt, s[k]));
    }
}

/// Link resolution of `s` from `i` leaves no placeholder behind.
#[verifier::rlimit(40)]
proof fn lemma_resolved_settled(s: Seq<char>, i: int, reg: Map<Seq<char>, (Seq<char>, Seq<char>)>)
    requires
        0 <= i <= s.len(),
        inert_registry(reg),
    ensures
        no_placeholder(resolved_from(s, i, reg)),
    decreases s.len() - i,
{
    let n = s.len() as int;
    let j = next_placeholder(s, i);
    lemma_next_placeholder(s, i);
    lemma_resolved_none(s, i, j, reg);
    lemma_copied_clear(s, i, j);
    let cc = s.subrange(i, j);
    if j == n {
        assert(resolved_from(s, j, reg) == Seq::<char>::empty());
        assert(resolved_from(s, i, reg) =~= cc);
    } else {
        lemma_placeholder_parts(s, j);
        let (c0, c, d, e) = placeholder_at(s, j).unwrap();
        reveal_strlit("\">");
        let slug = s.subrange(c0, c);
        let text = s.subrange(c + 2, d);
        assert forall|k: int| 0 <= k < slug.len() implies #[trigger] slug[k] != '"' by {
            assert(slug[k] == s[c0 + k]);
        }
        assert forall|k: int| 0 <= k < text.len() implies #[trigger] text[k] != '<' by {
            assert(text[k] == s[c + 2 + k]);
        }
        let anchor = resolved_anchor(slug, text, reg);
        let re = resolved_from(s, e, reg);
        assert(resolved_from(s, j, reg) == anchor + re);
        lemma_resolved_settled(s, e, reg);
        lemma_anchor_settled(slug, text, re, reg);
        lemma_anchor_then_clear(anchor, re);
        let x = anchor + re;
        let q = anchor_quote(slug, reg);
        assert forall|k: int| 0 <= k < q implies #[trigger] x[k] != '"' by {
            assert(x[k] == anchor[k]);
        }
        assert(x[0] == anchor[0] && x[1] == anchor[1] && x[q] == anchor[q] && x[q + 1] == anchor[q + 1]);
        lemma_concat_clear(cc, x, q);
        assert(resolved_from(s, i, reg) == cc + x);
    }
}

/// Resolving links settles: when the registry's titles and URLs hold no
/// `<`, `>` or `"`, a second resolution of the resolved text changes
/// nothing and reports no broken link.
pub proof fn law_resolution_settles(s: Seq<char>, reg: Map<Seq<char>, (Seq<char>, Seq<char>)>)
    requires
        inert_registry(reg),
    ensures
        resolved_from(resolved_from(s, 0, reg), 0, reg) == resolved_from(s, 0, reg),
        broken_from(resolved_from(s, 0, reg), 0, reg) == Seq::<Seq<char>>::empty(),
{
    let r = resolved_from(s, 0, reg);
    lemma_resolved_settled(s, 0, reg);
    lemma_resolved_none(r, 0, r.len() as int, reg);
    assert(r.subrange(0, r.len() as int) =~= r);
    assert(r + Seq::<char>::empty() =~= r);
}

} // verus!
