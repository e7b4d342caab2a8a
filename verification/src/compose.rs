//! Site composition: the site configuration, the posts that compose reads,
//! tags, archive grouping, ordering, pagination and the feed's settings.
use vstd::prelude::*;
use crate::json::{JsonValue, JsonView, lookup};
use crate::text::{chars_of, replaced, replace_all};
use crate::order::{lex_lt, str_lt, lemma_lex_irreflexive, lemma_lex_asymmetric, lemma_lex_total, lemma_lex_transitive};
use crate::json::str_eq;

verus! {

// ---------------------------------------------------------------------------
// Site configuration
// ---------------------------------------------------------------------------

/// A navigation link.
#[derive(Debug)]
pub struct NavItem {
    pub label: String,
    pub url: String,
}

/// The Atom feed's settings.
#[derive(Debug)]
pub struct FeedConfig {
    pub enable: bool,
    pub title: Option<String>,
    pub description: Option<String>,
}

/// The site's author.
#[derive(Debug)]
pub struct AuthorConfig {
    pub name: String,
    pub email: Option<String>,
}

/// The site-wide configuration.
#[derive(Debug)]
pub struct SiteConfig {
    pub site_name: String,
    pub base_url: String,
    pub language: String,
    pub nav: Vec<NavItem>,
    pub posts_per_page: usize,
    pub feed: Option<FeedConfig>,
    pub author: Option<AuthorConfig>,
}

/// The number of posts on an index page when the configuration gives none.
pub fn default_posts_per_page() -> (r: usize)
    ensures
        r == 10,
{
    10
}

// ---------------------------------------------------------------------------
// Tag slugs
// ---------------------------------------------------------------------------

/// The Unicode lower-case mapping of a string (`str::to_lowercase`).
pub uninterp spec fn lowercase(s: Seq<char>) -> Seq<char>;

pub open spec fn is_ascii_upper(c: char) -> bool {
    'A' <= c && c <= 'Z'
}

pub open spec fn ascii_lower_char(c: char) -> char {
    if is_ascii_upper(c) {
        ((c as u32) + 32) as char
    } else {
        c
    }
}

/// Calls `str::to_lowercase`. The result is named; beyond that the contract
/// states that no `A`-`Z` is left in it (every such letter has its lower-case
/// mapping) and the ASCII case, where each letter `A`-`Z` becomes `a`-`z` and
/// every other character stays.
#[verifier::external_body]
fn str_to_lowercase(s: &str) -> (r: String)
    ensures
        r@ == lowercase(s@),
        forall|i: int| 0 <= i < r@.len() ==> !is_ascii_upper(#[trigger] r@[i]),
        (forall|i: int| 0 <= i < s@.len() ==> (#[trigger] s@[i] as u32) < 128) ==> r@ == s@.map_values(
            |c: char| ascii_lower_char(c),
        ),
{
    s.to_lowercase()
}

pub open spec fn is_ascii_alphanumeric(c: char) -> bool {
    ('0' <= c && c <= '9') || ('a' <= c && c <= 'z') || ('A' <= c && c <= 'Z')
}

/// A character of a tag as the slug keeps it: a space becomes `-`; ASCII
/// letters, digits and `-` are kept; anything else is dropped.
pub open spec fn slug_kept(s: Seq<char>) -> Seq<char>
    decreases s.len(),
{
    if s.len() == 0 {
        Seq::empty()
    } else {
        let c = if s.last() == ' ' {
            '-'
        } else {
            s.last()
        };
        if is_ascii_alphanumeric(c) || c == '-' {
            slug_kept(s.drop_last()).push(c)
        } else {
            slug_kept(s.drop_last())
        }
    }
}

/// `s` with each run of `-` collapsed to one and leading ones removed.
pub open spec fn hyphens_collapsed(s: Seq<char>) -> Seq<char>
    decreases s.len(),
{
    if s.len() == 0 {
        Seq::empty()
    } else {
        let p = hyphens_collapsed(s.drop_last());
        if s.last() == '-' {
            if p.len() > 0 && p.last() != '-' {
                p.push('-')
            } else {
                p
            }
        } else {
            p.push(s.last())
        }
    }
}

/// The slug of a tag whose lower-case form is `lower`.
pub open spec fn slug_of_lowered(lower: Seq<char>) -> Seq<char> {
    let c = hyphens_collapsed(slug_kept(lower));
    if c.len() > 0 && c.last() == '-' {
        c.drop_last()
    } else {
        c
    }
}

pub proof fn lemma_hyphens_collapsed(s: Seq<char>)
    ensures
        hyphens_collapsed(s).len() > 0 ==> hyphens_collapsed(s)[0] != '-',
        forall|i: int|
            0 <= i < hyphens_collapsed(s).len() - 1 ==> !(#[trigger] hyphens_collapsed(s)[i] == '-'
                && hyphens_collapsed(s)[i + 1] == '-'),
        forall|i: int|
            0 <= i < hyphens_collapsed(s).len() ==> (#[trigger] hyphens_collapsed(s)[i] == '-'
                || s.contains(hyphens_collapsed(s)[i])),
    decreases s.len(),
{
    if s.len() > 0 {
        lemma_hyphens_collapsed(s.drop_last());
        let p = hyphens_collapsed(s.drop_last());
        let r = hyphens_collapsed(s);
        assert forall|i: int| 0 <= i < r.len() implies (#[trigger] r[i] == '-' || s.contains(r[i])) by {
            if i < p.len() {
                assert(r[i] == p[i]);
                if p[i] != '-' {
                    let j = choose|j: int| 0 <= j < s.drop_last().len() && s.drop_last()[j] == p[i];
                    assert(s[j] == p[i]);
                }
            } else {
                assert(s[s.len() - 1] == s.last());
            }
        }
        assert forall|i: int| 0 <= i < r.len() - 1 implies !(#[trigger] r[i] == '-' && r[i + 1] == '-') by {
            if i + 1 < p.len() {
                assert(r[i] == p[i] && r[i + 1] == p[i + 1]);
            }
        }
    }
}

pub proof fn lemma_slug_kept(s: Seq<char>)
    ensures
        forall|i: int| 0 <= i < slug_kept(s).len() ==> is_ascii_alphanumeric(#[trigger] slug_kept(s)[i])
            || slug_kept(s)[i] == '-',
        forall|i: int| 0 <= i < slug_kept(s).len() ==> #[trigger] slug_kept(s)[i] == '-' || s.contains(
            slug_kept(s)[i],
        ),
        forall|k: int| 0 <= k < s.len() && is_ascii_alphanumeric(#[trigger] s[k]) ==> slug_kept(s).contains(s[k]),
    decreases s.len(),
{
    if s.len() > 0 {
        lemma_slug_kept(s.drop_last());
        let p = slug_kept(s.drop_last());
        let q = slug_kept(s);
        assert forall|i: int| 0 <= i < q.len() implies (is_ascii_alphanumeric(#[trigger] q[i]) || q[i] == '-') && (
        q[i] == '-' || s.contains(q[i])) by {
            if i < p.len() {
                assert(q[i] == p[i]);
                if p[i] != '-' {
                    let j = choose|j: int| 0 <= j < s.drop_last().len() && s.drop_last()[j] == p[i];
                    assert(s[j] == p[i]);
                }
            } else {
                assert(s[s.len() - 1] == s.last());
            }
        }
        assert forall|k: int| 0 <= k < s.len() && is_ascii_alphanumeric(#[trigger] s[k]) implies q.contains(s[k]) by {
            if k < s.len() - 1 {
                assert(s.drop_last()[k] == s[k]);
                let j = choose|j: int| 0 <= j < p.len() && p[j] == s[k];
                assert(q[j] == p[j]);
            } else {
                assert(q[q.len() - 1] == s[k]);
            }
        }
    }
}

/// Runs of hyphens collapse without losing any other character.
pub proof fn lemma_collapsed_keeps(s: Seq<char>)
    ensures
        forall|k: int| 0 <= k < s.len() && #[trigger] s[k] != '-' ==> hyphens_collapsed(s).contains(s[k]),
        (forall|k: int| 0 <= k < s.len() ==> #[trigger] s[k] == '-') ==> hyphens_collapsed(s).len() == 0,
    decreases s.len(),
{
    if s.len() > 0 {
        lemma_collapsed_keeps(s.drop_last());
        let p = hyphens_collapsed(s.drop_last());
        let q = hyphens_collapsed(s);
        assert forall|k: int| 0 <= k < s.len() && #[trigger] s[k] != '-' implies q.contains(s[k]) by {
            if k < s.len() - 1 {
                assert(s.drop_last()[k] == s[k]);
                let j = choose|j: int| 0 <= j < p.len() && p[j] == s[k];
                assert(q[j] == p[j]);
            } else {
                assert(q[q.len() - 1] == s[k]);
            }
        }
        if forall|k: int| 0 <= k < s.len() ==> #[trigger] s[k] == '-' {
            assert forall|k: int| 0 <= k < s.drop_last().len() implies #[trigger] s.drop_last()[k] == '-' by {
                assert(s.drop_last()[k] == s[k]);
            }
            assert(s[s.len() - 1] == '-');
        }
    }
}

/// Text of ASCII letters, digits and hyphens keeps all its characters.
proof fn lemma_slug_kept_id(s: Seq<char>)
    requires
        forall|k: int| 0 <= k < s.len() ==> is_ascii_alphanumeric(#[trigger] s[k]) || s[k] == '-',
    ensures
        slug_kept(s) == s,
    decreases s.len(),
{
    if s.len() > 0 {
        assert forall|k: int| 0 <= k < s.drop_last().len() implies is_ascii_alphanumeric(#[trigger] s.drop_last()[k])
            || s.drop_last()[k] == '-' by {
            assert(s.drop_last()[k] == s[k]);
        }
        lemma_slug_kept_id(s.drop_last());
        assert(s[s.len() - 1] == s.last());
        assert(s.drop_last().push(s.last()) =~= s);
    }
}

/// Text that neither starts with a hyphen nor holds two in a row has no
/// hyphens to collapse.
proof fn lemma_collapsed_id(s: Seq<char>)
    requires
        s.len() > 0 ==> s[0] != '-',
        forall|i: int| 0 <= i < s.len() - 1 ==> !(#[trigger] s[i] == '-' && s[i + 1] == '-'),
    ensures
        hyphens_collapsed(s) == s,
    decreases s.len(),
{
    if s.len() > 0 {
        let d = s.drop_last();
        assert(d.len() > 0 ==> d[0] == s[0]);
        assert forall|i: int| 0 <= i < d.len() - 1 implies !(#[trigger] d[i] == '-' && d[i + 1] == '-') by {
            assert(d[i] == s[i] && d[i + 1] == s[i + 1]);
        }
        lemma_collapsed_id(d);
        if s.last() == '-' {
            assert(s.len() >= 2);
            assert(s[s.len() - 2] != '-');
            assert(d.last() == s[s.len() - 2]);
        }
        assert(d.push(s.last()) =~= s);
    }
}

/// The pieces of `s` between its hyphens (`str::split('-')`).
pub open spec fn split_hyphens(s: Seq<char>) -> Seq<Seq<char>>
    decreases s.len(),
{
    if s.len() == 0 {
        seq![Seq::<char>::empty()]
    } else {
        let p = split_hyphens(s.drop_last());
        if s.last() == '-' {
            p.push(Seq::empty())
        } else {
            p.update(p.len() - 1, p.last().push(s.last()))
        }
    }
}

/// The non-empty pieces of `ps` joined with hyphens.
pub open spec fn join_nonempty(ps: Seq<Seq<char>>) -> Seq<char>
    decreases ps.len(),
{
    if ps.len() == 0 {
        Seq::empty()
    } else {
        let j = join_nonempty(ps.drop_last());
        if ps.last().len() == 0 {
            j
        } else if j.len() == 0 {
            ps.last()
        } else {
            j + seq!['-'] + ps.last()
        }
    }
}

proof fn lemma_split_hyphens(s: Seq<char>)
    ensures
        split_hyphens(s).len() > 0,
        forall|i: int, k: int|
            0 <= i < split_hyphens(s).len() && 0 <= k < split_hyphens(s)[i].len() ==> #[trigger] split_hyphens(
                s,
            )[i][k] != '-',
        ({
            let ps = split_hyphens(s);
            let j = join_nonempty(ps);
            let l = ps.last();
            &&& j.len() > 0 ==> j.last() != '-'
            &&& l.len() > 0 ==> j.len() > 0 && j.last() == l.last()
            &&& hyphens_collapsed(s) == j + if l.len() == 0 && j.len() > 0 {
                seq!['-']
            } else {
                Seq::<char>::empty()
            }
        }),
    decreases s.len(),
{
    if s.len() == 0 {
        let ps = split_hyphens(s);
        assert(ps.drop_last() =~= Seq::<Seq<char>>::empty());
        assert(join_nonempty(Seq::<Seq<char>>::empty()) == Seq::<char>::empty());
        assert(join_nonempty(ps) == Seq::<char>::empty());
        assert(hyphens_collapsed(s) =~= Seq::<char>::empty());
    } else {
        let t = s.drop_last();
        lemma_split_hyphens(t);
        let p = split_hyphens(t);
        let ps = split_hyphens(s);
        let jp = join_nonempty(p);
        let j0 = join_nonempty(p.drop_last());
        let lp = p.last();
        let hp = hyphens_collapsed(t);
        if s.last() == '-' {
            assert(ps == p.push(Seq::<char>::empty()));
            assert(ps.drop_last() =~= p);
            assert(join_nonempty(ps) == jp);
            assert forall|i: int, k: int| 0 <= i < ps.len() && 0 <= k < ps[i].len() implies #[trigger] ps[i][k] != '-' by {
                if i < p.len() {
                    assert(ps[i] == p[i]);
                }
            }
            assert(ps.last() =~= Seq::<char>::empty());
            assert(hyphens_collapsed(s) == if hp.len() > 0 && hp.last() != '-' {
                hp.push('-')
            } else {
                hp
            });
            if lp.len() > 0 {
                assert(hp == jp);
                assert(hyphens_collapsed(s) =~= jp + seq!['-']);
            } else if jp.len() > 0 {
                assert(hp == jp + seq!['-']);
                assert(hp.last() == '-');
            } else {
                assert(hp =~= Seq::<char>::empty());
                assert(jp + Seq::<char>::empty() =~= jp);
            }
        } else {
            let c = s.last();
            let l = lp.push(c);
            assert(ps == p.update(p.len() - 1, l));
            assert(ps.drop_last() =~= p.drop_last());
            assert(ps.last() == l);
            assert forall|i: int, k: int| 0 <= i < ps.len() && 0 <= k < ps[i].len() implies #[trigger] ps[i][k] != '-' by {
                if i < p.len() - 1 {
                    assert(ps[i] == p[i]);
                } else if k < lp.len() {
                    assert(ps[i][k] == lp[k]);
                    assert(lp == p[p.len() - 1]);
                }
            }
            // the join before the last piece is that of `p` without its last piece
            if lp.len() > 0 {
                assert(jp == if j0.len() == 0 {
                    lp
                } else {
                    j0 + seq!['-'] + lp
                });
                if j0.len() == 0 {
                    assert(hp.push(c) =~= l);
                } else {
                    assert((j0 + seq!['-'] + lp).push(c) =~= j0 + seq!['-'] + l);
                }
            } else {
                assert(jp == j0);
                if j0.len() == 0 {
                    assert(hp =~= Seq::<char>::empty());
                    assert(hp.push(c) =~= l);
                } else {
                    assert(hp == j0 + seq!['-']);
                    assert((j0 + seq!['-']).push(c) =~= j0 + seq!['-'] + l);
                }
            }
            let jn = join_nonempty(ps);
            assert(hyphens_collapsed(s) == hp.push(c));
            assert(jn == if j0.len() == 0 {
                l
            } else {
                j0 + seq!['-'] + l
            });
            assert(jn.last() == c);
            assert(jn + Seq::<char>::empty() =~= jn);
        }
    }
}

/// The slug is the lower-cased tag, spaces made hyphens and other
/// characters than ASCII letters, digits and hyphens dropped, split at its
/// hyphens, with the non-empty pieces joined by single hyphens.
pub proof fn law_slug_split_join(lower: Seq<char>)
    ensures
        slug_of_lowered(lower) == join_nonempty(split_hyphens(slug_kept(lower))),
{
    let s = slug_kept(lower);
    lemma_split_hyphens(s);
    let j = join_nonempty(split_hyphens(s));
    let c = hyphens_collapsed(s);
    if c.len() > 0 && c.last() == '-' {
        assert(c.drop_last() =~= j);
    } else {
        assert(c =~= j);
    }
}

/// The ASCII lower-case form of `s`.
pub open spec fn ascii_lowered(s: Seq<char>) -> Seq<char> {
    s.map_values(|c: char| ascii_lower_char(c))
}

/// A slug is empty exactly when the lower-cased tag has no ASCII letter or
/// digit, and it keeps every ASCII letter and digit of it.
pub proof fn law_slug_empty(lower: Seq<char>)
    ensures
        (slug_of_lowered(lower).len() == 0) == (forall|k: int| 0 <= k < lower.len() ==> !is_ascii_alphanumeric(
            #[trigger] lower[k],
        )),
        forall|k: int| 0 <= k < lower.len() && is_ascii_alphanumeric(#[trigger] lower[k]) ==> slug_of_lowered(
            lower,
        ).contains(lower[k]),
{
    lemma_slug_kept(lower);
    let kept = slug_kept(lower);
    lemma_collapsed_keeps(kept);
    let c = hyphens_collapsed(kept);
    assert forall|k: int| 0 <= k < lower.len() && is_ascii_alphanumeric(#[trigger] lower[k]) implies slug_of_lowered(
        lower,
    ).contains(lower[k]) by {
        let j = choose|j: int| 0 <= j < kept.len() && kept[j] == lower[k];
        assert(kept[j] != '-');
        let m = choose|m: int| 0 <= m < c.len() && c[m] == kept[j];
        if c.len() > 0 && c.last() == '-' {
            assert(m < c.len() - 1);
            assert(c.drop_last()[m] == c[m]);
        }
    }
    if forall|k: int| 0 <= k < lower.len() ==> !is_ascii_alphanumeric(#[trigger] lower[k]) {
        assert forall|k: int| 0 <= k < kept.len() implies #[trigger] kept[k] == '-' by {
            if kept[k] != '-' {
                assert(is_ascii_alphanumeric(kept[k]));
                let j = choose|j: int| 0 <= j < lower.len() && lower[j] == kept[k];
                assert(!is_ascii_alphanumeric(lower[j]));
            }
        }
    }
}

/// A character of a slug: an ASCII lower-case letter, a digit or a hyphen.
pub open spec fn is_slug_char(c: char) -> bool {
    ('a' <= c && c <= 'z') || ('0' <= c && c <= '9') || c == '-'
}

/// For lower-cased text with no `A`-`Z` left in it, the slug holds only
/// lower-case letters, digits and hyphens, and slugifying the slug again gives
/// it back.
pub proof fn law_slug_shape(lower: Seq<char>)
    requires
        forall|k: int| 0 <= k < lower.len() ==> !is_ascii_upper(#[trigger] lower[k]),
    ensures
        forall|i: int| 0 <= i < slug_of_lowered(lower).len() ==> is_slug_char(#[trigger] slug_of_lowered(lower)[i]),
        forall|i: int| 0 <= i < slug_of_lowered(lower).len() ==> (#[trigger] slug_of_lowered(lower)[i] as u32) < 128,
        slug_of_lowered(ascii_lowered(slug_of_lowered(lower))) == slug_of_lowered(lower),
{
    let l = lower;
    let r = slug_of_lowered(l);
    lemma_slug_kept(l);
    let kept = slug_kept(l);
    lemma_hyphens_collapsed(kept);
    let c = hyphens_collapsed(kept);
    // the characters of the slug come from the lower-cased text, or are hyphens
    assert forall|i: int| 0 <= i < c.len() implies is_slug_char(#[trigger] c[i]) by {
        if c[i] != '-' {
            let j = choose|j: int| 0 <= j < kept.len() && kept[j] == c[i];
            assert(kept[j] != '-');
            assert(is_ascii_alphanumeric(kept[j]));
            let m = choose|m: int| 0 <= m < l.len() && l[m] == kept[j];
            assert(!is_ascii_upper(l[m]));
        }
    }
    assert forall|i: int| 0 <= i < r.len() implies is_slug_char(#[trigger] r[i]) by {
        assert(r[i] == c[i]);
    }
    assert forall|i: int| 0 <= i < r.len() implies (#[trigger] r[i] as u32) < 128 by {
        assert(r[i] == c[i]);
    }
    // lower-casing the slug changes nothing
    assert(ascii_lowered(r) =~= r) by {
        assert forall|i: int| 0 <= i < r.len() implies ascii_lowered(r)[i] == r[i] by {
            assert(r[i] == c[i]);
        }
    }
    // and the slug is its own slug
    assert forall|k: int| 0 <= k < r.len() implies is_ascii_alphanumeric(#[trigger] r[k]) || r[k] == '-' by {
        assert(r[k] == c[k]);
    }
    lemma_slug_kept_id(r);
    assert(r.len() > 0 ==> r[0] != '-') by {
        if r.len() > 0 {
            assert(r[0] == c[0]);
        }
    }
    assert forall|i: int| 0 <= i < r.len() - 1 implies !(#[trigger] r[i] == '-' && r[i + 1] == '-') by {
        assert(r[i] == c[i] && r[i + 1] == c[i + 1]);
    }
    lemma_collapsed_id(r);
    assert(r.len() > 0 ==> r.last() != '-') by {
        if r.len() > 0 && c.len() > 0 && c.last() == '-' {
            assert(r.last() == c[c.len() - 2]);
        }
    }
}

/// For a tag of ASCII characters the slug holds only lower-case letters,
/// digits and hyphens, and slugifying it again gives it back.
pub proof fn law_slug_ascii(tag: Seq<char>)
    requires
        forall|i: int| 0 <= i < tag.len() ==> (#[trigger] tag[i] as u32) < 128,
    ensures
        forall|i: int| 0 <= i < slug_of_lowered(ascii_lowered(tag)).len() ==> is_slug_char(
            #[trigger] slug_of_lowered(ascii_lowered(tag))[i],
        ),
        forall|i: int| 0 <= i < slug_of_lowered(ascii_lowered(tag)).len() ==> (#[trigger] slug_of_lowered(
            ascii_lowered(tag),
        )[i] as u32) < 128,
        slug_of_lowered(ascii_lowered(slug_of_lowered(ascii_lowered(tag)))) == slug_of_lowered(ascii_lowered(tag)),
{
    let l = ascii_lowered(tag);
    assert forall|k: int| 0 <= k < l.len() implies !is_ascii_upper(#[trigger] l[k]) by {
        assert(l[k] == ascii_lower_char(tag[k]));
    }
    law_slug_shape(l);
}

/// Slugifies a tag for paths and URLs: lower case, spaces become hyphens,
/// characters other than ASCII letters, digits and hyphens are dropped, runs
/// of hyphens collapse to one, and leading and trailing hyphens go.
pub fn slugify_tag(tag: &str) -> (r: String)
    ensures
        r@ == slug_of_lowered(lowercase(tag@)),
        (forall|i: int| 0 <= i < tag@.len() ==> (#[trigger] tag@[i] as u32) < 128) ==> r@ == slug_of_lowered(
            ascii_lowered(tag@),
        ),
        r@.len() > 0 ==> r@[0] != '-' && r@.last() != '-',
        forall|i: int| 0 <= i < r@.len() - 1 ==> !(#[trigger] r@[i] == '-' && r@[i + 1] == '-'),
        forall|i: int| 0 <= i < r@.len() ==> is_slug_char(#[trigger] r@[i]),
        forall|i: int| 0 <= i < r@.len() ==> (#[trigger] r@[i] as u32) < 128,
        slug_of_lowered(ascii_lowered(r@)) == r@,
        (r@.len() == 0) == (forall|k: int|
            0 <= k < lowercase(tag@).len() ==> !is_ascii_alphanumeric(#[trigger] lowercase(tag@)[k])),
{
    let lower = str_to_lowercase(tag);
    let v = chars_of(lower.as_str());
    let mut kept: Vec<char> = Vec::new();
    let mut i: usize = 0;
    while i < v.len()
        invariant
            i <= v@.len(),
            kept@ == slug_kept(v@.take(i as int)),
        decreases v@.len() - i,
    {
        assert(v@.take(i + 1).drop_last() =~= v@.take(i as int));
        let c = if v[i] == ' ' {
            '-'
        } else {
            v[i]
        };
        if ('0' <= c && c <= '9') || ('a' <= c && c <= 'z') || ('A' <= c && c <= 'Z') || c == '-' {
            kept.push(c);
        }
        i = i + 1;
    }
    assert(v@.take(v@.len() as int) =~= v@);
    let mut result: Vec<char> = Vec::new();
    let mut prev_hyphen = true;
    let mut j: usize = 0;
    while j < kept.len()
        invariant
            j <= kept@.len(),
            result@ == hyphens_collapsed(kept@.take(j as int)),
            prev_hyphen == (result@.len() == 0 || result@.last() == '-'),
        decreases kept@.len() - j,
    {
        assert(kept@.take(j + 1).drop_last() =~= kept@.take(j as int));
        let c = kept[j];
        if c == '-' {
            if !prev_hyphen {
                result.push('-');
            }
            prev_hyphen = true;
        } else {
            result.push(c);
            prev_hyphen = false;
        }
        j = j + 1;
    }
    assert(kept@.take(kept@.len() as int) =~= kept@);
    proof {
        lemma_hyphens_collapsed(kept@);
        lemma_slug_kept(v@);
    }
    let mut end = result.len();
    if end > 0 && result[end - 1] == '-' {
        end = end - 1;
    }
    let mut out = String::new();
    crate::text::push_range(&mut out, &result, 0, end);
    proof {
        let c = hyphens_collapsed(kept@);
        assert(out@ =~= slug_of_lowered(lower@));
        assert forall|i: int| 0 <= i < out@.len() - 1 implies !(#[trigger] out@[i] == '-' && out@[i + 1] == '-') by {
            assert(out@[i] == c[i] && out@[i + 1] == c[i + 1]);
        }
        law_slug_shape(lower@);
        law_slug_empty(lower@);
    }
    out
}

// ---------------------------------------------------------------------------
// XML escaping for the feed
// ---------------------------------------------------------------------------

/// `s` with `&`, `<`, `>`, `"` and `'` replaced by their XML entities, in that order.
pub open spec fn xml_escaped(s: Seq<char>) -> Seq<char> {
    replaced(
        replaced(
            replaced(replaced(replaced(s, "&"@, "&amp;"@), "<"@, "&lt;"@), ">"@, "&gt;"@),
            "\""@,
            "&quot;"@,
        ),
        "'"@,
        "&apos;"@,
    )
}

/// Escapes text for XML: `&`, `<`, `>`, `"` and `'`.
pub fn xml_escape(s: &str) -> (r: String)
    ensures
        r@ == xml_escaped(s@),
{
    let a = replace_all(s, "&", "&amp;");
    let b = replace_all(a.as_str(), "<", "&lt;");
    let c = replace_all(b.as_str(), ">", "&gt;");
    let d = replace_all(c.as_str(), "\"", "&quot;");
    replace_all(d.as_str(), "'", "&apos;")
}

// ---------------------------------------------------------------------------
// Posts and their metadata
// ---------------------------------------------------------------------------

/// A post ready for the templates.
#[derive(Debug)]
pub struct PostEntry {
    pub slug: String,
    /// Everything `computed.json` holds.
    pub metadata: JsonValue,
    /// The HTML fragment from `content.html`.
    pub content: String,
    /// The post's directory, whose assets are copied.
    pub source_dir: String,
}

/// The value of `key` in an object.
pub open spec fn field(m: JsonValue, key: Seq<char>) -> Option<JsonView> {
    match m {
        JsonValue::Object(o) => lookup(o@, key),
        _ => None,
    }
}

/// The text of `key` in an object, when that value is a string.
pub open spec fn str_field(m: JsonValue, key: Seq<char>) -> Option<Seq<char>> {
    match field(m, key) {
        Some(JsonView::Str(s)) => Some(s),
        _ => None,
    }
}

/// The string elements of `a`, in order.
pub open spec fn strings_in(a: Seq<JsonView>) -> Seq<Seq<char>>
    decreases a.len(),
{
    if a.len() == 0 {
        Seq::empty()
    } else {
        match a.last() {
            JsonView::Str(t) => strings_in(a.drop_last()).push(t),
            _ => strings_in(a.drop_last()),
        }
    }
}

/// The tags of a post: the strings of its `tags` array.
pub open spec fn tags_of(m: JsonValue) -> Seq<Seq<char>> {
    match field(m, "tags"@) {
        Some(JsonView::Array(a)) => strings_in(a),
        _ => Seq::empty(),
    }
}

/// The string value of `key` in `m`, if it has one.
pub fn get_str<'a>(m: &'a JsonValue, key: &str) -> (r: Option<&'a str>)
    ensures
        match r {
            Some(t) => str_field(*m, key@) == Some(t@),
            None => str_field(*m, key@) is None,
        },
{
    match m.get(key) {
        Some(v) => v.as_str(),
        None => None,
    }
}

/// The strings of `a`: the string elements of an array value.
fn strings_of(a: &Vec<JsonValue>) -> (r: Vec<String>)
    ensures
        r@.map_values(|t: String| t@) == strings_in(JsonValue::Array(*a).jview()->Array_0),
{
    let ghost av = JsonValue::Array(*a).jview()->Array_0;
    let mut r: Vec<String> = Vec::new();
    let mut i: usize = 0;
    while i < a.len()
        invariant
            i <= a@.len(),
            av == JsonValue::Array(*a).jview()->Array_0,
            av.len() == a@.len(),
            forall|j: int| 0 <= j < a@.len() ==> #[trigger] av[j] == a@[j].jview(),
            r@.map_values(|t: String| t@) == strings_in(av.take(i as int)),
        decreases a@.len() - i,
    {
        assert(av.take(i + 1).drop_last() =~= av.take(i as int));
        assert(av.take(i + 1).last() == a@[i as int].jview());
        match a[i].as_str() {
            Some(t) => {
                let ghost before = r@.map_values(|t: String| t@);
                r.push(String::from_str(t));
                assert(r@.map_values(|t: String| t@) =~= before.push(t@));
            },
            None => {},
        }
        i = i + 1;
    }
    assert(av.take(a@.len() as int) =~= av);
    r
}

/// The tags of a post's metadata, in order.
pub fn tags_in(m: &JsonValue) -> (r: Vec<String>)
    ensures
        r@.map_values(|t: String| t@) == tags_of(*m),
{
    match m.get("tags") {
        Some(v) => match v.as_array() {
            Some(a) => strings_of(a),
            None => Vec::new(),
        },
        None => Vec::new(),
    }
}

// ---------------------------------------------------------------------------
// Tag counts
// ---------------------------------------------------------------------------

/// All tags of `posts`, post by post, each in the order of its post.
pub open spec fn all_tags(posts: Seq<PostEntry>) -> Seq<Seq<char>>
    decreases posts.len(),
{
    if posts.len() == 0 {
        Seq::empty()
    } else {
        all_tags(posts.drop_last()) + tags_of(posts.last().metadata)
    }
}

/// How often `t` occurs in `s`.
pub open spec fn occurrences(s: Seq<Seq<char>>, t: Seq<char>) -> nat
    decreases s.len(),
{
    if s.len() == 0 {
        0
    } else {
        occurrences(s.drop_last(), t) + if s.last() == t {
            1nat
        } else {
            0nat
        }
    }
}

/// The keys of `e` increase strictly.
pub open spec fn keys_increasing(e: Seq<(String, usize)>) -> bool {
    forall|i: int, j: int| 0 <= i < j < e.len() ==> lex_lt((#[trigger] e[i]).0@, (#[trigger] e[j]).0@)
}

/// The count recorded for `t` in `e` (0 when `t` is not a key).
pub open spec fn count_for(e: Seq<(String, usize)>, t: Seq<char>) -> nat
    decreases e.len(),
{
    if e.len() == 0 {
        0
    } else if e.last().0@ == t {
        e.last().1 as nat
    } else {
        count_for(e.drop_last(), t)
    }
}

pub proof fn lemma_count_for(e: Seq<(String, usize)>, t: Seq<char>, idx: int)
    requires
        keys_increasing(e),
        0 <= idx < e.len(),
        e[idx].0@ == t,
    ensures
        count_for(e, t) == e[idx].1,
    decreases e.len(),
{
    if idx < e.len() - 1 {
        assert(lex_lt(e[idx].0@, e[e.len() - 1].0@));
        lemma_lex_irreflexive(t);
        let p = e.drop_last();
        assert(keys_increasing(p)) by {
            assert forall|i: int, j: int| 0 <= i < j < p.len() implies lex_lt((#[trigger] p[i]).0@, (#[trigger] p[j]).0@) by {
                assert(p[i] == e[i] && p[j] == e[j]);
            }
        }
        lemma_count_for(p, t, idx);
    }
}

/// `count_for` is 0 exactly for the strings that are no key.
pub proof fn lemma_count_for_absent(e: Seq<(String, usize)>, t: Seq<char>)
    requires
        forall|i: int| 0 <= i < e.len() ==> (#[trigger] e[i]).0@ != t,
    ensures
        count_for(e, t) == 0,
    decreases e.len(),
{
    if e.len() > 0 {
        assert(e[e.len() - 1].0@ != t);
        lemma_count_for_absent(e.drop_last(), t);
    }
}

/// Tags with the number of times they occur, ordered by tag.
#[derive(Debug)]
pub struct TagCounts {
    entries: Vec<(String, usize)>,
}

impl TagCounts {
    #[verifier::type_invariant]
    spec fn ordered(self) -> bool {
        keys_increasing(self.entries@)
    }

    /// The (tag, count) entries, ordered by tag.
    pub closed spec fn entries_view(self) -> Seq<(String, usize)> {
        self.entries@
    }

    /// The (tag, count) entries, ordered by tag.
    pub fn entries(&self) -> (r: &Vec<(String, usize)>)
        ensures
            r@ == self.entries_view(),
            keys_increasing(r@),
    {
        proof {
            use_type_invariant(self);
        }
        &self.entries
    }

    /// The number of distinct tags.
    pub fn len(&self) -> (r: usize)
        ensures
            r == self.entries_view().len(),
    {
        self.entries.len()
    }

    /// Whether there is no tag.
    pub fn is_empty(&self) -> (r: bool)
        ensures
            r == (self.entries_view().len() == 0),
    {
        self.entries.len() == 0
    }

    /// The count of `tag`, if it occurs.
    pub fn get(&self, tag: &str) -> (r: Option<&usize>)
        ensures
            r matches Some(n) ==> count_for(self.entries_view(), tag@) == *n,
            r is None ==> count_for(self.entries_view(), tag@) == 0,
    {
        proof {
            use_type_invariant(self);
        }
        let mut i: usize = 0;
        while i < self.entries.len()
            invariant
                i <= self.entries@.len(),
                keys_increasing(self.entries@),
                forall|j: int| 0 <= j < i ==> (#[trigger] self.entries@[j]).0@ != tag@,
            decreases self.entries@.len() - i,
        {
            if str_eq(self.entries[i].0.as_str(), tag) {
                proof {
                    lemma_count_for(self.entries@, tag@, i as int);
                }
                return Some(&self.entries[i].1);
            }
            i = i + 1;
        }
        proof {
            lemma_count_for_absent(self.entries@, tag@);
        }
        None
    }
}

/// Adds one occurrence of `tag` to the ordered counts `e`.
fn count_one(e: &mut Vec<(String, usize)>, tag: &str)
    requires
        keys_increasing(old(e)@),
        count_for(old(e)@, tag@) < usize::MAX,
    ensures
        keys_increasing(final(e)@),
        count_for(final(e)@, tag@) == count_for(old(e)@, tag@) + 1,
        forall|t: Seq<char>| t != tag@ ==> count_for(final(e)@, t) == count_for(old(e)@, t),
        (forall|i: int| 0 <= i < old(e)@.len() ==> (#[trigger] old(e)@[i]).1 > 0) ==> (forall|i: int|
            0 <= i < final(e)@.len() ==> (#[trigger] final(e)@[i]).1 > 0),
{
    let ghost before = e@;
    let mut p: usize = 0;
    while p < e.len() && str_lt(e[p].0.as_str(), tag)
        invariant
            p <= e@.len(),
            e@ == before,
            forall|j: int| 0 <= j < p ==> lex_lt((#[trigger] e@[j]).0@, tag@),
        decreases e@.len() - p,
    {
        p = p + 1;
    }
    if p < e.len() && str_eq(e[p].0.as_str(), tag) {
        proof {
            lemma_count_for(before, tag@, p as int);
        }
        let n = e[p].1;
        let k = e[p].0.clone();
        e.set(p, (k, n + 1));
        proof {
            assert(keys_increasing(e@)) by {
                assert forall|i: int, j: int| 0 <= i < j < e@.len() implies lex_lt(
                    (#[trigger] e@[i]).0@,
                    (#[trigger] e@[j]).0@,
                ) by {
                    assert(e@[i].0@ == before[i].0@ && e@[j].0@ == before[j].0@);
                }
            }
            lemma_count_for(e@, tag@, p as int);
            assert forall|t: Seq<char>| t != tag@ implies count_for(e@, t) == count_for(before, t) by {
                if exists|i: int| 0 <= i < before.len() && (#[trigger] before[i]).0@ == t {
                    let i = choose|i: int| 0 <= i < before.len() && (#[trigger] before[i]).0@ == t;
                    lemma_count_for(before, t, i);
                    assert(e@[i].0@ == t);
                    lemma_count_for(e@, t, i);
                } else {
                    assert forall|i: int| 0 <= i < e@.len() implies (#[trigger] e@[i]).0@ != t by {
                        assert(e@[i].0@ == before[i].0@);
                    }
                    lemma_count_for_absent(e@, t);
                    lemma_count_for_absent(before, t);
                }
            }
        }
    } else {
        proof {
            if p < before.len() {
                lemma_lex_total(before[p as int].0@, tag@);
            }
            assert forall|i: int| 0 <= i < before.len() implies (#[trigger] before[i]).0@ != tag@ by {
                if before[i].0@ == tag@ {
                    if i < p {
                        lemma_lex_irreflexive(tag@);
                    } else if i > p {
                        assert(lex_lt(before[p as int].0@, before[i].0@));
                        lemma_lex_asymmetric(before[p as int].0@, tag@);
                    }
                }
            }
            lemma_count_for_absent(before, tag@);
        }
        e.insert(p, (String::from_str(tag), 1));
        proof {
            assert forall|i: int| 0 <= i < e@.len() implies (i < p ==> e@[i] == before[i]) && (i > p
                ==> e@[i] == before[i - 1]) by {}
            assert(keys_increasing(e@)) by {
                assert forall|i: int, j: int| 0 <= i < j < e@.len() implies lex_lt(
                    (#[trigger] e@[i]).0@,
                    (#[trigger] e@[j]).0@,
                ) by {
                    if i < p && j > p {
                        assert(lex_lt(before[i].0@, tag@));
                        assert(lex_lt(tag@, before[j - 1].0@)) by {
                            if p < before.len() {
                                if j - 1 > p {
                                    assert(lex_lt(before[p as int].0@, before[j - 1].0@));
                                    lemma_lex_transitive(tag@, before[p as int].0@, before[j - 1].0@);
                                }
                            }
                        }
                        lemma_lex_transitive(before[i].0@, tag@, before[j - 1].0@);
                    } else if i == p && j > p {
                        if j - 1 > p {
                            assert(lex_lt(before[p as int].0@, before[j - 1].0@));
                            lemma_lex_transitive(tag@, before[p as int].0@, before[j - 1].0@);
                        }
                    } else if i > p {
                        assert(lex_lt(before[i - 1].0@, before[j - 1].0@));
                    }
                }
            }
            lemma_count_for(e@, tag@, p as int);
            assert forall|t: Seq<char>| t != tag@ implies count_for(e@, t) == count_for(before, t) by {
                if exists|i: int| 0 <= i < before.len() && (#[trigger] before[i]).0@ == t {
                    let i = choose|i: int| 0 <= i < before.len() && (#[trigger] before[i]).0@ == t;
                    lemma_count_for(before, t, i);
                    let k = if i < p { i } else { i + 1 };
                    assert(e@[k].0@ == t);
                    lemma_count_for(e@, t, k);
                } else {
                    assert forall|i: int| 0 <= i < e@.len() implies (#[trigger] e@[i]).0@ != t by {
                        if i < p {
                            assert(e@[i] == before[i]);
                        } else if i > p {
                            assert(e@[i] == before[i - 1]);
                        }
                    }
                    lemma_count_for_absent(e@, t);
                    lemma_count_for_absent(before, t);
                }
            }
        }
    }
}

pub proof fn lemma_occurrences_bound(s: Seq<Seq<char>>, t: Seq<char>)
    ensures
        occurrences(s, t) <= s.len(),
    decreases s.len(),
{
    if s.len() > 0 {
        lemma_occurrences_bound(s.drop_last(), t);
    }
}

pub proof fn lemma_occurrences_append(a: Seq<Seq<char>>, b: Seq<Seq<char>>, t: Seq<char>)
    ensures
        occurrences(a + b, t) == occurrences(a, t) + occurrences(b, t),
    decreases b.len(),
{
    if b.len() > 0 {
        lemma_occurrences_append(a, b.drop_last(), t);
        assert((a + b).drop_last() =~= a + b.drop_last());
    } else {
        assert(a + b =~= a);
    }
}

/// The tags of the entries `e`, in order.
pub open spec fn tag_keys(e: Seq<(String, usize)>) -> Seq<Seq<char>> {
    e.map_values(|p: (String, usize)| p.0@)
}

/// Entries ordered by tag, with positive counts that match the occurrences in
/// `all`, have as keys exactly the tags of `all`, one entry for each distinct
/// tag.
pub proof fn lemma_tag_keys(e: Seq<(String, usize)>, all: Seq<Seq<char>>)
    requires
        keys_increasing(e),
        forall|t: Seq<char>| #[trigger] count_for(e, t) == occurrences(all, t),
        forall|i: int| 0 <= i < e.len() ==> (#[trigger] e[i]).1 > 0,
    ensures
        forall|t: Seq<char>| #[trigger] tag_keys(e).contains(t) == all.contains(t),
        e.len() == all.to_set().len(),
{
    let k = tag_keys(e);
    assert forall|t: Seq<char>| #[trigger] k.contains(t) == all.contains(t) by {
        lemma_occurrences_contains(all, t);
        if k.contains(t) {
            let i = choose|i: int| 0 <= i < k.len() && k[i] == t;
            lemma_count_for(e, t, i);
        }
        if !k.contains(t) {
            assert forall|i: int| 0 <= i < e.len() implies (#[trigger] e[i]).0@ != t by {
                assert(k[i] == e[i].0@);
            }
            lemma_count_for_absent(e, t);
        }
    }
    assert(k.no_duplicates()) by {
        assert forall|i: int, j: int| 0 <= i < k.len() && 0 <= j < k.len() && i != j implies k[i] != k[j] by {
            lemma_lex_irreflexive(k[i]);
            if i < j {
                assert(lex_lt(e[i].0@, e[j].0@));
            } else {
                assert(lex_lt(e[j].0@, e[i].0@));
            }
        }
    }
    k.unique_seq_to_set();
    assert(k.to_set() =~= all.to_set());
}

/// Counts the tags of `posts`: each tag with the number of times it occurs
/// in the posts' `tags` arrays, ordered by tag; one entry for each distinct
/// tag that occurs, and none for anything else.
pub fn collect_tags(posts: &[PostEntry]) -> (r: TagCounts)
    requires
        all_tags(posts@).len() < usize::MAX,
    ensures
        keys_increasing(r.entries_view()),
        forall|t: Seq<char>| #[trigger] count_for(r.entries_view(), t) == occurrences(all_tags(posts@), t),
        forall|i: int| 0 <= i < r.entries_view().len() ==> (#[trigger] r.entries_view()[i]).1 > 0,
        forall|t: Seq<char>| #[trigger] tag_keys(r.entries_view()).contains(t) == all_tags(posts@).contains(t),
        r.entries_view().len() == all_tags(posts@).to_set().len(),
{
    let mut e: Vec<(String, usize)> = Vec::new();
    let mut i: usize = 0;
    while i < posts.len()
        invariant
            i <= posts@.len(),
            all_tags(posts@).len() < usize::MAX,
            keys_increasing(e@),
            forall|t: Seq<char>| #[trigger] count_for(e@, t) == occurrences(all_tags(posts@.take(i as int)), t),
            forall|k: int| 0 <= k < e@.len() ==> (#[trigger] e@[k]).1 > 0,
        decreases posts@.len() - i,
    {
        let tags = tags_in(&posts[i].metadata);
        let ghost done = all_tags(posts@.take(i as int));
        let ghost ts = tags@.map_values(|t: String| t@);
        proof {
            assert(posts@.take(i + 1).drop_last() =~= posts@.take(i as int));
            assert(all_tags(posts@.take(i + 1)) == done + ts);
            lemma_all_tags_prefix(posts@, i + 1);
        }
        let mut j: usize = 0;
        while j < tags.len()
            invariant
                j <= tags@.len(),
                ts == tags@.map_values(|t: String| t@),
                done + ts == all_tags(posts@.take(i + 1)),
                (done + ts).len() <= all_tags(posts@).len(),
                all_tags(posts@).len() < usize::MAX,
                keys_increasing(e@),
                forall|t: Seq<char>| #[trigger] count_for(e@, t) == occurrences(done + ts.take(j as int), t),
                forall|k: int| 0 <= k < e@.len() ==> (#[trigger] e@[k]).1 > 0,
            decreases tags@.len() - j,
        {
            proof {
                let cur = done + ts.take(j as int);
                lemma_occurrences_bound(cur, ts[j as int]);
                assert(cur.len() < (done + ts).len());
                assert((done + ts.take(j + 1)) =~= cur.push(ts[j as int]));
                assert(cur.push(ts[j as int]).drop_last() =~= cur);
            }
            count_one(&mut e, tags[j].as_str());
            j = j + 1;
        }
        assert(ts.take(tags@.len() as int) =~= ts);
        i = i + 1;
    }
    assert(posts@.take(posts@.len() as int) =~= posts@);
    proof {
        lemma_tag_keys(e@, all_tags(posts@));
    }
    TagCounts { entries: e }
}

pub proof fn lemma_all_tags_prefix(posts: Seq<PostEntry>, n: int)
    requires
        0 <= n <= posts.len(),
    ensures
        all_tags(posts.take(n)).len() <= all_tags(posts).len(),
    decreases posts.len() - n,
{
    if n < posts.len() {
        lemma_all_tags_prefix(posts, n + 1);
        assert(posts.take(n + 1).drop_last() =~= posts.take(n));
    } else {
        assert(posts.take(n) =~= posts);
    }
}

// ---------------------------------------------------------------------------
// Posts with a tag
// ---------------------------------------------------------------------------

/// The posts of `posts` that have the tag `t`, in order.
pub open spec fn tagged(posts: Seq<PostEntry>, t: Seq<char>) -> Seq<PostEntry>
    decreases posts.len(),
{
    if posts.len() == 0 {
        Seq::empty()
    } else if tags_of(posts.last().metadata).contains(t) {
        tagged(posts.drop_last(), t).push(posts.last())
    } else {
        tagged(posts.drop_last(), t)
    }
}

proof fn lemma_occurrences_contains(s: Seq<Seq<char>>, t: Seq<char>)
    ensures
        (occurrences(s, t) > 0) == s.contains(t),
    decreases s.len(),
{
    if s.len() > 0 {
        lemma_occurrences_contains(s.drop_last(), t);
        if s.drop_last().contains(t) {
            let j = choose|j: int| 0 <= j < s.drop_last().len() && s.drop_last()[j] == t;
            assert(s[j] == t);
        }
        if s.contains(t) && s.last() != t {
            let j = choose|j: int| 0 <= j < s.len() && s[j] == t;
            assert(s.drop_last()[j] == t);
        }
        if s.last() == t {
            assert(s[s.len() - 1] == t);
        }
    }
}

/// The posts with a tag and the tag's count agree: there are no such posts
/// exactly when the count is 0, never more posts than the count, and as
/// many when no post lists the tag twice.
pub proof fn law_tagged_posts_and_count(posts: Seq<PostEntry>, t: Seq<char>)
    ensures
        (tagged(posts, t).len() == 0) == (occurrences(all_tags(posts), t) == 0),
        tagged(posts, t).len() <= occurrences(all_tags(posts), t),
        (forall|i: int| 0 <= i < posts.len() ==> occurrences(tags_of(#[trigger] posts[i].metadata), t) <= 1) ==> tagged(
            posts,
            t,
        ).len() == occurrences(all_tags(posts), t),
    decreases posts.len(),
{
    if posts.len() > 0 {
        let p = posts.drop_last();
        law_tagged_posts_and_count(p, t);
        let last = tags_of(posts.last().metadata);
        lemma_occurrences_append(all_tags(p), last, t);
        lemma_occurrences_contains(last, t);
        if forall|i: int| 0 <= i < posts.len() ==> occurrences(tags_of(#[trigger] posts[i].metadata), t) <= 1 {
            assert forall|i: int| 0 <= i < p.len() implies occurrences(tags_of(#[trigger] p[i].metadata), t) <= 1 by {
                assert(p[i] == posts[i]);
            }
            assert(occurrences(tags_of(posts[posts.len() - 1].metadata), t) <= 1);
        }
    }
}

/// Whether a post's metadata carries the tag `tag`.
pub fn has_tag(m: &JsonValue, tag: &str) -> (r: bool)
    ensures
        r == tags_of(*m).contains(tag@),
{
    let tags = tags_in(m);
    let ghost ts = tags@.map_values(|t: String| t@);
    let mut i: usize = 0;
    while i < tags.len()
        invariant
            i <= tags@.len(),
            ts == tags@.map_values(|t: String| t@),
            ts == tags_of(*m),
            forall|j: int| 0 <= j < i ==> ts[j] != tag@,
        decreases tags@.len() - i,
    {
        if str_eq(tags[i].as_str(), tag) {
            assert(ts[i as int] == tag@);
            return true;
        }
        i = i + 1;
    }
    assert(!ts.contains(tag@)) by {
        if ts.contains(tag@) {
            let j = choose|j: int| 0 <= j < ts.len() && ts[j] == tag@;
        }
    }
    false
}

/// The posts that have the tag `tag`, in their order.
pub fn posts_with_tag<'a>(posts: &'a [PostEntry], tag: &str) -> (r: Vec<&'a PostEntry>)
    ensures
        r@.map_values(|p: &PostEntry| *p) == tagged(posts@, tag@),
{
    let mut r: Vec<&'a PostEntry> = Vec::new();
    let mut i: usize = 0;
    while i < posts.len()
        invariant
            i <= posts@.len(),
            r@.map_values(|p: &PostEntry| *p) == tagged(posts@.take(i as int), tag@),
        decreases posts@.len() - i,
    {
        assert(posts@.take(i + 1).drop_last() =~= posts@.take(i as int));
        let ghost before = r@.map_values(|p: &PostEntry| *p);
        if has_tag(&posts[i].metadata, tag) {
            r.push(&posts[i]);
            assert(r@.map_values(|p: &PostEntry| *p) =~= before.push(posts@[i as int]));
        }
        i = i + 1;
    }
    assert(posts@.take(posts@.len() as int) =~= posts@);
    r
}

// ---------------------------------------------------------------------------
// Ordering posts by date
// ---------------------------------------------------------------------------

/// The date a post is ordered by: its `date` string, or empty.
pub open spec fn date_key(p: PostEntry) -> Seq<char> {
    match str_field(p.metadata, "date"@) {
        Some(d) => d,
        None => Seq::empty(),
    }
}

/// The posts of `s` whose date key is `k`, in order.
pub open spec fn with_date(s: Seq<PostEntry>, k: Seq<char>) -> Seq<PostEntry>
    decreases s.len(),
{
    if s.len() == 0 {
        Seq::empty()
    } else if date_key(s.last()) == k {
        with_date(s.drop_last(), k).push(s.last())
    } else {
        with_date(s.drop_last(), k)
    }
}

/// Newest first: no post comes before one with a later date.
pub open spec fn newest_first(s: Seq<PostEntry>) -> bool {
    forall|i: int, j: int| 0 <= i < j < s.len() ==> !lex_lt(date_key(#[trigger] s[i]), date_key(#[trigger] s[j]))
}

/// Newest first goes by each post's whole `date` string, a post without one
/// counting as dated "": no post comes before one whose date string is later.
pub proof fn law_newest_first_by_whole_date(s: Seq<PostEntry>)
    requires
        newest_first(s),
    ensures
        forall|i: int, j: int|
            #![trigger s[i], s[j]]
            0 <= i < j < s.len() ==> !lex_lt(
                match str_field(s[i].metadata, "date"@) {
                    Some(d) => d,
                    None => Seq::<char>::empty(),
                },
                match str_field(s[j].metadata, "date"@) {
                    Some(d) => d,
                    None => Seq::<char>::empty(),
                },
            ),
{
    assert forall|i: int, j: int| #![trigger s[i], s[j]] 0 <= i < j < s.len() implies !lex_lt(
        match str_field(s[i].metadata, "date"@) {
            Some(d) => d,
            None => Seq::<char>::empty(),
        },
        match str_field(s[j].metadata, "date"@) {
            Some(d) => d,
            None => Seq::<char>::empty(),
        },
    ) by {
        assert(!lex_lt(date_key(s[i]), date_key(s[j])));
    }
}

pub proof fn lemma_with_date_append(a: Seq<PostEntry>, b: Seq<PostEntry>, k: Seq<char>)
    ensures
        with_date(a + b, k) == with_date(a, k) + with_date(b, k),
    decreases b.len(),
{
    if b.len() > 0 {
        lemma_with_date_append(a, b.drop_last(), k);
        assert((a + b).drop_last() =~= a + b.drop_last());
        assert((a + b).last() == b.last());
    } else {
        assert(a + b =~= a);
        assert(with_date(a, k) + with_date(b, k) =~= with_date(a, k));
    }
}

pub proof fn lemma_with_date_none(s: Seq<PostEntry>, k: Seq<char>)
    requires
        forall|i: int| 0 <= i < s.len() ==> date_key(#[trigger] s[i]) != k,
    ensures
        with_date(s, k) == Seq::<PostEntry>::empty(),
    decreases s.len(),
{
    if s.len() > 0 {
        assert(date_key(s[s.len() - 1]) != k);
        lemma_with_date_none(s.drop_last(), k);
    }
}

/// The date key of a post.
fn post_date(p: &PostEntry) -> (r: &str)
    ensures
        r@ == date_key(*p),
{
    proof {
        reveal_strlit("");
    }
    match get_str(&p.metadata, "date") {
        Some(d) => d,
        None => {
            assert(""@ =~= Seq::<char>::empty());
            ""
        },
    }
}

/// Orders posts newest first by their `date` string (compared as strings),
/// posts with equal dates keeping their order; a post without a date string
/// counts as dated "".
pub fn sort_posts_by_date(posts: &mut Vec<PostEntry>)
    ensures
        newest_first(final(posts)@),
        forall|i: int, j: int|
            #![trigger final(posts)@[i], final(posts)@[j]]
            0 <= i < j < final(posts)@.len() ==> !lex_lt(
                match str_field(final(posts)@[i].metadata, "date"@) {
                    Some(d) => d,
                    None => Seq::<char>::empty(),
                },
                match str_field(final(posts)@[j].metadata, "date"@) {
                    Some(d) => d,
                    None => Seq::<char>::empty(),
                },
            ),
        forall|k: Seq<char>| #[trigger] with_date(final(posts)@, k) == with_date(old(posts)@, k),
        final(posts)@.len() == old(posts)@.len(),
{
    proof {
        reveal_strlit("");
    }
    let ghost orig = posts@;
    let mut sorted: Vec<PostEntry> = Vec::new();
    let mut rest: Vec<PostEntry> = Vec::new();
    std::mem::swap(&mut rest, posts);
    let ghost n = rest@.len();
    assert(orig.take(0) =~= Seq::<PostEntry>::empty());
    while rest.len() > 0
        invariant
            orig == old(posts)@,
            n == orig.len(),
            rest@ == orig.skip(n - rest@.len()),
            rest@.len() <= n,
            sorted@.len() == n - rest@.len(),
            newest_first(sorted@),
            forall|k: Seq<char>| #[trigger] with_date(sorted@, k) == with_date(orig.take(n - rest@.len()), k),
        decreases rest@.len(),
    {
        let ghost done = n - rest@.len();
        let x = rest.remove(0);
        assert(x == orig[done]);
        assert(rest@ =~= orig.skip(n - rest@.len()));
        let kx = post_date(&x);
        let mut p: usize = 0;
        while p < sorted.len() && !str_lt(post_date(&sorted[p]), kx)
            invariant
                p <= sorted@.len(),
                kx@ == date_key(x),
                forall|j: int| 0 <= j < p ==> !lex_lt(date_key(#[trigger] sorted@[j]), kx@),
            decreases sorted@.len() - p,
        {
            p = p + 1;
        }
        let ghost old_sorted = sorted@;
        sorted.insert(p, x);
        proof {
            let kxv = date_key(x);
            assert(sorted@ =~= old_sorted.take(p as int) + seq![x] + old_sorted.skip(p as int));
            // the insertion keeps the order
            assert forall|i: int, j: int| 0 <= i < j < sorted@.len() implies !lex_lt(
                date_key(#[trigger] sorted@[i]),
                date_key(#[trigger] sorted@[j]),
            ) by {
                if i < p && j == p {
                } else if i == p && j > p {
                    // old_sorted[p] < kx, and everything after is no later than it
                    let a = old_sorted[j - 1];
                    if p < old_sorted.len() {
                        assert(lex_lt(date_key(old_sorted[p as int]), kxv));
                        if j - 1 > p {
                            assert(!lex_lt(date_key(old_sorted[p as int]), date_key(a)));
                            lemma_lex_total(date_key(old_sorted[p as int]), date_key(a));
                            if date_key(a) != date_key(old_sorted[p as int]) {
                                lemma_lex_transitive(date_key(a), date_key(old_sorted[p as int]), kxv);
                            }
                        }
                        lemma_lex_asymmetric(date_key(a), kxv);
                    }
                } else if i < p && j > p {
                    assert(!lex_lt(date_key(old_sorted[i]), date_key(old_sorted[j - 1])));
                } else if i > p {
                    assert(!lex_lt(date_key(old_sorted[i - 1]), date_key(old_sorted[j - 1])));
                }
            }
            // no post after the insertion point has the inserted date
            assert forall|j: int| 0 <= j < old_sorted.skip(p as int).len() implies date_key(
                #[trigger] old_sorted.skip(p as int)[j],
            ) != kxv by {
                let a = old_sorted[p + j];
                assert(old_sorted.skip(p as int)[j] == a);
                assert(lex_lt(date_key(old_sorted[p as int]), kxv));
                if j > 0 {
                    assert(!lex_lt(date_key(old_sorted[p as int]), date_key(a)));
                    lemma_lex_total(date_key(old_sorted[p as int]), date_key(a));
                    if date_key(a) != date_key(old_sorted[p as int]) {
                        lemma_lex_transitive(date_key(a), date_key(old_sorted[p as int]), kxv);
                    }
                }
                lemma_lex_irreflexive(kxv);
            }
            lemma_with_date_none(old_sorted.skip(p as int), kxv);
            assert forall|k: Seq<char>| #[trigger] with_date(sorted@, k) == with_date(
                orig.take(done + 1),
                k,
            ) by {
                assert(orig.take(done + 1) =~= orig.take(done).push(x));
                assert(orig.take(done + 1).drop_last() =~= orig.take(done));
                lemma_with_date_append(old_sorted.take(p as int) + seq![x], old_sorted.skip(p as int), k);
                lemma_with_date_append(old_sorted.take(p as int), seq![x], k);
                lemma_with_date_append(old_sorted.take(p as int), old_sorted.skip(p as int), k);
                assert(old_sorted.take(p as int) + old_sorted.skip(p as int) =~= old_sorted);
                assert(seq![x].drop_last() =~= Seq::<PostEntry>::empty());
                assert(seq![x].last() == x);
                assert(with_date(Seq::<PostEntry>::empty(), k) =~= Seq::<PostEntry>::empty());
                assert(with_date(seq![x], k) == if kxv == k {
                    with_date(seq![x].drop_last(), k).push(x)
                } else {
                    with_date(seq![x].drop_last(), k)
                });
                if k != kxv {
                    assert(with_date(seq![x], k) =~= Seq::<PostEntry>::empty());
                } else {
                    assert(with_date(seq![x], k) =~= seq![x]);
                }
            }
        }
    }
    assert(orig.take(n as int) =~= orig);
    proof {
        law_newest_first_by_whole_date(sorted@);
    }
    *posts = sorted;
}


// ---------------------------------------------------------------------------
// Archive grouping
// ---------------------------------------------------------------------------

/// The index of the first '-' of `d` at or after `i` (`d.len()` when none).
pub open spec fn dash_from(d: Seq<char>, i: int) -> int
    decreases d.len() - i,
{
    if i < 0 || i >= d.len() {
        d.len() as int
    } else if d[i] == '-' {
        i
    } else {
        dash_from(d, i + 1)
    }
}

/// The part of a date before its first '-' (all of it when it has none).
pub open spec fn before_dash(d: Seq<char>) -> Seq<char> {
    d.take(dash_from(d, 0))
}

/// The year a post is filed under: its date up to the first '-', or
/// "Unknown" when it has no date string.
pub open spec fn year_of(p: PostEntry) -> Seq<char> {
    match str_field(p.metadata, "date"@) {
        Some(d) => before_dash(d),
        None => "Unknown"@,
    }
}

/// The posts of `s` filed under year `y`, in order.
pub open spec fn with_year(s: Seq<PostEntry>, y: Seq<char>) -> Seq<PostEntry>
    decreases s.len(),
{
    if s.len() == 0 {
        Seq::empty()
    } else if year_of(s.last()) == y {
        with_year(s.drop_last(), y).push(s.last())
    } else {
        with_year(s.drop_last(), y)
    }
}

/// The metadata of each post of `s`.
pub open spec fn metas(s: Seq<PostEntry>) -> Seq<JsonValue> {
    s.map_values(|p: PostEntry| p.metadata)
}

/// The values behind a sequence of references.
pub open spec fn derefs(v: Seq<&JsonValue>) -> Seq<JsonValue> {
    v.map_values(|x: &JsonValue| *x)
}

/// The keys of `e` decrease strictly.
pub open spec fn keys_decreasing<T>(e: Seq<(String, T)>) -> bool {
    forall|i: int, j: int| 0 <= i < j < e.len() ==> lex_lt((#[trigger] e[j]).0@, (#[trigger] e[i]).0@)
}

/// The group filed under `y` in `e` (empty when `y` is not a key).
pub open spec fn group_for(e: Seq<(String, Vec<&JsonValue>)>, y: Seq<char>) -> Seq<JsonValue>
    decreases e.len(),
{
    if e.len() == 0 {
        Seq::empty()
    } else if e.last().0@ == y {
        derefs(e.last().1@)
    } else {
        group_for(e.drop_last(), y)
    }
}

pub proof fn lemma_group_for(e: Seq<(String, Vec<&JsonValue>)>, y: Seq<char>, idx: int)
    requires
        keys_decreasing(e),
        0 <= idx < e.len(),
        e[idx].0@ == y,
    ensures
        group_for(e, y) == derefs(e[idx].1@),
    decreases e.len(),
{
    if idx < e.len() - 1 {
        assert(lex_lt(e[e.len() - 1].0@, e[idx].0@));
        lemma_lex_irreflexive(y);
        let p = e.drop_last();
        assert(keys_decreasing(p)) by {
            assert forall|i: int, j: int| 0 <= i < j < p.len() implies lex_lt((#[trigger] p[j]).0@, (#[trigger] p[i]).0@) by {
                assert(p[i] == e[i] && p[j] == e[j]);
            }
        }
        lemma_group_for(p, y, idx);
    }
}

pub proof fn lemma_group_for_absent(e: Seq<(String, Vec<&JsonValue>)>, y: Seq<char>)
    requires
        forall|i: int| 0 <= i < e.len() ==> (#[trigger] e[i]).0@ != y,
    ensures
        group_for(e, y) == Seq::<JsonValue>::empty(),
    decreases e.len(),
{
    if e.len() > 0 {
        assert(e[e.len() - 1].0@ != y);
        lemma_group_for_absent(e.drop_last(), y);
    }
}

/// Files `m` under `year` in the groups `e`, ordered by decreasing year.
fn add_to_year<'a>(e: &mut Vec<(String, Vec<&'a JsonValue>)>, year: String, m: &'a JsonValue)
    requires
        keys_decreasing(old(e)@),
        forall|i: int| 0 <= i < old(e)@.len() ==> (#[trigger] old(e)@[i]).1@.len() > 0,
    ensures
        keys_decreasing(final(e)@),
        forall|i: int| 0 <= i < final(e)@.len() ==> (#[trigger] final(e)@[i]).1@.len() > 0,
        group_for(final(e)@, year@) == group_for(old(e)@, year@).push(*m),
        forall|t: Seq<char>| t != year@ ==> group_for(final(e)@, t) == group_for(old(e)@, t),
{
    let ghost before = e@;
    let mut p: usize = 0;
    while p < e.len() && str_lt(year.as_str(), e[p].0.as_str())
        invariant
            p <= e@.len(),
            e@ == before,
            forall|j: int| 0 <= j < p ==> lex_lt(year@, (#[trigger] e@[j]).0@),
        decreases e@.len() - p,
    {
        p = p + 1;
    }
    if p < e.len() && str_eq(e[p].0.as_str(), year.as_str()) {
        proof {
            lemma_group_for(before, year@, p as int);
        }
        let (k, mut v) = e.remove(p);
        let ghost old_v = v@;
        v.push(m);
        e.insert(p, (k, v));
        proof {
            assert(e@ =~= before.update(p as int, (k, v)));
            assert(derefs(v@) =~= derefs(old_v).push(*m));
            assert(keys_decreasing(e@)) by {
                assert forall|i: int, j: int| 0 <= i < j < e@.len() implies lex_lt(
                    (#[trigger] e@[j]).0@,
                    (#[trigger] e@[i]).0@,
                ) by {
                    assert(e@[i].0@ == before[i].0@ && e@[j].0@ == before[j].0@);
                }
            }
            assert forall|i: int| 0 <= i < e@.len() implies (#[trigger] e@[i]).1@.len() > 0 by {
                if i != p {
                    assert(e@[i] == before[i]);
                }
            }
            lemma_group_for(e@, year@, p as int);
            assert forall|t: Seq<char>| t != year@ implies group_for(e@, t) == group_for(before, t) by {
                if exists|i: int| 0 <= i < before.len() && (#[trigger] before[i]).0@ == t {
                    let i = choose|i: int| 0 <= i < before.len() && (#[trigger] before[i]).0@ == t;
                    lemma_group_for(before, t, i);
                    assert(e@[i] == before[i]);
                    lemma_group_for(e@, t, i);
                } else {
                    assert forall|i: int| 0 <= i < e@.len() implies (#[trigger] e@[i]).0@ != t by {
                        assert(e@[i].0@ == before[i].0@);
                    }
                    lemma_group_for_absent(e@, t);
                    lemma_group_for_absent(before, t);
                }
            }
        }
    } else {
        proof {
            if p < before.len() {
                lemma_lex_total(before[p as int].0@, year@);
            }
            assert forall|i: int| 0 <= i < before.len() implies (#[trigger] before[i]).0@ != year@ by {
                if before[i].0@ == year@ {
                    if i < p {
                        lemma_lex_irreflexive(year@);
                    } else if i > p {
                        assert(lex_lt(before[i].0@, before[p as int].0@));
                        lemma_lex_asymmetric(before[p as int].0@, year@);
                    }
                }
            }
            lemma_group_for_absent(before, year@);
        }
        let ghost y = year@;
        let mut v: Vec<&'a JsonValue> = Vec::new();
        v.push(m);
        e.insert(p, (year, v));
        proof {
            assert(derefs(v@) =~= Seq::<JsonValue>::empty().push(*m));
            assert forall|i: int| 0 <= i < e@.len() implies (i < p ==> e@[i] == before[i]) && (i > p
                ==> e@[i] == before[i - 1]) by {}
            assert(keys_decreasing(e@)) by {
                assert forall|i: int, j: int| 0 <= i < j < e@.len() implies lex_lt(
                    (#[trigger] e@[j]).0@,
                    (#[trigger] e@[i]).0@,
                ) by {
                    if i < p && j > p {
                        assert(lex_lt(y, before[i].0@));
                        assert(lex_lt(before[j - 1].0@, y)) by {
                            if p < before.len() {
                                if j - 1 > p {
                                    assert(lex_lt(before[j - 1].0@, before[p as int].0@));
                                    lemma_lex_transitive(before[j - 1].0@, before[p as int].0@, y);
                                }
                            }
                        }
                        lemma_lex_transitive(before[j - 1].0@, y, before[i].0@);
                    } else if i == p && j > p {
                        if j - 1 > p {
                            assert(lex_lt(before[j - 1].0@, before[p as int].0@));
                            lemma_lex_transitive(before[j - 1].0@, before[p as int].0@, y);
                        }
                    } else if i > p {
                        assert(lex_lt(before[j - 1].0@, before[i - 1].0@));
                    }
                }
            }
            assert forall|i: int| 0 <= i < e@.len() implies (#[trigger] e@[i]).1@.len() > 0 by {
                if i < p {
                    assert(e@[i] == before[i]);
                } else if i > p {
                    assert(e@[i] == before[i - 1]);
                }
            }
            lemma_group_for(e@, y, p as int);
            assert forall|t: Seq<char>| t != y implies group_for(e@, t) == group_for(before, t) by {
                if exists|i: int| 0 <= i < before.len() && (#[trigger] before[i]).0@ == t {
                    let i = choose|i: int| 0 <= i < before.len() && (#[trigger] before[i]).0@ == t;
                    lemma_group_for(before, t, i);
                    let k = if i < p { i } else { i + 1 };
                    assert(e@[k].0@ == t);
                    lemma_group_for(e@, t, k);
                } else {
                    assert forall|i: int| 0 <= i < e@.len() implies (#[trigger] e@[i]).0@ != t by {
                        if i < p {
                            assert(e@[i] == before[i]);
                        } else if i > p {
                            assert(e@[i] == before[i - 1]);
                        }
                    }
                    lemma_group_for_absent(e@, t);
                    lemma_group_for_absent(before, t);
                }
            }
        }
    }
}

/// The year a post is filed under.
fn post_year(p: &PostEntry) -> (r: String)
    ensures
        r@ == year_of(*p),
{
    match get_str(&p.metadata, "date") {
        Some(d) => {
            let v = chars_of(d);
            let mut i: usize = 0;
            while i < v.len() && v[i] != '-'
                invariant
                    i <= v@.len(),
                    v@ == d@,
                    dash_from(v@, 0) == dash_from(v@, i as int),
                decreases v@.len() - i,
            {
                i = i + 1;
            }
            let r = crate::text::string_of_range(&v, 0, i);
            assert(v@.subrange(0, i as int) =~= v@.take(i as int));
            r
        },
        None => String::from_str("Unknown"),
    }
}

/// Groups the posts' metadata by year (the date up to its first '-', or
/// "Unknown" without a date), newest year first; within a year the posts
/// keep their order.
pub fn group_posts_by_year<'a>(posts: &'a [PostEntry]) -> (r: Vec<(String, Vec<&'a JsonValue>)>)
    ensures
        keys_decreasing(r@),
        forall|y: Seq<char>| #[trigger] group_for(r@, y) == metas(with_year(posts@, y)),
        forall|i: int| 0 <= i < r@.len() ==> (#[trigger] r@[i]).1@.len() > 0,
{
    let mut e: Vec<(String, Vec<&'a JsonValue>)> = Vec::new();
    let mut i: usize = 0;
    while i < posts.len()
        invariant
            i <= posts@.len(),
            keys_decreasing(e@),
            forall|k: int| 0 <= k < e@.len() ==> (#[trigger] e@[k]).1@.len() > 0,
            forall|y: Seq<char>| #[trigger] group_for(e@, y) == metas(with_year(posts@.take(i as int), y)),
        decreases posts@.len() - i,
    {
        let year = post_year(&posts[i]);
        let ghost yv = year@;
        let ghost prev = e@;
        add_to_year(&mut e, year, &posts[i].metadata);
        proof {
            let s = posts@.take(i + 1);
            assert(s.drop_last() =~= posts@.take(i as int));
            assert(s.last() == posts@[i as int]);
            assert forall|y: Seq<char>| #[trigger] group_for(e@, y) == metas(with_year(s, y)) by {
                if y == yv {
                    assert(metas(with_year(s, y)) =~= metas(with_year(posts@.take(i as int), y)).push(
                        posts@[i as int].metadata,
                    ));
                } else {
                    assert(group_for(e@, y) == group_for(prev, y));
                }
            }
        }
        i = i + 1;
    }
    assert(posts@.take(posts@.len() as int) =~= posts@);
    e
}

} // verus!
