//! Index pagination, page addresses, the feed's settings and the other
//! values the site's templates are given.
use vstd::prelude::*;
use crate::compose::{PostEntry, SiteConfig, str_field, get_str};
use crate::json::{JsonValue, JsonView, insert_entry, lookup, has_key, keys_distinct};
use crate::text::{push_char, opt_view};

verus! {

// ---------------------------------------------------------------------------
// Decimal numbers
// ---------------------------------------------------------------------------

/// The decimal digit for `d < 10`.
pub open spec fn digit_char(d: nat) -> char {
    if d == 0 {
        '0'
    } else if d == 1 {
        '1'
    } else if d == 2 {
        '2'
    } else if d == 3 {
        '3'
    } else if d == 4 {
        '4'
    } else if d == 5 {
        '5'
    } else if d == 6 {
        '6'
    } else if d == 7 {
        '7'
    } else if d == 8 {
        '8'
    } else {
        '9'
    }
}

/// The decimal notation of `n`, without leading zeros.
pub open spec fn decimal(n: nat) -> Seq<char>
    decreases n,
{
    if n < 10 {
        seq![digit_char(n)]
    } else {
        decimal(n / 10).push(digit_char(n % 10))
    }
}

fn digit(d: usize) -> (c: char)
    requires
        d < 10,
    ensures
        c == digit_char(d as nat),
{
    if d == 0 {
        '0'
    } else if d == 1 {
        '1'
    } else if d == 2 {
        '2'
    } else if d == 3 {
        '3'
    } else if d == 4 {
        '4'
    } else if d == 5 {
        '5'
    } else if d == 6 {
        '6'
    } else if d == 7 {
        '7'
    } else if d == 8 {
        '8'
    } else {
        '9'
    }
}

/// Appends the decimal notation of `n` to `out`.
pub fn push_decimal(out: &mut String, n: usize)
    ensures
        final(out)@ == old(out)@ + decimal(n as nat),
    decreases n,
{
    if n < 10 {
        push_char(out, digit(n));
        assert(old(out)@.push(digit_char(n as nat)) =~= old(out)@ + seq![digit_char(n as nat)]);
    } else {
        push_decimal(out, n / 10);
        push_char(out, digit(n % 10));
        assert((old(out)@ + decimal((n / 10) as nat)).push(digit_char((n % 10) as nat)) =~= old(out)@
            + decimal((n / 10) as nat).push(digit_char((n % 10) as nat)));
    }
}

// ---------------------------------------------------------------------------
// Pagination
// ---------------------------------------------------------------------------

/// The number of index pages for `total` posts, `per_page` to a page: one
/// page when there are no posts.
pub open spec fn page_count(total: nat, per_page: nat) -> nat {
    if total == 0 {
        1
    } else if total % per_page == 0 {
        total / per_page
    } else {
        total / per_page + 1
    }
}

/// Where the posts of page `n` (from 1) begin.
pub open spec fn page_start(n: nat, per_page: nat) -> nat {
    ((n - 1) * per_page) as nat
}

/// Where the posts of page `n` (from 1) end.
pub open spec fn page_end(n: nat, per_page: nat, total: nat) -> nat {
    if page_start(n, per_page) + per_page <= total {
        page_start(n, per_page) + per_page
    } else {
        total
    }
}

/// The address of index page `n`: "/" for the first, "/page/n/" after.
pub open spec fn page_url(n: nat) -> Seq<char> {
    if n <= 1 {
        "/"@
    } else {
        ("/page/"@ + decimal(n)).push('/')
    }
}

/// The directory of index page `n` below the output: the output itself for
/// the first page, "page/n" after.
pub open spec fn page_dir(n: nat) -> Seq<char> {
    if n <= 1 {
        Seq::empty()
    } else {
        "page/"@ + decimal(n)
    }
}

/// One index page: its number, the posts it shows (`start..end` of the
/// ordered posts), its address and directory, and its neighbours.
#[derive(Debug)]
pub struct PageInfo {
    pub current: usize,
    pub total_pages: usize,
    pub start: usize,
    pub end: usize,
    pub prev_url: Option<String>,
    pub next_url: Option<String>,
    pub current_url: String,
    pub dir: String,
}

/// What page `n` of `count` pages holds.
pub open spec fn page_matches(p: PageInfo, n: nat, count: nat, per_page: nat, total: nat) -> bool {
    &&& p.current == n
    &&& p.total_pages == count
    &&& p.start == page_start(n, per_page)
    &&& p.end == page_end(n, per_page, total)
    &&& p.current_url@ == page_url(n)
    &&& p.dir@ == page_dir(n)
    &&& opt_view(&p.prev_url) == if n == 1 {
        None
    } else {
        Some(page_url((n - 1) as nat))
    }
    &&& opt_view(&p.next_url) == if n < count {
        Some(page_url(n + 1))
    } else {
        None
    }
}

proof fn lemma_page_start_below(total: nat, per_page: nat, i: nat)
    requires
        per_page > 0,
        total > 0,
        i < page_count(total, per_page),
    ensures
        i * per_page < total,
{
    let q = total / per_page;
    let r = total % per_page;
    vstd::arithmetic::div_mod::lemma_fundamental_div_mod(total as int, per_page as int);
    assert(total == per_page * q + r);
    if r == 0 {
        assert(i + 1 <= q);
        assert(i * per_page + per_page <= q * per_page) by (nonlinear_arith)
            requires
                i + 1 <= q,
                per_page > 0,
        ;
    } else {
        assert(i <= q);
        assert(i * per_page <= q * per_page) by (nonlinear_arith)
            requires
                i <= q,
                per_page > 0,
        ;
    }
}

proof fn lemma_page_count_bound(total: nat, per_page: nat)
    requires
        per_page > 0,
    ensures
        page_count(total, per_page) <= if total == 0 {
            1
        } else {
            total
        },
        page_count(total, per_page) >= 1,
{
    vstd::arithmetic::div_mod::lemma_fundamental_div_mod(total as int, per_page as int);
    let q = total / per_page;
    let r = total % per_page;
    if total > 0 {
        assert(q <= total) by (nonlinear_arith)
            requires
                total == per_page * q + r,
                per_page > 0,
                r >= 0,
                q >= 0,
        ;
        if r != 0 {
            assert(q + 1 <= total) by (nonlinear_arith)
                requires
                    total == per_page * q + r,
                    per_page > 0,
                    r > 0,
                    q >= 0,
            ;
        } else {
            assert(q >= 1) by (nonlinear_arith)
                requires
                    total == per_page * q + r,
                    r == 0,
                    total > 0,
                    q >= 0,
            ;
        }
    }
}

/// Page `n` of the `count` pages shows a range of the posts.
pub proof fn lemma_page_within(total: nat, per_page: nat, n: nat, count: nat)
    requires
        count == page_count(total, per_page),
        1 <= n <= count,
        total > 0 ==> per_page > 0,
    ensures
        page_start(n, per_page) <= page_end(n, per_page, total) <= total,
{
    if total > 0 {
        lemma_page_start_below(total, per_page, (n - 1) as nat);
    } else {
        assert(n == 1);
    }
}

/// The address of index page `n`.
fn page_url_of(n: usize) -> (r: String)
    ensures
        r@ == page_url(n as nat),
{
    if n <= 1 {
        String::from_str("/")
    } else {
        let mut r = String::from_str("/page/");
        push_decimal(&mut r, n);
        push_char(&mut r, '/');
        r
    }
}

/// The directory of index page `n`.
fn page_dir_of(n: usize) -> (r: String)
    ensures
        r@ == page_dir(n as nat),
{
    if n <= 1 {
        let r = String::new();
        assert(r@ =~= Seq::<char>::empty());
        r
    } else {
        let mut r = String::from_str("page/");
        push_decimal(&mut r, n);
        r
    }
}

/// The number of index pages for `total` posts, `per_page` to a page.
pub fn total_pages(total: usize, per_page: usize) -> (r: usize)
    requires
        total > 0 ==> per_page > 0,
    ensures
        r == page_count(total as nat, per_page as nat),
{
    if total == 0 {
        1
    } else if total % per_page == 0 {
        total / per_page
    } else {
        proof {
            lemma_page_count_bound(total as nat, per_page as nat);
        }
        total / per_page + 1
    }
}

/// The index pages for `total` ordered posts, `per_page` to a page.
pub fn paginate(total: usize, per_page: usize) -> (r: Vec<PageInfo>)
    requires
        total > 0 ==> per_page > 0,
    ensures
        r@.len() == page_count(total as nat, per_page as nat),
        forall|i: int| 0 <= i < r@.len() ==> page_matches(#[trigger] r@[i], (i + 1) as nat, r@.len(), per_page as nat, total as nat),
{
    let count = total_pages(total, per_page);
    let mut r: Vec<PageInfo> = Vec::new();
    let mut i: usize = 0;
    while i < count
        invariant
            total > 0 ==> per_page > 0,
            count == page_count(total as nat, per_page as nat),
            i <= count,
            r@.len() == i,
            forall|k: int| 0 <= k < i ==> page_matches(#[trigger] r@[k], (k + 1) as nat, count as nat, per_page as nat, total as nat),
        decreases count - i,
    {
        let n = i + 1;
        let start: usize = if total == 0 {
            0
        } else {
            proof {
                lemma_page_start_below(total as nat, per_page as nat, i as nat);
            }
            i * per_page
        };
        let end: usize = if total - start >= per_page {
            start + per_page
        } else {
            total
        };
        let prev_url = if n == 1 {
            None
        } else {
            Some(page_url_of(n - 1))
        };
        let next_url = if n < count {
            Some(page_url_of(n + 1))
        } else {
            None
        };
        let page = PageInfo {
            current: n,
            total_pages: count,
            start,
            end,
            prev_url,
            next_url,
            current_url: page_url_of(n),
            dir: page_dir_of(n),
        };
        proof {
            if total == 0 {
                assert(i == 0);
            }
        }
        r.push(page);
        i = i + 1;
    }
    r
}

/// The index pages follow each other without gap or overlap: the first
/// begins at the first post, each ends where the next begins, the last ends
/// at the last post, and every page of a non-empty site shows a post.
pub proof fn law_pages_partition(total: nat, per_page: nat)
    requires
        per_page > 0,
        total > 0,
    ensures
        page_start(1, per_page) == 0,
        page_end(page_count(total, per_page), per_page, total) == total,
        forall|n: nat| 1 <= n < page_count(total, per_page) ==> #[trigger] page_end(n, per_page, total) == page_start(n + 1, per_page),
        forall|n: nat| 1 <= n <= page_count(total, per_page) ==> page_start(n, per_page) < #[trigger] page_end(n, per_page, total),
{
    let count = page_count(total, per_page);
    lemma_page_count_bound(total, per_page);
    vstd::arithmetic::div_mod::lemma_fundamental_div_mod(total as int, per_page as int);
    let q = total / per_page;
    let r = total % per_page;
    assert(page_start(1, per_page) == 0);
    assert forall|n: nat| 1 <= n <= count implies page_start(n, per_page) < #[trigger] page_end(n, per_page, total) by {
        lemma_page_start_below(total, per_page, (n - 1) as nat);
    }
    assert forall|n: nat| 1 <= n < count implies #[trigger] page_end(n, per_page, total) == page_start(n + 1, per_page) by {
        lemma_page_start_below(total, per_page, n);
        assert(page_start(n + 1, per_page) == (n - 1) * per_page + per_page) by (nonlinear_arith)
            requires
                n >= 1,
        ;
    }
    // the last page reaches the end
    let last = count;
    lemma_page_start_below(total, per_page, (last - 1) as nat);
    if r == 0 {
        assert(last == q);
        assert((q - 1) * per_page + per_page == per_page * q) by (nonlinear_arith)
            requires
                q >= 1,
        ;
    } else {
        assert(last == q + 1);
        assert(q * per_page + per_page > total) by (nonlinear_arith)
            requires
                total == per_page * q + r,
                r < per_page,
        ;
    }
}


// ---------------------------------------------------------------------------
// Addresses and slugs
// ---------------------------------------------------------------------------

/// "/posts/{slug}/": the address of a post's page.
pub fn post_url(slug: &str) -> (r: String)
    ensures
        r@ == ("/posts/"@ + slug@).push('/'),
{
    let mut r = String::from_str("/posts/");
    r.append(slug);
    push_char(&mut r, '/');
    r
}

/// "/tags/{slug}/": the address of a tag's page.
pub fn tag_url(tag_slug: &str) -> (r: String)
    ensures
        r@ == ("/tags/"@ + tag_slug@).push('/'),
{
    let mut r = String::from_str("/tags/");
    r.append(tag_slug);
    push_char(&mut r, '/');
    r
}

/// `o`'s text, or `d` when there is none.
pub open spec fn or_default(o: Option<Seq<char>>, d: Seq<char>) -> Seq<char> {
    match o {
        Some(s) => s,
        None => d,
    }
}

/// A post's slug: the `slug` string of its metadata, or else the name of
/// its directory.
pub fn post_slug(metadata: &JsonValue, dir_name: &str) -> (r: String)
    ensures
        r@ == or_default(str_field(*metadata, "slug"@), dir_name@),
{
    match get_str(metadata, "slug") {
        Some(s) => String::from_str(s),
        None => String::from_str(dir_name),
    }
}

// ---------------------------------------------------------------------------
// Template values
// ---------------------------------------------------------------------------

/// `r` is what a post's page and feed entry are given for `p`: its
/// metadata, with its HTML fragment set under "content" when the metadata is
/// an object.
pub open spec fn is_post_context(r: JsonValue, p: PostEntry) -> bool {
    match p.metadata {
        JsonValue::Object(o) => (r matches JsonValue::Object(ro) && lookup(ro@, "content"@) == Some(
            JsonView::Str(p.content@),
        ) && (forall|k: Seq<char>| k != "content"@ ==> #[trigger] lookup(ro@, k) == lookup(o@, k)) && (forall|
            k: Seq<char>,
        | #[trigger] has_key(ro@, k) <==> has_key(o@, k) || k == "content"@) && (keys_distinct(o@)
            ==> keys_distinct(ro@))),
        _ => r.jview() == p.metadata.jview(),
    }
}

/// What a post's page and its feed entry are given: its metadata, with its
/// HTML fragment under "content" when the metadata is an object.
pub fn post_context(p: &PostEntry) -> (r: JsonValue)
    ensures
        is_post_context(r, *p),
{
    let m = p.metadata.deep_clone();
    match m {
        JsonValue::Object(mut entries) => {
            proof {
                let o = p.metadata->Object_0;
                assert(p.metadata.jview()->Object_0.len() == o@.len());
                assert(entries@.len() == o@.len());
                assert forall|i: int| 0 <= i < entries@.len() implies (#[trigger] entries@[i]).0@ == o@[i].0@
                    && entries@[i].1.jview() == o@[i].1.jview() by {
                    assert(m.jview()->Object_0[i] == p.metadata.jview()->Object_0[i]);
                }
                crate::json::lemma_same_entries(entries@, o@);
            }
            insert_entry(&mut entries, String::from_str("content"), JsonValue::Str(p.content.clone()));
            JsonValue::Object(entries)
        },
        other => other,
    }
}

/// The view of the tag counts `e` as an object, tag to count.
pub open spec fn tags_view(e: Seq<(String, usize)>) -> JsonView {
    JsonView::Object(
        Seq::new(e.len(), |i: int| (e[i].0@, JsonView::UInt(e[i].1 as u64))),
    )
}

/// The tag counts as a JSON object, tag to count, in tag order.
pub fn tags_json(t: &crate::compose::TagCounts) -> (r: JsonValue)
    ensures
        r.jview() == tags_view(t.entries_view()),
        r matches JsonValue::Object(o) && o@.len() == t.entries_view().len() && (forall|i: int|
            0 <= i < o@.len() ==> (#[trigger] o@[i]).0@ == t.entries_view()[i].0@ && o@[i].1 == JsonValue::UInt(
                t.entries_view()[i].1 as u64,
            )),
{
    let e = t.entries();
    let mut o: Vec<(String, JsonValue)> = Vec::new();
    let mut i: usize = 0;
    while i < e.len()
        invariant
            i <= e@.len(),
            e@ == t.entries_view(),
            o@.len() == i,
            forall|j: int| 0 <= j < i ==> (#[trigger] o@[j]).0@ == e@[j].0@ && o@[j].1 == JsonValue::UInt(e@[j].1 as u64),
        decreases e@.len() - i,
    {
        let n = e[i].1 as u64;
        o.push((e[i].0.clone(), JsonValue::UInt(n)));
        i = i + 1;
    }
    let r = JsonValue::Object(o);
    assert(r.jview()->Object_0 =~= tags_view(e@)->Object_0) by {
        assert forall|j: int| 0 <= j < o@.len() implies r.jview()->Object_0[j] == tags_view(e@)->Object_0[j] by {
            assert(o@[j].1.jview() == JsonView::UInt(e@[j].1 as u64));
        }
    }
    r
}

/// The views of a sequence of values.
pub open spec fn views(s: Seq<JsonValue>) -> Seq<JsonView> {
    s.map_values(|v: JsonValue| v.jview())
}

/// An archive entry: {"year": year, "posts": [the year's posts]}.
pub open spec fn archive_entry(v: JsonValue, year: Seq<char>, posts: Seq<JsonValue>) -> bool {
    v matches JsonValue::Object(o) && o@.len() == 2 && o@[0].0@ == "year"@ && o@[0].1.jview() == JsonView::Str(
        year,
    ) && o@[1].0@ == "posts"@ && o@[1].1.jview() == JsonView::Array(views(posts))
}

/// The archive's year groups as JSON values, in the groups' order.
pub fn archive_json(groups: &Vec<(String, Vec<&JsonValue>)>) -> (r: Vec<JsonValue>)
    ensures
        r@.len() == groups@.len(),
        forall|i: int| 0 <= i < r@.len() ==> archive_entry(#[trigger] r@[i], groups@[i].0@, crate::compose::derefs(groups@[i].1@)),
{
    let mut r: Vec<JsonValue> = Vec::new();
    let mut i: usize = 0;
    while i < groups.len()
        invariant
            i <= groups@.len(),
            r@.len() == i,
            forall|j: int| 0 <= j < i ==> archive_entry(#[trigger] r@[j], groups@[j].0@, crate::compose::derefs(groups@[j].1@)),
        decreases groups@.len() - i,
    {
        let g = &groups[i].1;
        let mut a: Vec<JsonValue> = Vec::new();
        let mut j: usize = 0;
        while j < g.len()
            invariant
                j <= g@.len(),
                a@.len() == j,
                forall|k: int| 0 <= k < j ==> (#[trigger] a@[k]).jview() == g@[k].jview(),
            decreases g@.len() - j,
        {
            a.push(g[j].deep_clone());
            j = j + 1;
        }
        let posts = JsonValue::Array(a);
        let year = JsonValue::Str(groups[i].0.clone());
        let mut o: Vec<(String, JsonValue)> = Vec::new();
        o.push((String::from_str("year"), year));
        o.push((String::from_str("posts"), posts));
        let entry = JsonValue::Object(o);
        proof {
            let ds = crate::compose::derefs(groups@[i as int].1@);
            assert(posts.jview()->Array_0 =~= views(ds)) by {
                assert forall|k: int| 0 <= k < ds.len() implies posts.jview()->Array_0[k] == views(ds)[k] by {
                    assert(a@[k].jview() == g@[k].jview());
                }
            }
        }
        r.push(entry);
        i = i + 1;
    }
    r
}

// ---------------------------------------------------------------------------
// The feed
// ---------------------------------------------------------------------------

/// What the Atom feed is rendered from.
#[derive(Debug)]
pub struct FeedSettings {
    pub title: String,
    pub description: String,
    pub author_name: String,
    pub author_email: String,
    /// How many of the newest posts the feed lists.
    pub post_count: usize,
    /// The feed's `updated` time.
    pub updated: String,
}

/// The feed's `updated` time: the first post's date at midnight UTC, or the
/// epoch when there is no such date.
pub open spec fn feed_updated(posts: Seq<PostEntry>) -> Seq<char> {
    if posts.len() > 0 && str_field(posts[0].metadata, "date"@) is Some {
        str_field(posts[0].metadata, "date"@).unwrap() + "T00:00:00Z"@
    } else {
        "1970-01-01T00:00:00Z"@
    }
}

/// The feed is written when the configuration enables it.
pub open spec fn feed_enabled(site: SiteConfig) -> bool {
    site.feed matches Some(f) && f.enable
}

/// `fs` are the feed's settings for `site` and the ordered `posts`: the
/// feed's title, or else the site's name; its description, the author's
/// name and e-mail, or else empty; at most 20 posts; and the first post's
/// date as the update time.
pub open spec fn feed_settings_are(fs: FeedSettings, site: SiteConfig, posts: Seq<PostEntry>) -> bool {
    let f = site.feed.unwrap();
    &&& fs.title@ == or_default(opt_view(&f.title), site.site_name@)
    &&& fs.description@ == or_default(opt_view(&f.description), Seq::empty())
    &&& fs.author_name@ == match site.author {
        Some(a) => a.name@,
        None => Seq::empty(),
    }
    &&& fs.author_email@ == match site.author {
        Some(a) => or_default(opt_view(&a.email), Seq::empty()),
        None => Seq::empty(),
    }
    &&& fs.post_count == if posts.len() < 20 {
        posts.len()
    } else {
        20
    }
    &&& fs.updated@ == feed_updated(posts)
}

/// The feed's settings for the ordered `posts`, or `None` when the feed is
/// not enabled.
pub fn feed_settings(site: &SiteConfig, posts: &[PostEntry]) -> (r: Option<FeedSettings>)
    ensures
        r is Some <==> feed_enabled(*site),
        r matches Some(fs) ==> feed_settings_are(fs, *site, posts@),
{
    let f = match &site.feed {
        Some(f) => f,
        None => {
            return None;
        },
    };
    if !f.enable {
        return None;
    }
    let title = match &f.title {
        Some(t) => t.clone(),
        None => site.site_name.clone(),
    };
    let description = match &f.description {
        Some(d) => d.clone(),
        None => String::new(),
    };
    let author_name = match &site.author {
        Some(a) => a.name.clone(),
        None => String::new(),
    };
    let author_email = match &site.author {
        Some(a) => match &a.email {
            Some(e) => e.clone(),
            None => String::new(),
        },
        None => String::new(),
    };
    let post_count = if posts.len() < 20 {
        posts.len()
    } else {
        20
    };
    let date = if posts.len() > 0 {
        get_str(&posts[0].metadata, "date")
    } else {
        None
    };
    let updated = match date {
        Some(d) => {
            let mut u = String::from_str(d);
            u.append("T00:00:00Z");
            u
        },
        None => String::from_str("1970-01-01T00:00:00Z"),
    };
    Some(FeedSettings { title, description, author_name, author_email, post_count, updated })
}


// ---------------------------------------------------------------------------
// The values each template is given
// ---------------------------------------------------------------------------

/// The `i`-th entry of an object is `key` with a value of view `v`.
pub open spec fn entry_is(o: Seq<(String, JsonValue)>, i: int, key: Seq<char>, v: JsonView) -> bool {
    0 <= i < o.len() && o[i].0@ == key && o[i].1.jview() == v
}

/// The directory of a post's page below the output: "posts/{slug}".
pub fn post_dir(slug: &str) -> (r: String)
    ensures
        r@ == "posts/"@ + slug@,
{
    let mut r = String::from_str("posts/");
    r.append(slug);
    r
}

/// The directory of a tag's page below the output: "tags/{tag_slug}".
pub fn tag_dir(tag_slug: &str) -> (r: String)
    ensures
        r@ == "tags/"@ + tag_slug@,
{
    let mut r = String::from_str("tags/");
    r.append(tag_slug);
    r
}

/// The metadata of each of `posts`, as an array value.
fn metadata_array(posts: &[PostEntry], from: usize, to: usize) -> (r: JsonValue)
    requires
        from <= to <= posts@.len(),
    ensures
        r.jview() == JsonView::Array(views(crate::compose::metas(posts@.subrange(from as int, to as int)))),
{
    let mut a: Vec<JsonValue> = Vec::new();
    let mut i = from;
    while i < to
        invariant
            from <= i <= to <= posts@.len(),
            a@.len() == i - from,
            forall|k: int| 0 <= k < a@.len() ==> (#[trigger] a@[k]).jview() == posts@[from + k].metadata.jview(),
        decreases to - i,
    {
        a.push(posts[i].metadata.deep_clone());
        i = i + 1;
    }
    let r = JsonValue::Array(a);
    assert(r.jview()->Array_0 =~= views(crate::compose::metas(posts@.subrange(from as int, to as int))));
    r
}

/// The metadata of each of the referenced posts, as an array value.
fn metadata_of_refs(posts: &Vec<&PostEntry>) -> (r: JsonValue)
    ensures
        r.jview() == JsonView::Array(views(crate::compose::metas(posts@.map_values(|p: &PostEntry| *p)))),
{
    let mut a: Vec<JsonValue> = Vec::new();
    let mut i: usize = 0;
    while i < posts.len()
        invariant
            i <= posts@.len(),
            a@.len() == i,
            forall|k: int| 0 <= k < a@.len() ==> (#[trigger] a@[k]).jview() == posts@[k].metadata.jview(),
        decreases posts@.len() - i,
    {
        a.push(posts[i].metadata.deep_clone());
        i = i + 1;
    }
    let r = JsonValue::Array(a);
    assert(r.jview()->Array_0 =~= views(crate::compose::metas(posts@.map_values(|p: &PostEntry| *p))));
    r
}

/// An optional string as a value: the string, or null.
fn opt_str_json(o: &Option<String>) -> (r: JsonValue)
    ensures
        r.jview() == match opt_view(o) {
            Some(s) => JsonView::Str(s),
            None => JsonView::Null,
        },
{
    match o {
        Some(s) => JsonValue::Str(s.clone()),
        None => JsonValue::Null,
    }
}

/// `r` is what a post's page ("post.html") is given: {"site", "current_url":
/// "/posts/{slug}/", "tags", "post": the post's metadata with its content}.
pub open spec fn post_page_is(r: JsonValue, site: JsonView, tags: JsonView, post: PostEntry) -> bool {
    r matches JsonValue::Object(o) && o@.len() == 4 && entry_is(o@, 0, "site"@, site) && entry_is(
        o@,
        1,
        "current_url"@,
        JsonView::Str(("/posts/"@ + post.slug@).push('/')),
    ) && entry_is(o@, 2, "tags"@, tags) && o@[3].0@ == "post"@ && is_post_context(o@[3].1, post)
}

/// What a post's page ("post.html") is given (see `post_page_is`).
pub fn post_page_context(site: &JsonValue, tags: &JsonValue, post: &PostEntry) -> (r: JsonValue)
    ensures
        post_page_is(r, site.jview(), tags.jview(), *post),
{
    let mut o: Vec<(String, JsonValue)> = Vec::new();
    o.push((String::from_str("site"), site.deep_clone()));
    o.push((String::from_str("current_url"), JsonValue::Str(post_url(post.slug.as_str()))));
    o.push((String::from_str("tags"), tags.deep_clone()));
    o.push((String::from_str("post"), post_context(post)));
    JsonValue::Object(o)
}

/// `r` is what index page `n` of `count` ("index.html") is given for the
/// ordered `posts`, `per_page` to a page: {"site", "current_url", "posts":
/// the metadata of the page's posts, "pagination": {"current",
/// "total_pages", "prev_url", "next_url"}, "tags"}.
pub open spec fn index_page_is(
    r: JsonValue,
    site: JsonView,
    tags: JsonView,
    posts: Seq<PostEntry>,
    n: nat,
    count: nat,
    per_page: nat,
) -> bool {
    r matches JsonValue::Object(o) && o@.len() == 5 && entry_is(o@, 0, "site"@, site) && entry_is(
        o@,
        1,
        "current_url"@,
        JsonView::Str(page_url(n)),
    ) && entry_is(
        o@,
        2,
        "posts"@,
        JsonView::Array(
            views(
                crate::compose::metas(
                    posts.subrange(page_start(n, per_page) as int, page_end(n, per_page, posts.len()) as int),
                ),
            ),
        ),
    ) && entry_is(
        o@,
        3,
        "pagination"@,
        JsonView::Object(
            seq![
                ("current"@, JsonView::UInt(n as u64)),
                ("total_pages"@, JsonView::UInt(count as u64)),
                ("prev_url"@, if n == 1 {
                    JsonView::Null
                } else {
                    JsonView::Str(page_url((n - 1) as nat))
                }),
                ("next_url"@, if n < count {
                    JsonView::Str(page_url(n + 1))
                } else {
                    JsonView::Null
                }),
            ],
        ),
    ) && entry_is(o@, 4, "tags"@, tags)
}

/// What index page `page` ("index.html") is given: {"site", "current_url",
/// "posts": the metadata of the page's posts, "pagination": {"current",
/// "total_pages", "prev_url", "next_url"}, "tags"}.
pub fn index_page_context(site: &JsonValue, tags: &JsonValue, posts: &[PostEntry], page: &PageInfo) -> (r: JsonValue)
    requires
        page.start <= page.end <= posts@.len(),
    ensures
        r matches JsonValue::Object(o) && o@.len() == 5 && entry_is(o@, 0, "site"@, site.jview()) && entry_is(
            o@,
            1,
            "current_url"@,
            JsonView::Str(page.current_url@),
        ) && entry_is(
            o@,
            2,
            "posts"@,
            JsonView::Array(views(crate::compose::metas(posts@.subrange(page.start as int, page.end as int)))),
        ) && entry_is(
            o@,
            3,
            "pagination"@,
            JsonView::Object(
                seq![
                    ("current"@, JsonView::UInt(page.current as u64)),
                    ("total_pages"@, JsonView::UInt(page.total_pages as u64)),
                    ("prev_url"@, match opt_view(&page.prev_url) {
                        Some(s) => JsonView::Str(s),
                        None => JsonView::Null,
                    }),
                    ("next_url"@, match opt_view(&page.next_url) {
                        Some(s) => JsonView::Str(s),
                        None => JsonView::Null,
                    }),
                ],
            ),
        ) && entry_is(o@, 4, "tags"@, tags.jview()),
{
    let current = page.current as u64;
    let total = page.total_pages as u64;
    let mut pg: Vec<(String, JsonValue)> = Vec::new();
    pg.push((String::from_str("current"), JsonValue::UInt(current)));
    pg.push((String::from_str("total_pages"), JsonValue::UInt(total)));
    pg.push((String::from_str("prev_url"), opt_str_json(&page.prev_url)));
    pg.push((String::from_str("next_url"), opt_str_json(&page.next_url)));
    let pagination = JsonValue::Object(pg);
    let mut o: Vec<(String, JsonValue)> = Vec::new();
    o.push((String::from_str("site"), site.deep_clone()));
    o.push((String::from_str("current_url"), JsonValue::Str(page.current_url.clone())));
    o.push((String::from_str("posts"), metadata_array(posts, page.start, page.end)));
    o.push((String::from_str("pagination"), pagination));
    o.push((String::from_str("tags"), tags.deep_clone()));
    let r = JsonValue::Object(o);
    let ghost pv = pagination.jview()->Object_0;
    assert(pv.len() == 4);
    assert(pg@[0].1.jview() == JsonView::UInt(current));
    assert(pg@[1].1.jview() == JsonView::UInt(total));
    assert(pv[0] == ("current"@, JsonView::UInt(page.current as u64)));
    assert(pv[1] == ("total_pages"@, JsonView::UInt(page.total_pages as u64)));
    assert(pv[2].0 == "prev_url"@);
    assert(pv[3].0 == "next_url"@);
    assert(pagination.jview()->Object_0 =~= seq![
        ("current"@, JsonView::UInt(page.current as u64)),
        ("total_pages"@, JsonView::UInt(page.total_pages as u64)),
        ("prev_url"@, match opt_view(&page.prev_url) {
            Some(s) => JsonView::Str(s),
            None => JsonView::Null,
        }),
        ("next_url"@, match opt_view(&page.next_url) {
            Some(s) => JsonView::Str(s),
            None => JsonView::Null,
        }),
    ]);
    r
}

/// `r` is what a tag's page ("tag.html") is given: {"site", "current_url":
/// "/tags/{tag_slug}/", "tag_name", "tag_slug", "posts": the metadata of
/// the tagged posts, "tags"}.
pub open spec fn tag_page_is(
    r: JsonValue,
    site: JsonView,
    tags: JsonView,
    tag: Seq<char>,
    tag_slug: Seq<char>,
    tagged: Seq<PostEntry>,
) -> bool {
    r matches JsonValue::Object(o) && o@.len() == 6 && entry_is(o@, 0, "site"@, site) && entry_is(
        o@,
        1,
        "current_url"@,
        JsonView::Str(("/tags/"@ + tag_slug).push('/')),
    ) && entry_is(o@, 2, "tag_name"@, JsonView::Str(tag)) && entry_is(o@, 3, "tag_slug"@, JsonView::Str(tag_slug))
        && entry_is(o@, 4, "posts"@, JsonView::Array(views(crate::compose::metas(tagged)))) && entry_is(
        o@,
        5,
        "tags"@,
        tags,
    )
}

/// What a tag's page ("tag.html") is given (see `tag_page_is`).
pub fn tag_page_context(
    site: &JsonValue,
    tags: &JsonValue,
    tag: &str,
    tag_slug: &str,
    tagged: &Vec<&PostEntry>,
) -> (r: JsonValue)
    ensures
        tag_page_is(r, site.jview(), tags.jview(), tag@, tag_slug@, tagged@.map_values(|p: &PostEntry| *p)),
{
    let mut o: Vec<(String, JsonValue)> = Vec::new();
    o.push((String::from_str("site"), site.deep_clone()));
    o.push((String::from_str("current_url"), JsonValue::Str(tag_url(tag_slug))));
    o.push((String::from_str("tag_name"), JsonValue::Str(String::from_str(tag))));
    o.push((String::from_str("tag_slug"), JsonValue::Str(String::from_str(tag_slug))));
    o.push((String::from_str("posts"), metadata_of_refs(tagged)));
    o.push((String::from_str("tags"), tags.deep_clone()));
    JsonValue::Object(o)
}

/// What the archive page ("archive.html") is given: {"site", "current_url":
/// "/archive/", "years": the year groups, "tags"}.
pub fn archive_page_context(site: &JsonValue, tags: &JsonValue, groups: &Vec<(String, Vec<&JsonValue>)>) -> (r: JsonValue)
    ensures
        r matches JsonValue::Object(o) && o@.len() == 4 && entry_is(o@, 0, "site"@, site.jview()) && entry_is(
            o@,
            1,
            "current_url"@,
            JsonView::Str("/archive/"@),
        ) && o@[2].0@ == "years"@ && (o@[2].1 matches JsonValue::Array(a) && a@.len() == groups@.len() && (forall|
            i: int,
        | 0 <= i < a@.len() ==> archive_entry(#[trigger] a@[i], groups@[i].0@, crate::compose::derefs(groups@[i].1@))))
            && entry_is(o@, 3, "tags"@, tags.jview()),
{
    let mut o: Vec<(String, JsonValue)> = Vec::new();
    o.push((String::from_str("site"), site.deep_clone()));
    o.push((String::from_str("current_url"), JsonValue::Str(String::from_str("/archive/"))));
    o.push((String::from_str("years"), JsonValue::Array(archive_json(groups))));
    o.push((String::from_str("tags"), tags.deep_clone()));
    JsonValue::Object(o)
}

/// `r` is what the feed ("feed.xml") is given: {"site", "feed_title",
/// "feed_description", "author_name", "author_email", "posts": the first
/// `post_count` posts with their content, "updated"}.
pub open spec fn feed_page_is(r: JsonValue, site: JsonView, feed: FeedSettings, posts: Seq<PostEntry>) -> bool {
    r matches JsonValue::Object(o) && o@.len() == 7 && entry_is(o@, 0, "site"@, site) && entry_is(
        o@,
        1,
        "feed_title"@,
        JsonView::Str(feed.title@),
    ) && entry_is(o@, 2, "feed_description"@, JsonView::Str(feed.description@)) && entry_is(
        o@,
        3,
        "author_name"@,
        JsonView::Str(feed.author_name@),
    ) && entry_is(o@, 4, "author_email"@, JsonView::Str(feed.author_email@)) && o@[5].0@ == "posts"@ && (
    o@[5].1 matches JsonValue::Array(a) && a@.len() == feed.post_count && (forall|i: int|
        0 <= i < a@.len() ==> is_post_context(#[trigger] a@[i], posts[i]))) && entry_is(
        o@,
        6,
        "updated"@,
        JsonView::Str(feed.updated@),
    )
}

/// What the feed ("feed.xml") is given (see `feed_page_is`).
pub fn feed_context(site: &JsonValue, feed: &FeedSettings, posts: &[PostEntry]) -> (r: JsonValue)
    requires
        feed.post_count <= posts@.len(),
    ensures
        feed_page_is(r, site.jview(), *feed, posts@),
{
    let mut a: Vec<JsonValue> = Vec::new();
    let mut i: usize = 0;
    while i < feed.post_count
        invariant
            i <= feed.post_count <= posts@.len(),
            a@.len() == i,
            forall|k: int| 0 <= k < i ==> is_post_context(#[trigger] a@[k], posts@[k]),
        decreases feed.post_count - i,
    {
        a.push(post_context(&posts[i]));
        i = i + 1;
    }
    let mut o: Vec<(String, JsonValue)> = Vec::new();
    o.push((String::from_str("site"), site.deep_clone()));
    o.push((String::from_str("feed_title"), JsonValue::Str(feed.title.clone())));
    o.push((String::from_str("feed_description"), JsonValue::Str(feed.description.clone())));
    o.push((String::from_str("author_name"), JsonValue::Str(feed.author_name.clone())));
    o.push((String::from_str("author_email"), JsonValue::Str(feed.author_email.clone())));
    o.push((String::from_str("posts"), JsonValue::Array(a)));
    o.push((String::from_str("updated"), JsonValue::Str(feed.updated.clone())));
    JsonValue::Object(o)
}

} // verus!
