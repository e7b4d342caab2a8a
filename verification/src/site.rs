//! The plan of a whole site: every page the site is made of, where it goes,
//! which template renders it and with what values, decided from the site's
//! configuration and its posts.
use vstd::prelude::*;
use crate::compose::{
    PostEntry,
    SiteConfig,
    TagCounts,
    all_tags,
    collect_tags,
    count_for,
    derefs,
    group_for,
    group_posts_by_year,
    keys_increasing,
    lemma_group_for,
    lemma_group_for_absent,
    lowercase,
    metas,
    newest_first,
    occurrences,
    posts_with_tag,
    slug_of_lowered,
    slugify_tag,
    sort_posts_by_date,
    str_field,
    tag_keys,
    tagged,
    with_date,
    with_year,
    year_of,
};
use crate::json::{JsonValue, JsonView};
use crate::order::lex_lt;
use crate::pages::{
    FeedSettings,
    archive_entry,
    archive_page_context,
    entry_is,
    feed_context,
    feed_enabled,
    feed_page_is,
    feed_settings,
    feed_settings_are,
    index_page_context,
    index_page_is,
    page_count,
    page_dir,
    page_matches,
    paginate,
    post_dir,
    post_page_context,
    post_page_is,
    tag_dir,
    tag_page_context,
    tag_page_is,
    tags_json,
    tags_view,
};
use crate::text::opt_view;

verus! {

/// One page of the site: the directory below the output it goes to ("" for
/// the output itself), its file name, the template that renders it, the
/// values the template is given, and the post directory whose `assets/`
/// are copied beside it, if any.
#[derive(Debug)]
pub struct PagePlan {
    pub dir: String,
    pub file: String,
    pub template: String,
    pub context: JsonValue,
    pub assets_from: Option<String>,
}

/// The plan of the site: the posts newest first, their tags, the archive's
/// years, the feed's settings if the feed is on, and the pages in the order
/// they are written: posts, index pages, tag pages, the archive, the feed.
#[derive(Debug)]
pub struct SitePlan {
    pub posts: Vec<PostEntry>,
    pub tags: TagCounts,
    pub years: Vec<String>,
    pub feed: Option<FeedSettings>,
    pub pages: Vec<PagePlan>,
}

/// `p` is the page of `post`: "posts/{slug}/index.html" from "post.html".
pub open spec fn post_plan_is(p: PagePlan, site: JsonView, tags: JsonView, post: PostEntry) -> bool {
    &&& p.dir@ == "posts/"@ + post.slug@
    &&& p.file@ == "index.html"@
    &&& p.template@ == "post.html"@
    &&& post_page_is(p.context, site, tags, post)
    &&& opt_view(&p.assets_from) == Some(post.source_dir@)
}

/// `p` is index page `n` of `count`: "{page_dir}/index.html" from "index.html".
pub open spec fn index_plan_is(
    p: PagePlan,
    site: JsonView,
    tags: JsonView,
    posts: Seq<PostEntry>,
    n: nat,
    count: nat,
    per_page: nat,
) -> bool {
    &&& p.dir@ == page_dir(n)
    &&& p.file@ == "index.html"@
    &&& p.template@ == "index.html"@
    &&& index_page_is(p.context, site, tags, posts, n, count, per_page)
    &&& p.assets_from is None
}

/// `p` is the page of `tag`: "tags/{tag slug}/index.html" from "tag.html",
/// listing the posts with the tag in order.
pub open spec fn tag_plan_is(p: PagePlan, site: JsonView, tags: JsonView, tag: Seq<char>, posts: Seq<PostEntry>) -> bool {
    let slug = slug_of_lowered(lowercase(tag));
    &&& p.dir@ == "tags/"@ + slug
    &&& p.file@ == "index.html"@
    &&& p.template@ == "tag.html"@
    &&& tag_page_is(p.context, site, tags, tag, slug, tagged(posts, tag))
    &&& p.assets_from is None
}

/// `r` is what the archive ("archive.html") is given: {"site",
/// "current_url": "/archive/", "years": each year with its posts, "tags"}.
pub open spec fn archive_page_is(
    r: JsonValue,
    site: JsonView,
    tags: JsonView,
    years: Seq<String>,
    posts: Seq<PostEntry>,
) -> bool {
    r matches JsonValue::Object(o) && o@.len() == 4 && entry_is(o@, 0, "site"@, site) && entry_is(
        o@,
        1,
        "current_url"@,
        JsonView::Str("/archive/"@),
    ) && o@[2].0@ == "years"@ && (o@[2].1 matches JsonValue::Array(a) && a@.len() == years.len() && (forall|
        i: int,
    | 0 <= i < a@.len() ==> archive_entry(#[trigger] a@[i], years[i]@, metas(with_year(posts, years[i]@)))))
        && entry_is(o@, 3, "tags"@, tags)
}

/// `p` is the archive page: "archive/index.html" from "archive.html".
pub open spec fn archive_plan_is(p: PagePlan, site: JsonView, tags: JsonView, years: Seq<String>, posts: Seq<PostEntry>) -> bool {
    &&& p.dir@ == "archive"@
    &&& p.file@ == "index.html"@
    &&& p.template@ == "archive.html"@
    &&& archive_page_is(p.context, site, tags, years, posts)
    &&& p.assets_from is None
}

/// `p` is the feed: "feed.xml" at the top of the output, from "feed.xml".
pub open spec fn feed_plan_is(p: PagePlan, site: JsonView, feed: FeedSettings, posts: Seq<PostEntry>) -> bool {
    &&& p.dir@ == Seq::<char>::empty()
    &&& p.file@ == "feed.xml"@
    &&& p.template@ == "feed.xml"@
    &&& feed_page_is(p.context, site, feed, posts)
    &&& p.assets_from is None
}

/// The years of the archive: newest first, each with posts, and every
/// post's year among them.
pub open spec fn archive_years_are(years: Seq<String>, posts: Seq<PostEntry>) -> bool {
    &&& forall|i: int, j: int| 0 <= i < j < years.len() ==> lex_lt((#[trigger] years[j])@, (#[trigger] years[i])@)
    &&& forall|i: int| 0 <= i < years.len() ==> with_year(posts, (#[trigger] years[i])@).len() > 0
    &&& forall|k: int| 0 <= k < posts.len() ==> has_year(years, year_of(#[trigger] posts[k]))
}

/// `y` is one of `years`.
pub open spec fn has_year(years: Seq<String>, y: Seq<char>) -> bool {
    exists|i: int| 0 <= i < years.len() && (#[trigger] years[i])@ == y
}

/// A post is filed under its own year.
proof fn lemma_with_year_has(s: Seq<PostEntry>, k: int)
    requires
        0 <= k < s.len(),
    ensures
        with_year(s, year_of(s[k])).len() > 0,
    decreases s.len(),
{
    if k < s.len() - 1 {
        lemma_with_year_has(s.drop_last(), k);
        assert(s.drop_last()[k] == s[k]);
    }
}

fn plan_posts(pages: &mut Vec<PagePlan>, site: &JsonValue, tags: &JsonValue, posts: &Vec<PostEntry>)
    ensures
        final(pages)@.len() == old(pages)@.len() + posts@.len(),
        forall|i: int| 0 <= i < old(pages)@.len() ==> final(pages)@[i] == old(pages)@[i],
        forall|i: int| 0 <= i < posts@.len() ==> post_plan_is(#[trigger] final(pages)@[old(pages)@.len() + i], site.jview(), tags.jview(), posts@[i]),
{
    let ghost start = pages@.len();
    let mut i: usize = 0;
    while i < posts.len()
        invariant
            i <= posts@.len(),
            start == old(pages)@.len(),
            pages@.len() == start + i,
            forall|k: int| 0 <= k < start ==> pages@[k] == old(pages)@[k],
            forall|k: int| 0 <= k < i ==> post_plan_is(#[trigger] pages@[start + k], site.jview(), tags.jview(), posts@[k]),
        decreases posts@.len() - i,
    {
        let page = PagePlan {
            dir: post_dir(posts[i].slug.as_str()),
            file: String::from_str("index.html"),
            template: String::from_str("post.html"),
            context: post_page_context(site, tags, &posts[i]),
            assets_from: Some(posts[i].source_dir.clone()),
        };
        pages.push(page);
        proof {
            assert forall|k: int| 0 <= k < i + 1 implies post_plan_is(#[trigger] pages@[start + k], site.jview(), tags.jview(), posts@[k]) by {
                if k < i {
                    assert(pages@[start + k] == pages@.drop_last()[start + k]);
                }
            }
        }
        i = i + 1;
    }
}

fn plan_index_pages(pages: &mut Vec<PagePlan>, site: &JsonValue, tags: &JsonValue, posts: &Vec<PostEntry>, per_page: usize)
    requires
        posts@.len() > 0 ==> per_page > 0,
    ensures
        final(pages)@.len() == old(pages)@.len() + page_count(posts@.len(), per_page as nat),
        forall|i: int| 0 <= i < old(pages)@.len() ==> final(pages)@[i] == old(pages)@[i],
        forall|j: int| 0 <= j < page_count(posts@.len(), per_page as nat) ==> index_plan_is(
            #[trigger] final(pages)@[old(pages)@.len() + j],
            site.jview(),
            tags.jview(),
            posts@,
            (j + 1) as nat,
            page_count(posts@.len(), per_page as nat),
            per_page as nat,
        ),
{
    let infos = paginate(posts.len(), per_page);
    let ghost count = page_count(posts@.len(), per_page as nat);
    let ghost start = pages@.len();
    let mut j: usize = 0;
    while j < infos.len()
        invariant
            j <= infos@.len(),
            infos@.len() == count,
            count == page_count(posts@.len(), per_page as nat),
            posts@.len() > 0 ==> per_page > 0,
            forall|i: int| 0 <= i < infos@.len() ==> page_matches(#[trigger] infos@[i], (i + 1) as nat, infos@.len(), per_page as nat, posts@.len()),
            start == old(pages)@.len(),
            pages@.len() == start + j,
            forall|k: int| 0 <= k < start ==> pages@[k] == old(pages)@[k],
            forall|k: int| 0 <= k < j ==> index_plan_is(#[trigger] pages@[start + k], site.jview(), tags.jview(), posts@, (k + 1) as nat, count, per_page as nat),
        decreases infos@.len() - j,
    {
        let info = &infos[j];
        proof {
            assert(page_matches(infos@[j as int], (j + 1) as nat, count, per_page as nat, posts@.len()));
            crate::pages::lemma_page_within(posts@.len(), per_page as nat, (j + 1) as nat, count);
        }
        let context = index_page_context(site, tags, posts.as_slice(), info);
        let page = PagePlan {
            dir: info.dir.clone(),
            file: String::from_str("index.html"),
            template: String::from_str("index.html"),
            context,
            assets_from: None,
        };
        pages.push(page);
        proof {
            let n = (j + 1) as nat;
            let p = pages@[start + j];
            assert(p.dir@ == page_dir(n));
            assert(p.file@ == "index.html"@);
            assert(p.template@ == "index.html"@);
            assert(p.assets_from is None);
            let info_v = infos@[j as int];
            let o = p.context->Object_0;
            assert(info_v.current == n);
            assert(info_v.total_pages == count);
            let want = seq![
                ("current"@, JsonView::UInt(n as u64)),
                ("total_pages"@, JsonView::UInt(count as u64)),
                ("prev_url"@, if n == 1 {
                    JsonView::Null
                } else {
                    JsonView::Str(crate::pages::page_url((n - 1) as nat))
                }),
                ("next_url"@, if n < count {
                    JsonView::Str(crate::pages::page_url(n + 1))
                } else {
                    JsonView::Null
                }),
            ];
            assert(o@[3].1.jview()->Object_0 =~= want);
            assert(index_page_is(p.context, site.jview(), tags.jview(), posts@, n, count, per_page as nat));
            assert forall|k: int| 0 <= k < j + 1 implies index_plan_is(#[trigger] pages@[start + k], site.jview(), tags.jview(), posts@, (k + 1) as nat, count, per_page as nat) by {
                if k < j {
                    assert(pages@[start + k] == pages@.drop_last()[start + k]);
                }
            }
        }
        j = j + 1;
    }
}

fn plan_tag_pages(pages: &mut Vec<PagePlan>, site: &JsonValue, tags: &JsonValue, posts: &Vec<PostEntry>, counts: &TagCounts)
    ensures
        final(pages)@.len() == old(pages)@.len() + counts.entries_view().len(),
        forall|i: int| 0 <= i < old(pages)@.len() ==> final(pages)@[i] == old(pages)@[i],
        forall|k: int| 0 <= k < counts.entries_view().len() ==> tag_plan_is(
            #[trigger] final(pages)@[old(pages)@.len() + k],
            site.jview(),
            tags.jview(),
            counts.entries_view()[k].0@,
            posts@,
        ),
{
    let e = counts.entries();
    let ghost start = pages@.len();
    let mut k: usize = 0;
    while k < e.len()
        invariant
            k <= e@.len(),
            e@ == counts.entries_view(),
            start == old(pages)@.len(),
            pages@.len() == start + k,
            forall|i: int| 0 <= i < start ==> pages@[i] == old(pages)@[i],
            forall|i: int| 0 <= i < k ==> tag_plan_is(#[trigger] pages@[start + i], site.jview(), tags.jview(), e@[i].0@, posts@),
        decreases e@.len() - k,
    {
        let tag = e[k].0.as_str();
        let with_tag = posts_with_tag(posts.as_slice(), tag);
        let tag_slug = slugify_tag(tag);
        let context = tag_page_context(site, tags, tag, tag_slug.as_str(), &with_tag);
        let page = PagePlan {
            dir: tag_dir(tag_slug.as_str()),
            file: String::from_str("index.html"),
            template: String::from_str("tag.html"),
            context,
            assets_from: None,
        };
        pages.push(page);
        proof {
            assert forall|i: int| 0 <= i < k + 1 implies tag_plan_is(#[trigger] pages@[start + i], site.jview(), tags.jview(), e@[i].0@, posts@) by {
                if i < k {
                    assert(pages@[start + i] == pages@.drop_last()[start + i]);
                }
            }
        }
        k = k + 1;
    }
}

/// The archive's years and page for the ordered `posts`.
fn plan_archive(site: &JsonValue, tags: &JsonValue, posts: &Vec<PostEntry>) -> (r: (Vec<String>, PagePlan))
    ensures
        archive_years_are(r.0@, posts@),
        archive_plan_is(r.1, site.jview(), tags.jview(), r.0@, posts@),
{
    let groups = group_posts_by_year(posts.as_slice());
    let context = archive_page_context(site, tags, &groups);
    let mut years: Vec<String> = Vec::new();
    let mut i: usize = 0;
    while i < groups.len()
        invariant
            i <= groups@.len(),
            years@.len() == i,
            forall|k: int| 0 <= k < i ==> (#[trigger] years@[k])@ == groups@[k].0@,
        decreases groups@.len() - i,
    {
        years.push(groups[i].0.clone());
        i = i + 1;
    }
    proof {
        let e = groups@;
        assert forall|k: int| 0 <= k < e.len() implies derefs(e[k].1@) == metas(with_year(posts@, e[k].0@)) && with_year(
            posts@,
            e[k].0@,
        ).len() > 0 by {
            lemma_group_for(e, e[k].0@, k);
            assert(group_for(e, e[k].0@) == metas(with_year(posts@, e[k].0@)));
            assert(derefs(e[k].1@).len() == e[k].1@.len());
            assert(metas(with_year(posts@, e[k].0@)).len() == with_year(posts@, e[k].0@).len());
        }
        assert forall|i: int, j: int| 0 <= i < j < years@.len() implies lex_lt((#[trigger] years@[j])@, (#[trigger] years@[i])@) by {
            assert(lex_lt(e[j].0@, e[i].0@));
        }
        assert forall|i: int| 0 <= i < years@.len() implies with_year(posts@, (#[trigger] years@[i])@).len() > 0 by {
            assert(years@[i]@ == e[i].0@);
        }
        assert forall|k: int| 0 <= k < posts@.len() implies has_year(years@, year_of(#[trigger] posts@[k])) by {
            let y = year_of(posts@[k]);
            lemma_with_year_has(posts@, k);
            assert(group_for(e, y) == metas(with_year(posts@, y)));
            assert(metas(with_year(posts@, y)).len() > 0);
            if forall|i: int| 0 <= i < e.len() ==> (#[trigger] e[i]).0@ != y {
                lemma_group_for_absent(e, y);
                assert(false);
            }
            let i = choose|i: int| 0 <= i < e.len() && (#[trigger] e[i]).0@ == y;
            assert(years@[i]@ == y);
        }
        assert(archive_page_is(context, site.jview(), tags.jview(), years@, posts@)) by {
            let o = context->Object_0;
            let a = o@[2].1->Array_0;
            assert forall|i: int| 0 <= i < a@.len() implies archive_entry(#[trigger] a@[i], years@[i]@, metas(with_year(posts@, years@[i]@))) by {
                assert(archive_entry(a@[i], e[i].0@, derefs(e[i].1@)));
                assert(years@[i]@ == e[i].0@);
            }
        }
    }
    let page = PagePlan {
        dir: String::from_str("archive"),
        file: String::from_str("index.html"),
        template: String::from_str("archive.html"),
        context,
        assets_from: None,
    };
    (years, page)
}

/// Plans the whole site from its configuration, its serialised form
/// `site_value` (what every template sees as "site") and its posts: orders
/// the posts newest first, counts their tags, and lists every page in the
/// order it is written — each post, each index page, each tag, the archive,
/// and the feed when the configuration enables it.
pub fn plan_site(site: &SiteConfig, site_value: &JsonValue, posts: Vec<PostEntry>) -> (r: SitePlan)
    requires
        all_tags(posts@).len() < usize::MAX,
        posts@.len() > 0 ==> site.posts_per_page > 0,
    ensures
        r.posts@.len() == posts@.len(),
        newest_first(r.posts@),
        forall|i: int, j: int|
            #![trigger r.posts@[i], r.posts@[j]]
            0 <= i < j < r.posts@.len() ==> !lex_lt(
                match str_field(r.posts@[i].metadata, "date"@) {
                    Some(d) => d,
                    None => Seq::<char>::empty(),
                },
                match str_field(r.posts@[j].metadata, "date"@) {
                    Some(d) => d,
                    None => Seq::<char>::empty(),
                },
            ),
        forall|k: Seq<char>| #[trigger] with_date(r.posts@, k) == with_date(posts@, k),
        keys_increasing(r.tags.entries_view()),
        forall|t: Seq<char>| #[trigger] count_for(r.tags.entries_view(), t) == occurrences(all_tags(posts@), t),
        forall|i: int| 0 <= i < r.tags.entries_view().len() ==> (#[trigger] r.tags.entries_view()[i]).1 > 0,
        forall|t: Seq<char>| #[trigger] tag_keys(r.tags.entries_view()).contains(t) == all_tags(posts@).contains(t),
        r.tags.entries_view().len() == all_tags(posts@).to_set().len(),
        archive_years_are(r.years@, r.posts@),
        r.feed is Some <==> feed_enabled(*site),
        r.feed matches Some(fs) ==> feed_settings_are(fs, *site, r.posts@),
        ({
            let n = r.posts@.len() as int;
            let c = page_count(r.posts@.len(), site.posts_per_page as nat) as int;
            let m = r.tags.entries_view().len() as int;
            let tv = tags_view(r.tags.entries_view());
            let sv = site_value.jview();
            &&& r.pages@.len() == n + c + m + 1 + if r.feed is Some {
                1int
            } else {
                0int
            }
            &&& forall|i: int| 0 <= i < n ==> post_plan_is(#[trigger] r.pages@[i], sv, tv, r.posts@[i])
            &&& forall|j: int| 0 <= j < c ==> index_plan_is(#[trigger] r.pages@[n + j], sv, tv, r.posts@, (j + 1) as nat, c as nat, site.posts_per_page as nat)
            &&& forall|k: int| 0 <= k < m ==> tag_plan_is(#[trigger] r.pages@[n + c + k], sv, tv, r.tags.entries_view()[k].0@, r.posts@)
            &&& archive_plan_is(r.pages@[n + c + m], sv, tv, r.years@, r.posts@)
            &&& r.feed matches Some(fs) ==> feed_plan_is(r.pages@[n + c + m + 1], sv, fs, r.posts@)
        }),
{
    let counts = collect_tags(posts.as_slice());
    let mut sorted = posts;
    sort_posts_by_date(&mut sorted);
    let tags = tags_json(&counts);
    let ghost tv = tags_view(counts.entries_view());
    let ghost sv = site_value.jview();
    let ghost n = sorted@.len() as int;
    let ghost c = page_count(sorted@.len(), site.posts_per_page as nat) as int;
    let ghost m = counts.entries_view().len() as int;
    let mut pages: Vec<PagePlan> = Vec::new();
    plan_posts(&mut pages, site_value, &tags, &sorted);
    let ghost after_posts = pages@;
    plan_index_pages(&mut pages, site_value, &tags, &sorted, site.posts_per_page);
    let ghost after_index = pages@;
    plan_tag_pages(&mut pages, site_value, &tags, &sorted, &counts);
    let ghost after_tags = pages@;
    let (years, archive) = plan_archive(site_value, &tags, &sorted);
    pages.push(archive);
    let ghost after_archive = pages@;
    let feed = feed_settings(site, sorted.as_slice());
    match &feed {
        Some(fs) => {
            let context = feed_context(site_value, fs, sorted.as_slice());
            pages.push(PagePlan {
                dir: String::new(),
                file: String::from_str("feed.xml"),
                template: String::from_str("feed.xml"),
                context,
                assets_from: None,
            });
        },
        None => {},
    }
    proof {
        assert(tags.jview() == tv);
        assert forall|i: int| 0 <= i < after_archive.len() implies #[trigger] pages@[i] == after_archive[i] by {}
        assert forall|i: int| 0 <= i < after_tags.len() implies #[trigger] after_archive[i] == after_tags[i] by {}
        assert forall|i: int| 0 <= i < n implies post_plan_is(#[trigger] pages@[i], sv, tv, sorted@[i]) by {
            assert(after_index[i] == after_posts[i]);
            assert(after_tags[i] == after_index[i]);
            assert(post_plan_is(after_posts[0 + i], sv, tv, sorted@[i]));
        }
        assert forall|j: int| 0 <= j < c implies index_plan_is(#[trigger] pages@[n + j], sv, tv, sorted@, (j + 1) as nat, c as nat, site.posts_per_page as nat) by {
            assert(after_tags[n + j] == after_index[n + j]);
            assert(index_plan_is(after_index[n + j], sv, tv, sorted@, (j + 1) as nat, c as nat, site.posts_per_page as nat));
        }
        assert forall|k: int| 0 <= k < m implies tag_plan_is(#[trigger] pages@[n + c + k], sv, tv, counts.entries_view()[k].0@, sorted@) by {
            assert(tag_plan_is(after_tags[n + c + k], sv, tv, counts.entries_view()[k].0@, sorted@));
        }
        assert(pages@[n + c + m] == after_archive[n + c + m]);
    }
    SitePlan { posts: sorted, tags: counts, years, feed, pages }
}

} // verus!
