//! Values computed from a rendered post: its text without tags, word count,
//! reading time, and the metadata object that merges them with the config.
use vstd::prelude::*;
use crate::config::PostConfig;
use crate::json::{JsonValue, insert_entry, lookup, has_key, keys_distinct};
use crate::text::{chars_of, push_char, is_white_space, white_space};

verus! {

/// Whether `s` ends inside a tag: its last `<` comes after its last `>`.
pub open spec fn in_tag_after(s: Seq<char>) -> bool
    decreases s.len(),
{
    if s.len() == 0 {
        false
    } else if s.last() == '<' {
        true
    } else if s.last() == '>' {
        false
    } else {
        in_tag_after(s.drop_last())
    }
}

/// The text of `s` with tags removed: `<` starts a tag, `>` ends one and
/// stands as a space, other characters are kept outside tags.
pub open spec fn tags_stripped(s: Seq<char>) -> Seq<char>
    decreases s.len(),
{
    if s.len() == 0 {
        Seq::empty()
    } else {
        let p = s.drop_last();
        let c = s.last();
        if c == '<' {
            tags_stripped(p)
        } else if c == '>' {
            tags_stripped(p).push(' ')
        } else if !in_tag_after(p) {
            tags_stripped(p).push(c)
        } else {
            tags_stripped(p)
        }
    }
}

/// The stripped text holds no `<` or `>`, and a text without them is its
/// own stripped text.
pub proof fn law_tags_stripped(s: Seq<char>)
    ensures
        forall|k: int| 0 <= k < tags_stripped(s).len() ==> #[trigger] tags_stripped(s)[k] != '<'
            && tags_stripped(s)[k] != '>',
        (forall|k: int| 0 <= k < s.len() ==> #[trigger] s[k] != '<' && s[k] != '>') ==> tags_stripped(s) == s
            && !in_tag_after(s),
    decreases s.len(),
{
    if s.len() > 0 {
        let p = s.drop_last();
        law_tags_stripped(p);
        let t = tags_stripped(s);
        assert forall|k: int| 0 <= k < t.len() implies #[trigger] t[k] != '<' && t[k] != '>' by {
            if k < tags_stripped(p).len() {
                assert(t[k] == tags_stripped(p)[k]);
            }
        }
        if forall|k: int| 0 <= k < s.len() ==> #[trigger] s[k] != '<' && s[k] != '>' {
            assert forall|k: int| 0 <= k < p.len() implies #[trigger] p[k] != '<' && p[k] != '>' by {
                assert(p[k] == s[k]);
            }
            assert(s[s.len() - 1] == s.last());
            assert(p.push(s.last()) =~= s);
        }
    }
}

/// Strips HTML tags, keeping the text content; each closing `>` becomes a
/// space so that words in adjacent elements stay apart.
pub fn strip_html_tags(html: &str) -> (r: String)
    ensures
        r@ == tags_stripped(html@),
{
    let mut result = String::new();
    let mut in_tag = false;
    for c in it: html.chars()
        invariant
            it.seq() == html@,
            result@ == tags_stripped(html@.take(it.index() as int)),
            in_tag == in_tag_after(html@.take(it.index() as int)),
    {
        let ghost pre = html@.take(it.index() as int);
        assert(html@.take(it.index() + 1).drop_last() =~= pre);
        assert(html@.take(it.index() + 1).last() == c);
        if c == '<' {
            in_tag = true;
        } else if c == '>' {
            in_tag = false;
            push_char(&mut result, ' ');
        } else if !in_tag {
            push_char(&mut result, c);
        }
    }
    assert(html@.take(html@.len() as int) =~= html@);
    result
}

/// The number of words of `s`: maximal runs of characters without the
/// Unicode `White_Space` property (what `split_whitespace` yields).
pub open spec fn words_in(s: Seq<char>) -> nat
    decreases s.len(),
{
    if s.len() == 0 {
        0
    } else {
        words_in(s.drop_last()) + if !is_white_space(s.last()) && (s.len() == 1 || is_white_space(
            s[s.len() - 2],
        )) {
            1nat
        } else {
            0nat
        }
    }
}

pub proof fn lemma_words_in_bound(s: Seq<char>)
    ensures
        words_in(s) <= s.len(),
    decreases s.len(),
{
    if s.len() > 0 {
        lemma_words_in_bound(s.drop_last());
    }
}

/// The number of whitespace-separated words in `s`.
pub fn count_words(s: &str) -> (r: usize)
    ensures
        r == words_in(s@),
{
    let v = chars_of(s);
    let mut n: usize = 0;
    let mut i: usize = 0;
    while i < v.len()
        invariant
            v@ == s@,
            i <= v@.len(),
            n == words_in(v@.take(i as int)),
        decreases v@.len() - i,
    {
        proof {
            lemma_words_in_bound(v@.take(i as int));
            assert(v@.take(i + 1).drop_last() =~= v@.take(i as int));
        }
        if !white_space(v[i]) && (i == 0 || white_space(v[i - 1])) {
            n = n + 1;
        }
        i = i + 1;
    }
    assert(v@.take(v@.len() as int) =~= s@);
    n
}

/// The number of words of an HTML fragment: its text, tags stripped, split on white space.
pub open spec fn word_count_of(html: Seq<char>) -> nat {
    words_in(tags_stripped(html))
}

/// After text that ends outside a tag, stripping goes on as from the start.
proof fn lemma_strip_after(pre: Seq<char>, b: Seq<char>)
    requires
        !in_tag_after(pre),
    ensures
        tags_stripped(pre + b) == tags_stripped(pre) + tags_stripped(b),
        in_tag_after(pre + b) == in_tag_after(b),
    decreases b.len(),
{
    if b.len() == 0 {
        assert(pre + b =~= pre);
        assert(tags_stripped(pre) + tags_stripped(b) =~= tags_stripped(pre));
    } else {
        lemma_strip_after(pre, b.drop_last());
        assert((pre + b).drop_last() =~= pre + b.drop_last());
        assert((pre + b).last() == b.last());
        assert(tags_stripped(pre) + tags_stripped(b.drop_last()).push(' ') =~= (tags_stripped(pre)
            + tags_stripped(b.drop_last())).push(' '));
        assert(tags_stripped(pre) + tags_stripped(b.drop_last()).push(b.last()) =~= (tags_stripped(pre)
            + tags_stripped(b.drop_last())).push(b.last()));
    }
}

/// Inside a tag nothing is kept until its `>`.
proof fn lemma_strip_in_tag(a: Seq<char>, x: Seq<char>)
    requires
        forall|k: int| 0 <= k < x.len() ==> #[trigger] x[k] != '>',
    ensures
        tags_stripped(a + seq!['<'] + x) == tags_stripped(a),
        in_tag_after(a + seq!['<'] + x),
    decreases x.len(),
{
    if x.len() == 0 {
        assert(a + seq!['<'] + x =~= a.push('<'));
        assert(a.push('<').drop_last() =~= a);
    } else {
        assert forall|k: int| 0 <= k < x.drop_last().len() implies #[trigger] x.drop_last()[k] != '>' by {
            assert(x.drop_last()[k] == x[k]);
        }
        lemma_strip_in_tag(a, x.drop_last());
        assert((a + seq!['<'] + x).drop_last() =~= a + seq!['<'] + x.drop_last());
        assert((a + seq!['<'] + x).last() == x[x.len() - 1]);
    }
}

/// A tag separates words: the words of `a<x>b` are those of `a` and of `b`.
pub proof fn law_tag_separates_words(a: Seq<char>, x: Seq<char>, b: Seq<char>)
    requires
        forall|k: int| 0 <= k < x.len() ==> #[trigger] x[k] != '>',
    ensures
        word_count_of(a + seq!['<'] + x + seq!['>'] + b) == word_count_of(a) + word_count_of(b),
{
    let pre = a + seq!['<'] + x + seq!['>'];
    lemma_strip_in_tag(a, x);
    assert(pre.drop_last() =~= a + seq!['<'] + x);
    assert(pre.last() == '>');
    assert(tags_stripped(pre) == tags_stripped(a).push(' '));
    assert(!in_tag_after(pre));
    lemma_strip_after(pre, b);
    assert(tags_stripped(pre) + tags_stripped(b) =~= tags_stripped(a) + seq![' '] + tags_stripped(b));
    lemma_words_space(tags_stripped(a), tags_stripped(b));
}

/// A space separates words.
proof fn lemma_words_space(p: Seq<char>, q: Seq<char>)
    ensures
        words_in(p + seq![' '] + q) == words_in(p) + words_in(q),
    decreases q.len(),
{
    let s = p + seq![' '] + q;
    if q.len() == 0 {
        assert(s =~= p.push(' '));
        assert(p.push(' ').drop_last() =~= p);
    } else {
        lemma_words_space(p, q.drop_last());
        assert(s.drop_last() =~= p + seq![' '] + q.drop_last());
        assert(s.last() == q.last());
        assert(s[s.len() - 2] == if q.len() == 1 {
            ' '
        } else {
            q[q.len() - 2]
        });
    }
}

/// Counts the words in an HTML fragment: strips the tags, then splits on white space.
pub fn word_count(html: &str) -> (r: usize)
    ensures
        r == word_count_of(html@),
{
    let text = strip_html_tags(html);
    count_words(text.as_str())
}

/// Reading time in minutes at 250 words a minute, rounded up, at least 1.
pub open spec fn reading_minutes(words: nat) -> nat {
    if words == 0 {
        1
    } else {
        ((words + 249) / 250) as nat
    }
}

/// The reading time is at least a minute, grows with the word count, and
/// is exact in minutes of 250 words.
pub proof fn law_reading_minutes(a: nat, b: nat)
    ensures
        reading_minutes(a) >= 1,
        a <= b ==> reading_minutes(a) <= reading_minutes(b),
        a > 0 ==> (reading_minutes(a) - 1) * 250 < a <= reading_minutes(a) * 250,
{
    if a > 0 {
        assert((reading_minutes(a) - 1) * 250 < a <= reading_minutes(a) * 250) by (nonlinear_arith)
            requires
                reading_minutes(a) == (a + 249) / 250,
                a > 0,
        ;
        assert(reading_minutes(a) >= 1) by (nonlinear_arith)
            requires
                reading_minutes(a) == (a + 249) / 250,
                a > 0,
        ;
    }
    if 0 < a <= b {
        assert((a + 249) / 250 <= (b + 249) / 250) by (nonlinear_arith)
            requires
                a <= b,
        ;
    }
}

/// Estimates the reading time in minutes from a word count: about 250
/// words a minute, rounded up, at least 1.
pub fn reading_time_minutes(word_count: usize) -> (r: usize)
    ensures
        r == reading_minutes(word_count as nat),
{
    if word_count == 0 {
        return 1;
    }
    let q = word_count / 250;
    if word_count % 250 == 0 {
        q
    } else {
        q + 1
    }
}

/// The value of the last entry of `o` whose key is `k`: what a map holds
/// after the entries are inserted in order.
pub open spec fn lookup_last(o: Seq<(String, JsonValue)>, k: Seq<char>) -> Option<crate::json::JsonView>
    decreases o.len(),
{
    if o.len() == 0 {
        None
    } else if o.last().0@ == k {
        Some(o.last().1.jview())
    } else {
        lookup_last(o.drop_last(), k)
    }
}

/// The metadata object of a post: every field of `config.extra`, then
/// `slug`, `title`, `date` where `extra` does not set them, and always the
/// computed `word_count` and `reading_time_minutes`.
pub open spec fn computed_field(config: PostConfig, html: Seq<char>, k: Seq<char>) -> Option<crate::json::JsonView> {
    if k == "word_count"@ {
        Some(crate::json::JsonView::UInt(word_count_of(html) as u64))
    } else if k == "reading_time_minutes"@ {
        Some(crate::json::JsonView::UInt(reading_minutes(word_count_of(html)) as u64))
    } else if lookup_last(config.extra@, k) is Some {
        lookup_last(config.extra@, k)
    } else if k == "slug"@ {
        Some(crate::json::JsonView::Str(config.slug@))
    } else if k == "title"@ {
        Some(crate::json::JsonView::Str(config.title@))
    } else if k == "date"@ {
        Some(crate::json::JsonView::Str(config.date@))
    } else {
        None
    }
}

/// The five field names of a post's metadata object are pairwise different.
pub proof fn lemma_field_names_differ()
    ensures
        "slug"@ != "title"@,
        "slug"@ != "date"@,
        "title"@ != "date"@,
        "word_count"@ != "reading_time_minutes"@,
        "word_count"@ != "slug"@ && "word_count"@ != "title"@ && "word_count"@ != "date"@,
        "reading_time_minutes"@ != "slug"@ && "reading_time_minutes"@ != "title"@
            && "reading_time_minutes"@ != "date"@,
{
    reveal_strlit("slug");
    reveal_strlit("title");
    reveal_strlit("date");
    reveal_strlit("word_count");
    reveal_strlit("reading_time_minutes");
    assert("slug"@.len() == 4);
    assert("title"@.len() == 5);
    assert("date"@.len() == 4);
    assert("word_count"@.len() == 10);
    assert("reading_time_minutes"@.len() == 20);
    assert("slug"@[0] != "date"@[0]);
}

/// Builds the computed metadata object: the config's fields merged with the
/// computed `word_count` and `reading_time_minutes`.
pub fn build_computed_json(config: &PostConfig, html: &str) -> (r: JsonValue)
    ensures
        r matches JsonValue::Object(o) && keys_distinct(o@) && (forall|k: Seq<char>| #[trigger]
            lookup(o@, k) == computed_field(*config, html@, k)) && (forall|k: Seq<char>| #[trigger] has_key(o@, k)
            <==> computed_field(*config, html@, k) is Some) && (config.extra@.len() == 0 ==> o@.len() == 5),
{
    let wc = word_count(html);
    let rt = reading_time_minutes(wc);
    let mut map: Vec<(String, JsonValue)> = Vec::new();
    proof {
        reveal_strlit("slug");
        reveal_strlit("title");
        reveal_strlit("date");
        reveal_strlit("word_count");
        reveal_strlit("reading_time_minutes");
        assert forall|k: Seq<char>| #[trigger] lookup(map@, k) is None by {
            crate::json::lemma_key_index(map@, k);
        }
    }
    assert(keys_distinct(map@));
    insert_entry(&mut map, String::from_str("slug"), JsonValue::Str(config.slug.clone()));
    let ghost m1 = map@;
    assert(lookup(m1, "slug"@) == Some(crate::json::JsonView::Str(config.slug@)));
    insert_entry(&mut map, String::from_str("title"), JsonValue::Str(config.title.clone()));
    let ghost m2 = map@;
    insert_entry(&mut map, String::from_str("date"), JsonValue::Str(config.date.clone()));
    proof {
        lemma_field_names_differ();
    }
    let ghost base = map@;
    assert forall|k: Seq<char>| #[trigger] lookup(base, k) == if k == "slug"@ {
        Some(crate::json::JsonView::Str(config.slug@))
    } else if k == "title"@ {
        Some(crate::json::JsonView::Str(config.title@))
    } else if k == "date"@ {
        Some(crate::json::JsonView::Str(config.date@))
    } else {
        None
    } by {
        assert(lookup(m2, k) == if k == "title"@ {
            Some(crate::json::JsonView::Str(config.title@))
        } else {
            lookup(m1, k)
        });
    }

    assert(map@.len() == 3);
    assert forall|k: Seq<char>| #[trigger] has_key(map@, k) <==> (k == "slug"@ || k == "title"@ || k == "date"@) by {}
    let mut i: usize = 0;
    while i < config.extra.len()
        invariant
            i <= config.extra@.len(),
            config.extra@.len() == 0 ==> map@.len() == 3 && (forall|k: Seq<char>| #[trigger] has_key(map@, k) <==> (k
                == "slug"@ || k == "title"@ || k == "date"@)),
            keys_distinct(map@),
            forall|k: Seq<char>| #[trigger] lookup(map@, k) == if lookup_last(config.extra@.take(i as int), k) is Some {
                lookup_last(config.extra@.take(i as int), k)
            } else {
                lookup(base, k)
            },
        decreases config.extra@.len() - i,
    {
        let key = config.extra[i].0.clone();
        let value = config.extra[i].1.deep_clone();
        insert_entry(&mut map, key, value);
        assert(config.extra@.take(i + 1).drop_last() =~= config.extra@.take(i as int));
        i = i + 1;
    }
    assert(config.extra@.take(i as int) =~= config.extra@);
    insert_entry(&mut map, String::from_str("word_count"), JsonValue::UInt(wc as u64));
    insert_entry(&mut map, String::from_str("reading_time_minutes"), JsonValue::UInt(rt as u64));
    proof {
        assert forall|k: Seq<char>| #[trigger] has_key(map@, k) <==> computed_field(*config, html@, k) is Some by {
            crate::json::lemma_lookup_has_key(map@, k);
        }
    }
    JsonValue::Object(map)
}

/// Why writing the computed metadata failed. The path and the error are held as their text.
#[derive(Debug)]
pub enum ComputedError {
    WriteFailed(String, String),
}

/// The text a `ComputedError` is shown as.
pub open spec fn computed_error_text(e: ComputedError) -> Seq<char> {
    match e {
        ComputedError::WriteFailed(path, err) => "failed to write computed.json at "@ + path@ + ": "@ + err@,
    }
}

impl ComputedError {
    /// The error as text, for people.
    pub fn message(&self) -> (r: String)
        ensures
            r@ == computed_error_text(*self),
    {
        match self {
            ComputedError::WriteFailed(path, err) => {
                let mut r = String::from_str("failed to write computed.json at ");
                r.append(path.as_str());
                r.append(": ");
                r.append(err.as_str());
                r
            },
        }
    }
}

} // verus!
