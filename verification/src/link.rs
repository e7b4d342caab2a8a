//! Link resolution: the placeholder anchors that rendering leaves for
//! wiki-links are turned into links to the posts a registry knows, and the
//! others are marked broken and reported.
use vstd::prelude::*;
use crate::scan::{CharClass, run_end, lemma_run_end, find_run_end, occurs, occurs_at};
use crate::text::{chars_of, push_char, push_range, string_of_range};
use crate::json::str_eq;

verus! {

/// A post that links can point at: its title and URL.
#[derive(Debug)]
pub struct LinkEntry {
    pub title: String,
    pub url: String,
}

/// The title and URL of `e`.
pub open spec fn entry_view(e: LinkEntry) -> (Seq<char>, Seq<char>) {
    (e.title@, e.url@)
}

/// The map that inserting the entries of `s` in order builds.
pub open spec fn registry_map(s: Seq<(String, LinkEntry)>) -> Map<Seq<char>, (Seq<char>, Seq<char>)>
    decreases s.len(),
{
    if s.len() == 0 {
        Map::empty()
    } else {
        registry_map(s.drop_last()).insert(s.last().0@, entry_view(s.last().1))
    }
}

/// No two entries of `s` have the same slug.
pub open spec fn slugs_distinct(s: Seq<(String, LinkEntry)>) -> bool {
    forall|i: int, j: int| 0 <= i < j < s.len() ==> (#[trigger] s[i]).0@ != (#[trigger] s[j]).0@
}

pub proof fn lemma_registry_map(s: Seq<(String, LinkEntry)>)
    requires
        slugs_distinct(s),
    ensures
        forall|k: Seq<char>| #[trigger] registry_map(s).contains_key(k) <==> exists|i: int|
            0 <= i < s.len() && (#[trigger] s[i]).0@ == k,
        forall|i: int| 0 <= i < s.len() ==> registry_map(s)[(#[trigger] s[i]).0@] == entry_view(s[i].1),
    decreases s.len(),
{
    if s.len() > 0 {
        let p = s.drop_last();
        assert(slugs_distinct(p)) by {
            assert forall|i: int, j: int| 0 <= i < j < p.len() implies (#[trigger] p[i]).0@ != (
            #[trigger] p[j]).0@ by {
                assert(p[i] == s[i] && p[j] == s[j]);
            }
        }
        lemma_registry_map(p);
        assert forall|k: Seq<char>| #[trigger] registry_map(s).contains_key(k) <==> exists|i: int|
            0 <= i < s.len() && (#[trigger] s[i]).0@ == k by {
            if registry_map(p).contains_key(k) {
                let i = choose|i: int| 0 <= i < p.len() && (#[trigger] p[i]).0@ == k;
                assert(s[i] == p[i]);
            }
            if exists|i: int| 0 <= i < s.len() && (#[trigger] s[i]).0@ == k {
                let i = choose|i: int| 0 <= i < s.len() && (#[trigger] s[i]).0@ == k;
                if i < s.len() - 1 {
                    assert(s[i] == p[i]);
                }
            }
        }
        assert forall|i: int| 0 <= i < s.len() implies registry_map(s)[(#[trigger] s[i]).0@]
            == entry_view(s[i].1) by {
            if i < s.len() - 1 {
                assert(s[i] == p[i]);
                assert(s[i].0@ != s.last().0@);
            }
        }
    }
}

/// The registry of known posts: slug to title and URL.
pub struct LinksRegistry {
    entries: Vec<(String, LinkEntry)>,
}

impl LinksRegistry {
    #[verifier::type_invariant]
    spec fn slugs_unique(self) -> bool {
        slugs_distinct(self.entries@)
    }

    /// The registry as a map from slug to (title, URL).
    pub closed spec fn map(self) -> Map<Seq<char>, (Seq<char>, Seq<char>)> {
        registry_map(self.entries@)
    }

    /// An empty registry.
    pub fn new() -> (r: LinksRegistry)
        ensures
            r.map() == Map::<Seq<char>, (Seq<char>, Seq<char>)>::empty(),
    {
        LinksRegistry { entries: Vec::new() }
    }

    /// The number of posts the registry knows.
    pub fn len(&self) -> (r: usize)
        ensures
            r == self.map().len(),
    {
        proof {
            use_type_invariant(self);
            lemma_registry_len(self.entries@);
        }
        self.entries.len()
    }

    /// Whether the registry knows no post.
    pub fn is_empty(&self) -> (r: bool)
        ensures
            r == (self.map().len() == 0),
    {
        self.len() == 0
    }

    fn position(&self, slug: &str) -> (r: Option<usize>)
        ensures
            r matches Some(i) ==> i < self.entries@.len() && self.entries@[i as int].0@ == slug@,
            r is None ==> forall|i: int| 0 <= i < self.entries@.len() ==> (
            #[trigger] self.entries@[i]).0@ != slug@,
    {
        let mut i: usize = 0;
        while i < self.entries.len()
            invariant
                i <= self.entries@.len(),
                forall|j: int| 0 <= j < i ==> (#[trigger] self.entries@[j]).0@ != slug@,
            decreases self.entries@.len() - i,
        {
            if str_eq(self.entries[i].0.as_str(), slug) {
                return Some(i);
            }
            i = i + 1;
        }
        None
    }

    /// The entry of `slug`, if the registry knows it.
    pub fn get(&self, slug: &str) -> (r: Option<&LinkEntry>)
        ensures
            r matches Some(e) ==> self.map().contains_key(slug@) && self.map()[slug@] == entry_view(*e),
            r is None ==> !self.map().contains_key(slug@),
    {
        proof {
            use_type_invariant(self);
            lemma_registry_map(self.entries@);
        }
        match self.position(slug) {
            Some(i) => Some(&self.entries[i].1),
            None => None,
        }
    }

    /// Records `entry` under `slug`, replacing what was recorded under it.
    pub fn insert(&mut self, slug: String, entry: LinkEntry)
        ensures
            final(self).map() == old(self).map().insert(slug@, entry_view(entry)),
    {
        proof {
            use_type_invariant(&*self);
        }
        let ghost before = self.entries@;
        let ghost key = slug@;
        let ghost ev = entry_view(entry);
        match self.position(slug.as_str()) {
            Some(i) => {
                let mut entries: Vec<(String, LinkEntry)> = Vec::new();
                std::mem::swap(&mut entries, &mut self.entries);
                entries.set(i, (slug, entry));
                proof {
                    lemma_registry_map(before);
                    assert(slugs_distinct(entries@)) by {
                        assert forall|a: int, b: int| 0 <= a < b < entries@.len() implies (
                        #[trigger] entries@[a]).0@ != (#[trigger] entries@[b]).0@ by {
                            if a != i && b != i {
                                assert(entries@[a] == before[a] && entries@[b] == before[b]);
                            } else if a == i {
                                assert(entries@[b] == before[b]);
                            } else {
                                assert(entries@[a] == before[a]);
                            }
                        }
                    }
                    lemma_registry_map(entries@);
                    assert(registry_map(entries@) =~= registry_map(before).insert(key, ev)) by {
                        assert forall|k: Seq<char>| #[trigger] registry_map(entries@).contains_key(k)
                            <==> registry_map(before).insert(key, ev).contains_key(k) by {
                            if exists|j: int| 0 <= j < entries@.len() && (#[trigger] entries@[j]).0@ == k {
                                let j = choose|j: int| 0 <= j < entries@.len() && (#[trigger] entries@[j]).0@ == k;
                                if j != i {
                                    assert(entries@[j] == before[j]);
                                }
                            }
                            if exists|j: int| 0 <= j < before.len() && (#[trigger] before[j]).0@ == k {
                                let j = choose|j: int| 0 <= j < before.len() && (#[trigger] before[j]).0@ == k;
                                if j != i {
                                    assert(entries@[j] == before[j]);
                                } else {
                                    assert(entries@[j].0@ == k);
                                }
                            }
                            if k == key {
                                assert(entries@[i as int].0@ == k);
                            }
                        }
                        assert forall|k: Seq<char>| #[trigger] registry_map(entries@).contains_key(k)
                            implies registry_map(entries@)[k] == registry_map(before).insert(key, ev)[k] by {
                            let j = choose|j: int| 0 <= j < entries@.len() && (#[trigger] entries@[j]).0@ == k;
                            if j != i {
                                assert(entries@[j] == before[j]);
                            }
                        }
                    }
                }
                self.entries = entries;
            },
            None => {
                let mut entries: Vec<(String, LinkEntry)> = Vec::new();
                std::mem::swap(&mut entries, &mut self.entries);
                entries.push((slug, entry));
                proof {
                    assert(entries@.drop_last() =~= before);
                    assert(slugs_distinct(entries@)) by {
                        assert forall|a: int, b: int| 0 <= a < b < entries@.len() implies (
                        #[trigger] entries@[a]).0@ != (#[trigger] entries@[b]).0@ by {
                            assert(entries@[a] == before[a]);
                            if b < before.len() {
                                assert(entries@[b] == before[b]);
                            }
                        }
                    }
                }
                self.entries = entries;
            },
        }
    }
}

pub proof fn lemma_registry_len(s: Seq<(String, LinkEntry)>)
    requires
        slugs_distinct(s),
    ensures
        registry_map(s).dom().finite(),
        registry_map(s).len() == s.len(),
    decreases s.len(),
{
    if s.len() > 0 {
        let p = s.drop_last();
        assert(slugs_distinct(p)) by {
            assert forall|i: int, j: int| 0 <= i < j < p.len() implies (#[trigger] p[i]).0@ != (
            #[trigger] p[j]).0@ by {
                assert(p[i] == s[i] && p[j] == s[j]);
            }
        }
        lemma_registry_len(p);
        lemma_registry_map(p);
        assert(!registry_map(p).contains_key(s.last().0@)) by {
            if registry_map(p).contains_key(s.last().0@) {
                let i = choose|i: int| 0 <= i < p.len() && (#[trigger] p[i]).0@ == s.last().0@;
                assert(s[i] == p[i]);
            }
        }
    }
}

/// The placeholder anchor that starts at `i` of `s`, if one does:
/// `<a`, white space, `class="wikilink"`, white space, `data-slug="SLUG">TEXT</a>`
/// where `SLUG` is a non-empty run without `"` and `TEXT` a run without `<`.
/// Given as `(c0, c, d, e)`: `SLUG` is `s[c0..c]`, `TEXT` is `s[c + 2 .. d]`,
/// and the anchor ends at `e`.
pub open spec fn placeholder_at(s: Seq<char>, i: int) -> Option<(int, int, int, int)> {
    if !occurs(s, i, "<a"@) {
        None
    } else {
        let a = run_end(s, i + "<a"@.len(), CharClass::Space);
        if a == i + "<a"@.len() || !occurs(s, a, "class=\"wikilink\""@) {
            None
        } else {
            let b0 = a + "class=\"wikilink\""@.len();
            let b = run_end(s, b0, CharClass::Space);
            if b == b0 || !occurs(s, b, "data-slug=\""@) {
                None
            } else {
                let c0 = b + "data-slug=\""@.len();
                let c = run_end(s, c0, CharClass::NotQuote);
                if c == c0 || !occurs(s, c, "\">"@) {
                    None
                } else {
                    let d = run_end(s, c + "\">"@.len(), CharClass::NotLt);
                    if occurs(s, d, "</a>"@) {
                        Some((c0, c, d, d + "</a>"@.len()))
                    } else {
                        None
                    }
                }
            }
        }
    }
}

pub proof fn lemma_placeholder_at(s: Seq<char>, i: int)
    requires
        0 <= i <= s.len(),
    ensures
        placeholder_at(s, i) matches Some((c0, c, d, e)) ==> i < c0 < c && c + "\">"@.len() <= d
            && e == d + "</a>"@.len() && e <= s.len(),
{
    if occurs(s, i, "<a"@) {
        lemma_run_end(s, i + "<a"@.len(), CharClass::Space);
        let a = run_end(s, i + "<a"@.len(), CharClass::Space);
        if a != i + "<a"@.len() && occurs(s, a, "class=\"wikilink\""@) {
            let b0 = a + "class=\"wikilink\""@.len();
            lemma_run_end(s, b0, CharClass::Space);
            let b = run_end(s, b0, CharClass::Space);
            if b != b0 && occurs(s, b, "data-slug=\""@) {
                let c0 = b + "data-slug=\""@.len();
                lemma_run_end(s, c0, CharClass::NotQuote);
                let c = run_end(s, c0, CharClass::NotQuote);
                if c != c0 && occurs(s, c, "\">"@) {
                    lemma_run_end(s, c + "\">"@.len(), CharClass::NotLt);
                }
            }
        }
    }
}

/// What the placeholder for `slug` showing `display` resolves to against
/// `reg`: a link to the post, showing its title when `display` is
/// `[[slug]]`; or, for an unknown slug, the anchor marked `broken-link`.
pub open spec fn resolved_anchor(
    slug: Seq<char>,
    display: Seq<char>,
    reg: Map<Seq<char>, (Seq<char>, Seq<char>)>,
) -> Seq<char> {
    if reg.contains_key(slug) {
        "<a href=\""@ + reg[slug].1 + "\">"@ + (if display == "[["@ + slug + "]]"@ {
            reg[slug].0
        } else {
            display
        }) + "</a>"@
    } else {
        "<a class=\"wikilink broken-link\" data-slug=\""@ + slug + "\">"@ + display + "</a>"@
    }
}

/// `s[i..]` with every placeholder resolved against `reg`.
pub open spec fn resolved_from(s: Seq<char>, i: int, reg: Map<Seq<char>, (Seq<char>, Seq<char>)>) -> Seq<char>
    decreases s.len() - i,
{
    if i < 0 || i >= s.len() {
        Seq::empty()
    } else {
        match placeholder_at(s, i) {
            Some((c0, c, d, e)) => {
                proof {
                    lemma_placeholder_at(s, i);
                }
                resolved_anchor(s.subrange(c0, c), s.subrange(c + "\">"@.len(), d), reg)
                    + resolved_from(s, e, reg)
            },
            None => seq![s[i]] + resolved_from(s, i + 1, reg),
        }
    }
}

/// The slugs of the placeholders in `s[i..]` that `reg` does not know, in order.
pub open spec fn broken_from(s: Seq<char>, i: int, reg: Map<Seq<char>, (Seq<char>, Seq<char>)>) -> Seq<Seq<char>>
    decreases s.len() - i,
{
    if i < 0 || i >= s.len() {
        Seq::empty()
    } else {
        match placeholder_at(s, i) {
            Some((c0, c, d, e)) => {
                proof {
                    lemma_placeholder_at(s, i);
                }
                (if reg.contains_key(s.subrange(c0, c)) {
                    Seq::empty()
                } else {
                    seq![s.subrange(c0, c)]
                }) + broken_from(s, e, reg)
            },
            None => broken_from(s, i + 1, reg),
        }
    }
}

/// `placeholder_at` on a vector.
fn match_placeholder(v: &Vec<char>, i: usize, lits: &PlaceholderLits) -> (r: Option<(usize, usize, usize, usize)>)
    requires
        i <= v@.len(),
        lits.wf(),
    ensures
        r matches Some((c0, c, d, e)) ==> placeholder_at(v@, i as int) == Some((c0 as int, c as int, d as int, e as int)),
        r is None ==> placeholder_at(v@, i as int) is None,
{
    let n = v.len();
    if !occurs_at(v, i, lits.open.as_slice()) {
        return None;
    }
    proof {
        lemma_run_end(v@, i + lits.open@.len(), CharClass::Space);
    }
    let a = find_run_end(v, i + lits.open.len(), CharClass::Space);
    if a == i + lits.open.len() || !occurs_at(v, a, lits.class.as_slice()) {
        return None;
    }
    let b0 = a + lits.class.len();
    proof {
        lemma_run_end(v@, b0 as int, CharClass::Space);
    }
    let b = find_run_end(v, b0, CharClass::Space);
    if b == b0 || !occurs_at(v, b, lits.data.as_slice()) {
        return None;
    }
    let c0 = b + lits.data.len();
    proof {
        lemma_run_end(v@, c0 as int, CharClass::NotQuote);
    }
    let c = find_run_end(v, c0, CharClass::NotQuote);
    if c == c0 || !occurs_at(v, c, lits.qgt.as_slice()) {
        return None;
    }
    proof {
        lemma_run_end(v@, c + lits.qgt@.len(), CharClass::NotLt);
    }
    let d = find_run_end(v, c + lits.qgt.len(), CharClass::NotLt);
    if occurs_at(v, d, lits.close.as_slice()) {
        Some((c0, c, d, d + lits.close.len()))
    } else {
        None
    }
}

/// The literals of the placeholder grammar, as character vectors.
struct PlaceholderLits {
    open: Vec<char>,
    class: Vec<char>,
    data: Vec<char>,
    qgt: Vec<char>,
    close: Vec<char>,
}

impl PlaceholderLits {
    spec fn wf(&self) -> bool {
        &&& self.open@ == "<a"@
        &&& self.class@ == "class=\"wikilink\""@
        &&& self.data@ == "data-slug=\""@
        &&& self.qgt@ == "\">"@
        &&& self.close@ == "</a>"@
    }

    fn new() -> (r: PlaceholderLits)
        ensures
            r.wf(),
    {
        PlaceholderLits {
            open: chars_of("<a"),
            class: chars_of("class=\"wikilink\""),
            data: chars_of("data-slug=\""),
            qgt: chars_of("\">"),
            close: chars_of("</a>"),
        }
    }
}

/// Whether `v[a..b]` spells `[[` followed by `v[s0..s1]` and `]]`.
fn is_bracketed(v: &Vec<char>, a: usize, b: usize, s0: usize, s1: usize) -> (r: bool)
    requires
        a <= b <= v@.len(),
        s0 <= s1 <= v@.len(),
    ensures
        r == (v@.subrange(a as int, b as int) == "[["@ + v@.subrange(s0 as int, s1 as int) + "]]"@),
{
    proof {
        reveal_strlit("[[");
        reveal_strlit("]]");
    }
    let len = s1 - s0;
    let ghost want = "[["@ + v@.subrange(s0 as int, s1 as int) + "]]"@;
    assert("[["@.len() == 2 && "]]"@.len() == 2);
    assert(want.len() == len + 4);
    if b - a < 4 || b - a - 4 != len {
        return false;
    }
    if v[a] != '[' || v[a + 1] != '[' || v[b - 2] != ']' || v[b - 1] != ']' {
        assert(v@.subrange(a as int, b as int) != want) by {
            let got = v@.subrange(a as int, b as int);
            if v@[a as int] != '[' {
                assert(got[0] != want[0]);
            } else if v@[a + 1] != '[' {
                assert(got[1] != want[1]);
            } else if v@[b - 2] != ']' {
                assert(got[got.len() - 2] != want[want.len() - 2]);
            } else {
                assert(got[got.len() - 1] != want[want.len() - 1]);
            }
        }
        return false;
    }
    let ghost x = v@.subrange(a + 2, b - 2);
    let ghost y = v@.subrange(s0 as int, s1 as int);
    let mut k: usize = 0;
    while k < len
        invariant
            a <= b <= v@.len(),
            s0 <= s1 <= v@.len(),
            len == s1 - s0,
            b - a == len + 4,
            k <= len,
            x == v@.subrange(a + 2, b - 2),
            want == "[["@ + v@.subrange(s0 as int, s1 as int) + "]]"@,
            want.len() == len + 4,
            "[["@.len() == 2,
            forall|j: int| 0 <= j < 2 ==> #[trigger] want[j] == '[' && want[len + 2 + j] == ']',
            y == v@.subrange(s0 as int, s1 as int),
            forall|j: int| 0 <= j < k ==> #[trigger] x[j] == y[j],
        decreases len - k,
    {
        assert(want[2 + k] == y[k as int]);
        if v[a + 2 + k] != v[s0 + k] {
            assert(v@.subrange(a as int, b as int)[2 + k] != want[2 + k]);
            return false;
        }
        assert(x[k as int] == y[k as int]);
        k = k + 1;
    }
    assert forall|j: int| 0 <= j < want.len() implies v@.subrange(a as int, b as int)[j] == want[j] by {
        if 2 <= j < len + 2 {
            assert(want[j] == y[j - 2]);
            assert(x[j - 2] == y[j - 2]);
        }
    }
    assert(v@.subrange(a as int, b as int) =~= want);
    true
}

/// Resolves placeholder anchors against `registry`: a known slug becomes
/// `<a href="URL">TEXT</a>`, where `TEXT` is the post's title if the anchor
/// showed `[[slug]]` and the anchor's text otherwise; an unknown slug
/// becomes `<a class="wikilink broken-link" data-slug="slug">TEXT</a>`.
/// Returns the resolved HTML and the unknown slugs in order of appearance.
pub fn resolve_wikilinks(html: &str, registry: &LinksRegistry) -> (r: (String, Vec<String>))
    ensures
        r.0@ == resolved_from(html@, 0, registry.map()),
        r.1@.map_values(|b: String| b@) == broken_from(html@, 0, registry.map()),
{
    let v = chars_of(html);
    let lits = PlaceholderLits::new();
    let ghost reg = registry.map();
    let mut out = String::new();
    let mut broken: Vec<String> = Vec::new();
    let mut i: usize = 0;
    while i < v.len()
        invariant
            i <= v@.len(),
            v@ == html@,
            lits.wf(),
            reg == registry.map(),
            out@ + resolved_from(v@, i as int, reg) == resolved_from(html@, 0, reg),
            broken@.map_values(|b: String| b@) + broken_from(v@, i as int, reg) == broken_from(html@, 0, reg),
        decreases v@.len() - i,
    {
        let ghost before = out@;
        let ghost before_broken = broken@.map_values(|b: String| b@);
        proof {
            lemma_placeholder_at(v@, i as int);
        }
        match match_placeholder(&v, i, &lits) {
            Some((c0, c, d, e)) => {
                let slug = string_of_range(&v, c0, c);
                let ghost disp = v@.subrange(c + lits.qgt@.len(), d as int);
                match registry.get(slug.as_str()) {
                    Some(entry) => {
                        out.append("<a href=\"");
                        out.append(entry.url.as_str());
                        out.append("\">");
                        if is_bracketed(&v, c + lits.qgt.len(), d, c0, c) {
                            out.append(entry.title.as_str());
                        } else {
                            push_range(&mut out, &v, c + lits.qgt.len(), d);
                        }
                        out.append("</a>");
                        assert(broken@.map_values(|b: String| b@) =~= before_broken + Seq::<Seq<char>>::empty());
                    },
                    None => {
                        out.append("<a class=\"wikilink broken-link\" data-slug=\"");
                        out.append(slug.as_str());
                        out.append("\">");
                        push_range(&mut out, &v, c + lits.qgt.len(), d);
                        out.append("</a>");
                        broken.push(slug);
                        assert(broken@.map_values(|b: String| b@) =~= before_broken + seq![v@.subrange(c0 as int, c as int)]);
                    },
                }
                let ghost anchor = resolved_anchor(v@.subrange(c0 as int, c as int), disp, reg);
                assert(out@ =~= before + anchor);
                assert(before + (anchor + resolved_from(v@, e as int, reg)) =~= out@ + resolved_from(
                    v@,
                    e as int,
                    reg,
                ));
                assert(broken@.map_values(|b: String| b@) + broken_from(v@, e as int, reg) =~= before_broken
                    + broken_from(v@, i as int, reg));
                i = e;
            },
            None => {
                push_char(&mut out, v[i]);
                assert(before + (seq![v@[i as int]] + resolved_from(v@, i + 1, reg)) =~= out@
                    + resolved_from(v@, i + 1, reg));
                i = i + 1;
            },
        }
    }
    assert(out@ + resolved_from(v@, i as int, reg) =~= out@);
    assert(broken@.map_values(|b: String| b@) + broken_from(v@, i as int, reg) =~= broken@.map_values(|b: String| b@));
    (out, broken)
}

} // verus!
