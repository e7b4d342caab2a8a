//! A JSON value model holding exactly what the pipeline reads and writes.
use vstd::prelude::*;

verus! {

#[derive(Debug, PartialEq, Eq)]
pub enum JsonValue {
    Null,
    Bool(bool),
    UInt(u64),
    Int(i64),
    Float(String),
    Str(String),
    Array(Vec<JsonValue>),
    Object(Vec<(String, JsonValue)>),
}

pub enum JsonView {
    Null,
    Bool(bool),
    UInt(u64),
    Int(i64),
    Float(Seq<char>),
    Str(Seq<char>),
    Array(Seq<JsonView>),
    Object(Seq<(Seq<char>, JsonView)>),
}

impl JsonValue {
    pub open spec fn jview(&self) -> JsonView
        decreases self,
    {
        match self {
            JsonValue::Null => JsonView::Null,
            JsonValue::Bool(b) => JsonView::Bool(*b),
            JsonValue::UInt(n) => JsonView::UInt(*n),
            JsonValue::Int(n) => JsonView::Int(*n),
            JsonValue::Float(s) => JsonView::Float(s@),
            JsonValue::Str(s) => JsonView::Str(s@),
            JsonValue::Array(a) => JsonView::Array(
                Seq::new(a@.len(), |i: int| if 0 <= i < a@.len() { a@[i].jview() } else { JsonView::Null }),
            ),
            JsonValue::Object(o) => JsonView::Object(
                Seq::new(o@.len(), |i: int| if 0 <= i < o@.len() { (o@[i].0@, o@[i].1.jview()) } else { (Seq::empty(), JsonView::Null) }),
            ),
        }
    }

    pub fn deep_clone(&self) -> (r: JsonValue)
        ensures
            r.jview() == self.jview(),
        decreases self,
    {
        match self {
            JsonValue::Null => JsonValue::Null,
            JsonValue::Bool(b) => JsonValue::Bool(*b),
            JsonValue::UInt(n) => JsonValue::UInt(*n),
            JsonValue::Int(n) => JsonValue::Int(*n),
            JsonValue::Float(s) => JsonValue::Float(s.clone()),
            JsonValue::Str(s) => JsonValue::Str(s.clone()),
            JsonValue::Array(a) => {
                let mut out: Vec<JsonValue> = Vec::new();
                let mut i: usize = 0;
                while i < a.len()
                    invariant
                        i <= a@.len(),
                        out@.len() == i,
                        *self == JsonValue::Array(*a),
                        forall|j: int| #![trigger out@[j]] 0 <= j < i ==> out@[j].jview() == a@[j].jview(),
                    decreases a@.len() - i,
                {
                    proof {
                        broadcast use vstd::std_specs::vec::axiom_vec_index_decreases;
                        assert(decreases_to!(*self => self->Array_0));
                        assert(decreases_to!(self->Array_0 => a[i as int]));
                    }
                    let c = a[i].deep_clone();
                    out.push(c);
                    i = i + 1;
                }
                let r = JsonValue::Array(out);
                assert(out@.len() == a@.len());
                assert forall|j: int| 0 <= j < out@.len() implies r.jview()->Array_0[j] == self.jview()->Array_0[j] by {
                    assert(out@[j].jview() == a@[j].jview());
                }
                assert(r.jview()->Array_0 =~= self.jview()->Array_0);
                r
            },
            JsonValue::Object(o) => {
                let mut out: Vec<(String, JsonValue)> = Vec::new();
                let mut i: usize = 0;
                while i < o.len()
                    invariant
                        i <= o@.len(),
                        out@.len() == i,
                        *self == JsonValue::Object(*o),
                        forall|j: int| #![trigger out@[j]] 0 <= j < i ==> out@[j].0@ == o@[j].0@ && out@[j].1.jview() == o@[j].1.jview(),
                    decreases o@.len() - i,
                {
                    let k = o[i].0.clone();
                    proof {
                        broadcast use vstd::std_specs::vec::axiom_vec_index_decreases;
                        assert(decreases_to!(*self => self->Object_0));
                        assert(decreases_to!(self->Object_0 => o[i as int]));
                        assert(decreases_to!(o[i as int] => o[i as int].1));
                    }
                    let v = o[i].1.deep_clone();
                    out.push((k, v));
                    i = i + 1;
                }
                let r = JsonValue::Object(out);
                assert(out@.len() == o@.len());
                assert forall|j: int| 0 <= j < out@.len() implies r.jview()->Object_0[j] == self.jview()->Object_0[j] by {
                    assert(out@[j].1.jview() == o@[j].1.jview());
                }
                assert(r.jview()->Object_0 =~= self.jview()->Object_0);
                r
            },
        }
    }
}

/// The position of the first entry of `o` whose key is `k`, or -1.
pub open spec fn key_index(o: Seq<(String, JsonValue)>, k: Seq<char>) -> int
    decreases o.len(),
{
    if o.len() == 0 {
        -1
    } else if o.last().0@ == k && key_index(o.drop_last(), k) < 0 {
        o.len() - 1
    } else {
        key_index(o.drop_last(), k)
    }
}

pub proof fn lemma_key_index(o: Seq<(String, JsonValue)>, k: Seq<char>)
    ensures
        -1 <= key_index(o, k) < o.len(),
        key_index(o, k) >= 0 ==> o[key_index(o, k)].0@ == k,
        forall|i: int| 0 <= i < o.len() && (key_index(o, k) < 0 || i < key_index(o, k)) ==> (
        #[trigger] o[i]).0@ != k,
    decreases o.len(),
{
    if o.len() > 0 {
        lemma_key_index(o.drop_last(), k);
        assert forall|i: int| 0 <= i < o.len() && (key_index(o, k) < 0 || i < key_index(o, k)) implies (
        #[trigger] o[i]).0@ != k by {
            if i < o.len() - 1 {
                assert(o[i] == o.drop_last()[i]);
            }
        }
    }
}

/// The value of the first entry of `o` whose key is `k`.
pub open spec fn lookup(o: Seq<(String, JsonValue)>, k: Seq<char>) -> Option<JsonView> {
    if key_index(o, k) < 0 {
        None
    } else {
        Some(o[key_index(o, k)].1.jview())
    }
}

/// Whether `k` is the key of some entry of `o`.
pub open spec fn has_key(o: Seq<(String, JsonValue)>, k: Seq<char>) -> bool {
    exists|i: int| 0 <= i < o.len() && (#[trigger] o[i]).0@ == k
}

/// No two entries of `o` have the same key.
pub open spec fn keys_distinct(o: Seq<(String, JsonValue)>) -> bool {
    forall|i: int, j: int| 0 <= i < j < o.len() ==> (#[trigger] o[i]).0@ != (#[trigger] o[j]).0@
}

/// A key is found exactly when some entry has it.
pub proof fn lemma_lookup_has_key(o: Seq<(String, JsonValue)>, k: Seq<char>)
    ensures
        lookup(o, k) is Some <==> has_key(o, k),
{
    lemma_key_index(o, k);
    if has_key(o, k) {
        let i = choose|i: int| 0 <= i < o.len() && (#[trigger] o[i]).0@ == k;
        assert(o[i].0@ == k);
    }
}

/// Finds the first entry of `o` whose key is `key`.
pub fn find_entry(o: &Vec<(String, JsonValue)>, key: &str) -> (r: Option<usize>)
    ensures
        r matches Some(i) ==> key_index(o@, key@) == i && i < o@.len(),
        r is None ==> key_index(o@, key@) < 0,
{
    proof {
        lemma_key_index(o@, key@);
    }
    let mut i: usize = 0;
    while i < o.len()
        invariant
            i <= o@.len(),
            forall|j: int| 0 <= j < i ==> (#[trigger] o@[j]).0@ != key@,
        decreases o@.len() - i,
    {
        if str_eq(o[i].0.as_str(), key) {
            proof {
                lemma_key_index(o@, key@);
            }
            return Some(i);
        }
        i = i + 1;
    }
    None
}

/// Whether two strings are equal.
pub fn str_eq(a: &str, b: &str) -> (r: bool)
    ensures
        r == (a@ == b@),
{
    let x = crate::text::chars_of(a);
    let y = crate::text::chars_of(b);
    if x.len() != y.len() {
        return false;
    }
    let mut i: usize = 0;
    while i < x.len()
        invariant
            x@ == a@,
            y@ == b@,
            x@.len() == y@.len(),
            i <= x@.len(),
            forall|j: int| 0 <= j < i ==> x@[j] == y@[j],
        decreases x@.len() - i,
    {
        if x[i] != y[i] {
            return false;
        }
        i = i + 1;
    }
    assert(x@ =~= y@);
    true
}

/// Sets `key` to `value` in the entries `o`: the first entry with that key is
/// given the new value in place, or a new entry is appended.
pub fn insert_entry(o: &mut Vec<(String, JsonValue)>, key: String, value: JsonValue)
    ensures
        lookup(final(o)@, key@) == Some(value.jview()),
        forall|k: Seq<char>| k != key@ ==> lookup(final(o)@, k) == lookup(old(o)@, k),
        forall|k: Seq<char>| #[trigger] has_key(final(o)@, k) <==> has_key(old(o)@, k) || k == key@,
        keys_distinct(old(o)@) ==> keys_distinct(final(o)@),
        final(o)@.len() == old(o)@.len() + if has_key(old(o)@, key@) {
            0int
        } else {
            1int
        },
{
    proof {
        lemma_key_index(o@, key@);
    }
    match find_entry(o, key.as_str()) {
        Some(i) => {
            let ghost before = o@;
            assert(before[i as int].0@ == key@);
            o.set(i, (key, value));
            proof {
                assert forall|k: Seq<char>| k != key@ implies lookup(o@, k) == lookup(before, k) by {
                    lemma_key_index(before, k);
                    lemma_key_index(o@, k);
                    if key_index(before, k) >= 0 {
                        assert(key_index(o@, k) == key_index(before, k)) by {
                            lemma_key_index_eq(o@, before, k, key_index(before, k));
                        }
                    } else {
                        assert(key_index(o@, k) < 0) by {
                            if key_index(o@, k) >= 0 {
                                let j = key_index(o@, k);
                                assert(o@[j].0@ == k);
                                assert(j != i);
                                assert(before[j] == o@[j]);
                            }
                        }
                    }
                }
                lemma_key_index(o@, key@);
                assert(key_index(o@, key@) == i as int) by {
                    lemma_key_index_eq(o@, before, key@, i as int);
                }
                assert forall|k: Seq<char>| #[trigger] has_key(o@, k) <==> has_key(before, k) || k == key@ by {
                    if has_key(o@, k) {
                        let j = choose|j: int| 0 <= j < o@.len() && (#[trigger] o@[j]).0@ == k;
                        if j != i {
                            assert(before[j] == o@[j]);
                        }
                    }
                    if has_key(before, k) {
                        let j = choose|j: int| 0 <= j < before.len() && (#[trigger] before[j]).0@ == k;
                        assert(o@[j].0@ == k);
                    }
                    if k == key@ {
                        assert(o@[i as int].0@ == k);
                    }
                }
            }
        },
        None => {
            let ghost before = o@;
            let ghost kv = key@;
            assert(!has_key(before, kv)) by {
                if has_key(before, kv) {
                    let j = choose|j: int| 0 <= j < before.len() && (#[trigger] before[j]).0@ == kv;
                }
            }
            o.push((key, value));
            proof {
                lemma_key_index(o@, kv);
                assert(o@.drop_last() =~= before);
                assert forall|k: Seq<char>| k != kv implies lookup(o@, k) == lookup(before, k) by {
                    lemma_key_index(before, k);
                }
                assert forall|k: Seq<char>| #[trigger] has_key(o@, k) <==> has_key(before, k) || k == kv by {
                    if has_key(o@, k) {
                        let j = choose|j: int| 0 <= j < o@.len() && (#[trigger] o@[j]).0@ == k;
                        if j < before.len() {
                            assert(before[j] == o@[j]);
                        }
                    }
                    if has_key(before, k) {
                        let j = choose|j: int| 0 <= j < before.len() && (#[trigger] before[j]).0@ == k;
                        assert(o@[j].0@ == k);
                    }
                    if k == kv {
                        assert(o@[before.len() as int].0@ == k);
                    }
                }
                if keys_distinct(before) {
                    assert forall|a: int, b: int| 0 <= a < b < o@.len() implies (#[trigger] o@[a]).0@
                        != (#[trigger] o@[b]).0@ by {
                        if b < before.len() {
                            assert(before[a] == o@[a] && before[b] == o@[b]);
                        } else {
                            assert(before[a] == o@[a]);
                        }
                    }
                }
            }
        },
    }
}

/// Two entry sequences that agree on keys up to and at position `j`, where
/// `k` is found at `j`, find `k` at `j` alike.
pub proof fn lemma_key_index_eq(a: Seq<(String, JsonValue)>, b: Seq<(String, JsonValue)>, k: Seq<char>, j: int)
    requires
        a.len() == b.len(),
        0 <= j < a.len(),
        forall|i: int| 0 <= i <= j ==> (#[trigger] a[i]).0@ == b[i].0@,
        key_index(b, k) == j,
    ensures
        key_index(a, k) == j,
{
    lemma_key_index(a, k);
    lemma_key_index(b, k);
    assert(a[j].0@ == k);
    if key_index(a, k) >= 0 && key_index(a, k) < j {
        assert(b[key_index(a, k)].0@ == k);
    }
    if key_index(a, k) < 0 {
        assert(a[j].0@ == k);
    }
}

/// Entries with the same keys and equal values, position by position,
/// answer every lookup alike.
pub proof fn lemma_same_entries(a: Seq<(String, JsonValue)>, b: Seq<(String, JsonValue)>)
    requires
        a.len() == b.len(),
        forall|i: int| 0 <= i < a.len() ==> (#[trigger] a[i]).0@ == b[i].0@ && a[i].1.jview() == b[i].1.jview(),
    ensures
        forall|k: Seq<char>| #[trigger] key_index(a, k) == key_index(b, k),
        forall|k: Seq<char>| #[trigger] lookup(a, k) == lookup(b, k),
        forall|k: Seq<char>| #[trigger] has_key(a, k) == has_key(b, k),
        keys_distinct(a) == keys_distinct(b),
    decreases a.len(),
{
    if a.len() > 0 {
        let (pa, pb) = (a.drop_last(), b.drop_last());
        assert forall|i: int| 0 <= i < pa.len() implies (#[trigger] pa[i]).0@ == pb[i].0@ && pa[i].1.jview() == pb[i].1.jview() by {
            assert(pa[i] == a[i] && pb[i] == b[i]);
        }
        lemma_same_entries(pa, pb);
        assert(a.last().0@ == b.last().0@);
        assert forall|k: Seq<char>| #[trigger] key_index(a, k) == key_index(b, k) by {
            assert(key_index(pa, k) == key_index(pb, k));
        }
    }
    assert forall|k: Seq<char>| #[trigger] has_key(a, k) == has_key(b, k) by {
        if has_key(a, k) {
            let i = choose|i: int| 0 <= i < a.len() && (#[trigger] a[i]).0@ == k;
            assert(b[i].0@ == k);
        }
        if has_key(b, k) {
            let i = choose|i: int| 0 <= i < b.len() && (#[trigger] b[i]).0@ == k;
            assert(a[i].0@ == k);
        }
    }
    assert forall|k: Seq<char>| #[trigger] lookup(a, k) == lookup(b, k) by {
        lemma_key_index(a, k);
        assert(key_index(a, k) == key_index(b, k));
        if key_index(a, k) >= 0 {
            assert(a[key_index(a, k)].1.jview() == b[key_index(a, k)].1.jview());
        }
    }
    if keys_distinct(a) {
        assert forall|i: int, j: int| 0 <= i < j < b.len() implies (#[trigger] b[i]).0@ != (#[trigger] b[j]).0@ by {
            assert(a[i].0@ != a[j].0@);
        }
    }
    if keys_distinct(b) {
        assert forall|i: int, j: int| 0 <= i < j < a.len() implies (#[trigger] a[i]).0@ != (#[trigger] a[j]).0@ by {
            assert(b[i].0@ != b[j].0@);
        }
    }
}

impl JsonValue {
    /// For an object, the value of the first entry whose key is `key`.
    pub fn get(&self, key: &str) -> (r: Option<&JsonValue>)
        ensures
            match self {
                JsonValue::Object(o) => match r {
                    Some(v) => lookup(o@, key@) == Some(v.jview()),
                    None => lookup(o@, key@) is None,
                },
                _ => r is None,
            },
    {
        match self {
            JsonValue::Object(o) => match find_entry(o, key) {
                Some(i) => Some(&o[i].1),
                None => None,
            },
            _ => None,
        }
    }

    /// The text of a string value.
    pub fn as_str(&self) -> (r: Option<&str>)
        ensures
            match self {
                JsonValue::Str(s) => r matches Some(t) && t@ == s@,
                _ => r is None,
            },
    {
        match self {
            JsonValue::Str(s) => Some(s.as_str()),
            _ => None,
        }
    }

    /// The elements of an array value.
    pub fn as_array(&self) -> (r: Option<&Vec<JsonValue>>)
        ensures
            match self {
                JsonValue::Array(a) => r == Some(a),
                _ => r is None,
            },
    {
        match self {
            JsonValue::Array(a) => Some(a),
            _ => None,
        }
    }

    /// The entries of an object value.
    pub fn as_object(&self) -> (r: Option<&Vec<(String, JsonValue)>>)
        ensures
            match self {
                JsonValue::Object(o) => r == Some(o),
                _ => r is None,
            },
    {
        match self {
            JsonValue::Object(o) => Some(o),
            _ => None,
        }
    }
}

} // verus!
