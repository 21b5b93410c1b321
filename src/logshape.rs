use vstd::prelude::*;
use crate::collection::{metadata_view, TextMap};
use crate::strmap::StrMap;
use crate::text::{
    chars_of, digits_end, digits_end_exec, is_digit, lit_at, lit_at_exec, next_char,
    next_char_exec, quoted_at, quoted_at_exec, string_of, unescape, unescape_exec,
};

verus! {

/// How a creation message starts.
pub open spec fn create_head() -> Seq<char> {
    "Created new collection with name: '"@
}

/// What stands between a created collection's name and its dimension.
pub open spec fn create_mid() -> Seq<char> {
    "', dimension: '"@
}

/// What stands between a created collection's dimension and its distance.
pub open spec fn create_tail() -> Seq<char> {
    "', distance: '"@
}

/// How a deletion message starts.
pub open spec fn delete_head() -> Seq<char> {
    "Deleted collection: '"@
}

/// How a single-insert message starts, up to the id's digits.
pub open spec fn insert_head() -> Seq<char> {
    "Embedding: 'Embedding { id: {\"unique_id\": \""@
}

/// How a logged embedding starts, up to the id's digits.
pub open spec fn embedding_head() -> Seq<char> {
    "Embedding { id: {\"unique_id\": \""@
}

/// What stands between a logged id's digits and the vector.
pub open spec fn vector_head() -> Seq<char> {
    "\"}, vector: ["@
}

/// What stands between a logged vector and the metadata.
pub open spec fn metadata_head() -> Seq<char> {
    "], metadata: "@
}

/// Logged metadata that is absent, with the end of the embedding.
pub open spec fn no_metadata() -> Seq<char> {
    "None }"@
}

/// How present logged metadata opens.
pub open spec fn metadata_open() -> Seq<char> {
    "Some({"@
}

/// How present logged metadata closes, with the end of the embedding.
pub open spec fn metadata_close() -> Seq<char> {
    "}) }"@
}

/// What stands between a metadata key and its value.
pub open spec fn pair_mid() -> Seq<char> {
    ": "@
}

/// What stands between two items of a logged list.
pub open spec fn item_sep() -> Seq<char> {
    ", "@
}

/// What follows the embedding of a single-insert message, up to the collection's name.
pub open spec fn insert_tail() -> Seq<char> {
    "', successfully inserted into collection '"@
}

/// How a batch message starts, up to its list.
pub open spec fn batch_head() -> Seq<char> {
    "Embedding: '["@
}

/// What follows the list of a batch message, up to the collection's name.
pub open spec fn batch_tail() -> Seq<char> {
    "]' successfully updated to collection '"@
}

/// The first position `p` at or after `from` where `m` matches, with what it found.
pub open spec fn first_from<X>(n: int, from: int, m: spec_fn(int) -> Option<X>) -> Option<X>
    decreases n + 1 - from,
{
    if from < 0 || from > n {
        None
    } else if m(from) is Some {
        m(from)
    } else {
        first_from(n, from + 1, m)
    }
}

/// Bounds of the name, the dimension's digits and the distance's name when a
/// creation entry starts at `p`.
pub open spec fn create_at(s: Seq<char>, p: int) -> Option<(int, int, int, int, int, int)> {
    if !lit_at(s, p, create_head()) {
        None
    } else {
        let a = p + create_head().len();
        let b = next_char(s, a, '\'');
        if b == a || !lit_at(s, b, create_mid()) {
            None
        } else {
            let c = b + create_mid().len();
            let d = digits_end(s, c);
            if d == c || !lit_at(s, d, create_tail()) {
                None
            } else {
                let e = d + create_tail().len();
                let f = next_char(s, e, '\'');
                if f == e || f >= s.len() {
                    None
                } else {
                    Some((a, b, c, d, e, f))
                }
            }
        }
    }
}

/// The leftmost creation entry of `s`.
pub open spec fn find_create(s: Seq<char>) -> Option<(int, int, int, int, int, int)> {
    first_from(s.len() as int, 0, |p: int| create_at(s, p))
}

/// Finds the leftmost creation entry of `s`.
pub fn find_create_exec(s: &Vec<char>) -> (r: Option<(usize, usize, usize, usize, usize, usize)>)
    ensures
        match r {
            Some(t) => find_create(s@) == Some(
                (t.0 as int, t.1 as int, t.2 as int, t.3 as int, t.4 as int, t.5 as int),
            ) && t.0 <= t.1 <= t.2 <= t.3 <= t.4 <= t.5 < s@.len() && forall|x: int|
                t.2 <= x < t.3 ==> is_digit(s@[x]),
            None => find_create(s@) is None,
        },
{
    let head = chars_of("Created new collection with name: '");
    let mid = chars_of("', dimension: '");
    let tail = chars_of("', distance: '");
    let ghost m = |p: int| create_at(s@, p);
    let mut p: usize = 0;
    while p <= s.len()
        invariant
            p <= s@.len() + 1,
            head@ == create_head(),
            mid@ == create_mid(),
            tail@ == create_tail(),
            m == (|p: int| create_at(s@, p)),
            find_create(s@) == first_from(s@.len() as int, p as int, m),
        decreases s@.len() + 1 - p,
    {
        if lit_at_exec(s, p, &head) {
            let a = p + head.len();
            let b = next_char_exec(s, a, '\'');
            if b != a && lit_at_exec(s, b, &mid) {
                let c = b + mid.len();
                let d = digits_end_exec(s, c);
                if d != c && lit_at_exec(s, d, &tail) {
                    let e = d + tail.len();
                    let f = next_char_exec(s, e, '\'');
                    if f != e && f < s.len() {
                        proof {
                            assert(m(p as int) == Some(
                                (a as int, b as int, c as int, d as int, e as int, f as int),
                            ));
                            assert forall|x: int| c <= x < d implies is_digit(s@[x]) by {
                                lemma_digits_end(s@, c as int, x);
                            }
                        }
                        return Some((a, b, c, d, e, f));
                    }
                }
            }
        }
        proof {
            assert(m(p as int) is None);
        }
        if p == s.len() {
            proof {
                assert(first_from(s@.len() as int, p + 1, m) is None);
            }
            return None;
        }
        p = p + 1;
    }
    None
}

proof fn lemma_digits_end(s: Seq<char>, c: int, x: int)
    requires
        0 <= c <= x < digits_end(s, c),
    ensures
        is_digit(s[x]),
    decreases x - c,
{
    if x > c {
        lemma_digits_end(s, c + 1, x);
    }
}

/// Bounds of the name when a deletion entry starts at `p`.
pub open spec fn delete_at(s: Seq<char>, p: int) -> Option<(int, int)> {
    if !lit_at(s, p, delete_head()) {
        None
    } else {
        let a = p + delete_head().len();
        let b = next_char(s, a, '\'');
        if b >= s.len() {
            None
        } else {
            Some((a, b))
        }
    }
}

/// The leftmost deletion entry of `s`.
pub open spec fn find_delete(s: Seq<char>) -> Option<(int, int)> {
    first_from(s.len() as int, 0, |p: int| delete_at(s, p))
}

/// Finds the leftmost deletion entry of `s`.
pub fn find_delete_exec(s: &Vec<char>) -> (r: Option<(usize, usize)>)
    ensures
        match r {
            Some(t) => find_delete(s@) == Some((t.0 as int, t.1 as int)) && t.0 <= t.1 < s@.len(),
            None => find_delete(s@) is None,
        },
{
    let head = chars_of("Deleted collection: '");
    let ghost m = |p: int| delete_at(s@, p);
    let mut p: usize = 0;
    while p <= s.len()
        invariant
            p <= s@.len() + 1,
            head@ == delete_head(),
            m == (|p: int| delete_at(s@, p)),
            find_delete(s@) == first_from(s@.len() as int, p as int, m),
        decreases s@.len() + 1 - p,
    {
        if lit_at_exec(s, p, &head) {
            let a = p + head.len();
            let b = next_char_exec(s, a, '\'');
            if b < s.len() {
                proof {
                    assert(m(p as int) == Some((a as int, b as int)));
                }
                return Some((a, b));
            }
        }
        proof {
            assert(m(p as int) is None);
        }
        if p == s.len() {
            proof {
                assert(first_from(s@.len() as int, p + 1, m) is None);
            }
            return None;
        }
        p = p + 1;
    }
    None
}

/// The mapping of a list of pairs; a later pair wins.
pub open spec fn pairs_map(ps: Seq<(Seq<char>, Seq<char>)>) -> TextMap
    decreases ps.len(),
{
    if ps.len() == 0 {
        Map::empty()
    } else {
        pairs_map(ps.drop_last()).insert(ps.last().0, ps.last().1)
    }
}

/// The metadata pair `"key": "value"` that starts at `j`, both strings
/// unescaped, with the position after it.
pub open spec fn pair_at(s: Seq<char>, j: int) -> Option<((Seq<char>, Seq<char>), int)> {
    match quoted_at(s, j) {
        None => None,
        Some(k1) => if !lit_at(s, k1, pair_mid()) {
            None
        } else {
            match quoted_at(s, k1 + pair_mid().len()) {
                None => None,
                Some(v1) => Some(
                    (
                        (
                            unescape(s.subrange(j + 1, k1 - 1)),
                            unescape(s.subrange(k1 + pair_mid().len() + 1, v1 - 1)),
                        ),
                        v1,
                    ),
                ),
            }
        },
    }
}

/// The metadata pairs that start at `j`, separated by `, `, with the
/// position after the last one.
pub open spec fn pairs_from(s: Seq<char>, j: int) -> Option<(Seq<(Seq<char>, Seq<char>)>, int)>
    decreases s.len() - j,
{
    match pair_at(s, j) {
        None => None,
        Some((pr, v1)) => if j < v1 && lit_at(s, v1, item_sep()) {
            match pairs_from(s, v1 + item_sep().len()) {
                None => None,
                Some((rest, e)) => Some((seq![pr] + rest, e)),
            }
        } else {
            Some((seq![pr], v1))
        },
    }
}

/// The logged metadata that starts at `m`, with the position after the
/// embedding's closing brace.
pub open spec fn metadata_at(s: Seq<char>, m: int) -> Option<(Option<TextMap>, int)> {
    if lit_at(s, m, no_metadata()) {
        Some((None, m + no_metadata().len()))
    } else if !lit_at(s, m, metadata_open()) {
        None
    } else {
        let j = m + metadata_open().len();
        if lit_at(s, j, metadata_close()) {
            Some((Some(Map::empty()), j + metadata_close().len()))
        } else {
            match pairs_from(s, j) {
                None => None,
                Some((ps, e)) => if lit_at(s, e, metadata_close()) {
                    Some((Some(pairs_map(ps)), e + metadata_close().len()))
                } else {
                    None
                },
            }
        }
    }
}

/// A logged embedding as found in a text: the bounds of its id's digits
/// and of its vector's text, its metadata, and where it ends.
pub struct FoundView {
    pub id: (int, int),
    pub vector: (int, int),
    pub metadata: Option<TextMap>,
    pub end: int,
}

/// The logged embedding that starts at `p` with `head`. Its vector's text
/// runs to the first `]`; its metadata is `None` or `Some({..})`.
pub open spec fn embedding_at(s: Seq<char>, p: int, head: Seq<char>) -> Option<FoundView> {
    if !lit_at(s, p, head) {
        None
    } else {
        let d0 = p + head.len();
        let d1 = digits_end(s, d0);
        if d1 == d0 || !lit_at(s, d1, vector_head()) {
            None
        } else {
            let v0 = d1 + vector_head().len();
            let v1 = next_char(s, v0, ']');
            if !lit_at(s, v1, metadata_head()) {
                None
            } else {
                match metadata_at(s, v1 + metadata_head().len()) {
                    None => None,
                    Some((md, e)) => Some(
                        FoundView { id: (d0, d1), vector: (v0, v1), metadata: md, end: e },
                    ),
                }
            }
        }
    }
}

/// A logged embedding as found by the reader.
pub struct FoundEmbedding {
    pub id_start: usize,
    pub id_end: usize,
    pub vector_start: usize,
    pub vector_end: usize,
    pub metadata: Option<StrMap>,
    pub end: usize,
}

pub open spec fn found_view(f: FoundEmbedding) -> FoundView {
    FoundView {
        id: (f.id_start as int, f.id_end as int),
        vector: (f.vector_start as int, f.vector_end as int),
        metadata: metadata_view(f.metadata),
        end: f.end as int,
    }
}

/// The bounds are ordered and within `s`, and the id is made of digits.
pub open spec fn found_wf(s: Seq<char>, f: FoundView) -> bool {
    &&& 0 <= f.id.0 <= f.id.1 <= f.vector.0 <= f.vector.1 <= f.end <= s.len()
    &&& forall|x: int| f.id.0 <= x < f.id.1 ==> is_digit(s[x])
}

fn pair_at_exec(s: &Vec<char>, j: usize) -> (r: Option<(String, String, usize)>)
    ensures
        match r {
            Some((k, v, v1)) => pair_at(s@, j as int) == Some(((k@, v@), v1 as int)) && j < v1
                <= s@.len(),
            None => pair_at(s@, j as int) is None,
        },
{
    let mid = chars_of(": ");
    match quoted_at_exec(s, j) {
        None => None,
        Some(k1) => {
            if !lit_at_exec(s, k1, &mid) {
                return None;
            }
            match quoted_at_exec(s, k1 + mid.len()) {
                None => None,
                Some(v1) => {
                    let k = unescape_exec(s, j + 1, k1 - 1);
                    let v = unescape_exec(s, k1 + mid.len() + 1, v1 - 1);
                    Some((string_of(k.as_slice()), string_of(v.as_slice()), v1))
                },
            }
        },
    }
}

/// `acc` followed by what `r` found.
pub open spec fn prepend(
    acc: Seq<(Seq<char>, Seq<char>)>,
    r: Option<(Seq<(Seq<char>, Seq<char>)>, int)>,
) -> Option<(Seq<(Seq<char>, Seq<char>)>, int)> {
    match r {
        None => None,
        Some((ps, e)) => Some((acc + ps, e)),
    }
}

fn pairs_exec(s: &Vec<char>, j: usize) -> (r: Option<(StrMap, usize)>)
    ensures
        match r {
            Some((m, e)) => pairs_from(s@, j as int) matches Some((ps, e2)) && e2 == e as int
                && m@ == pairs_map(ps) && j < e <= s@.len(),
            None => pairs_from(s@, j as int) is None,
        },
{
    let sep = chars_of(", ");
    if j > s.len() {
        return None;
    }
    let mut m = StrMap::new();
    let ghost mut acc: Seq<(Seq<char>, Seq<char>)> = Seq::empty();
    let mut cur = j;
    proof {
        assert(prepend(acc, pairs_from(s@, cur as int)) =~= pairs_from(s@, j as int)) by {
            match pairs_from(s@, j as int) {
                Some((ps, e)) => {
                    assert(acc + ps =~= ps);
                },
                None => {},
            }
        }
    }
    loop
        invariant
            sep@ == item_sep(),
            j <= cur <= s@.len(),
            pairs_from(s@, j as int) == prepend(acc, pairs_from(s@, cur as int)),
            m@ == pairs_map(acc),
        decreases s@.len() - cur,
    {
        match pair_at_exec(s, cur) {
            None => {
                return None;
            },
            Some((k, v, v1)) => {
                let ghost pr = (k@, v@);
                m.insert(k, v);
                proof {
                    assert(acc.push(pr).drop_last() =~= acc);
                    assert(m@ == pairs_map(acc.push(pr)));
                }
                if lit_at_exec(s, v1, &sep) {
                    proof {
                        match pairs_from(s@, v1 + 2) {
                            Some((rest, e)) => {
                                assert(acc + (seq![pr] + rest) =~= acc.push(pr) + rest);
                            },
                            None => {},
                        }
                        acc = acc.push(pr);
                    }
                    cur = v1 + sep.len();
                } else {
                    proof {
                        assert(acc + seq![pr] =~= acc.push(pr));
                    }
                    return Some((m, v1));
                }
            },
        }
    }
}

fn metadata_at_exec(s: &Vec<char>, m: usize) -> (r: Option<(Option<StrMap>, usize)>)
    requires
        m <= s@.len(),
    ensures
        match r {
            Some((md, e)) => metadata_at(s@, m as int) == Some((metadata_view(md), e as int)) && m
                < e <= s@.len(),
            None => metadata_at(s@, m as int) is None,
        },
{
    let none = chars_of("None }");
    let open = chars_of("Some({");
    let close = chars_of("}) }");
    proof {
        assert(none@.len() > 0 && close@.len() > 0) by {
            reveal_strlit("None }");
            reveal_strlit("}) }");
        }
    }
    if lit_at_exec(s, m, &none) {
        return Some((None, m + none.len()));
    }
    if !lit_at_exec(s, m, &open) {
        return None;
    }
    let j = m + open.len();
    if lit_at_exec(s, j, &close) {
        return Some((Some(StrMap::new()), j + close.len()));
    }
    match pairs_exec(s, j) {
        None => None,
        Some((md, e)) => {
            if lit_at_exec(s, e, &close) {
                Some((Some(md), e + close.len()))
            } else {
                None
            }
        },
    }
}

fn embedding_at_exec(s: &Vec<char>, p: usize, head: &Vec<char>) -> (r: Option<FoundEmbedding>)
    ensures
        match r {
            Some(f) => embedding_at(s@, p as int, head@) == Some(found_view(f)) && found_wf(
                s@,
                found_view(f),
            ) && p < f.end,
            None => embedding_at(s@, p as int, head@) is None,
        },
{
    let vhead = chars_of("\"}, vector: [");
    let mhead = chars_of("], metadata: ");
    if p > s.len() || !lit_at_exec(s, p, head) {
        return None;
    }
    let d0 = p + head.len();
    let d1 = digits_end_exec(s, d0);
    if d1 == d0 || !lit_at_exec(s, d1, &vhead) {
        return None;
    }
    let v0 = d1 + vhead.len();
    let v1 = next_char_exec(s, v0, ']');
    if !lit_at_exec(s, v1, &mhead) {
        return None;
    }
    match metadata_at_exec(s, v1 + mhead.len()) {
        None => None,
        Some((metadata, end)) => {
            proof {
                assert forall|x: int| d0 <= x < d1 implies is_digit(s@[x]) by {
                    lemma_digits_end(s@, d0 as int, x);
                }
            }
            Some(
                FoundEmbedding {
                    id_start: d0,
                    id_end: d1,
                    vector_start: v0,
                    vector_end: v1,
                    metadata,
                    end,
                },
            )
        },
    }
}

/// The single-insert entry that starts at `p`: its embedding and the bounds
/// of the collection's name.
pub open spec fn insert_at(s: Seq<char>, p: int) -> Option<(FoundView, int, int)> {
    match embedding_at(s, p, insert_head()) {
        None => None,
        Some(f) => if !lit_at(s, f.end, insert_tail()) {
            None
        } else {
            let c0 = f.end + insert_tail().len();
            let c1 = next_char(s, c0, '\'');
            if c1 < s.len() {
                Some((f, c0, c1))
            } else {
                None
            }
        },
    }
}

/// The leftmost single-insert entry of `s`.
pub open spec fn find_insert(s: Seq<char>) -> Option<(FoundView, int, int)> {
    first_from(s.len() as int, 0, |p: int| insert_at(s, p))
}

/// Finds the leftmost single-insert entry of `s`.
pub fn find_insert_exec(s: &Vec<char>) -> (r: Option<(FoundEmbedding, usize, usize)>)
    ensures
        match r {
            Some(t) => find_insert(s@) == Some((found_view(t.0), t.1 as int, t.2 as int))
                && found_wf(s@, found_view(t.0)) && t.1 <= t.2 < s@.len(),
            None => find_insert(s@) is None,
        },
{
    let head = chars_of("Embedding: 'Embedding { id: {\"unique_id\": \"");
    let tail = chars_of("', successfully inserted into collection '");
    let ghost m = |p: int| insert_at(s@, p);
    let mut p: usize = 0;
    while p <= s.len()
        invariant
            p <= s@.len() + 1,
            head@ == insert_head(),
            tail@ == insert_tail(),
            m == (|p: int| insert_at(s@, p)),
            find_insert(s@) == first_from(s@.len() as int, p as int, m),
        decreases s@.len() + 1 - p,
    {
        match embedding_at_exec(s, p, &head) {
            Some(f) => {
                if lit_at_exec(s, f.end, &tail) {
                    let c0 = f.end + tail.len();
                    let c1 = next_char_exec(s, c0, '\'');
                    if c1 < s.len() {
                        proof {
                            assert(m(p as int) == Some((found_view(f), c0 as int, c1 as int)));
                        }
                        return Some((f, c0, c1));
                    }
                }
            },
            None => {},
        }
        proof {
            assert(m(p as int) is None);
        }
        if p == s.len() {
            proof {
                assert(first_from(s@.len() as int, p + 1, m) is None);
            }
            return None;
        }
        p = p + 1;
    }
    None
}

/// The logged embeddings that start at `j`, separated by `, `, with the
/// position after the last one.
pub open spec fn items_from(s: Seq<char>, j: int) -> Option<(Seq<FoundView>, int)>
    decreases s.len() - j,
{
    match embedding_at(s, j, embedding_head()) {
        None => None,
        Some(f) => if j < f.end && lit_at(s, f.end, item_sep()) {
            match items_from(s, f.end + item_sep().len()) {
                None => None,
                Some((rest, e)) => Some((seq![f] + rest, e)),
            }
        } else {
            Some((seq![f], f.end))
        },
    }
}

/// The batch entry that starts at `p`: its embeddings and the bounds of
/// the collection's name.
pub open spec fn batch_at(s: Seq<char>, p: int) -> Option<(Seq<FoundView>, int, int)> {
    if !lit_at(s, p, batch_head()) {
        None
    } else {
        let l0 = p + batch_head().len();
        let listed = if lit_at(s, l0, batch_tail()) {
            Some((Seq::<FoundView>::empty(), l0))
        } else {
            items_from(s, l0)
        };
        match listed {
            None => None,
            Some((fs, e)) => if !lit_at(s, e, batch_tail()) {
                None
            } else {
                let c0 = e + batch_tail().len();
                let c1 = next_char(s, c0, '\'');
                if c1 < s.len() {
                    Some((fs, c0, c1))
                } else {
                    None
                }
            },
        }
    }
}

/// The leftmost batch entry of `s`.
pub open spec fn find_batch(s: Seq<char>) -> Option<(Seq<FoundView>, int, int)> {
    first_from(s.len() as int, 0, |p: int| batch_at(s, p))
}

/// `fs` found after `acc`.
pub open spec fn prepend_found(acc: Seq<FoundView>, r: Option<(Seq<FoundView>, int)>) -> Option<
    (Seq<FoundView>, int),
> {
    match r {
        None => None,
        Some((fs, e)) => Some((acc + fs, e)),
    }
}

fn items_exec(s: &Vec<char>, j: usize) -> (r: Option<(Vec<FoundEmbedding>, usize)>)
    ensures
        match r {
            Some((fs, e)) => items_from(s@, j as int) matches Some((vs, e2)) && e2 == e as int
                && fs@.len() == vs.len() && (forall|i: int|
                0 <= i < vs.len() ==> found_view(#[trigger] fs@[i]) == vs[i] && found_wf(
                    s@,
                    vs[i],
                )) && e <= s@.len(),
            None => items_from(s@, j as int) is None,
        },
{
    let head = chars_of("Embedding { id: {\"unique_id\": \"");
    let sep = chars_of(", ");
    let mut out: Vec<FoundEmbedding> = Vec::new();
    let ghost mut acc: Seq<FoundView> = Seq::empty();
    let mut cur = j;
    proof {
        assert(prepend_found(acc, items_from(s@, cur as int)) =~= items_from(s@, j as int)) by {
            match items_from(s@, j as int) {
                Some((vs, e)) => {
                    assert(acc + vs =~= vs);
                },
                None => {},
            }
        }
    }
    loop
        invariant
            head@ == embedding_head(),
            sep@ == item_sep(),
            j <= cur,
            items_from(s@, j as int) == prepend_found(acc, items_from(s@, cur as int)),
            out@.len() == acc.len(),
            forall|i: int|
                0 <= i < acc.len() ==> found_view(#[trigger] out@[i]) == acc[i] && found_wf(
                    s@,
                    acc[i],
                ),
        decreases s@.len() + 1 - cur,
    {
        match embedding_at_exec(s, cur, &head) {
            None => {
                return None;
            },
            Some(f) => {
                let ghost fv = found_view(f);
                let end = f.end;
                if lit_at_exec(s, end, &sep) {
                    proof {
                        match items_from(s@, end + 2) {
                            Some((rest, e)) => {
                                assert(acc + (seq![fv] + rest) =~= acc.push(fv) + rest);
                            },
                            None => {},
                        }
                        acc = acc.push(fv);
                    }
                    out.push(f);
                    cur = end + sep.len();
                } else {
                    proof {
                        assert(acc + seq![fv] =~= acc.push(fv));
                        acc = acc.push(fv);
                    }
                    out.push(f);
                    return Some((out, end));
                }
            },
        }
    }
}

/// Finds the leftmost batch entry of `s`.
pub fn find_batch_exec(s: &Vec<char>) -> (r: Option<(Vec<FoundEmbedding>, usize, usize)>)
    ensures
        match r {
            Some(t) => find_batch(s@) matches Some((vs, c0, c1)) && c0 == t.1 as int && c1
                == t.2 as int && t.0@.len() == vs.len() && (forall|i: int|
                0 <= i < vs.len() ==> found_view(#[trigger] t.0@[i]) == vs[i] && found_wf(
                    s@,
                    vs[i],
                )) && t.1 <= t.2 < s@.len(),
            None => find_batch(s@) is None,
        },
{
    let head = chars_of("Embedding: '[");
    let tail = chars_of("]' successfully updated to collection '");
    let ghost m = |p: int| batch_at(s@, p);
    let mut p: usize = 0;
    while p <= s.len()
        invariant
            p <= s@.len() + 1,
            head@ == batch_head(),
            tail@ == batch_tail(),
            m == (|p: int| batch_at(s@, p)),
            find_batch(s@) == first_from(s@.len() as int, p as int, m),
        decreases s@.len() + 1 - p,
    {
        if lit_at_exec(s, p, &head) {
            let l0 = p + head.len();
            let listed = if lit_at_exec(s, l0, &tail) {
                Some((Vec::new(), l0))
            } else {
                items_exec(s, l0)
            };
            match listed {
                Some((fs, e)) => {
                    if lit_at_exec(s, e, &tail) {
                        let c0 = e + tail.len();
                        let c1 = next_char_exec(s, c0, '\'');
                        if c1 < s.len() {
                            proof {
                                assert(m(p as int) matches Some((vs, a, b)) && a == c0 as int && b
                                    == c1 as int && vs.len() == fs@.len());
                            }
                            return Some((fs, c0, c1));
                        }
                    }
                },
                None => {},
            }
        }
        proof {
            assert(m(p as int) is None);
        }
        if p == s.len() {
            proof {
                assert(first_from(s@.len() as int, p + 1, m) is None);
            }
            return None;
        }
        p = p + 1;
    }
    None
}

} // verus!
