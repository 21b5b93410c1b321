use vstd::prelude::*;
use crate::logshape::{
    batch_at, batch_head, batch_tail, create_at, create_head, create_mid, create_tail, delete_at,
    delete_head, embedding_at, embedding_head, find_batch, find_batch_exec, find_create,
    find_create_exec, find_delete, find_delete_exec, find_insert, find_insert_exec, first_from,
    found_view, found_wf, insert_at, insert_head, insert_tail, item_sep, items_from, metadata_at,
    metadata_close, metadata_head, metadata_open, no_metadata, pair_at, pair_mid, pairs_from,
    pairs_map, vector_head, FoundEmbedding, FoundView,
};
use crate::collection::{metadata_view, TextMap};
use crate::model::Distance;
use crate::strmap::StrMap;
use crate::text::{
    chars_of, decimal_value, digits_end, is_digit, lit_at, lit_at_exec, next_char, parse_decimal,
    quoted_at, quoted_end_from, slice_chars, split_exec, split_on, string_of, trim, trim_exec,
    unescape,
};

verus! {

/// What position `k` of a `YYYY-MM-DD HH:MM:SS` timestamp holds.
pub open spec fn stamp_char_ok(k: int, c: char) -> bool {
    if k == 4 || k == 7 {
        c == '-'
    } else if k == 10 {
        c == ' '
    } else if k == 13 || k == 16 {
        c == ':'
    } else {
        is_digit(c)
    }
}

/// A timestamp starts at `i`.
pub open spec fn stamp_at(s: Seq<char>, i: int) -> bool {
    &&& 0 <= i && i + 19 <= s.len()
    &&& forall|k: int| 0 <= k < 19 ==> stamp_char_ok(k, #[trigger] s[i + k])
}

fn stamp_at_exec(s: &Vec<char>, i: usize) -> (r: bool)
    ensures
        r == stamp_at(s@, i as int),
{
    if i > s.len() || s.len() - i < 19 {
        return false;
    }
    let mut k: usize = 0;
    while k < 19
        invariant
            i + 19 <= s@.len(),
            s@.len() <= usize::MAX,
            k <= 19,
            forall|x: int| 0 <= x < k ==> stamp_char_ok(x, #[trigger] s@[i + x]),
        decreases 19 - k,
    {
        let c = s[i + k];
        let ok = if k == 4 || k == 7 {
            c == '-'
        } else if k == 10 {
            c == ' '
        } else if k == 13 || k == 16 {
            c == ':'
        } else {
            '0' <= c && c <= '9'
        };
        if !ok {
            proof {
                assert(!stamp_char_ok(k as int, s@[i + k]));
            }
            return false;
        }
        k = k + 1;
    }
    true
}

/// The starts of the timestamps of `s` from `i` on, each search starting
/// where the previous timestamp ends.
pub open spec fn stamps_from(s: Seq<char>, i: int) -> Seq<int>
    decreases s.len() - i,
{
    if i < 0 || i >= s.len() {
        Seq::empty()
    } else if stamp_at(s, i) {
        seq![i] + stamps_from(s, i + 19)
    } else {
        stamps_from(s, i + 1)
    }
}

/// The trimmed pieces of `s` from `start` on, cut before each of the positions `ms`.
pub open spec fn segments(s: Seq<char>, start: int, ms: Seq<int>) -> Seq<Seq<char>>
    decreases ms.len(),
{
    if ms.len() == 0 {
        if start < s.len() {
            seq![trim(s.subrange(start, s.len() as int))]
        } else {
            Seq::empty()
        }
    } else {
        let m = ms[0];
        (if start != m {
            seq![trim(s.subrange(start, m))]
        } else {
            Seq::empty()
        }) + segments(s, m, ms.drop_first())
    }
}

/// The entries of a log: the text before each timestamp and from each
/// timestamp to the next, trimmed; an empty piece before the first
/// timestamp is left out.
pub open spec fn log_entries(s: Seq<char>) -> Seq<Seq<char>> {
    segments(s, 0, stamps_from(s, 0))
}

fn stamps_exec(s: &Vec<char>) -> (r: Vec<usize>)
    ensures
        r@.len() == stamps_from(s@, 0).len(),
        forall|a: int| 0 <= a < r@.len() ==> r@[a] as int == stamps_from(s@, 0)[a],
        forall|a: int| 0 <= a < r@.len() ==> r@[a] < s@.len(),
        forall|a: int, b: int| 0 <= a < b < r@.len() ==> r@[a] < r@[b],
{
    let mut out: Vec<usize> = Vec::new();
    let ghost mut done: Seq<int> = Seq::empty();
    let mut i: usize = 0;
    while i < s.len()
        invariant
            i <= s@.len(),
            out@.len() == done.len(),
            forall|a: int| 0 <= a < out@.len() ==> out@[a] as int == done[a],
            forall|a: int| 0 <= a < out@.len() ==> out@[a] < i,
            forall|a: int, b: int| 0 <= a < b < out@.len() ==> out@[a] < out@[b],
            done + stamps_from(s@, i as int) == stamps_from(s@, 0),
        decreases s@.len() - i,
    {
        if stamp_at_exec(s, i) {
            proof {
                done = done.push(i as int);
                assert(done + stamps_from(s@, i + 19) =~= stamps_from(s@, 0));
            }
            out.push(i);
            i = i + 19;
        } else {
            i = i + 1;
        }
    }
    proof {
        assert(done =~= stamps_from(s@, 0));
    }
    out
}

/// Splits a log into its entries, each starting with its timestamp.
pub fn split_by_date(log: &str) -> (r: Vec<String>)
    ensures
        r@.len() == log_entries(log@).len(),
        forall|i: int| 0 <= i < r@.len() ==> (#[trigger] r@[i])@ == log_entries(log@)[i],
{
    let s = chars_of(log);
    let ms = stamps_exec(&s);
    let ghost msv = stamps_from(s@, 0);
    let mut out: Vec<String> = Vec::new();
    let ghost mut done: Seq<Seq<char>> = Seq::empty();
    let mut start: usize = 0;
    let mut k: usize = 0;
    proof {
        assert(msv.skip(0) =~= msv);
        assert(done + segments(s@, 0, msv.skip(0)) =~= segments(s@, 0, msv));
    }
    while k < ms.len()
        invariant
            s@ == log@,
            msv == stamps_from(s@, 0),
            ms@.len() == msv.len(),
            forall|a: int| 0 <= a < ms@.len() ==> ms@[a] as int == msv[a],
            forall|a: int| 0 <= a < ms@.len() ==> ms@[a] < s@.len(),
            forall|a: int, b: int| 0 <= a < b < ms@.len() ==> ms@[a] < ms@[b],
            k <= ms@.len(),
            start <= s@.len(),
            forall|a: int| k <= a < ms@.len() ==> start <= ms@[a],
            out@.len() == done.len(),
            forall|i: int| 0 <= i < out@.len() ==> (#[trigger] out@[i])@ == done[i],
            done + segments(s@, start as int, msv.skip(k as int)) == segments(s@, 0, msv),
        decreases ms@.len() - k,
    {
        let m = ms[k];
        proof {
            assert(msv.skip(k as int)[0] == m as int);
            assert(msv.skip(k as int).drop_first() =~= msv.skip(k + 1));
        }
        if start != m {
            let piece = slice_chars(&s, start, m);
            let t = trim_exec(&piece);
            let st = string_of(t.as_slice());
            proof {
                done = done.push(t@);
                assert(done + segments(s@, m as int, msv.skip(k + 1)) =~= segments(s@, 0, msv));
            }
            out.push(st);
        } else {
            proof {
                assert(done + segments(s@, m as int, msv.skip(k + 1)) =~= segments(s@, 0, msv));
            }
        }
        start = m;
        k = k + 1;
    }
    proof {
        assert(msv.skip(k as int) =~= Seq::<int>::empty());
    }
    if start < s.len() {
        let piece = slice_chars(&s, start, s.len());
        let t = trim_exec(&piece);
        let st = string_of(t.as_slice());
        proof {
            done = done.push(t@);
            assert(done =~= segments(s@, 0, msv));
        }
        out.push(st);
    } else {
        proof {
            assert(done =~= segments(s@, 0, msv));
        }
    }
    out
}

/// `lit` occurs somewhere in `s`.
pub open spec fn contains_lit(s: Seq<char>, lit: Seq<char>) -> bool {
    exists|i: int| lit_at(s, i, lit)
}

fn contains_exec(s: &Vec<char>, lit: &Vec<char>) -> (r: bool)
    ensures
        r == contains_lit(s@, lit@),
{
    let mut i: usize = 0;
    while i <= s.len()
        invariant
            i <= s@.len() + 1,
            forall|x: int| 0 <= x < i ==> !lit_at(s@, x, lit@),
        decreases s@.len() + 1 - i,
    {
        if lit_at_exec(s, i, lit) {
            return true;
        }
        if i == s.len() {
            return false;
        }
        i = i + 1;
    }
    false
}

/// An embedding as the log writes it: a numeric id, the texts of the
/// vector's components, and the metadata if there is any.
#[derive(Debug, Clone)]
pub struct LoggedEmbedding {
    pub unique_id: String,
    pub components: Vec<String>,
    pub metadata: Option<StrMap>,
}

/// What a logged embedding holds.
pub struct LoggedView {
    pub unique_id: Seq<char>,
    pub components: Seq<Seq<char>>,
    pub metadata: Option<TextMap>,
}

impl View for LoggedEmbedding {
    type V = LoggedView;

    open spec fn view(&self) -> LoggedView {
        LoggedView {
            unique_id: self.unique_id@,
            components: self.components@.map_values(|c: String| c@),
            metadata: metadata_view(self.metadata),
        }
    }
}

/// One operation read from the log.
#[derive(Debug, Clone)]
pub enum LogEntry {
    Create { name: String, dimension: usize, distance: Distance },
    Insert { collection: String, embedding: LoggedEmbedding },
    Batch { collection: String, embeddings: Vec<LoggedEmbedding> },
    Delete { name: String },
}

/// What reading one log entry gives.
#[derive(Debug, Clone)]
pub enum ParsedEntry {
    /// The entry names no operation.
    Skipped,
    /// The entry names an operation but does not have its shape.
    Malformed,
    Entry(LogEntry),
}

/// What a parsed entry holds.
pub enum EntryView {
    Skipped,
    Malformed,
    Create(Seq<char>, nat, Distance),
    Insert(Seq<char>, LoggedView),
    Batch(Seq<char>, Seq<LoggedView>),
    Delete(Seq<char>),
}

impl View for ParsedEntry {
    type V = EntryView;

    open spec fn view(&self) -> EntryView {
        match self {
            ParsedEntry::Skipped => EntryView::Skipped,
            ParsedEntry::Malformed => EntryView::Malformed,
            ParsedEntry::Entry(LogEntry::Create { name, dimension, distance }) => EntryView::Create(
                name@,
                *dimension as nat,
                *distance,
            ),
            ParsedEntry::Entry(LogEntry::Insert { collection, embedding }) => EntryView::Insert(
                collection@,
                embedding@,
            ),
            ParsedEntry::Entry(LogEntry::Batch { collection, embeddings }) => EntryView::Batch(
                collection@,
                embeddings@.map_values(|e: LoggedEmbedding| e@),
            ),
            ParsedEntry::Entry(LogEntry::Delete { name }) => EntryView::Delete(name@),
        }
    }
}

/// What a logged embedding found in `s` holds: its id's digits, the texts
/// of its vector's components (cut at commas and trimmed), and its metadata.
pub open spec fn logged_view(s: Seq<char>, f: FoundView) -> LoggedView {
    LoggedView {
        unique_id: s.subrange(f.id.0, f.id.1),
        components: split_on(s.subrange(f.vector.0, f.vector.1), ',').map_values(
            |t: Seq<char>| trim(t),
        ),
        metadata: f.metadata,
    }
}

/// The distance that the log names `t`.
pub open spec fn distance_named(t: Seq<char>) -> Option<Distance> {
    if t == "DotProduct"@ {
        Some(Distance::DotProduct)
    } else if t == "Cosine"@ {
        Some(Distance::Cosine)
    } else if t == "Euclidean"@ {
        Some(Distance::Euclidean)
    } else {
        None
    }
}

/// What the log entry `s` asks for. The entry's kind is told by a phrase in
/// it, then read from the leftmost place that has the kind's shape.
pub open spec fn entry_view(s: Seq<char>) -> EntryView {
    if contains_lit(s, "Created new collection"@) {
        create_view(s)
    } else if contains_lit(s, "successfully inserted into collection"@) {
        insert_view(s)
    } else if contains_lit(s, "successfully updated to collection"@) {
        batch_view(s)
    } else if contains_lit(s, "Deleted collection"@) {
        delete_view(s)
    } else {
        EntryView::Skipped
    }
}

/// `s` read as a creation entry.
pub open spec fn create_view(s: Seq<char>) -> EntryView {
    match find_create(s) {
        None => EntryView::Malformed,
        Some(b) => {
            let d = decimal_value(s.subrange(b.2, b.3));
            match distance_named(s.subrange(b.4, b.5)) {
                Some(x) => if d <= usize::MAX {
                    EntryView::Create(s.subrange(b.0, b.1), d, x)
                } else {
                    EntryView::Malformed
                },
                None => EntryView::Malformed,
            }
        },
    }
}

/// `s` read as a single-insert entry.
pub open spec fn insert_view(s: Seq<char>) -> EntryView {
    match find_insert(s) {
        None => EntryView::Malformed,
        Some(f) => EntryView::Insert(s.subrange(f.1, f.2), logged_view(s, f.0)),
    }
}

/// `s` read as a batch entry.
pub open spec fn batch_view(s: Seq<char>) -> EntryView {
    match find_batch(s) {
        None => EntryView::Malformed,
        Some(f) => EntryView::Batch(
            s.subrange(f.1, f.2),
            f.0.map_values(|v: FoundView| logged_view(s, v)),
        ),
    }
}

/// `s` read as a deletion entry.
pub open spec fn delete_view(s: Seq<char>) -> EntryView {
    match find_delete(s) {
        None => EntryView::Malformed,
        Some(f) => EntryView::Delete(s.subrange(f.0, f.1)),
    }
}

fn distance_named_exec(s: &Vec<char>, a: usize, b: usize) -> (r: Option<Distance>)
    requires
        a <= b <= s@.len(),
    ensures
        r == distance_named(s@.subrange(a as int, b as int)),
{
    let t = slice_chars(s, a, b);
    let dot = chars_of("DotProduct");
    let cos = chars_of("Cosine");
    let euc = chars_of("Euclidean");
    if t.len() == dot.len() && lit_at_exec(&t, 0, &dot) {
        proof {
            assert(t@ =~= dot@.subrange(0, dot@.len() as int));
            assert(t@ =~= dot@);
        }
        Some(Distance::DotProduct)
    } else if t.len() == cos.len() && lit_at_exec(&t, 0, &cos) {
        proof {
            assert(t@.subrange(0, cos@.len() as int) =~= t@);
        }
        Some(Distance::Cosine)
    } else if t.len() == euc.len() && lit_at_exec(&t, 0, &euc) {
        proof {
            assert(t@.subrange(0, euc@.len() as int) =~= t@);
            assert(t@ != dot@);
            assert(t@ != cos@);
        }
        Some(Distance::Euclidean)
    } else {
        proof {
            if t@ == dot@ {
                assert(t@.subrange(0, dot@.len() as int) =~= t@);
            }
            if t@ == cos@ {
                assert(t@.subrange(0, cos@.len() as int) =~= t@);
            }
            if t@ == euc@ {
                assert(t@.subrange(0, euc@.len() as int) =~= t@);
            }
        }
        None
    }
}

fn components_exec(t: &Vec<char>) -> (r: Vec<String>)
    ensures
        r@.map_values(|c: String| c@) == split_on(t@, ',').map_values(|x: Seq<char>| trim(x)),
{
    let pieces = split_exec(t, ',');
    let ghost pv = split_on(t@, ',');
    let mut out: Vec<String> = Vec::new();
    let mut i: usize = 0;
    while i < pieces.len()
        invariant
            pv == split_on(t@, ','),
            pieces@.len() == pv.len(),
            forall|j: int| 0 <= j < pieces@.len() ==> (#[trigger] pieces@[j])@ == pv[j],
            i <= pieces@.len(),
            out@.len() == i,
            forall|j: int| 0 <= j < i ==> (#[trigger] out@[j])@ == trim(pv[j]),
        decreases pieces@.len() - i,
    {
        let c = trim_exec(&pieces[i]);
        out.push(string_of(c.as_slice()));
        i = i + 1;
    }
    proof {
        assert(out@.map_values(|c: String| c@) =~= pv.map_values(|x: Seq<char>| trim(x)));
    }
    out
}

fn logged_embedding_exec(s: &Vec<char>, f: FoundEmbedding) -> (r: LoggedEmbedding)
    requires
        found_wf(s@, found_view(f)),
    ensures
        r@ == logged_view(s@, found_view(f)),
{
    let id = slice_chars(s, f.id_start, f.id_end);
    let vt = slice_chars(s, f.vector_start, f.vector_end);
    let components = components_exec(&vt);
    LoggedEmbedding { unique_id: string_of(id.as_slice()), components, metadata: f.metadata }
}

/// Reads `s` as a creation entry.
pub(crate) fn read_create(s: &Vec<char>) -> (r: ParsedEntry)
    ensures
        r@ == create_view(s@),
{
    match find_create_exec(s) {
        None => ParsedEntry::Malformed,
        Some((a, b, c, d, e, f)) => {
            match (parse_decimal(s, c, d), distance_named_exec(s, e, f)) {
                (Some(dimension), Some(distance)) => {
                    let name = string_of(slice_chars(s, a, b).as_slice());
                    ParsedEntry::Entry(LogEntry::Create { name, dimension, distance })
                },
                _ => ParsedEntry::Malformed,
            }
        },
    }
}

/// Reads `s` as a single-insert entry.
pub(crate) fn read_insert(s: &Vec<char>) -> (r: ParsedEntry)
    ensures
        r@ == insert_view(s@),
{
    match find_insert_exec(s) {
        None => ParsedEntry::Malformed,
        Some((f, c0, c1)) => {
            let collection = string_of(slice_chars(s, c0, c1).as_slice());
            let embedding = logged_embedding_exec(s, f);
            ParsedEntry::Entry(LogEntry::Insert { collection, embedding })
        },
    }
}

/// Reads `s` as a batch entry.
pub(crate) fn read_batch(s: &Vec<char>) -> (r: ParsedEntry)
    ensures
        r@ == batch_view(s@),
{
    match find_batch_exec(s) {
        None => ParsedEntry::Malformed,
        Some((found, c0, c1)) => {
            let ghost whole = find_batch(s@)->0;
            let ghost fv = whole.0;
            let ghost fseq = found@;
            let mut embeddings: Vec<LoggedEmbedding> = Vec::new();
            for f in it: found
                invariant
                    it.seq() == fseq,
                    fv.len() == fseq.len(),
                    forall|j: int|
                        0 <= j < fv.len() ==> found_view(#[trigger] fseq[j]) == fv[j] && found_wf(
                            s@,
                            fv[j],
                        ),
                    embeddings@.len() == it.index(),
                    forall|j: int|
                        0 <= j < it.index() ==> (#[trigger] embeddings@[j])@ == logged_view(
                            s@,
                            fv[j],
                        ),
            {
                proof {
                    assert(f == fseq[it.index() as int]);
                }
                embeddings.push(logged_embedding_exec(s, f));
            }
            proof {
                assert(embeddings@.map_values(|e: LoggedEmbedding| e@) =~= fv.map_values(
                    |v: FoundView| logged_view(s@, v),
                ));
            }
            let collection = string_of(slice_chars(s, c0, c1).as_slice());
            ParsedEntry::Entry(LogEntry::Batch { collection, embeddings })
        },
    }
}

/// Reads `s` as a deletion entry.
pub(crate) fn read_delete(s: &Vec<char>) -> (r: ParsedEntry)
    ensures
        r@ == delete_view(s@),
{
    match find_delete_exec(s) {
        None => ParsedEntry::Malformed,
        Some((a, b)) => {
            let name = string_of(slice_chars(s, a, b).as_slice());
            ParsedEntry::Entry(LogEntry::Delete { name })
        },
    }
}

/// Reads one log entry. Its kind is told by a phrase in it: "Created new
/// collection", "successfully inserted into collection", "successfully
/// updated to collection" or "Deleted collection", tried in this order.
pub fn parse_entry(entry: &str) -> (r: ParsedEntry)
    ensures
        r@ == entry_view(entry@),
{
    let s = chars_of(entry);
    if contains_exec(&s, &chars_of("Created new collection")) {
        read_create(&s)
    } else if contains_exec(&s, &chars_of("successfully inserted into collection")) {
        read_insert(&s)
    } else if contains_exec(&s, &chars_of("successfully updated to collection")) {
        read_batch(&s)
    } else if contains_exec(&s, &chars_of("Deleted collection")) {
        read_delete(&s)
    } else {
        ParsedEntry::Skipped
    }
}

/// An entry that records the creation of collection `name`, after the
/// text `pre` that the log puts before each message.
pub open spec fn create_message(
    pre: Seq<char>,
    name: Seq<char>,
    digits: Seq<char>,
    distance_name: Seq<char>,
) -> Seq<char> {
    pre + create_head() + name + create_mid() + digits + create_tail() + distance_name + "'"@
}

/// An entry that records the deletion of collection `name`, after `pre`.
pub open spec fn delete_message(pre: Seq<char>, name: Seq<char>) -> Seq<char> {
    pre + delete_head() + name + "'"@
}

/// No character of `t` is a single quote.
pub open spec fn quote_free(t: Seq<char>) -> bool {
    forall|i: int| 0 <= i < t.len() ==> t[i] != '\''
}

/// `t` does not hold the character `c`.
pub open spec fn lacks(t: Seq<char>, c: char) -> bool {
    forall|i: int| 0 <= i < t.len() ==> t[i] != c
}

proof fn lemma_first_from_at<X>(n: int, from: int, k: int, m: spec_fn(int) -> Option<X>)
    requires
        0 <= from <= k <= n,
        m(k) is Some,
        forall|p: int| from <= p < k ==> (#[trigger] m(p)) is None,
    ensures
        first_from(n, from, m) == m(k),
    decreases k - from,
{
    if from < k {
        lemma_first_from_at(n, from + 1, k, m);
    }
}

/// A literal cannot start where its first character is missing.
proof fn lemma_no_lit_at(s: Seq<char>, p: int, lit: Seq<char>)
    requires
        0 <= p < s.len(),
        lit.len() > 0,
        s[p] != lit[0],
    ensures
        !lit_at(s, p, lit),
{
    if lit_at(s, p, lit) {
        assert(s.subrange(p, p + lit.len())[0] == s[p]);
    }
}

proof fn lemma_next_char_at(s: Seq<char>, a: int, b: int, c: char)
    requires
        0 <= a <= b < s.len(),
        forall|x: int| a <= x < b ==> s[x] != c,
        s[b] == c,
    ensures
        next_char(s, a, c) == b,
    decreases b - a,
{
    if a < b {
        lemma_next_char_at(s, a + 1, b, c);
    }
}

proof fn lemma_digits_end_at(s: Seq<char>, a: int, b: int)
    requires
        0 <= a <= b < s.len(),
        forall|x: int| a <= x < b ==> is_digit(s[x]),
        !is_digit(s[b]),
    ensures
        digits_end(s, a) == b,
    decreases b - a,
{
    if a < b {
        lemma_digits_end_at(s, a + 1, b);
    }
}

/// Reading back an entry that records a creation gives the same creation:
/// the name, the dimension that the digits write, and the distance. `pre`
/// is the timestamp and level before the message, without a capital C.
#[verifier::rlimit(100)]
pub proof fn lemma_create_round_trip(
    pre: Seq<char>,
    name: Seq<char>,
    digits: Seq<char>,
    distance_name: Seq<char>,
)
    requires
        lacks(pre, 'C'),
        name.len() > 0,
        quote_free(name),
        digits.len() > 0,
        forall|i: int| 0 <= i < digits.len() ==> is_digit(#[trigger] digits[i]),
        decimal_value(digits) <= usize::MAX,
        distance_named(distance_name) is Some,
    ensures
        entry_view(create_message(pre, name, digits, distance_name)) == EntryView::Create(
            name,
            decimal_value(digits),
            distance_named(distance_name)->0,
        ),
{
    reveal_strlit("Created new collection with name: '");
    reveal_strlit("', dimension: '");
    reveal_strlit("', distance: '");
    reveal_strlit("'");
    let h = create_head();
    let m = create_mid();
    let t = create_tail();
    let s = create_message(pre, name, digits, distance_name);
    let p0 = pre.len() as int;
    let a = p0 + h.len();
    let b = a + name.len();
    let c = b + m.len();
    let d = c + digits.len();
    let e = d + t.len();
    let f = e + distance_name.len();
    assert(quote_free(distance_name) && distance_name.len() > 0) by {
        reveal_strlit("DotProduct");
        reveal_strlit("Cosine");
        reveal_strlit("Euclidean");
        if distance_name == "DotProduct"@ {
        } else if distance_name == "Cosine"@ {
        } else {
        }
    }
    assert(s.len() == f + 1);
    assert(s.subrange(0, p0) =~= pre);
    assert(s.subrange(p0, a) =~= h);
    assert(s.subrange(a, b) =~= name);
    assert(s.subrange(b, c) =~= m);
    assert(s.subrange(c, d) =~= digits);
    assert(s.subrange(d, e) =~= t);
    assert(s.subrange(e, f) =~= distance_name);
    assert(s[f] == '\'');
    assert(lit_at(s, p0, "Created new collection"@)) by {
        reveal_strlit("Created new collection");
        assert(s.subrange(p0, p0 + 22) =~= "Created new collection"@);
    }
    assert(lit_at(s, p0, h));
    assert forall|x: int| a <= x < b implies s[x] != '\'' by {
        assert(s[x] == name[x - a]);
    }
    assert(s[b] == m[0]);
    lemma_next_char_at(s, a, b, '\'');
    assert(lit_at(s, b, m));
    assert forall|x: int| c <= x < d implies is_digit(s[x]) by {
        assert(s[x] == digits[x - c]);
    }
    assert(s[d] == t[0]);
    lemma_digits_end_at(s, c, d);
    assert(lit_at(s, d, t));
    assert forall|x: int| e <= x < f implies s[x] != '\'' by {
        assert(s[x] == distance_name[x - e]);
    }
    lemma_next_char_at(s, e, f, '\'');
    assert(create_at(s, p0) == Some((a, b, c, d, e, f)));
    assert forall|p: int| 0 <= p < p0 implies create_at(s, p) is None by {
        assert(s[p] == pre[p]);
        lemma_no_lit_at(s, p, h);
    }
    lemma_first_from_at(s.len() as int, 0, p0, |p: int| create_at(s, p));
    assert(find_create(s) == Some((a, b, c, d, e, f)));
}

/// Reading back an entry that records a deletion gives the same deletion,
/// for an entry that holds no phrase of another kind of entry. `pre` is the
/// timestamp and level before the message, without a capital D.
pub proof fn lemma_delete_round_trip(pre: Seq<char>, name: Seq<char>)
    requires
        lacks(pre, 'D'),
        quote_free(name),
        !contains_lit(delete_message(pre, name), "Created new collection"@),
        !contains_lit(delete_message(pre, name), "successfully inserted into collection"@),
        !contains_lit(delete_message(pre, name), "successfully updated to collection"@),
    ensures
        entry_view(delete_message(pre, name)) == EntryView::Delete(name),
{
    reveal_strlit("Deleted collection: '");
    reveal_strlit("Deleted collection");
    reveal_strlit("'");
    let h = delete_head();
    let s = delete_message(pre, name);
    let p0 = pre.len() as int;
    let a = p0 + h.len();
    let b = a + name.len();
    assert(s.len() == b + 1);
    assert(s.subrange(p0, a) =~= h);
    assert(s.subrange(a, b) =~= name);
    assert(s[b] == '\'');
    assert(lit_at(s, p0, "Deleted collection"@)) by {
        assert(s.subrange(p0, p0 + 18) =~= "Deleted collection"@);
    }
    assert forall|x: int| a <= x < b implies s[x] != '\'' by {
        assert(s[x] == name[x - a]);
    }
    lemma_next_char_at(s, a, b, '\'');
    assert(delete_at(s, p0) == Some((a, b)));
    assert forall|p: int| 0 <= p < p0 implies delete_at(s, p) is None by {
        assert(s[p] == pre[p]);
        lemma_no_lit_at(s, p, h);
    }
    lemma_first_from_at(s.len() as int, 0, p0, |p: int| delete_at(s, p));
    assert(find_delete(s) == Some((a, b)));
}

/// `t` holds no double quote and no backslash, so it stands for itself
/// inside a quoted string.
pub open spec fn plain(t: Seq<char>) -> bool {
    lacks(t, '"') && lacks(t, '\\')
}

/// `t` in double quotes.
pub open spec fn quoted(t: Seq<char>) -> Seq<char> {
    "\""@ + t + "\""@
}

/// How metadata pairs are written: `"key": "value"`, separated by `, `.
pub open spec fn render_pairs(ps: Seq<(Seq<char>, Seq<char>)>) -> Seq<char>
    decreases ps.len(),
{
    if ps.len() == 0 {
        Seq::empty()
    } else {
        let first = quoted(ps[0].0) + pair_mid() + quoted(ps[0].1);
        if ps.len() == 1 {
            first
        } else {
            first + item_sep() + render_pairs(ps.drop_first())
        }
    }
}

/// How optional metadata is written, with the embedding's closing brace.
pub open spec fn render_metadata(md: Option<Seq<(Seq<char>, Seq<char>)>>) -> Seq<char> {
    match md {
        None => no_metadata(),
        Some(ps) => metadata_open() + render_pairs(ps) + metadata_close(),
    }
}

/// How an embedding is written after `head`: its id's digits, its vector's
/// text and its metadata.
pub open spec fn render_embedding(
    head: Seq<char>,
    digits: Seq<char>,
    vector_text: Seq<char>,
    md: Option<Seq<(Seq<char>, Seq<char>)>>,
) -> Seq<char> {
    head + digits + vector_head() + vector_text + metadata_head() + render_metadata(md)
}

/// The parts can be written and read back: the id is digits, the vector's
/// text holds no `]`, and the metadata's keys and values are plain.
pub open spec fn renderable(
    digits: Seq<char>,
    vector_text: Seq<char>,
    md: Option<Seq<(Seq<char>, Seq<char>)>>,
) -> bool {
    &&& digits.len() > 0
    &&& forall|i: int| 0 <= i < digits.len() ==> is_digit(#[trigger] digits[i])
    &&& lacks(vector_text, ']')
    &&& match md {
        None => true,
        Some(ps) => forall|i: int| 0 <= i < ps.len() ==> plain(#[trigger] ps[i].0) && plain(ps[i].1),
    }
}

/// The metadata map that optional pairs stand for.
pub open spec fn metadata_of(md: Option<Seq<(Seq<char>, Seq<char>)>>) -> Option<TextMap> {
    match md {
        None => None,
        Some(ps) => Some(pairs_map(ps)),
    }
}

/// `a + b` occurs at `p` exactly when `a` occurs at `p` and `b` after it.
proof fn lemma_lit_concat(s: Seq<char>, p: int, a: Seq<char>, b: Seq<char>)
    requires
        lit_at(s, p, a + b),
    ensures
        lit_at(s, p, a),
        lit_at(s, p + a.len(), b),
{
    let w = s.subrange(p, p + a.len() + b.len());
    assert(w == a + b);
    assert(s.subrange(p, p + a.len()) =~= w.subrange(0, a.len() as int));
    assert(w.subrange(0, a.len() as int) =~= a);
    assert(s.subrange(p + a.len(), p + a.len() + b.len()) =~= w.subrange(
        a.len() as int,
        w.len() as int,
    ));
    assert(w.subrange(a.len() as int, w.len() as int) =~= b);
}

/// A character of a literal that occurs at `p`.
proof fn lemma_lit_char(s: Seq<char>, p: int, a: Seq<char>, i: int)
    requires
        lit_at(s, p, a),
        0 <= i < a.len(),
    ensures
        s[p + i] == a[i],
{
    assert(s.subrange(p, p + a.len())[i] == s[p + i]);
}

proof fn lemma_unescape_plain(t: Seq<char>)
    requires
        lacks(t, '\\'),
    ensures
        unescape(t) == t,
    decreases t.len(),
{
    if t.len() > 0 {
        lemma_unescape_plain(t.drop_first());
        assert(t =~= seq![t[0]] + t.drop_first());
    }
}

proof fn lemma_quoted_end(s: Seq<char>, j: int, e: int)
    requires
        0 <= j <= e < s.len(),
        forall|x: int| j <= x < e ==> s[x] != '"' && s[x] != '\\',
        s[e] == '"',
    ensures
        quoted_end_from(s, j) == Some(e + 1),
    decreases e - j,
{
    if j < e {
        lemma_quoted_end(s, j + 1, e);
    }
}

/// A plain text in quotes at `i` is read back as itself.
proof fn lemma_quoted_read(s: Seq<char>, i: int, t: Seq<char>)
    requires
        lit_at(s, i, quoted(t)),
        plain(t),
    ensures
        quoted_at(s, i) == Some(i + t.len() + 2),
        unescape(s.subrange(i + 1, i + t.len() + 1)) == t,
{
    reveal_strlit("\"");
    lemma_lit_concat(s, i, "\""@ + t, "\""@);
    lemma_lit_concat(s, i, "\""@, t);
    lemma_lit_char(s, i, "\""@, 0);
    lemma_lit_char(s, i + t.len() + 1, "\""@, 0);
    assert forall|x: int| i + 1 <= x < i + 1 + t.len() implies s[x] != '"' && s[x] != '\\' by {
        lemma_lit_char(s, i + 1, t, x - i - 1);
    }
    lemma_quoted_end(s, i + 1, i + 1 + t.len());
    assert(s.subrange(i + 1, i + t.len() + 1) =~= t);
    lemma_unescape_plain(t);
}

/// Plain pairs written at `j` and followed by `}` are read back as themselves.
proof fn lemma_pairs_read(s: Seq<char>, j: int, ps: Seq<(Seq<char>, Seq<char>)>)
    requires
        ps.len() > 0,
        forall|i: int| 0 <= i < ps.len() ==> plain(#[trigger] ps[i].0) && plain(ps[i].1),
        lit_at(s, j, render_pairs(ps)),
        j + render_pairs(ps).len() < s.len(),
        s[j + render_pairs(ps).len()] == '}',
    ensures
        pairs_from(s, j) == Some((ps, j + render_pairs(ps).len())),
    decreases ps.len(),
{
    reveal_strlit(": ");
    reveal_strlit(", ");
    reveal_strlit("\"");
    let k = ps[0].0;
    let v = ps[0].1;
    let first = quoted(k) + pair_mid() + quoted(v);
    assert(plain(k) && plain(v));
    if ps.len() == 1 {
        assert(render_pairs(ps) == first);
    } else {
        assert(render_pairs(ps) == first + item_sep() + render_pairs(ps.drop_first()));
        lemma_lit_concat(s, j, first + item_sep(), render_pairs(ps.drop_first()));
        lemma_lit_concat(s, j, first, item_sep());
    }
    lemma_lit_concat(s, j, quoted(k) + pair_mid(), quoted(v));
    lemma_lit_concat(s, j, quoted(k), pair_mid());
    lemma_quoted_read(s, j, k);
    let k1 = j + k.len() + 2;
    lemma_quoted_read(s, k1 + 2, v);
    let v1 = k1 + 2 + v.len() + 2;
    assert(first.len() == v1 - j);
    assert(pair_at(s, j) == Some(((k, v), v1)));
    if ps.len() == 1 {
        assert(!lit_at(s, v1, item_sep())) by {
            if lit_at(s, v1, item_sep()) {
                lemma_lit_char(s, v1, item_sep(), 0);
            }
        }
        assert(seq![(k, v)] =~= ps);
    } else {
        let rest = ps.drop_first();
        assert forall|i: int| 0 <= i < rest.len() implies plain(#[trigger] rest[i].0) && plain(
            rest[i].1,
        ) by {
            assert(rest[i] == ps[i + 1]);
        }
        lemma_pairs_read(s, v1 + 2, rest);
        assert(seq![(k, v)] + rest =~= ps);
    }
}

/// A logged embedding written at `p` is read back with the same id digits,
/// vector text and metadata, and ends where its text ends.
proof fn lemma_embedding_read(
    s: Seq<char>,
    p: int,
    head: Seq<char>,
    digits: Seq<char>,
    vector_text: Seq<char>,
    md: Option<Seq<(Seq<char>, Seq<char>)>>,
)
    requires
        lit_at(s, p, render_embedding(head, digits, vector_text, md)),
        renderable(digits, vector_text, md),
    ensures
        ({
            let d0 = p + head.len();
            let v0 = d0 + digits.len() + vector_head().len();
            embedding_at(s, p, head) == Some(
                FoundView {
                    id: (d0, d0 + digits.len()),
                    vector: (v0, v0 + vector_text.len()),
                    metadata: metadata_of(md),
                    end: p + render_embedding(head, digits, vector_text, md).len(),
                },
            )
        }),
        logged_view(s, embedding_at(s, p, head)->0) == logged_of(digits, vector_text, md),
{
    reveal_strlit("\"}, vector: [");
    reveal_strlit("], metadata: ");
    reveal_strlit("None }");
    reveal_strlit("Some({");
    reveal_strlit("}) }");
    let vh = vector_head();
    let mh = metadata_head();
    let rm = render_metadata(md);
    let d0 = p + head.len();
    let d1 = d0 + digits.len();
    let v0 = d1 + vh.len();
    let v1 = v0 + vector_text.len();
    let m = v1 + mh.len();
    lemma_lit_concat(s, p, head + digits + vh + vector_text + mh, rm);
    lemma_lit_concat(s, p, head + digits + vh + vector_text, mh);
    lemma_lit_concat(s, p, head + digits + vh, vector_text);
    lemma_lit_concat(s, p, head + digits, vh);
    lemma_lit_concat(s, p, head, digits);
    assert forall|x: int| d0 <= x < d1 implies is_digit(s[x]) by {
        lemma_lit_char(s, d0, digits, x - d0);
    }
    lemma_lit_char(s, d1, vh, 0);
    lemma_digits_end_at(s, d0, d1);
    assert forall|x: int| v0 <= x < v1 implies s[x] != ']' by {
        lemma_lit_char(s, v0, vector_text, x - v0);
    }
    lemma_lit_char(s, v1, mh, 0);
    lemma_next_char_at(s, v0, v1, ']');
    assert(s.subrange(d0, d1) == digits);
    assert(s.subrange(v0, v1) == vector_text);
    match md {
        None => {
            assert(metadata_at(s, m) == Some((None::<TextMap>, m + rm.len())));
        },
        Some(ps) => {
            let o = metadata_open();
            let c = metadata_close();
            lemma_lit_concat(s, m, o + render_pairs(ps), c);
            lemma_lit_concat(s, m, o, render_pairs(ps));
            assert(!lit_at(s, m, no_metadata())) by {
                if lit_at(s, m, no_metadata()) {
                    lemma_lit_char(s, m, no_metadata(), 0);
                    lemma_lit_char(s, m, o, 0);
                }
            }
            let j = m + o.len();
            if ps.len() == 0 {
                assert(render_pairs(ps) =~= Seq::<char>::empty());
                assert(pairs_map(ps) == Map::<Seq<char>, Seq<char>>::empty());
                assert(metadata_at(s, m) == Some((Some(pairs_map(ps)), m + rm.len())));
            } else {
                let e = j + render_pairs(ps).len();
                lemma_lit_char(s, e, c, 0);
                lemma_pairs_read(s, j, ps);
                assert(!lit_at(s, j, c)) by {
                    if lit_at(s, j, c) {
                        lemma_lit_char(s, j, c, 0);
                        lemma_lit_concat(s, j, quoted(ps[0].0), pair_mid() + quoted(ps[0].1));
                        reveal_strlit("\"");
                        lemma_lit_char(s, j, quoted(ps[0].0), 0);
                    }
                }
                assert(metadata_at(s, m) == Some((Some(pairs_map(ps)), m + rm.len())));
            }
        },
    }
}

/// What a logged embedding with these parts holds.
pub open spec fn logged_of(
    digits: Seq<char>,
    vector_text: Seq<char>,
    md: Option<Seq<(Seq<char>, Seq<char>)>>,
) -> LoggedView {
    LoggedView {
        unique_id: digits,
        components: split_on(vector_text, ',').map_values(|t: Seq<char>| trim(t)),
        metadata: metadata_of(md),
    }
}

/// An entry that records the insert of an embedding into `collection`,
/// after the text `pre` that the log puts before each message.
pub open spec fn insert_message(
    pre: Seq<char>,
    digits: Seq<char>,
    vector_text: Seq<char>,
    md: Option<Seq<(Seq<char>, Seq<char>)>>,
    collection: Seq<char>,
) -> Seq<char> {
    pre + render_embedding(insert_head(), digits, vector_text, md) + insert_tail() + collection
        + "'"@
}

proof fn lemma_whole(s: Seq<char>)
    ensures
        lit_at(s, 0, s),
{
    assert(s.subrange(0, s.len() as int) =~= s);
}

/// Facts about the literals of the insert and batch shapes.
proof fn lemma_literal_facts()
    ensures
        insert_head().len() > 0 && insert_head()[0] == 'E',
        embedding_head().len() > 0 && embedding_head()[0] == 'E',
        batch_head().len() > 0 && batch_head()[0] == 'E',
        batch_tail().len() > 0 && batch_tail()[0] == ']',
        item_sep().len() == 2 && item_sep()[0] == ',',
        "'"@.len() == 1 && "'"@[0] == '\'',
        insert_tail() == "', "@ + ("successfully inserted into collection"@ + " '"@),
        batch_tail() == "]' "@ + ("successfully updated to collection"@ + " '"@),
{
    reveal_strlit("Embedding: 'Embedding { id: {\"unique_id\": \"");
    reveal_strlit("Embedding { id: {\"unique_id\": \"");
    reveal_strlit("Embedding: '[");
    reveal_strlit("]' successfully updated to collection '");
    reveal_strlit(", ");
    reveal_strlit("'");
    reveal_strlit("', successfully inserted into collection '");
    reveal_strlit("', ");
    reveal_strlit("successfully inserted into collection");
    reveal_strlit(" '");
    reveal_strlit("]' ");
    reveal_strlit("successfully updated to collection");
    assert(insert_tail() =~= "', "@ + ("successfully inserted into collection"@ + " '"@));
    assert(batch_tail() =~= "]' "@ + ("successfully updated to collection"@ + " '"@));
}

/// A literal written in the middle of another occurs in the text.
proof fn lemma_contains_in(s: Seq<char>, e: int, a: Seq<char>, b: Seq<char>, c: Seq<char>)
    requires
        lit_at(s, e, a + (b + c)),
    ensures
        contains_lit(s, b),
{
    lemma_lit_concat(s, e, a, b + c);
    lemma_lit_concat(s, e + a.len(), b, c);
}

/// No shape that starts with a capital E starts inside a prefix without one.
proof fn lemma_nothing_in_prefix(s: Seq<char>, pre: Seq<char>)
    requires
        lit_at(s, 0, pre),
        lacks(pre, 'E'),
    ensures
        forall|p: int| 0 <= p < pre.len() ==> (#[trigger] insert_at(s, p)) is None,
        forall|p: int| 0 <= p < pre.len() ==> (#[trigger] batch_at(s, p)) is None,
{
    lemma_literal_facts();
    assert forall|p: int| 0 <= p < pre.len() implies (#[trigger] insert_at(s, p)) is None by {
        lemma_lit_char(s, 0, pre, p);
        lemma_no_lit_at(s, p, insert_head());
    }
    assert forall|p: int| 0 <= p < pre.len() implies (#[trigger] batch_at(s, p)) is None by {
        lemma_lit_char(s, 0, pre, p);
        lemma_no_lit_at(s, p, batch_head());
    }
}

/// Where the reader finds the parts of an insert entry.
#[verifier::spinoff_prover]
#[verifier::rlimit(100)]
proof fn lemma_insert_found(
    pre: Seq<char>,
    digits: Seq<char>,
    vector_text: Seq<char>,
    md: Option<Seq<(Seq<char>, Seq<char>)>>,
    collection: Seq<char>,
)
    requires
        lacks(pre, 'E'),
        renderable(digits, vector_text, md),
        quote_free(collection),
    ensures
        find_insert(insert_message(pre, digits, vector_text, md, collection)) matches Some(
            (f, c0, c1),
        ) && insert_message(pre, digits, vector_text, md, collection).subrange(c0, c1)
            == collection && logged_view(insert_message(pre, digits, vector_text, md, collection), f)
            == logged_of(digits, vector_text, md),
        contains_lit(
            insert_message(pre, digits, vector_text, md, collection),
            "successfully inserted into collection"@,
        ),
{
    lemma_literal_facts();
    let s = insert_message(pre, digits, vector_text, md, collection);
    let r = render_embedding(insert_head(), digits, vector_text, md);
    let t = insert_tail();
    let q = "'"@;
    let p0 = pre.len() as int;
    lemma_whole(s);
    lemma_lit_concat(s, 0, pre + r + t + collection, q);
    lemma_lit_concat(s, 0, pre + r + t, collection);
    lemma_lit_concat(s, 0, pre + r, t);
    lemma_lit_concat(s, 0, pre, r);
    lemma_embedding_read(s, p0, insert_head(), digits, vector_text, md);
    let f = embedding_at(s, p0, insert_head())->0;
    let c0 = f.end + t.len();
    let c1 = c0 + collection.len();
    lemma_lit_char(s, c1, q, 0);
    assert forall|x: int| c0 <= x < c1 implies s[x] != '\'' by {
        lemma_lit_char(s, c0, collection, x - c0);
    }
    lemma_next_char_at(s, c0, c1, '\'');
    assert(insert_at(s, p0) == Some((f, c0, c1)));
    lemma_nothing_in_prefix(s, pre);
    lemma_first_from_at(s.len() as int, 0, p0, |p: int| insert_at(s, p));
    lemma_contains_in(s, f.end, "', "@, "successfully inserted into collection"@, " '"@);
    assert(s.subrange(c0, c1) == collection);
}

/// Reading back an entry that records an insert gives the same collection,
/// id digits, component texts and metadata. `pre` is the timestamp and
/// level before the message, without a capital E; the entry holds no
/// creation phrase.
pub proof fn lemma_insert_round_trip(
    pre: Seq<char>,
    digits: Seq<char>,
    vector_text: Seq<char>,
    md: Option<Seq<(Seq<char>, Seq<char>)>>,
    collection: Seq<char>,
)
    requires
        lacks(pre, 'E'),
        renderable(digits, vector_text, md),
        quote_free(collection),
        !contains_lit(
            insert_message(pre, digits, vector_text, md, collection),
            "Created new collection"@,
        ),
    ensures
        entry_view(insert_message(pre, digits, vector_text, md, collection)) == EntryView::Insert(
            collection,
            logged_of(digits, vector_text, md),
        ),
{
    lemma_insert_found(pre, digits, vector_text, md, collection);
}

/// How a list of embeddings is written in a batch entry: each after the
/// logged embedding head, separated by `, `.
pub open spec fn render_list(
    items: Seq<(Seq<char>, Seq<char>, Option<Seq<(Seq<char>, Seq<char>)>>)>,
) -> Seq<char>
    decreases items.len(),
{
    if items.len() == 0 {
        Seq::empty()
    } else {
        let first = render_embedding(embedding_head(), items[0].0, items[0].1, items[0].2);
        if items.len() == 1 {
            first
        } else {
            first + item_sep() + render_list(items.drop_first())
        }
    }
}

/// What each embedding of a written list holds.
pub open spec fn logged_list(
    items: Seq<(Seq<char>, Seq<char>, Option<Seq<(Seq<char>, Seq<char>)>>)>,
) -> Seq<LoggedView> {
    items.map_values(
        |it: (Seq<char>, Seq<char>, Option<Seq<(Seq<char>, Seq<char>)>>)|
            logged_of(it.0, it.1, it.2),
    )
}

/// Every embedding of the list can be written and read back.
pub open spec fn all_renderable(
    items: Seq<(Seq<char>, Seq<char>, Option<Seq<(Seq<char>, Seq<char>)>>)>,
) -> bool {
    forall|i: int| 0 <= i < items.len() ==> renderable(#[trigger] items[i].0, items[i].1, items[i].2)
}

/// A written list followed by `]` is read back embedding by embedding.
proof fn lemma_list_read(
    s: Seq<char>,
    j: int,
    items: Seq<(Seq<char>, Seq<char>, Option<Seq<(Seq<char>, Seq<char>)>>)>,
)
    requires
        items.len() > 0,
        all_renderable(items),
        lit_at(s, j, render_list(items)),
        j + render_list(items).len() < s.len(),
        s[j + render_list(items).len()] == ']',
    ensures
        items_from(s, j) matches Some((fs, e)) && e == j + render_list(items).len()
            && fs.map_values(|f: FoundView| logged_view(s, f)) == logged_list(items),
    decreases items.len(),
{
    reveal_strlit(", ");
    let it = items[0];
    assert(renderable(it.0, it.1, it.2));
    let first = render_embedding(embedding_head(), it.0, it.1, it.2);
    if items.len() > 1 {
        lemma_lit_concat(s, j, first + item_sep(), render_list(items.drop_first()));
        lemma_lit_concat(s, j, first, item_sep());
    }
    lemma_embedding_read(s, j, embedding_head(), it.0, it.1, it.2);
    let f = embedding_at(s, j, embedding_head())->0;
    assert(j < f.end) by {
        reveal_strlit("Embedding { id: {\"unique_id\": \"");
    }
    if items.len() == 1 {
        assert(!lit_at(s, f.end, item_sep())) by {
            if lit_at(s, f.end, item_sep()) {
                lemma_lit_char(s, f.end, item_sep(), 0);
            }
        }
        assert(seq![f].map_values(|v: FoundView| logged_view(s, v)) =~= logged_list(items));
    } else {
        let rest = items.drop_first();
        assert forall|i: int| 0 <= i < rest.len() implies renderable(
            #[trigger] rest[i].0,
            rest[i].1,
            rest[i].2,
        ) by {
            assert(rest[i] == items[i + 1]);
        }
        lemma_list_read(s, f.end + 2, rest);
        let (fs, e2) = items_from(s, f.end + 2)->0;
        assert(fs.map_values(|v: FoundView| logged_view(s, v)) == logged_list(rest));
        assert(fs.len() == rest.len());
        let all = seq![f] + fs;
        assert forall|i: int| 0 <= i < items.len() implies all.map_values(
            |v: FoundView| logged_view(s, v),
        )[i] == logged_list(items)[i] by {
            if i > 0 {
                assert(all[i] == fs[i - 1]);
                assert(fs.map_values(|v: FoundView| logged_view(s, v))[i - 1] == logged_list(
                    rest,
                )[i - 1]);
                assert(rest[i - 1] == items[i]);
            }
        }
        assert(all.map_values(|v: FoundView| logged_view(s, v)) =~= logged_list(items));
    }
}

/// An entry that records a batch insert of `items` into `collection`, after `pre`.
pub open spec fn batch_message(
    pre: Seq<char>,
    items: Seq<(Seq<char>, Seq<char>, Option<Seq<(Seq<char>, Seq<char>)>>)>,
    collection: Seq<char>,
) -> Seq<char> {
    pre + batch_head() + render_list(items) + batch_tail() + collection + "'"@
}

/// Where the reader finds the parts of a batch entry.
#[verifier::spinoff_prover]
#[verifier::rlimit(100)]
proof fn lemma_batch_found(
    pre: Seq<char>,
    items: Seq<(Seq<char>, Seq<char>, Option<Seq<(Seq<char>, Seq<char>)>>)>,
    collection: Seq<char>,
)
    requires
        lacks(pre, 'E'),
        all_renderable(items),
        quote_free(collection),
    ensures
        find_batch(batch_message(pre, items, collection)) matches Some((fs, c0, c1))
            && batch_message(pre, items, collection).subrange(c0, c1) == collection && fs.map_values(
            |f: FoundView| logged_view(batch_message(pre, items, collection), f),
        ) == logged_list(items),
        contains_lit(
            batch_message(pre, items, collection),
            "successfully updated to collection"@,
        ),
{
    lemma_literal_facts();
    let s = batch_message(pre, items, collection);
    let h = batch_head();
    let rl = render_list(items);
    let t = batch_tail();
    let q = "'"@;
    let p0 = pre.len() as int;
    let l0 = p0 + h.len();
    let e = l0 + rl.len();
    lemma_whole(s);
    lemma_lit_concat(s, 0, pre + h + rl + t + collection, q);
    lemma_lit_concat(s, 0, pre + h + rl + t, collection);
    lemma_lit_concat(s, 0, pre + h + rl, t);
    lemma_lit_concat(s, 0, pre + h, rl);
    lemma_lit_concat(s, 0, pre, h);
    lemma_lit_char(s, e, t, 0);
    let ghost fs: Seq<FoundView>;
    if items.len() == 0 {
        assert(rl =~= Seq::<char>::empty());
        fs = Seq::empty();
        assert(fs.map_values(|f: FoundView| logged_view(s, f)) =~= logged_list(items));
    } else {
        lemma_list_read(s, l0, items);
        lemma_list_starts_with_e(s, l0, items);
        assert(!lit_at(s, l0, t)) by {
            if lit_at(s, l0, t) {
                lemma_lit_char(s, l0, t, 0);
            }
        }
        let (fs1, e1) = items_from(s, l0)->0;
        fs = fs1;
    }
    let c0 = e + t.len();
    let c1 = c0 + collection.len();
    lemma_lit_char(s, c1, q, 0);
    assert forall|x: int| c0 <= x < c1 implies s[x] != '\'' by {
        lemma_lit_char(s, c0, collection, x - c0);
    }
    lemma_next_char_at(s, c0, c1, '\'');
    assert(batch_at(s, p0) == Some((fs, c0, c1)));
    lemma_nothing_in_prefix(s, pre);
    lemma_first_from_at(s.len() as int, 0, p0, |p: int| batch_at(s, p));
    lemma_contains_in(s, e, "]' "@, "successfully updated to collection"@, " '"@);
    assert(s.subrange(c0, c1) == collection);
}

/// A written list that is not empty starts with a capital E.
proof fn lemma_list_starts_with_e(
    s: Seq<char>,
    j: int,
    items: Seq<(Seq<char>, Seq<char>, Option<Seq<(Seq<char>, Seq<char>)>>)>,
)
    requires
        items.len() > 0,
        lit_at(s, j, render_list(items)),
    ensures
        s[j] == 'E',
{
    lemma_literal_facts();
    let first = render_embedding(embedding_head(), items[0].0, items[0].1, items[0].2);
    if items.len() > 1 {
        lemma_lit_concat(s, j, first + item_sep(), render_list(items.drop_first()));
        lemma_lit_concat(s, j, first, item_sep());
    }
    let tail_of_first = items[0].0 + vector_head() + items[0].1 + metadata_head()
        + render_metadata(items[0].2);
    assert(first =~= embedding_head() + tail_of_first);
    lemma_lit_concat(s, j, embedding_head(), tail_of_first);
    lemma_lit_char(s, j, embedding_head(), 0);
}

/// Reading back an entry that records a batch insert gives the same
/// collection and, in order, the same embeddings. `pre` is the timestamp and
/// level before the message, without a capital E; the entry holds no
/// creation or single-insert phrase.
pub proof fn lemma_batch_round_trip(
    pre: Seq<char>,
    items: Seq<(Seq<char>, Seq<char>, Option<Seq<(Seq<char>, Seq<char>)>>)>,
    collection: Seq<char>,
)
    requires
        lacks(pre, 'E'),
        all_renderable(items),
        quote_free(collection),
        !contains_lit(batch_message(pre, items, collection), "Created new collection"@),
        !contains_lit(
            batch_message(pre, items, collection),
            "successfully inserted into collection"@,
        ),
    ensures
        entry_view(batch_message(pre, items, collection)) == EntryView::Batch(
            collection,
            logged_list(items),
        ),
{
    lemma_batch_found(pre, items, collection);
}

} // verus!
