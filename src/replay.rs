use vstd::prelude::*;
use crate::collection::{normalizer, views, Embedding, EmbeddingView, TextMap};
use crate::collection::{appended, empty_collection, ids_of, refusal, stored_form};
use crate::logentry::{
    all_renderable, batch_message, batch_view, contains_lit, create_message, create_view,
    delete_message, delete_view, distance_named, entry_view, insert_message, insert_view, lacks,
    lemma_batch_round_trip, lemma_create_round_trip, lemma_delete_round_trip,
    lemma_insert_round_trip, log_entries, logged_list, logged_of, parse_entry, quote_free,
    read_batch, read_create, read_delete, read_insert, renderable, split_by_date, EntryView,
    LogEntry, LoggedEmbedding, LoggedView, ParsedEntry,
};
use crate::model::Distance;
use crate::model::Error;
use crate::store::{after_create, after_delete, batch_outcome, insert_outcome, CacheDB, StoreView};
use crate::strmap::StrMap;
use crate::text::{chars_of, decimal_value, is_digit};

verus! {

/// What replaying one entry did.
#[derive(Debug, Clone, Copy, PartialEq, Eq, Structural)]
pub enum ReplayOutcome {
    /// The entry names no operation.
    Skipped,
    /// The entry names an operation but does not have its shape.
    Malformed,
    /// The operation was carried out.
    Applied,
    /// The store refused the operation.
    Refused(Error),
}

/// The store operation's result that an outcome reports.
pub open spec fn result_of(out: ReplayOutcome) -> Result<(), Error> {
    match out {
        ReplayOutcome::Refused(e) => Err(e),
        _ => Ok(()),
    }
}

/// The values kept from a list of optional values, in order.
pub open spec fn somes<T>(o: Seq<Option<T>>) -> Seq<T>
    decreases o.len(),
{
    if o.len() == 0 {
        Seq::empty()
    } else {
        match o.last() {
            Some(x) => somes(o.drop_last()).push(x),
            None => somes(o.drop_last()),
        }
    }
}

/// `parse` gives `v` for the text `c`.
pub open spec fn converts<T, P: Fn(&String) -> Option<T>>(parse: P, c: Seq<char>, v: Option<T>) -> bool {
    exists|x: String| x@ == c && #[trigger] parse.ensures((&x,), v)
}

/// `v` holds the values that `parse` gives for the texts `comps`, in order;
/// a text that `parse` refuses is left out.
pub open spec fn converted<T, P: Fn(&String) -> Option<T>>(
    parse: P,
    comps: Seq<Seq<char>>,
    v: Seq<T>,
) -> bool {
    exists|o: Seq<Option<T>>|
        o.len() == comps.len() && (forall|i: int|
            0 <= i < o.len() ==> #[trigger] converts(parse, comps[i], o[i]))
            && v == #[trigger] somes(o)
}

/// The id of a logged embedding: `unique_id` mapped to its digits.
pub open spec fn id_for(d: Seq<char>) -> TextMap {
    Map::empty().insert("unique_id"@, d)
}

/// The embedding that a logged one stands for, with vector `v`.
pub open spec fn embedding_from<T>(le: LoggedView, v: Seq<T>) -> EmbeddingView<T> {
    EmbeddingView { id: id_for(le.unique_id), vector: v, metadata: le.metadata }
}

/// The embeddings that logged ones stand for, with vectors `vs`.
pub open spec fn batch_items<T>(les: Seq<LoggedView>, vs: Seq<Seq<T>>) -> Seq<EmbeddingView<T>> {
    Seq::new(les.len(), |i: int| embedding_from(les[i], vs[i]))
}

/// Inserting the logged embedding `le` into collection `coll` of `m`, its
/// components read by `parse`, gives `r` and `m2`.
pub open spec fn insert_step<T, F: Fn(Vec<T>) -> Vec<T>, P: Fn(&String) -> Option<T>>(
    normalize: F,
    parse: P,
    m: StoreView<T>,
    coll: Seq<char>,
    le: LoggedView,
    r: Result<(), Error>,
    m2: StoreView<T>,
) -> bool {
    exists|v: Seq<T>|
        converted(parse, le.components, v) && #[trigger] insert_outcome(
            normalize,
            m,
            coll,
            embedding_from(le, v),
            r,
            m2,
        )
}

/// Inserting the logged batch `les` into collection `coll` of `m`, their
/// components read by `parse`, gives `r` and `m2`.
pub open spec fn batch_step<T, F: Fn(Vec<T>) -> Vec<T>, P: Fn(&String) -> Option<T>>(
    normalize: F,
    parse: P,
    m: StoreView<T>,
    coll: Seq<char>,
    les: Seq<LoggedView>,
    r: Result<(), Error>,
    m2: StoreView<T>,
) -> bool {
    exists|vs: Seq<Seq<T>>|
        vs.len() == les.len() && (forall|i: int|
            0 <= i < les.len() ==> converted(parse, les[i].components, #[trigger] vs[i]))
            && #[trigger] batch_outcome(normalize, m, coll, batch_items(les, vs), r, m2)
}

/// Replaying entry `e` on store `m` reports `out` and leaves `m2`: what the
/// store's own operation named by the entry does.
pub open spec fn replay_step<T, F: Fn(Vec<T>) -> Vec<T>, P: Fn(&String) -> Option<T>>(
    normalize: F,
    parse: P,
    m: StoreView<T>,
    e: EntryView,
    out: ReplayOutcome,
    m2: StoreView<T>,
) -> bool {
    match e {
        EntryView::Skipped => out == ReplayOutcome::Skipped && m2 == m,
        EntryView::Malformed => out == ReplayOutcome::Malformed && m2 == m,
        EntryView::Create(name, d, x) => m2 == after_create(m, name, d, x) && out == if m.contains_key(
            name,
        ) {
            ReplayOutcome::Refused(Error::UniqueViolation)
        } else {
            ReplayOutcome::Applied
        },
        EntryView::Delete(name) => m2 == after_delete(m, name) && out == if m.contains_key(name) {
            ReplayOutcome::Applied
        } else {
            ReplayOutcome::Refused(Error::NotFound)
        },
        EntryView::Insert(coll, le) => (out is Applied || out is Refused) && insert_step(
            normalize,
            parse,
            m,
            coll,
            le,
            result_of(out),
            m2,
        ),
        EntryView::Batch(coll, les) => (out is Applied || out is Refused) && batch_step(
            normalize,
            parse,
            m,
            coll,
            les,
            result_of(out),
            m2,
        ),
    }
}

fn vector_of<T: Copy, P: Fn(&String) -> Option<T>>(comps: &Vec<String>, parse: &P) -> (r: Vec<T>)
    requires
        forall|x: &String| #[trigger] parse.requires((x,)),
    ensures
        converted(*parse, comps@.map_values(|c: String| c@), r@),
{
    let ghost cv = comps@.map_values(|c: String| c@);
    let ghost mut o: Seq<Option<T>> = Seq::empty();
    let mut out: Vec<T> = Vec::new();
    let mut i: usize = 0;
    while i < comps.len()
        invariant
            forall|x: &String| #[trigger] parse.requires((x,)),
            cv == comps@.map_values(|c: String| c@),
            i <= comps@.len(),
            o.len() == i,
            forall|j: int|
                0 <= j < i ==> #[trigger] converts(*parse, cv[j], o[j]),
            out@ == somes(o),
        decreases comps@.len() - i,
    {
        let got = parse(&comps[i]);
        proof {
            assert(cv[i as int] == comps@[i as int]@);
            assert(parse.ensures((&comps@[i as int],), got));
            assert(converts(*parse, cv[i as int], got));
            let prev_o = o;
            o = o.push(got);
            assert(o.drop_last() =~= prev_o);
            assert(o.last() == got);
        }
        match got {
            Some(x) => {
                out.push(x);
            },
            None => {},
        }
        i = i + 1;
    }
    proof {
        assert(o.len() == cv.len());
    }
    out
}

fn embedding_of<T: Copy, P: Fn(&String) -> Option<T>>(le: &LoggedEmbedding, parse: &P) -> (r:
    Embedding<T>)
    requires
        forall|x: &String| #[trigger] parse.requires((x,)),
    ensures
        converted(*parse, le@.components, r@.vector),
        r@ == embedding_from(le@, r@.vector),
{
    let mut id = StrMap::new();
    id.insert("unique_id".to_string(), le.unique_id.clone());
    let vector = vector_of(&le.components, parse);
    let metadata = match &le.metadata {
        Some(m) => Some(m.clone()),
        None => None,
    };
    Embedding { id, vector, metadata }
}

/// Carries out the operation that a parsed entry names, as a live request would.
pub fn replay_entry<T: Copy, F: Fn(Vec<T>) -> Vec<T>, P: Fn(&String) -> Option<T>>(
    db: &mut CacheDB<T>,
    entry: &ParsedEntry,
    normalize: &F,
    parse: &P,
) -> (r: ReplayOutcome)
    requires
        normalizer(*normalize),
        forall|x: &String| #[trigger] parse.requires((x,)),
    ensures
        replay_step(*normalize, *parse, old(db)@, entry@, r, final(db)@),
{
    let result = match entry {
        ParsedEntry::Skipped => {
            return ReplayOutcome::Skipped;
        },
        ParsedEntry::Malformed => {
            return ReplayOutcome::Malformed;
        },
        ParsedEntry::Entry(LogEntry::Create { name, dimension, distance }) => {
            match db.create_collection(name.clone(), *dimension, *distance) {
                Ok(_) => Ok(()),
                Err(e) => Err(e),
            }
        },
        ParsedEntry::Entry(LogEntry::Delete { name }) => {
            let res = db.delete_collection(name.as_str());
            proof {
                if !old(db)@.contains_key(name@) {
                    assert(after_delete(old(db)@, name@) =~= old(db)@);
                }
            }
            res
        },
        ParsedEntry::Entry(LogEntry::Insert { collection, embedding }) => {
            let e = embedding_of(embedding, parse);
            let ghost v = e@.vector;
            let res = db.insert_into_collection(collection.as_str(), e, normalize);
            let out = outcome_of(res);
            proof {
                assert(insert_outcome(
                    *normalize,
                    old(db)@,
                    collection@,
                    embedding_from(embedding@, v),
                    result_of(out),
                    db@,
                ));
            }
            proof {
                assert(converted(*parse, embedding@.components, v));
                assert(entry@ == EntryView::Insert(collection@, embedding@));
                assert(insert_step(
                    *normalize,
                    *parse,
                    old(db)@,
                    collection@,
                    embedding@,
                    result_of(out),
                    db@,
                ));
                assert(replay_step(*normalize, *parse, old(db)@, entry@, out, db@));
            }
            return out;
        },
        ParsedEntry::Entry(LogEntry::Batch { collection, embeddings }) => {
            let ghost les = embeddings@.map_values(|e: LoggedEmbedding| e@);
            let ghost mut vs: Seq<Seq<T>> = Seq::empty();
            let mut items: Vec<Embedding<T>> = Vec::new();
            let mut i: usize = 0;
            while i < embeddings.len()
                invariant
                    forall|x: &String| #[trigger] parse.requires((x,)),
                    les == embeddings@.map_values(|e: LoggedEmbedding| e@),
                    i <= embeddings@.len(),
                    vs.len() == i,
                    items@.len() == i,
                    forall|j: int| 0 <= j < i ==> converted(*parse, les[j].components, #[trigger] vs[j]),
                    forall|j: int| 0 <= j < i ==> (#[trigger] items@[j])@ == embedding_from(les[j], vs[j]),
                decreases embeddings@.len() - i,
            {
                let e = embedding_of(&embeddings[i], parse);
                proof {
                    vs = vs.push(e@.vector);
                }
                items.push(e);
                i = i + 1;
            }
            let ghost iv = views(items@);
            proof {
                assert(iv =~= batch_items(les, vs));
            }
            let res = db.update_collection(collection.as_str(), items, normalize);
            let out = outcome_of(res);
            proof {
                assert(batch_outcome(
                    *normalize,
                    old(db)@,
                    collection@,
                    batch_items(les, vs),
                    result_of(out),
                    db@,
                ));
            }
            proof {
                assert(entry@ == EntryView::Batch(collection@, les));
                assert(batch_step(
                    *normalize,
                    *parse,
                    old(db)@,
                    collection@,
                    les,
                    result_of(out),
                    db@,
                ));
                assert(replay_step(*normalize, *parse, old(db)@, entry@, out, db@));
            }
            return out;
        },
    };
    outcome_of(result)
}

fn outcome_of(res: Result<(), Error>) -> (r: ReplayOutcome)
    ensures
        r is Applied || r is Refused,
        res is Ok <==> result_of(r) is Ok,
        res is Err ==> result_of(r) == res,
{
    match res {
        Ok(()) => ReplayOutcome::Applied,
        Err(e) => ReplayOutcome::Refused(e),
    }
}

/// Reads `log_line` as a creation entry and carries it out on `db`.
pub fn parse_and_create_collection<T: Copy, F: Fn(Vec<T>) -> Vec<T>, P: Fn(&String) -> Option<T>>(
    log_line: &str,
    db: &mut CacheDB<T>,
    normalize: &F,
    parse: &P,
) -> (r: ReplayOutcome)
    requires
        normalizer(*normalize),
        forall|x: &String| #[trigger] parse.requires((x,)),
    ensures
        replay_step(*normalize, *parse, old(db)@, create_view(log_line@), r, final(db)@),
{
    replay_entry(db, &read_create(&chars_of(log_line)), normalize, parse)
}

/// Reads `log_line` as a single-insert entry and carries it out on `db`.
pub fn parse_and_insert_embeddings<T: Copy, F: Fn(Vec<T>) -> Vec<T>, P: Fn(&String) -> Option<T>>(
    log_line: &str,
    db: &mut CacheDB<T>,
    normalize: &F,
    parse: &P,
) -> (r: ReplayOutcome)
    requires
        normalizer(*normalize),
        forall|x: &String| #[trigger] parse.requires((x,)),
    ensures
        replay_step(*normalize, *parse, old(db)@, insert_view(log_line@), r, final(db)@),
{
    replay_entry(db, &read_insert(&chars_of(log_line)), normalize, parse)
}

/// Reads `log_line` as a batch entry and carries it out on `db`.
pub fn parse_and_update_collection<T: Copy, F: Fn(Vec<T>) -> Vec<T>, P: Fn(&String) -> Option<T>>(
    log_line: &str,
    db: &mut CacheDB<T>,
    normalize: &F,
    parse: &P,
) -> (r: ReplayOutcome)
    requires
        normalizer(*normalize),
        forall|x: &String| #[trigger] parse.requires((x,)),
    ensures
        replay_step(*normalize, *parse, old(db)@, batch_view(log_line@), r, final(db)@),
{
    replay_entry(db, &read_batch(&chars_of(log_line)), normalize, parse)
}

/// Reads `log_line` as a deletion entry and carries it out on `db`.
pub fn parse_and_delete_collection<T: Copy, F: Fn(Vec<T>) -> Vec<T>, P: Fn(&String) -> Option<T>>(
    log_line: &str,
    db: &mut CacheDB<T>,
    normalize: &F,
    parse: &P,
) -> (r: ReplayOutcome)
    requires
        normalizer(*normalize),
        forall|x: &String| #[trigger] parse.requires((x,)),
    ensures
        replay_step(*normalize, *parse, old(db)@, delete_view(log_line@), r, final(db)@),
{
    replay_entry(db, &read_delete(&chars_of(log_line)), normalize, parse)
}

/// Rebuilds state from a log's text: splits it into entries, reads each,
/// and carries out the operations in order. An entry that is not read, or
/// whose operation is refused, changes nothing and does not stop the replay.
/// Returns one outcome per entry.
pub fn restore_from_log<T: Copy, F: Fn(Vec<T>) -> Vec<T>, P: Fn(&String) -> Option<T>>(
    db: &mut CacheDB<T>,
    log: &str,
    normalize: &F,
    parse: &P,
) -> (r: Vec<ReplayOutcome>)
    requires
        normalizer(*normalize),
        forall|x: &String| #[trigger] parse.requires((x,)),
    ensures
        r@.len() == log_entries(log@).len(),
        exists|ms: Seq<StoreView<T>>|
            ms.len() == r@.len() + 1 && ms[0] == old(db)@ && ms.last() == final(db)@ && forall|
                i: int,
            |
                0 <= i < r@.len() ==> #[trigger] replay_step(
                    *normalize,
                    *parse,
                    ms[i],
                    entry_view(log_entries(log@)[i]),
                    r@[i],
                    ms[i + 1],
                ),
{
    let entries = split_by_date(log);
    let ghost mut ms: Seq<StoreView<T>> = seq![db@];
    let mut out: Vec<ReplayOutcome> = Vec::new();
    let mut i: usize = 0;
    while i < entries.len()
        invariant
            normalizer(*normalize),
            forall|x: &String| #[trigger] parse.requires((x,)),
            entries@.len() == log_entries(log@).len(),
            forall|j: int| 0 <= j < entries@.len() ==> (#[trigger] entries@[j])@ == log_entries(log@)[j],
            i <= entries@.len(),
            out@.len() == i,
            ms.len() == i + 1,
            ms[0] == old(db)@,
            ms.last() == db@,
            forall|j: int|
                0 <= j < i ==> #[trigger] replay_step(
                    *normalize,
                    *parse,
                    ms[j],
                    entry_view(log_entries(log@)[j]),
                    out@[j],
                    ms[j + 1],
                ),
        decreases entries@.len() - i,
    {
        let parsed = parse_entry(entries[i].as_str());
        let ghost before = db@;
        let outcome = replay_entry(db, &parsed, normalize, parse);
        proof {
            ms = ms.push(db@);
            assert(ms[i as int] == before);
        }
        out.push(outcome);
        i = i + 1;
    }
    out
}

/// Replaying the log entry of a creation changes the store as the creation
/// itself does.
pub proof fn lemma_replay_create<T, F: Fn(Vec<T>) -> Vec<T>, P: Fn(&String) -> Option<T>>(
    normalize: F,
    parse: P,
    m: StoreView<T>,
    pre: Seq<char>,
    name: Seq<char>,
    digits: Seq<char>,
    distance_name: Seq<char>,
    out: ReplayOutcome,
    m2: StoreView<T>,
)
    requires
        lacks(pre, 'C'),
        name.len() > 0,
        quote_free(name),
        digits.len() > 0,
        forall|i: int| 0 <= i < digits.len() ==> is_digit(#[trigger] digits[i]),
        decimal_value(digits) <= usize::MAX,
        distance_named(distance_name) is Some,
        replay_step(
            normalize,
            parse,
            m,
            entry_view(create_message(pre, name, digits, distance_name)),
            out,
            m2,
        ),
    ensures
        m2 == after_create(m, name, decimal_value(digits), distance_named(distance_name)->0),
{
    lemma_create_round_trip(pre, name, digits, distance_name);
}

/// Replaying the log entry of a deletion changes the store as the deletion
/// itself does.
pub proof fn lemma_replay_delete<T, F: Fn(Vec<T>) -> Vec<T>, P: Fn(&String) -> Option<T>>(
    normalize: F,
    parse: P,
    m: StoreView<T>,
    pre: Seq<char>,
    name: Seq<char>,
    out: ReplayOutcome,
    m2: StoreView<T>,
)
    requires
        lacks(pre, 'D'),
        quote_free(name),
        !contains_lit(delete_message(pre, name), "Created new collection"@),
        !contains_lit(delete_message(pre, name), "successfully inserted into collection"@),
        !contains_lit(delete_message(pre, name), "successfully updated to collection"@),
        replay_step(normalize, parse, m, entry_view(delete_message(pre, name)), out, m2),
    ensures
        m2 == after_delete(m, name),
{
    lemma_delete_round_trip(pre, name);
}

/// Replaying the log entry of an insert inserts, into the same collection,
/// the embedding whose id maps `unique_id` to the logged digits, whose
/// vector holds the logged components as `parse` reads them, and whose
/// metadata is the logged metadata, or none.
pub proof fn lemma_replay_insert<T, F: Fn(Vec<T>) -> Vec<T>, P: Fn(&String) -> Option<T>>(
    normalize: F,
    parse: P,
    m: StoreView<T>,
    pre: Seq<char>,
    digits: Seq<char>,
    vector_text: Seq<char>,
    md: Option<Seq<(Seq<char>, Seq<char>)>>,
    collection: Seq<char>,
    out: ReplayOutcome,
    m2: StoreView<T>,
)
    requires
        lacks(pre, 'E'),
        renderable(digits, vector_text, md),
        quote_free(collection),
        !contains_lit(
            insert_message(pre, digits, vector_text, md, collection),
            "Created new collection"@,
        ),
        replay_step(
            normalize,
            parse,
            m,
            entry_view(insert_message(pre, digits, vector_text, md, collection)),
            out,
            m2,
        ),
    ensures
        insert_step(
            normalize,
            parse,
            m,
            collection,
            logged_of(digits, vector_text, md),
            result_of(out),
            m2,
        ),
{
    lemma_insert_round_trip(pre, digits, vector_text, md, collection);
}

/// Replaying the log entry of a batch insert inserts, into the same
/// collection and in order, the embeddings of the logged list.
pub proof fn lemma_replay_batch<T, F: Fn(Vec<T>) -> Vec<T>, P: Fn(&String) -> Option<T>>(
    normalize: F,
    parse: P,
    m: StoreView<T>,
    pre: Seq<char>,
    items: Seq<(Seq<char>, Seq<char>, Option<Seq<(Seq<char>, Seq<char>)>>)>,
    collection: Seq<char>,
    out: ReplayOutcome,
    m2: StoreView<T>,
)
    requires
        lacks(pre, 'E'),
        all_renderable(items),
        quote_free(collection),
        !contains_lit(batch_message(pre, items, collection), "Created new collection"@),
        !contains_lit(
            batch_message(pre, items, collection),
            "successfully inserted into collection"@,
        ),
        replay_step(normalize, parse, m, entry_view(batch_message(pre, items, collection)), out, m2),
    ensures
        batch_step(normalize, parse, m, collection, logged_list(items), result_of(out), m2),
{
    lemma_batch_round_trip(pre, items, collection);
}

/// Replaying, on an empty store, the creation of `c`, two inserts into `c`
/// with different ids and vectors of `c`'s dimension, and the deletion of
/// another collection `d` leaves `c` with exactly those two embeddings, in
/// log order, and no collection `d`.
pub proof fn lemma_replay_create_insert_insert_delete<
    T,
    F: Fn(Vec<T>) -> Vec<T>,
    P: Fn(&String) -> Option<T>,
>(
    normalize: F,
    parse: P,
    ms: Seq<StoreView<T>>,
    outs: Seq<ReplayOutcome>,
    c: Seq<char>,
    dimension: nat,
    distance: Distance,
    le1: LoggedView,
    le2: LoggedView,
    d: Seq<char>,
)
    requires
        ms.len() == 5,
        outs.len() == 4,
        ms[0] == StoreView::<T>::empty(),
        c != d,
        le1.unique_id != le2.unique_id,
        forall|v: Seq<T>| converted(parse, le1.components, v) ==> v.len() == dimension,
        forall|v: Seq<T>| converted(parse, le2.components, v) ==> v.len() == dimension,
        replay_step(normalize, parse, ms[0], EntryView::Create(c, dimension, distance), outs[0], ms[1]),
        replay_step(normalize, parse, ms[1], EntryView::Insert(c, le1), outs[1], ms[2]),
        replay_step(normalize, parse, ms[2], EntryView::Insert(c, le2), outs[2], ms[3]),
        replay_step(normalize, parse, ms[3], EntryView::Delete(d), outs[3], ms[4]),
    ensures
        ms[4].contains_key(c),
        !ms[4].contains_key(d),
        ms[4][c].embeddings.len() == 2,
        ms[4][c].embeddings[0].id == id_for(le1.unique_id),
        ms[4][c].embeddings[0].metadata == le1.metadata,
        ms[4][c].embeddings[1].id == id_for(le2.unique_id),
        ms[4][c].embeddings[1].metadata == le2.metadata,
        exists|v: Seq<T>|
            converted(parse, le1.components, v) && #[trigger] stored_form(
                normalize,
                distance,
                embedding_from(le1, v),
                ms[4][c].embeddings[0],
            ),
        exists|v: Seq<T>|
            converted(parse, le2.components, v) && #[trigger] stored_form(
                normalize,
                distance,
                embedding_from(le2, v),
                ms[4][c].embeddings[1],
            ),
        outs == seq![ReplayOutcome::Applied; 4].update(3, outs[3]),
{
    assert(ms[1] == ms[0].insert(c, empty_collection(dimension, distance)));
    let c1 = ms[1][c];
    assert(ids_of(c1.embeddings) =~= Seq::<TextMap>::empty());
    let v1 = choose|v: Seq<T>|
        converted(parse, le1.components, v) && #[trigger] insert_outcome(
            normalize,
            ms[1],
            c,
            embedding_from(le1, v),
            result_of(outs[1]),
            ms[2],
        );
    assert(refusal(ids_of(c1.embeddings), c1.dimension, embedding_from(le1, v1)) is None);
    let s1 = choose|s: EmbeddingView<T>|
        stored_form(normalize, c1.distance, embedding_from(le1, v1), s) && ms[2] == ms[1].insert(
            c,
            appended(c1, seq![s]),
        );
    let c2 = ms[2][c];
    assert(c2.embeddings =~= seq![s1]);
    assert(ids_of(c2.embeddings) =~= seq![id_for(le1.unique_id)]);
    let v2 = choose|v: Seq<T>|
        converted(parse, le2.components, v) && #[trigger] insert_outcome(
            normalize,
            ms[2],
            c,
            embedding_from(le2, v),
            result_of(outs[2]),
            ms[3],
        );
    assert(id_for(le2.unique_id) != id_for(le1.unique_id)) by {
        assert(id_for(le2.unique_id)["unique_id"@] == le2.unique_id);
        assert(id_for(le1.unique_id)["unique_id"@] == le1.unique_id);
    }
    assert(!ids_of(c2.embeddings).contains(id_for(le2.unique_id))) by {
        if ids_of(c2.embeddings).contains(id_for(le2.unique_id)) {
            let k = choose|k: int|
                0 <= k < ids_of(c2.embeddings).len() && ids_of(c2.embeddings)[k] == id_for(
                    le2.unique_id,
                );
            assert(k == 0);
        }
    }
    assert(refusal(ids_of(c2.embeddings), c2.dimension, embedding_from(le2, v2)) is None);
    let s2 = choose|s: EmbeddingView<T>|
        stored_form(normalize, c2.distance, embedding_from(le2, v2), s) && ms[3] == ms[2].insert(
            c,
            appended(c2, seq![s]),
        );
    assert(ms[3][c].embeddings =~= seq![s1, s2]);
    assert(ms[4] == ms[3].remove(d));
    assert(ms[4][c].embeddings[0] == s1 && ms[4][c].embeddings[1] == s2);
    assert(stored_form(normalize, distance, embedding_from(le1, v1), ms[4][c].embeddings[0]));
    assert(stored_form(normalize, distance, embedding_from(le2, v2), ms[4][c].embeddings[1]));
    assert(outs =~= seq![ReplayOutcome::Applied; 4].update(3, outs[3]));
}

} // verus!
