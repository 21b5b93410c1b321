use vstd::prelude::*;
use crate::model::{Distance, Error};
use crate::strmap::StrMap;

verus! {

/// A string-to-string mapping as a mathematical map.
pub type TextMap = Map<Seq<char>, Seq<char>>;

/// A vector with its composite id and optional metadata. The vector's
/// components are of any type `T`; the library reads only their number.
#[derive(Debug, Clone, PartialEq)]
pub struct Embedding<T> {
    pub id: StrMap,
    pub vector: Vec<T>,
    pub metadata: Option<StrMap>,
}

/// What an embedding holds.
pub struct EmbeddingView<T> {
    pub id: TextMap,
    pub vector: Seq<T>,
    pub metadata: Option<TextMap>,
}

/// What optional metadata holds.
pub open spec fn metadata_view(m: Option<StrMap>) -> Option<TextMap> {
    match m {
        Some(x) => Some(x@),
        None => None,
    }
}

impl<T> View for Embedding<T> {
    type V = EmbeddingView<T>;

    open spec fn view(&self) -> EmbeddingView<T> {
        EmbeddingView { id: self.id@, vector: self.vector@, metadata: metadata_view(self.metadata) }
    }
}

/// What each embedding of a list holds.
pub open spec fn views<T>(es: Seq<Embedding<T>>) -> Seq<EmbeddingView<T>> {
    es.map_values(|e: Embedding<T>| e@)
}

/// The ids of a list of embeddings, in order.
pub open spec fn ids_of<T>(es: Seq<EmbeddingView<T>>) -> Seq<TextMap> {
    es.map_values(|e: EmbeddingView<T>| e.id)
}

/// A named store's unit: embeddings of one dimension, scored by one rule,
/// kept in insertion order.
#[derive(Debug, Clone, PartialEq)]
pub struct Collection<T> {
    pub dimension: usize,
    pub distance: Distance,
    pub embeddings: Vec<Embedding<T>>,
}

/// What a collection holds.
pub struct CollectionView<T> {
    pub dimension: nat,
    pub distance: Distance,
    pub embeddings: Seq<EmbeddingView<T>>,
}

impl<T> View for Collection<T> {
    type V = CollectionView<T>;

    open spec fn view(&self) -> CollectionView<T> {
        CollectionView {
            dimension: self.dimension as nat,
            distance: self.distance,
            embeddings: views(self.embeddings@),
        }
    }
}

/// A collection with no embeddings.
pub open spec fn empty_collection<T>(dimension: nat, distance: Distance) -> CollectionView<T> {
    CollectionView { dimension, distance, embeddings: Seq::empty() }
}

/// `c` with `s` appended to its embeddings.
pub open spec fn appended<T>(c: CollectionView<T>, s: Seq<EmbeddingView<T>>) -> CollectionView<T> {
    CollectionView { dimension: c.dimension, distance: c.distance, embeddings: c.embeddings + s }
}

/// Every vector has the collection's dimension, and no two embeddings share an id.
pub open spec fn collection_wf<T>(c: CollectionView<T>) -> bool {
    &&& forall|i: int|
        0 <= i < c.embeddings.len() ==> (#[trigger] c.embeddings[i]).vector.len() == c.dimension
    &&& forall|i: int, j: int|
        0 <= i < j < c.embeddings.len() ==> c.embeddings[i].id != c.embeddings[j].id
}

/// Why `e` would be refused by a collection of dimension `dimension` that
/// already holds embeddings with the ids `ids`: a taken id is reported before
/// a wrong length.
pub open spec fn refusal<T>(ids: Seq<TextMap>, dimension: nat, e: EmbeddingView<T>) -> Option<Error> {
    if ids.contains(e.id) {
        Some(Error::UniqueViolation)
    } else if e.vector.len() != dimension {
        Some(Error::DimensionMismatch)
    } else {
        None
    }
}

/// `s` is how a collection with rule `distance` stores `e`: the same id and
/// metadata, and the vector as given, or as `normalize` returns it for cosine.
pub open spec fn stored_form<T, F: Fn(Vec<T>) -> Vec<T>>(
    normalize: F,
    distance: Distance,
    e: EmbeddingView<T>,
    s: EmbeddingView<T>,
) -> bool {
    &&& s.id == e.id
    &&& s.metadata == e.metadata
    &&& if distance == Distance::Cosine {
        exists|a: Vec<T>, r: Vec<T>|
            a@ == e.vector && r@ == s.vector && #[trigger] normalize.ensures((a,), r)
    } else {
        s.vector == e.vector
    }
}

/// `normalize` can be called on every vector and keeps its length.
pub open spec fn normalizer<T, F: Fn(Vec<T>) -> Vec<T>>(normalize: F) -> bool {
    &&& forall|v: Vec<T>| #[trigger] normalize.requires((v,))
    &&& forall|v: Vec<T>, r: Vec<T>| #[trigger] normalize.ensures((v,), r) ==> r@.len() == v@.len()
}

/// How many items of a batch a collection of dimension `dimension`, whose
/// embeddings have the ids `ids`, takes before it refuses one. Each item taken
/// counts against the items after it.
pub open spec fn batch_accepted<T>(
    ids: Seq<TextMap>,
    dimension: nat,
    items: Seq<EmbeddingView<T>>,
) -> nat
    decreases items.len(),
{
    if items.len() == 0 {
        0
    } else if refusal(ids, dimension, items[0]) is Some {
        0
    } else {
        1 + batch_accepted(ids.push(items[0].id), dimension, items.drop_first())
    }
}

/// The error that ends a batch after its first `n` items were taken.
pub open spec fn batch_refusal<T>(
    ids: Seq<TextMap>,
    dimension: nat,
    items: Seq<EmbeddingView<T>>,
    n: nat,
) -> Option<Error> {
    if n < items.len() {
        refusal(ids + ids_of(items.take(n as int)), dimension, items[n as int])
    } else {
        None
    }
}

/// When every item before position `i` of a batch is taken, the count of
/// taken items is `i` plus what the rest of the batch adds after them.
pub proof fn lemma_batch_prefix<T>(
    ids: Seq<TextMap>,
    dimension: nat,
    items: Seq<EmbeddingView<T>>,
    i: int,
)
    requires
        0 <= i <= items.len(),
        forall|x: int|
            0 <= x < i ==> refusal(ids + ids_of(items.take(x)), dimension, #[trigger] items[x])
                is None,
    ensures
        batch_accepted(ids, dimension, items) == i + batch_accepted(
            ids + ids_of(items.take(i)),
            dimension,
            items.skip(i),
        ),
    decreases i,
{
    if i == 0 {
        assert(ids + ids_of(items.take(0)) =~= ids);
        assert(items.skip(0) =~= items);
    } else {
        let ids1 = ids.push(items[0].id);
        let rest = items.drop_first();
        assert(ids + ids_of(items.take(0)) =~= ids);
        assert(refusal(ids, dimension, items[0]) is None);
        assert forall|x: int| 0 <= x < i - 1 implies refusal(
            ids1 + ids_of(rest.take(x)),
            dimension,
            #[trigger] rest[x],
        ) is None by {
            assert(ids1 + ids_of(rest.take(x)) =~= ids + ids_of(items.take(x + 1)));
            assert(rest[x] == items[x + 1]);
        }
        lemma_batch_prefix(ids1, dimension, rest, i - 1);
        assert(ids1 + ids_of(rest.take(i - 1)) =~= ids + ids_of(items.take(i)));
        assert(rest.skip(i - 1) =~= items.skip(i));
    }
}

/// A batch whose item `k` repeats the id of an earlier item, and whose items
/// before `k` are all acceptable, is cut at `k` with `UniqueViolation`: the
/// `k` items before it are taken.
pub proof fn lemma_duplicate_in_batch<T>(
    ids: Seq<TextMap>,
    dimension: nat,
    items: Seq<EmbeddingView<T>>,
    j: int,
    k: int,
)
    requires
        0 <= j < k < items.len(),
        items[j].id == items[k].id,
        forall|x: int|
            0 <= x < k ==> refusal(ids + ids_of(items.take(x)), dimension, #[trigger] items[x])
                is None,
    ensures
        batch_accepted(ids, dimension, items) == k,
        batch_refusal(ids, dimension, items, k as nat) == Some(Error::UniqueViolation),
{
    lemma_batch_prefix(ids, dimension, items, k);
    let seen = ids + ids_of(items.take(k));
    assert(seen[ids.len() + j] == items[j].id);
    assert(seen.contains(items[k].id));
    assert(items.skip(k)[0] == items[k]);
    assert(batch_accepted(seen, dimension, items.skip(k)) == 0);
}

impl<T: Copy> Embedding<T> {
    /// A copy of this embedding.
    pub fn duplicate(&self) -> (r: Embedding<T>)
        ensures
            r@ == self@,
    {
        let mut vector: Vec<T> = Vec::new();
        let mut i: usize = 0;
        while i < self.vector.len()
            invariant
                i <= self.vector@.len(),
                vector@ == self.vector@.take(i as int),
            decreases self.vector@.len() - i,
        {
            vector.push(self.vector[i]);
            proof {
                assert(vector@ =~= self.vector@.take(i + 1));
            }
            i = i + 1;
        }
        proof {
            assert(vector@ =~= self.vector@);
        }
        let metadata = match &self.metadata {
            Some(m) => Some(m.clone()),
            None => None,
        };
        Embedding { id: self.id.clone(), vector, metadata }
    }
}

impl<T: Copy> Collection<T> {
    /// Whether an embedding of this collection has the id `id`.
    pub fn has_id(&self, id: &StrMap) -> (r: bool)
        ensures
            r == ids_of(self@.embeddings).contains(id@),
    {
        let mut i: usize = 0;
        while i < self.embeddings.len()
            invariant
                i <= self.embeddings@.len(),
                forall|j: int| 0 <= j < i ==> self.embeddings@[j].id@ != id@,
            decreases self.embeddings@.len() - i,
        {
            if self.embeddings[i].id.same_pairs(id) {
                proof {
                    assert(ids_of(self@.embeddings)[i as int] == id@);
                }
                return true;
            }
            i = i + 1;
        }
        proof {
            if ids_of(self@.embeddings).contains(id@) {
                let j = choose|j: int|
                    0 <= j < ids_of(self@.embeddings).len() && ids_of(self@.embeddings)[j] == id@;
                assert(self.embeddings@[j].id@ == id@);
            }
        }
        false
    }

    /// Appends `e` unless its id is taken (`UniqueViolation`) or its vector
    /// has the wrong length (`DimensionMismatch`); a refused embedding leaves
    /// the collection as it was. A cosine collection stores the vector as
    /// `normalize` returns it.
    pub fn push_checked<F: Fn(Vec<T>) -> Vec<T>>(&mut self, e: Embedding<T>, normalize: &F) -> (r:
        Result<(), Error>)
        requires
            collection_wf(old(self)@),
            normalizer(*normalize),
        ensures
            collection_wf(final(self)@),
            match refusal(ids_of(old(self)@.embeddings), old(self)@.dimension, e@) {
                Some(err) => r == Err::<(), Error>(err) && final(self)@ == old(self)@,
                None => r is Ok && exists|s: EmbeddingView<T>|
                    stored_form(*normalize, old(self)@.distance, e@, s) && final(self)@ == appended(
                        old(self)@,
                        seq![s],
                    ),
            },
    {
        if self.has_id(&e.id) {
            return Err(Error::UniqueViolation);
        }
        if e.vector.len() != self.dimension {
            return Err(Error::DimensionMismatch);
        }
        let ghost ev = e@;
        let Embedding { id, vector, metadata } = e;
        let stored_vector = if self.distance == Distance::Cosine {
            let v = normalize(vector);
            v
        } else {
            vector
        };
        let stored = Embedding { id, vector: stored_vector, metadata };
        let ghost before = self@;
        self.embeddings.push(stored);
        proof {
            assert(stored_form(*normalize, before.distance, ev, stored@));
            assert(views(self.embeddings@) =~= before.embeddings + seq![stored@]);
            assert(self@ == appended(before, seq![stored@]));
            assert forall|i: int, j: int|
                0 <= i < j < self@.embeddings.len() implies self@.embeddings[i].id
                != self@.embeddings[j].id by {
                if j == self@.embeddings.len() - 1 {
                    assert(ids_of(before.embeddings)[i] == before.embeddings[i].id);
                }
            }
        }
        Ok(())
    }

    /// Appends the items of `items` in order and stops at the first one that
    /// `push_checked` refuses, returning its error. The items before it stay
    /// appended.
    pub fn push_batch<F: Fn(Vec<T>) -> Vec<T>>(&mut self, items: Vec<Embedding<T>>, normalize: &F) -> (r:
        Result<(), Error>)
        requires
            collection_wf(old(self)@),
            normalizer(*normalize),
        ensures
            collection_wf(final(self)@),
            exists|s: Seq<EmbeddingView<T>>|
                s.len() == batch_accepted(
                    ids_of(old(self)@.embeddings),
                    old(self)@.dimension,
                    views(items@),
                ) && (forall|i: int|
                    0 <= i < s.len() ==> stored_form(
                        *normalize,
                        old(self)@.distance,
                        views(items@)[i],
                        #[trigger] s[i],
                    )) && final(self)@ == appended(old(self)@, s),
            match batch_refusal(
                ids_of(old(self)@.embeddings),
                old(self)@.dimension,
                views(items@),
                batch_accepted(ids_of(old(self)@.embeddings), old(self)@.dimension, views(items@)),
            ) {
                Some(err) => r == Err::<(), Error>(err),
                None => r is Ok,
            },
    {
        let ghost start = self@;
        let ghost ids0 = ids_of(start.embeddings);
        let ghost all = views(items@);
        let ghost mut done: Seq<EmbeddingView<T>> = Seq::empty();
        proof {
            assert(appended(start, done) =~= start);
            assert(all.skip(0) =~= all);
            assert(ids0 + ids_of(all.take(0)) =~= ids0);
        }
        for e in it: items
            invariant
                normalizer(*normalize),
                start == old(self)@,
                ids0 == ids_of(start.embeddings),
                all == views(items@),
                all == views(it.seq()),
                collection_wf(self@),
                done.len() == it.index(),
                forall|i: int|
                    0 <= i < it.index() ==> stored_form(*normalize, start.distance, all[i], #[trigger] done[i]),
                self@ == appended(start, done),
                ids_of(self@.embeddings) == ids0 + ids_of(all.take(it.index())),
                batch_accepted(ids0, start.dimension, all) == it.index() + batch_accepted(
                    ids_of(self@.embeddings),
                    start.dimension,
                    all.skip(it.index()),
                ),
        {
            let ghost k = it.index();
            let ghost cur = self@;
            proof {
                assert(all.skip(k).drop_first() =~= all.skip(k + 1));
                assert(all.skip(k)[0] == all[k]);
                assert(e@ == all[k]);
            }
            match self.push_checked(e, normalize) {
                Ok(()) => {
                    proof {
                        let s = choose|s: EmbeddingView<T>|
                            stored_form(*normalize, cur.distance, all[k], s) && self@ == appended(
                                cur,
                                seq![s],
                            );
                        done = done.push(s);
                        assert(self@.embeddings =~= appended(start, done).embeddings);
                        assert(self@.embeddings =~= cur.embeddings.push(s));
                        assert(ids_of(self@.embeddings) =~= ids_of(cur.embeddings).push(s.id));
                        assert(all.take(k + 1) =~= all.take(k).push(all[k]));
                        assert(ids_of(all.take(k + 1)) =~= ids_of(all.take(k)).push(all[k].id));
                        assert(ids_of(self@.embeddings) =~= ids0 + ids_of(all.take(k + 1)));
                    }
                },
                Err(err) => {
                    proof {
                        assert(refusal(ids_of(cur.embeddings), start.dimension, all[k]) == Some(err));
                        assert(batch_accepted(ids_of(cur.embeddings), start.dimension, all.skip(k)) == 0);
                        assert(batch_accepted(ids0, start.dimension, all) == k);
                        assert(batch_refusal(ids0, start.dimension, all, k as nat) == Some(err));
                        assert(done.len() == k);
                        assert(self@ == appended(start, done));
                        assert(all == views(items@));
                        assert(forall|i: int|
                            0 <= i < k ==> stored_form(*normalize, start.distance, all[i], #[trigger] done[i]));
                    }
                    return Err(err);
                },
            }
        }
        proof {
            assert(all.skip(all.len() as int) =~= Seq::<EmbeddingView<T>>::empty());
        }
        Ok(())
    }
}

} // verus!
