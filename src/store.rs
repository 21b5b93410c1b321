use vstd::prelude::*;
use crate::collection::{
    batch_accepted, batch_refusal, collection_wf, empty_collection, ids_of, normalizer, refusal,
    stored_form, appended, views, Collection, CollectionView, Embedding, EmbeddingView,
};
use crate::model::{Distance, Error};
use crate::strmap::{
    entries_map, keys_distinct, lemma_entries_map, lemma_entries_map_remove,
    lemma_entries_map_update, position_of,
};

verus! {

/// What a store holds: each collection under its name.
pub type StoreView<T> = Map<Seq<char>, CollectionView<T>>;

/// The store after creating collection `name`: unchanged if the name is taken.
pub open spec fn after_create<T>(
    m: StoreView<T>,
    name: Seq<char>,
    dimension: nat,
    distance: Distance,
) -> StoreView<T> {
    if m.contains_key(name) {
        m
    } else {
        m.insert(name, empty_collection(dimension, distance))
    }
}

/// The store after deleting collection `name`.
pub open spec fn after_delete<T>(m: StoreView<T>, name: Seq<char>) -> StoreView<T> {
    m.remove(name)
}

/// `r` and `m2` are the result and the store that inserting `e` into
/// collection `name` of `m` gives.
pub open spec fn insert_outcome<T, F: Fn(Vec<T>) -> Vec<T>>(
    normalize: F,
    m: StoreView<T>,
    name: Seq<char>,
    e: EmbeddingView<T>,
    r: Result<(), Error>,
    m2: StoreView<T>,
) -> bool {
    if !m.contains_key(name) {
        r == Err::<(), Error>(Error::NotFound) && m2 == m
    } else {
        let c = m[name];
        match refusal(ids_of(c.embeddings), c.dimension, e) {
            Some(err) => r == Err::<(), Error>(err) && m2 == m,
            None => r is Ok && exists|s: EmbeddingView<T>|
                stored_form(normalize, c.distance, e, s) && m2 == m.insert(
                    name,
                    appended(c, seq![s]),
                ),
        }
    }
}

/// `r` and `m2` are the result and the store that inserting the batch
/// `items` into collection `name` of `m` gives: the items before the first
/// refused one are stored, and the refused one's error is returned.
pub open spec fn batch_outcome<T, F: Fn(Vec<T>) -> Vec<T>>(
    normalize: F,
    m: StoreView<T>,
    name: Seq<char>,
    items: Seq<EmbeddingView<T>>,
    r: Result<(), Error>,
    m2: StoreView<T>,
) -> bool {
    if !m.contains_key(name) {
        r == Err::<(), Error>(Error::NotFound) && m2 == m
    } else {
        let c = m[name];
        let n = batch_accepted(ids_of(c.embeddings), c.dimension, items);
        &&& exists|s: Seq<EmbeddingView<T>>|
            s.len() == n && (forall|i: int|
                0 <= i < n ==> stored_form(normalize, c.distance, items[i], #[trigger] s[i])) && m2
                == m.insert(name, appended(c, s))
        &&& match batch_refusal(ids_of(c.embeddings), c.dimension, items, n) {
            Some(err) => r == Err::<(), Error>(err),
            None => r is Ok,
        }
    }
}

/// Every collection of the store is well formed.
pub open spec fn store_wf<T>(m: StoreView<T>) -> bool {
    forall|name: Seq<char>| #[trigger] m.contains_key(name) ==> collection_wf(m[name])
}

/// In-memory store of named collections.
#[derive(Debug)]
pub struct CacheDB<T> {
    collections: Vec<(String, Collection<T>)>,
}

impl<T> View for CacheDB<T> {
    type V = StoreView<T>;

    closed spec fn view(&self) -> StoreView<T> {
        entries_map(self.collections@)
    }
}

impl<T> CacheDB<T> {
    #[verifier::type_invariant]
    closed spec fn inv(self) -> bool {
        &&& keys_distinct(self.collections@)
        &&& forall|i: int|
            0 <= i < self.collections@.len() ==> collection_wf(
                #[trigger] self.collections@[i].1@,
            )
    }
}

/// A list of named well-formed collections with distinct names stands for a
/// well-formed store.
proof fn lemma_entries_wf<T>(s: Seq<(String, Collection<T>)>)
    requires
        keys_distinct(s),
        forall|i: int| 0 <= i < s.len() ==> collection_wf(#[trigger] s[i].1@),
    ensures
        store_wf(entries_map(s)),
{
    lemma_entries_map(s);
    assert forall|name: Seq<char>| #[trigger] entries_map(s).contains_key(name) implies collection_wf(
        entries_map(s)[name],
    ) by {
        let i = choose|i: int| 0 <= i < s.len() && s[i].0@ == name;
        assert(entries_map(s)[s[i].0@] == s[i].1@);
    }
}

/// Creating a collection and then deleting it under the same name gives
/// back the store as it was, provided the name was free.
pub proof fn lemma_create_then_delete<T>(
    m: StoreView<T>,
    name: Seq<char>,
    dimension: nat,
    distance: Distance,
)
    requires
        !m.contains_key(name),
    ensures
        after_delete(after_create(m, name, dimension, distance), name) == m,
{
    assert(after_delete(after_create(m, name, dimension, distance), name) =~= m);
}

/// An insert whose id is free in an existing collection but whose vector has
/// the wrong length is refused with `DimensionMismatch` and changes nothing.
pub proof fn lemma_dimension_mismatch<T, F: Fn(Vec<T>) -> Vec<T>>(
    normalize: F,
    m: StoreView<T>,
    name: Seq<char>,
    e: EmbeddingView<T>,
    r: Result<(), Error>,
    m2: StoreView<T>,
)
    requires
        insert_outcome(normalize, m, name, e, r, m2),
        m.contains_key(name),
        !ids_of(m[name].embeddings).contains(e.id),
        e.vector.len() != m[name].dimension,
    ensures
        r == Err::<(), Error>(Error::DimensionMismatch),
        m2 == m,
{
}

impl<T: Copy> CacheDB<T> {
    /// An empty store.
    pub fn new() -> (r: CacheDB<T>)
        ensures
            r@ == StoreView::<T>::empty(),
            store_wf(r@),
    {
        CacheDB { collections: Vec::new() }
    }

    /// Index of the collection named `name`, or `None` when there is none.
    fn index_of(&self, name: &String) -> (r: Option<usize>)
        ensures
            match r {
                Some(i) => i < self.collections@.len() && self.collections@[i as int].0@ == name@
                    && self@.contains_key(name@) && self@[name@] == self.collections@[i as int].1@,
                None => !self@.contains_key(name@),
            },
    {
        proof {
            use_type_invariant(self);
            lemma_entries_map(self.collections@);
        }
        position_of(&self.collections, name)
    }

    /// Whether a collection is named `name`.
    pub fn contains_collection(&self, name: &str) -> (r: bool)
        ensures
            r == self@.contains_key(name@),
    {
        let key = name.to_string();
        self.index_of(&key).is_some()
    }

    /// Creates an empty collection named `name`; fails with `UniqueViolation`
    /// if the name is taken, and then leaves the store unchanged.
    pub fn create_collection(&mut self, name: String, dimension: usize, distance: Distance) -> (r:
        Result<Collection<T>, Error>)
        ensures
            final(self)@ == after_create(old(self)@, name@, dimension as nat, distance),
            store_wf(final(self)@),
            old(self)@.contains_key(name@) ==> r == Err::<Collection<T>, Error>(
                Error::UniqueViolation,
            ),
            !old(self)@.contains_key(name@) ==> r is Ok && r->Ok_0@ == empty_collection::<T>(
                dimension as nat,
                distance,
            ),
    {
        proof {
            use_type_invariant(&*self);
            lemma_entries_wf(self.collections@);
        }
        if self.index_of(&name).is_some() {
            return Err(Error::UniqueViolation);
        }
        proof {
            use_type_invariant(&*self);
        }
        let mut cs: Vec<(String, Collection<T>)> = Vec::new();
        std::mem::swap(&mut cs, &mut self.collections);
        let ghost before = cs@;
        cs.push((name, Collection { dimension, distance, embeddings: Vec::new() }));
        proof {
            assert(cs@.drop_last() == before);
            assert(views(Seq::<Embedding<T>>::empty()) =~= Seq::<EmbeddingView<T>>::empty());
            lemma_entries_map(before);
            assert(keys_distinct(cs@)) by {
                assert forall|a: int, b: int| 0 <= a < b < cs@.len() implies cs@[a].0@
                    != cs@[b].0@ by {
                    if b == cs@.len() - 1 {
                        assert(before[a].0@ == cs@[a].0@);
                    }
                }
            }
            assert forall|i: int| 0 <= i < cs@.len() implies collection_wf(
                #[trigger] cs@[i].1@,
            ) by {
                if i < before.len() {
                    assert(cs@[i] == before[i]);
                }
            }
            lemma_entries_wf(cs@);
        }
        self.collections = cs;
        Ok(Collection { dimension, distance, embeddings: Vec::new() })
    }

    /// Deletes the collection named `name` with all its embeddings; fails
    /// with `NotFound`, leaving the store unchanged, when there is none.
    pub fn delete_collection(&mut self, name: &str) -> (r: Result<(), Error>)
        ensures
            old(self)@.contains_key(name@) ==> r is Ok && final(self)@ == after_delete(
                old(self)@,
                name@,
            ),
            !old(self)@.contains_key(name@) ==> r == Err::<(), Error>(Error::NotFound)
                && final(self)@ == old(self)@,
            store_wf(final(self)@),
    {
        proof {
            use_type_invariant(&*self);
            lemma_entries_wf(self.collections@);
        }
        let key = name.to_string();
        match self.index_of(&key) {
            None => Err(Error::NotFound),
            Some(i) => {
                proof {
                    use_type_invariant(&*self);
                }
                let mut cs: Vec<(String, Collection<T>)> = Vec::new();
                std::mem::swap(&mut cs, &mut self.collections);
                let ghost before = cs@;
                cs.remove(i);
                proof {
                    lemma_entries_map_remove(before, i as int);
                    assert forall|j: int| 0 <= j < cs@.len() implies collection_wf(
                        #[trigger] cs@[j].1@,
                    ) by {
                        let j2 = if j < i { j } else { j + 1 };
                        assert(cs@[j] == before[j2]);
                    }
                    lemma_entries_wf(cs@);
                }
                self.collections = cs;
                Ok(())
            },
        }
    }

    /// The collection named `collection_name`, if there is one.
    pub fn get_collection(&self, collection_name: &str) -> (r: Option<&Collection<T>>)
        ensures
            match r {
                Some(c) => self@.contains_key(collection_name@) && c@ == self@[collection_name@]
                    && collection_wf(c@),
                None => !self@.contains_key(collection_name@),
            },
    {
        proof {
            use_type_invariant(self);
            lemma_entries_wf(self.collections@);
        }
        let key = collection_name.to_string();
        match self.index_of(&key) {
            Some(i) => Some(&self.collections[i].1),
            None => None,
        }
    }

    /// A copy of the embeddings of the collection named `collection_name`,
    /// in insertion order, if there is one.
    pub fn get_embeddings(&self, collection_name: &str) -> (r: Option<Vec<Embedding<T>>>)
        ensures
            match r {
                Some(v) => self@.contains_key(collection_name@) && views(v@)
                    == self@[collection_name@].embeddings,
                None => !self@.contains_key(collection_name@),
            },
    {
        let c = match self.get_collection(collection_name) {
            Some(c) => c,
            None => {
                return None;
            },
        };
        let mut out: Vec<Embedding<T>> = Vec::new();
        let mut i: usize = 0;
        while i < c.embeddings.len()
            invariant
                i <= c.embeddings@.len(),
                views(out@) == views(c.embeddings@.take(i as int)),
            decreases c.embeddings@.len() - i,
        {
            let d = c.embeddings[i].duplicate();
            let ghost prev = out@;
            out.push(d);
            proof {
                assert(views(out@) =~= views(prev).push(d@));
                assert(c.embeddings@.take(i + 1) =~= c.embeddings@.take(i as int).push(
                    c.embeddings@[i as int],
                ));
                assert(views(c.embeddings@.take(i + 1)) =~= views(c.embeddings@.take(i as int)).push(
                    c.embeddings@[i as int]@,
                ));
            }
            i = i + 1;
        }
        proof {
            assert(c.embeddings@.take(i as int) =~= c.embeddings@);
        }
        Some(out)
    }

    /// Appends `e` to the collection at index `i` with `push_checked`.
    fn push_into<F: Fn(Vec<T>) -> Vec<T>>(&mut self, i: usize, e: Embedding<T>, normalize: &F) -> (r:
        Result<(), Error>)
        requires
            i < old(self).collections@.len(),
            normalizer(*normalize),
        ensures
            ({
                let name = old(self).collections@[i as int].0@;
                let c = old(self)@[name];
                &&& old(self)@.contains_key(name)
                &&& match refusal(ids_of(c.embeddings), c.dimension, e@) {
                    Some(err) => r == Err::<(), Error>(err) && final(self)@ == old(self)@,
                    None => r is Ok && exists|s: EmbeddingView<T>|
                        stored_form(*normalize, c.distance, e@, s) && final(self)@ == old(
                            self,
                        )@.insert(name, appended(c, seq![s])),
                }
            }),
            store_wf(final(self)@),
    {
        proof {
            use_type_invariant(&*self);
            lemma_entries_map(self.collections@);
        }
        let mut cs: Vec<(String, Collection<T>)> = Vec::new();
        std::mem::swap(&mut cs, &mut self.collections);
        let ghost before = cs@;
        let (name, mut c) = cs.remove(i);
        let r = c.push_checked(e, normalize);
        cs.insert(i, (name, c));
        proof {
            assert(cs@ =~= before.update(i as int, cs@[i as int]));
            lemma_entries_map_update(before, i as int, cs@[i as int]);
            assert forall|j: int| 0 <= j < cs@.len() implies collection_wf(
                #[trigger] cs@[j].1@,
            ) by {
                if j != i {
                    assert(cs@[j] == before[j]);
                }
            }
            lemma_entries_wf(cs@);
            if r is Err {
                assert(entries_map(cs@) =~= entries_map(before));
            }
        }
        self.collections = cs;
        r
    }

    /// Appends `embedding` to the collection named `collection_name`.
    /// Fails with `NotFound` if there is none, with `UniqueViolation` if an
    /// embedding of the collection has the same id, and otherwise with
    /// `DimensionMismatch` if the vector's length is not the collection's
    /// dimension; a failed call leaves the store unchanged. A cosine
    /// collection stores the vector as `normalize` returns it.
    pub fn insert_into_collection<F: Fn(Vec<T>) -> Vec<T>>(
        &mut self,
        collection_name: &str,
        embedding: Embedding<T>,
        normalize: &F,
    ) -> (r: Result<(), Error>)
        requires
            normalizer(*normalize),
        ensures
            store_wf(final(self)@),
            insert_outcome(*normalize, old(self)@, collection_name@, embedding@, r, final(self)@),
    {
        proof {
            use_type_invariant(&*self);
            lemma_entries_wf(self.collections@);
        }
        let key = collection_name.to_string();
        match self.index_of(&key) {
            None => Err(Error::NotFound),
            Some(i) => self.push_into(i, embedding, normalize),
        }
    }

    /// Appends the embeddings of `new_embeddings` in order to the collection
    /// named `collection_name`, each checked as `insert_into_collection`
    /// checks one, also against the batch's earlier items. The first refused
    /// item ends the call with its error; the items before it stay stored.
    pub fn update_collection<F: Fn(Vec<T>) -> Vec<T>>(
        &mut self,
        collection_name: &str,
        new_embeddings: Vec<Embedding<T>>,
        normalize: &F,
    ) -> (r: Result<(), Error>)
        requires
            normalizer(*normalize),
        ensures
            store_wf(final(self)@),
            batch_outcome(
                *normalize,
                old(self)@,
                collection_name@,
                views(new_embeddings@),
                r,
                final(self)@,
            ),
    {
        proof {
            use_type_invariant(&*self);
            lemma_entries_wf(self.collections@);
        }
        let key = collection_name.to_string();
        let i = match self.index_of(&key) {
            None => {
                return Err(Error::NotFound);
            },
            Some(i) => i,
        };
        let mut cs: Vec<(String, Collection<T>)> = Vec::new();
        std::mem::swap(&mut cs, &mut self.collections);
        let ghost before = cs@;
        proof {
            lemma_entries_map(before);
        }
        let (name, mut c) = cs.remove(i);
        let r = c.push_batch(new_embeddings, normalize);
        cs.insert(i, (name, c));
        proof {
            assert(cs@ =~= before.update(i as int, cs@[i as int]));
            lemma_entries_map_update(before, i as int, cs@[i as int]);
            assert forall|j: int| 0 <= j < cs@.len() implies collection_wf(
                #[trigger] cs@[j].1@,
            ) by {
                if j != i {
                    assert(cs@[j] == before[j]);
                }
            }
            lemma_entries_wf(cs@);
        }
        self.collections = cs;
        r
    }

    /// The collection that a query of `query_len` components against
    /// `collection_name` runs on: `NotFound` if there is none, and
    /// `DimensionMismatch` if `query_len` is not its dimension.
    pub fn query_target(&self, collection_name: &str, query_len: usize) -> (r: Result<
        &Collection<T>,
        Error,
    >)
        ensures
            !self@.contains_key(collection_name@) ==> r == Err::<&Collection<T>, Error>(
                Error::NotFound,
            ),
            self@.contains_key(collection_name@) && self@[collection_name@].dimension != query_len
                ==> r == Err::<&Collection<T>, Error>(Error::DimensionMismatch),
            self@.contains_key(collection_name@) && self@[collection_name@].dimension == query_len
                ==> r is Ok && r->Ok_0@ == self@[collection_name@] && collection_wf(r->Ok_0@),
    {
        match self.get_collection(collection_name) {
            None => Err(Error::NotFound),
            Some(c) => {
                if c.dimension != query_len {
                    Err(Error::DimensionMismatch)
                } else {
                    Ok(c)
                }
            },
        }
    }
}

} // verus!
