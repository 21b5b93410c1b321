use vstd::prelude::*;
use crate::collection::{Collection, Embedding};

verus! {

/// Candidate `i` ranks before candidate `j`: it has the lower key, or the
/// same key and the larger index.
pub open spec fn ranks_before(keys: Seq<u32>, i: int, j: int) -> bool {
    keys[i] < keys[j] || (keys[i] == keys[j] && i > j)
}

/// Index `j` is one of the entries of `r`.
pub open spec fn listed(r: Seq<usize>, j: int) -> bool {
    exists|a: int| 0 <= a < r.len() && r[a] == j
}

/// `r` holds the `min(k, keys.len())` best-ranked candidates, best first.
pub open spec fn is_top_k(keys: Seq<u32>, k: nat, r: Seq<usize>) -> bool {
    &&& r.len() == if k <= keys.len() { k } else { keys.len() }
    &&& forall|a: int| 0 <= a < r.len() ==> r[a] < keys.len()
    &&& forall|a: int, b: int| 0 <= a < b < r.len() ==> ranks_before(keys, r[a] as int, r[b] as int)
    &&& forall|a: int, j: int|
        0 <= a < r.len() && 0 <= j < keys.len() && !listed(r, j) ==> ranks_before(
            keys,
            r[a] as int,
            j,
        )
}

/// Indices of the `k` candidates with the smallest keys, smallest first;
/// of two equal keys the larger index comes first. All candidates when
/// there are at most `k`.
pub fn select_top_k(keys: &Vec<u32>, k: usize) -> (r: Vec<usize>)
    ensures
        is_top_k(keys@, k as nat, r@),
        k == 0 ==> r@.len() == 0,
        k >= keys@.len() ==> r@.len() == keys@.len(),
{
    let ghost ks = keys@;
    let mut top: Vec<usize> = Vec::new();
    let mut i: usize = 0;
    while i < keys.len()
        invariant
            ks == keys@,
            i <= ks.len(),
            top@.len() == if k <= i { k as int } else { i as int },
            i <= k ==> forall|j: int| 0 <= j < i ==> listed(top@, j),
            forall|a: int| 0 <= a < top@.len() ==> top@[a] < i,
            forall|a: int, b: int|
                0 <= a < b < top@.len() ==> ranks_before(ks, top@[a] as int, top@[b] as int),
            forall|a: int, j: int|
                0 <= a < top@.len() && 0 <= j < i && !listed(top@, j) ==> ranks_before(
                    ks,
                    top@[a] as int,
                    j,
                ),
        decreases ks.len() - i,
    {
        let ki = keys[i];
        let full = top.len() >= k;
        if !full || (top.len() > 0 && ki <= keys[top[top.len() - 1]]) {
            // Position of the first entry that `i` ranks before.
            let mut p: usize = 0;
            while p < top.len() && keys[top[p]] < ki
                invariant
                    ks == keys@,
                    i < ks.len(),
                    ki == ks[i as int],
                    p <= top@.len(),
                    forall|a: int| 0 <= a < top@.len() ==> top@[a] < i,
                    forall|a: int| 0 <= a < p ==> ranks_before(ks, top@[a] as int, i as int),
                decreases top@.len() - p,
            {
                p = p + 1;
            }
            let ghost old_top = top@;
            proof {
                assert forall|a: int| p <= a < old_top.len() implies ranks_before(
                    ks,
                    i as int,
                    old_top[a] as int,
                ) by {
                    if a > p {
                        assert(ranks_before(ks, old_top[p as int] as int, old_top[a] as int));
                    }
                }
            }
            top.insert(p, i);
            proof {
                assert forall|a: int, b: int| 0 <= a < b < top@.len() implies ranks_before(
                    ks,
                    top@[a] as int,
                    top@[b] as int,
                ) by {
                    if a < p && b > p {
                        assert(top@[a] == old_top[a]);
                        assert(top@[b] == old_top[b - 1]);
                    } else if b < p {
                        assert(top@[a] == old_top[a] && top@[b] == old_top[b]);
                    } else if a > p {
                        assert(top@[a] == old_top[a - 1] && top@[b] == old_top[b - 1]);
                    }
                }
            }
            if top.len() > k {
                let ghost before_pop = top@;
                top.pop();
                proof {
                    assert(top@ == before_pop.drop_last());
                    let last = before_pop[before_pop.len() - 1];
                    assert forall|a: int, j: int|
                        0 <= a < top@.len() && 0 <= j < i + 1 && !listed(top@, j) implies ranks_before(
                        ks,
                        top@[a] as int,
                        j,
                    ) by {
                        lemma_listed_after_insert(old_top, p as int, i, j);
                        lemma_listed_after_pop(before_pop, j);
                        if j != last {
                            assert(!listed(old_top, j) && j != i);
                            if top@[a] == i {
                                let l = old_top[old_top.len() - 1];
                                assert(ranks_before(ks, l as int, j));
                            } else {
                                let a0 = if a < p { a } else { a - 1 };
                                assert(top@[a] == old_top[a0]);
                            }
                        } else {
                            assert(top@[a] == before_pop[a]);
                        }
                    }
                }
            } else {
                proof {
                    assert(i < k);
                    assert forall|j: int| 0 <= j < i + 1 implies listed(top@, j) by {
                        lemma_listed_after_insert(old_top, p as int, i, j);
                    }
                }
            }
        } else {
            proof {
                if top@.len() > 0 {
                    let l = top@[top@.len() - 1];
                    assert(ranks_before(ks, l as int, i as int));
                    assert forall|a: int, j: int|
                        0 <= a < top@.len() && 0 <= j < i + 1 && !listed(top@, j) implies ranks_before(
                        ks,
                        top@[a] as int,
                        j,
                    ) by {
                        if a < top@.len() - 1 {
                            assert(ranks_before(ks, top@[a] as int, l as int));
                        }
                    }
                }
            }
        }
        i = i + 1;
    }
    top
}

/// The best-ranked list is unique: two lists that both hold the `k`
/// best-ranked candidates, best first, are the same list.
pub proof fn lemma_top_k_unique(keys: Seq<u32>, k: nat, r1: Seq<usize>, r2: Seq<usize>)
    requires
        is_top_k(keys, k, r1),
        is_top_k(keys, k, r2),
    ensures
        r1 == r2,
{
    assert forall|a: int| 0 <= a < r1.len() implies r1[a] == r2[a] by {
        lemma_top_k_agree_upto(keys, k, r1, r2, a);
    }
    assert(r1 =~= r2);
}

proof fn lemma_top_k_agree_upto(keys: Seq<u32>, k: nat, r1: Seq<usize>, r2: Seq<usize>, a: int)
    requires
        is_top_k(keys, k, r1),
        is_top_k(keys, k, r2),
        0 <= a < r1.len(),
    ensures
        forall|b: int| 0 <= b <= a ==> r1[b] == r2[b],
    decreases a,
{
    if a > 0 {
        lemma_top_k_agree_upto(keys, k, r1, r2, a - 1);
    }
    if r1[a] != r2[a] {
        let x = r1[a] as int;
        let y = r2[a] as int;
        if ranks_before(keys, x, y) {
            lemma_first_difference(keys, k, r1, r2, a);
        } else {
            assert(ranks_before(keys, y, x));
            lemma_first_difference(keys, k, r2, r1, a);
        }
    }
}

/// Where two best-ranked lists first differ, the entry of the first cannot
/// rank before the entry of the second.
proof fn lemma_first_difference(keys: Seq<u32>, k: nat, r1: Seq<usize>, r2: Seq<usize>, a: int)
    requires
        is_top_k(keys, k, r1),
        is_top_k(keys, k, r2),
        0 <= a < r1.len(),
        forall|b: int| 0 <= b < a ==> r1[b] == r2[b],
    ensures
        !ranks_before(keys, r1[a] as int, r2[a] as int),
{
    let x = r1[a] as int;
    if !ranks_before(keys, x, r2[a] as int) {
    } else if listed(r2, x) {
        let b = choose|b: int| 0 <= b < r2.len() && r2[b] == x;
        if b < a {
            assert(r1[b] == x);
            assert(ranks_before(keys, r1[b] as int, r1[a] as int));
        } else if b > a {
            assert(ranks_before(keys, r2[a] as int, r2[b] as int));
        }
    } else {
        assert(ranks_before(keys, r2[a] as int, x));
    }
}

/// An embedding with its score against a query.
#[derive(Debug, Clone, PartialEq)]
pub struct SimilarityResult<S, T> {
    pub score: S,
    pub embedding: Embedding<T>,
}

impl<T: Copy> Collection<T> {
    /// The `k` embeddings ranked best by `keys`, best first, each with its
    /// score and as a copy. `scores[i]` and `keys[i]` belong to embedding `i`;
    /// a lower key ranks better, and of two equal keys the later embedding.
    pub fn get_similarity<S: Copy>(&self, scores: &Vec<S>, keys: &Vec<u32>, k: usize) -> (r: Vec<
        SimilarityResult<S, T>,
    >)
        requires
            scores@.len() == self.embeddings@.len(),
            keys@.len() == self.embeddings@.len(),
        ensures
            exists|idx: Seq<usize>|
                #[trigger] is_top_k(keys@, k as nat, idx) && r@.len() == idx.len() && forall|a: int|
                    0 <= a < idx.len() ==> (#[trigger] r@[a]).score == scores@[idx[a] as int]
                        && r@[a].embedding@ == self@.embeddings[idx[a] as int],
    {
        let idx = select_top_k(keys, k);
        let mut out: Vec<SimilarityResult<S, T>> = Vec::new();
        let mut a: usize = 0;
        while a < idx.len()
            invariant
                is_top_k(keys@, k as nat, idx@),
                keys@.len() == self.embeddings@.len(),
                scores@.len() == self.embeddings@.len(),
                a <= idx@.len(),
                out@.len() == a,
                forall|b: int|
                    0 <= b < a ==> (#[trigger] out@[b]).score == scores@[idx@[b] as int]
                        && out@[b].embedding@ == self@.embeddings[idx@[b] as int],
            decreases idx@.len() - a,
        {
            let j = idx[a];
            let e = self.embeddings[j].duplicate();
            proof {
                assert(self@.embeddings[j as int] == self.embeddings@[j as int]@);
            }
            out.push(SimilarityResult { score: scores[j], embedding: e });
            a = a + 1;
        }
        proof {
            assert(is_top_k(keys@, k as nat, idx@));
        }
        out
    }
}

proof fn lemma_listed_after_insert(r: Seq<usize>, p: int, x: usize, j: int)
    requires
        0 <= p <= r.len(),
    ensures
        listed(r.insert(p, x), j) <==> (listed(r, j) || j == x),
{
    let t = r.insert(p, x);
    if listed(r, j) {
        let a = choose|a: int| 0 <= a < r.len() && r[a] == j;
        if a < p {
            assert(t[a] == j);
        } else {
            assert(t[a + 1] == j);
        }
    }
    if j == x {
        assert(t[p] == x);
    }
    if listed(t, j) {
        let a = choose|a: int| 0 <= a < t.len() && t[a] == j;
        if a < p {
            assert(r[a] == j);
        } else if a > p {
            assert(r[a - 1] == j);
        }
    }
}

proof fn lemma_listed_after_pop(r: Seq<usize>, j: int)
    requires
        r.len() > 0,
    ensures
        listed(r.drop_last(), j) <==> (listed(r, j) && (j != r[r.len() - 1] || exists|a: int|
            0 <= a < r.len() - 1 && r[a] == j)),
{
    let t = r.drop_last();
    if listed(t, j) {
        let a = choose|a: int| 0 <= a < t.len() && t[a] == j;
        assert(r[a] == j);
    }
    if listed(r, j) && j != r[r.len() - 1] {
        let a = choose|a: int| 0 <= a < r.len() && r[a] == j;
        assert(t[a] == j);
    }
    if exists|a: int| 0 <= a < r.len() - 1 && r[a] == j {
        let a = choose|a: int| 0 <= a < r.len() - 1 && r[a] == j;
        assert(t[a] == j);
    }
}

} // verus!
