use vstd::prelude::*;

verus! {

/// How often `t` occurs in `s`.
pub open spec fn count_of(s: Seq<usize>, t: usize) -> nat
    decreases s.len(),
{
    if s.len() == 0 {
        0
    } else {
        count_of(s.drop_last(), t) + if s.last() == t {
            1nat
        } else {
            0nat
        }
    }
}

/// The number of references to `t` that the records numbered below `n` and
/// contained in `keep` hold, where `edges[i]` lists the referents of record `i`.
pub open spec fn indegree(edges: Seq<Seq<usize>>, keep: Set<int>, n: nat, t: usize) -> nat
    decreases n,
{
    if n == 0 {
        0
    } else {
        indegree(edges, keep, (n - 1) as nat, t) + if keep.contains(n - 1) {
            count_of(edges[n - 1], t)
        } else {
            0nat
        }
    }
}

pub proof fn lemma_count_push(s: Seq<usize>, x: usize, t: usize)
    ensures
        count_of(s.push(x), t) == count_of(s, t) + if x == t {
            1nat
        } else {
            0nat
        },
{
    assert(s.push(x).drop_last() =~= s);
}

pub proof fn lemma_count_append(a: Seq<usize>, b: Seq<usize>, t: usize)
    ensures
        count_of(a + b, t) == count_of(a, t) + count_of(b, t),
    decreases b.len(),
{
    if b.len() == 0 {
        assert(a + b =~= a);
    } else {
        assert((a + b).drop_last() =~= a + b.drop_last());
        lemma_count_append(a, b.drop_last(), t);
    }
}

/// A sequence counts `t` at least once exactly when it contains `t`.
pub proof fn lemma_count_contains(s: Seq<usize>, t: usize)
    ensures
        count_of(s, t) > 0 <==> s.contains(t),
    decreases s.len(),
{
    if s.len() == 0 {
    } else {
        lemma_count_contains(s.drop_last(), t);
        if s.last() == t {
            assert(s[s.len() - 1] == t);
        } else if s.contains(t) {
            let i = choose|i: int| 0 <= i < s.len() && s[i] == t;
            assert(s.drop_last()[i] == t);
        } else if s.drop_last().contains(t) {
            let i = choose|i: int| 0 <= i < s.drop_last().len() && s.drop_last()[i] == t;
            assert(s[i] == t);
        }
    }
}

/// The first `k + 1` elements count what the first `k` count, and the
/// element at place `k`.
pub proof fn lemma_count_take_next(s: Seq<usize>, k: int, t: usize)
    requires
        0 <= k < s.len(),
    ensures
        count_of(s.take(k + 1), t) == count_of(s.take(k), t) + if s[k] == t {
            1nat
        } else {
            0nat
        },
{
    assert(s.take(k + 1).drop_last() =~= s.take(k));
}

/// Records that agree on what they refer to have the same indegrees.
pub proof fn lemma_indegree_frame(
    e1: Seq<Seq<usize>>,
    e2: Seq<Seq<usize>>,
    keep: Set<int>,
    n: nat,
    t: usize,
)
    requires
        forall|i: int| 0 <= i < n && keep.contains(i) ==> e1[i] == e2[i],
    ensures
        indegree(e1, keep, n, t) == indegree(e2, keep, n, t),
    decreases n,
{
    if n > 0 {
        lemma_indegree_frame(e1, e2, keep, (n - 1) as nat, t);
    }
}

/// Counting over more records never gives less.
pub proof fn lemma_indegree_mono(
    edges: Seq<Seq<usize>>,
    k1: Set<int>,
    k2: Set<int>,
    n: nat,
    t: usize,
)
    requires
        forall|i: int| 0 <= i < n && k1.contains(i) ==> k2.contains(i),
    ensures
        indegree(edges, k1, n, t) <= indegree(edges, k2, n, t),
    decreases n,
{
    if n > 0 {
        lemma_indegree_mono(edges, k1, k2, (n - 1) as nat, t);
    }
}

/// Two sets of records that agree below `n` give the same indegrees.
pub proof fn lemma_indegree_same_keep(
    edges: Seq<Seq<usize>>,
    k1: Set<int>,
    k2: Set<int>,
    n: nat,
    t: usize,
)
    requires
        forall|i: int| 0 <= i < n ==> (k1.contains(i) <==> k2.contains(i)),
    ensures
        indegree(edges, k1, n, t) == indegree(edges, k2, n, t),
    decreases n,
{
    if n > 0 {
        lemma_indegree_same_keep(edges, k1, k2, (n - 1) as nat, t);
    }
}

/// Taking one more record into the count adds what that record refers to.
pub proof fn lemma_indegree_insert(
    edges: Seq<Seq<usize>>,
    keep: Set<int>,
    b: int,
    n: nat,
    t: usize,
)
    requires
        !keep.contains(b),
    ensures
        indegree(edges, keep.insert(b), n, t) == indegree(edges, keep, n, t) + if 0 <= b < n {
            count_of(edges[b], t)
        } else {
            0nat
        },
    decreases n,
{
    if n > 0 {
        lemma_indegree_insert(edges, keep, b, (n - 1) as nat, t);
    }
}

/// Changing what one counted record refers to changes the indegree by the
/// difference.
pub proof fn lemma_indegree_update(
    edges: Seq<Seq<usize>>,
    keep: Set<int>,
    b: int,
    e: Seq<usize>,
    n: nat,
    t: usize,
)
    requires
        0 <= b < edges.len(),
        n <= edges.len(),
    ensures
        indegree(edges.update(b, e), keep, n, t) + (if b < n && keep.contains(b) {
            count_of(edges[b], t)
        } else {
            0nat
        }) == indegree(edges, keep, n, t) + (if b < n && keep.contains(b) {
            count_of(e, t)
        } else {
            0nat
        }),
    decreases n,
{
    if n > 0 {
        lemma_indegree_update(edges, keep, b, e, (n - 1) as nat, t);
    }
}

/// One more record at the end adds what it refers to.
pub proof fn lemma_indegree_push(
    edges: Seq<Seq<usize>>,
    keep: Set<int>,
    e: Seq<usize>,
    t: usize,
)
    ensures
        indegree(edges.push(e), keep, (edges.len() + 1) as nat, t) == indegree(
            edges,
            keep,
            edges.len(),
            t,
        ) + if keep.contains(edges.len() as int) {
            count_of(e, t)
        } else {
            0nat
        },
{
    lemma_indegree_frame(edges.push(e), edges, keep, edges.len(), t);
}

/// Where a larger set of records counts more, a record of the difference
/// refers to `t`.
pub proof fn lemma_indegree_witness(
    edges: Seq<Seq<usize>>,
    k1: Set<int>,
    k2: Set<int>,
    n: nat,
    t: usize,
) -> (b: int)
    requires
        indegree(edges, k1, n, t) < indegree(edges, k2, n, t),
    ensures
        0 <= b < n,
        k2.contains(b),
        !k1.contains(b),
        count_of(edges[b], t) > 0,
    decreases n,
{
    if n == 0 {
        0
    } else if k2.contains(n - 1) && !k1.contains(n - 1) && count_of(edges[n - 1], t) > 0 {
        n - 1
    } else {
        lemma_indegree_witness(edges, k1, k2, (n - 1) as nat, t)
    }
}

/// Records that do not refer to `t` give it no indegree.
pub proof fn lemma_indegree_none(edges: Seq<Seq<usize>>, keep: Set<int>, n: nat, t: usize)
    requires
        n <= edges.len(),
        forall|i: int| 0 <= i < n ==> !(#[trigger] edges[i]).contains(t),
    ensures
        indegree(edges, keep, n, t) == 0,
    decreases n,
{
    if n > 0 {
        lemma_indegree_none(edges, keep, (n - 1) as nat, t);
        lemma_count_contains(edges[n - 1], t);
    }
}

/// A prefix counts no more than the whole.
pub proof fn lemma_count_prefix(s: Seq<usize>, k: int, t: usize)
    requires
        0 <= k <= s.len(),
    ensures
        count_of(s.take(k), t) <= count_of(s, t),
    decreases s.len() - k,
{
    if k < s.len() {
        lemma_count_take_next(s, k, t);
        lemma_count_prefix(s, k + 1, t);
    } else {
        assert(s.take(k) =~= s);
    }
}

/// How many of the numbers below `n` are not in `marked`.
pub open spec fn unmarked_count(marked: Set<usize>, n: nat) -> nat
    decreases n,
{
    if n == 0 {
        0
    } else {
        unmarked_count(marked, (n - 1) as nat) + if marked.contains((n - 1) as usize) {
            0nat
        } else {
            1nat
        }
    }
}

/// Marking one more number below `n` leaves one less unmarked.
pub proof fn lemma_unmarked_insert(marked: Set<usize>, x: usize, n: nat)
    requires
        !marked.contains(x),
        n <= usize::MAX + 1,
    ensures
        unmarked_count(marked.insert(x), n) + (if x < n {
            1nat
        } else {
            0nat
        }) == unmarked_count(marked, n),
    decreases n,
{
    if n > 0 {
        lemma_unmarked_insert(marked, x, (n - 1) as nat);
    }
}

/// The number of references to `t` that the records of `batch` hold.
pub open spec fn batch_refs(edges: Seq<Seq<usize>>, batch: Seq<usize>, t: usize) -> nat
    decreases batch.len(),
{
    if batch.len() == 0 {
        0
    } else {
        batch_refs(edges, batch.drop_last(), t) + count_of(edges[batch.last() as int], t)
    }
}

/// Emptying the records of `batch` takes from the indegree of `t` what those
/// records held of it.
pub proof fn lemma_indegree_after_emptying(
    edges: Seq<Seq<usize>>,
    batch: Seq<usize>,
    emptied: Seq<Seq<usize>>,
    t: usize,
)
    requires
        batch.no_duplicates(),
        forall|j: int| 0 <= j < batch.len() ==> #[trigger] batch[j] < edges.len(),
        edges.len() <= usize::MAX,
        emptied.len() == edges.len(),
        forall|i: int|
            0 <= i < edges.len() ==> #[trigger] emptied[i] == (if batch.contains(i as usize) {
                Seq::<usize>::empty()
            } else {
                edges[i]
            }),
    ensures
        indegree(emptied, Set::full(), edges.len(), t) + batch_refs(edges, batch, t) == indegree(
            edges,
            Set::full(),
            edges.len(),
            t,
        ),
    decreases batch.len(),
{
    if batch.len() == 0 {
        assert(emptied =~= edges);
    } else {
        let b = batch.last();
        let rest = batch.drop_last();
        assert(b == batch[batch.len() - 1]);
        let before_last = emptied.update(b as int, edges[b as int]);
        assert(!rest.contains(b)) by {
            if rest.contains(b) {
                let k = choose|k: int| 0 <= k < rest.len() && rest[k] == b;
                assert(batch[k] == batch[batch.len() - 1]);
            }
        }
        assert forall|j: int| 0 <= j < rest.len() implies #[trigger] rest[j] < edges.len() by {
            assert(rest[j] == batch[j]);
        }
        assert forall|i: int| 0 <= i < edges.len() implies #[trigger] before_last[i] == (
        if rest.contains(i as usize) {
            Seq::<usize>::empty()
        } else {
            edges[i]
        }) by {
            if i != b {
                if batch.contains(i as usize) {
                    let k = choose|k: int| 0 <= k < batch.len() && batch[k] == i as usize;
                    if k == batch.len() - 1 {
                        assert(batch[k] == b);
                        assert(i == b as int);
                    }
                    assert(rest[k] == i as usize);
                } else if rest.contains(i as usize) {
                    let k = choose|k: int| 0 <= k < rest.len() && rest[k] == i as usize;
                    assert(batch[k] == i as usize);
                }
            }
        }
        lemma_indegree_after_emptying(edges, rest, before_last, t);
        assert(batch.contains(b));
        assert(emptied =~= before_last.update(b as int, Seq::<usize>::empty()));
        lemma_indegree_update(
            before_last,
            Set::full(),
            b as int,
            Seq::<usize>::empty(),
            edges.len(),
            t,
        );
    }
}

} // verus!
