//! Order statistics over score keys, and the counting core of the
//! precision and recall metrics.
//!
//! Scores are compared through order-preserving unsigned keys; ties are
//! broken by the smaller index, which makes the selection deterministic.
use vstd::prelude::*;

verus! {

/// Strict total order on indices: by key, then by index.
pub open spec fn lex_lt(keys: Seq<u64>, i: int, j: int) -> bool {
    keys[i] < keys[j] || (keys[i] == keys[j] && i < j)
}

/// Strict total order on indices for the largest-first selection: by key
/// descending, then by index ascending.
pub open spec fn lex_gt(keys: Seq<u64>, i: int, j: int) -> bool {
    keys[i] > keys[j] || (keys[i] == keys[j] && i < j)
}

/// `j` occurs among the selected indices.
pub open spec fn sel_contains(r: Seq<usize>, j: int) -> bool {
    exists|a: int| 0 <= a < r.len() && (#[trigger] r[a]) == j
}

/// Number of set flags.
pub open spec fn count_true(s: Seq<bool>) -> nat
    decreases s.len(),
{
    if s.len() == 0 {
        0
    } else {
        count_true(s.drop_last()) + (if s.last() {
            1nat
        } else {
            0nat
        })
    }
}

pub proof fn lemma_count_true_update(s: Seq<bool>, j: int)
    requires
        0 <= j < s.len(),
        !s[j],
    ensures
        count_true(s.update(j, true)) == count_true(s) + 1,
    decreases s.len(),
{
    if j == s.len() - 1 {
        assert(s.update(j, true).drop_last() =~= s.drop_last());
    } else {
        assert(s.update(j, true).drop_last() =~= s.drop_last().update(j, true));
        assert(s.update(j, true).last() == s.last());
        assert(s.drop_last()[j] == s[j]);
        lemma_count_true_update(s.drop_last(), j);
    }
}

/// Fewer set flags than elements leaves an unset one.
pub proof fn lemma_count_true_partial(s: Seq<bool>)
    requires
        count_true(s) < s.len(),
    ensures
        exists|j: int| 0 <= j < s.len() && !(#[trigger] s[j]),
    decreases s.len(),
{
    if s.len() > 0 {
        if !s.last() {
            assert(!s[s.len() - 1]);
        } else {
            lemma_count_true_partial(s.drop_last());
            let j = choose|j: int| 0 <= j < s.drop_last().len() && !(#[trigger] s.drop_last()[j]);
            assert(!s[j]);
        }
    }
}

/// Indices of the `k` smallest keys, ascending by key with ties broken by
/// the smaller index.  The result lists `min(k, n)` distinct indices in
/// strictly increasing selection order, and every index left out compares
/// strictly after every selected one.
pub fn k_smallest(keys: &Vec<u64>, k: usize) -> (r: Vec<usize>)
    ensures
        r@.len() == (if k <= keys@.len() {
            k as int
        } else {
            keys@.len() as int
        }),
        forall|a: int| 0 <= a < r@.len() ==> (#[trigger] r@[a]) < keys@.len(),
        forall|a: int, b: int| 0 <= a < b < r@.len() ==> lex_lt(keys@, r@[a] as int, r@[b] as int),
        forall|a: int, j: int|
            0 <= a < r@.len() && 0 <= j < keys@.len() && !sel_contains(r@, j) ==> lex_lt(
                keys@,
                r@[a] as int,
                j,
            ),
{
    select_by(keys, k, false)
}

/// Indices of the `k` largest keys, descending by key with ties broken by
/// the smaller index.
pub fn k_largest(keys: &Vec<u64>, k: usize) -> (r: Vec<usize>)
    ensures
        r@.len() == (if k <= keys@.len() {
            k as int
        } else {
            keys@.len() as int
        }),
        forall|a: int| 0 <= a < r@.len() ==> (#[trigger] r@[a]) < keys@.len(),
        forall|a: int, b: int| 0 <= a < b < r@.len() ==> lex_gt(keys@, r@[a] as int, r@[b] as int),
        forall|a: int, j: int|
            0 <= a < r@.len() && 0 <= j < keys@.len() && !sel_contains(r@, j) ==> lex_gt(
                keys@,
                r@[a] as int,
                j,
            ),
{
    select_by(keys, k, true)
}

/// The shared selection loop: `largest` flips the key order.
fn select_by(keys: &Vec<u64>, k: usize, largest: bool) -> (r: Vec<usize>)
    ensures
        r@.len() == (if k <= keys@.len() {
            k as int
        } else {
            keys@.len() as int
        }),
        forall|a: int| 0 <= a < r@.len() ==> (#[trigger] r@[a]) < keys@.len(),
        !largest ==> forall|a: int, b: int|
            0 <= a < b < r@.len() ==> lex_lt(keys@, r@[a] as int, r@[b] as int),
        !largest ==> forall|a: int, j: int|
            0 <= a < r@.len() && 0 <= j < keys@.len() && !sel_contains(r@, j) ==> lex_lt(
                keys@,
                r@[a] as int,
                j,
            ),
        largest ==> forall|a: int, b: int|
            0 <= a < b < r@.len() ==> lex_gt(keys@, r@[a] as int, r@[b] as int),
        largest ==> forall|a: int, j: int|
            0 <= a < r@.len() && 0 <= j < keys@.len() && !sel_contains(r@, j) ==> lex_gt(
                keys@,
                r@[a] as int,
                j,
            ),
{
    let n = keys.len();
    let m: usize = if k <= n {
        k
    } else {
        n
    };
    let mut used: Vec<bool> = Vec::new();
    let mut t: usize = 0;
    while t < n
        invariant
            0 <= t <= n,
            used@.len() == t,
            forall|j: int| 0 <= j < t ==> !(#[trigger] used@[j]),
            count_true(used@.take(t as int)) == 0,
        decreases n - t,
    {
        proof {
            assert(used@.take(t as int) =~= used@);
            assert(used@.push(false).take(t + 1) =~= used@.push(false));
            assert(used@.push(false).drop_last() =~= used@);
        }
        used.push(false);
        t += 1;
    }
    proof {
        assert(used@.take(n as int) =~= used@);
    }
    let mut r: Vec<usize> = Vec::new();
    let mut a: usize = 0;
    while a < m
        invariant
            n == keys@.len(),
            m <= n,
            used@.len() == n,
            0 <= a <= m,
            r@.len() == a,
            count_true(used@) == a,
            forall|x: int| 0 <= x < r@.len() ==> (#[trigger] r@[x]) < n,
            forall|j: int| 0 <= j < n ==> (#[trigger] used@[j] == sel_contains(r@, j)),
            forall|x: int, y: int|
                0 <= x < y < r@.len() ==> (if largest {
                    lex_gt(keys@, r@[x] as int, r@[y] as int)
                } else {
                    lex_lt(keys@, r@[x] as int, r@[y] as int)
                }),
            forall|x: int, j: int|
                #![trigger r@[x], used@[j]]
                0 <= x < r@.len() && 0 <= j < n && !used@[j] ==> (if largest {
                    lex_gt(keys@, r@[x] as int, j)
                } else {
                    lex_lt(keys@, r@[x] as int, j)
                }),
        decreases m - a,
    {
        proof {
            lemma_count_true_partial(used@);
        }
        let mut best: usize = 0;
        let mut found = false;
        let mut j: usize = 0;
        while j < n
            invariant
                n == keys@.len(),
                used@.len() == n,
                0 <= j <= n,
                found ==> best < j && !used@[best as int],
                found ==> forall|x: int|
                    0 <= x < j && !(#[trigger] used@[x]) && x != best ==> (if largest {
                        lex_gt(keys@, best as int, x)
                    } else {
                        lex_lt(keys@, best as int, x)
                    }),
                !found ==> forall|x: int| 0 <= x < j ==> #[trigger] used@[x],
            decreases n - j,
        {
            if !used[j] {
                if !found {
                    best = j;
                    found = true;
                } else {
                    let better = if largest {
                        keys[j] > keys[best]
                    } else {
                        keys[j] < keys[best]
                    };
                    if better {
                        best = j;
                    }
                }
            }
            j += 1;
        }
        proof {
            if !found {
                let w = choose|x: int| 0 <= x < used@.len() && !(#[trigger] used@[x]);
                assert(used@[w]);
                assert(false);
            }
        }
        let ghost prev = r@;
        let ghost prev_used = used@;
        r.push(best);
        let flag = &mut used[best];
        *flag = true;
        proof {
            lemma_count_true_update(prev_used, best as int);
            assert forall|jj: int| 0 <= jj < n implies (#[trigger] used@[jj] == sel_contains(
                r@,
                jj,
            )) by {
                if jj == best {
                    assert(r@[r@.len() - 1] == best);
                } else {
                    if sel_contains(r@, jj) {
                        let x = choose|x: int| 0 <= x < r@.len() && (#[trigger] r@[x]) == jj;
                        assert(prev[x] == jj);
                        assert(sel_contains(prev, jj));
                    }
                    if sel_contains(prev, jj) {
                        let x = choose|x: int| 0 <= x < prev.len() && (#[trigger] prev[x]) == jj;
                        assert(r@[x] == jj);
                    }
                }
            }
            assert(!sel_contains(prev, best as int));
        }
        a += 1;
    }
    proof {
        assert forall|x: int, j: int|
            0 <= x < r@.len() && 0 <= j < keys@.len() && !sel_contains(r@, j) implies (if largest {
            lex_gt(keys@, r@[x] as int, j)
        } else {
            lex_lt(keys@, r@[x] as int, j)
        }) by {
            assert(used@[j] == sel_contains(r@, j));
            assert(!used@[j]);
        }
    }
    r
}

/// Strict total order by key, breaking key ties by a secondary id and id
/// ties by position.
pub open spec fn lex_id_lt(keys: Seq<u64>, ids: Seq<usize>, i: int, j: int) -> bool {
    ||| keys[i] < keys[j]
    ||| (keys[i] == keys[j] && ids[i] < ids[j])
    ||| (keys[i] == keys[j] && ids[i] == ids[j] && i < j)
}

/// Indices of the `k` smallest keys, with key ties broken by the smaller
/// secondary id (the global index in the distributed merge) and remaining
/// ties by position.
pub fn k_smallest_by_id(keys: &Vec<u64>, ids: &Vec<usize>, k: usize) -> (r: Vec<usize>)
    requires
        ids@.len() == keys@.len(),
    ensures
        r@.len() == (if k <= keys@.len() {
            k as int
        } else {
            keys@.len() as int
        }),
        forall|a: int| 0 <= a < r@.len() ==> (#[trigger] r@[a]) < keys@.len(),
        forall|a: int, b: int|
            0 <= a < b < r@.len() ==> lex_id_lt(keys@, ids@, r@[a] as int, r@[b] as int),
        forall|a: int, j: int|
            0 <= a < r@.len() && 0 <= j < keys@.len() && !sel_contains(r@, j) ==> lex_id_lt(
                keys@,
                ids@,
                r@[a] as int,
                j,
            ),
{
    let n = keys.len();
    let m: usize = if k <= n {
        k
    } else {
        n
    };
    let mut used: Vec<bool> = Vec::new();
    let mut t: usize = 0;
    while t < n
        invariant
            0 <= t <= n,
            used@.len() == t,
            forall|j: int| 0 <= j < t ==> !(#[trigger] used@[j]),
            count_true(used@.take(t as int)) == 0,
        decreases n - t,
    {
        proof {
            assert(used@.take(t as int) =~= used@);
            assert(used@.push(false).take(t + 1) =~= used@.push(false));
            assert(used@.push(false).drop_last() =~= used@);
        }
        used.push(false);
        t += 1;
    }
    proof {
        assert(used@.take(n as int) =~= used@);
    }
    let mut r: Vec<usize> = Vec::new();
    let mut a: usize = 0;
    while a < m
        invariant
            n == keys@.len(),
            n == ids@.len(),
            m <= n,
            used@.len() == n,
            0 <= a <= m,
            r@.len() == a,
            count_true(used@) == a,
            forall|x: int| 0 <= x < r@.len() ==> (#[trigger] r@[x]) < n,
            forall|j: int| 0 <= j < n ==> (#[trigger] used@[j] == sel_contains(r@, j)),
            forall|x: int, y: int|
                0 <= x < y < r@.len() ==> lex_id_lt(keys@, ids@, r@[x] as int, r@[y] as int),
            forall|x: int, j: int|
                #![trigger r@[x], used@[j]]
                0 <= x < r@.len() && 0 <= j < n && !used@[j] ==> lex_id_lt(
                    keys@,
                    ids@,
                    r@[x] as int,
                    j,
                ),
        decreases m - a,
    {
        proof {
            lemma_count_true_partial(used@);
        }
        let mut best: usize = 0;
        let mut found = false;
        let mut j: usize = 0;
        while j < n
            invariant
                n == keys@.len(),
                n == ids@.len(),
                used@.len() == n,
                0 <= j <= n,
                found ==> best < j && !used@[best as int],
                found ==> forall|x: int|
                    0 <= x < j && !(#[trigger] used@[x]) && x != best ==> lex_id_lt(
                        keys@,
                        ids@,
                        best as int,
                        x,
                    ),
                !found ==> forall|x: int| 0 <= x < j ==> #[trigger] used@[x],
            decreases n - j,
        {
            if !used[j] {
                if !found {
                    best = j;
                    found = true;
                } else {
                    let better = keys[j] < keys[best] || (keys[j] == keys[best] && ids[j]
                        < ids[best]);
                    if better {
                        best = j;
                    }
                }
            }
            j += 1;
        }
        proof {
            if !found {
                let w = choose|x: int| 0 <= x < used@.len() && !(#[trigger] used@[x]);
                assert(used@[w]);
                assert(false);
            }
        }
        let ghost prev = r@;
        let ghost prev_used = used@;
        r.push(best);
        let flag = &mut used[best];
        *flag = true;
        proof {
            lemma_count_true_update(prev_used, best as int);
            assert forall|jj: int| 0 <= jj < n implies (#[trigger] used@[jj] == sel_contains(
                r@,
                jj,
            )) by {
                if jj == best {
                    assert(r@[r@.len() - 1] == best);
                } else {
                    if sel_contains(r@, jj) {
                        let x = choose|x: int| 0 <= x < r@.len() && (#[trigger] r@[x]) == jj;
                        assert(prev[x] == jj);
                        assert(sel_contains(prev, jj));
                    }
                    if sel_contains(prev, jj) {
                        let x = choose|x: int| 0 <= x < prev.len() && (#[trigger] prev[x]) == jj;
                        assert(r@[x] == jj);
                    }
                }
            }
            assert(!sel_contains(prev, best as int));
        }
        a += 1;
    }
    proof {
        assert forall|x: int, j: int|
            0 <= x < r@.len() && 0 <= j < keys@.len() && !sel_contains(r@, j) implies lex_id_lt(
            keys@,
            ids@,
            r@[x] as int,
            j,
        ) by {
            assert(used@[j] == sel_contains(r@, j));
            assert(!used@[j]);
        }
    }
    r
}

/// Number of selected indices that are labelled anomalous.
pub open spec fn tp_count(y: Seq<bool>, picks: Seq<usize>) -> nat
    decreases picks.len(),
{
    if picks.len() == 0 {
        0
    } else {
        tp_count(y, picks.drop_last()) + (if y[picks.last() as int] {
            1nat
        } else {
            0nat
        })
    }
}

/// True positives of a selection against boolean labels: the counting core
/// of both precision and recall.
pub fn true_positives(y_true: &Vec<bool>, picks: &Vec<usize>) -> (r: usize)
    requires
        forall|i: int| 0 <= i < picks@.len() ==> (#[trigger] picks@[i]) < y_true@.len(),
    ensures
        r == tp_count(y_true@, picks@),
        r <= picks@.len(),
{
    let ghost s = picks@;
    let mut count: usize = 0;
    let mut i: usize = 0;
    proof {
        assert(s.take(0) =~= Seq::<usize>::empty());
        lemma_tp_count_le(y_true@, s.take(0));
    }
    while i < picks.len()
        invariant
            s == picks@,
            forall|x: int| 0 <= x < s.len() ==> (#[trigger] s[x]) < y_true@.len(),
            0 <= i <= s.len(),
            count == tp_count(y_true@, s.take(i as int)),
            count <= i,
        decreases s.len() - i,
    {
        proof {
            assert(s.take(i + 1).drop_last() =~= s.take(i as int));
            assert(s.take(i + 1).last() == s[i as int]);
        }
        if y_true[picks[i]] {
            count = count + 1;
        }
        i += 1;
    }
    proof {
        assert(s.take(s.len() as int) =~= s);
    }
    count
}

pub proof fn lemma_tp_count_le(y: Seq<bool>, picks: Seq<usize>)
    ensures
        tp_count(y, picks) <= picks.len(),
    decreases picks.len(),
{
    if picks.len() > 0 {
        lemma_tp_count_le(y, picks.drop_last());
    }
}

} // verus!
