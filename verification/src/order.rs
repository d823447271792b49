//! Stable sorting as a permutation of positions.
use vstd::prelude::*;

verus! {

/// Whether `lt` orders the positions below `n` as a sort key does: strictly,
/// and with "neither comes first" an equivalence.
pub open spec fn orders(n: int, lt: spec_fn(int, int) -> bool) -> bool {
    &&& forall|i: int| 0 <= i < n ==> !#[trigger] lt(i, i)
    &&& forall|i: int, j: int, k: int|
        #![trigger lt(i, j), lt(j, k)]
        0 <= i < n && 0 <= j < n && 0 <= k < n && lt(i, j) && lt(j, k) ==> lt(i, k)
    &&& forall|i: int, j: int, k: int|
        #![trigger lt(i, j), lt(j, k)]
        0 <= i < n && 0 <= j < n && 0 <= k < n && !lt(i, j) && !lt(j, k) ==> !lt(i, k)
}

/// Whether `p` holds each position below `n` once.
pub open spec fn permutes(p: Seq<usize>, n: int) -> bool {
    &&& p.len() == n
    &&& forall|a: int| 0 <= a < p.len() ==> (#[trigger] p[a]) < n
    &&& forall|a: int, b: int| 0 <= a < b < p.len() ==> #[trigger] p[a] != #[trigger] p[b]
}

/// Whether the positions in `p` stand in the order of `lt`, those that it does
/// not tell apart in their own order.
pub open spec fn in_order(p: Seq<usize>, lt: spec_fn(int, int) -> bool) -> bool {
    forall|a: int, b: int|
        0 <= a < b < p.len() ==> {
            &&& !lt(#[trigger] p[b] as int, #[trigger] p[a] as int)
            &&& (!lt(p[a] as int, p[b] as int) ==> p[a] < p[b])
        }
}

/// Whether `p` is the stable sort of the positions below `n`.
pub open spec fn stably_sorted(p: Seq<usize>, n: int, lt: spec_fn(int, int) -> bool) -> bool {
    permutes(p, n) && in_order(p, lt)
}

/// The stable sort of the positions below `n`.
pub open spec fn sorted_positions(n: int, lt: spec_fn(int, int) -> bool) -> Seq<usize> {
    choose|p: Seq<usize>| stably_sorted(p, n, lt)
}

/// Every position below `n` has its place in a permutation of them.
pub proof fn lemma_permutes_covers(p: Seq<usize>, n: int, k: int)
    requires
        permutes(p, n),
        0 <= k < n,
    ensures
        exists|a: int| 0 <= a < n && p[a] == k,
{
    if forall|a: int| 0 <= a < n ==> p[a] != k {
        let s = p.map_values(|u: usize| u as int).to_set();
        let q = p.map_values(|u: usize| u as int);
        assert(q.no_duplicates());
        q.unique_seq_to_set();
        let all = vstd::set_lib::set_int_range(0, n);
        vstd::set_lib::lemma_int_range(0, n);
        assert(s.subset_of(all.remove(k))) by {
            assert forall|x: int| s.contains(x) implies all.remove(k).contains(x) by {
                let a = choose|a: int| 0 <= a < q.len() && q[a] == x;
                assert(p[a] == x);
            }
        }
        vstd::set_lib::lemma_len_subset(s, all.remove(k));
    }
}

/// Two stable sorts by one key are the same.
pub proof fn lemma_stable_sort_unique(
    p: Seq<usize>,
    q: Seq<usize>,
    n: int,
    lt: spec_fn(int, int) -> bool,
)
    requires
        stably_sorted(p, n, lt),
        stably_sorted(q, n, lt),
    ensures
        p == q,
{
    if forall|a: int| 0 <= a < n ==> p[a] == q[a] {
        assert(p == q);
    } else {
        let a = lemma_first_difference(p, q, n, 0);
        lemma_permutes_covers(q, n, p[a] as int);
        let b = choose|b: int| 0 <= b < n && q[b] == p[a] as int;
        lemma_permutes_covers(p, n, q[a] as int);
        let c = choose|c: int| 0 <= c < n && p[c] == q[a] as int;
        assert(b > a) by {
            if b < a {
                assert(p[b] == q[b]);
            }
        }
        assert(c > a) by {
            if c < a {
                assert(p[c] == q[c]);
            }
        }
        assert(!lt(p[c] as int, p[a] as int));
        assert(!lt(q[b] as int, q[a] as int));
    }
}

proof fn lemma_first_difference(p: Seq<usize>, q: Seq<usize>, n: int, from: int) -> (a: int)
    requires
        p.len() == n,
        q.len() == n,
        0 <= from <= n,
        forall|k: int| 0 <= k < from ==> p[k] == q[k],
        exists|k: int| 0 <= k < n && p[k] != q[k],
    ensures
        0 <= a < n,
        p[a] != q[a],
        forall|k: int| 0 <= k < a ==> p[k] == q[k],
    decreases n - from,
{
    if from < n && p[from] == q[from] {
        lemma_first_difference(p, q, n, from + 1)
    } else {
        from
    }
}

/// Every key has a stable sort.
pub proof fn lemma_sort_exists(n: int, lt: spec_fn(int, int) -> bool) -> (p: Seq<usize>)
    requires
        0 <= n <= usize::MAX,
        orders(n, lt),
    ensures
        stably_sorted(p, n, lt),
    decreases n,
{
    if n == 0 {
        Seq::empty()
    } else {
        let was = lemma_sort_exists(n - 1, lt);
        let at = lemma_place(was, n, lt, n - 1);
        lemma_insert_sorted(was, n - 1, at, n, lt);
        was.insert(at, (n - 1) as usize)
    }
}

proof fn lemma_place(p: Seq<usize>, n: int, lt: spec_fn(int, int) -> bool, from: int) -> (at: int)
    requires
        0 <= from <= p.len(),
        0 < n,
        forall|k: int| from <= k < p.len() ==> lt(n - 1, #[trigger] p[k] as int),
    ensures
        0 <= at <= p.len(),
        forall|k: int| at <= k < p.len() ==> lt(n - 1, #[trigger] p[k] as int),
        at > 0 ==> !lt(n - 1, p[at - 1] as int),
    decreases from,
{
    if from > 0 && lt(n - 1, p[from - 1] as int) {
        lemma_place(p, n, lt, from - 1)
    } else {
        from
    }
}

/// A position larger than all in a stable sort, put in behind every one that
/// does not come after it, leaves it a stable sort.
proof fn lemma_insert_sorted(
    was: Seq<usize>,
    i: int,
    at: int,
    n: int,
    lt: spec_fn(int, int) -> bool,
)
    requires
        orders(n, lt),
        0 <= i < n <= usize::MAX,
        stably_sorted(was, i, lt),
        0 <= at <= was.len(),
        forall|k: int| at <= k < was.len() ==> lt(i, #[trigger] was[k] as int),
        at > 0 ==> !lt(i, was[at - 1] as int),
    ensures
        stably_sorted(was.insert(at, i as usize), i + 1, lt),
{
    let p = was.insert(at, i as usize);
    assert forall|a: int, b: int| 0 <= a < b < p.len() implies {
        &&& !lt(#[trigger] p[b] as int, #[trigger] p[a] as int)
        &&& (!lt(p[a] as int, p[b] as int) ==> p[a] < p[b])
    } by {
        if b == at {
            assert(p[a] == was[a]);
            let last = was[at - 1] as int;
            assert(!lt(i, last));
            if a < at - 1 {
                assert(!lt(last, was[a] as int));
            }
            assert(!lt(i, was[a] as int));
        } else if a == at {
            assert(p[b] == was[b - 1]);
            assert(lt(i, was[b - 1] as int));
            if lt(was[b - 1] as int, i) {
                assert(lt(i, i));
            }
        } else {
            let x = if a < at {
                a
            } else {
                a - 1
            };
            let y = if b < at {
                b
            } else {
                b - 1
            };
            assert(p[a] == was[x]);
            assert(p[b] == was[y]);
        }
    }
    assert forall|a: int, b: int| 0 <= a < b < p.len() implies #[trigger] p[a]
        != #[trigger] p[b] by {
        let x = if a < at {
            a
        } else {
            a - 1
        };
        let y = if b < at {
            b
        } else {
            b - 1
        };
        if a == at {
            assert(was[y] < i);
        } else if b == at {
            assert(was[x] < i);
        } else {
            assert(was[x] != was[y]);
        }
    }
}

/// Whether position `x` comes before position `y`: in the order of `lt`, or
/// where that does not tell them apart, in their own.
pub open spec fn precedes(x: usize, y: usize, lt: spec_fn(int, int) -> bool) -> bool {
    !lt(y as int, x as int) && (!lt(x as int, y as int) ==> x < y)
}

proof fn lemma_precedes_chain(
    x: usize,
    y: usize,
    z: usize,
    n: int,
    lt: spec_fn(int, int) -> bool,
)
    requires
        orders(n, lt),
        x < n,
        y < n,
        z < n,
        precedes(x, y, lt),
        precedes(y, z, lt),
    ensures
        precedes(x, z, lt),
{
    let (a, b, c) = (x as int, y as int, z as int);
    assert(!lt(c, b) && !lt(b, a));
    assert(!lt(c, a));
    if !lt(a, c) {
        assert(!lt(a, b)) by {
            assert(!lt(a, c) && !lt(c, b));
        }
        assert(!lt(b, c)) by {
            assert(!lt(b, a) && !lt(a, c));
        }
    }
}

/// Whether `p` is the stable sort of the positions from `lo` to below `hi`.
pub open spec fn sorts_range(
    p: Seq<usize>,
    lo: int,
    hi: int,
    lt: spec_fn(int, int) -> bool,
) -> bool {
    &&& p.len() == hi - lo
    &&& forall|a: int| 0 <= a < p.len() ==> lo <= (#[trigger] p[a]) < hi
    &&& in_order(p, lt)
}

/// Merge the sort of one range with that of the range behind it.
fn merge<F: Fn(usize, usize) -> bool>(
    left: &[usize],
    right: &[usize],
    less: &F,
    Ghost(lo): Ghost<int>,
    Ghost(mid): Ghost<int>,
    Ghost(hi): Ghost<int>,
    Ghost(lt): Ghost<spec_fn(int, int) -> bool>,
) -> (p: Vec<usize>)
    requires
        0 <= lo <= mid <= hi,
        orders(hi, lt),
        sorts_range(left@, lo, mid, lt),
        sorts_range(right@, mid, hi, lt),
        forall|i: usize, j: usize| i < hi && j < hi ==> less.requires((i, j)),
        forall|i: usize, j: usize, b: bool|
            i < hi && j < hi && less.ensures((i, j), b) ==> b == lt(i as int, j as int),
    ensures
        sorts_range(p@, lo, hi, lt),
{
    let mut p: Vec<usize> = Vec::new();
    let mut i: usize = 0;
    let mut j: usize = 0;
    while i < left.len() || j < right.len()
        invariant
            0 <= lo <= mid <= hi,
            orders(hi, lt),
            sorts_range(left@, lo, mid, lt),
            sorts_range(right@, mid, hi, lt),
            forall|i: usize, j: usize| i < hi && j < hi ==> less.requires((i, j)),
            forall|i: usize, j: usize, b: bool|
                i < hi && j < hi && less.ensures((i, j), b) ==> b == lt(i as int, j as int),
            i <= left@.len(),
            j <= right@.len(),
            p@.len() == i + j,
            forall|a: int| 0 <= a < p@.len() ==> lo <= (#[trigger] p@[a]) < hi,
            in_order(p@, lt),
            forall|a: int, k: int|
                0 <= a < p@.len() && i <= k < left@.len() ==> precedes(
                    #[trigger] p@[a],
                    #[trigger] left@[k],
                    lt,
                ),
            forall|a: int, k: int|
                0 <= a < p@.len() && j <= k < right@.len() ==> precedes(
                    #[trigger] p@[a],
                    #[trigger] right@[k],
                    lt,
                ),
        decreases left@.len() - i + right@.len() - j,
    {
        let from_right: bool = if i < left.len() && j < right.len() {
            less(right[j], left[i])
        } else {
            i >= left.len()
        };
        let ghost was = p@;
        if from_right {
            let next: usize = right[j];
            p.push(next);
            proof {
                lemma_next_sorted(was, next, lt);
                if i < left@.len() {
                    let l = left@[i as int];
                    assert(lt(next as int, l as int));
                    assert(precedes(next, l, lt)) by {
                        if lt(l as int, next as int) {
                            assert(lt(l as int, l as int));
                        }
                    }
                    assert forall|k: int| i <= k < left@.len() implies precedes(
                        next,
                        #[trigger] left@[k],
                        lt,
                    ) by {
                        if k > i {
                            assert(precedes(l, left@[k], lt));
                            lemma_precedes_chain(next, l, left@[k], hi, lt);
                        }
                    }
                }
            }
            j = j + 1;
        } else {
            let next: usize = left[i];
            p.push(next);
            proof {
                lemma_next_sorted(was, next, lt);
                if j < right@.len() {
                    let r = right@[j as int];
                    assert(precedes(next, r, lt));
                    assert forall|k: int| j <= k < right@.len() implies precedes(
                        next,
                        #[trigger] right@[k],
                        lt,
                    ) by {
                        if k > j {
                            assert(precedes(r, right@[k], lt));
                            lemma_precedes_chain(next, r, right@[k], hi, lt);
                        }
                    }
                }
            }
            i = i + 1;
        }
        assert(p@ == was.push(p@.last()));
    }
    p
}

proof fn lemma_next_sorted(p: Seq<usize>, next: usize, lt: spec_fn(int, int) -> bool)
    requires
        in_order(p, lt),
        forall|a: int| 0 <= a < p.len() ==> precedes(#[trigger] p[a], next, lt),
    ensures
        in_order(p.push(next), lt),
{
    let q = p.push(next);
    assert forall|a: int, b: int| 0 <= a < b < q.len() implies {
        &&& !lt(#[trigger] q[b] as int, #[trigger] q[a] as int)
        &&& (!lt(q[a] as int, q[b] as int) ==> q[a] < q[b])
    } by {
        assert(q[a] == p[a]);
        if b == p.len() {
            assert(precedes(p[a], next, lt));
        } else {
            assert(q[b] == p[b]);
        }
    }
}

/// The stable sort of the positions from `lo` to below `hi`.
fn sort_range<F: Fn(usize, usize) -> bool>(
    lo: usize,
    hi: usize,
    less: &F,
    Ghost(lt): Ghost<spec_fn(int, int) -> bool>,
) -> (p: Vec<usize>)
    requires
        lo <= hi,
        orders(hi as int, lt),
        forall|i: usize, j: usize| i < hi && j < hi ==> less.requires((i, j)),
        forall|i: usize, j: usize, b: bool|
            i < hi && j < hi && less.ensures((i, j), b) ==> b == lt(i as int, j as int),
    ensures
        sorts_range(p@, lo as int, hi as int, lt),
    decreases hi - lo,
{
    if hi - lo <= 1 {
        let mut p: Vec<usize> = Vec::new();
        if lo < hi {
            p.push(lo);
        }
        return p;
    }
    let mid: usize = lo + (hi - lo) / 2;
    let left = sort_range(lo, mid, less, Ghost(lt));
    let right = sort_range(mid, hi, less, Ghost(lt));
    merge(&left, &right, less, Ghost(lo as int), Ghost(mid as int), Ghost(hi as int), Ghost(lt))
}

/// The stable sort of the positions below `n`, where `less` decides `lt`.
pub fn stable_sort<F: Fn(usize, usize) -> bool>(
    n: usize,
    less: F,
    Ghost(lt): Ghost<spec_fn(int, int) -> bool>,
) -> (p: Vec<usize>)
    requires
        orders(n as int, lt),
        forall|i: usize, j: usize| i < n && j < n ==> less.requires((i, j)),
        forall|i: usize, j: usize, b: bool|
            i < n && j < n && less.ensures((i, j), b) ==> b == lt(i as int, j as int),
    ensures
        stably_sorted(p@, n as int, lt),
        p@ == sorted_positions(n as int, lt),
{
    let p = sort_range(0, n, &less, Ghost(lt));
    proof {
        assert forall|a: int, b: int| 0 <= a < b < p@.len() implies #[trigger] p@[a]
            != #[trigger] p@[b] by {
            assert(!lt(p@[a] as int, p@[a] as int));
        }
        assert(stably_sorted(p@, n as int, lt));
        lemma_stable_sort_unique(p@, sorted_positions(n as int, lt), n as int, lt);
    }
    p
}

/// A sorted list holds each position once. No later one belongs before an earlier one,
/// and of two that are not told apart the earlier position comes first.
pub proof fn law_a_sort_is_stable(n: int, lt: spec_fn(int, int) -> bool, a: int, b: int)
    requires
        0 <= n <= usize::MAX,
        orders(n, lt),
    ensures
        ({
            let p = sorted_positions(n, lt);
            &&& p.len() == n
            &&& 0 <= a < n ==> 0 <= p[a] < n
            &&& 0 <= a < n ==> exists|k: int| 0 <= k < n && p[k] == a
            &&& 0 <= a < b < n ==> p[a] != p[b]
            &&& 0 <= a < b < n ==> !lt(p[b] as int, p[a] as int)
            &&& 0 <= a < b < n && !lt(p[a] as int, p[b] as int) ==> p[a] < p[b]
        }),
{
    let q = lemma_sort_exists(n, lt);
    let p = sorted_positions(n, lt);
    lemma_stable_sort_unique(q, p, n, lt);
    if 0 <= a < n {
        lemma_permutes_covers(p, n, a);
    }
}

} // verus!
