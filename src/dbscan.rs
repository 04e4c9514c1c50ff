//! Density-based clustering (DBSCAN) over a matrix of pairwise distances.
use vstd::prelude::*;

use crate::photo::Distance;

verus! {

/// The matrix as rows of distances.
pub open spec fn matrix<T>(d: &Vec<Vec<T>>) -> Seq<Seq<T>> {
    d@.map_values(|row: Vec<T>| row@)
}

/// Every row has one entry per point.
pub open spec fn is_square(d: Seq<Seq<Distance>>) -> bool {
    forall|i: int| 0 <= i < d.len() ==> #[trigger] d[i].len() == d.len()
}

/// The distance from `i` to `j` is the distance from `j` to `i`.
pub open spec fn is_symmetric(d: Seq<Seq<Distance>>) -> bool {
    forall|i: int, j: int| 0 <= i < d.len() && 0 <= j < d.len() ==> #[trigger] d[i][j] == d[j][i]
}

/// `j` lies within `eps` of `i`.
pub open spec fn within(d: Seq<Seq<Distance>>, eps: u64, i: int, j: int) -> bool {
    d[i][j].within(eps)
}

/// A point that has any neighbour is its own neighbour.
pub open spec fn self_neighbour(d: Seq<Seq<Distance>>, eps: u64) -> bool {
    forall|i: int, j: int|
        0 <= i < d.len() && 0 <= j < d.len() && #[trigger] within(d, eps, i, j) ==> within(
            d,
            eps,
            i,
            i,
        )
}

/// How many of the first `k` entries of a row are within `eps`.
pub open spec fn neighbour_count(row: Seq<Distance>, eps: u64, k: int) -> nat
    decreases k,
{
    if k <= 0 {
        0
    } else {
        neighbour_count(row, eps, k - 1) + if row[k - 1].within(eps) {
            1nat
        } else {
            0nat
        }
    }
}

/// A core point has at least `min_pts` points, itself included, within `eps`.
pub open spec fn is_core(d: Seq<Seq<Distance>>, eps: u64, min_pts: usize, i: int) -> bool {
    neighbour_count(d[i], eps, d.len() as int) >= min_pts
}

/// A chain of hops of at most `eps`, each taken from a core point.
pub open spec fn is_core_chain(
    d: Seq<Seq<Distance>>,
    eps: u64,
    min_pts: usize,
    path: Seq<int>,
) -> bool {
    &&& path.len() >= 1
    &&& forall|t: int| 0 <= t < path.len() ==> 0 <= #[trigger] path[t] < d.len()
    &&& forall|t: int|
        0 <= t < path.len() - 1 ==> is_core(d, eps, min_pts, #[trigger] path[t]) && within(
            d,
            eps,
            path[t],
            path[t + 1],
        )
}

/// `path` leads from `seed` to `j` through points of cluster `k`.
pub open spec fn chain_in_cluster(
    d: Seq<Seq<Distance>>,
    eps: u64,
    min_pts: usize,
    labels: Seq<Option<usize>>,
    seed: int,
    k: int,
    path: Seq<int>,
    j: int,
) -> bool {
    &&& is_core_chain(d, eps, min_pts, path)
    &&& path[0] == seed
    &&& path.last() == j
    &&& forall|t: int|
        0 <= t < path.len() ==> #[trigger] path[t] == seed || labels[path[t]] == Some(k as usize)
}

/// Every neighbour of a core point of a cluster below `bound` belongs to that
/// cluster or to an earlier one.
pub open spec fn closed_below(
    d: Seq<Seq<Distance>>,
    eps: u64,
    min_pts: usize,
    labels: Seq<Option<usize>>,
    bound: int,
) -> bool {
    forall|c: int, j: int|
        0 <= c < d.len() && 0 <= j < d.len() && is_core(d, eps, min_pts, c) && (
        #[trigger] labels[c]).is_some() && labels[c].unwrap() < bound && #[trigger] within(
            d,
            eps,
            c,
            j,
        ) ==> labels[j].is_some() && labels[j].unwrap() <= labels[c].unwrap()
}

/// The outcome of a clustering pass, as a label per point (`None` for noise)
/// and the core point that opened each cluster.
#[verifier::opaque]
pub open spec fn is_clustering(
    d: Seq<Seq<Distance>>,
    eps: u64,
    min_pts: usize,
    labels: Seq<Option<usize>>,
    seeds: Seq<usize>,
) -> bool {
    &&& labels.len() == d.len()
    &&& seeds.len() <= usize::MAX
    &&& forall|i: int|
        0 <= i < d.len() && (#[trigger] labels[i]).is_some() ==> labels[i].unwrap() < seeds.len()
    &&& forall|i: int|
        0 <= i < d.len() && is_core(d, eps, min_pts, i) ==> (#[trigger] labels[i]).is_some()
    &&& closed_below(d, eps, min_pts, labels, seeds.len() as int)
    &&& forall|j: int|
        0 <= j < d.len() && (#[trigger] labels[j]).is_some() ==> exists|path: Seq<int>|
            chain_in_cluster(
                d,
                eps,
                min_pts,
                labels,
                seeds[labels[j].unwrap() as int] as int,
                labels[j].unwrap() as int,
                path,
                j,
            )
    &&& forall|k: int|
        0 <= k < seeds.len() ==> (#[trigger] seeds[k]) < d.len() && is_core(
            d,
            eps,
            min_pts,
            seeds[k] as int,
        ) && labels[seeds[k] as int] == Some(k as usize)
    &&& forall|k1: int, k2: int|
        0 <= k1 < k2 < seeds.len() ==> #[trigger] seeds[k1] < #[trigger] seeds[k2]
    &&& forall|k: int, i: int|
        0 <= k < seeds.len() && 0 <= i < #[trigger] seeds[k] && is_core(d, eps, min_pts, i) ==> (
        #[trigger] labels[i]).is_some() && labels[i].unwrap() < k
}

/// Cluster `k` lists exactly the points labelled `k`, in ascending order.
pub open spec fn lists_cluster(members: Seq<usize>, labels: Seq<Option<usize>>, k: int) -> bool {
    &&& forall|m: int|
        0 <= m < members.len() ==> (#[trigger] members[m]) < labels.len() && labels[members[m] as int]
            == Some(k as usize)
    &&& forall|m1: int, m2: int|
        0 <= m1 < m2 < members.len() ==> #[trigger] members[m1] < #[trigger] members[m2]
    &&& forall|i: int|
        0 <= i < labels.len() && #[trigger] labels[i] == Some(k as usize) ==> members.contains(
            i as usize,
        )
}

/// Clusters of a point set, with the core point that opened each one and
/// the cluster of each point.
pub struct Clustering {
    pub clusters: Vec<Vec<usize>>,
    pub seeds: Vec<usize>,
    pub labels: Vec<Option<usize>>,
}

proof fn lemma_count_bounded(row: Seq<Distance>, eps: u64, k: int)
    ensures
        neighbour_count(row, eps, k) <= if k < 0 {
            0
        } else {
            k
        },
    decreases k,
{
    if k > 0 {
        lemma_count_bounded(row, eps, k - 1);
    }
}

proof fn lemma_count_positive(row: Seq<Distance>, eps: u64, k: int)
    requires
        neighbour_count(row, eps, k) > 0,
    ensures
        exists|j: int| 0 <= j < k && #[trigger] row[j].within(eps),
    decreases k,
{
    if k > 0 && !row[k - 1].within(eps) {
        lemma_count_positive(row, eps, k - 1);
    }
}

proof fn lemma_distinct_below(s: Seq<usize>, n: nat)
    requires
        s.no_duplicates(),
        forall|t: int| 0 <= t < s.len() ==> #[trigger] s[t] < n,
    ensures
        s.len() <= n,
{
    let si = s.map_values(|x: usize| x as int);
    assert(si.no_duplicates()) by {
        assert forall|a: int, b: int| 0 <= a < si.len() && 0 <= b < si.len() && a != b implies si[a]
            != si[b] by {
            assert(s[a] != s[b]);
        }
    }
    si.unique_seq_to_set();
    vstd::set_lib::lemma_int_range(0, n as int);
    assert forall|x: int| si.to_set().contains(x) implies vstd::set_lib::set_int_range(
        0,
        n as int,
    ).contains(x) by {
        let t = choose|t: int| 0 <= t < si.len() && si[t] == x;
        assert(s[t] < n);
    }
    vstd::set_lib::lemma_len_subset(si.to_set(), vstd::set_lib::set_int_range(0, n as int));
}

/// How many points lie within `eps` of point `i`, itself included.
fn count_neighbours(d: &Vec<Vec<Distance>>, eps: u64, i: usize) -> (r: usize)
    requires
        is_square(matrix(d)),
        i < d.len(),
    ensures
        r == neighbour_count(matrix(d)[i as int], eps, d.len() as int),
{
    let n = d.len();
    let row = &d[i];
    assert(matrix(d)[i as int] == d@[i as int]@);
    let mut cnt: usize = 0;
    for j in 0..n
        invariant
            n == d.len(),
            row@ == matrix(d)[i as int],
            row@.len() == n,
            cnt == neighbour_count(row@, eps, j as int),
    {
        proof {
            lemma_count_bounded(row@, eps, j as int);
        }
        if row[j].is_within(eps) {
            cnt = cnt + 1;
        }
    }
    cnt
}

/// The queue holds distinct points, and `queued` marks exactly them.
pub open spec fn queue_ok(queue: Seq<usize>, queued: Seq<bool>, n: int) -> bool {
    &&& queued.len() == n
    &&& queue.no_duplicates()
    &&& forall|t: int| 0 <= t < queue.len() ==> (#[trigger] queue[t]) < n && queued[queue[t] as int]
    &&& forall|j: int| 0 <= j < n && #[trigger] queued[j] ==> queue.contains(j as usize)
}

/// Appends to the queue every neighbour of `c` that it has not held yet.
fn enqueue_neighbours(
    d: &Vec<Vec<Distance>>,
    eps: u64,
    c: usize,
    queue: &mut Vec<usize>,
    queued: &mut Vec<bool>,
)
    requires
        is_square(matrix(d)),
        c < d.len(),
        queue_ok(old(queue)@, old(queued)@, d.len() as int),
    ensures
        queue_ok(final(queue)@, final(queued)@, d.len() as int),
        final(queue)@.len() >= old(queue)@.len(),
        forall|t: int| 0 <= t < old(queue)@.len() ==> #[trigger] final(queue)@[t] == old(queue)@[t],
        forall|t: int|
            old(queue)@.len() <= t < final(queue)@.len() ==> within(
                matrix(d),
                eps,
                c as int,
                #[trigger] final(queue)@[t] as int,
            ),
        forall|j: int| 0 <= j < d.len() && within(matrix(d), eps, c as int, j) ==> #[trigger] final(queued)@[j],
        forall|j: int| 0 <= j < d.len() && #[trigger] old(queued)@[j] ==> final(queued)@[j],
{
    let n = d.len();
    let ghost q0 = queue@;
    let ghost m0 = queued@;
    assert(matrix(d)[c as int] == d@[c as int]@);
    for j in 0..n
        invariant
            m0.len() == n,
            matrix(d)[c as int] == d@[c as int]@,
            n == d.len(),
            is_square(matrix(d)),
            c < n,
            queue_ok(queue@, queued@, n as int),
            queue@.len() >= q0.len(),
            forall|t: int| 0 <= t < q0.len() ==> #[trigger] queue@[t] == q0[t],
            forall|t: int|
                q0.len() <= t < queue@.len() ==> within(matrix(d), eps, c as int, #[trigger] queue@[t] as int),
            forall|l: int| 0 <= l < j && within(matrix(d), eps, c as int, l) ==> #[trigger] queued@[l],
            forall|l: int| 0 <= l < n && #[trigger] m0[l] ==> queued@[l],
    {
        if d[c][j].is_within(eps) && !queued[j] {
            let ghost qb = queue@;
            let ghost mb = queued@;
            queue.push(j);
            queued.set(j, true);
            proof {
                assert forall|l: int| 0 <= l < n && #[trigger] queued@[l] implies queue@.contains(
                    l as usize,
                ) by {
                    if l != j {
                        assert(mb[l]);
                        let t = choose|t: int| 0 <= t < qb.len() && qb[t] == l as usize;
                        assert(queue@[t] == l as usize);
                    } else {
                        assert(queue@[qb.len() as int] == j);
                    }
                }
                assert forall|a: int, b: int|
                    0 <= a < queue@.len() && 0 <= b < queue@.len() && a != b implies queue@[a]
                    != queue@[b] by {
                    if a < qb.len() && b < qb.len() {
                    } else if a < qb.len() {
                        assert(mb[queue@[a] as int]);
                    } else if b < qb.len() {
                        assert(mb[queue@[b] as int]);
                    }
                }
            }
        }
    }
}


fn filled<T: Copy>(n: usize, v: T) -> (r: Vec<T>)
    ensures
        r@ == Seq::new(n as nat, |i: int| v),
{
    let mut r: Vec<T> = Vec::new();
    for i in 0..n
        invariant
            r@ == Seq::new(i as nat, |l: int| v),
    {
        r.push(v);
        assert(r@ =~= Seq::new((i + 1) as nat, |l: int| v));
    }
    r
}

/// The points labelled `k`, in ascending order.
fn members_of(labels: &Vec<Option<usize>>, k: usize) -> (r: Vec<usize>)
    ensures
        lists_cluster(r@, labels@, k as int),
{
    let mut r: Vec<usize> = Vec::new();
    for i in 0..labels.len()
        invariant
            forall|m: int|
                0 <= m < r@.len() ==> (#[trigger] r@[m]) < i && labels@[r@[m] as int] == Some(k),
            forall|m1: int, m2: int| 0 <= m1 < m2 < r@.len() ==> #[trigger] r@[m1] < #[trigger] r@[m2],
            forall|l: int| 0 <= l < i && #[trigger] labels@[l] == Some(k) ==> r@.contains(l as usize),
    {
        if labels[i] == Some(k) {
            let ghost rb = r@;
            r.push(i);
            proof {
                assert forall|l: int| 0 <= l <= i && #[trigger] labels@[l] == Some(k) implies r@.contains(
                    l as usize,
                ) by {
                    if l < i {
                        let t = choose|t: int| 0 <= t < rb.len() && rb[t] == l as usize;
                        assert(r@[t] == l as usize);
                    } else {
                        assert(r@[rb.len() as int] == i);
                    }
                }
            }
        }
    }
    r
}


/// Every labelled point was visited and carries a label below `bound`.
pub open spec fn labels_below(labels: Seq<Option<usize>>, visited: Seq<bool>, bound: int) -> bool {
    forall|i: int|
        0 <= i < labels.len() && (#[trigger] labels[i]).is_some() ==> labels[i].unwrap() < bound
            && visited[i]
}

/// Each labelled point is reached from the seed of its cluster by `paths`.
pub open spec fn chains_ok(
    d: Seq<Seq<Distance>>,
    eps: u64,
    min_pts: usize,
    labels: Seq<Option<usize>>,
    seeds: Seq<usize>,
    paths: Seq<Seq<int>>,
) -> bool {
    forall|j: int|
        0 <= j < d.len() && (#[trigger] labels[j]).is_some() ==> chain_in_cluster(
            d,
            eps,
            min_pts,
            labels,
            seeds[labels[j].unwrap() as int] as int,
            labels[j].unwrap() as int,
            paths[j],
            j,
        )
}

/// Seeds are core points below `bound`, in ascending order, each in its own
/// cluster, and every core point before a seed is in an earlier cluster.
pub open spec fn seeds_ok(
    d: Seq<Seq<Distance>>,
    eps: u64,
    min_pts: usize,
    labels: Seq<Option<usize>>,
    seeds: Seq<usize>,
    bound: int,
) -> bool {
    &&& forall|k: int|
        0 <= k < seeds.len() ==> (#[trigger] seeds[k]) < bound && is_core(d, eps, min_pts, seeds[k] as int)
            && labels[seeds[k] as int] == Some(k as usize)
    &&& forall|k1: int, k2: int| 0 <= k1 < k2 < seeds.len() ==> #[trigger] seeds[k1] < #[trigger] seeds[k2]
    &&& forall|k: int, i: int|
        0 <= k < seeds.len() && 0 <= i < #[trigger] seeds[k] && is_core(d, eps, min_pts, i) ==> (
        #[trigger] labels[i]).is_some() && labels[i].unwrap() < k
}

/// Labels that were set stay as they were.
pub open spec fn labels_grow(before: Seq<Option<usize>>, after: Seq<Option<usize>>) -> bool {
    &&& after.len() == before.len()
    &&& forall|i: int| 0 <= i < before.len() && (#[trigger] before[i]).is_some() ==> after[i] == before[i]
}

proof fn lemma_chains_grow(
    d: Seq<Seq<Distance>>,
    eps: u64,
    min_pts: usize,
    lb: Seq<Option<usize>>,
    la: Seq<Option<usize>>,
    seeds: Seq<usize>,
    paths: Seq<Seq<int>>,
    j: int,
)
    requires
        labels_grow(lb, la),
        lb.len() == d.len(),
        0 <= j < d.len(),
        lb[j].is_some(),
        lb[j].unwrap() < seeds.len(),
        chain_in_cluster(
            d,
            eps,
            min_pts,
            lb,
            seeds[lb[j].unwrap() as int] as int,
            lb[j].unwrap() as int,
            paths[j],
            j,
        ),
    ensures
        chain_in_cluster(
            d,
            eps,
            min_pts,
            la,
            seeds[la[j].unwrap() as int] as int,
            la[j].unwrap() as int,
            paths[j],
            j,
        ),
{
    let kj = lb[j].unwrap() as int;
    let pj = paths[j];
    assert forall|t: int| 0 <= t < pj.len() implies #[trigger] pj[t] == seeds[kj] as int || la[pj[t]]
        == Some(kj as usize) by {
        if pj[t] != seeds[kj] as int {
            assert(lb[pj[t]] == Some(kj as usize));
        }
    }
}

/// Labels `q`, unlabelled so far, with cluster `k`, whose seed is `s`, and
/// extends the chain that reached its parent `c`.
proof fn lemma_label_step(
    d: Seq<Seq<Distance>>,
    eps: u64,
    min_pts: usize,
    lb: Seq<Option<usize>>,
    ext: Seq<usize>,
    paths: Seq<Seq<int>>,
    s: int,
    k: usize,
    q: int,
    c: int,
) -> (r: Seq<Seq<int>>)
    requires
        lb.len() == d.len(),
        paths.len() == d.len(),
        0 <= q < d.len(),
        0 <= c < d.len(),
        0 <= s < d.len(),
        k == ext.len() - 1,
        ext[k as int] == s,
        lb[q].is_none(),
        is_core(d, eps, min_pts, c),
        c == s || lb[c] == Some(k),
        within(d, eps, c, q),
        paths[s] == seq![s],
        forall|i: int| 0 <= i < d.len() && (#[trigger] lb[i]).is_some() ==> lb[i].unwrap() <= k,
        chains_ok(d, eps, min_pts, lb, ext, paths),
    ensures
        chains_ok(d, eps, min_pts, lb.update(q, Some(k)), ext, r),
        r.len() == d.len(),
        r[s] == seq![s],
{
    let la = lb.update(q, Some(k));
    let r = if q != s {
        paths.update(q, paths[c].push(q))
    } else {
        paths
    };
    assert(labels_grow(lb, la));
    assert forall|j: int| 0 <= j < d.len() && (#[trigger] la[j]).is_some() implies chain_in_cluster(
        d,
        eps,
        min_pts,
        la,
        ext[la[j].unwrap() as int] as int,
        la[j].unwrap() as int,
        r[j],
        j,
    ) by {
        if j == q {
            if q != s {
                let pc = paths[c];
                if c != s {
                    assert(lb[c].is_some());
                    assert(chain_in_cluster(d, eps, min_pts, lb, s, k as int, pc, c));
                } else {
                    assert(pc == seq![s]);
                }
                let pj = pc.push(q);
                assert forall|t: int| 0 <= t < pj.len() - 1 implies is_core(
                    d,
                    eps,
                    min_pts,
                    #[trigger] pj[t],
                ) && within(d, eps, pj[t], pj[t + 1]) by {
                    if t < pc.len() - 1 {
                        assert(pj[t] == pc[t] && pj[t + 1] == pc[t + 1]);
                    }
                }
                assert forall|t: int| 0 <= t < pj.len() implies #[trigger] pj[t] == s || la[pj[t]]
                    == Some(k) by {
                    if t < pc.len() {
                        assert(pj[t] == pc[t]);
                    }
                }
            }
        } else {
            lemma_chains_grow(d, eps, min_pts, lb, la, ext, paths, j);
        }
    }
    r
}

/// Some core point of the growing cluster `k` (seeded at `s`) has `j` as a
/// neighbour.
pub open spec fn has_parent(
    d: Seq<Seq<Distance>>,
    eps: u64,
    min_pts: usize,
    labels: Seq<Option<usize>>,
    s: int,
    k: usize,
    j: int,
) -> bool {
    exists|c: int|
        0 <= c < d.len() && is_core(d, eps, min_pts, c) && (c == s || labels[c] == Some(k))
            && #[trigger] within(d, eps, c, j)
}

proof fn lemma_parent_grow(
    d: Seq<Seq<Distance>>,
    eps: u64,
    min_pts: usize,
    lb: Seq<Option<usize>>,
    la: Seq<Option<usize>>,
    s: int,
    k: usize,
    j: int,
)
    requires
        labels_grow(lb, la),
        lb.len() == d.len(),
        has_parent(d, eps, min_pts, lb, s, k, j),
    ensures
        has_parent(d, eps, min_pts, la, s, k, j),
{
    let c = choose|c: int|
        0 <= c < d.len() && is_core(d, eps, min_pts, c) && (c == s || lb[c] == Some(k))
            && #[trigger] within(d, eps, c, j);
    if c != s {
        assert(lb[c].is_some());
    }
}

/// Grows the cluster `k` opened at the core point `s` until no core point of
/// it has a neighbour left outside every cluster.
#[verifier::rlimit(40)]
fn expand_cluster(
    d: &Vec<Vec<Distance>>,
    eps: u64,
    min_pts: usize,
    s: usize,
    k: usize,
    visited: &mut Vec<bool>,
    labels: &mut Vec<Option<usize>>,
    Ghost(seeds): Ghost<Seq<usize>>,
    Ghost(paths): Ghost<Seq<Seq<int>>>,
) -> (r: Ghost<Seq<Seq<int>>>)
    requires
        is_square(matrix(d)),
        self_neighbour(matrix(d), eps),
        min_pts >= 1,
        s < d.len(),
        k == seeds.len(),
        is_core(matrix(d), eps, min_pts, s as int),
        old(visited)@.len() == d.len(),
        old(labels)@.len() == d.len(),
        paths.len() == d.len(),
        old(visited)@[s as int],
        old(labels)@[s as int].is_none(),
        labels_below(old(labels)@, old(visited)@, seeds.len() as int),
        forall|i: int|
            0 <= i < d.len() && #[trigger] old(visited)@[i] && is_core(matrix(d), eps, min_pts, i)
                ==> old(labels)@[i].is_some() || i == s,
        closed_below(matrix(d), eps, min_pts, old(labels)@, seeds.len() as int),
        chains_ok(matrix(d), eps, min_pts, old(labels)@, seeds, paths),
    ensures
        final(visited)@.len() == d.len(),
        labels_below(final(labels)@, final(visited)@, (seeds.len() + 1) as int),
        labels_grow(old(labels)@, final(labels)@),
        forall|i: int| 0 <= i < d.len() && #[trigger] old(visited)@[i] ==> final(visited)@[i],
        forall|i: int|
            0 <= i < d.len() && #[trigger] final(visited)@[i] && is_core(matrix(d), eps, min_pts, i)
                ==> final(labels)@[i].is_some(),
        closed_below(matrix(d), eps, min_pts, final(labels)@, (seeds.len() + 1) as int),
        chains_ok(matrix(d), eps, min_pts, final(labels)@, seeds.push(s), r@),
        final(labels)@[s as int] == Some(k),
        r@.len() == d.len(),
{
    let n = d.len();
    let ghost si = s as int;
    let ghost ext = seeds.push(s);
    let ghost v0 = visited@;
    let ghost l0 = labels@;
    let ghost mut paths = paths.update(si, seq![si]);
    proof {
        lemma_count_positive(matrix(d)[si], eps, n as int);
        let j0 = choose|j: int| 0 <= j < n && #[trigger] matrix(d)[si][j].within(eps);
        assert(within(matrix(d), eps, si, j0));
        assert(within(matrix(d), eps, si, si));
        assert forall|j: int| 0 <= j < n && (#[trigger] labels@[j]).is_some() implies chain_in_cluster(
            matrix(d),
            eps,
            min_pts,
            labels@,
            ext[labels@[j].unwrap() as int] as int,
            labels@[j].unwrap() as int,
            paths[j],
            j,
        ) by {
            assert(j != si);
            assert(ext[labels@[j].unwrap() as int] == seeds[labels@[j].unwrap() as int]);
        }
    }
    let mut queue: Vec<usize> = Vec::new();
    let mut queued: Vec<bool> = filled(n, false);
    enqueue_neighbours(d, eps, s, &mut queue, &mut queued);
    let mut idx: usize = 0;
    proof {
        lemma_distinct_below(queue@, n as nat);
        assert forall|t: int| 0 <= t < queue@.len() implies has_parent(
            matrix(d),
            eps,
            min_pts,
            labels@,
            si,
            k,
            #[trigger] queue@[t] as int,
        ) by {
            assert(within(matrix(d), eps, si, queue@[t] as int));
        }
    }
    while idx < queue.len()
        invariant
            n == d.len(),
            is_square(matrix(d)),
            min_pts >= 1,
            0 <= si < n,
            si == s as int,
            v0.len() == n,
            k == seeds.len(),
            ext == seeds.push(s),
            is_core(matrix(d), eps, min_pts, si),
            visited@.len() == n,
            labels@.len() == n,
            paths.len() == n,
            paths[si] == seq![si],
            labels@[si].is_none() || labels@[si] == Some(k as usize),
            queued@[si],
            queue_ok(queue@, queued@, n as int),
            queue@.len() <= n,
            idx <= queue@.len(),
            forall|t: int| 0 <= t < idx ==> (#[trigger] labels@[queue@[t] as int]).is_some(),
            forall|t: int|
                0 <= t < queue@.len() ==> has_parent(matrix(d), eps, min_pts, labels@, si, k, #[trigger] queue@[t] as int),
            forall|c: int, j: int|
                0 <= c < n && 0 <= j < n && is_core(matrix(d), eps, min_pts, c) && (c == si
                    || #[trigger] labels@[c] == Some(k as usize)) && #[trigger] within(matrix(d), eps, c, j)
                    ==> queued@[j],
            labels_below(labels@, visited@, k + 1 as int),
            labels_grow(l0, labels@),
            forall|i: int| 0 <= i < n && #[trigger] v0[i] ==> visited@[i],
            forall|i: int|
                0 <= i < n && #[trigger] visited@[i] && is_core(matrix(d), eps, min_pts, i)
                    ==> labels@[i].is_some() || i == si,
            closed_below(matrix(d), eps, min_pts, labels@, k as int),
            chains_ok(matrix(d), eps, min_pts, labels@, ext, paths),
        decreases n - idx,
    {
        let q = queue[idx];
        let ghost qi = q as int;
        assert(has_parent(matrix(d), eps, min_pts, labels@, si, k, qi));
        let ghost c0 = choose|c: int|
            0 <= c < n && is_core(matrix(d), eps, min_pts, c) && (c == si || labels@[c] == Some(k))
                && #[trigger] within(matrix(d), eps, c, qi);
        let ghost lq = labels@;
        let ghost q0 = queue@;
        let ghost mut enq = false;
        if !visited[q] {
            visited.set(q, true);
            if count_neighbours(d, eps, q) >= min_pts {
                let ghost qb = queue@;
                enqueue_neighbours(d, eps, q, &mut queue, &mut queued);
                proof {
                    enq = true;
                    lemma_distinct_below(queue@, n as nat);
                    assert(labels@[qi].is_none());
                    assert forall|t: int| 0 <= t < queue@.len() implies has_parent(
                        matrix(d),
                        eps,
                        min_pts,
                        labels@.update(qi, Some(k)),
                        si,
                        k,
                        #[trigger] queue@[t] as int,
                    ) by {
                        let lu = labels@.update(qi, Some(k));
                        assert(labels_grow(labels@, lu));
                        if t < qb.len() {
                            assert(queue@[t] == qb[t]);
                            lemma_parent_grow(matrix(d), eps, min_pts, labels@, lu, si, k, qb[t] as int);
                        } else {
                            assert(within(matrix(d), eps, qi, queue@[t] as int));
                            assert(lu[qi] == Some(k));
                        }
                    }
                }
            }
        }
        if labels[q].is_none() {
            proof {
                assert(ext[k as int] == s);
                paths = lemma_label_step(matrix(d), eps, min_pts, labels@, ext, paths, si, k, qi, c0);
            }
            labels.set(q, Some(k));
        }
        proof {
            assert forall|t: int| 0 <= t < queue@.len() implies has_parent(
                matrix(d),
                eps,
                min_pts,
                labels@,
                si,
                k,
                #[trigger] queue@[t] as int,
            ) by {
                assert(labels_grow(lq, labels@));
                if enq {
                    assert(labels@ == lq.update(qi, Some(k)));
                } else {
                    assert(queue@[t] == q0[t]);
                    lemma_parent_grow(matrix(d), eps, min_pts, lq, labels@, si, k, queue@[t] as int);
                }
            }
        }
        idx = idx + 1;
    }
    proof {
        let t = choose|t: int| 0 <= t < queue@.len() && queue@[t] == s;
        assert(labels@[queue@[t] as int].is_some());
        assert forall|c: int, j: int|
            0 <= c < n && 0 <= j < n && is_core(matrix(d), eps, min_pts, c) && (#[trigger] labels@[c]).is_some()
                && labels@[c].unwrap() < k + 1 && #[trigger] within(matrix(d), eps, c, j) implies labels@[j].is_some()
                && labels@[j].unwrap() <= labels@[c].unwrap() by {
            if labels@[c].unwrap() == k {
                assert(queued@[j]);
                let tj = choose|tj: int| 0 <= tj < queue@.len() && queue@[tj] == j as usize;
                assert(labels@[queue@[tj] as int].is_some());
            }
        }
    }
    Ghost(paths)
}

/// Clusters the points whose pairwise distances `d` gives, with radius `eps`
/// and minimum neighbourhood size `min_pts`. Points are taken in index order;
/// an unvisited core point opens a cluster, which grows breadth-first through
/// the neighbourhoods of the core points it reaches. Points reached by no
/// core point are noise.
pub fn dbscan(d: &Vec<Vec<Distance>>, eps: u64, min_pts: usize) -> (r: Clustering)
    requires
        is_square(matrix(d)),
        self_neighbour(matrix(d), eps),
        min_pts >= 1,
    ensures
        is_clustering(matrix(d), eps, min_pts, r.labels@, r.seeds@),
        r.clusters.len() == r.seeds.len(),
        forall|k: int| 0 <= k < r.clusters.len() ==> lists_cluster(#[trigger] r.clusters@[k]@, r.labels@, k),
{
    let n = d.len();
    let mut visited: Vec<bool> = filled(n, false);
    let mut labels: Vec<Option<usize>> = filled(n, None);
    let mut seeds: Vec<usize> = Vec::new();
    let ghost mut paths: Seq<Seq<int>> = Seq::new(n as nat, |i: int| seq![i]);
    for p in 0..n
        invariant
            n == d.len(),
            is_square(matrix(d)),
            self_neighbour(matrix(d), eps),
            min_pts >= 1,
            visited@.len() == n,
            labels@.len() == n,
            paths.len() == n,
            labels_below(labels@, visited@, seeds@.len() as int),
            forall|i: int| 0 <= i < p ==> #[trigger] visited@[i],
            forall|i: int|
                0 <= i < n && #[trigger] visited@[i] && is_core(matrix(d), eps, min_pts, i) ==> labels@[i].is_some(),
            closed_below(matrix(d), eps, min_pts, labels@, seeds@.len() as int),
            chains_ok(matrix(d), eps, min_pts, labels@, seeds@, paths),
            seeds_ok(matrix(d), eps, min_pts, labels@, seeds@, p as int),
    {
        if !visited[p] {
            visited.set(p, true);
            let cnt = count_neighbours(d, eps, p);
            if cnt >= min_pts {
                let ghost lb = labels@;
                let ghost vb = visited@;
                let Ghost(pa) = expand_cluster(d, eps, min_pts, p, seeds.len(), &mut visited, &mut labels, Ghost(seeds@), Ghost(paths));
                proof {
                    paths = pa;
                }
                let ghost sb = seeds@;
                seeds.push(p);
                proof {
                    assert forall|i: int| 0 <= i < p + 1 implies #[trigger] visited@[i] by {
                        assert(vb[i]);
                    }
                }
                proof {
                    let ss = seeds@;
                    assert forall|kk: int|
                        0 <= kk < ss.len() implies (#[trigger] ss[kk]) < p + 1 && is_core(
                            matrix(d),
                            eps,
                            min_pts,
                            ss[kk] as int,
                        ) && labels@[ss[kk] as int] == Some(kk as usize) by {
                        if kk < sb.len() {
                            assert(ss[kk] == sb[kk]);
                            assert(lb[sb[kk] as int].is_some());
                        }
                    }
                    assert forall|kk: int, i: int|
                        0 <= kk < ss.len() && 0 <= i < #[trigger] ss[kk] && is_core(matrix(d), eps, min_pts, i)
                            implies (#[trigger] labels@[i]).is_some() && labels@[i].unwrap() < kk by {
                        if kk < sb.len() {
                            assert(ss[kk] == sb[kk]);
                            assert(lb[i].is_some());
                        } else {
                            assert(vb[i]);
                            assert(lb[i].is_some());
                        }
                    }
                }
            }
        }
    }
    let ghost sv = seeds@;
    proof {
        assert forall|i: int| 0 <= i < n && is_core(matrix(d), eps, min_pts, i) implies (#[trigger] labels@[i]).is_some() by {
            assert(visited@[i]);
        }
        assert forall|j: int| 0 <= j < n && (#[trigger] labels@[j]).is_some() implies exists|path: Seq<int>|
            chain_in_cluster(
                matrix(d),
                eps,
                min_pts,
                labels@,
                sv[labels@[j].unwrap() as int] as int,
                labels@[j].unwrap() as int,
                path,
                j,
            ) by {
            assert(chain_in_cluster(
                matrix(d),
                eps,
                min_pts,
                labels@,
                sv[labels@[j].unwrap() as int] as int,
                labels@[j].unwrap() as int,
                paths[j],
                j,
            ));
        }
    }
    let n_seeds = seeds.len();
    proof {
        reveal(is_clustering);
    }
    let mut clusters: Vec<Vec<usize>> = Vec::new();
    for k in 0..seeds.len()
        invariant
            clusters@.len() == k,
            forall|kk: int| 0 <= kk < k ==> lists_cluster(#[trigger] clusters@[kk]@, labels@, kk),
    {
        clusters.push(members_of(&labels, k));
    }
    Clustering { clusters, seeds, labels }
}


/// What a clustering says of one labelled point and one cluster seed.
pub proof fn lemma_clustering_facts(
    d: Seq<Seq<Distance>>,
    eps: u64,
    min_pts: usize,
    labels: Seq<Option<usize>>,
    seeds: Seq<usize>,
)
    requires
        is_clustering(d, eps, min_pts, labels, seeds),
    ensures
        labels.len() == d.len(),
        seeds.len() <= usize::MAX,
        forall|i: int|
            0 <= i < d.len() && (#[trigger] labels[i]).is_some() ==> labels[i].unwrap() < seeds.len(),
        forall|i: int| 0 <= i < d.len() && #[trigger] is_core(d, eps, min_pts, i) ==> labels[i].is_some(),
        forall|k: int|
            0 <= k < seeds.len() ==> (#[trigger] seeds[k]) < d.len() && is_core(d, eps, min_pts, seeds[k] as int)
                && labels[seeds[k] as int] == Some(k as usize),
{
    reveal(is_clustering);
}

proof fn lemma_clustering_closed(
    d: Seq<Seq<Distance>>,
    eps: u64,
    min_pts: usize,
    labels: Seq<Option<usize>>,
    seeds: Seq<usize>,
    c: int,
    j: int,
)
    requires
        is_clustering(d, eps, min_pts, labels, seeds),
        0 <= c < d.len(),
        0 <= j < d.len(),
        is_core(d, eps, min_pts, c),
        labels[c].is_some(),
        within(d, eps, c, j),
    ensures
        labels[j].is_some(),
        labels[j].unwrap() <= labels[c].unwrap(),
{
    reveal(is_clustering);
}

proof fn lemma_clustering_before_seed(
    d: Seq<Seq<Distance>>,
    eps: u64,
    min_pts: usize,
    labels: Seq<Option<usize>>,
    seeds: Seq<usize>,
    k: int,
    i: int,
)
    requires
        is_clustering(d, eps, min_pts, labels, seeds),
        0 <= k < seeds.len(),
        0 <= i < seeds[k],
        is_core(d, eps, min_pts, i),
    ensures
        labels[i].is_some(),
        labels[i].unwrap() < k,
{
    reveal(is_clustering);
}

proof fn lemma_clustering_chain(
    d: Seq<Seq<Distance>>,
    eps: u64,
    min_pts: usize,
    labels: Seq<Option<usize>>,
    seeds: Seq<usize>,
    j: int,
)
    requires
        is_clustering(d, eps, min_pts, labels, seeds),
        0 <= j < d.len(),
        labels[j].is_some(),
    ensures
        exists|path: Seq<int>|
            chain_in_cluster(
                d,
                eps,
                min_pts,
                labels,
                seeds[labels[j].unwrap() as int] as int,
                labels[j].unwrap() as int,
                path,
                j,
            ),
{
    reveal(is_clustering);
}

/// Along a chain of core points, each hop within `eps`, a clustering gives
/// every point of the chain the cluster of its start.
proof fn lemma_core_chain_same_label(
    d: Seq<Seq<Distance>>,
    eps: u64,
    min_pts: usize,
    labels: Seq<Option<usize>>,
    seeds: Seq<usize>,
    path: Seq<int>,
)
    requires
        is_symmetric(d),
        is_clustering(d, eps, min_pts, labels, seeds),
        is_core_chain(d, eps, min_pts, path),
        is_core(d, eps, min_pts, path.last()),
    ensures
        labels[path[0]].is_some(),
        labels[path.last()] == labels[path[0]],
    decreases path.len(),
{
    lemma_clustering_facts(d, eps, min_pts, labels, seeds);
    if path.len() > 1 {
        let head = path.drop_last();
        assert(is_core_chain(d, eps, min_pts, head)) by {
            assert forall|t: int| 0 <= t < head.len() - 1 implies is_core(d, eps, min_pts, #[trigger] head[t])
                && within(d, eps, head[t], head[t + 1]) by {
                assert(head[t] == path[t] && head[t + 1] == path[t + 1]);
            }
            assert forall|t: int| 0 <= t < head.len() implies 0 <= #[trigger] head[t] < d.len() by {
                assert(head[t] == path[t]);
            }
        }
        let a = path[path.len() - 2];
        let b = path.last();
        assert(is_core(d, eps, min_pts, a));
        lemma_core_chain_same_label(d, eps, min_pts, labels, seeds, head);
        assert(within(d, eps, a, b));
        assert(0 <= a < d.len() && 0 <= b < d.len());
        assert(d[a][b] == d[b][a]);
        assert(within(d, eps, b, a));
        lemma_clustering_closed(d, eps, min_pts, labels, seeds, a, b);
        lemma_clustering_closed(d, eps, min_pts, labels, seeds, b, a);
    }
}

/// In a clustering, a point of cluster `k` is reached from the seed of `k`
/// by a chain whose points all belong to `k`.
proof fn lemma_chain_from_seed(
    d: Seq<Seq<Distance>>,
    eps: u64,
    min_pts: usize,
    labels: Seq<Option<usize>>,
    seeds: Seq<usize>,
    j: int,
) -> (path: Seq<int>)
    requires
        is_clustering(d, eps, min_pts, labels, seeds),
        0 <= j < d.len(),
        labels[j].is_some(),
    ensures
        is_core_chain(d, eps, min_pts, path),
        path[0] == seeds[labels[j].unwrap() as int],
        path.last() == j,
        forall|t: int| 0 <= t < path.len() ==> labels[#[trigger] path[t]] == labels[j],
{
    lemma_clustering_facts(d, eps, min_pts, labels, seeds);
    lemma_clustering_chain(d, eps, min_pts, labels, seeds, j);
    let k = labels[j].unwrap() as int;
    let path = choose|path: Seq<int>| chain_in_cluster(d, eps, min_pts, labels, seeds[k] as int, k, path, j);
    assert(labels[seeds[k] as int] == Some(k as usize));
    assert forall|t: int| 0 <= t < path.len() implies labels[#[trigger] path[t]] == labels[j] by {
        if path[t] != seeds[k] as int {
            assert(labels[path[t]] == Some(k as usize));
        }
    }
    path
}

/// Two core points that share a cluster in one clustering share one in
/// every clustering of the same points.
proof fn lemma_core_pairs_agree(
    d: Seq<Seq<Distance>>,
    eps: u64,
    min_pts: usize,
    l1: Seq<Option<usize>>,
    s1: Seq<usize>,
    l2: Seq<Option<usize>>,
    s2: Seq<usize>,
    a: int,
    b: int,
)
    requires
        is_symmetric(d),
        is_clustering(d, eps, min_pts, l1, s1),
        is_clustering(d, eps, min_pts, l2, s2),
        0 <= a < d.len(),
        0 <= b < d.len(),
        is_core(d, eps, min_pts, a),
        is_core(d, eps, min_pts, b),
        l1[a] == l1[b],
    ensures
        l2[a] == l2[b],
{
    lemma_clustering_facts(d, eps, min_pts, l1, s1);
    assert(l1[a].is_some());
    let pa = lemma_chain_from_seed(d, eps, min_pts, l1, s1, a);
    let pb = lemma_chain_from_seed(d, eps, min_pts, l1, s1, b);
    lemma_core_chain_same_label(d, eps, min_pts, l2, s2, pa);
    lemma_core_chain_same_label(d, eps, min_pts, l2, s2, pb);
}

/// A point of a cluster that is not a core point lies within `eps` of a
/// core point of the same cluster.
proof fn lemma_border_has_core(
    d: Seq<Seq<Distance>>,
    eps: u64,
    min_pts: usize,
    labels: Seq<Option<usize>>,
    seeds: Seq<usize>,
    j: int,
) -> (c: int)
    requires
        is_clustering(d, eps, min_pts, labels, seeds),
        0 <= j < d.len(),
        labels[j].is_some(),
        !is_core(d, eps, min_pts, j),
    ensures
        0 <= c < d.len(),
        is_core(d, eps, min_pts, c),
        labels[c] == labels[j],
        within(d, eps, c, j),
{
    lemma_clustering_facts(d, eps, min_pts, labels, seeds);
    let path = lemma_chain_from_seed(d, eps, min_pts, labels, seeds, j);
    let k = labels[j].unwrap() as int;
    assert(is_core(d, eps, min_pts, seeds[k] as int));
    assert(path.len() >= 2);
    let t = path.len() - 2;
    assert(is_core(d, eps, min_pts, path[t]) && within(d, eps, path[t], path[t + 1]));
    assert(labels[path[t]] == labels[j]);
    path[t]
}

/// Every member of a cluster is reached from a core point of that cluster
/// (the point that opened it) by a chain of hops of at most `eps`, each
/// taken from a core point of the cluster. A point within `eps` of a core
/// point of the cluster belongs to a cluster too: to the same one if it is a
/// core point itself; otherwise to that one or, where it also lies near a
/// core point of an earlier cluster, to that earlier cluster. Where every
/// core point within `eps` of it is in the same cluster as the first, so is
/// the point.
pub proof fn lemma_cluster_reachability(
    d: Seq<Seq<Distance>>,
    eps: u64,
    min_pts: usize,
    labels: Seq<Option<usize>>,
    seeds: Seq<usize>,
    c: int,
    j: int,
)
    requires
        is_symmetric(d),
        is_clustering(d, eps, min_pts, labels, seeds),
        0 <= j < d.len(),
        0 <= c < d.len(),
    ensures
        labels[j].is_some() ==> exists|path: Seq<int>|
            is_core_chain(d, eps, min_pts, path) && path[0] == seeds[labels[j].unwrap() as int] && is_core(
                d,
                eps,
                min_pts,
                path[0],
            ) && path.last() == j && forall|t: int| 0 <= t < path.len() ==> labels[#[trigger] path[t]] == labels[j],
        is_core(d, eps, min_pts, c) && labels[c].is_some() && within(d, eps, c, j) ==> labels[j].is_some() && (
        labels[j] == labels[c] || (!is_core(d, eps, min_pts, j) && labels[j].unwrap() < labels[c].unwrap())),
        is_core(d, eps, min_pts, c) && labels[c].is_some() && within(d, eps, c, j) && (forall|c2: int|
            0 <= c2 < d.len() && is_core(d, eps, min_pts, c2) && #[trigger] within(d, eps, c2, j) ==> labels[c2]
                == labels[c]) ==> labels[j] == labels[c],
{
    lemma_clustering_facts(d, eps, min_pts, labels, seeds);
    if labels[j].is_some() {
        let path = lemma_chain_from_seed(d, eps, min_pts, labels, seeds, j);
        assert(is_core(d, eps, min_pts, seeds[labels[j].unwrap() as int] as int));
    }
    if is_core(d, eps, min_pts, c) && labels[c].is_some() && within(d, eps, c, j) {
        lemma_clustering_closed(d, eps, min_pts, labels, seeds, c, j);
        if is_core(d, eps, min_pts, j) {
            assert(d[c][j] == d[j][c]);
            assert(within(d, eps, j, c));
            lemma_clustering_closed(d, eps, min_pts, labels, seeds, j, c);
        } else {
            let p = lemma_border_has_core(d, eps, min_pts, labels, seeds, j);
            assert(within(d, eps, p, j));
        }
    }
}

/// A clustering pass is determined by its input: any two outcomes that meet
/// the contract of `dbscan` on the same symmetric distances, radius and
/// minimum have the same seeds and the same label for every point, hence the
/// same clusters.
pub proof fn lemma_clustering_determined(
    d: Seq<Seq<Distance>>,
    eps: u64,
    min_pts: usize,
    l1: Seq<Option<usize>>,
    s1: Seq<usize>,
    l2: Seq<Option<usize>>,
    s2: Seq<usize>,
)
    requires
        is_symmetric(d),
        is_clustering(d, eps, min_pts, l1, s1),
        is_clustering(d, eps, min_pts, l2, s2),
    ensures
        s1 == s2,
        l1 == l2,
{
    lemma_clustering_facts(d, eps, min_pts, l1, s1);
    lemma_clustering_facts(d, eps, min_pts, l2, s2);
    lemma_seeds_agree(d, eps, min_pts, l1, s1, l2, s2);
    assert forall|i: int| 0 <= i < d.len() implies #[trigger] l1[i] == l2[i] by {
        lemma_point_agrees(d, eps, min_pts, l1, s1, l2, s2, i);
    }
    assert(l1 =~= l2);
}

proof fn lemma_seed_agrees(
    d: Seq<Seq<Distance>>,
    eps: u64,
    min_pts: usize,
    l1: Seq<Option<usize>>,
    s1: Seq<usize>,
    l2: Seq<Option<usize>>,
    s2: Seq<usize>,
    k: int,
)
    requires
        is_symmetric(d),
        is_clustering(d, eps, min_pts, l1, s1),
        is_clustering(d, eps, min_pts, l2, s2),
        0 <= k < s1.len(),
        0 <= k < s2.len(),
        forall|j: int| 0 <= j < k ==> #[trigger] s1[j] == s2[j],
    ensures
        s1[k] <= s2[k],
{
    lemma_clustering_facts(d, eps, min_pts, l1, s1);
    lemma_clustering_facts(d, eps, min_pts, l2, s2);
    let a = s1[k] as int;
    let b = s2[k] as int;
    if b < a {
        assert(is_core(d, eps, min_pts, b));
        lemma_clustering_before_seed(d, eps, min_pts, l1, s1, k, b);
        let j = l1[b].unwrap() as int;
        assert(s1[j] == s2[j]);
        assert(l1[s1[j] as int] == Some(j as usize));
        lemma_core_pairs_agree(d, eps, min_pts, l1, s1, l2, s2, b, s1[j] as int);
        assert(l2[s2[j] as int] == Some(j as usize));
        assert(l2[b] == Some(k as usize));
    }
}

proof fn lemma_seeds_agree(
    d: Seq<Seq<Distance>>,
    eps: u64,
    min_pts: usize,
    l1: Seq<Option<usize>>,
    s1: Seq<usize>,
    l2: Seq<Option<usize>>,
    s2: Seq<usize>,
)
    requires
        is_symmetric(d),
        is_clustering(d, eps, min_pts, l1, s1),
        is_clustering(d, eps, min_pts, l2, s2),
    ensures
        s1 == s2,
{
    let m = if s1.len() < s2.len() {
        s1.len() as int
    } else {
        s2.len() as int
    };
    lemma_seeds_prefix(d, eps, min_pts, l1, s1, l2, s2, m);
    if s1.len() < s2.len() {
        lemma_extra_seed(d, eps, min_pts, l1, s1, l2, s2, m);
    } else if s2.len() < s1.len() {
        assert forall|j: int| 0 <= j < m implies #[trigger] s2[j] == s1[j] by {
            assert(s1[j] == s2[j]);
        }
        lemma_extra_seed(d, eps, min_pts, l2, s2, l1, s1, m);
    }
    assert(s1 =~= s2);
}

proof fn lemma_seeds_prefix(
    d: Seq<Seq<Distance>>,
    eps: u64,
    min_pts: usize,
    l1: Seq<Option<usize>>,
    s1: Seq<usize>,
    l2: Seq<Option<usize>>,
    s2: Seq<usize>,
    k: int,
)
    requires
        is_symmetric(d),
        is_clustering(d, eps, min_pts, l1, s1),
        is_clustering(d, eps, min_pts, l2, s2),
        0 <= k <= s1.len(),
        k <= s2.len(),
    ensures
        forall|j: int| 0 <= j < k ==> #[trigger] s1[j] == s2[j],
    decreases k,
{
    if k > 0 {
        lemma_seeds_prefix(d, eps, min_pts, l1, s1, l2, s2, k - 1);
        lemma_seed_agrees(d, eps, min_pts, l1, s1, l2, s2, k - 1);
        assert forall|j: int| 0 <= j < k - 1 implies #[trigger] s2[j] == s1[j] by {
            assert(s1[j] == s2[j]);
        }
        lemma_seed_agrees(d, eps, min_pts, l2, s2, l1, s1, k - 1);
    }
}

/// A clustering with more clusters than another that agrees on the first
/// `m` seeds cannot exist.
proof fn lemma_extra_seed(
    d: Seq<Seq<Distance>>,
    eps: u64,
    min_pts: usize,
    l1: Seq<Option<usize>>,
    s1: Seq<usize>,
    l2: Seq<Option<usize>>,
    s2: Seq<usize>,
    m: int,
)
    requires
        is_symmetric(d),
        is_clustering(d, eps, min_pts, l1, s1),
        is_clustering(d, eps, min_pts, l2, s2),
        m == s1.len(),
        m <= s2.len(),
        forall|j: int| 0 <= j < m ==> #[trigger] s1[j] == s2[j],
    ensures
        s2.len() == m,
{
    lemma_clustering_facts(d, eps, min_pts, l1, s1);
    lemma_clustering_facts(d, eps, min_pts, l2, s2);
    if s2.len() > m {
        let b = s2[m] as int;
        assert(is_core(d, eps, min_pts, b));
        assert(l1[b].is_some());
        let j = l1[b].unwrap() as int;
        assert(s1[j] == s2[j]);
        assert(l1[s1[j] as int] == Some(j as usize));
        lemma_core_pairs_agree(d, eps, min_pts, l1, s1, l2, s2, b, s1[j] as int);
        assert(l2[b] == Some(m as usize));
        assert(l2[s2[j] as int] == Some(j as usize));
    }
}

proof fn lemma_point_agrees(
    d: Seq<Seq<Distance>>,
    eps: u64,
    min_pts: usize,
    l1: Seq<Option<usize>>,
    s1: Seq<usize>,
    l2: Seq<Option<usize>>,
    s2: Seq<usize>,
    i: int,
)
    requires
        is_symmetric(d),
        is_clustering(d, eps, min_pts, l1, s1),
        is_clustering(d, eps, min_pts, l2, s2),
        s1 == s2,
        0 <= i < d.len(),
    ensures
        l1[i] == l2[i],
{
    if is_core(d, eps, min_pts, i) {
        lemma_core_agrees(d, eps, min_pts, l1, s1, l2, s2, i);
    } else {
        lemma_border_bound(d, eps, min_pts, l1, s1, l2, s2, i);
        lemma_border_bound(d, eps, min_pts, l2, s2, l1, s1, i);
    }
}

proof fn lemma_core_agrees(
    d: Seq<Seq<Distance>>,
    eps: u64,
    min_pts: usize,
    l1: Seq<Option<usize>>,
    s1: Seq<usize>,
    l2: Seq<Option<usize>>,
    s2: Seq<usize>,
    i: int,
)
    requires
        is_symmetric(d),
        is_clustering(d, eps, min_pts, l1, s1),
        is_clustering(d, eps, min_pts, l2, s2),
        s1 == s2,
        0 <= i < d.len(),
        is_core(d, eps, min_pts, i),
    ensures
        l1[i] == l2[i],
{
    lemma_clustering_facts(d, eps, min_pts, l1, s1);
    lemma_clustering_facts(d, eps, min_pts, l2, s2);
    assert(l1[i].is_some());
    let k = l1[i].unwrap() as int;
    let s = s1[k] as int;
    assert(is_core(d, eps, min_pts, s) && l1[s] == Some(k as usize));
    lemma_core_pairs_agree(d, eps, min_pts, l1, s1, l2, s2, i, s);
    assert(l2[s2[k] as int] == Some(k as usize));
}

/// Where the first clustering puts a non-core point in a cluster, the
/// second puts it in that cluster or an earlier one.
proof fn lemma_border_bound(
    d: Seq<Seq<Distance>>,
    eps: u64,
    min_pts: usize,
    l1: Seq<Option<usize>>,
    s1: Seq<usize>,
    l2: Seq<Option<usize>>,
    s2: Seq<usize>,
    i: int,
)
    requires
        is_symmetric(d),
        is_clustering(d, eps, min_pts, l1, s1),
        is_clustering(d, eps, min_pts, l2, s2),
        s1 == s2,
        0 <= i < d.len(),
        !is_core(d, eps, min_pts, i),
    ensures
        l1[i].is_some() ==> l2[i].is_some() && l2[i].unwrap() <= l1[i].unwrap(),
{
    if l1[i].is_some() {
        let c = lemma_border_has_core(d, eps, min_pts, l1, s1, i);
        lemma_core_agrees(d, eps, min_pts, l1, s1, l2, s2, c);
        lemma_clustering_facts(d, eps, min_pts, l2, s2);
        assert(l2[c].is_some());
        lemma_clustering_closed(d, eps, min_pts, l2, s2, c, i);
    }
}

} // verus!
