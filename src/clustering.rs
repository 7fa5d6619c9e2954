use vstd::prelude::*;

use crate::neighborhood::{lemma_selected_contains, nearest_neighbors, selected};
use crate::relation::{
    core_connected, is_core, is_core_path, is_neighborhood_relation, is_square, is_symmetric,
    lemma_joined_path, lemma_reversed_path, reversed, rows_of,
};

verus! {

/// The label of one point: noise, or the id of its cluster (ids start at 1).
#[derive(Debug, Clone, Copy, PartialEq, Eq, Structural)]
pub enum ClusterAssignment {
    Noise,
    Cluster(usize),
}

/// One label per point of the input, indexed like the input.
#[derive(Debug, PartialEq)]
pub struct DBSCANResult {
    pub cluster_assignments: Vec<ClusterAssignment>,
}

/// The cluster id of a label, 0 for noise.
pub open spec fn label_id(a: ClusterAssignment) -> int {
    match a {
        ClusterAssignment::Noise => 0,
        ClusterAssignment::Cluster(d) => d as int,
    }
}

/// A point is noise exactly when it is no core point and no core point is
/// near it.
pub open spec fn noise_exactly(w: Seq<Seq<bool>>, m: nat, l: Seq<ClusterAssignment>) -> bool {
    forall|x: int|
        0 <= x < w.len() ==> (#[trigger] l[x] == ClusterAssignment::Noise <==> (!is_core(w, m, x)
            && forall|y: int| 0 <= y < w.len() && w[x][y] ==> !is_core(w, m, y)))
}

/// Core points near each other share their cluster.
pub open spec fn core_neighbors_agree(w: Seq<Seq<bool>>, m: nat, l: Seq<ClusterAssignment>) -> bool {
    forall|x: int, y: int|
        0 <= x < w.len() && 0 <= y < w.len() && is_core(w, m, x) && is_core(w, m, y) && #[trigger] w[x][y]
            ==> l[x] == l[y]
}

/// Core points that share a cluster are joined by a chain of core points.
pub open spec fn clusters_connected(w: Seq<Seq<bool>>, m: nat, l: Seq<ClusterAssignment>) -> bool {
    forall|x: int, y: int|
        0 <= x < w.len() && 0 <= y < w.len() && is_core(w, m, x) && is_core(w, m, y) && #[trigger] l[x]
            == #[trigger] l[y] ==> core_connected(w, m, x, y)
}

/// Each core point is in a cluster; ids start at 1, and the first core point of
/// cluster `c + 1` comes after a core point of cluster `c`.
pub open spec fn ids_in_discovery_order(w: Seq<Seq<bool>>, m: nat, l: Seq<ClusterAssignment>) -> bool {
    forall|x: int|
        0 <= x < w.len() && is_core(w, m, x) ==> {
            &&& #[trigger] label_id(l[x]) >= 1
            &&& label_id(l[x]) > 1 ==> exists|z: int|
                0 <= z < x && is_core(w, m, z) && #[trigger] label_id(l[z]) == label_id(l[x]) - 1
        }
}

/// A point that is no core point but lies near one joins the first cluster
/// that reaches it: that of a core neighbor, with the least id among them.
pub open spec fn borders_join_first_cluster(w: Seq<Seq<bool>>, m: nat, l: Seq<ClusterAssignment>) -> bool {
    forall|x: int|
        0 <= x < w.len() && !is_core(w, m, x) && #[trigger] l[x] != ClusterAssignment::Noise ==> {
            &&& exists|y: int| 0 <= y < w.len() && is_core(w, m, y) && w[x][y] && #[trigger] l[y] == l[x]
            &&& forall|y: int|
                0 <= y < w.len() && is_core(w, m, y) && #[trigger] w[x][y]
                    ==> label_id(l[x]) <= label_id(l[y])
        }
}

/// `l` is the labelling that DBSCAN gives the points of relation `w` with
/// `m` as the least neighborhood size of a core point.
pub open spec fn is_dbscan_labelling(w: Seq<Seq<bool>>, m: nat, l: Seq<ClusterAssignment>) -> bool {
    &&& l.len() == w.len()
    &&& noise_exactly(w, m, l)
    &&& core_neighbors_agree(w, m, l)
    &&& clusters_connected(w, m, l)
    &&& ids_in_discovery_order(w, m, l)
    &&& borders_join_first_cluster(w, m, l)
}

/// The cluster id of a label of the assignment map, 0 when it is absent or
/// noise.
spec fn cid(o: Option<ClusterAssignment>) -> int {
    match o {
        Some(ClusterAssignment::Cluster(d)) => d as int,
        _ => 0,
    }
}

spec fn is_noise(o: Option<ClusterAssignment>) -> bool {
    o == Some(ClusterAssignment::Noise)
}

/// The number of points not visited yet.
spec fn unvisited(lab: Seq<Option<ClusterAssignment>>) -> nat
    decreases lab.len(),
{
    if lab.len() == 0 {
        0
    } else {
        unvisited(lab.drop_last()) + if lab.last() is None { 1nat } else { 0nat }
    }
}

proof fn lemma_unvisited_update(lab: Seq<Option<ClusterAssignment>>, j: int, v: Option<ClusterAssignment>)
    requires
        0 <= j < lab.len(),
        v is Some,
    ensures
        unvisited(lab.update(j, v)) + (if lab[j] is None { 1int } else { 0int }) == unvisited(lab),
    decreases lab.len(),
{
    let u = lab.update(j, v);
    if j < lab.len() - 1 {
        lemma_unvisited_update(lab.drop_last(), j, v);
        assert(u.drop_last() =~= lab.drop_last().update(j, v));
    } else {
        assert(u.drop_last() =~= lab.drop_last());
    }
}

/// What holds of the assignment map between steps: labels, ids, the chain of
/// core points that led from each cluster's first point to each of its core
/// points, and a core neighbor of the same cluster for each border point.
spec fn consistent(
    w: Seq<Seq<bool>>,
    m: nat,
    lab: Seq<Option<ClusterAssignment>>,
    count: int,
    starts: Seq<int>,
    paths: Seq<Seq<int>>,
    anchors: Seq<int>,
) -> bool {
    let n = w.len();
    &&& lab.len() == n && paths.len() == n && anchors.len() == n && starts.len() == count
    &&& forall|x: int| 0 <= x < n && #[trigger] is_noise(lab[x]) ==> !is_core(w, m, x)
    &&& forall|x: int|
        0 <= x < n && lab[x] is Some && !is_noise(lab[x]) ==> 1 <= #[trigger] cid(lab[x]) <= count
    &&& forall|x: int| 0 <= x < n && lab[x] is None ==> #[trigger] cid(lab[x]) == 0
    &&& forall|x: int|
        0 <= x < n && is_core(w, m, x) && #[trigger] cid(lab[x]) >= 1 ==> {
            &&& is_core_path(w, m, paths[x])
            &&& paths[x][0] == starts[cid(lab[x]) - 1]
            &&& paths[x].last() == x
            &&& starts[cid(lab[x]) - 1] <= x
        }
    &&& forall|x: int|
        0 <= x < n && !is_core(w, m, x) && #[trigger] cid(lab[x]) >= 1 ==> {
            &&& 0 <= anchors[x] < n
            &&& is_core(w, m, anchors[x])
            &&& w[x][anchors[x]]
            &&& cid(lab[anchors[x]]) == cid(lab[x])
        }
    &&& forall|x: int, z: int|
        0 <= x < n && 0 <= z < n && !is_core(w, m, x) && #[trigger] cid(lab[x]) >= 1 && is_core(w, m, z)
            && #[trigger] w[x][z] && cid(lab[z]) >= 1 ==> cid(lab[x]) <= cid(lab[z])
    &&& forall|c: int|
        0 <= c < count ==> 0 <= #[trigger] starts[c] < n && is_core(w, m, starts[c])
            && cid(lab[starts[c]]) == c + 1
    &&& forall|c: int| 0 < c < count ==> #[trigger] starts[c - 1] < starts[c]
}

/// Every cluster up to `c` is complete: each neighbor of its core points is
/// in a cluster, and a core neighbor in the same one.
spec fn closed_upto(w: Seq<Seq<bool>>, m: nat, lab: Seq<Option<ClusterAssignment>>, c: int) -> bool {
    forall|x: int, y: int|
        0 <= x < w.len() && 0 <= y < w.len() && is_core(w, m, x) && 1 <= #[trigger] cid(lab[x]) <= c
            && #[trigger] w[x][y] ==> cid(lab[y]) >= 1 && (is_core(w, m, y) ==> cid(lab[y]) == cid(lab[x]))
}

proof fn lemma_finished(
    w: Seq<Seq<bool>>,
    m: nat,
    lab: Seq<Option<ClusterAssignment>>,
    l: Seq<ClusterAssignment>,
    count: int,
    starts: Seq<int>,
    paths: Seq<Seq<int>>,
    anchors: Seq<int>,
)
    requires
        is_square(w),
        is_symmetric(w),
        consistent(w, m, lab, count, starts, paths, anchors),
        closed_upto(w, m, lab, count),
        l.len() == w.len(),
        forall|x: int| 0 <= x < w.len() ==> lab[x] == Some(#[trigger] l[x]),
    ensures
        is_dbscan_labelling(w, m, l),
{
    let n = w.len();
    assert forall|x: int| 0 <= x < n implies #[trigger] label_id(l[x]) == cid(lab[x]) && (l[x]
        == ClusterAssignment::Noise <==> is_noise(lab[x])) by {
        assert(lab[x] == Some(l[x]));
    }
    assert forall|x: int| 0 <= x < n && is_core(w, m, x) implies #[trigger] cid(lab[x]) >= 1 by {
        assert(lab[x] == Some(l[x]));
        assert(!is_noise(lab[x]));
    }
    assert forall|x: int, y: int|
        0 <= x < n && 0 <= y < n && label_id(l[x]) >= 1 && #[trigger] label_id(l[x]) == #[trigger] label_id(
            l[y],
        ) implies l[x] == l[y] by {
        assert(lab[x] == Some(l[x]));
        assert(lab[y] == Some(l[y]));
    }
    assert forall|x: int|
        0 <= x < n implies (#[trigger] l[x] == ClusterAssignment::Noise <==> (!is_core(w, m, x)
        && forall|y: int| 0 <= y < n && w[x][y] ==> !is_core(w, m, y))) by {
        if l[x] == ClusterAssignment::Noise {
            assert(is_noise(lab[x]));
            assert forall|y: int| 0 <= y < n && w[x][y] implies !is_core(w, m, y) by {
                if is_core(w, m, y) {
                    assert(w[y][x] == w[x][y]);
                    assert(label_id(l[y]) >= 1);
                }
            }
        } else if !is_core(w, m, x) {
            assert(label_id(l[x]) >= 1);
            let a = anchors[x];
            assert(0 <= a < n && w[x][a] && is_core(w, m, a));
        }
    }
    assert forall|x: int, y: int|
        0 <= x < n && 0 <= y < n && is_core(w, m, x) && is_core(w, m, y) && #[trigger] w[x][y] implies l[x]
        == l[y] by {
        assert(label_id(l[x]) >= 1);
    }
    assert forall|x: int, y: int|
        0 <= x < n && 0 <= y < n && is_core(w, m, x) && is_core(w, m, y) && #[trigger] l[x]
        == #[trigger] l[y] implies core_connected(w, m, x, y) by {
        assert(label_id(l[x]) >= 1 && label_id(l[x]) == label_id(l[y]));
        let px = paths[x];
        let py = paths[y];
        lemma_reversed_path(w, m, px);
        lemma_joined_path(w, m, reversed(px), py);
        let p = reversed(px) + py.skip(1);
        assert(is_core_path(w, m, p) && p[0] == x && p.last() == y);
    }
    assert forall|x: int| 0 <= x < n && is_core(w, m, x) implies {
        &&& #[trigger] label_id(l[x]) >= 1
        &&& label_id(l[x]) > 1 ==> exists|z: int|
            0 <= z < x && is_core(w, m, z) && #[trigger] label_id(l[z]) == label_id(l[x]) - 1
    } by {
        let d = label_id(l[x]);
        if d > 1 {
            let z = starts[d - 2];
            assert(starts[(d - 1) - 1] < starts[d - 1]);
            assert(label_id(l[z]) == d - 1);
        }
    }
    assert forall|x: int|
        0 <= x < n && !is_core(w, m, x) && #[trigger] l[x] != ClusterAssignment::Noise implies {
        &&& exists|y: int| 0 <= y < n && is_core(w, m, y) && w[x][y] && #[trigger] l[y] == l[x]
        &&& forall|y: int|
            0 <= y < n && is_core(w, m, y) && #[trigger] w[x][y] ==> label_id(l[x]) <= label_id(l[y])
    } by {
        assert(label_id(l[x]) >= 1);
        let a = anchors[x];
        assert(cid(lab[a]) == cid(lab[x]));
        assert(label_id(l[a]) == label_id(l[x]));
        assert(l[a] == l[x]);
        assert forall|y: int| 0 <= y < n && is_core(w, m, y) && #[trigger] w[x][y] implies label_id(l[x])
            <= label_id(l[y]) by {
            assert(cid(lab[y]) >= 1);
        }
    }
}

/// Records the first label of point `j`; a point already visited keeps the
/// label it has.
pub fn assign(labels: &mut Vec<Option<ClusterAssignment>>, j: usize, label: ClusterAssignment)
    requires
        j < old(labels)@.len(),
    ensures
        final(labels)@ == if old(labels)@[j as int] is None {
            old(labels)@.update(j as int, Some(label))
        } else {
            old(labels)@
        },
{
    if labels[j].is_none() {
        labels.set(j, Some(label));
    }
}

/// Moves point `j` from noise into cluster `id`; any other label, or none,
/// stays as it is.
pub fn upgrade(labels: &mut Vec<Option<ClusterAssignment>>, j: usize, id: usize)
    requires
        j < old(labels)@.len(),
    ensures
        final(labels)@ == if old(labels)@[j as int] == Some(ClusterAssignment::Noise) {
            old(labels)@.update(j as int, Some(ClusterAssignment::Cluster(id)))
        } else {
            old(labels)@
        },
{
    match labels[j] {
        Some(ClusterAssignment::Noise) => {
            labels.set(j, Some(ClusterAssignment::Cluster(id)));
        },
        _ => {},
    }
}

/// Density-based clustering of the points of a neighborhood relation.
/// `within[i][j]` tells whether point `j` lies within epsilon of point `i`;
/// a point whose neighborhood holds at least `min_points` points is a core
/// point. Points are visited in index order; each core point not yet in a
/// cluster opens a new one, with the next id, and the cluster grows through
/// the neighborhoods of its core points. A point that no cluster reaches is
/// noise.
#[verifier::rlimit(40)]
pub fn dbscan(within: &Vec<Vec<bool>>, min_points: usize) -> (r: DBSCANResult)
    requires
        is_neighborhood_relation(rows_of(within@)),
    ensures
        is_dbscan_labelling(rows_of(within@), min_points as nat, r.cluster_assignments@),
        r.cluster_assignments@.len() == within@.len(),
        within@.len() == 0 ==> r.cluster_assignments@ == Seq::<ClusterAssignment>::empty(),
{
    let n = within.len();
    let ghost w = rows_of(within@);
    let ghost m = min_points as nat;
    let mut labels: Vec<Option<ClusterAssignment>> = Vec::new();
    for x in 0..n
        invariant
            labels@.len() == x,
            forall|y: int| 0 <= y < x ==> labels@[y] is None,
    {
        labels.push(None);
    }
    let mut cluster_number: usize = 0;
    let ghost mut starts: Seq<int> = Seq::empty();
    let ghost mut paths: Seq<Seq<int>> = Seq::new(n as nat, |x: int| seq![x]);
    let ghost mut anchors: Seq<int> = Seq::new(n as nat, |x: int| x);
    for i in 0..n
        invariant
            n == within@.len(),
            w == rows_of(within@),
            m == min_points as nat,
            is_square(w),
            is_symmetric(w),
            consistent(w, m, labels@, cluster_number as int, starts, paths, anchors),
            closed_upto(w, m, labels@, cluster_number as int),
            forall|x: int| 0 <= x < i ==> labels@[x] is Some,
            cluster_number <= i,
            forall|c: int| 0 <= c < cluster_number ==> starts[c] < i,
    {
        if labels[i].is_none() {
            let neighbors = nearest_neighbors(&within[i]);
            assert(within@[i as int]@ == w[i as int]);
            if neighbors.len() < min_points {
                assign(&mut labels, i, ClusterAssignment::Noise);
            } else {
                let ghost old_labels = labels@;
                cluster_number = cluster_number + 1;
                assign(&mut labels, i, ClusterAssignment::Cluster(cluster_number));
                proof {
                    starts = starts.push(i as int);
                    paths = paths.update(i as int, seq![i as int]);
                }
                let mut seed_set = neighbors;
                let ghost mut origin: Seq<int> = Seq::new(seed_set@.len(), |t: int| i as int);
                proof {
                    lemma_selected_contains(w[i as int], 0);
                    assert forall|x: int, y: int|
                        0 <= x < n && 0 <= y < n && is_core(w, m, x) && #[trigger] cid(labels@[x])
                            == cluster_number && #[trigger] w[x][y] implies
                        seed_set@.contains(y as usize) by {
                        if x != i {
                            assert(labels@[x] == old_labels[x]);
                        }
                        lemma_selected_contains(w[i as int], y);
                    }
                }
                let mut k: usize = 0;
                while k < seed_set.len()
                    invariant
                        n == within@.len(),
                        w == rows_of(within@),
                        m == min_points as nat,
                        is_square(w),
                        is_symmetric(w),
                        0 <= i < n,
                        consistent(w, m, labels@, cluster_number as int, starts, paths, anchors),
                        closed_upto(w, m, labels@, cluster_number - 1),
                        forall|x: int| 0 <= x < i ==> labels@[x] is Some,
                        1 <= cluster_number <= i + 1,
                        starts[cluster_number - 1] == i,
                        forall|c: int| 0 <= c < cluster_number - 1 ==> starts[c] < i,
                        origin.len() == seed_set@.len(),
                        k <= seed_set@.len(),
                        forall|t: int|
                            0 <= t < seed_set@.len() ==> #[trigger] seed_set@[t] < n && 0 <= origin[t] < n
                                && is_core(w, m, origin[t]) && cid(labels@[origin[t]]) == cluster_number
                                && w[origin[t]][seed_set@[t] as int],
                        forall|x: int, y: int|
                            0 <= x < n && 0 <= y < n && is_core(w, m, x) && #[trigger] cid(labels@[x])
                                == cluster_number && #[trigger] w[x][y] ==> seed_set@.contains(y as usize),
                        forall|t: int|
                            0 <= t < k ==> cid(labels@[#[trigger] seed_set@[t] as int]) >= 1 && (is_core(
                                w,
                                m,
                                seed_set@[t] as int,
                            ) ==> cid(labels@[seed_set@[t] as int]) == cluster_number),
                    decreases unvisited(labels@), seed_set@.len() - k,
                {
                    let j = seed_set[k];
                    let ghost jj = j as int;
                    let ghost o = origin[k as int];
                    let ghost before = labels@;
                    match labels[j] {
                        Some(ClusterAssignment::Noise) => {
                            upgrade(&mut labels, j, cluster_number);
                            proof {
                                anchors = anchors.update(jj, o);
                                lemma_unvisited_update(before, jj, labels@[jj]);
                            }
                        },
                        Some(ClusterAssignment::Cluster(_)) => {},
                        None => {
                            assign(&mut labels, j, ClusterAssignment::Cluster(cluster_number));
                            proof {
                                lemma_unvisited_update(before, jj, labels@[jj]);
                            }
                            let mut more = nearest_neighbors(&within[j]);
                            assert(within@[jj]@ == w[jj]);
                            if more.len() >= min_points {
                                proof {
                                    paths = paths.update(jj, paths[o].push(jj));
                                    origin = origin + Seq::new(more@.len(), |t: int| jj);
                                    lemma_selected_contains(w[jj], 0);
                                }
                                let ghost old_seed = seed_set@;
                                let ghost more_view = more@;
                                seed_set.append(&mut more);
                                proof {
                                    assert forall|t: int| old_seed.len() <= t < seed_set@.len() implies
                                        #[trigger] seed_set@[t] < n
                                            && w[origin[t]][seed_set@[t] as int] by {
                                        assert(seed_set@[t] == more_view[t - old_seed.len()]);
                                    }
                                    assert forall|x: int, y: int|
                                        0 <= x < n && 0 <= y < n && is_core(w, m, x)
                                            && #[trigger] cid(labels@[x]) == cluster_number
                                            && #[trigger] w[x][y] implies
                                        seed_set@.contains(y as usize) by {
                                        if x == jj {
                                            lemma_selected_contains(w[jj], y);
                                            let q = choose|q: int|
                                                0 <= q < more_view.len() && more_view[q] == y as usize;
                                            assert(seed_set@[old_seed.len() + q] == y as usize);
                                        } else {
                                            assert(labels@[x] == before[x]);
                                            assert(old_seed.contains(y as usize));
                                            let q = choose|q: int|
                                                0 <= q < old_seed.len() && old_seed[q] == y as usize;
                                            assert(seed_set@[q] == y as usize);
                                        }
                                    }
                                }
                            } else {
                                proof {
                                    anchors = anchors.update(jj, o);
                                }
                            }
                        },
                    }
                    k = k + 1;
                }
            }
        }
    }
    let mut assignments: Vec<ClusterAssignment> = Vec::new();
    for x in 0..n
        invariant
            n == labels@.len(),
            forall|y: int| 0 <= y < n ==> labels@[y] is Some,
            assignments@.len() == x,
            forall|y: int| 0 <= y < x ==> labels@[y] == Some(#[trigger] assignments@[y]),
    {
        assignments.push(labels[x].unwrap());
    }
    proof {
        lemma_finished(w, m, labels@, assignments@, cluster_number as int, starts, paths, anchors);
        assert(n == 0 ==> assignments@ =~= Seq::<ClusterAssignment>::empty());
    }
    DBSCANResult { cluster_assignments: assignments }
}

proof fn lemma_path_same_label(w: Seq<Seq<bool>>, m: nat, l: Seq<ClusterAssignment>, p: Seq<int>, k: int)
    requires
        is_square(w),
        is_dbscan_labelling(w, m, l),
        is_core_path(w, m, p),
        0 <= k < p.len(),
    ensures
        l[p[k]] == l[p[0]],
    decreases k,
{
    if k > 0 {
        lemma_path_same_label(w, m, l, p, k - 1);
        let j = k - 1;
        assert(w[p[j]][p[j + 1]]);
        assert(0 <= p[k - 1] < w.len() && is_core(w, m, p[k - 1]));
        assert(0 <= p[k] < w.len() && is_core(w, m, p[k]));
    }
}

/// Core points joined by a chain of core neighborhoods share their cluster.
pub proof fn lemma_connected_same_cluster(
    w: Seq<Seq<bool>>,
    m: nat,
    l: Seq<ClusterAssignment>,
    x: int,
    y: int,
)
    requires
        is_square(w),
        is_dbscan_labelling(w, m, l),
        core_connected(w, m, x, y),
    ensures
        l[x] == l[y],
{
    let p = choose|p: Seq<int>| #[trigger] is_core_path(w, m, p) && p[0] == x && p.last() == y;
    lemma_path_same_label(w, m, l, p, p.len() - 1);
}

proof fn lemma_earlier_ids(w: Seq<Seq<bool>>, m: nat, l: Seq<ClusterAssignment>, y: int, c: int)
    requires
        is_dbscan_labelling(w, m, l),
        0 <= y < w.len(),
        is_core(w, m, y),
        1 <= c <= label_id(l[y]),
    ensures
        exists|z: int| 0 <= z <= y && is_core(w, m, z) && #[trigger] label_id(l[z]) == c,
    decreases label_id(l[y]) - c,
{
    if c < label_id(l[y]) {
        let z = choose|z: int|
            0 <= z < y && is_core(w, m, z) && #[trigger] label_id(l[z]) == label_id(l[y]) - 1;
        lemma_earlier_ids(w, m, l, z, c);
        let z2 = choose|z2: int| 0 <= z2 <= z && is_core(w, m, z2) && #[trigger] label_id(l[z2]) == c;
        assert(0 <= z2 <= y);
    } else {
        assert(label_id(l[y]) == c);
    }
}

proof fn lemma_core_labels_agree(
    w: Seq<Seq<bool>>,
    m: nat,
    l1: Seq<ClusterAssignment>,
    l2: Seq<ClusterAssignment>,
    x: int,
)
    requires
        is_square(w),
        is_dbscan_labelling(w, m, l1),
        is_dbscan_labelling(w, m, l2),
        0 <= x < w.len(),
    ensures
        forall|y: int| 0 <= y <= x && is_core(w, m, y) ==> #[trigger] l1[y] == l2[y],
    decreases x,
{
    if x > 0 {
        lemma_core_labels_agree(w, m, l1, l2, x - 1);
    }
    if is_core(w, m, x) {
        let c1 = label_id(l1[x]);
        let c2 = label_id(l2[x]);
        assert(c1 >= 1 && c2 >= 1);
        if exists|y: int| 0 <= y < x && is_core(w, m, y) && #[trigger] l1[y] == l1[x] {
            let y = choose|y: int| 0 <= y < x && is_core(w, m, y) && #[trigger] l1[y] == l1[x];
            lemma_connected_same_cluster(w, m, l2, y, x);
        } else if exists|y: int| 0 <= y < x && is_core(w, m, y) && #[trigger] l2[y] == l2[x] {
            let y = choose|y: int| 0 <= y < x && is_core(w, m, y) && #[trigger] l2[y] == l2[x];
            lemma_connected_same_cluster(w, m, l1, y, x);
        } else if c1 < c2 {
            let z = choose|z: int| 0 <= z < x && is_core(w, m, z) && #[trigger] label_id(l2[z]) == c2 - 1;
            assert(l1[z] == l2[z]);
            lemma_earlier_ids(w, m, l1, z, c1);
            let z2 = choose|z2: int| 0 <= z2 <= z && is_core(w, m, z2) && #[trigger] label_id(l1[z2]) == c1;
            assert(l1[z2] == l1[x]);
        } else if c2 < c1 {
            let z = choose|z: int| 0 <= z < x && is_core(w, m, z) && #[trigger] label_id(l1[z]) == c1 - 1;
            assert(l1[z] == l2[z]);
            lemma_earlier_ids(w, m, l2, z, c2);
            let z2 = choose|z2: int| 0 <= z2 <= z && is_core(w, m, z2) && #[trigger] label_id(l2[z2]) == c2;
            assert(l2[z2] == l2[x]);
        }
    }
}

/// There is one DBSCAN labelling of a given relation and `min_points`: every
/// run on the same input gives the same labels.
pub proof fn lemma_labelling_unique(
    w: Seq<Seq<bool>>,
    m: nat,
    l1: Seq<ClusterAssignment>,
    l2: Seq<ClusterAssignment>,
)
    requires
        is_square(w),
        is_symmetric(w),
        is_dbscan_labelling(w, m, l1),
        is_dbscan_labelling(w, m, l2),
    ensures
        l1 == l2,
{
    let n = w.len();
    if n > 0 {
        lemma_core_labels_agree(w, m, l1, l2, n - 1);
    }
    assert forall|x: int| 0 <= x < n implies #[trigger] l1[x] == l2[x] by {
        if !is_core(w, m, x) {
            lemma_border_labels_agree(w, m, l1, l2, x);
        }
    }
    assert(l1 =~= l2);
}

proof fn lemma_border_labels_agree(
    w: Seq<Seq<bool>>,
    m: nat,
    l1: Seq<ClusterAssignment>,
    l2: Seq<ClusterAssignment>,
    x: int,
)
    requires
        noise_exactly(w, m, l1),
        noise_exactly(w, m, l2),
        borders_join_first_cluster(w, m, l1),
        borders_join_first_cluster(w, m, l2),
        forall|y: int| 0 <= y < w.len() && is_core(w, m, y) ==> #[trigger] l1[y] == l2[y],
        0 <= x < w.len(),
        !is_core(w, m, x),
    ensures
        l1[x] == l2[x],
{
    let n = w.len();
    if l1[x] != ClusterAssignment::Noise {
        assert(l2[x] != ClusterAssignment::Noise);
        let y1 = choose|y: int| 0 <= y < n && is_core(w, m, y) && w[x][y] && #[trigger] l1[y] == l1[x];
        let y2 = choose|y: int| 0 <= y < n && is_core(w, m, y) && w[x][y] && #[trigger] l2[y] == l2[x];
        assert(l1[y1] == l2[y1] && l1[y2] == l2[y2]);
        assert(label_id(l1[x]) <= label_id(l1[y2]));
        assert(label_id(l2[x]) <= label_id(l2[y1]));
    } else {
        assert(l2[x] == ClusterAssignment::Noise);
    }
}

} // verus!
