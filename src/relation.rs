use vstd::prelude::*;

use crate::neighborhood::{lemma_selected_contains, selected};

verus! {

/// The neighborhood relation of a point set as a matrix of rows:
/// `w[i][j]` holds when point `j` lies within epsilon of point `i`.
pub open spec fn rows_of(within: Seq<Vec<bool>>) -> Seq<Seq<bool>> {
    within.map_values(|row: Vec<bool>| row@)
}

/// Every row has one entry per point.
pub open spec fn is_square(w: Seq<Seq<bool>>) -> bool {
    forall|i: int| 0 <= i < w.len() ==> #[trigger] w[i].len() == w.len()
}

/// The relation that a symmetric metric gives: `i` is near `j` exactly when
/// `j` is near `i`.
pub open spec fn is_symmetric(w: Seq<Seq<bool>>) -> bool {
    forall|i: int, j: int| 0 <= i < w.len() && 0 <= j < w.len() ==> #[trigger] w[i][j] == w[j][i]
}

/// Every point is near itself (its distance to itself is zero).
pub open spec fn is_reflexive(w: Seq<Seq<bool>>) -> bool {
    forall|i: int| 0 <= i < w.len() ==> #[trigger] w[i][i]
}

/// A relation that a metric and a radius can give.
pub open spec fn is_neighborhood_relation(w: Seq<Seq<bool>>) -> bool {
    is_square(w) && is_symmetric(w)
}

/// The number of points in the neighborhood of `i`, `i` itself included
/// when it is near itself.
pub open spec fn neighborhood_size(w: Seq<Seq<bool>>, i: int) -> nat {
    selected(w[i]).len()
}

/// A core point: one whose neighborhood holds at least `min_points` points.
pub open spec fn is_core(w: Seq<Seq<bool>>, min_points: nat, i: int) -> bool {
    neighborhood_size(w, i) >= min_points
}

/// A chain of core points, each near the next.
pub open spec fn is_core_path(w: Seq<Seq<bool>>, min_points: nat, p: Seq<int>) -> bool {
    &&& p.len() > 0
    &&& forall|k: int| 0 <= k < p.len() ==> 0 <= #[trigger] p[k] < w.len() && is_core(w, min_points, p[k])
    &&& forall|k: int| 0 <= k < p.len() - 1 ==> #[trigger] w[p[k]][p[k + 1]]
}

/// Core points `x` and `y` are joined by a chain of core neighborhoods.
pub open spec fn core_connected(w: Seq<Seq<bool>>, min_points: nat, x: int, y: int) -> bool {
    exists|p: Seq<int>| #[trigger] is_core_path(w, min_points, p) && p[0] == x && p.last() == y
}

/// The same chain walked backwards.
pub open spec fn reversed(p: Seq<int>) -> Seq<int> {
    Seq::new(p.len(), |k: int| p[p.len() - 1 - k])
}

/// A chain walked backwards is a chain, as the relation is symmetric.
pub proof fn lemma_reversed_path(w: Seq<Seq<bool>>, min_points: nat, p: Seq<int>)
    requires
        is_symmetric(w),
        is_core_path(w, min_points, p),
    ensures
        is_core_path(w, min_points, reversed(p)),
        reversed(p)[0] == p.last(),
        reversed(p).last() == p[0],
{
    let r = reversed(p);
    assert forall|k: int| 0 <= k < r.len() - 1 implies #[trigger] w[r[k]][r[k + 1]] by {
        let a = p.len() - 2 - k;
        assert(w[p[a]][p[a + 1]]);
        assert(r[k] == p[a + 1] && r[k + 1] == p[a]);
    }
    assert forall|k: int| 0 <= k < r.len() implies
        0 <= #[trigger] r[k] < w.len() && is_core(w, min_points, r[k]) by {
        assert(r[k] == p[p.len() - 1 - k]);
    }
}

/// Two chains where the first ends where the second starts make one chain.
pub proof fn lemma_joined_path(w: Seq<Seq<bool>>, min_points: nat, p: Seq<int>, q: Seq<int>)
    requires
        is_core_path(w, min_points, p),
        is_core_path(w, min_points, q),
        p.last() == q[0],
    ensures
        is_core_path(w, min_points, p + q.skip(1)),
        (p + q.skip(1))[0] == p[0],
        (p + q.skip(1)).last() == q.last(),
{
    let r = p + q.skip(1);
    assert forall|k: int| 0 <= k < r.len() implies
        0 <= #[trigger] r[k] < w.len() && is_core(w, min_points, r[k]) by {
        if k >= p.len() {
            assert(r[k] == q[k - p.len() + 1]);
        } else {
            assert(r[k] == p[k]);
        }
    }
    assert forall|k: int| 0 <= k < r.len() - 1 implies #[trigger] w[r[k]][r[k + 1]] by {
        if k >= p.len() {
            assert(r[k] == q[k - p.len() + 1] && r[k + 1] == q[k - p.len() + 2]);
        } else if k == p.len() - 1 {
            assert(r[k] == q[0] && r[k + 1] == q[1]);
        } else {
            assert(r[k] == p[k] && r[k + 1] == p[k + 1]);
        }
    }
    if q.len() > 1 {
        assert(r.last() == q[q.len() - 1]);
    }
}

/// A point of the set is in its own neighborhood, as its distance to itself
/// is zero.
pub proof fn lemma_self_membership(w: Seq<Seq<bool>>, i: int)
    requires
        is_square(w),
        is_reflexive(w),
        w.len() <= usize::MAX,
        0 <= i < w.len(),
    ensures
        selected(w[i]).contains(i as usize),
{
    lemma_selected_contains(w[i], i);
}

/// Whether `within` is a neighborhood relation: square and symmetric.
pub fn check_relation(within: &Vec<Vec<bool>>) -> (r: bool)
    ensures
        r == is_neighborhood_relation(rows_of(within@)),
{
    let n = within.len();
    let ghost w = rows_of(within@);
    for i in 0..n
        invariant
            n == within@.len(),
            w == rows_of(within@),
            forall|a: int| 0 <= a < i ==> #[trigger] w[a].len() == n,
    {
        if within[i].len() != n {
            assert(w[i as int].len() != w.len());
            return false;
        }
    }
    for i in 0..n
        invariant
            n == within@.len(),
            w == rows_of(within@),
            is_square(w),
            forall|a: int, b: int| 0 <= a < i && 0 <= b < n ==> #[trigger] w[a][b] == w[b][a],
    {
        for j in 0..n
            invariant
                n == within@.len(),
                w == rows_of(within@),
                is_square(w),
                0 <= i < n,
                forall|a: int, b: int| 0 <= a < i && 0 <= b < n ==> #[trigger] w[a][b] == w[b][a],
                forall|b: int| 0 <= b < j ==> #[trigger] w[i as int][b] == w[b][i as int],
        {
            assert(within@[i as int]@ == w[i as int] && within@[j as int]@ == w[j as int]);
            if within[i][j] != within[j][i] {
                assert(w[i as int][j as int] != w[j as int][i as int]);
                return false;
            }
        }
    }
    true
}

} // verus!
