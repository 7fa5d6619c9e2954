use vstd::prelude::*;

verus! {

/// The indices `j` with `row[j]`, in increasing order.
pub open spec fn selected(row: Seq<bool>) -> Seq<usize>
    decreases row.len(),
{
    if row.len() == 0 {
        Seq::empty()
    } else {
        let rest = selected(row.drop_last());
        if row.last() {
            rest.push((row.len() - 1) as usize)
        } else {
            rest
        }
    }
}

/// Membership in `selected`: exactly the positions that hold `true`.
pub proof fn lemma_selected_contains(row: Seq<bool>, j: int)
    requires
        row.len() <= usize::MAX,
    ensures
        selected(row).contains(j as usize) && 0 <= j <= usize::MAX <==> (0 <= j < row.len() && row[j]),
        forall|k: int|
            0 <= k < selected(row).len() ==> selected(row)[k] < row.len() && row[selected(row)[k] as int],
    decreases row.len(),
{
    if row.len() > 0 {
        lemma_selected_contains(row.drop_last(), j);
        let rest = selected(row.drop_last());
        if row.last() {
            let s = rest.push((row.len() - 1) as usize);
            if 0 <= j <= usize::MAX && rest.contains(j as usize) {
                let k = choose|k: int| 0 <= k < rest.len() && rest[k] == j as usize;
                assert(s[k] == j as usize);
            }
            if j == row.len() - 1 {
                assert(s[s.len() - 1] == j as usize);
            }
        }
    }
}

/// Neighborhood query over one row of a neighborhood relation: `row[j]` tells
/// whether point `j` lies within epsilon of the query point. The result lists
/// the indices of those points in the order of the point set.
pub fn nearest_neighbors(row: &Vec<bool>) -> (r: Vec<usize>)
    ensures
        r@ == selected(row@),
{
    let mut out: Vec<usize> = Vec::new();
    let n = row.len();
    for j in 0..n
        invariant
            n == row@.len(),
            out@ == selected(row@.subrange(0, j as int)),
    {
        let ghost pre = row@.subrange(0, j as int);
        let ghost next = row@.subrange(0, j as int + 1);
        assert(next.drop_last() =~= pre);
        if row[j] {
            out.push(j);
        }
    }
    assert(row@.subrange(0, n as int) =~= row@);
    out
}

} // verus!
