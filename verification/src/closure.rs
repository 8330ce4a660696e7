//! Transitive closure of a relation on `0..n`, given as a boolean matrix, by
//! the fixpoint iteration: keep adding `k -> s` for `k -> d -> s` until a full
//! pass adds nothing.
use vstd::prelude::*;

verus! {

/// `m` is an `n`-by-`n` matrix.
pub open spec fn square(m: Seq<Seq<bool>>) -> bool {
    forall|i: int| 0 <= i < m.len() ==> #[trigger] m[i].len() == m.len()
}

/// `p` is a path of at least one step in the relation `m`.
pub open spec fn is_path(m: Seq<Seq<bool>>, p: Seq<int>) -> bool {
    &&& p.len() >= 2
    &&& forall|k: int| 0 <= k < p.len() ==> 0 <= #[trigger] p[k] < m.len()
    &&& forall|k: int| 0 <= k < p.len() - 1 ==> #[trigger] m[p[k]][p[k + 1]]
}

/// `j` is reachable from `i` in one or more steps of `m`.
pub open spec fn reaches(m: Seq<Seq<bool>>, i: int, j: int) -> bool {
    exists|p: Seq<int>| #[trigger] is_path(m, p) && p[0] == i && p.last() == j
}

/// Number of `false` entries of a row.
pub open spec fn row_gaps(r: Seq<bool>) -> nat
    decreases r.len(),
{
    if r.len() == 0 {
        0
    } else {
        row_gaps(r.drop_last()) + if r.last() { 0nat } else { 1nat }
    }
}

/// Number of `false` entries of a matrix.
pub open spec fn gaps(m: Seq<Seq<bool>>) -> nat
    decreases m.len(),
{
    if m.len() == 0 {
        0
    } else {
        gaps(m.drop_last()) + row_gaps(m.last())
    }
}

proof fn lemma_row_gaps_set(r: Seq<bool>, j: int)
    requires
        0 <= j < r.len(),
        !r[j],
    ensures
        row_gaps(r.update(j, true)) + 1 == row_gaps(r),
    decreases r.len(),
{
    if j < r.len() - 1 {
        lemma_row_gaps_set(r.drop_last(), j);
        assert(r.update(j, true).drop_last() =~= r.drop_last().update(j, true));
    } else {
        assert(r.update(j, true).drop_last() =~= r.drop_last());
    }
}

proof fn lemma_gaps_set(m: Seq<Seq<bool>>, i: int, r: Seq<bool>)
    requires
        0 <= i < m.len(),
        row_gaps(r) + 1 == row_gaps(m[i]),
    ensures
        gaps(m.update(i, r)) + 1 == gaps(m),
    decreases m.len(),
{
    if i < m.len() - 1 {
        lemma_gaps_set(m.drop_last(), i, r);
        assert(m.update(i, r).drop_last() =~= m.drop_last().update(i, r));
    } else {
        assert(m.update(i, r).drop_last() =~= m.drop_last());
    }
}

proof fn lemma_reach_step(m: Seq<Seq<bool>>, i: int, j: int)
    requires
        0 <= i < m.len(),
        0 <= j < m.len(),
        m[i][j],
    ensures
        reaches(m, i, j),
{
    let p = seq![i, j];
    assert(is_path(m, p));
}

proof fn lemma_reach_trans(m: Seq<Seq<bool>>, a: int, b: int, c: int)
    requires
        reaches(m, a, b),
        reaches(m, b, c),
    ensures
        reaches(m, a, c),
{
    let p = choose|p: Seq<int>| #[trigger] is_path(m, p) && p[0] == a && p.last() == b;
    let q = choose|q: Seq<int>| #[trigger] is_path(m, q) && q[0] == b && q.last() == c;
    let r = p + q.drop_first();
    assert forall|k: int| 0 <= k < r.len() implies 0 <= #[trigger] r[k] < m.len() by {
        if k >= p.len() {
            assert(r[k] == q[k - p.len() + 1]);
        }
    }
    assert forall|k: int| 0 <= k < r.len() - 1 implies #[trigger] m[r[k]][r[k + 1]] by {
        if k < p.len() - 1 {
            assert(r[k] == p[k] && r[k + 1] == p[k + 1]);
        } else if k == p.len() - 1 {
            let z: int = 0;
            assert(r[k] == q[z] && r[k + 1] == q[z + 1]);
        } else {
            let z = k - p.len() + 1;
            assert(r[k] == q[z] && r[k + 1] == q[z + 1]);
        }
    }
    assert(is_path(m, r) && r[0] == a && r.last() == c);
}

/// A relation that contains `m0` and is closed under composition contains
/// everything reachable in `m0`.
proof fn lemma_closed_contains_reach(m0: Seq<Seq<bool>>, m: Seq<Seq<bool>>, p: Seq<int>)
    requires
        m.len() == m0.len(),
        square(m),
        is_path(m0, p),
        forall|i: int, j: int| 0 <= i < m.len() && 0 <= j < m.len() && #[trigger] m0[i][j] ==> m[i][j],
        forall|k: int, d: int, s: int|
            0 <= k < m.len() && 0 <= d < m.len() && 0 <= s < m.len() && #[trigger] m[k][d] && #[trigger] m[d][s]
                ==> m[k][s],
    ensures
        m[p[0]][p.last()],
    decreases p.len(),
{
    if p.len() > 2 {
        let q = p.drop_last();
        assert forall|k: int| 0 <= k < q.len() implies 0 <= #[trigger] q[k] < m0.len() by {
            assert(q[k] == p[k]);
        }
        assert forall|k: int| 0 <= k < q.len() - 1 implies #[trigger] m0[q[k]][q[k + 1]] by {
            assert(q[k] == p[k] && q[k + 1] == p[k + 1]);
        }
        lemma_closed_contains_reach(m0, m, q);
        let a = p[0];
        let d = p[p.len() - 2];
        let s = p.last();
        let z = p.len() - 2;
        assert(m0[p[z]][p[z + 1]]);
        assert(m[d][s]);
        assert(m[a][d]);
    } else {
        let z: int = 0;
        assert(m0[p[z]][p[z + 1]]);
    }
}

/// Close the relation `m` under transitivity: afterwards `m[i][j]` holds
/// exactly when `j` is reachable from `i` in one or more steps of the relation
/// as it was on entry.
pub fn close_transitively(m: &mut Vec<Vec<bool>>)
    requires
        forall|i: int| 0 <= i < old(m)@.len() ==> #[trigger] old(m)@[i]@.len() == old(m)@.len(),
    ensures
        final(m)@.len() == old(m)@.len(),
        forall|i: int| 0 <= i < final(m)@.len() ==> #[trigger] final(m)@[i]@.len() == final(m)@.len(),
        forall|i: int, j: int|
            0 <= i < final(m)@.len() && 0 <= j < final(m)@.len() ==> (#[trigger] final(m)@[i]@[j] <==> reaches(
                old(m)@.map_values(|r: Vec<bool>| r@),
                i,
                j,
            )),
{
    let ghost m0 = old(m)@.map_values(|r: Vec<bool>| r@);
    let n = m.len();
    proof {
        assert forall|i: int, j: int| 0 <= i < n && 0 <= j < n && #[trigger] m@[i]@[j] implies reaches(m0, i, j) by {
            assert(m0[i] == m@[i]@);
            lemma_reach_step(m0, i, j);
        }
    }
    loop
        invariant
            n == m@.len() == m0.len(),
            forall|i: int| 0 <= i < n ==> #[trigger] m@[i]@.len() == n,
            forall|i: int| 0 <= i < n ==> #[trigger] m0[i].len() == n,
            forall|i: int, j: int| 0 <= i < n && 0 <= j < n && #[trigger] m0[i][j] ==> m@[i]@[j],
            forall|i: int, j: int| 0 <= i < n && 0 <= j < n && #[trigger] m@[i]@[j] ==> reaches(m0, i, j),
        ensures
            n == m@.len(),
            forall|i: int| 0 <= i < n ==> #[trigger] m@[i]@.len() == n,
            forall|i: int, j: int| 0 <= i < n && 0 <= j < n ==> (#[trigger] m@[i]@[j] <==> reaches(m0, i, j)),
        decreases gaps(m@.map_values(|r: Vec<bool>| r@)),
    {
        let ghost start = m@.map_values(|r: Vec<bool>| r@);
        let mut changed = false;
        let mut k: usize = 0;
        while k < n
            invariant
                n == m@.len() == m0.len() == start.len(),
                forall|i: int| 0 <= i < n ==> #[trigger] m@[i]@.len() == n,
                forall|i: int| 0 <= i < n ==> #[trigger] m0[i].len() == n,
                forall|i: int| 0 <= i < n ==> #[trigger] start[i].len() == n,
                forall|i: int, j: int| 0 <= i < n && 0 <= j < n && #[trigger] m0[i][j] ==> m@[i]@[j],
                forall|i: int, j: int| 0 <= i < n && 0 <= j < n && #[trigger] m@[i]@[j] ==> reaches(m0, i, j),
                k <= n,
                changed ==> gaps(m@.map_values(|r: Vec<bool>| r@)) < gaps(start),
                !changed ==> m@.map_values(|r: Vec<bool>| r@) == start,
                !changed ==> forall|a: int, d: int, s: int|
                    0 <= a < k && 0 <= d < n && 0 <= s < n && #[trigger] start[a][d] && #[trigger] start[d][s]
                        ==> start[a][s],
            decreases n - k,
        {
            let mut d: usize = 0;
            while d < n
                invariant
                    n == m@.len() == m0.len() == start.len(),
                    forall|i: int| 0 <= i < n ==> #[trigger] m@[i]@.len() == n,
                    forall|i: int| 0 <= i < n ==> #[trigger] m0[i].len() == n,
                    forall|i: int| 0 <= i < n ==> #[trigger] start[i].len() == n,
                    forall|i: int, j: int| 0 <= i < n && 0 <= j < n && #[trigger] m0[i][j] ==> m@[i]@[j],
                    forall|i: int, j: int| 0 <= i < n && 0 <= j < n && #[trigger] m@[i]@[j] ==> reaches(m0, i, j),
                    k < n,
                    d <= n,
                    changed ==> gaps(m@.map_values(|r: Vec<bool>| r@)) < gaps(start),
                    !changed ==> m@.map_values(|r: Vec<bool>| r@) == start,
                    !changed ==> forall|a: int, dd: int, s: int|
                        0 <= a < k && 0 <= dd < n && 0 <= s < n && #[trigger] start[a][dd] && #[trigger] start[dd][s]
                            ==> start[a][s],
                    !changed ==> forall|dd: int, s: int|
                        0 <= dd < d && 0 <= s < n && #[trigger] start[k as int][dd] && #[trigger] start[dd][s]
                            ==> start[k as int][s],
                decreases n - d,
            {
                if m[k][d] {
                    let mut s: usize = 0;
                    while s < n
                        invariant
                            n == m@.len() == m0.len() == start.len(),
                            forall|i: int| 0 <= i < n ==> #[trigger] m@[i]@.len() == n,
                            forall|i: int| 0 <= i < n ==> #[trigger] m0[i].len() == n,
                            forall|i: int| 0 <= i < n ==> #[trigger] start[i].len() == n,
                            forall|i: int, j: int| 0 <= i < n && 0 <= j < n && #[trigger] m0[i][j] ==> m@[i]@[j],
                            forall|i: int, j: int|
                                0 <= i < n && 0 <= j < n && #[trigger] m@[i]@[j] ==> reaches(m0, i, j),
                            k < n,
                            d < n,
                            s <= n,
                            m@[k as int]@[d as int],
                            changed ==> gaps(m@.map_values(|r: Vec<bool>| r@)) < gaps(start),
                            !changed ==> m@.map_values(|r: Vec<bool>| r@) == start,
                            !changed ==> forall|a: int, dd: int, t: int|
                                0 <= a < k && 0 <= dd < n && 0 <= t < n && #[trigger] start[a][dd] && #[trigger] start[dd][t]
                                    ==> start[a][t],
                            !changed ==> forall|dd: int, t: int|
                                0 <= dd < d && 0 <= t < n && #[trigger] start[k as int][dd] && #[trigger] start[dd][t]
                                    ==> start[k as int][t],
                            !changed ==> forall|t: int| 0 <= t < s && #[trigger] start[d as int][t] ==> start[k as int][t],
                        decreases n - s,
                    {
                        if m[d][s] && !m[k][s] {
                            let ghost before = m@.map_values(|r: Vec<bool>| r@);
                            proof {
                                lemma_reach_trans(m0, k as int, d as int, s as int);
                                assert(before[k as int] == m@[k as int]@);
                                lemma_row_gaps_set(before[k as int], s as int);
                                lemma_gaps_set(before, k as int, before[k as int].update(s as int, true));
                            }
                            let mut row = m[k].clone();
                            row.set(s, true);
                            m.set(k, row);
                            proof {
                                assert(m@.map_values(|r: Vec<bool>| r@) =~= before.update(
                                    k as int,
                                    before[k as int].update(s as int, true),
                                ));
                            }
                            changed = true;
                        }
                        s = s + 1;
                    }
                }
                d = d + 1;
            }
            k = k + 1;
        }
        if !changed {
            proof {
                let mm = m@.map_values(|r: Vec<bool>| r@);
                assert forall|i: int, j: int|
                    0 <= i < n && 0 <= j < n && reaches(m0, i, j) implies #[trigger] m@[i]@[j] by {
                    let p = choose|p: Seq<int>| #[trigger] is_path(m0, p) && p[0] == i && p.last() == j;
                    assert forall|a: int, b: int| 0 <= a < mm.len() && 0 <= b < mm.len() && #[trigger] m0[a][b] implies mm[a][b] by {
                        assert(mm[a] == m@[a]@);
                    }
                    assert forall|a: int| 0 <= a < mm.len() implies #[trigger] mm[a].len() == mm.len() by {
                        assert(mm[a] == m@[a]@);
                    }
                    lemma_closed_contains_reach(m0, mm, p);
                    assert(mm[i] == m@[i]@);
                }
            }
            break;
        }
    }
}

/// The closure is transitive: what is reachable from something reachable is
/// reachable.
pub proof fn law_reach_transitive(m: Seq<Seq<bool>>, a: int, b: int, c: int)
    requires
        reaches(m, a, b),
        reaches(m, b, c),
    ensures
        reaches(m, a, c),
{
    lemma_reach_trans(m, a, b, c);
}

} // verus!
