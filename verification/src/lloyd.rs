//! Why refinement makes progress: the total within-cluster squared distance
//! never increases from one Lloyd iteration to the next.
//!
//! The assignment step can only lower each point's own term, and the update
//! step moves each center to the rounded componentwise mean of its cluster,
//! which (for rounding to nearest) minimizes the cluster's summed squared
//! distance over representable centers. The public lemma at the bottom
//! composes the two halves.

use vstd::prelude::*;
use crate::pixel::{Pixel, pixel_distance, sq, int_sum, reds, greens, blues,
    lemma_round_div_close};
use crate::kmeans::{ClusterVector, closest_center, cluster_seq, is_updated_center,
    lemma_closest_upto_properties};

verus! {

/// Every point is assigned to one of the `k` clusters.
pub open spec fn valid_assignments(cvs: Seq<ClusterVector>, k: int) -> bool {
    forall|i: int| 0 <= i < cvs.len() ==> 0 <= (#[trigger] cvs[i]).assignment < k
}

/// The total within-cluster squared distance: each point's squared distance
/// to the center of the cluster it is assigned to.
pub open spec fn total_cost(cvs: Seq<ClusterVector>, centers: Seq<Pixel>) -> int
    decreases cvs.len(),
{
    if cvs.len() == 0 {
        0
    } else {
        total_cost(cvs.drop_last(), centers) + pixel_distance(
            cvs.last().vector,
            centers[cvs.last().assignment as int],
        )
    }
}

/// The summed squared distance from a set of points to one center.
pub open spec fn cluster_cost(points: Seq<Pixel>, c: Pixel) -> int
    decreases points.len(),
{
    if points.len() == 0 {
        0
    } else {
        cluster_cost(points.drop_last(), c) + pixel_distance(points.last(), c)
    }
}

/// The total cost of the first `j` clusters, cluster by cluster.
pub open spec fn costs_upto(cvs: Seq<ClusterVector>, centers: Seq<Pixel>, j: int) -> int
    decreases j,
{
    if j <= 0 {
        0
    } else {
        costs_upto(cvs, centers, j - 1) + cluster_cost(cluster_seq(cvs, j - 1), centers[j - 1])
    }
}

/// The summed squared distance from a list of coordinates to one value.
pub open spec fn coord_cost(s: Seq<int>, v: int) -> int
    decreases s.len(),
{
    if s.len() == 0 {
        0
    } else {
        coord_cost(s.drop_last(), v) + sq(s.last() - v)
    }
}

/// The sum of the squares of a list of coordinates.
pub open spec fn int_sumsq(s: Seq<int>) -> int
    decreases s.len(),
{
    if s.len() == 0 {
        0
    } else {
        int_sumsq(s.drop_last()) + sq(s.last())
    }
}

/// Reassigning every point to its nearest center never raises the total
/// cost, whatever the previous (valid) assignment was.
pub proof fn lemma_assign_monotone(
    before: Seq<ClusterVector>,
    after: Seq<ClusterVector>,
    centers: Seq<Pixel>,
)
    requires
        1 <= centers.len(),
        after.len() == before.len(),
        valid_assignments(before, centers.len() as int),
        forall|i: int|
            0 <= i < before.len() ==> (#[trigger] after[i]).vector == before[i].vector,
        forall|i: int|
            0 <= i < before.len() ==> (#[trigger] after[i]).assignment as int == closest_center(
                before[i].vector,
                centers,
            ),
    ensures
        total_cost(after, centers) <= total_cost(before, centers),
    decreases before.len(),
{
    if before.len() > 0 {
        let b1 = before.drop_last();
        let a1 = after.drop_last();
        lemma_assign_monotone(b1, a1, centers);
        let p = before.last().vector;
        lemma_closest_upto_properties(p, centers, centers.len() as int);
        assert(after.last().vector == p);
        assert(pixel_distance(p, centers[after.last().assignment as int]) <= pixel_distance(
            p,
            centers[before.last().assignment as int],
        ));
    }
}

/// Appending one point to a cluster adds its distance to the cluster cost.
proof fn lemma_cluster_cost_push(points: Seq<Pixel>, v: Pixel, c: Pixel)
    ensures
        cluster_cost(points.push(v), c) == cluster_cost(points, c) + pixel_distance(v, c),
{
    assert(points.push(v).drop_last() =~= points);
}

/// Appending one point raises the cluster-by-cluster total by exactly that
/// point's term (it lands in one cluster and leaves the others unchanged).
proof fn lemma_costs_upto_snoc(
    cvs: Seq<ClusterVector>,
    cv: ClusterVector,
    centers: Seq<Pixel>,
    j: int,
)
    ensures
        costs_upto(cvs.push(cv), centers, j) == costs_upto(cvs, centers, j) + if 0
            <= cv.assignment < j {
            pixel_distance(cv.vector, centers[cv.assignment as int])
        } else {
            0int
        },
    decreases j,
{
    if j > 0 {
        lemma_costs_upto_snoc(cvs, cv, centers, j - 1);
        crate::kmeans::lemma_cluster_seq_push(cvs, cv, j - 1);
        if cv.assignment == j - 1 {
            lemma_cluster_cost_push(cluster_seq(cvs, j - 1), cv.vector, centers[j - 1]);
        }
    }
}

/// The total cost equals the sum of the per-cluster costs.
proof fn lemma_total_cost_decomposition(cvs: Seq<ClusterVector>, centers: Seq<Pixel>, k: int)
    requires
        valid_assignments(cvs, k),
        0 <= k,
    ensures
        total_cost(cvs, centers) == costs_upto(cvs, centers, k),
    decreases cvs.len(),
{
    if cvs.len() == 0 {
        assert forall|j: int| 0 <= j <= k implies costs_upto(cvs, centers, j) == 0 by {
            lemma_costs_upto_empty(cvs, centers, j);
        }
    } else {
        let cvs1 = cvs.drop_last();
        let cv = cvs.last();
        assert(valid_assignments(cvs1, k));
        lemma_total_cost_decomposition(cvs1, centers, k);
        assert(cvs =~= cvs1.push(cv));
        lemma_costs_upto_snoc(cvs1, cv, centers, k);
    }
}

/// With no points, every cluster is empty and the total is zero.
proof fn lemma_costs_upto_empty(cvs: Seq<ClusterVector>, centers: Seq<Pixel>, j: int)
    requires
        cvs.len() == 0,
    ensures
        costs_upto(cvs, centers, j) == 0,
    decreases j,
{
    if j > 0 {
        lemma_costs_upto_empty(cvs, centers, j - 1);
    }
}

/// A cluster's cost is the sum of its three per-coordinate costs.
proof fn lemma_cluster_cost_coords(points: Seq<Pixel>, c: Pixel)
    ensures
        cluster_cost(points, c) == coord_cost(reds(points), c.r as int) + coord_cost(
            greens(points),
            c.g as int,
        ) + coord_cost(blues(points), c.b as int),
    decreases points.len(),
{
    if points.len() > 0 {
        lemma_cluster_cost_coords(points.drop_last(), c);
        assert(reds(points).drop_last() =~= reds(points.drop_last()));
        assert(greens(points).drop_last() =~= greens(points.drop_last()));
        assert(blues(points).drop_last() =~= blues(points.drop_last()));
        assert(reds(points).last() == points.last().r as int);
        assert(greens(points).last() == points.last().g as int);
        assert(blues(points).last() == points.last().b as int);
    }
}

/// The closed form of a coordinate cost in terms of the sum and the sum of
/// squares: `sum((x - v)^2) == sum(x^2) - 2*v*sum(x) + n*v^2`.
proof fn lemma_coord_cost_identity(s: Seq<int>, v: int)
    ensures
        coord_cost(s, v) == int_sumsq(s) - 2 * v * int_sum(s) + s.len() * sq(v),
    decreases s.len(),
{
    if s.len() == 0 {
    } else {
        let s1 = s.drop_last();
        let x = s.last();
        lemma_coord_cost_identity(s1, v);
        assert(int_sum(s) == int_sum(s1) + x);
        assert(int_sumsq(s) == int_sumsq(s1) + sq(x));
        assert(sq(x - v) == sq(x) - 2 * v * x + sq(v)) by (nonlinear_arith);
        assert(2 * v * (int_sum(s1) + x) == 2 * v * int_sum(s1) + 2 * v * x) by (nonlinear_arith);
        assert((s1.len() + 1) * sq(v) == s1.len() * sq(v) + sq(v)) by (nonlinear_arith);
        assert(s.len() == s1.len() + 1);
    }
}

/// A value within half a step of the exact mean minimizes the coordinate
/// cost over the integers: no other value does better.
proof fn lemma_rounded_mean_minimizes(s: Seq<int>, c_new: int, c_old: int)
    requires
        s.len() >= 1,
        -(s.len() as int) < 2 * ((s.len() as int) * c_new - int_sum(s)) <= s.len() as int,
    ensures
        coord_cost(s, c_new) <= coord_cost(s, c_old),
{
    let n = s.len() as int;
    let total = int_sum(s);
    let q = int_sumsq(s);
    lemma_coord_cost_identity(s, c_new);
    lemma_coord_cost_identity(s, c_old);
    let a = n * c_new - total;
    let b = n * c_old - total;
    if c_new == c_old {
    } else {
        assert(b - a == n * (c_old - c_new)) by (nonlinear_arith)
            requires
                a == n * c_new - total,
                b == n * c_old - total,
        ;
        assert(n * (c_old - c_new) >= n || n * (c_old - c_new) <= -n) by (nonlinear_arith)
            requires
                n >= 1,
                c_old != c_new,
        ;
        assert(2 * b >= n || 2 * b <= -n);
        assert((2 * a) * (2 * a) <= n * n) by (nonlinear_arith)
            requires
                -n < 2 * a <= n,
                n >= 1,
        ;
        assert(n * n <= (2 * b) * (2 * b)) by (nonlinear_arith)
            requires
                2 * b >= n || 2 * b <= -n,
                n >= 0,
        ;
        assert((2 * a) * (2 * a) == 4 * (a * a) && (2 * b) * (2 * b) == 4 * (b * b))
            by (nonlinear_arith);
        assert(a * a <= b * b);
        let d_new = n * sq(c_new) - 2 * c_new * total;
        let d_old = n * sq(c_old) - 2 * c_old * total;
        assert(coord_cost(s, c_new) == q - 2 * c_new * total + n * sq(c_new));
        assert(coord_cost(s, c_old) == q - 2 * c_old * total + n * sq(c_old));
        assert(coord_cost(s, c_new) - coord_cost(s, c_old) == d_new - d_old);
        assert(a * a == n * (n * sq(c_new)) - 2 * (n * c_new) * total + total * total)
            by (nonlinear_arith)
            requires
                a == n * c_new - total,
                sq(c_new) == c_new * c_new,
        ;
        assert(b * b == n * (n * sq(c_old)) - 2 * (n * c_old) * total + total * total)
            by (nonlinear_arith)
            requires
                b == n * c_old - total,
                sq(c_old) == c_old * c_old,
        ;
        assert(n * d_new == n * (n * sq(c_new)) - 2 * (n * c_new) * total) by (nonlinear_arith)
            requires
                d_new == n * sq(c_new) - 2 * c_new * total,
        ;
        assert(n * d_old == n * (n * sq(c_old)) - 2 * (n * c_old) * total) by (nonlinear_arith)
            requires
                d_old == n * sq(c_old) - 2 * c_old * total,
        ;
        assert(n * d_new - n * d_old == a * a - b * b);
        assert(n * d_new <= n * d_old);
        assert(d_new <= d_old) by (nonlinear_arith)
            requires
                n >= 1,
                n * d_new <= n * d_old,
        ;
    }
}

/// Moving one cluster's center to the rounded mean of its points (or keeping
/// it when the cluster is empty) never raises that cluster's cost.
proof fn lemma_update_cluster_cost(
    cvs: Seq<ClusterVector>,
    j: int,
    prev: Pixel,
    c: Pixel,
)
    requires
        is_updated_center(cvs, j, prev, c),
    ensures
        cluster_cost(cluster_seq(cvs, j), c) <= cluster_cost(cluster_seq(cvs, j), prev),
{
    let cl = cluster_seq(cvs, j);
    if cl.len() == 0 {
    } else {
        let n = cl.len() as int;
        lemma_cluster_cost_coords(cl, c);
        lemma_cluster_cost_coords(cl, prev);
        lemma_round_div_close(int_sum(reds(cl)), n);
        lemma_round_div_close(int_sum(greens(cl)), n);
        lemma_round_div_close(int_sum(blues(cl)), n);
        lemma_rounded_mean_minimizes(reds(cl), c.r as int, prev.r as int);
        lemma_rounded_mean_minimizes(greens(cl), c.g as int, prev.g as int);
        lemma_rounded_mean_minimizes(blues(cl), c.b as int, prev.b as int);
    }
}

/// The update step never raises the total: with assignments fixed, the
/// updated centers cost at most what the previous centers cost.
pub proof fn lemma_update_monotone(
    cvs: Seq<ClusterVector>,
    centers: Seq<Pixel>,
    new_centers: Seq<Pixel>,
)
    requires
        centers.len() == new_centers.len(),
        valid_assignments(cvs, centers.len() as int),
        forall|j: int|
            0 <= j < centers.len() ==> is_updated_center(
                cvs,
                j,
                centers[j],
                #[trigger] new_centers[j],
            ),
    ensures
        total_cost(cvs, new_centers) <= total_cost(cvs, centers),
{
    let k = centers.len() as int;
    lemma_total_cost_decomposition(cvs, centers, k);
    lemma_total_cost_decomposition(cvs, new_centers, k);
    lemma_costs_upto_le(cvs, centers, new_centers, k);
}

/// Cluster-by-cluster comparison of the two center lists.
proof fn lemma_costs_upto_le(
    cvs: Seq<ClusterVector>,
    centers: Seq<Pixel>,
    new_centers: Seq<Pixel>,
    j: int,
)
    requires
        j <= centers.len() == new_centers.len(),
        forall|t: int|
            0 <= t < centers.len() ==> is_updated_center(
                cvs,
                t,
                centers[t],
                #[trigger] new_centers[t],
            ),
    ensures
        costs_upto(cvs, new_centers, j) <= costs_upto(cvs, centers, j),
    decreases j,
{
    if j > 0 {
        lemma_costs_upto_le(cvs, centers, new_centers, j - 1);
        lemma_update_cluster_cost(cvs, j - 1, centers[j - 1], new_centers[j - 1]);
    }
}

/// One whole Lloyd iteration never raises the total within-cluster squared
/// distance: points reassigned to their nearest centers, then each center
/// moved to the rounded mean of its cluster (an empty cluster keeping its
/// center), cost at most what the previous assignment and centers cost.
pub proof fn lemma_lloyd_iteration_monotone(
    before: Seq<ClusterVector>,
    after: Seq<ClusterVector>,
    centers: Seq<Pixel>,
    new_centers: Seq<Pixel>,
)
    requires
        1 <= centers.len() == new_centers.len(),
        valid_assignments(before, centers.len() as int),
        after.len() == before.len(),
        forall|i: int|
            0 <= i < before.len() ==> (#[trigger] after[i]).vector == before[i].vector,
        forall|i: int|
            0 <= i < before.len() ==> (#[trigger] after[i]).assignment as int == closest_center(
                before[i].vector,
                centers,
            ),
        forall|j: int|
            0 <= j < centers.len() ==> is_updated_center(
                after,
                j,
                centers[j],
                #[trigger] new_centers[j],
            ),
    ensures
        total_cost(after, new_centers) <= total_cost(before, centers),
{
    lemma_assign_monotone(before, after, centers);
    assert forall|i: int| 0 <= i < after.len() implies 0 <= (#[trigger] after[i]).assignment
        < centers.len() by {
        lemma_closest_upto_properties(before[i].vector, centers, centers.len() as int);
    }
    lemma_update_monotone(after, centers, new_centers);
}

} // verus!
