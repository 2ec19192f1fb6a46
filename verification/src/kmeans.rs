//! The clustering engine: k-means++ seeding and Lloyd-style refinement.
//!
//! Seeding keeps a per-point weight, the squared distance to the nearest
//! center chosen so far, and draws each next center with probability
//! proportional to that weight. Refinement alternates assigning every point
//! to its nearest center and moving every center to the mean of its points,
//! until fewer than one percent of the points change cluster. An empty
//! cluster keeps its previous center. If every weight collapses to zero
//! during seeding (every point coincides with a chosen center), the seeder
//! falls back to uniform sampling.
//!
//! Nearest centers are found by linear scan: the number of centers is
//! small, so scanning them beats walking a spatial index, which here only
//! answers exact-membership queries anyway.

use vstd::prelude::*;
use crate::pixel::{Pixel, pixel_distance};
use crate::rng::{RandomSource, weight_sum, weighted_index_new, weighted_index_sample};
use crate::error::ClusterError;

verus! {

/// A point together with its current cluster assignment; `-1` means not yet
/// assigned.
#[derive(Clone, Copy, Debug, PartialEq, Eq, Structural)]
pub struct ClusterVector {
    pub assignment: i32,
    pub vector: Pixel,
}

impl ClusterVector {
    pub fn new(vector: Pixel) -> (cv: ClusterVector)
        ensures
            cv.assignment == -1,
            cv.vector == vector,
    {
        ClusterVector { assignment: -1, vector }
    }

    /// Wraps every point as unassigned.
    pub fn from_vectors(data: Vec<Pixel>) -> (cvs: Vec<ClusterVector>)
        ensures
            cvs@.len() == data@.len(),
            forall|i: int|
                0 <= i < data@.len() ==> (#[trigger] cvs@[i]).assignment == -1 && cvs@[i].vector
                    == data@[i],
    {
        let mut cvs: Vec<ClusterVector> = Vec::new();
        let mut i: usize = 0;
        while i < data.len()
            invariant
                i <= data@.len(),
                cvs@.len() == i,
                forall|j: int|
                    0 <= j < i ==> (#[trigger] cvs@[j]).assignment == -1 && cvs@[j].vector
                        == data@[j],
            decreases data@.len() - i,
        {
            cvs.push(ClusterVector::new(data[i]));
            i = i + 1;
        }
        cvs
    }
}

/// Lowers every weight to the squared distance to the new center where that
/// distance is smaller: each weight tracks the squared distance to the
/// nearest center chosen so far.
pub fn update_weights(weights: &mut Vec<u64>, vec: &Pixel, data: &Vec<Pixel>)
    requires
        old(weights)@.len() == data@.len(),
    ensures
        final(weights)@.len() == data@.len(),
        forall|i: int|
            0 <= i < data@.len() ==> #[trigger] final(weights)@[i] as int == vstd::math::min(
                old(weights)@[i] as int,
                pixel_distance(*vec, data@[i]),
            ),
{
    let mut i: usize = 0;
    while i < data.len()
        invariant
            i <= data@.len(),
            weights@.len() == data@.len(),
            forall|j: int|
                i <= j < data@.len() ==> #[trigger] weights@[j] == old(weights)@[j],
            forall|j: int|
                0 <= j < i ==> #[trigger] weights@[j] as int == vstd::math::min(
                    old(weights)@[j] as int,
                    pixel_distance(*vec, data@[j]),
                ),
        decreases data@.len() - i,
    {
        let d = vec.distance(&data[i]) as u64;
        if d < weights[i] {
            weights.set(i, d);
        }
        i = i + 1;
    }
}

/// The index of the center nearest to `p` among the first `n` centers,
/// earliest index winning ties.
pub open spec fn closest_upto(p: Pixel, centers: Seq<Pixel>, n: int) -> int
    decreases n,
{
    if n <= 1 {
        0
    } else {
        let best = closest_upto(p, centers, n - 1);
        if pixel_distance(p, centers[n - 1]) < pixel_distance(p, centers[best]) {
            n - 1
        } else {
            best
        }
    }
}

/// The index of the center nearest to `p`, earliest index winning ties.
pub open spec fn closest_center(p: Pixel, centers: Seq<Pixel>) -> int {
    closest_upto(p, centers, centers.len() as int)
}

/// What "nearest, earliest index winning ties" means: the chosen index is in
/// range, no center is strictly nearer, and every earlier center is strictly
/// farther.
pub proof fn lemma_closest_upto_properties(p: Pixel, centers: Seq<Pixel>, n: int)
    requires
        1 <= n <= centers.len(),
    ensures
        0 <= closest_upto(p, centers, n) < n,
        forall|j: int|
            0 <= j < n ==> pixel_distance(p, centers[closest_upto(p, centers, n)])
                <= #[trigger] pixel_distance(p, centers[j]),
        forall|j: int|
            0 <= j < closest_upto(p, centers, n) ==> #[trigger] pixel_distance(p, centers[j])
                > pixel_distance(p, centers[closest_upto(p, centers, n)]),
    decreases n,
{
    if n > 1 {
        lemma_closest_upto_properties(p, centers, n - 1);
    }
}

/// Appending one weight adds it to the total.
proof fn lemma_weight_sum_push(s: Seq<u64>, v: u64)
    ensures
        weight_sum(s.push(v)) == weight_sum(s) + v,
{
    assert(s.push(v).drop_last() =~= s);
    assert(s.push(v).last() == v);
}

/// A weight total is never negative.
proof fn lemma_weight_sum_nonneg(s: Seq<u64>)
    ensures
        weight_sum(s) >= 0,
    decreases s.len(),
{
    if s.len() > 0 {
        lemma_weight_sum_nonneg(s.drop_last());
    }
}

/// A zero total means every weight is zero.
proof fn lemma_weight_sum_zero(s: Seq<u64>)
    requires
        weight_sum(s) == 0,
    ensures
        forall|i: int| 0 <= i < s.len() ==> #[trigger] s[i] == 0,
    decreases s.len(),
{
    if s.len() > 0 {
        lemma_weight_sum_nonneg(s.drop_last());
        assert(s.last() == 0);
        lemma_weight_sum_zero(s.drop_last());
        assert forall|i: int| 0 <= i < s.len() implies #[trigger] s[i] == 0 by {
            if i < s.len() - 1 {
                assert(s.drop_last()[i] == s[i]);
            }
        }
    }
}

/// Whether one of the first `c` chosen centers equals the point.
pub open spec fn covered(p: Pixel, centers: Seq<Pixel>, c: int) -> bool {
    exists|j: int| 0 <= j < c && centers[j] == p
}

/// Whether every point coincides with one of the first `c` chosen centers.
pub open spec fn all_points_covered(data: Seq<Pixel>, centers: Seq<Pixel>, c: int) -> bool {
    forall|i: int| 0 <= i < data.len() ==> covered(#[trigger] data[i], centers, c)
}

/// Coverage by the first `c` centers ignores a center appended after them.
proof fn lemma_covered_push(p: Pixel, s: Seq<Pixel>, x: Pixel, c: int)
    requires
        0 <= c <= s.len(),
    ensures
        covered(p, s.push(x), c) == covered(p, s, c),
{
    if covered(p, s.push(x), c) {
        let j = choose|j: int| 0 <= j < c && s.push(x)[j] == p;
        assert(s[j] == p);
        assert(covered(p, s, c));
    }
    if covered(p, s, c) {
        let j = choose|j: int| 0 <= j < c && s[j] == p;
        assert(s.push(x)[j] == p);
        assert(covered(p, s.push(x), c));
    }
}

/// The same, pointwise over the whole point set.
proof fn lemma_all_covered_push(data: Seq<Pixel>, s: Seq<Pixel>, x: Pixel, c: int)
    requires
        0 <= c <= s.len(),
    ensures
        all_points_covered(data, s.push(x), c) == all_points_covered(data, s, c),
{
    assert forall|i: int|
        0 <= i < data.len() implies (covered(#[trigger] data[i], s.push(x), c) == covered(
        data[i],
        s,
        c,
    )) by {
        lemma_covered_push(data[i], s, x, c);
    }
}

/// Appending a center extends coverage by exactly that center.
proof fn lemma_covered_extend(p: Pixel, s: Seq<Pixel>, x: Pixel)
    ensures
        covered(p, s.push(x), s.len() as int + 1) == (covered(p, s, s.len() as int) || x == p),
{
    if covered(p, s.push(x), s.len() as int + 1) {
        let j = choose|j: int| 0 <= j < s.len() as int + 1 && s.push(x)[j] == p;
        if j < s.len() {
            assert(s[j] == p);
            assert(covered(p, s, s.len() as int));
        } else {
            assert(x == p);
        }
    }
    if covered(p, s, s.len() as int) {
        let j = choose|j: int| 0 <= j < s.len() && s[j] == p;
        assert(s.push(x)[j] == p);
        assert(covered(p, s.push(x), s.len() as int + 1));
    }
    if x == p {
        assert(s.push(x)[s.len() as int] == p);
        assert(covered(p, s.push(x), s.len() as int + 1));
    }
}

/// No more points than the seeding weights can total in the sampler's
/// `u64` weight type: `MAX_POINTS` times the largest squared distance
/// still fits.
pub const MAX_POINTS: usize = 0x4000_0000;

/// Chooses `k` initial centers: the first uniformly at random, each further
/// one by sampling the points with probability proportional to its weight,
/// the squared distance to the nearest center already chosen. Every center
/// is an exact copy of some input point, and no center repeats an earlier
/// one unless every point already coincides with a chosen center — a point
/// equal to a chosen center has weight zero, and the weighted draw never
/// returns a zero-weight index. If every weight is zero, the draw falls
/// back to uniform sampling.
pub fn k_means_pp(k: u32, data: &Vec<Pixel>, source: &mut RandomSource) -> (centers: Vec<Pixel>)
    requires
        1 <= k as int <= data@.len(),
        data@.len() <= MAX_POINTS as int,
    ensures
        centers@.len() == k as int,
        forall|i: int| 0 <= i < k as int ==> data@.contains(#[trigger] centers@[i]),
        forall|c: int|
            0 <= c < k as int ==> (all_points_covered(data@, centers@, c) || !covered(
                #[trigger] centers@[c],
                centers@,
                c,
            )),
{
    let n = data.len();
    let mut centers: Vec<Pixel> = Vec::new();
    let mut weights: Vec<u64> = vec![u64::MAX; n];
    let first_idx = source.sample_index(n);
    let initial = data[first_idx];
    update_weights(&mut weights, &initial, data);
    centers.push(initial);
    proof {
        assert(data@.contains(centers@[0]));
        assert forall|i: int| 0 <= i < n implies #[trigger] weights@[i] <= 195075 by {
            crate::pixel::lemma_distance_bound(initial, data@[i]);
        }
        assert forall|i: int|
            0 <= i < n implies ((#[trigger] weights@[i]) == 0 <==> covered(
            data@[i],
            centers@,
            1,
        )) by {
            crate::pixel::lemma_distance_bound(initial, data@[i]);
            crate::pixel::lemma_distance_zero(initial, data@[i]);
            if weights@[i] == 0 {
                assert(centers@[0] == data@[i]);
                assert(covered(data@[i], centers@, 1));
            }
            if covered(data@[i], centers@, 1) {
                let j = choose|j: int| 0 <= j < 1 && centers@[j] == data@[i];
                assert(centers@[0] == data@[i]);
            }
        }
    }
    let mut c: u32 = 1;
    while c < k
        invariant
            1 <= c <= k,
            k as int <= data@.len(),
            data@.len() == n,
            1 <= n <= MAX_POINTS,
            weights@.len() == n,
            forall|i: int| 0 <= i < n ==> #[trigger] weights@[i] <= 195075,
            centers@.len() == c as int,
            forall|i: int| 0 <= i < c as int ==> data@.contains(#[trigger] centers@[i]),
            forall|i: int|
                0 <= i < n ==> ((#[trigger] weights@[i]) == 0 <==> covered(
                    data@[i],
                    centers@,
                    c as int,
                )),
            forall|cc: int|
                0 <= cc < c as int ==> (all_points_covered(data@, centers@, cc) || !covered(
                    #[trigger] centers@[cc],
                    centers@,
                    cc,
                )),
        decreases k - c,
    {
        let mut total: u128 = 0;
        let mut i: usize = 0;
        while i < n
            invariant
                i <= n,
                n == weights@.len(),
                forall|j: int| 0 <= j < n ==> #[trigger] weights@[j] <= 195075,
                total == weight_sum(weights@.take(i as int)),
                total <= (i as int) * 195075,
            decreases n - i,
        {
            proof {
                assert(weights@.take(i + 1) =~= weights@.take(i as int).push(weights@[i as int]));
                lemma_weight_sum_push(weights@.take(i as int), weights@[i as int]);
            }
            total = total + (weights[i] as u128);
            i = i + 1;
        }
        proof {
            assert(weights@.take(n as int) =~= weights@);
            assert((n as int) * 195075 <= (MAX_POINTS as int) * 195075) by (nonlinear_arith)
                requires
                    n as int <= MAX_POINTS as int,
            ;
        }
        let idx: usize;
        if total > 0 {
            let sampler = weighted_index_new(&weights);
            idx = weighted_index_sample(source, &sampler);
            proof {
                assert(weights@[idx as int] > 0);
                assert(!covered(data@[idx as int], centers@, c as int));
            }
        } else {
            idx = source.sample_index(n);
            proof {
                lemma_weight_sum_zero(weights@);
                assert forall|t: int|
                    0 <= t < n implies covered(#[trigger] data@[t], centers@, c as int) by {
                    assert(weights@[t] == 0);
                }
                assert(all_points_covered(data@, centers@, c as int));
            }
        }
        let center = data[idx];
        let ghost prev_centers = centers@;
        let ghost fallback = all_points_covered(data@, prev_centers, c as int);
        proof {
            assert(fallback || !covered(center, prev_centers, c as int));
        }
        let ghost w_before = weights@;
        update_weights(&mut weights, &center, data);
        centers.push(center);
        proof {
            assert(centers@ == prev_centers.push(center));
            assert forall|j2: int| 0 <= j2 < n implies #[trigger] weights@[j2] <= 195075 by {
                crate::pixel::lemma_distance_bound(center, data@[j2]);
            }
            assert(data@[idx as int] == center);
            assert(data@.contains(center));
            assert forall|i2: int|
                0 <= i2 < n implies ((#[trigger] weights@[i2]) == 0 <==> covered(
                data@[i2],
                centers@,
                c as int + 1,
            )) by {
                crate::pixel::lemma_distance_bound(center, data@[i2]);
                crate::pixel::lemma_distance_zero(center, data@[i2]);
                lemma_covered_extend(data@[i2], prev_centers, center);
                assert(weights@[i2] as int == vstd::math::min(
                    w_before[i2] as int,
                    crate::pixel::pixel_distance(center, data@[i2]),
                ));
            }
            assert forall|cc: int|
                0 <= cc < c as int + 1 implies (all_points_covered(data@, centers@, cc)
                || !covered(#[trigger] centers@[cc], centers@, cc)) by {
                if cc < c as int {
                    lemma_all_covered_push(data@, prev_centers, center, cc);
                    lemma_covered_push(prev_centers[cc], prev_centers, center, cc);
                    assert(centers@[cc] == prev_centers[cc]);
                } else {
                    if fallback {
                        lemma_all_covered_push(data@, prev_centers, center, c as int);
                    } else {
                        lemma_covered_push(center, prev_centers, center, c as int);
                        assert(centers@[cc] == center);
                    }
                }
            }
        }
        c = c + 1;
    }
    centers
}

/// The index of the center nearest to `vec`, by linear scan; the earliest
/// index wins ties.
pub fn index_of_closest_center(vec: &Pixel, centers: &Vec<Pixel>) -> (r: i32)
    requires
        1 <= centers@.len() <= i32::MAX as int,
    ensures
        r as int == closest_center(*vec, centers@),
        0 <= r < centers@.len(),
        forall|j: int|
            0 <= j < centers@.len() ==> pixel_distance(*vec, centers@[r as int])
                <= #[trigger] pixel_distance(*vec, centers@[j]),
{
    let mut best_i: usize = 0;
    let mut best_d: u32 = vec.distance(&centers[0]);
    let mut i: usize = 1;
    while i < centers.len()
        invariant
            1 <= i <= centers@.len() <= i32::MAX as int,
            best_i as int == closest_upto(*vec, centers@, i as int),
            best_i < i,
            best_d == pixel_distance(*vec, centers@[best_i as int]),
        decreases centers@.len() - i,
    {
        let d = vec.distance(&centers[i]);
        if d < best_d {
            best_i = i;
            best_d = d;
        }
        i = i + 1;
    }
    proof {
        lemma_closest_upto_properties(*vec, centers@, centers@.len() as int);
    }
    best_i as i32
}

/// How many points of the two states are assigned to different clusters,
/// position by position.
pub open spec fn num_changed(before: Seq<ClusterVector>, after: Seq<ClusterVector>) -> int
    decreases before.len(),
{
    if before.len() == 0 || after.len() == 0 {
        0
    } else {
        num_changed(before.drop_last(), after.drop_last()) + if before.last().assignment
            == after.last().assignment {
            0int
        } else {
            1int
        }
    }
}

/// Appending one point to each state adds its change, if any, to the count.
pub proof fn lemma_num_changed_push(
    before: Seq<ClusterVector>,
    after: Seq<ClusterVector>,
    x: ClusterVector,
    y: ClusterVector,
)
    ensures
        num_changed(before.push(x), after.push(y)) == num_changed(before, after) + if x.assignment
            == y.assignment {
            0int
        } else {
            1int
        },
{
    assert(before.push(x).drop_last() =~= before);
    assert(after.push(y).drop_last() =~= after);
}

/// Assigns every point to its nearest center (earliest index winning ties)
/// and reports whether at least one percent of the points changed cluster,
/// the signal that another refinement round is worthwhile. On the first
/// round every point counts as changed, since nothing was assigned yet.
pub fn assign_centers(centers: &Vec<Pixel>, cluster_vecs: &mut Vec<ClusterVector>) -> (more: bool)
    requires
        1 <= centers@.len() <= i32::MAX as int,
    ensures
        final(cluster_vecs)@.len() == old(cluster_vecs)@.len(),
        forall|i: int|
            0 <= i < old(cluster_vecs)@.len() ==> (#[trigger] final(cluster_vecs)@[i]).vector == old(
                cluster_vecs,
            )@[i].vector,
        forall|i: int|
            0 <= i < old(cluster_vecs)@.len() ==> (#[trigger] final(cluster_vecs)@[i]).assignment
                as int == closest_center(old(cluster_vecs)@[i].vector, centers@),
        more == (num_changed(old(cluster_vecs)@, final(cluster_vecs)@) >= old(
            cluster_vecs,
        )@.len() as int / 100),
{
    let mut changes_made: usize = 0;
    let n = cluster_vecs.len();
    let mut i: usize = 0;
    while i < n
        invariant
            i <= n,
            cluster_vecs@.len() == n,
            n == old(cluster_vecs)@.len(),
            1 <= centers@.len() <= i32::MAX as int,
            changes_made <= i,
            forall|j: int| i <= j < n ==> #[trigger] cluster_vecs@[j] == old(cluster_vecs)@[j],
            forall|j: int|
                0 <= j < i ==> (#[trigger] cluster_vecs@[j]).vector == old(
                    cluster_vecs,
                )@[j].vector,
            forall|j: int|
                0 <= j < i ==> (#[trigger] cluster_vecs@[j]).assignment as int == closest_center(
                    old(cluster_vecs)@[j].vector,
                    centers@,
                ),
            changes_made as int == num_changed(
                old(cluster_vecs)@.take(i as int),
                cluster_vecs@.take(i as int),
            ),
        decreases n - i,
    {
        let cv = cluster_vecs[i];
        let closest = index_of_closest_center(&cv.vector, centers);
        let ghost pre = cluster_vecs@;
        let changed = cv.assignment != closest;
        if changed {
            cluster_vecs.set(i, ClusterVector { assignment: closest, vector: cv.vector });
            changes_made = changes_made + 1;
        }
        proof {
            assert(old(cluster_vecs)@.take(i + 1) =~= old(cluster_vecs)@.take(i as int).push(
                old(cluster_vecs)@[i as int],
            ));
            assert(cluster_vecs@.take(i + 1) =~= cluster_vecs@.take(i as int).push(
                cluster_vecs@[i as int],
            ));
            assert(cluster_vecs@.take(i as int) =~= pre.take(i as int));
            lemma_num_changed_push(
                old(cluster_vecs)@.take(i as int),
                cluster_vecs@.take(i as int),
                old(cluster_vecs)@[i as int],
                cluster_vecs@[i as int],
            );
        }
        i = i + 1;
    }
    proof {
        assert(old(cluster_vecs)@.take(n as int) =~= old(cluster_vecs)@);
        assert(cluster_vecs@.take(n as int) =~= cluster_vecs@);
    }
    changes_made >= n / 100
}

/// The points assigned to cluster `j`, in order.
pub open spec fn cluster_seq(cvs: Seq<ClusterVector>, j: int) -> Seq<Pixel>
    decreases cvs.len(),
{
    if cvs.len() == 0 {
        Seq::empty()
    } else {
        cluster_seq(cvs.drop_last(), j) + if cvs.last().assignment == j {
            seq![cvs.last().vector]
        } else {
            Seq::empty()
        }
    }
}

/// Appending a point extends exactly the cluster it is assigned to.
pub proof fn lemma_cluster_seq_push(cvs: Seq<ClusterVector>, cv: ClusterVector, j: int)
    ensures
        cluster_seq(cvs.push(cv), j) == if cv.assignment == j {
            cluster_seq(cvs, j).push(cv.vector)
        } else {
            cluster_seq(cvs, j)
        },
{
    assert(cvs.push(cv).drop_last() =~= cvs);
    if cv.assignment == j {
        assert(cluster_seq(cvs, j) + seq![cv.vector] =~= cluster_seq(cvs, j).push(cv.vector));
    } else {
        assert(cluster_seq(cvs, j) + Seq::<Pixel>::empty() =~= cluster_seq(cvs, j));
    }
}

/// What the updater owes for cluster `j`: the new center is the rounded
/// componentwise mean of the assigned points, or the previous center when
/// the cluster is empty.
pub open spec fn is_updated_center(
    cvs: Seq<ClusterVector>,
    j: int,
    prev: Pixel,
    c: Pixel,
) -> bool {
    let cl = cluster_seq(cvs, j);
    if cl.len() == 0 {
        c == prev
    } else {
        &&& c.r as int == crate::pixel::round_div(
            crate::pixel::int_sum(crate::pixel::reds(cl)),
            cl.len() as int,
        )
        &&& c.g as int == crate::pixel::round_div(
            crate::pixel::int_sum(crate::pixel::greens(cl)),
            cl.len() as int,
        )
        &&& c.b as int == crate::pixel::round_div(
            crate::pixel::int_sum(crate::pixel::blues(cl)),
            cl.len() as int,
        )
    }
}

/// Moves every center to the rounded mean of the points assigned to it; a
/// cluster with no points keeps its previous center.
pub fn update_centers(centers: &Vec<Pixel>, cluster_vecs: &Vec<ClusterVector>) -> (new_centers:
    Vec<Pixel>)
    requires
        centers@.len() <= i32::MAX as int,
    ensures
        new_centers@.len() == centers@.len(),
        forall|j: int|
            0 <= j < centers@.len() ==> is_updated_center(
                cluster_vecs@,
                j,
                centers@[j],
                #[trigger] new_centers@[j],
            ),
{
    let k = centers.len();
    let mut new_centers: Vec<Pixel> = Vec::new();
    let mut j: usize = 0;
    while j < k
        invariant
            j <= k,
            k == centers@.len() <= i32::MAX as int,
            new_centers@.len() == j,
            forall|t: int|
                0 <= t < j ==> is_updated_center(
                    cluster_vecs@,
                    t,
                    centers@[t],
                    #[trigger] new_centers@[t],
                ),
        decreases k - j,
    {
        let ji = j as i32;
        let mut cluster: Vec<Pixel> = Vec::new();
        let mut t: usize = 0;
        while t < cluster_vecs.len()
            invariant
                t <= cluster_vecs@.len(),
                ji as int == j as int,
                cluster@ == cluster_seq(cluster_vecs@.take(t as int), ji as int),
            decreases cluster_vecs@.len() - t,
        {
            let cv = cluster_vecs[t];
            proof {
                assert(cluster_vecs@.take(t + 1) =~= cluster_vecs@.take(t as int).push(
                    cluster_vecs@[t as int],
                ));
                lemma_cluster_seq_push(cluster_vecs@.take(t as int), cv, ji as int);
            }
            if cv.assignment == ji {
                cluster.push(cv.vector);
            }
            t = t + 1;
        }
        proof {
            assert(cluster_vecs@.take(cluster_vecs@.len() as int) =~= cluster_vecs@);
        }
        if cluster.len() == 0 {
            new_centers.push(centers[j]);
        } else {
            new_centers.push(Pixel::average(&cluster));
        }
        j = j + 1;
    }
    new_centers
}

/// The hard ceiling on refinement rounds; in practice the one-percent rule
/// stops the loop long before this.
pub const MAX_LLOYD_ITERATIONS: u32 = 10000;

/// How a returned palette relates to the data through one assign-update
/// witness: the points stand assigned each to its nearest center of some
/// previous center list, and the returned centers are exactly the update
/// of that assignment (the rounded cluster means, empty clusters keeping
/// their center).
pub open spec fn palette_step_witness(
    data: Seq<Pixel>,
    k: int,
    v: Seq<Pixel>,
    cvs: Seq<ClusterVector>,
    prev: Seq<Pixel>,
) -> bool {
    &&& prev.len() == k
    &&& cvs.len() == data.len()
    &&& forall|i: int| 0 <= i < data.len() ==> (#[trigger] cvs[i]).vector == data[i]
    &&& forall|i: int|
        0 <= i < data.len() ==> (#[trigger] cvs[i]).assignment as int == closest_center(
            data[i],
            prev,
        )
    &&& forall|j: int| 0 <= j < k ==> is_updated_center(cvs, j, prev[j], #[trigger] v[j])
}

/// A palette the refinement loop can end on: some assign-update witness
/// ties it to the data.
pub open spec fn is_refined_palette(data: Seq<Pixel>, k: int, v: Seq<Pixel>) -> bool {
    exists|cvs: Seq<ClusterVector>, prev: Seq<Pixel>|
        palette_step_witness(data, k, v, cvs, prev)
}

/// The whole clustering run: validate the configuration, seed `k` centers,
/// then alternate assignment and update until fewer than one percent of the
/// points change cluster (or the iteration ceiling is hit). Fails exactly
/// when `k` is zero or exceeds the number of points.
///
/// Inside the loop the refinement is provably monotone: from the second
/// round on, each assign-then-update pair never raises the total
/// within-cluster squared distance.
pub fn k_cluster(k: u32, data: Vec<Pixel>, source: &mut RandomSource) -> (result: Result<
    Vec<Pixel>,
    ClusterError,
>)
    requires
        k <= i32::MAX as u32,
        data@.len() <= MAX_POINTS as int,
    ensures
        result matches Err(e) ==> e == ClusterError::InvalidConfiguration && (k == 0 || k as int
            > data@.len()),
        (1 <= k as int <= data@.len()) ==> (result matches Ok(v) && v@.len() == k as int
            && is_refined_palette(data@, k as int, v@)),
{
    if k == 0 || (k as usize) > data.len() {
        return Result::Err(ClusterError::InvalidConfiguration);
    }
    let mut centers = k_means_pp(k, &data, source);
    let ghost input = data@;
    let mut cluster_vecs = ClusterVector::from_vectors(data);
    let mut change_made = true;
    let mut iterations: u32 = 0;
    let ghost mut witness_prev: Seq<Pixel> = Seq::empty();
    while change_made && iterations < MAX_LLOYD_ITERATIONS
        invariant
            1 <= k as int <= i32::MAX as int,
            centers@.len() == k as int,
            cluster_vecs@.len() == input.len(),
            forall|i: int|
                0 <= i < input.len() ==> (#[trigger] cluster_vecs@[i]).vector == input[i],
            iterations == 0 ==> change_made,
            iterations >= 1 ==> crate::lloyd::valid_assignments(cluster_vecs@, k as int),
            iterations >= 1 ==> palette_step_witness(
                input,
                k as int,
                centers@,
                cluster_vecs@,
                witness_prev,
            ),
        decreases MAX_LLOYD_ITERATIONS - iterations,
    {
        let ghost pre_cvs = cluster_vecs@;
        let ghost pre_centers = centers@;
        change_made = assign_centers(&centers, &mut cluster_vecs);
        proof {
            assert forall|i: int| 0 <= i < cluster_vecs@.len() implies 0 <= (
            #[trigger] cluster_vecs@[i]).assignment < k as int by {
                lemma_closest_upto_properties(pre_cvs[i].vector, pre_centers, k as int);
            }
        }
        centers = update_centers(&centers, &cluster_vecs);
        proof {
            if iterations >= 1 {
                crate::lloyd::lemma_lloyd_iteration_monotone(
                    pre_cvs,
                    cluster_vecs@,
                    pre_centers,
                    centers@,
                );
                assert(crate::lloyd::total_cost(cluster_vecs@, centers@)
                    <= crate::lloyd::total_cost(pre_cvs, pre_centers));
            }
            witness_prev = pre_centers;
            assert(palette_step_witness(input, k as int, centers@, cluster_vecs@, witness_prev));
        }
        iterations = iterations + 1;
    }
    proof {
        assert(iterations >= 1);
        assert(is_refined_palette(input, k as int, centers@));
    }
    Result::Ok(centers)
}

} // verus!
