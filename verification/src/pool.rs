//! The worker-pool side of the assignment step.
//!
//! The pool itself — threads, channels, a semaphore pacing wake-ups — is
//! plumbing around three verified pieces kept here. `shard_ranges` cuts the
//! point list into contiguous shards, one work item per worker.
//! `compute_shard` is the fixed function a worker applies to one item: the
//! nearest-center index for every point of its range. `merge_results` joins
//! the results after the barrier, correlating them by shard identity alone,
//! so the order in which workers finish cannot matter; it refuses exactly
//! the deliveries that violate the protocol (a wrong tag, a wrong length, a
//! duplicated shard). `PoolLedger` is the bookkeeping that keeps the
//! two-phase handoff honest: one semaphore release per message sent, and on
//! shutdown one terminate paired with one release per worker, so no worker
//! stays blocked.

use vstd::prelude::*;
use crate::pixel::Pixel;
use crate::kmeans::{ClusterVector, closest_center, num_changed, index_of_closest_center};

verus! {

/// One unit of parallel work: the points of `[start, end)`, tagged with the
/// shard it stands for.
#[derive(Clone, Copy, Debug, PartialEq, Eq, Structural)]
pub struct WorkItem {
    pub shard_id: usize,
    pub start: usize,
    pub end: usize,
}

/// One unit of computed result: the nearest-center index of every point of
/// the shard it is tagged with.
#[derive(Clone, Debug)]
pub struct WorkResult {
    pub shard_id: usize,
    pub assignments: Vec<i32>,
}

/// The items cut `[0, n)` into consecutive shards: each begins where the
/// previous one ended, the first at `base`, the last ending at `endpos`.
pub open spec fn chain_links(items: Seq<WorkItem>, base: int, endpos: int) -> bool
    decreases items.len(),
{
    if items.len() == 0 {
        base == endpos
    } else {
        &&& items[0].start == base
        &&& base <= items[0].end
        &&& chain_links(items.drop_first(), items[0].end as int, endpos)
    }
}

/// The items cut `[0, n)` into consecutive shards: each begins where the
/// previous one ended, the first at zero, the last ending at `n`.
pub open spec fn items_partition(items: Seq<WorkItem>, n: int) -> bool {
    chain_links(items, 0, n)
}

/// Every shard of a chain lies between the chain's two ends.
proof fn lemma_chain_bounds(items: Seq<WorkItem>, base: int, endpos: int, j: int)
    requires
        chain_links(items, base, endpos),
        0 <= j < items.len(),
    ensures
        base <= items[j].start <= items[j].end <= endpos,
    decreases items.len(),
{
    assert(items[0].start == base && base <= items[0].end && chain_links(
        items.drop_first(),
        items[0].end as int,
        endpos,
    ));
    if j == 0 {
        if items.len() == 1 {
            assert(items.drop_first().len() == 0);
            assert(items[0].end == endpos);
        } else {
            lemma_chain_bounds(items.drop_first(), items[0].end as int, endpos, 0);
        }
    } else {
        lemma_chain_bounds(items.drop_first(), items[0].end as int, endpos, j - 1);
        assert(items.drop_first()[j - 1] == items[j]);
    }
}

/// Earlier shards end no later than later shards begin.
proof fn lemma_partition_ordered(items: Seq<WorkItem>, base: int, endpos: int, j1: int, j2: int)
    requires
        chain_links(items, base, endpos),
        0 <= j1 < j2 < items.len(),
    ensures
        items[j1].end <= items[j2].start,
    decreases items.len(),
{
    let rest = items.drop_first();
    if j1 == 0 {
        lemma_chain_bounds(rest, items[0].end as int, endpos, j2 - 1);
        assert(rest[j2 - 1] == items[j2]);
    } else {
        lemma_partition_ordered(rest, items[0].end as int, endpos, j1 - 1, j2 - 1);
        assert(rest[j1 - 1] == items[j1]);
        assert(rest[j2 - 1] == items[j2]);
    }
}

/// Growing a chain by a shard that starts at its end moves the end to that
/// shard's end.
proof fn lemma_chain_push(items: Seq<WorkItem>, base: int, it: WorkItem)
    requires
        chain_links(items, base, it.start as int),
        it.start <= it.end,
    ensures
        chain_links(items.push(it), base, it.end as int),
    decreases items.len(),
{
    if items.len() == 0 {
        assert(base == it.start as int);
        assert(items.push(it)[0] == it);
        assert(items.push(it).drop_first() =~= Seq::<WorkItem>::empty());
        assert(chain_links(Seq::<WorkItem>::empty(), it.end as int, it.end as int));
    } else {
        assert(items[0].start == base && base <= items[0].end && chain_links(
            items.drop_first(),
            items[0].end as int,
            it.start as int,
        ));
        assert(items.push(it).drop_first() =~= items.drop_first().push(it));
        lemma_chain_push(items.drop_first(), items[0].end as int, it);
        assert(items.push(it)[0] == items[0]);
    }
}

/// Every position below `n` lies in exactly the shard this returns.
pub open spec fn shard_of(items: Seq<WorkItem>, pos: int) -> int
    decreases items.len(),
{
    if items.len() == 0 {
        0
    } else if pos < items[0].end {
        0
    } else {
        1 + shard_of(items.drop_first(), pos)
    }
}

/// A position between a chain's two ends lies inside the shard `shard_of`
/// names.
proof fn lemma_shard_of_covers(items: Seq<WorkItem>, base: int, endpos: int, pos: int)
    requires
        chain_links(items, base, endpos),
        base <= pos < endpos,
    ensures
        0 <= shard_of(items, pos) < items.len(),
        items[shard_of(items, pos)].start <= pos < items[shard_of(items, pos)].end,
    decreases items.len(),
{
    if items.len() > 0 {
        if pos < items[0].end {
        } else {
            let rest = items.drop_first();
            lemma_shard_of_covers(rest, items[0].end as int, endpos, pos);
            assert(rest[shard_of(rest, pos)] == items[1 + shard_of(rest, pos)]);
        }
    }
}

/// Cuts `[0, n)` into `n_shards` consecutive shards of near-equal size (the
/// last takes the remainder), one work item per shard, tagged by index.
pub fn shard_ranges(n: usize, n_shards: usize) -> (items: Vec<WorkItem>)
    requires
        1 <= n_shards,
    ensures
        items@.len() == n_shards,
        items_partition(items@, n as int),
        forall|j: int| 0 <= j < items@.len() ==> (#[trigger] items@[j]).shard_id == j,
{
    let chunk = n / n_shards;
    proof {
        vstd::arithmetic::div_mod::lemma_fundamental_div_mod(n as int, n_shards as int);
        assert(n as int == n_shards as int * chunk as int + n as int % n_shards as int);
        vstd::arithmetic::div_mod::lemma_mod_bound(n as int, n_shards as int);
    }
    let mut items: Vec<WorkItem> = Vec::new();
    let mut pos: usize = 0;
    let mut j: usize = 0;
    while j < n_shards
        invariant
            j <= n_shards,
            items@.len() == j,
            1 <= n_shards,
            chunk == n as int / n_shards as int,
            pos <= n,
            n as int - pos as int >= (n_shards as int - j as int) * chunk as int,
            chain_links(items@, 0, pos as int),
            j == n_shards ==> pos == n,
            forall|t: int| 0 <= t < j ==> (#[trigger] items@[t]).shard_id == t,
        decreases n_shards - j,
    {
        proof {
            assert((n_shards as int - j as int) * chunk as int >= chunk as int)
                by (nonlinear_arith)
                requires
                    n_shards as int - j as int >= 1,
                    chunk as int >= 0,
            ;
            assert((n_shards as int - j as int) * chunk as int == (n_shards as int - (j as int
                + 1)) * chunk as int + chunk as int) by (nonlinear_arith);
        }
        let end = if j == n_shards - 1 {
            n
        } else {
            pos + chunk
        };
        let it = WorkItem { shard_id: j, start: pos, end };
        proof {
            lemma_chain_push(items@, 0, it);
        }
        items.push(it);
        proof {
            if j == n_shards - 1 {
                assert((n_shards as int - (j as int + 1)) * chunk as int == 0)
                    by (nonlinear_arith)
                    requires
                        n_shards as int == j as int + 1,
                ;
            }
        }
        pos = end;
        j = j + 1;
    }
    items
}

/// The fixed function a worker applies to one work item: the nearest-center
/// index of every point of its range.
pub fn compute_shard(data: &Vec<Pixel>, centers: &Vec<Pixel>, item: &WorkItem) -> (r: WorkResult)
    requires
        1 <= centers@.len() <= i32::MAX as int,
        item.start <= item.end <= data@.len(),
    ensures
        r.shard_id == item.shard_id,
        r.assignments@.len() == item.end - item.start,
        forall|o: int|
            0 <= o < r.assignments@.len() ==> #[trigger] r.assignments@[o] as int == closest_center(
                data@[item.start + o],
                centers@,
            ),
{
    let mut assignments: Vec<i32> = Vec::new();
    let mut i: usize = item.start;
    while i < item.end
        invariant
            item.start <= i <= item.end <= data@.len(),
            1 <= centers@.len() <= i32::MAX as int,
            assignments@.len() == i - item.start,
            forall|o: int|
                0 <= o < assignments@.len() ==> #[trigger] assignments@[o] as int
                    == closest_center(data@[item.start + o], centers@),
        decreases item.end - i,
    {
        let a = index_of_closest_center(&data[i], centers);
        assignments.push(a);
        i = i + 1;
    }
    WorkResult { shard_id: item.shard_id, assignments }
}

/// How many delivered results carry the given shard tag.
pub open spec fn shard_count(results: Seq<WorkResult>, j: int) -> int
    decreases results.len(),
{
    if results.len() == 0 {
        0
    } else {
        shard_count(results.drop_last(), j) + if results.last().shard_id == j {
            1int
        } else {
            0int
        }
    }
}

/// A result answers the work item with its tag: the tag exists and the
/// lengths agree.
pub open spec fn matches_item(r: WorkResult, items: Seq<WorkItem>) -> bool {
    &&& (r.shard_id as int) < items.len()
    &&& r.assignments.len() == items[r.shard_id as int].end - items[r.shard_id as int].start
}

/// Every shard came back exactly once, each result answering its item; the
/// order of arrival is deliberately unconstrained.
pub open spec fn complete_delivery(items: Seq<WorkItem>, results: Seq<WorkResult>) -> bool {
    &&& results.len() == items.len()
    &&& forall|t: int| 0 <= t < results.len() ==> matches_item(#[trigger] results[t], items)
    &&& forall|j: int| 0 <= j < items.len() ==> shard_count(results, j) == 1
}

/// A tag at one index makes its count positive.
proof fn lemma_shard_count_at_least_one(results: Seq<WorkResult>, j: int, t: int)
    requires
        0 <= t < results.len(),
        results[t].shard_id == j,
    ensures
        shard_count(results, j) >= 1,
    decreases results.len(),
{
    lemma_shard_count_nonneg(results.drop_last(), j);
    if t < results.len() - 1 {
        lemma_shard_count_at_least_one(results.drop_last(), j, t);
    }
}

/// Counts are never negative.
proof fn lemma_shard_count_nonneg(results: Seq<WorkResult>, j: int)
    ensures
        shard_count(results, j) >= 0,
    decreases results.len(),
{
    if results.len() > 0 {
        lemma_shard_count_nonneg(results.drop_last(), j);
    }
}

/// A tag at two different indices makes its count at least two.
proof fn lemma_shard_count_at_least_two(results: Seq<WorkResult>, j: int, t1: int, t2: int)
    requires
        0 <= t1 < t2 < results.len(),
        results[t1].shard_id == j,
        results[t2].shard_id == j,
    ensures
        shard_count(results, j) >= 2,
    decreases results.len(),
{
    if t2 == results.len() - 1 {
        lemma_shard_count_at_least_one(results.drop_last(), j, t1);
    } else {
        lemma_shard_count_at_least_two(results.drop_last(), j, t1, t2);
    }
}

/// A positive count names some index bearing the tag.
proof fn lemma_shard_count_witness(results: Seq<WorkResult>, j: int) -> (t: int)
    requires
        shard_count(results, j) >= 1,
    ensures
        0 <= t < results.len(),
        results[t].shard_id == j,
    decreases results.len(),
{
    if results.last().shard_id == j {
        results.len() - 1
    } else {
        lemma_shard_count_witness(results.drop_last(), j)
    }
}

/// Joins the shard results delivered in any order into one assignment list,
/// correlating purely by shard tag. Returns `None` exactly on a delivery
/// that breaks the protocol: a missing or duplicated shard, an unknown tag,
/// or a result of the wrong length.
pub fn merge_results(items: &Vec<WorkItem>, results: &Vec<WorkResult>, n: usize) -> (merged:
    Option<Vec<i32>>)
    requires
        items_partition(items@, n as int),
    ensures
        merged matches Some(v) ==> {
            &&& v@.len() == n
            &&& forall|t: int, o: int|
                0 <= t < results@.len() && 0 <= o < results@[t].assignments@.len()
                    ==> v@[items@[results@[t].shard_id as int].start + o] == #[trigger] results@[t].assignments@[o]
        },
        merged is None ==> !complete_delivery(items@, results@),
{
    let m = items.len();
    if results.len() != m {
        return Option::None;
    }
    let mut out: Vec<i32> = Vec::new();
    let mut i: usize = 0;
    while i < n
        invariant
            out@.len() == i <= n,
        decreases n - i,
    {
        out.push(-1);
        i = i + 1;
    }
    let mut seen: Vec<bool> = Vec::new();
    let mut i2: usize = 0;
    while i2 < m
        invariant
            seen@.len() == i2 <= m,
            forall|j: int| 0 <= j < i2 ==> !(#[trigger] seen@[j]),
        decreases m - i2,
    {
        seen.push(false);
        i2 = i2 + 1;
    }
    let mut t: usize = 0;
    while t < m
        invariant
            t <= m,
            m == items@.len() == results@.len(),
            items_partition(items@, n as int),
            out@.len() == n,
            seen@.len() == m,
            forall|j: int|
                0 <= j < m ==> (#[trigger] seen@[j] <==> exists|u: int|
                    0 <= u < t && (#[trigger] results@[u].shard_id) == j),
            forall|u: int|
                0 <= u < t ==> matches_item(#[trigger] results@[u], items@),
            forall|u: int, o: int|
                0 <= u < t && 0 <= o < results@[u].assignments@.len()
                    ==> out@[items@[results@[u].shard_id as int].start + o] == #[trigger] results@[u].assignments@[o],
        decreases m - t,
    {
        let r = &results[t];
        let j = r.shard_id;
        if j >= m {
            proof {
                assert(!matches_item(results@[t as int], items@));
            }
            return Option::None;
        }
        let item = items[j];
        proof {
            lemma_chain_bounds(items@, 0, n as int, j as int);
        }
        if r.assignments.len() != item.end - item.start {
            proof {
                assert(!matches_item(results@[t as int], items@));
            }
            return Option::None;
        }
        if seen[j] {
            proof {
                let u = choose|u: int| 0 <= u < t && (#[trigger] results@[u].shard_id) == j as int;
                lemma_shard_count_at_least_two(results@, j as int, u, t as int);
            }
            return Option::None;
        }
        seen.set(j, true);
        let ghost out_before = out@;
        let mut o: usize = 0;
        while o < r.assignments.len()
            invariant
                o <= r.assignments@.len(),
                r == results@[t as int],
                m == items@.len() == results@.len(),
                t < m,
                items_partition(items@, n as int),
                j == r.shard_id < m,
                item == items@[j as int],
                r.assignments@.len() == item.end - item.start,
                item.end <= n,
                out@.len() == n == out_before.len(),
                forall|p: int| 0 <= p < n && !(item.start <= p < item.end) ==> out@[p] == out_before[p],
                forall|o2: int|
                    0 <= o2 < o ==> out@[item.start + o2] == #[trigger] r.assignments@[o2],
            decreases r.assignments@.len() - o,
        {
            out.set(item.start + o, r.assignments[o]);
            o = o + 1;
        }
        proof {
            assert forall|u: int, o2: int|
                0 <= u < t + 1 && 0 <= o2 < results@[u].assignments@.len() implies out@[items@[results@[u].shard_id as int].start
                + o2] == #[trigger] results@[u].assignments@[o2] by {
                if u < t {
                    let ju = results@[u].shard_id as int;
                    let p = items@[ju].start + o2;
                    lemma_chain_bounds(items@, 0, n as int, ju);
                    if ju != j as int {
                        assert(seen@[ju]);
                        if ju < j as int {
                            lemma_partition_ordered(items@, 0, n as int, ju, j as int);
                        } else {
                            lemma_partition_ordered(items@, 0, n as int, j as int, ju);
                        }
                        assert(out@[p] == out_before[p]);
                    }
                }
            }
        }
        t = t + 1;
    }
    Option::Some(out)
}

/// What the barrier joins is the sequential assignment: when a complete
/// delivery's results each hold the nearest-center indices of their shard,
/// the merged list holds the nearest-center index of every point.
pub proof fn lemma_merged_is_assignment(
    items: Seq<WorkItem>,
    results: Seq<WorkResult>,
    data: Seq<Pixel>,
    centers: Seq<Pixel>,
    v: Seq<i32>,
    n: int,
)
    requires
        items_partition(items, n),
        n == data.len(),
        complete_delivery(items, results),
        v.len() == n,
        forall|t: int, o: int|
            0 <= t < results.len() && 0 <= o < results[t].assignments@.len()
                ==> v[items[results[t].shard_id as int].start + o] == #[trigger] results[t].assignments@[o],
        forall|t: int, o: int|
            0 <= t < results.len() && 0 <= o < results[t].assignments@.len()
                ==> #[trigger] results[t].assignments@[o] as int == closest_center(
                data[items[results[t].shard_id as int].start + o],
                centers,
            ),
    ensures
        forall|i: int| 0 <= i < n ==> #[trigger] v[i] as int == closest_center(data[i], centers),
{
    assert forall|i: int| 0 <= i < n implies #[trigger] v[i] as int == closest_center(
        data[i],
        centers,
    ) by {
        lemma_shard_of_covers(items, 0, n, i);
        let j = shard_of(items, i);
        let t = lemma_shard_count_witness(results, j);
        let o = i - items[j].start;
        assert(results[t].assignments@.len() == items[j].end - items[j].start);
        assert(v[items[j].start + o] == results[t].assignments@[o]);
    }
}

/// Writes a merged assignment list into the per-point cluster state and
/// reports whether at least one percent of the points changed cluster, as
/// the sequential assigner does.
pub fn apply_assignments(cluster_vecs: &mut Vec<ClusterVector>, assignments: &Vec<i32>) -> (more:
    bool)
    requires
        old(cluster_vecs)@.len() == assignments@.len(),
    ensures
        final(cluster_vecs)@.len() == old(cluster_vecs)@.len(),
        forall|i: int|
            0 <= i < old(cluster_vecs)@.len() ==> (#[trigger] final(cluster_vecs)@[i]).vector == old(
                cluster_vecs,
            )@[i].vector,
        forall|i: int|
            0 <= i < old(cluster_vecs)@.len() ==> (#[trigger] final(cluster_vecs)@[i]).assignment
                == assignments@[i],
        more == (num_changed(old(cluster_vecs)@, final(cluster_vecs)@) >= old(
            cluster_vecs,
        )@.len() as int / 100),
{
    let mut changes_made: usize = 0;
    let n = cluster_vecs.len();
    let mut i: usize = 0;
    while i < n
        invariant
            i <= n,
            cluster_vecs@.len() == n == old(cluster_vecs)@.len() == assignments@.len(),
            changes_made <= i,
            forall|j: int| i <= j < n ==> #[trigger] cluster_vecs@[j] == old(cluster_vecs)@[j],
            forall|j: int|
                0 <= j < i ==> (#[trigger] cluster_vecs@[j]).vector == old(
                    cluster_vecs,
                )@[j].vector,
            forall|j: int|
                0 <= j < i ==> (#[trigger] cluster_vecs@[j]).assignment == assignments@[j],
            changes_made as int == num_changed(
                old(cluster_vecs)@.take(i as int),
                cluster_vecs@.take(i as int),
            ),
        decreases n - i,
    {
        let cv = cluster_vecs[i];
        let a = assignments[i];
        let ghost pre = cluster_vecs@;
        if cv.assignment != a {
            cluster_vecs.set(i, ClusterVector { assignment: a, vector: cv.vector });
            changes_made = changes_made + 1;
        }
        proof {
            assert(old(cluster_vecs)@.take(i + 1) =~= old(cluster_vecs)@.take(i as int).push(
                old(cluster_vecs)@[i as int],
            ));
            assert(cluster_vecs@.take(i + 1) =~= cluster_vecs@.take(i as int).push(
                cluster_vecs@[i as int],
            ));
            assert(cluster_vecs@.take(i as int) =~= pre.take(i as int));
            crate::kmeans::lemma_num_changed_push(
                old(cluster_vecs)@.take(i as int),
                cluster_vecs@.take(i as int),
                old(cluster_vecs)@[i as int],
                cluster_vecs@[i as int],
            );
        }
        i = i + 1;
    }
    proof {
        assert(old(cluster_vecs)@.take(n as int) =~= old(cluster_vecs)@);
        assert(cluster_vecs@.take(n as int) =~= cluster_vecs@);
    }
    changes_made >= n / 100
}

/// The counters of one pool's lifetime, enforcing the two-phase handoff: a
/// unit of work is visible only after its message and its semaphore release
/// have both happened, so the release count always equals the messages sent
/// (work plus terminates); and shutdown pairs one terminate with one
/// release per worker, so every blocked worker wakes and exits.
#[derive(Clone, Copy, Debug, PartialEq, Eq, Structural)]
pub struct PoolLedger {
    pub n_workers: u32,
    pub submitted: u64,
    pub collected: u64,
    pub terminates: u64,
    pub releases: u64,
}

impl PoolLedger {
    /// The handoff discipline: one release per message, results only for
    /// submitted work, terminates only at shutdown.
    pub open spec fn wf(self) -> bool {
        &&& self.releases == self.submitted + self.terminates
        &&& self.collected <= self.submitted
        &&& (self.terminates == 0 || self.terminates == self.n_workers as u64)
    }

    pub fn new(n_workers: u32) -> (ledger: PoolLedger)
        ensures
            ledger.wf(),
            ledger.n_workers == n_workers,
            ledger.submitted == 0,
            ledger.collected == 0,
            ledger.terminates == 0,
            ledger.releases == 0,
    {
        PoolLedger { n_workers, submitted: 0, collected: 0, terminates: 0, releases: 0 }
    }

    /// Records one unit of work handed to the pool: its message and its
    /// release together. Work after shutdown is a protocol violation, ruled
    /// out by the precondition.
    pub fn submit(&mut self) -> (ok: bool)
        requires
            old(self).wf(),
            old(self).terminates == 0,
        ensures
            final(self).wf(),
            ok == (old(self).submitted < u64::MAX),
            ok ==> final(self).submitted == old(self).submitted + 1 && final(self).releases == old(
                self,
            ).releases + 1,
            !ok ==> *final(self) == *old(self),
            final(self).terminates == 0,
            final(self).collected == old(self).collected,
            final(self).n_workers == old(self).n_workers,
    {
        if self.submitted == u64::MAX {
            return false;
        }
        self.submitted = self.submitted + 1;
        self.releases = self.releases + 1;
        true
    }

    /// Records one result taken from the pool; only submitted work can come
    /// back.
    pub fn collect(&mut self)
        requires
            old(self).wf(),
            old(self).collected < old(self).submitted,
        ensures
            final(self).wf(),
            final(self).collected == old(self).collected + 1,
            final(self).submitted == old(self).submitted,
            final(self).terminates == old(self).terminates,
            final(self).releases == old(self).releases,
            final(self).n_workers == old(self).n_workers,
    {
        self.collected = self.collected + 1;
    }

    /// Records shutdown: exactly one terminate message and one release per
    /// worker, so the release count still matches the messages sent and no
    /// worker stays blocked on the semaphore.
    pub fn shutdown(&mut self) -> (ok: bool)
        requires
            old(self).wf(),
            old(self).terminates == 0,
        ensures
            final(self).wf(),
            ok == (old(self).releases <= u64::MAX - old(self).n_workers as u64),
            ok ==> final(self).terminates == final(self).n_workers as u64 && final(self).releases
                == old(self).releases + final(self).n_workers as u64,
            !ok ==> *final(self) == *old(self),
            final(self).n_workers == old(self).n_workers,
            final(self).submitted == old(self).submitted,
            final(self).collected == old(self).collected,
    {
        if self.releases > u64::MAX - (self.n_workers as u64) {
            return false;
        }
        self.terminates = self.n_workers as u64;
        self.releases = self.releases + (self.n_workers as u64);
        true
    }
}

/// After shutdown the ledger shows what keeps every worker able to exit:
/// the releases cover every work message and every terminate one-for-one.
pub proof fn lemma_shutdown_pairs_releases(ledger: PoolLedger)
    requires
        ledger.wf(),
        ledger.terminates == ledger.n_workers as u64,
    ensures
        ledger.releases == ledger.submitted + ledger.n_workers as u64,
{
}

} // verus!
