use palette_gen::kmeans::index_of_closest_center;
use palette_gen::pixel::Pixel;
use palette_gen::pool::{PoolLedger, WorkResult, apply_assignments, compute_shard, merge_results,
    shard_ranges};
use palette_gen::kmeans::ClusterVector;

#[test]
fn test_shard_ranges_partition() {
    let items = shard_ranges(10, 3);
    assert_eq!(items.len(), 3);
    assert_eq!((items[0].start, items[0].end), (0, 3));
    assert_eq!((items[1].start, items[1].end), (3, 6));
    assert_eq!((items[2].start, items[2].end), (6, 10));
    for (j, it) in items.iter().enumerate() {
        assert_eq!(it.shard_id, j);
    }
    let empty = shard_ranges(0, 4);
    assert_eq!(empty.len(), 4);
    assert!(empty.iter().all(|it| it.start == 0 && it.end == 0));
}

#[test]
fn test_merge_out_of_order_results() {
    // Jobs submitted as three shards come back in a scrambled order; the
    // merged assignment list must still equal the sequential one.
    let data: Vec<Pixel> = (0u8..10).map(|i| Pixel::new(i.wrapping_mul(25), i, 255 - i)).collect();
    let centers = vec![Pixel::new(0, 0, 255), Pixel::new(250, 10, 245)];
    let items = shard_ranges(data.len(), 3);

    let mut results: Vec<WorkResult> = items.iter().map(|it| compute_shard(&data, &centers, it)).collect();
    results.rotate_left(2);
    assert_eq!(results[0].shard_id, 2);

    let merged = merge_results(&items, &results, data.len()).unwrap();
    assert_eq!(merged.len(), data.len());
    for (i, p) in data.iter().enumerate() {
        assert_eq!(merged[i], index_of_closest_center(p, &centers));
    }
}

#[test]
fn test_merge_refuses_duplicate_shard() {
    let data: Vec<Pixel> = (0u8..6).map(|i| Pixel::new(i, i, i)).collect();
    let centers = vec![Pixel::new(0, 0, 0)];
    let items = shard_ranges(data.len(), 2);
    let r0 = compute_shard(&data, &centers, &items[0]);
    let duplicated = vec![r0.clone(), r0];
    assert!(merge_results(&items, &duplicated, data.len()).is_none());
}

#[test]
fn test_merge_refuses_short_delivery() {
    let data: Vec<Pixel> = (0u8..6).map(|i| Pixel::new(i, i, i)).collect();
    let centers = vec![Pixel::new(0, 0, 0)];
    let items = shard_ranges(data.len(), 2);
    let only_one = vec![compute_shard(&data, &centers, &items[0])];
    assert!(merge_results(&items, &only_one, data.len()).is_none());
}

#[test]
fn test_apply_assignments_counts_changes() {
    let mut cluster_vecs = vec![
        ClusterVector { assignment: 0, vector: Pixel::new(1, 1, 1) },
        ClusterVector { assignment: 1, vector: Pixel::new(2, 2, 2) },
        ClusterVector { assignment: 0, vector: Pixel::new(3, 3, 3) },
    ];
    let more = apply_assignments(&mut cluster_vecs, &vec![0, 0, 1]);
    assert!(more);
    assert_eq!(cluster_vecs[0].assignment, 0);
    assert_eq!(cluster_vecs[1].assignment, 0);
    assert_eq!(cluster_vecs[2].assignment, 1);
}

#[test]
fn test_ledger_pairs_terminates_with_releases() {
    // Submitting N jobs yields N collectable results, and shutdown pairs
    // one terminate with one release per worker, so no worker can stay
    // blocked on the semaphore.
    let n_jobs: u64 = 8;
    let mut ledger = PoolLedger::new(4);
    for _ in 0..n_jobs {
        assert!(ledger.submit());
    }
    assert_eq!(ledger.submitted, n_jobs);
    assert_eq!(ledger.releases, n_jobs);
    for _ in 0..n_jobs {
        ledger.collect();
    }
    assert_eq!(ledger.collected, n_jobs);
    assert!(ledger.shutdown());
    assert_eq!(ledger.terminates, 4);
    assert_eq!(ledger.releases, n_jobs + 4);
}
