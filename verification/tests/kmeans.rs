use palette_gen::error::ClusterError;
use palette_gen::kmeans::{ClusterVector, assign_centers, k_cluster, k_means_pp, update_centers,
    update_weights};
use palette_gen::pixel::Pixel;
use palette_gen::rng::RandomSource;

#[test]
fn test_update_weights() {
    let data = vec![
        Pixel::new(0, 0, 0),
        Pixel::new(4, 5, 6),
        Pixel::new(12, 8, 20),
        Pixel::new(16, 1, 42),
        Pixel::new(20, 12, 2),
    ];
    let mut weights = vec![u64::MAX; data.len()];

    let center1 = data[1];
    update_weights(&mut weights, &center1, &data);
    assert_eq!(weights, vec![77, 0, 269, 1456, 321]);

    let center2 = data[3];
    update_weights(&mut weights, &center2, &data);
    assert_eq!(weights, vec![77, 0, 269, 0, 321]);
}

#[test]
fn test_k_means_pp_centers_come_from_data() {
    let data: Vec<Pixel> = (0u8..40).map(|i| Pixel::new(i, i.wrapping_mul(3), 200 - i)).collect();
    let mut source = RandomSource::from_seed(11);
    let centers = k_means_pp(4, &data, &mut source);
    assert_eq!(centers.len(), 4);
    for c in centers.iter() {
        assert!(data.iter().any(|p| p == c));
    }
}

#[test]
fn test_k_means_pp_reaches_far_point() {
    // Nine identical points and one far away: whichever is drawn first,
    // weighted seeding must pick the other value second, since only it has
    // a positive weight.
    let mut data = vec![Pixel::new(0, 0, 0); 9];
    data.push(Pixel::new(200, 200, 200));
    let mut source = RandomSource::from_seed(3);
    let centers = k_means_pp(2, &data, &mut source);
    assert_eq!(centers.len(), 2);
    assert!(centers.contains(&Pixel::new(0, 0, 0)));
    assert!(centers.contains(&Pixel::new(200, 200, 200)));
}

#[test]
fn test_k_means_pp_all_points() {
    // With k equal to the number of distinct points, every point becomes a
    // center exactly once: a chosen point's weight drops to zero and is
    // never drawn again while another is positive.
    let data = vec![Pixel::new(0, 0, 0), Pixel::new(100, 0, 50), Pixel::new(10, 220, 3)];
    let mut source = RandomSource::from_seed(5);
    let mut centers = k_means_pp(3, &data, &mut source);
    assert_eq!(centers.len(), 3);
    for p in data.iter() {
        assert!(centers.contains(p));
    }
    centers.sort_by(|a, b| format!("{:?}", a).cmp(&format!("{:?}", b)));
    let mut expected = data.clone();
    expected.sort_by(|a, b| format!("{:?}", a).cmp(&format!("{:?}", b)));
    assert_eq!(centers, expected);
}

#[test]
fn test_k_cluster_invalid_configuration() {
    let data = vec![Pixel::new(1, 2, 3), Pixel::new(4, 5, 6)];
    let mut source = RandomSource::from_seed(1);
    assert_eq!(k_cluster(0, data.clone(), &mut source), Err(ClusterError::InvalidConfiguration));
    assert_eq!(k_cluster(3, data.clone(), &mut source), Err(ClusterError::InvalidConfiguration));
    let ok = k_cluster(2, data, &mut source);
    assert!(ok.is_ok());
    assert_eq!(ok.unwrap().len(), 2);
}

fn total_cost(cluster_vecs: &[ClusterVector], centers: &[Pixel]) -> u64 {
    cluster_vecs
        .iter()
        .map(|cv| cv.vector.distance(&centers[cv.assignment as usize]) as u64)
        .sum()
}

#[test]
fn test_lloyd_iterations_never_increase_cost() {
    let data: Vec<Pixel> = (0u8..60)
        .map(|i| Pixel::new(i.wrapping_mul(17), i.wrapping_mul(41), i.wrapping_mul(7)))
        .collect();
    let mut source = RandomSource::from_seed(21);
    let mut centers = k_means_pp(4, &data, &mut source);
    let mut cluster_vecs: Vec<ClusterVector> = data.iter().map(|p| ClusterVector::new(*p)).collect();

    assign_centers(&centers, &mut cluster_vecs);
    let mut cost = total_cost(&cluster_vecs, &centers);
    for _ in 0..8 {
        centers = update_centers(&centers, &cluster_vecs);
        assign_centers(&centers, &mut cluster_vecs);
        let next_cost = total_cost(&cluster_vecs, &centers);
        assert!(next_cost <= cost);
        cost = next_cost;
    }
}

#[test]
fn test_convergence_three_clusters() {
    // Three well-separated synthetic clusters of 50 points each with small
    // deterministic jitter; the run must converge to one center near each
    // planted centroid.
    let planted: [u8; 3] = [10, 120, 230];
    let mut data: Vec<Pixel> = Vec::new();
    for &base in planted.iter() {
        for i in 0..50i32 {
            let d = (i % 7 - 3) as i32;
            let v = (base as i32 + d) as u8;
            let w = (base as i32 - d) as u8;
            data.push(Pixel::new(v, w, v));
        }
    }
    let mut source = RandomSource::from_seed(7);
    let centers = k_cluster(3, data, &mut source).unwrap();
    assert_eq!(centers.len(), 3);
    for &base in planted.iter() {
        let near = centers.iter().any(|c| {
            let dr = (c.r as i32 - base as i32).abs();
            let dg = (c.g as i32 - base as i32).abs();
            let db = (c.b as i32 - base as i32).abs();
            dr <= 6 && dg <= 6 && db <= 6
        });
        assert!(near);
    }
}

#[test]
fn test_update_centers_empty_cluster_keeps_center() {
    // Every point sits in cluster 0; cluster 1 is empty and must keep its
    // previous center.
    let cluster_vecs = vec![
        ClusterVector { assignment: 0, vector: Pixel::new(10, 10, 10) },
        ClusterVector { assignment: 0, vector: Pixel::new(20, 20, 20) },
    ];
    let centers = vec![Pixel::new(0, 0, 0), Pixel::new(99, 98, 97)];
    let updated = update_centers(&centers, &cluster_vecs);
    assert_eq!(updated, vec![Pixel::new(15, 15, 15), Pixel::new(99, 98, 97)]);
}
