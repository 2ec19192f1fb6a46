use palette_gen::semaphore::Semaphore;
use palette_gen::rng::RandomSource;

#[test]
fn test_semaphore_counting() {
    let sem = Semaphore::new(2);
    assert!(sem.acquire());
    assert!(sem.acquire());
    // The count is now zero: the next acquire exhausts its retry budget.
    assert!(!sem.acquire());
    sem.release();
    assert!(sem.acquire());
}

#[test]
fn test_semaphore_starts_empty() {
    let sem = Semaphore::new(0);
    assert!(!sem.acquire());
    sem.release();
    sem.release();
    assert!(sem.acquire());
    assert!(sem.acquire());
    assert!(!sem.acquire());
}

#[test]
fn test_sample_index_in_range() {
    let mut source = RandomSource::from_seed(9);
    for n in 1usize..30 {
        let r = source.sample_index(n);
        assert!(r < n);
    }
    // A one-element range leaves no choice at all.
    assert_eq!(source.sample_index(1), 0);
}

#[test]
fn test_seeded_source_replays() {
    let data: Vec<palette_gen::pixel::Pixel> =
        (0u8..25).map(|i| palette_gen::pixel::Pixel::new(i, 100, i.wrapping_mul(9))).collect();
    let mut a = RandomSource::from_seed(123);
    let mut b = RandomSource::from_seed(123);
    let ca = palette_gen::kmeans::k_means_pp(5, &data, &mut a);
    let cb = palette_gen::kmeans::k_means_pp(5, &data, &mut b);
    assert_eq!(ca, cb);
}
