use palette_gen::kdtree::KDTree;
use palette_gen::pixel::Pixel;

fn get_test_pixels() -> Vec<Pixel> {
    vec![
        Pixel::new(1, 4, 7),
        Pixel::new(6, 0, 1),
        Pixel::new(2, 5, 3),
        Pixel::new(4, 4, 4),
        Pixel::new(7, 8, 9),
        Pixel::new(3, 2, 1),
    ]
}

#[test]
fn test_new() {
    let data = get_test_pixels();
    let kdtree = KDTree::new(&data);

    assert_eq!(kdtree.pixel, Pixel::new(4, 4, 4));
    assert!(kdtree.left.is_some());
    assert!(kdtree.right.is_some());

    let left = kdtree.left.unwrap();
    assert_eq!(left.pixel, Pixel::new(1, 4, 7));
    assert!(left.left.is_some());
    assert!(left.right.is_some());

    let right = kdtree.right.unwrap();
    assert_eq!(right.pixel, Pixel::new(7, 8, 9));
    assert!(right.left.is_some());
    assert!(right.right.is_none());

    let left_left = left.left.unwrap();
    assert_eq!(left_left.pixel, Pixel::new(3, 2, 1));
    assert!(left_left.left.is_none());
    assert!(left_left.right.is_none());

    let left_right = left.right.unwrap();
    assert_eq!(left_right.pixel, Pixel::new(2, 5, 3));
    assert!(left_right.left.is_none());
    assert!(left_right.right.is_none());

    let right_left = right.left.unwrap();
    assert_eq!(right_left.pixel, Pixel::new(6, 0, 1));
    assert!(right_left.left.is_none());
    assert!(right_left.right.is_none());
}

#[test]
fn test_find() {
    let data = get_test_pixels();
    let tree = KDTree::new(&data);

    assert!(tree.find(&Pixel::new(3, 2, 1)));
    assert!(tree.find(&Pixel::new(4, 4, 4)));
    assert!(!tree.find(&Pixel::new(0, 0, 0)));
    assert!(!tree.find(&Pixel::new(6, 7, 4)));
}

#[test]
fn test_find_every_member() {
    let data = get_test_pixels();
    let tree = KDTree::new(&data);
    for p in data.iter() {
        assert!(tree.find(p));
    }
}

fn size(node: &Option<Box<KDTree>>) -> i64 {
    match node {
        None => 0,
        Some(t) => 1 + size(&t.left) + size(&t.right),
    }
}

fn check_balanced(node: &Option<Box<KDTree>>) {
    if let Some(t) = node {
        assert!((size(&t.left) - size(&t.right)).abs() <= 1);
        check_balanced(&t.left);
        check_balanced(&t.right);
    }
}

#[test]
fn test_balanced_sizes() {
    for n in 1u8..40 {
        let data: Vec<Pixel> =
            (0..n).map(|i| Pixel::new(i.wrapping_mul(37), i, 255 - i)).collect();
        let tree = KDTree::new(&data);
        assert!((size(&tree.left) - size(&tree.right)).abs() <= 1);
        check_balanced(&tree.left);
        check_balanced(&tree.right);
    }
}

#[test]
fn test_single_point_tree() {
    let data = vec![Pixel::new(5, 5, 5)];
    let tree = KDTree::new(&data);
    assert_eq!(tree.pixel, Pixel::new(5, 5, 5));
    assert!(tree.left.is_none());
    assert!(tree.right.is_none());
    assert!(tree.find(&Pixel::new(5, 5, 5)));
    assert!(!tree.find(&Pixel::new(5, 5, 6)));
}
