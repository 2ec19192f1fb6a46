use palette_gen::pixel::Pixel;

#[test]
fn test_distance() {
    let p = Pixel::new(12, 4, 20);
    assert_eq!(p.distance(&Pixel::new(8, 5, 18)), 21);
    assert_eq!(p.distance(&Pixel::new(16, 3, 22)), 21);
    assert_eq!(p.distance(&Pixel::new(12, 4, 20)), 0);
}

#[test]
fn test_distance_symmetric() {
    let pairs = [
        (Pixel::new(0, 0, 0), Pixel::new(255, 255, 255)),
        (Pixel::new(1, 2, 3), Pixel::new(9, 8, 7)),
        (Pixel::new(200, 10, 99), Pixel::new(13, 240, 5)),
    ];
    for (p, q) in pairs.iter() {
        assert_eq!(p.distance(q), q.distance(p));
    }
    let r = Pixel::new(77, 88, 99);
    assert_eq!(r.distance(&r), 0);
}

#[test]
fn test_average_single() {
    let vs = vec![Pixel::new(41, 0, 255)];
    assert_eq!(Pixel::average(&vs), Pixel::new(41, 0, 255));
}

#[test]
fn test_average_rounding() {
    // Componentwise mean, rounded to nearest with halves up: (0+5)/2 = 2.5
    // rounds to 3, (0+4)/2 = 2 stays 2, (3+4)/2 = 3.5 rounds to 4.
    let vs = vec![Pixel::new(0, 0, 3), Pixel::new(5, 4, 4)];
    assert_eq!(Pixel::average(&vs), Pixel::new(3, 2, 4));
    let equal = vec![Pixel::new(9, 9, 9), Pixel::new(9, 9, 9), Pixel::new(9, 9, 9)];
    assert_eq!(Pixel::average(&equal), Pixel::new(9, 9, 9));
}

#[test]
fn test_as_hex() {
    assert_eq!(Pixel::new(255, 0, 16).as_hex().as_str(), "#ff0010");
    assert_eq!(Pixel::new(0, 0, 0).as_hex().as_str(), "#000000");
    assert_eq!(Pixel::new(18, 52, 86).as_hex().as_str(), "#123456");
}
