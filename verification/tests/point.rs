use lotsa::point::Point;

#[test]
fn test_point_splitting() {
    let p = Point::new(0, 0, 0);
    assert_eq!(p.x(), 0);
    assert_eq!(p.y(), 0);
    assert_eq!(p.z(), 0);

    let p = Point::new(1, 2, 3);
    assert_eq!(p.x(), 1);
    assert_eq!(p.y(), 2);
    assert_eq!(p.z(), 3);

    let p = Point::new(8, 9, 7);
    assert_eq!(p.x(), 8);
    assert_eq!(p.y(), 9);
    assert_eq!(p.z(), 7);

    let p = Point::new(15, 15, 15);
    assert_eq!(p.x(), 15);
    assert_eq!(p.y(), 15);
    assert_eq!(p.z(), 15);
}

#[test]
fn new_packs_the_coordinates_into_the_index() {
    assert_eq!(Point::new(0, 0, 0).raw_n(), 0);
    assert_eq!(Point::new(0, 0, 1).raw_n(), 1);
    assert_eq!(Point::new(0, 1, 0).raw_n(), 16);
    assert_eq!(Point::new(1, 0, 0).raw_n(), 256);
    assert_eq!(Point::new(1, 2, 3).raw_n(), 291);
    assert_eq!(Point::new(15, 15, 15).raw_n(), 4095);
}

#[test]
fn every_cell_decodes_to_its_coordinates_and_has_its_own_index() {
    let mut seen = vec![false; 4096];
    for x in 0..16u8 {
        for y in 0..16u8 {
            for z in 0..16u8 {
                let p = Point::new(x, y, z);
                assert_eq!((p.x(), p.y(), p.z()), (x, y, z));
                let n = p.raw_n() as usize;
                assert!(n < 4096);
                assert!(!seen[n]);
                seen[n] = true;
            }
        }
    }
    assert!(seen.iter().all(|&s| s));
}

#[test]
fn increment_walks_every_cell_once_and_then_stops() {
    let mut p = Point::new(0, 0, 0);
    let mut seen = vec![false; 4096];
    let mut visited = 0usize;
    loop {
        let n = p.raw_n() as usize;
        assert_eq!(n, visited);
        assert!(!seen[n]);
        seen[n] = true;
        visited += 1;
        if !p.increment() {
            break;
        }
    }
    assert_eq!(visited, 4096);
    assert!(seen.iter().all(|&s| s));
    assert_eq!(p, Point::new(15, 15, 15));
    assert!(!p.increment());
    assert_eq!(p.raw_n(), 4095);
}

#[test]
fn increment_moves_along_z_first() {
    let mut p = Point::new(0, 0, 15);
    assert!(p.increment());
    assert_eq!((p.x(), p.y(), p.z()), (0, 1, 0));
    let mut p = Point::new(3, 15, 15);
    assert!(p.increment());
    assert_eq!((p.x(), p.y(), p.z()), (4, 0, 0));
}

#[test]
fn points_are_ordered_by_their_index() {
    assert!(Point::new(0, 0, 1) < Point::new(0, 1, 0));
    assert!(Point::new(0, 15, 15) < Point::new(1, 0, 0));
    assert_eq!(Point::new(2, 3, 4), Point::new(2, 3, 4));
}
