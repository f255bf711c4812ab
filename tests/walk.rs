use gargantua::utils::DimIterator;

#[test]
fn dimiterator_works() {
    let it = DimIterator::new(2, 2);
    assert_eq!(it.positions(), vec![(0, 0), (1, 0), (0, 1), (1, 1)]);
}

#[test]
fn dimiterator_with_xy() {
    let it = DimIterator::create(2, 2, 3, 3);

    assert_eq!(it.positions(), vec![(3, 3), (4, 3), (3, 4), (4, 4)]);
}

#[test]
fn dimiterator_empty() {
    let mut it = DimIterator::new(0, 0);
    assert_eq!(it.next(), None);
}

#[test]
fn dimiterator_zero_width_with_height() {
    let mut it = DimIterator::new(0, 5);
    assert_eq!(it.next(), None);
    assert_eq!(it.next(), None);
}

#[test]
fn dimiterator_stays_done() {
    let mut it = DimIterator::new(1, 1);
    assert_eq!(it.next(), Some((0, 0)));
    assert_eq!(it.next(), None);
    assert_eq!(it.next(), None);
}

#[test]
fn dimiterator_rest_after_next() {
    let mut it = DimIterator::create(3, 2, 10, 20);
    assert_eq!(it.next(), Some((10, 20)));
    assert_eq!(it.next(), Some((11, 20)));
    assert_eq!(it.positions(), vec![(12, 20), (10, 21), (11, 21), (12, 21)]);
}

#[test]
fn dimiterator_single_row() {
    let it = DimIterator::create(4, 1, 0, 7);
    assert_eq!(it.positions(), vec![(0, 7), (1, 7), (2, 7), (3, 7)]);
}

#[test]
fn dimiterator_reaches_u32_edge() {
    let it = DimIterator::create(2, 1, u32::MAX - 1, u32::MAX);
    assert_eq!(it.positions(), vec![(u32::MAX - 1, u32::MAX), (u32::MAX, u32::MAX)]);
}
