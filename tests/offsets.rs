use download_iglive::offsets::OffsetRange;

#[test]
fn offset_range() {
    let mut range = OffsetRange::new(5, vec![2000, 2001, 2003]);
    while let Some(x) = range.next() {
        println!("{}", x);
    }
}

#[test]
fn offset_range_order_around_seed() {
    let values = OffsetRange::new(5, vec![2000, 2001, 2003]).into_vec();
    assert_eq!(
        values,
        vec![2000, 2001, 2003, 2002, 2004, 1999, 2005, 1998, 2006, 1997, 2007, 1996, 2008, 1995]
    );
}

#[test]
fn offset_range_has_no_duplicates() {
    let values = OffsetRange::new(10, vec![2000, 100, 1800, 1833, 1867, 2000, 1801]).into_vec();
    for i in 0..values.len() {
        for j in 0..i {
            assert_ne!(values[i], values[j]);
        }
    }
}

#[test]
fn offset_range_is_positive() {
    let values = OffsetRange::new(4, vec![3, 1, -2, 0, 2]).into_vec();
    assert!(!values.is_empty());
    assert!(values.iter().all(|&v| v > 0));
}

#[test]
fn offset_range_seed_comes_first() {
    let values = OffsetRange::new(3, vec![50, 7, 50, -4, 12, 7]).into_vec();
    assert_eq!(values[..3], [50, 7, 12]);
}

#[test]
fn offset_range_small_cases() {
    assert_eq!(OffsetRange::new(1, vec![3, 1, 3, -2]).into_vec(), vec![3, 1, 4, 2]);
    assert_eq!(OffsetRange::new(0, vec![5, 5, 0, 7]).into_vec(), vec![5, 7]);
    assert_eq!(OffsetRange::new(-3, vec![5, 6]).into_vec(), vec![5, 6]);
}

#[test]
fn offset_range_halts_and_stays_done() {
    let mut empty = OffsetRange::new(10, vec![]);
    assert_eq!(empty.next(), None);
    assert_eq!(empty.next(), None);
    let mut range = OffsetRange::new(2, vec![10]);
    let mut count = 0;
    while range.next().is_some() {
        count += 1;
    }
    assert_eq!(count, 5);
    assert_eq!(range.next(), None);
}

#[test]
fn offset_range_largest_values() {
    let values = OffsetRange::new(2, vec![isize::MAX - 1]).into_vec();
    assert_eq!(values, vec![isize::MAX - 1, isize::MAX, isize::MAX - 2, isize::MAX - 3]);
}
