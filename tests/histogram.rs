use download_iglive::histogram::DeltaHistogram;

fn histogram(entries: &[(isize, u64)]) -> DeltaHistogram {
    let mut h = DeltaHistogram::new();
    for &(k, c) in entries {
        h.set(k, c);
    }
    h
}

#[test]
fn seed_sorted_by_count() {
    let h = histogram(&[(2000, 10), (100, 5), (1800, 1), (1833, 1), (1867, 1)]);
    assert_eq!(h.seed(), vec![2000, 100, 1800, 1833, 1867]);
}

#[test]
fn seed_ties_keep_insertion_order() {
    let h = histogram(&[(7, 1), (3, 2), (9, 1), (4, 2), (1, 3)]);
    assert_eq!(h.seed(), vec![1, 3, 4, 7, 9]);
}

#[test]
fn prior_histogram() {
    let h = DeltaHistogram::prior();
    assert_eq!(h.count(2000), 10);
    assert_eq!(h.count(100), 5);
    assert_eq!(h.count(1833), 1);
    assert_eq!(h.count(2267), 1);
    assert_eq!(h.count(2300), 0);
    assert_eq!(
        h.seed(),
        vec![
            2000, 100, 1800, 1833, 1867, 1900, 1933, 1967, 2033, 2067, 2100, 2133, 2167, 2200,
            2233, 2267
        ]
    );
}

#[test]
fn increment_adds_one() {
    let mut h = histogram(&[(2000, 10), (100, 5)]);
    h.increment(100);
    assert_eq!(h.count(100), 6);
    assert_eq!(h.count(2000), 10);
    h.increment(1950);
    assert_eq!(h.count(1950), 1);
    assert_eq!(h.seed(), vec![2000, 100, 1950]);
    let mut full = histogram(&[(5, u64::MAX)]);
    full.increment(5);
    assert_eq!(full.count(5), u64::MAX);
}

#[test]
fn set_replaces_in_place() {
    let mut h = histogram(&[(1, 1), (2, 1), (3, 1)]);
    h.set(2, 9);
    assert_eq!(h.count(2), 9);
    assert_eq!(h.seed(), vec![2, 1, 3]);
}
