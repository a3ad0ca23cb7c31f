use download_iglive::kind::MediaType;
use download_iglive::merge::{find_pts_gaps, segment_kind, sort_segments};

#[test]
fn segment_kind_by_extension() {
    assert_eq!(segment_kind("123-v.m4v"), MediaType::Video);
    assert_eq!(segment_kind("123-a.m4a"), MediaType::Audio);
    assert_eq!(segment_kind("video.tmp"), MediaType::Unknown);
    assert_eq!(segment_kind("m4v"), MediaType::Unknown);
}

#[test]
fn segments_sorted_alphanumerically() {
    let paths = vec![
        "out/shot-2.m4v".to_string(),
        "out/shot-1.m4v".to_string(),
        "out/shot-11.m4v".to_string(),
        "out/shot-10.m4v".to_string(),
    ];
    assert_eq!(
        sort_segments(&paths),
        vec![
            "out/shot-1.m4v".to_string(),
            "out/shot-2.m4v".to_string(),
            "out/shot-10.m4v".to_string(),
            "out/shot-11.m4v".to_string(),
        ]
    );
    assert_eq!(sort_segments(&vec![]), Vec::<String>::new());
}

#[test]
fn pts_gaps_found() {
    assert_eq!(find_pts_gaps(&vec![(0, 100), (100, 200), (250, 300), (300, 400)]), vec![200]);
    assert_eq!(find_pts_gaps(&vec![(5, 10)]), Vec::<usize>::new());
    assert_eq!(find_pts_gaps(&vec![(0, 2), (1, 3), (9, 9)]), vec![2, 3]);
}
