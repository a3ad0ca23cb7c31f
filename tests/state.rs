use download_iglive::error::IgLiveError;
use download_iglive::kind::MediaType;
use download_iglive::state::State;

#[test]
fn new_state_is_empty_with_prior() {
    let s = State::new();
    for kind in [MediaType::Video, MediaType::Audio] {
        assert!(!s.has_init(kind));
        assert_eq!(s.oldest(kind), None);
        assert_eq!(s.newest(kind), None);
        assert_eq!(s.back_pts(kind), None);
        assert_eq!(s.deltas(kind).count(2000), 10);
        assert_eq!(s.deltas(kind).count(100), 5);
        assert_eq!(s.deltas(kind).count(2133), 1);
    }
}

#[test]
fn init_then_body_round_trip() {
    let mut s = State::new();
    let body = vec![9u8, 8, 7];
    assert_eq!(s.segment_bytes(MediaType::Video, &body), Err(IgLiveError::MissingInit));
    s.set_init(MediaType::Video, vec![1, 2, 3, 4]);
    assert!(s.has_init(MediaType::Video));
    assert!(!s.has_init(MediaType::Audio));
    assert_eq!(s.segment_bytes(MediaType::Video, &body), Ok(vec![1, 2, 3, 4, 9, 8, 7]));
    assert_eq!(s.segment_bytes(MediaType::Video, &vec![]), Ok(vec![1, 2, 3, 4]));
}

#[test]
fn downloaded_segments_are_recorded_once() {
    let mut s = State::new();
    assert!(s.mark_downloaded(MediaType::Audio, 4000));
    assert!(s.mark_downloaded(MediaType::Audio, 2000));
    assert!(s.mark_downloaded(MediaType::Audio, 6000));
    assert!(!s.mark_downloaded(MediaType::Audio, 4000));
    assert!(s.is_downloaded(MediaType::Audio, 2000));
    assert!(!s.is_downloaded(MediaType::Video, 2000));
    assert_eq!(s.oldest(MediaType::Audio), Some(2000));
    assert_eq!(s.newest(MediaType::Audio), Some(6000));
    assert_eq!(s.oldest(MediaType::Video), None);
}

#[test]
fn pts_check_accepts_matching_end() {
    let mut s = State::new();
    assert_eq!(s.check_pts(MediaType::Video, false, 200, 50), Ok(()));
    assert_eq!(s.back_pts(MediaType::Video), Some(200));
    assert_eq!(s.check_pts(MediaType::Video, true, 100, 200), Ok(()));
    assert_eq!(s.back_pts(MediaType::Video), Some(100));
}

#[test]
fn pts_check_rejects_other_end() {
    let mut s = State::new();
    assert_eq!(s.check_pts(MediaType::Audio, false, 250, 0), Ok(()));
    assert_eq!(s.check_pts(MediaType::Audio, true, 100, 200), Err(IgLiveError::PtsTooEarly));
    assert_eq!(s.back_pts(MediaType::Audio), Some(250));
    assert_eq!(s.check_pts(MediaType::Video, true, 100, 200), Err(IgLiveError::PtsTooEarly));
    assert_eq!(s.back_pts(MediaType::Video), None);
}

#[test]
fn watermark_never_rises() {
    let mut s = State::new();
    assert_eq!(s.check_pts(MediaType::Video, false, 500, 0), Ok(()));
    assert_eq!(s.check_pts(MediaType::Video, false, 900, 0), Ok(()));
    assert_eq!(s.back_pts(MediaType::Video), Some(500));
}

#[test]
fn recorded_delta_counts_one_more() {
    let mut s = State::new();
    s.record_delta(MediaType::Video, 100);
    assert_eq!(s.deltas(MediaType::Video).count(100), 6);
    assert_eq!(s.deltas(MediaType::Audio).count(100), 5);
    s.record_delta(MediaType::Video, 1999);
    assert_eq!(s.deltas(MediaType::Video).count(1999), 1);
}
