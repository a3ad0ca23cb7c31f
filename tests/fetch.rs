use download_iglive::error::IgLiveError;
use download_iglive::fetch::{accept_init_response, accept_segment_response, check_status};
use download_iglive::kind::MediaType;
use download_iglive::pts::parse_probe_output;
use download_iglive::state::State;

#[test]
fn not_found_status() {
    assert_eq!(check_status(404, "http://h/a.m4v"), Err(IgLiveError::StatusNotFound));
}

#[test]
fn other_failing_status() {
    assert_eq!(
        check_status(500, "http://h/a.m4v"),
        Err(IgLiveError::StatusError(500, "http://h/a.m4v".to_string()))
    );
    assert_eq!(
        check_status(302, "u"),
        Err(IgLiveError::StatusError(302, "u".to_string()))
    );
    assert_eq!(check_status(200, "u"), Ok(()));
    assert_eq!(check_status(204, "u"), Ok(()));
}

#[test]
fn segment_response_404_writes_nothing() {
    let mut s = State::new();
    s.set_init(MediaType::Video, vec![1, 2]);
    let r = accept_segment_response(&s, MediaType::Video, 404, "http://h/x.m4v", &vec![5, 6]);
    assert_eq!(r, Err(IgLiveError::StatusNotFound));
}

#[test]
fn segment_response_prepends_init() {
    let mut s = State::new();
    s.set_init(MediaType::Audio, vec![1, 2]);
    let r = accept_segment_response(&s, MediaType::Audio, 200, "http://h/x.m4a", &vec![5, 6]);
    assert_eq!(r, Ok(vec![1, 2, 5, 6]));
    let r = accept_segment_response(&s, MediaType::Video, 200, "http://h/x.m4v", &vec![5, 6]);
    assert_eq!(r, Err(IgLiveError::MissingInit));
}

#[test]
fn init_response_is_kept_on_success_only() {
    let mut s = State::new();
    assert_eq!(
        accept_init_response(&mut s, MediaType::Video, 403, "i", vec![7]),
        Err(IgLiveError::StatusError(403, "i".to_string()))
    );
    assert!(!s.has_init(MediaType::Video));
    assert_eq!(accept_init_response(&mut s, MediaType::Video, 200, "i", vec![7]), Ok(()));
    assert_eq!(s.segment_bytes(MediaType::Video, &vec![8]), Ok(vec![7, 8]));
}

#[test]
fn probe_output_parsed() {
    assert_eq!(parse_probe_output("100|200\n"), Some((100, 200)));
    assert_eq!(parse_probe_output("  7 | 18446744073709551615 \r\n"), Some((7, usize::MAX)));
    assert_eq!(parse_probe_output("+3|0"), Some((3, 0)));
    assert_eq!(parse_probe_output("1|2|3"), None);
    assert_eq!(parse_probe_output("12"), None);
    assert_eq!(parse_probe_output("|5"), None);
    assert_eq!(parse_probe_output("a|5"), None);
    assert_eq!(parse_probe_output("18446744073709551616|1"), None);
    assert_eq!(parse_probe_output("-1|1"), None);
}
