use download_iglive::error::IgLiveError;
use download_iglive::kind::MediaType;
use download_iglive::mpd::{
    segment_file_name, AdaptationSet, Mpd, Period, Representation, Segment, SegmentTemplate,
    SegmentTimeline,
};

fn rep(mime: &str, bandwidth: usize, media: &str) -> Representation {
    Representation {
        segment_template: SegmentTemplate {
            segment_timeline: SegmentTimeline { segments: vec![Segment { t: 1000, d: 2000 }] },
            initialization_path: "dash-init.m4v".to_string(),
            media_path: media.to_string(),
        },
        mime_type: mime.to_string(),
        width: None,
        height: None,
        frame_rate: None,
        bandwidth,
    }
}

fn set(reps: Vec<Representation>) -> AdaptationSet {
    AdaptationSet { representations: reps, max_width: None, max_height: None, max_frame_rate: None }
}

fn manifest(sets: Vec<AdaptationSet>) -> Mpd {
    Mpd { period: Period { adaptation_sets: sets }, id: "17".to_string(), start_frame: 0, finished: false }
}

#[test]
fn best_media_takes_highest_bandwidth() {
    let m = manifest(vec![
        set(vec![rep("video/mp4", 300, "a"), rep("video/mp4", 900, "b"), rep("video/mp4", 900, "c")]),
        set(vec![rep("audio/mp4", 64, "d"), rep("audio/mp4", 128, "e")]),
    ]);
    assert!(m.has_media("video"));
    assert!(m.has_media("audio"));
    let (v, a) = m.best_media();
    assert_eq!(v.segment_template.media_path, "b");
    assert_eq!(a.segment_template.media_path, "e");
}

#[test]
fn has_media_needs_positive_bandwidth() {
    let m = manifest(vec![set(vec![rep("video/mp4", 0, "a"), rep("text/vtt", 5, "b")])]);
    assert!(!m.has_media("video"));
    assert!(!m.has_media("audio"));
}

#[test]
fn media_type_from_mime() {
    assert_eq!(rep("video/mp4", 1, "").media_type(), MediaType::Video);
    assert_eq!(rep("audio/mp4", 1, "").media_type(), MediaType::Audio);
    assert_eq!(rep("video", 1, "").media_type(), MediaType::Unknown);
    assert_eq!(rep("text/vtt", 1, "").media_type(), MediaType::Unknown);
}

#[test]
fn media_path_substitutes_time() {
    let r = rep("video/mp4", 1, "seg-$Time$-v.m4v");
    assert_eq!(r.media_path_at(1234567), "seg-1234567-v.m4v");
    assert_eq!(r.media_path_at(0), "seg-0-v.m4v");
    let twice = rep("video/mp4", 1, "$Time$/$Time$$Tim");
    assert_eq!(twice.media_path_at(42), "42/42$Tim");
}

#[test]
fn download_url_joins_base() {
    let base = "https://host.example/live/abc/manifest.mpd?x=1";
    let r = rep("video/mp4", 1, "../abc/seg-$Time$.m4v");
    let u = r.download_url(base, 4000).unwrap();
    assert_eq!(u, "https://host.example/live/abc/seg-4000.m4v");
    assert_eq!(segment_file_name(&u), Ok("seg-4000.m4v".to_string()));
    let init = r.init_url(base).unwrap();
    assert_eq!(init, "https://host.example/live/abc/dash-init.m4v");
}

#[test]
fn download_url_needs_absolute_base() {
    let r = rep("video/mp4", 1, "seg-$Time$.m4v");
    assert_eq!(r.download_url("not a url", 1), Err(IgLiveError::InvalidUrl));
    assert_eq!(r.init_url(""), Err(IgLiveError::InvalidUrl));
}

#[test]
fn file_name_needs_a_path() {
    assert_eq!(segment_file_name("data:text/plain,hello"), Err(IgLiveError::InvalidUrl));
    assert_eq!(segment_file_name("no url"), Err(IgLiveError::InvalidUrl));
    assert_eq!(segment_file_name("https://host.example"), Ok(String::new()));
    assert_eq!(segment_file_name("https://host.example/a/b/"), Ok(String::new()));
    assert_eq!(segment_file_name("https://host.example/a/b.m4a?q=1"), Ok("b.m4a".to_string()));
}

#[test]
fn broadcast_ended_header() {
    assert!(download_iglive::mpd::broadcast_ended("1"));
    assert!(!download_iglive::mpd::broadcast_ended("0"));
    assert!(!download_iglive::mpd::broadcast_ended("11"));
    assert!(!download_iglive::mpd::broadcast_ended(""));
}
