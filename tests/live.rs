use download_iglive::forwards::{check_overlap, LiveAction, LiveLoop};
use download_iglive::kind::MediaType;
use download_iglive::mpd::{Representation, Segment, SegmentTemplate, SegmentTimeline};
use download_iglive::state::State;

fn rep(mime: &str, ts: &[usize]) -> Representation {
    Representation {
        segment_template: SegmentTemplate {
            segment_timeline: SegmentTimeline {
                segments: ts.iter().map(|&t| Segment { t, d: 2000 }).collect(),
            },
            initialization_path: "init.m4v".to_string(),
            media_path: "seg-$Time$.m4v".to_string(),
        },
        mime_type: mime.to_string(),
        width: None,
        height: None,
        frame_rate: None,
        bandwidth: 1000,
    }
}

#[test]
fn overlap_is_checked_against_listing() {
    let r = rep("video/mp4", &[1000, 3000]);
    assert!(check_overlap(&r, 3000));
    assert!(!check_overlap(&r, 2000));
}

#[test]
fn live_loop_stops_after_draining_finished_listing() {
    let mut s = State::new();
    s.mark_downloaded(MediaType::Video, 1000);
    s.mark_downloaded(MediaType::Audio, 1000);
    let video = rep("video/mp4", &[1000, 3000]);
    let audio = rep("audio/mp4", &[1000, 3000]);
    let mut live = LiveLoop::new();
    assert_eq!(live.next_action(&s), LiveAction::Wait);
    live.on_manifest(&s, &video, &audio, true);
    assert!(live.finished());
    let mut actions = Vec::new();
    loop {
        let a = live.next_action(&s);
        actions.push(a);
        match a {
            LiveAction::Fetch { kind, t } => {
                s.mark_downloaded(kind, t);
            }
            LiveAction::Stop | LiveAction::Wait => break,
            LiveAction::MissedLive { .. } => {}
        }
    }
    assert_eq!(
        actions,
        vec![
            LiveAction::Fetch { kind: MediaType::Video, t: 3000 },
            LiveAction::Fetch { kind: MediaType::Audio, t: 3000 },
            LiveAction::Stop,
        ]
    );
    assert_eq!(live.next_action(&s), LiveAction::Stop);
}

#[test]
fn live_loop_waits_and_warns_on_missed_window() {
    let mut s = State::new();
    s.mark_downloaded(MediaType::Video, 500);
    s.mark_downloaded(MediaType::Audio, 3000);
    let video = rep("video/mp4", &[3000, 5000]);
    let audio = rep("audio/mp4", &[3000, 5000]);
    let mut live = LiveLoop::new();
    live.on_manifest(&s, &video, &audio, false);
    assert_eq!(live.next_action(&s), LiveAction::Fetch { kind: MediaType::Video, t: 3000 });
    s.mark_downloaded(MediaType::Video, 3000);
    assert_eq!(live.next_action(&s), LiveAction::Fetch { kind: MediaType::Video, t: 5000 });
    s.mark_downloaded(MediaType::Video, 5000);
    assert_eq!(live.next_action(&s), LiveAction::Fetch { kind: MediaType::Audio, t: 5000 });
    s.mark_downloaded(MediaType::Audio, 5000);
    assert_eq!(
        live.next_action(&s),
        LiveAction::MissedLive { kind: MediaType::Video, t: 500 }
    );
    assert_eq!(live.next_action(&s), LiveAction::Wait);
}

#[test]
fn live_loop_skips_repeated_listing() {
    let mut s = State::new();
    let video = rep("video/mp4", &[7000, 7000]);
    let audio = rep("audio/mp4", &[]);
    let mut live = LiveLoop::new();
    live.on_manifest(&s, &video, &audio, true);
    assert_eq!(live.next_action(&s), LiveAction::Fetch { kind: MediaType::Video, t: 7000 });
    s.mark_downloaded(MediaType::Video, 7000);
    assert_eq!(live.next_action(&s), LiveAction::Stop);
}
