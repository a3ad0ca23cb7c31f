use download_iglive::backwards::{FetchOutcome, Recovery, RecoveryStep};
use download_iglive::kind::MediaType;
use download_iglive::state::State;

fn state_with(kind: MediaType, ts: &[usize]) -> State {
    let mut s = State::new();
    for &t in ts {
        s.mark_downloaded(kind, t);
    }
    s
}

#[test]
fn recovery_needs_a_segment() {
    let s = State::new();
    assert!(Recovery::new(&s, MediaType::Video, 0).is_none());
}

#[test]
fn recovery_finishes_at_start_frame() {
    let s = state_with(MediaType::Video, &[10000, 12000]);
    let mut r = Recovery::new(&s, MediaType::Video, 10000).unwrap();
    assert_eq!(r.latest(), 10000);
    assert_eq!(r.next_step(&s), RecoveryStep::Finished);
    let mut r = Recovery::new(&s, MediaType::Video, 15000).unwrap();
    assert_eq!(r.next_step(&s), RecoveryStep::Finished);
}

#[test]
fn recovery_tries_most_frequent_delta_first() {
    let mut s = state_with(MediaType::Video, &[12000, 10000]);
    let mut r = Recovery::new(&s, MediaType::Video, 0).unwrap();
    assert_eq!(r.next_step(&s), RecoveryStep::Fetch { t: 8000, delta: 2000 });
    r.on_outcome(&mut s, FetchOutcome::NotFound);
    assert_eq!(r.next_step(&s), RecoveryStep::Fetch { t: 9900, delta: 100 });
    r.on_outcome(&mut s, FetchOutcome::NotFound);
    assert_eq!(r.next_step(&s), RecoveryStep::Fetch { t: 8200, delta: 1800 });
}

#[test]
fn recovery_success_moves_back_and_counts() {
    let mut s = state_with(MediaType::Audio, &[10000]);
    let mut r = Recovery::new(&s, MediaType::Audio, 0).unwrap();
    assert_eq!(r.next_step(&s), RecoveryStep::Fetch { t: 8000, delta: 2000 });
    r.on_outcome(&mut s, FetchOutcome::Fetched);
    assert_eq!(r.latest(), 8000);
    assert!(s.is_downloaded(MediaType::Audio, 8000));
    assert_eq!(s.oldest(MediaType::Audio), Some(8000));
    assert_eq!(s.deltas(MediaType::Audio).count(2000), 11);
    assert_eq!(s.deltas(MediaType::Video).count(2000), 10);
    assert_eq!(r.next_step(&s), RecoveryStep::Fetch { t: 6000, delta: 2000 });
}

#[test]
fn recovery_pts_too_early_raises_lower_bound() {
    let mut s = state_with(MediaType::Video, &[10000]);
    let mut r = Recovery::new(&s, MediaType::Video, 0).unwrap();
    assert_eq!(r.next_step(&s), RecoveryStep::Fetch { t: 8000, delta: 2000 });
    r.on_outcome(&mut s, FetchOutcome::PtsTooEarly);
    let mut fetched = Vec::new();
    for _ in 0..8 {
        match r.next_step(&s) {
            RecoveryStep::Fetch { t, .. } => fetched.push(t),
            other => panic!("unexpected {:?}", other),
        }
        r.on_outcome(&mut s, FetchOutcome::NotFound);
    }
    assert_eq!(fetched, vec![9900, 8200, 8167, 8133, 8100, 8067, 8033, 9899]);
}

#[test]
fn recovery_failure_restarts_pass() {
    let mut s = state_with(MediaType::Video, &[10000]);
    let mut r = Recovery::new(&s, MediaType::Video, 0).unwrap();
    assert_eq!(r.next_step(&s), RecoveryStep::Fetch { t: 8000, delta: 2000 });
    r.on_outcome(&mut s, FetchOutcome::NotFound);
    assert_eq!(r.next_step(&s), RecoveryStep::Fetch { t: 9900, delta: 100 });
    r.on_outcome(&mut s, FetchOutcome::Failed);
    assert_eq!(r.next_step(&s), RecoveryStep::Fetch { t: 8000, delta: 2000 });
}

#[test]
fn recovery_keeps_above_start_frame() {
    let mut s = state_with(MediaType::Video, &[3000]);
    let mut r = Recovery::new(&s, MediaType::Video, 1500).unwrap();
    let mut seen = Vec::new();
    for _ in 0..22 {
        match r.next_step(&s) {
            RecoveryStep::Fetch { t, delta } => {
                assert!(t >= 1500);
                assert_eq!(t + delta as usize, 3000);
                seen.push(t);
                r.on_outcome(&mut s, FetchOutcome::NotFound);
            }
            other => panic!("unexpected {:?}", other),
        }
    }
    for i in 0..21 {
        for j in 0..i {
            assert_ne!(seen[i], seen[j]);
        }
        assert!(seen[i] >= 2890 && seen[i] <= 2910);
    }
    assert_eq!(seen[21], seen[0]);
}

#[test]
fn recovery_skips_downloaded_and_stalls() {
    let mut s = state_with(MediaType::Video, &[50]);
    let mut r = Recovery::new(&s, MediaType::Video, 0).unwrap();
    assert_eq!(r.next_step(&s), RecoveryStep::Stalled);
    s.mark_downloaded(MediaType::Video, 8000);
    s.mark_downloaded(MediaType::Video, 10000);
    let mut r = Recovery::new(&s, MediaType::Video, 0).unwrap();
    assert_eq!(r.latest(), 50);
    assert_eq!(r.next_step(&s), RecoveryStep::Stalled);
}

#[test]
fn recovery_does_not_refetch_downloaded() {
    let mut s = state_with(MediaType::Video, &[10000]);
    let mut r = Recovery::new(&s, MediaType::Video, 0).unwrap();
    s.mark_downloaded(MediaType::Video, 8000);
    assert_eq!(r.next_step(&s), RecoveryStep::Fetch { t: 9900, delta: 100 });
}
