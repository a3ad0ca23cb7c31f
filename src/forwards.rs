//! Decisions of the live-tracking loop.
//!
//! Each poll of the manifest gives a plan: fetch every listed segment of the
//! video and of the audio stream, then warn for each stream whose newest
//! segment from before the poll is no longer listed. The caller performs the
//! actions one by one; a segment downloaded in the meantime is skipped. Once
//! the plan is drained the loop stops if the broadcast has ended, and waits
//! for the next tick otherwise.

use crate::kind::{is_stream, MediaType};
use crate::mpd::{Representation, Segment};
use crate::state::{set_max, State};
use vstd::prelude::*;

verus! {

/// What the live loop should do next.
#[derive(PartialEq, Eq, Structural, Clone, Copy, Debug)]
pub enum LiveAction {
    /// Fetch the listed segment at `t` of the stream.
    Fetch { kind: MediaType, t: usize },
    /// The stream's newest segment `t` from before the poll is no longer
    /// listed: segments may have been missed.
    MissedLive { kind: MediaType, t: usize },
    /// Wait for the next tick, then poll the manifest again.
    Wait,
    /// The broadcast has ended and its last listing is drained.
    Stop,
}

/// Whether the timeline lists a segment at `t`.
pub open spec fn lists(segments: Seq<Segment>, t: usize) -> bool {
    exists|i: int| 0 <= i < segments.len() && segments[i].t == t
}

/// A fetch for each listed segment, in the listed order.
pub open spec fn fetches(kind: MediaType, segments: Seq<Segment>) -> Seq<LiveAction> {
    segments.map_values(|s: Segment| LiveAction::Fetch { kind, t: s.t })
}

/// A warning when the newest known segment is no longer listed.
pub open spec fn missed(kind: MediaType, newest: Option<usize>, segments: Seq<Segment>) -> Seq<
    LiveAction,
> {
    match newest {
        Some(t) => if lists(segments, t) {
            Seq::empty()
        } else {
            seq![LiveAction::MissedLive { kind, t }]
        },
        None => Seq::empty(),
    }
}

/// The plan for one poll.
pub open spec fn plan(state: &State, video: Seq<Segment>, audio: Seq<Segment>) -> Seq<LiveAction> {
    fetches(MediaType::Video, video) + fetches(MediaType::Audio, audio) + missed(
        MediaType::Video,
        set_max(state.stream(MediaType::Video).downloaded),
        video,
    ) + missed(MediaType::Audio, set_max(state.stream(MediaType::Audio).downloaded), audio)
}

/// A fetch names one of the two streams.
pub open spec fn fetches_a_stream(a: LiveAction) -> bool {
    match a {
        LiveAction::Fetch { kind, t } => is_stream(kind),
        _ => true,
    }
}

/// A planned action that is no longer needed: a fetch of a segment that is
/// already downloaded.
pub open spec fn done_already(state: &State, a: LiveAction) -> bool {
    match a {
        LiveAction::Fetch { kind, t } => state.stream(kind).downloaded.contains(t),
        _ => false,
    }
}

/// The first planned action from `from` on that is still needed.
pub open spec fn next_due(state: &State, queue: Seq<LiveAction>, from: nat) -> Option<nat>
    decreases queue.len() - from,
{
    if from >= queue.len() {
        None
    } else if !done_already(state, queue[from as int]) {
        Some(from)
    } else {
        next_due(state, queue, from + 1)
    }
}

/// Whether the timeline of `rep` still lists `latest_t`.
pub fn check_overlap(rep: &Representation, latest_t: usize) -> (r: bool)
    ensures
        r == lists(rep.segment_template.segment_timeline.segments@, latest_t),
{
    let segments = &rep.segment_template.segment_timeline.segments;
    let mut i: usize = 0;
    while i < segments.len()
        invariant
            segments == &rep.segment_template.segment_timeline.segments,
            i <= segments@.len(),
            forall|j: int| 0 <= j < i ==> segments@[j].t != latest_t,
        decreases segments@.len() - i,
    {
        if segments[i].t == latest_t {
            assert(segments@[i as int].t == latest_t);
            return true;
        }
        i = i + 1;
    }
    false
}

/// The mathematical picture of a [`LiveLoop`].
pub ghost struct LiveView {
    /// The plan of the last poll.
    pub queue: Seq<LiveAction>,
    /// How much of the plan was handed out.
    pub next: nat,
    /// Whether the last poll saw the broadcast ended.
    pub finished: bool,
}

/// State of the live-tracking loop between actions.
pub struct LiveLoop {
    queue: Vec<LiveAction>,
    next: usize,
    finished: bool,
}

impl View for LiveLoop {
    type V = LiveView;

    closed spec fn view(&self) -> LiveView {
        LiveView { queue: self.queue@, next: self.next as nat, finished: self.finished }
    }
}

impl LiveLoop {
    pub closed spec fn wf(&self) -> bool {
        &&& self.next <= self.queue@.len()
        &&& forall|i: int| 0 <= i < self.queue@.len() ==> fetches_a_stream(#[trigger] self.queue@[i])
    }

    /// A loop that has not polled yet: its first action is to wait.
    pub fn new() -> (r: LiveLoop)
        ensures
            r.wf(),
            r@ == (LiveView { queue: Seq::empty(), next: 0, finished: false }),
    {
        LiveLoop { queue: Vec::new(), next: 0, finished: false }
    }

    /// Takes in a poll of the manifest: the chosen video and audio
    /// representations and whether the broadcast has ended.
    pub fn on_manifest(
        &mut self,
        state: &State,
        video: &Representation,
        audio: &Representation,
        finished: bool,
    )
        requires
            state.wf(),
        ensures
            final(self).wf(),
            final(self)@ == (LiveView {
                queue: plan(
                    state,
                    video.segment_template.segment_timeline.segments@,
                    audio.segment_template.segment_timeline.segments@,
                ),
                next: 0,
                finished,
            }),
    {
        let vs = &video.segment_template.segment_timeline.segments;
        let aus = &audio.segment_template.segment_timeline.segments;
        let mut queue: Vec<LiveAction> = Vec::new();
        push_fetches(&mut queue, MediaType::Video, vs);
        push_fetches(&mut queue, MediaType::Audio, aus);
        let newest_video = state.newest(MediaType::Video);
        if let Some(t) = newest_video {
            if !check_overlap(video, t) {
                queue.push(LiveAction::MissedLive { kind: MediaType::Video, t });
            }
        }
        let newest_audio = state.newest(MediaType::Audio);
        if let Some(t) = newest_audio {
            if !check_overlap(audio, t) {
                queue.push(LiveAction::MissedLive { kind: MediaType::Audio, t });
            }
        }
        proof {
            let p = plan(state, vs@, aus@);
            assert(queue@ =~= p);
        }
        self.queue = queue;
        self.next = 0;
        self.finished = finished;
    }

    /// Hands out the next action of the plan that is still needed. Once the
    /// plan is drained: `Stop` if the broadcast has ended, `Wait` otherwise.
    pub fn next_action(&mut self, state: &State) -> (r: LiveAction)
        requires
            old(self).wf(),
            state.wf(),
        ensures
            final(self).wf(),
            final(self)@.queue == old(self)@.queue,
            final(self)@.finished == old(self)@.finished,
            match next_due(state, old(self)@.queue, old(self)@.next) {
                Some(m) => r == old(self)@.queue[m as int] && final(self)@.next == m + 1,
                None => r == (if old(self)@.finished {
                    LiveAction::Stop
                } else {
                    LiveAction::Wait
                }) && final(self)@.next == old(self)@.queue.len(),
            },
            match r {
                LiveAction::Fetch { kind, t } => !state.stream(kind).downloaded.contains(t),
                _ => true,
            },
    {
        let ghost q = self.queue@;
        loop
            invariant
                self.wf(),
                self.queue@ == q,
                q == old(self)@.queue,
                self.finished == old(self).finished,
                state.wf(),
                next_due(state, q, old(self)@.next) == next_due(state, q, self.next as nat),
            decreases q.len() - self.next,
        {
            if self.next >= self.queue.len() {
                if self.finished {
                    return LiveAction::Stop;
                } else {
                    return LiveAction::Wait;
                }
            }
            let a = self.queue[self.next];
            assert(fetches_a_stream(q[self.next as int]));
            self.next = self.next + 1;
            let skip = match a {
                LiveAction::Fetch { kind, t } => state.is_downloaded(kind, t),
                _ => false,
            };
            if !skip {
                return a;
            }
        }
    }

    /// Whether the last poll saw the broadcast ended.
    pub fn finished(&self) -> (r: bool)
        ensures
            r == self@.finished,
    {
        self.finished
    }
}

/// Appends a fetch for each segment of the timeline.
fn push_fetches(queue: &mut Vec<LiveAction>, kind: MediaType, segments: &Vec<Segment>)
    ensures
        final(queue)@ == old(queue)@ + fetches(kind, segments@),
{
    let ghost start = queue@;
    let mut i: usize = 0;
    while i < segments.len()
        invariant
            i <= segments@.len(),
            queue@ =~= start + fetches(kind, segments@.take(i as int)),
        decreases segments@.len() - i,
    {
        queue.push(LiveAction::Fetch { kind, t: segments[i].t });
        i = i + 1;
        proof {
            assert(fetches(kind, segments@.take(i as int)) =~= fetches(
                kind,
                segments@.take(i - 1),
            ).push(LiveAction::Fetch { kind, t: segments@[i - 1].t }));
        }
    }
    proof {
        assert(segments@.take(i as int) =~= segments@);
    }
}

} // verus!
