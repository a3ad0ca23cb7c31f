//! Recovery of the past segments that the manifest no longer lists.
//!
//! The engine walks backwards from the oldest known segment. Each pass sorts
//! the delta histogram by count and draws candidate deltas from an
//! [`OffsetRange`]; the caller fetches the proposed timestamp and reports how
//! it went. A success moves the walk back and starts a new pass; a 404 moves
//! on to the next candidate; a PTS mismatch rules out every timestamp below
//! the rejected one for the rest of the pass; any other failure restarts the
//! pass.

use crate::histogram::{bumped, count_of, keys_of, sort_by_count, with_bumped, DeltaHistogram};
use crate::kind::{is_stream, MediaType};
use crate::offsets::{lemma_offsets_positive, offset_sequence, OffsetRange};
use crate::state::{others_kept, set_min, State, StreamView};
use vstd::prelude::*;

verus! {

/// How far around each preferred delta the search goes.
pub const MAX_DIFF: isize = 10;

/// What the caller should do next for one stream.
#[derive(PartialEq, Eq, Structural, Clone, Copy, Debug)]
pub enum RecoveryStep {
    /// Fetch the segment at `t`, `delta` before the oldest known one.
    Fetch { t: usize, delta: isize },
    /// The broadcast's first frame is reached.
    Finished,
    /// No candidate is left that could move the walk back.
    Stalled,
}

/// How a proposed fetch ended.
#[derive(PartialEq, Eq, Structural, Clone, Copy, Debug)]
pub enum FetchOutcome {
    /// The segment was written and its PTS accepted.
    Fetched,
    /// The server answered 404.
    NotFound,
    /// The segment exists but does not end where the known ones start.
    PtsTooEarly,
    /// Any other failure.
    Failed,
}

/// Whether delta `x` proposes a timestamp worth fetching: at or after both
/// the pass's lower bound and the first frame, and not yet downloaded.
pub open spec fn accepts(
    latest: usize,
    lower_bound: usize,
    start_frame: usize,
    downloaded: Set<usize>,
    x: int,
) -> bool {
    &&& x <= latest
    &&& latest - x >= lower_bound
    &&& latest - x >= start_frame
    &&& !downloaded.contains((latest - x) as usize)
}

/// The first index from `from` on whose delta is accepted.
pub open spec fn next_candidate(
    seq: Seq<int>,
    from: nat,
    latest: usize,
    lower_bound: usize,
    start_frame: usize,
    downloaded: Set<usize>,
) -> Option<nat>
    decreases seq.len() - from,
{
    if from >= seq.len() {
        None
    } else if accepts(latest, lower_bound, start_frame, downloaded, seq[from as int]) {
        Some(from)
    } else {
        next_candidate(seq, from + 1, latest, lower_bound, start_frame, downloaded)
    }
}

/// The candidate deltas of a pass over a histogram.
pub open spec fn pass_candidates(deltas: Seq<(isize, u64)>) -> Seq<int> {
    offset_sequence(keys_of(sort_by_count(deltas)), MAX_DIFF as int)
}

/// The mathematical picture of a [`Recovery`].
pub ghost struct RecoveryView {
    pub kind: MediaType,
    pub start_frame: usize,
    /// Timestamp of the oldest segment reached so far.
    pub latest: usize,
    /// The engine's own copy of the delta histogram.
    pub deltas: Seq<(isize, u64)>,
    /// Lowest timestamp still allowed in this pass.
    pub lower_bound: usize,
    /// How many candidates this pass has drawn.
    pub pos: nat,
    /// Whether this pass has proposed a fetch.
    pub tried: bool,
    /// The fetch waiting for its outcome: timestamp and delta.
    pub pending: Option<(usize, isize)>,
}

impl RecoveryView {
    /// Where the next fetch comes from: the index of the candidate, and
    /// whether the pass had to start over to find it.
    pub open spec fn choice(self, downloaded: Set<usize>) -> Option<(nat, bool)> {
        let seq = pass_candidates(self.deltas);
        match next_candidate(
            seq,
            self.pos,
            self.latest,
            self.lower_bound,
            self.start_frame,
            downloaded,
        ) {
            Some(m) => Some((m, false)),
            None => if self.tried {
                match next_candidate(seq, 0, self.latest, 0, self.start_frame, downloaded) {
                    Some(m) => Some((m, true)),
                    None => None,
                }
            } else {
                None
            },
        }
    }

    /// A new pass over the same walk.
    pub open spec fn restarted(self) -> RecoveryView {
        RecoveryView { lower_bound: 0, pos: 0, tried: false, pending: None, ..self }
    }
}

/// Past-segment recovery for one stream.
pub struct Recovery {
    kind: MediaType,
    start_frame: usize,
    latest_t: usize,
    deltas: DeltaHistogram,
    range: OffsetRange,
    lower_bound: usize,
    tried: bool,
    pending: Option<(usize, isize)>,
}

impl View for Recovery {
    type V = RecoveryView;

    closed spec fn view(&self) -> RecoveryView {
        RecoveryView {
            kind: self.kind,
            start_frame: self.start_frame,
            latest: self.latest_t,
            deltas: self.deltas@,
            lower_bound: self.lower_bound,
            pos: self.range.produced().len(),
            tried: self.tried,
            pending: self.pending,
        }
    }
}

impl Recovery {
    pub closed spec fn wf(&self) -> bool {
        &&& is_stream(self.kind)
        &&& self.deltas.wf()
        &&& self.range.wf()
        &&& self.range.seed() == keys_of(sort_by_count(self.deltas@))
        &&& self.range.max_diff() == MAX_DIFF
        &&& self.range.produced().is_prefix_of(pass_candidates(self.deltas@))
        &&& match self.pending {
            Some((t, x)) => x > 0 && t + x == self.latest_t && t >= self.start_frame,
            None => true,
        }
    }

    /// Starts a fresh pass from the engine's histogram.
    fn restart(&mut self)
        requires
            old(self).deltas.wf(),
            is_stream(old(self).kind),
        ensures
            final(self).wf(),
            final(self)@ == old(self)@.restarted(),
    {
        let seed = self.deltas.seed();
        self.range = OffsetRange::new(MAX_DIFF, seed);
        self.lower_bound = 0;
        self.tried = false;
        self.pending = None;
    }

    /// An engine for the stream of `kind` that walks back from its oldest
    /// downloaded segment toward `start_frame`; `None` when nothing of the
    /// stream was downloaded yet.
    pub fn new(state: &State, kind: MediaType, start_frame: usize) -> (r: Option<Recovery>)
        requires
            state.wf(),
            is_stream(kind),
        ensures
            match set_min(state.stream(kind).downloaded) {
                Some(m) => r is Some && r->Some_0.wf() && r->Some_0@ == (RecoveryView {
                    kind,
                    start_frame,
                    latest: m,
                    deltas: state.stream(kind).deltas,
                    lower_bound: 0,
                    pos: 0,
                    tried: false,
                    pending: None,
                }),
                None => r is None,
            },
    {
        match state.oldest(kind) {
            Some(latest_t) => {
                let deltas = state.deltas(kind);
                let seed = deltas.seed();
                let range = OffsetRange::new(MAX_DIFF, seed);
                Some(
                    Recovery {
                        kind,
                        start_frame,
                        latest_t,
                        deltas,
                        range,
                        lower_bound: 0,
                        tried: false,
                        pending: None,
                    },
                )
            },
            None => None,
        }
    }

    /// Decides the next fetch. The walk is finished once the oldest segment
    /// reached is at or before the first frame; otherwise the next accepted
    /// candidate of the pass is proposed, starting the pass over once when it
    /// ran out after proposing something.
    pub fn next_step(&mut self, state: &State) -> (r: RecoveryStep)
        requires
            old(self).wf(),
            old(self)@.pending is None,
            state.wf(),
        ensures
            final(self).wf(),
            old(self)@.latest <= old(self)@.start_frame ==> r == RecoveryStep::Finished
                && final(self)@ == old(self)@,
            old(self)@.latest > old(self)@.start_frame ==> match old(self)@.choice(
                state.stream(old(self)@.kind).downloaded,
            ) {
                Some((m, again)) => {
                    let x = pass_candidates(old(self)@.deltas)[m as int];
                    let t = (old(self)@.latest - x) as usize;
                    &&& r == RecoveryStep::Fetch { t, delta: x as isize }
                    &&& final(self)@ == (RecoveryView {
                        lower_bound: if again {
                            0
                        } else {
                            old(self)@.lower_bound
                        },
                        pos: m + 1,
                        tried: true,
                        pending: Some((t, x as isize)),
                        ..old(self)@
                    })
                },
                None => r == RecoveryStep::Stalled,
            },
            match r {
                RecoveryStep::Fetch { t, delta } => {
                    &&& delta > 0
                    &&& t + delta == old(self)@.latest
                    &&& t >= old(self)@.start_frame
                    &&& !state.stream(old(self)@.kind).downloaded.contains(t)
                },
                _ => true,
            },
    {
        if self.latest_t <= self.start_frame {
            return RecoveryStep::Finished;
        }
        let ghost dl = state.stream(self.kind).downloaded;
        let ghost seq = pass_candidates(self.deltas@);
        let mut restarted = false;
        let ghost lat = self.latest_t;
        let ghost sf = self.start_frame;
        proof {
            lemma_offsets_positive(self.range.seed(), MAX_DIFF as int);
        }
        loop
            invariant
                self.wf(),
                self.pending is None,
                state.wf(),
                self.kind == old(self).kind,
                sf == self.start_frame == old(self).start_frame,
                lat == self.latest_t == old(self).latest_t,
                self.latest_t > self.start_frame,
                self.deltas@ == old(self).deltas@,
                dl == state.stream(self.kind).downloaded,
                seq == pass_candidates(self.deltas@),
                forall|i: int| 0 <= i < seq.len() ==> 0 < #[trigger] seq[i],
                !restarted ==> {
                    &&& self.lower_bound == old(self).lower_bound
                    &&& self.tried == old(self).tried
                    &&& next_candidate(seq, old(self)@.pos, lat, self.lower_bound, sf, dl)
                        == next_candidate(seq, self@.pos, lat, self.lower_bound, sf, dl)
                },
                restarted ==> {
                    &&& old(self).tried
                    &&& !self.tried
                    &&& self.lower_bound == 0
                    &&& next_candidate(seq, old(self)@.pos, lat, old(self).lower_bound, sf, dl) is None
                    &&& next_candidate(seq, 0, lat, 0, sf, dl) == next_candidate(
                        seq,
                        self@.pos,
                        lat,
                        0,
                        sf,
                        dl,
                    )
                },
            decreases
                if restarted {
                    0int
                } else {
                    1int
                },
                seq.len() - self.range.produced().len(),
        {
            let ghost pos = self@.pos;
            match self.range.next() {
                Some(x) => {
                    let xu = x as usize;
                    if xu <= self.latest_t {
                        let t = self.latest_t - xu;
                        if t >= self.lower_bound && t >= self.start_frame && !state.is_downloaded(
                            self.kind,
                            t,
                        ) {
                            self.pending = Some((t, x));
                            self.tried = true;
                            proof {
                                assert(accepts(lat, self.lower_bound, sf, dl, seq[pos as int]));
                                assert(next_candidate(seq, pos, lat, self.lower_bound, sf, dl)
                                    == Some(pos));
                            }
                            return RecoveryStep::Fetch { t, delta: x };
                        }
                    }
                    proof {
                        assert(!accepts(lat, self.lower_bound, sf, dl, seq[pos as int]));
                    }
                },
                None => {
                    proof {
                        assert(next_candidate(seq, pos, lat, self.lower_bound, sf, dl) is None);
                    }
                    if self.tried && !restarted {
                        self.restart();
                        restarted = true;
                    } else {
                        return RecoveryStep::Stalled;
                    }
                },
            }
        }
    }

    /// Takes in how the proposed fetch ended. A success makes the fetched
    /// segment the oldest one reached, counts its delta in the engine's and in
    /// the shared histogram, records it as downloaded and starts a new pass.
    pub fn on_outcome(&mut self, state: &mut State, outcome: FetchOutcome)
        requires
            old(self).wf(),
            old(self)@.pending is Some,
            old(state).wf(),
        ensures
            final(self).wf(),
            final(state).wf(),
            ({
                let t = old(self)@.pending->Some_0.0;
                let x = old(self)@.pending->Some_0.1;
                let kind = old(self)@.kind;
                match outcome {
                    FetchOutcome::Fetched => {
                        &&& final(self)@ == (RecoveryView {
                            latest: t,
                            deltas: with_bumped(old(self)@.deltas, x),
                            ..old(self)@.restarted()
                        })
                        &&& final(state).stream(kind) == (StreamView {
                            downloaded: old(state).stream(kind).downloaded.insert(t),
                            deltas: with_bumped(old(state).stream(kind).deltas, x),
                            ..old(state).stream(kind)
                        })
                        &&& others_kept(old(state), final(state), kind)
                    },
                    FetchOutcome::NotFound => {
                        &&& final(self)@ == (RecoveryView { pending: None, ..old(self)@ })
                        &&& *final(state) == *old(state)
                    },
                    FetchOutcome::PtsTooEarly => {
                        &&& final(self)@ == (RecoveryView {
                            lower_bound: t,
                            pending: None,
                            ..old(self)@
                        })
                        &&& *final(state) == *old(state)
                    },
                    FetchOutcome::Failed => {
                        &&& final(self)@ == old(self)@.restarted()
                        &&& *final(state) == *old(state)
                    },
                }
            }),
            outcome == FetchOutcome::Fetched ==> {
                let x = old(self)@.pending->Some_0.1;
                let kind = old(self)@.kind;
                &&& count_of(final(self)@.deltas, x) == bumped(count_of(old(self)@.deltas, x))
                &&& count_of(final(state).stream(kind).deltas, x) == bumped(
                    count_of(old(state).stream(kind).deltas, x),
                )
                &&& forall|j: isize|
                    j != x ==> #[trigger] count_of(final(self)@.deltas, j) == count_of(
                        old(self)@.deltas,
                        j,
                    )
                &&& forall|j: isize|
                    j != x ==> #[trigger] count_of(final(state).stream(kind).deltas, j) == count_of(
                        old(state).stream(kind).deltas,
                        j,
                    )
            },
            outcome != FetchOutcome::Fetched ==> final(self)@.deltas == old(self)@.deltas
                && *final(state) == *old(state),
            old(self)@.latest >= old(self)@.start_frame
                ==> final(self)@.latest >= final(self)@.start_frame,
            forall|u: usize| #[trigger]
                final(state).stream(old(self)@.kind).downloaded.contains(u)
                ==> old(state).stream(old(self)@.kind).downloaded.contains(u)
                || u >= old(self)@.start_frame,
    {
        let (t, x) = match self.pending {
            Some(p) => p,
            None => (0, 0),
        };
        match outcome {
            FetchOutcome::Fetched => {
                self.latest_t = t;
                let ghost before = self.deltas;
                self.deltas.increment(x);
                assert forall|j: isize| j != x implies #[trigger] count_of(self.deltas@, j)
                    == count_of(before@, j) by {
                    assert(self.deltas.spec_count(j) == before.spec_count(j));
                }
                state.mark_downloaded(self.kind, t);
                state.record_delta(self.kind, x);
                self.restart();
            },
            FetchOutcome::NotFound => {
                self.pending = None;
            },
            FetchOutcome::PtsTooEarly => {
                self.lower_bound = t;
                self.pending = None;
            },
            FetchOutcome::Failed => {
                self.restart();
            },
        }
    }

    /// The stream this engine recovers.
    pub fn kind(&self) -> (r: MediaType)
        ensures
            r == self@.kind,
    {
        self.kind
    }

    /// Timestamp of the oldest segment reached so far.
    pub fn latest(&self) -> (r: usize)
        ensures
            r == self@.latest,
    {
        self.latest_t
    }
}

} // verus!
