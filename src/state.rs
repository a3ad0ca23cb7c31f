//! The archive state shared by the live and the past downloads.

use crate::error::IgLiveError;
use crate::histogram::{bumped, count_of, prior_entries, with_bumped, DeltaHistogram};
use crate::kind::{is_stream, MediaType};
use vstd::prelude::*;

verus! {

/// What the archive knows of one stream.
pub struct StreamState {
    init: Option<Vec<u8>>,
    downloaded: Vec<usize>,
    deltas: DeltaHistogram,
    back_pts: Option<usize>,
}

/// The mathematical picture of a [`StreamState`].
pub ghost struct StreamView {
    /// The initialization blob, once fetched.
    pub init: Option<Seq<u8>>,
    /// Timestamps of the segments written to disk.
    pub downloaded: Set<usize>,
    /// Observed deltas and their counts, in insertion order.
    pub deltas: Seq<(isize, u64)>,
    /// Start PTS of the oldest segment known so far.
    pub back_pts: Option<usize>,
}

/// The smaller of the watermark and a new start PTS.
pub open spec fn lowered(back: Option<usize>, start: usize) -> usize {
    match back {
        Some(p) => if p < start {
            p
        } else {
            start
        },
        None => start,
    }
}

impl View for StreamState {
    type V = StreamView;

    closed spec fn view(&self) -> StreamView {
        StreamView {
            init: match self.init {
                Some(b) => Some(b@),
                None => None,
            },
            downloaded: self.downloaded@.to_set(),
            deltas: self.deltas@,
            back_pts: self.back_pts,
        }
    }
}

impl StreamState {
    pub closed spec fn wf(&self) -> bool {
        &&& self.downloaded@.no_duplicates()
        &&& self.deltas.wf()
    }

    fn fresh() -> (r: StreamState)
        ensures
            r.wf(),
            r@.init is None,
            r@.downloaded == Set::<usize>::empty(),
            r@.deltas == prior_entries(),
            r@.back_pts is None,
    {
        let r = StreamState {
            init: None,
            downloaded: Vec::new(),
            deltas: DeltaHistogram::prior(),
            back_pts: None,
        };
        assert(r@.downloaded =~= Set::<usize>::empty());
        r
    }
}

impl StreamState {
    pub(crate) fn has_init(&self) -> (r: bool)
        ensures
            r == self@.init is Some,
    {
        self.init.is_some()
    }

    pub(crate) fn set_init(&mut self, blob: Vec<u8>)
        requires
            old(self).wf(),
        ensures
            final(self).wf(),
            final(self)@ == (StreamView { init: Some(blob@), ..old(self)@ }),
    {
        self.init = Some(blob);
    }

    /// The initialization blob followed by `body`.
    pub(crate) fn with_init(&self, body: &Vec<u8>) -> (r: Result<Vec<u8>, IgLiveError>)
        ensures
            match self@.init {
                Some(b) => r is Ok && r->Ok_0@ == b + body@,
                None => r == Err::<Vec<u8>, IgLiveError>(IgLiveError::MissingInit),
            },
    {
        match &self.init {
            Some(blob) => {
                let mut out: Vec<u8> = Vec::new();
                let mut i: usize = 0;
                while i < blob.len()
                    invariant
                        i <= blob@.len(),
                        out@ =~= blob@.take(i as int),
                    decreases blob@.len() - i,
                {
                    out.push(blob[i]);
                    i = i + 1;
                }
                let mut j: usize = 0;
                while j < body.len()
                    invariant
                        i == blob@.len(),
                        j <= body@.len(),
                        out@ =~= blob@ + body@.take(j as int),
                    decreases body@.len() - j,
                {
                    out.push(body[j]);
                    j = j + 1;
                }
                proof {
                    assert(body@.take(j as int) =~= body@);
                }
                Ok(out)
            },
            None => Err(IgLiveError::MissingInit),
        }
    }

    pub(crate) fn contains(&self, t: usize) -> (r: bool)
        ensures
            r == self@.downloaded.contains(t),
    {
        let mut i: usize = 0;
        while i < self.downloaded.len()
            invariant
                i <= self.downloaded@.len(),
                forall|j: int| 0 <= j < i ==> self.downloaded@[j] != t,
            decreases self.downloaded@.len() - i,
        {
            if self.downloaded[i] == t {
                return true;
            }
            i = i + 1;
        }
        false
    }

    pub(crate) fn insert(&mut self, t: usize) -> (r: bool)
        requires
            old(self).wf(),
        ensures
            final(self).wf(),
            r == !old(self)@.downloaded.contains(t),
            final(self)@ == (StreamView { downloaded: old(self)@.downloaded.insert(t), ..old(self)@ }),
    {
        if self.contains(t) {
            proof {
                assert(self@.downloaded.insert(t) =~= self@.downloaded);
            }
            false
        } else {
            let ghost before = self.downloaded@;
            self.downloaded.push(t);
            proof {
                assert(self.downloaded@ == before.push(t));
                assert forall|x: usize| #[trigger]
                    self.downloaded@.contains(x) <==> before.contains(x) || x == t by {
                    if before.contains(x) {
                        let k = choose|k: int| 0 <= k < before.len() && before[k] == x;
                        assert(self.downloaded@[k] == x);
                    }
                    if x == t {
                        assert(self.downloaded@[before.len() as int] == x);
                    }
                }
                assert(self.downloaded@.to_set() =~= before.to_set().insert(t));
                assert forall|i: int, j: int|
                    0 <= i < self.downloaded@.len() && 0 <= j < self.downloaded@.len() && i != j
                        implies self.downloaded@[i] != self.downloaded@[j] by {
                    if i == before.len() as int {
                        assert(!before.contains(t));
                    } else if j == before.len() as int {
                        assert(!before.contains(t));
                        assert(before[i] == self.downloaded@[i]);
                    }
                }
            }
            true
        }
    }

    /// The smallest downloaded timestamp.
    pub(crate) fn oldest(&self) -> (r: Option<usize>)
        ensures
            match r {
                Some(m) => self@.downloaded.contains(m) && forall|t: usize|
                    #[trigger] self@.downloaded.contains(t) ==> m <= t,
                None => self@.downloaded == Set::<usize>::empty(),
            },
    {
        if self.downloaded.len() == 0 {
            proof {
                assert(self@.downloaded =~= Set::<usize>::empty());
            }
            return None;
        }
        let mut m = self.downloaded[0];
        let mut i: usize = 1;
        proof {
            assert(self.downloaded@.take(1)[0] == m);
        }
        while i < self.downloaded.len()
            invariant
                1 <= i <= self.downloaded@.len(),
                self.downloaded@.take(i as int).contains(m),
                forall|j: int| 0 <= j < i ==> m <= self.downloaded@[j],
            decreases self.downloaded@.len() - i,
        {
            if self.downloaded[i] < m {
                m = self.downloaded[i];
                proof {
                    assert(self.downloaded@.take(i + 1)[i as int] == m);
                }
            } else {
                proof {
                    let k = choose|k: int| 0 <= k < i && self.downloaded@.take(i as int)[k] == m;
                    assert(self.downloaded@.take(i + 1)[k] == m);
                }
            }
            i = i + 1;
        }
        proof {
            assert(self.downloaded@.take(i as int) =~= self.downloaded@);
        }
        Some(m)
    }

    /// The largest downloaded timestamp.
    pub(crate) fn newest(&self) -> (r: Option<usize>)
        ensures
            match r {
                Some(m) => self@.downloaded.contains(m) && forall|t: usize|
                    #[trigger] self@.downloaded.contains(t) ==> t <= m,
                None => self@.downloaded == Set::<usize>::empty(),
            },
    {
        if self.downloaded.len() == 0 {
            proof {
                assert(self@.downloaded =~= Set::<usize>::empty());
            }
            return None;
        }
        let mut m = self.downloaded[0];
        let mut i: usize = 1;
        proof {
            assert(self.downloaded@.take(1)[0] == m);
        }
        while i < self.downloaded.len()
            invariant
                1 <= i <= self.downloaded@.len(),
                self.downloaded@.take(i as int).contains(m),
                forall|j: int| 0 <= j < i ==> self.downloaded@[j] <= m,
            decreases self.downloaded@.len() - i,
        {
            if self.downloaded[i] > m {
                m = self.downloaded[i];
                proof {
                    assert(self.downloaded@.take(i + 1)[i as int] == m);
                }
            } else {
                proof {
                    let k = choose|k: int| 0 <= k < i && self.downloaded@.take(i as int)[k] == m;
                    assert(self.downloaded@.take(i + 1)[k] == m);
                }
            }
            i = i + 1;
        }
        proof {
            assert(self.downloaded@.take(i as int) =~= self.downloaded@);
        }
        Some(m)
    }

    /// Checks a fetched segment's PTS pair against the watermark, then lowers
    /// the watermark to the segment's start.
    pub(crate) fn check_pts(&mut self, check: bool, start: usize, end: usize) -> (r: Result<
        (),
        IgLiveError,
    >)
        requires
            old(self).wf(),
        ensures
            final(self).wf(),
            check && old(self)@.back_pts != Some(end) ==> r == Err::<(), IgLiveError>(
                IgLiveError::PtsTooEarly,
            ) && final(self)@ == old(self)@,
            !(check && old(self)@.back_pts != Some(end)) ==> r is Ok && final(self)@ == (StreamView {
                back_pts: Some(lowered(old(self)@.back_pts, start)),
                ..old(self)@
            }),
    {
        if check {
            match self.back_pts {
                Some(p) => {
                    if p != end {
                        return Err(IgLiveError::PtsTooEarly);
                    }
                },
                None => {
                    return Err(IgLiveError::PtsTooEarly);
                },
            }
        }
        let lowest = match self.back_pts {
            Some(p) => if p < start {
                p
            } else {
                start
            },
            None => start,
        };
        self.back_pts = Some(lowest);
        Ok(())
    }

    /// A copy of the delta histogram.
    pub(crate) fn deltas(&self) -> (r: DeltaHistogram)
        requires
            self.wf(),
        ensures
            r.wf(),
            r@ == self@.deltas,
    {
        self.deltas.duplicate()
    }

    /// Counts one more observation of delta `x`.
    pub(crate) fn record_delta(&mut self, x: isize)
        requires
            old(self).wf(),
        ensures
            final(self).wf(),
            final(self)@ == (StreamView { deltas: with_bumped(old(self)@.deltas, x), ..old(self)@ }),
            count_of(final(self)@.deltas, x) == bumped(count_of(old(self)@.deltas, x)),
            forall|j: isize|
                j != x ==> #[trigger] count_of(final(self)@.deltas, j) == count_of(old(self)@.deltas, j),
    {
        let ghost before = self.deltas;
        self.deltas.increment(x);
        assert forall|j: isize| j != x implies #[trigger] count_of(self@.deltas, j) == count_of(
            before@,
            j,
        ) by {
            assert(self.deltas.spec_count(j) == before.spec_count(j));
        }
    }
}

/// The least element of a set of timestamps.
pub open spec fn set_min(s: Set<usize>) -> Option<usize> {
    if s.is_empty() {
        None
    } else {
        Some(choose|m: usize| s.contains(m) && forall|t: usize| #[trigger] s.contains(t) ==> m <= t)
    }
}

/// The greatest element of a set of timestamps.
pub open spec fn set_max(s: Set<usize>) -> Option<usize> {
    if s.is_empty() {
        None
    } else {
        Some(choose|m: usize| s.contains(m) && forall|t: usize| #[trigger] s.contains(t) ==> t <= m)
    }
}

proof fn lemma_set_min(s: Set<usize>, r: Option<usize>)
    requires
        match r {
            Some(m) => s.contains(m) && forall|t: usize| #[trigger] s.contains(t) ==> m <= t,
            None => s == Set::<usize>::empty(),
        },
    ensures
        r == set_min(s),
{
    if let Some(m) = r {
        assert(!s.is_empty());
        let c = choose|c: usize| s.contains(c) && forall|t: usize| #[trigger] s.contains(t) ==> c <= t;
        assert(c <= m && m <= c);
    } else {
        assert(s.is_empty());
    }
}

proof fn lemma_set_max(s: Set<usize>, r: Option<usize>)
    requires
        match r {
            Some(m) => s.contains(m) && forall|t: usize| #[trigger] s.contains(t) ==> t <= m,
            None => s == Set::<usize>::empty(),
        },
    ensures
        r == set_max(s),
{
    if let Some(m) = r {
        assert(!s.is_empty());
        let c = choose|c: usize| s.contains(c) && forall|t: usize| #[trigger] s.contains(t) ==> t <= c;
        assert(c <= m && m <= c);
    } else {
        assert(s.is_empty());
    }
}

/// A watermark only ever goes down: once set, it stays set and does not rise.
pub open spec fn watermark_kept_or_lowered(before: Option<usize>, after: Option<usize>) -> bool {
    match before {
        Some(p) => after is Some && after->Some_0 <= p,
        None => true,
    }
}

/// The streams other than `kind` are left as they were.
pub open spec fn others_kept(before: &State, after: &State, kind: MediaType) -> bool {
    forall|k: MediaType| is_stream(k) && k != kind ==> #[trigger] after.stream(k) == before.stream(k)
}

/// Archive state of both streams.
pub struct State {
    video: StreamState,
    audio: StreamState,
}

impl State {
    pub closed spec fn wf(&self) -> bool {
        self.video.wf() && self.audio.wf()
    }

    /// The state of the stream of `kind`.
    pub closed spec fn stream(&self, kind: MediaType) -> StreamView {
        if kind is Audio {
            self.audio@
        } else {
            self.video@
        }
    }

    /// Both streams with no blob, no segment and no watermark, and the
    /// histogram prior.
    pub fn new() -> (r: State)
        ensures
            r.wf(),
            forall|k: MediaType|
                is_stream(k) ==> {
                    &&& (#[trigger] r.stream(k)).init is None
                    &&& r.stream(k).downloaded == Set::<usize>::empty()
                    &&& r.stream(k).deltas == prior_entries()
                    &&& r.stream(k).back_pts is None
                },
    {
        State { video: StreamState::fresh(), audio: StreamState::fresh() }
    }

    /// Whether the stream has its initialization blob.
    pub fn has_init(&self, kind: MediaType) -> (r: bool)
        requires
            self.wf(),
            is_stream(kind),
        ensures
            r == self.stream(kind).init is Some,
    {
        self.part(kind).has_init()
    }

    /// Stores the stream's initialization blob.
    pub fn set_init(&mut self, kind: MediaType, blob: Vec<u8>)
        requires
            old(self).wf(),
            is_stream(kind),
        ensures
            final(self).wf(),
            final(self).stream(kind) == (StreamView { init: Some(blob@), ..old(self).stream(kind) }),
            others_kept(old(self), final(self), kind),
    {
        self.part_mut(kind).set_init(blob);
    }

    /// The bytes written for a segment: the stream's initialization blob
    /// followed by the response body.
    pub fn segment_bytes(&self, kind: MediaType, body: &Vec<u8>) -> (r: Result<
        Vec<u8>,
        IgLiveError,
    >)
        requires
            self.wf(),
            is_stream(kind),
        ensures
            match self.stream(kind).init {
                Some(b) => r is Ok && r->Ok_0@ == b + body@,
                None => r == Err::<Vec<u8>, IgLiveError>(IgLiveError::MissingInit),
            },
    {
        self.part(kind).with_init(body)
    }

    /// Whether the segment at `t` was written.
    pub fn is_downloaded(&self, kind: MediaType, t: usize) -> (r: bool)
        requires
            self.wf(),
            is_stream(kind),
        ensures
            r == self.stream(kind).downloaded.contains(t),
    {
        self.part(kind).contains(t)
    }

    /// Records that the segment at `t` was written; `false` when it was known.
    pub fn mark_downloaded(&mut self, kind: MediaType, t: usize) -> (r: bool)
        requires
            old(self).wf(),
            is_stream(kind),
        ensures
            final(self).wf(),
            r == !old(self).stream(kind).downloaded.contains(t),
            final(self).stream(kind) == (StreamView {
                downloaded: old(self).stream(kind).downloaded.insert(t),
                ..old(self).stream(kind)
            }),
            others_kept(old(self), final(self), kind),
    {
        self.part_mut(kind).insert(t)
    }

    /// The smallest downloaded timestamp of the stream.
    pub fn oldest(&self, kind: MediaType) -> (r: Option<usize>)
        requires
            self.wf(),
            is_stream(kind),
        ensures
            r == set_min(self.stream(kind).downloaded),
    {
        let r = self.part(kind).oldest();
        proof {
            lemma_set_min(self.stream(kind).downloaded, r);
        }
        r
    }

    /// The largest downloaded timestamp of the stream.
    pub fn newest(&self, kind: MediaType) -> (r: Option<usize>)
        requires
            self.wf(),
            is_stream(kind),
        ensures
            r == set_max(self.stream(kind).downloaded),
    {
        let r = self.part(kind).newest();
        proof {
            lemma_set_max(self.stream(kind).downloaded, r);
        }
        r
    }

    /// A copy of the stream's delta histogram.
    pub fn deltas(&self, kind: MediaType) -> (r: DeltaHistogram)
        requires
            self.wf(),
            is_stream(kind),
        ensures
            r.wf(),
            r@ == self.stream(kind).deltas,
    {
        self.part(kind).deltas()
    }

    /// Counts one more observed delta `x` for the stream.
    pub fn record_delta(&mut self, kind: MediaType, x: isize)
        requires
            old(self).wf(),
            is_stream(kind),
        ensures
            final(self).wf(),
            final(self).stream(kind) == (StreamView {
                deltas: with_bumped(old(self).stream(kind).deltas, x),
                ..old(self).stream(kind)
            }),
            count_of(final(self).stream(kind).deltas, x) == bumped(
                count_of(old(self).stream(kind).deltas, x),
            ),
            forall|j: isize|
                j != x ==> #[trigger] count_of(final(self).stream(kind).deltas, j) == count_of(
                    old(self).stream(kind).deltas,
                    j,
                ),
            others_kept(old(self), final(self), kind),
    {
        self.part_mut(kind).record_delta(x);
    }

    /// The stream's PTS watermark.
    pub fn back_pts(&self, kind: MediaType) -> (r: Option<usize>)
        requires
            self.wf(),
            is_stream(kind),
        ensures
            r == self.stream(kind).back_pts,
    {
        self.part(kind).back_pts
    }

    /// Checks a fetched segment's `(start, end)` PTS pair. With `check`, the
    /// end must equal the watermark, else the segment is rejected and nothing
    /// changes. An accepted segment lowers the watermark to its start.
    pub fn check_pts(&mut self, kind: MediaType, check: bool, start: usize, end: usize) -> (r:
        Result<(), IgLiveError>)
        requires
            old(self).wf(),
            is_stream(kind),
        ensures
            final(self).wf(),
            check && old(self).stream(kind).back_pts != Some(end) ==> r == Err::<(), IgLiveError>(
                IgLiveError::PtsTooEarly,
            ) && final(self).stream(kind) == old(self).stream(kind),
            !(check && old(self).stream(kind).back_pts != Some(end)) ==> r is Ok
                && final(self).stream(kind) == (StreamView {
                back_pts: Some(lowered(old(self).stream(kind).back_pts, start)),
                ..old(self).stream(kind)
            }),
            watermark_kept_or_lowered(old(self).stream(kind).back_pts, final(self).stream(kind).back_pts),
            others_kept(old(self), final(self), kind),
    {
        self.part_mut(kind).check_pts(check, start, end)
    }

    fn part(&self, kind: MediaType) -> (r: &StreamState)
        requires
            is_stream(kind),
            self.wf(),
        ensures
            r@ == self.stream(kind),
            r.wf(),
    {
        match kind {
            MediaType::Audio => &self.audio,
            _ => &self.video,
        }
    }

    fn part_mut(&mut self, kind: MediaType) -> (r: &mut StreamState)
        requires
            is_stream(kind),
            old(self).wf(),
        ensures
            *r == if kind is Audio {
                old(self).audio
            } else {
                old(self).video
            },
            r.wf(),
            final(r).wf() ==> final(self).wf(),
            final(self).stream(kind) == final(r)@,
            forall|k: MediaType|
                is_stream(k) && k != kind ==> #[trigger] final(self).stream(k) == old(self).stream(k),
    {
        match kind {
            MediaType::Audio => &mut self.audio,
            _ => &mut self.video,
        }
    }
}

} // verus!
