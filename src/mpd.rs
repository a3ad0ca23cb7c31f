//! The parsed manifest: adaptation sets, representations and their segment
//! timelines.

use crate::error::IgLiveError;
use crate::kind::MediaType;
use crate::text::{decimal, fill_time, starts_with, substitute_time};
use crate::trusted::{join_url_text, path_segments_of, url_join_of, url_path_segments};
use vstd::prelude::*;

verus! {

/// One listed segment: start time and duration, in timescale units.
#[derive(Debug, Clone, Copy)]
pub struct Segment {
    pub t: usize,
    pub d: usize,
}

/// The segments a representation currently lists.
#[derive(Debug)]
pub struct SegmentTimeline {
    pub segments: Vec<Segment>,
}

/// Where a representation's blobs live, relative to the manifest.
#[derive(Debug)]
pub struct SegmentTemplate {
    pub segment_timeline: SegmentTimeline,
    /// Path of the initialization blob.
    pub initialization_path: String,
    /// Path of a segment, with `$Time$` standing for its timestamp.
    pub media_path: String,
}

/// One encoded variant of a stream.
#[derive(Debug)]
pub struct Representation {
    pub segment_template: SegmentTemplate,
    pub mime_type: String,
    pub width: Option<usize>,
    pub height: Option<usize>,
    pub frame_rate: Option<usize>,
    pub bandwidth: usize,
}

/// A group of interchangeable representations.
#[derive(Debug)]
pub struct AdaptationSet {
    pub representations: Vec<Representation>,
    pub max_width: Option<usize>,
    pub max_height: Option<usize>,
    pub max_frame_rate: Option<usize>,
}

/// The manifest's single period.
#[derive(Debug)]
pub struct Period {
    pub adaptation_sets: Vec<AdaptationSet>,
}

/// A snapshot of the broadcast's manifest.
#[derive(Debug)]
pub struct Mpd {
    pub period: Period,
    /// The broadcast's id.
    pub id: String,
    /// Timestamp of the broadcast's first frame.
    pub start_frame: usize,
    /// Whether the broadcast has ended.
    pub finished: bool,
}

/// Position `(i, j)` comes before `(k, l)`: sets in order, then
/// representations in order.
pub open spec fn earlier(i: int, j: int, k: int, l: int) -> bool {
    i < k || (i == k && j < l)
}

/// The kind that a MIME type names.
pub open spec fn media_type_of(mime: Seq<char>) -> MediaType {
    if "video/"@.is_prefix_of(mime) {
        MediaType::Video
    } else if "audio/"@.is_prefix_of(mime) {
        MediaType::Audio
    } else {
        MediaType::Unknown
    }
}

impl Mpd {
    pub open spec fn valid_at(&self, i: int, j: int) -> bool {
        &&& 0 <= i < self.period.adaptation_sets@.len()
        &&& 0 <= j < self.period.adaptation_sets@[i].representations@.len()
    }

    pub open spec fn rep_at(&self, i: int, j: int) -> Representation {
        self.period.adaptation_sets@[i].representations@[j]
    }

    /// The representation at `(i, j)` has a MIME type starting with `prefix`
    /// and a positive bandwidth.
    pub open spec fn offers(&self, prefix: Seq<char>, i: int, j: int) -> bool {
        &&& self.valid_at(i, j)
        &&& prefix.is_prefix_of(self.rep_at(i, j).mime_type@)
        &&& self.rep_at(i, j).bandwidth > 0
    }

    pub open spec fn has_offer(&self, prefix: Seq<char>) -> bool {
        exists|i: int, j: int| self.offers(prefix, i, j)
    }

    /// `(i, j)` has the highest bandwidth among the offers for `prefix`, and
    /// is the first one with it.
    pub open spec fn is_best(&self, prefix: Seq<char>, i: int, j: int) -> bool {
        &&& self.offers(prefix, i, j)
        &&& forall|k: int, l: int| #[trigger]
            self.offers(prefix, k, l) ==> self.rep_at(k, l).bandwidth <= self.rep_at(i, j).bandwidth
                && (earlier(k, l, i, j) ==> self.rep_at(k, l).bandwidth < self.rep_at(
                i,
                j,
            ).bandwidth)
    }

    /// What a scan has found once every position before `(i, j)` is seen.
    pub open spec fn best_before(
        &self,
        prefix: Seq<char>,
        best: Option<(usize, usize)>,
        bw: usize,
        i: int,
        j: int,
    ) -> bool {
        match best {
            Some((a, b)) => {
                &&& self.offers(prefix, a as int, b as int)
                &&& earlier(a as int, b as int, i, j)
                &&& bw == self.rep_at(a as int, b as int).bandwidth
                &&& forall|k: int, l: int| #[trigger]
                    self.offers(prefix, k, l) && earlier(k, l, i, j) ==> self.rep_at(k, l).bandwidth
                        <= bw && (earlier(k, l, a as int, b as int) ==> self.rep_at(
                        k,
                        l,
                    ).bandwidth < bw)
            },
            None => {
                &&& bw == 0
                &&& forall|k: int, l: int| #[trigger]
                    self.offers(prefix, k, l) ==> !earlier(k, l, i, j)
            },
        }
    }

    proof fn lemma_row_done(
        &self,
        prefix: Seq<char>,
        best: Option<(usize, usize)>,
        bw: usize,
        i: int,
    )
        requires
            0 <= i < self.period.adaptation_sets@.len(),
            self.best_before(
                prefix,
                best,
                bw,
                i,
                self.period.adaptation_sets@[i].representations@.len() as int,
            ),
        ensures
            self.best_before(prefix, best, bw, i + 1, 0),
    {
        let n = self.period.adaptation_sets@[i].representations@.len() as int;
        assert forall|k: int, l: int| #[trigger]
            self.offers(prefix, k, l) && earlier(k, l, i + 1, 0) implies earlier(k, l, i, n) by {}
    }

    proof fn lemma_scan_done(&self, prefix: Seq<char>, best: Option<(usize, usize)>, bw: usize)
        requires
            self.best_before(prefix, best, bw, self.period.adaptation_sets@.len() as int, 0),
            self.has_offer(prefix),
        ensures
            best is Some,
            self.is_best(prefix, best->Some_0.0 as int, best->Some_0.1 as int),
    {
        let n = self.period.adaptation_sets@.len() as int;
        let (i, j) = choose|i: int, j: int| self.offers(prefix, i, j);
        assert(earlier(i, j, n, 0));
    }

    /// Whether some representation has a MIME type starting with `prefix`
    /// and a positive bandwidth.
    pub fn has_media(&self, prefix: &str) -> (r: bool)
        ensures
            r == self.has_offer(prefix@),
    {
        let sets = &self.period.adaptation_sets;
        let mut i: usize = 0;
        while i < sets.len()
            invariant
                sets == &self.period.adaptation_sets,
                i <= sets@.len(),
                forall|k: int, l: int| #[trigger] self.offers(prefix@, k, l) ==> k >= i,
            decreases sets@.len() - i,
        {
            let reps = &sets[i].representations;
            let mut j: usize = 0;
            while j < reps.len()
                invariant
                    sets == &self.period.adaptation_sets,
                    i < sets@.len(),
                    reps == &sets@[i as int].representations,
                    j <= reps@.len(),
                    forall|k: int, l: int| #[trigger]
                        self.offers(prefix@, k, l) ==> k > i || (k == i && l >= j),
                decreases reps@.len() - j,
            {
                if reps[j].bandwidth > 0 && starts_with(&reps[j].mime_type, prefix) {
                    assert(self.offers(prefix@, i as int, j as int));
                    return true;
                }
                j = j + 1;
            }
            i = i + 1;
        }
        false
    }

    /// The video and the audio representation of highest bandwidth; among
    /// equals, the first listed.
    pub fn best_media(&self) -> (r: (&Representation, &Representation))
        requires
            self.has_offer("video"@),
            self.has_offer("audio"@),
        ensures
            exists|i: int, j: int| self.is_best("video"@, i, j) && *r.0 == self.rep_at(i, j),
            exists|i: int, j: int| self.is_best("audio"@, i, j) && *r.1 == self.rep_at(i, j),
    {
        let sets = &self.period.adaptation_sets;
        let mut cur_video_bandwidth: usize = 0;
        let mut cur_audio_bandwidth: usize = 0;
        let mut video: Option<(usize, usize)> = None;
        let mut audio: Option<(usize, usize)> = None;
        let mut i: usize = 0;
        while i < sets.len()
            invariant
                sets == &self.period.adaptation_sets,
                i <= sets@.len(),
                self.best_before("video"@, video, cur_video_bandwidth, i as int, 0),
                self.best_before("audio"@, audio, cur_audio_bandwidth, i as int, 0),
            decreases sets@.len() - i,
        {
            let reps = &sets[i].representations;
            let mut j: usize = 0;
            while j < reps.len()
                invariant
                    sets == &self.period.adaptation_sets,
                    i < sets@.len(),
                    reps == &sets@[i as int].representations,
                    j <= reps@.len(),
                    self.best_before("video"@, video, cur_video_bandwidth, i as int, j as int),
                    self.best_before("audio"@, audio, cur_audio_bandwidth, i as int, j as int),
                decreases reps@.len() - j,
            {
                let r = &reps[j];
                if starts_with(&r.mime_type, "video") && r.bandwidth > cur_video_bandwidth {
                    cur_video_bandwidth = r.bandwidth;
                    video = Some((i, j));
                }
                if starts_with(&r.mime_type, "audio") && r.bandwidth > cur_audio_bandwidth {
                    cur_audio_bandwidth = r.bandwidth;
                    audio = Some((i, j));
                }
                j = j + 1;
            }
            proof {
                self.lemma_row_done("video"@, video, cur_video_bandwidth, i as int);
                self.lemma_row_done("audio"@, audio, cur_audio_bandwidth, i as int);
            }
            i = i + 1;
        }
        proof {
            self.lemma_scan_done("video"@, video, cur_video_bandwidth);
            self.lemma_scan_done("audio"@, audio, cur_audio_bandwidth);
        }
        let (vi, vj) = match video {
            Some(p) => p,
            None => (0, 0),
        };
        let (ai, aj) = match audio {
            Some(p) => p,
            None => (0, 0),
        };
        (&sets[vi].representations[vj], &sets[ai].representations[aj])
    }
}

impl Representation {
    /// The media path with every `$Time$` replaced by `t` in decimal.
    pub fn media_path_at(&self, t: usize) -> (r: String)
        ensures
            r@ == substitute_time(self.segment_template.media_path@, decimal(t as nat)),
    {
        fill_time(self.segment_template.media_path.as_str(), t)
    }

    /// The URL of the segment at `t`: the media path with `$Time$` filled in,
    /// resolved against the manifest URL `url_base`.
    pub fn download_url(&self, url_base: &str, t: usize) -> (r: Result<String, IgLiveError>)
        ensures
            match url_join_of(
                url_base@,
                substitute_time(self.segment_template.media_path@, decimal(t as nat)),
            ) {
                Some(u) => r is Ok && r->Ok_0@ == u,
                None => r == Err::<String, IgLiveError>(IgLiveError::InvalidUrl),
            },
    {
        let path = self.media_path_at(t);
        match join_url_text(url_base, path.as_str()) {
            Some(u) => Ok(u),
            None => Err(IgLiveError::InvalidUrl),
        }
    }

    /// The URL of the initialization blob, resolved against the manifest URL
    /// `url_base`.
    pub fn init_url(&self, url_base: &str) -> (r: Result<String, IgLiveError>)
        ensures
            match url_join_of(url_base@, self.segment_template.initialization_path@) {
                Some(u) => r is Ok && r->Ok_0@ == u,
                None => r == Err::<String, IgLiveError>(IgLiveError::InvalidUrl),
            },
    {
        match join_url_text(url_base, self.segment_template.initialization_path.as_str()) {
            Some(u) => Ok(u),
            None => Err(IgLiveError::InvalidUrl),
        }
    }

    /// The kind named by the MIME type: `video/...`, `audio/...`, or neither.
    pub fn media_type(&self) -> (r: MediaType)
        ensures
            r == media_type_of(self.mime_type@),
    {
        if starts_with(&self.mime_type, "video/") {
            MediaType::Video
        } else if starts_with(&self.mime_type, "audio/") {
            MediaType::Audio
        } else {
            MediaType::Unknown
        }
    }
}

/// Whether the broadcast-ended header's value says that the broadcast is over:
/// exactly `1`.
pub fn broadcast_ended(header_value: &str) -> (r: bool)
    ensures
        r == (header_value@ == seq!['1']),
{
    let n = header_value.unicode_len();
    let r = n == 1 && header_value.get_char(0) == '1';
    assert(r == (header_value@ =~= seq!['1']));
    r
}

/// The name a downloaded file gets: the last segment of its URL's path;
/// `InvalidUrl` when the URL has no path segments.
pub fn segment_file_name(url: &str) -> (r: Result<String, IgLiveError>)
    ensures
        match path_segments_of(url@) {
            Some(s) => s.len() > 0 && r is Ok && r->Ok_0@ == s.last(),
            None => r == Err::<String, IgLiveError>(IgLiveError::InvalidUrl),
        },
{
    match url_path_segments(url) {
        Some(mut segments) => {
            let ghost all = segments@;
            match segments.pop() {
                Some(last) => {
                    assert(last@ == all[all.len() - 1]@);
                    Ok(last)
                },
                None => Err(IgLiveError::InvalidUrl),
            }
        },
        None => Err(IgLiveError::InvalidUrl),
    }
}

} // verus!
