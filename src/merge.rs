//! Decisions of the final merge: which files belong to which stream, in what
//! order they are concatenated, and where their timestamps leave a gap.

use crate::kind::MediaType;
use crate::text::ends_with;
use crate::trusted::{alphanumeric_order, compare_alphanumeric};
use std::cmp::Ordering;
use vstd::prelude::*;

verus! {

/// The stream that a segment file belongs to, by its extension.
pub open spec fn kind_of_file(name: Seq<char>) -> MediaType {
    if ".m4v"@.is_suffix_of(name) {
        MediaType::Video
    } else if ".m4a"@.is_suffix_of(name) {
        MediaType::Audio
    } else {
        MediaType::Unknown
    }
}

/// `e` inserted behind every entry that does not sort after it.
pub open spec fn insert_alphanumeric(s: Seq<Seq<char>>, e: Seq<char>) -> Seq<Seq<char>>
    decreases s.len(),
{
    if s.len() == 0 || alphanumeric_order(s.last(), e) != Ordering::Greater {
        s.push(e)
    } else {
        insert_alphanumeric(s.drop_last(), e).push(s.last())
    }
}

/// The names in alphanumeric order; equal ones keep their order.
pub open spec fn sorted_alphanumeric(s: Seq<Seq<char>>) -> Seq<Seq<char>>
    decreases s.len(),
{
    if s.len() == 0 {
        s
    } else {
        insert_alphanumeric(sorted_alphanumeric(s.drop_last()), s.last())
    }
}

pub open spec fn texts(v: Seq<String>) -> Seq<Seq<char>> {
    v.map_values(|s: String| s@)
}

/// For each pair of consecutive segments whose PTS do not meet, the previous
/// segment's end.
pub open spec fn pts_gaps(pts: Seq<(usize, usize)>) -> Seq<usize>
    decreases pts.len(),
{
    if pts.len() < 2 {
        Seq::empty()
    } else {
        let before = pts_gaps(pts.drop_last());
        let prev = pts[pts.len() - 2];
        if prev.1 != pts.last().0 {
            before.push(prev.1)
        } else {
            before
        }
    }
}

proof fn lemma_insert_alphanumeric_at(s: Seq<Seq<char>>, e: Seq<char>, p: int)
    requires
        0 <= p <= s.len(),
        p == 0 || alphanumeric_order(s[p - 1], e) != Ordering::Greater,
        forall|q: int| p <= q < s.len() ==> alphanumeric_order(#[trigger] s[q], e) == Ordering::Greater,
    ensures
        insert_alphanumeric(s, e) == s.take(p).push(e) + s.skip(p),
    decreases s.len(),
{
    if s.len() == p {
        assert(s.skip(p) =~= Seq::<Seq<char>>::empty());
        assert(s.take(p) =~= s);
    } else {
        let d = s.drop_last();
        lemma_insert_alphanumeric_at(d, e, p);
        assert(s.take(p) =~= d.take(p));
        assert(s.skip(p) =~= d.skip(p).push(s.last()));
        assert(insert_alphanumeric(s, e) =~= s.take(p).push(e) + s.skip(p));
    }
}

proof fn lemma_insert_alphanumeric_multiset(s: Seq<Seq<char>>, e: Seq<char>)
    ensures
        insert_alphanumeric(s, e).to_multiset() == s.to_multiset().insert(e),
    decreases s.len(),
{
    if s.len() == 0 || alphanumeric_order(s.last(), e) != Ordering::Greater {
        s.to_multiset_ensures();
    } else {
        let d = s.drop_last();
        lemma_insert_alphanumeric_multiset(d, e);
        insert_alphanumeric(d, e).to_multiset_ensures();
        d.to_multiset_ensures();
        assert(d.push(s.last()) =~= s);
        assert(insert_alphanumeric(s, e).to_multiset() =~= s.to_multiset().insert(e));
    }
}

/// Sorting keeps exactly the names it was given.
pub proof fn lemma_sorted_alphanumeric_multiset(s: Seq<Seq<char>>)
    ensures
        sorted_alphanumeric(s).to_multiset() == s.to_multiset(),
    decreases s.len(),
{
    if s.len() > 0 {
        let d = s.drop_last();
        lemma_sorted_alphanumeric_multiset(d);
        lemma_insert_alphanumeric_multiset(sorted_alphanumeric(d), s.last());
        d.to_multiset_ensures();
        assert(d.push(s.last()) =~= s);
    }
}

/// The stream of a segment file: `.m4v` for video, `.m4a` for audio.
pub fn segment_kind(file_name: &str) -> (r: MediaType)
    ensures
        r == kind_of_file(file_name@),
{
    if ends_with(file_name, ".m4v") {
        MediaType::Video
    } else if ends_with(file_name, ".m4a") {
        MediaType::Audio
    } else {
        MediaType::Unknown
    }
}

/// The paths in alphanumeric order, digit runs compared by value; equal
/// paths keep their order.
pub fn sort_segments(paths: &Vec<String>) -> (r: Vec<String>)
    ensures
        texts(r@) == sorted_alphanumeric(texts(paths@)),
        texts(r@).to_multiset() == texts(paths@).to_multiset(),
{
    proof {
        lemma_sorted_alphanumeric_multiset(texts(paths@));
    }
    let mut out: Vec<String> = Vec::new();
    let mut i: usize = 0;
    while i < paths.len()
        invariant
            i <= paths@.len(),
            texts(out@) == sorted_alphanumeric(texts(paths@.take(i as int))),
        decreases paths@.len() - i,
    {
        let e = paths[i].clone();
        let ghost before = texts(out@);
        let mut j: usize = out.len();
        while j > 0
            invariant
                j <= out@.len(),
                texts(out@) == before,
                e@ == paths@[i as int]@,
                forall|q: int| j <= q < before.len() ==> alphanumeric_order(#[trigger] before[q], e@)
                    == Ordering::Greater,
            ensures
                j == 0 || alphanumeric_order(before[j - 1], e@) != Ordering::Greater,
            decreases j,
        {
            assert(before[j - 1] == out@[j - 1]@);
            match compare_alphanumeric(out[j - 1].as_str(), e.as_str()) {
                Ordering::Greater => {
                    j = j - 1;
                },
                _ => {
                    break;
                },
            }
        }
        out.insert(j, e);
        proof {
            lemma_insert_alphanumeric_at(before, paths@[i as int]@, j as int);
            assert(texts(paths@.take(i + 1)).drop_last() =~= texts(paths@.take(i as int)));
            assert(texts(out@) =~= before.take(j as int).push(paths@[i as int]@) + before.skip(
                j as int,
            ));
        }
        i = i + 1;
    }
    proof {
        assert(paths@.take(i as int) =~= paths@);
    }
    out
}

/// Where consecutive segments do not meet: for each pair whose previous end
/// differs from the next start, the previous end.
pub fn find_pts_gaps(pts: &Vec<(usize, usize)>) -> (r: Vec<usize>)
    ensures
        r@ == pts_gaps(pts@),
{
    let mut out: Vec<usize> = Vec::new();
    let mut i: usize = 1;
    if pts.len() < 2 {
        proof {
            assert(out@ =~= pts_gaps(pts@));
        }
        return out;
    }
    proof {
        assert(pts_gaps(pts@.take(1)) =~= Seq::<usize>::empty());
    }
    while i < pts.len()
        invariant
            1 <= i <= pts@.len(),
            out@ == pts_gaps(pts@.take(i as int)),
        decreases pts@.len() - i,
    {
        let prev = pts[i - 1];
        let cur = pts[i];
        if prev.1 != cur.0 {
            out.push(prev.1);
        }
        proof {
            let w = pts@.take(i + 1);
            assert(w.drop_last() =~= pts@.take(i as int));
            assert(w[w.len() - 2] == prev);
        }
        i = i + 1;
    }
    proof {
        assert(pts@.take(i as int) =~= pts@);
    }
    out
}

} // verus!
