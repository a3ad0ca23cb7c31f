//! Candidate generator for the deltas between consecutive past segments.
//!
//! Starting from an ordered list of preferred deltas (the seed), the generator
//! sweeps the whole seed once per offset, taking the offsets in the order
//! `0, 1, -1, 2, -2, ...` up to `max_diff`, and hands out each positive value
//! at most once.

use std::collections::HashSet;
use vstd::prelude::*;

verus! {

broadcast use vstd::std_specs::hash::group_hash_axioms;

/// The offset added to the seed during sweep `j`: `0, 1, -1, 2, -2, ...`.
pub open spec fn sweep_offset(j: nat) -> int {
    if j == 0 {
        0
    } else if j % 2 == 1 {
        ((j + 1) / 2) as int
    } else {
        -((j / 2) as int)
    }
}

/// The position of `offset` in the sweep order `0, 1, -1, 2, -2, ...`.
pub open spec fn sweep_index(offset: int) -> nat {
    if offset > 0 {
        (2 * offset - 1) as nat
    } else {
        (-2 * offset) as nat
    }
}

/// How many sweeps are made for a bound: offsets `-max_diff ..= max_diff`,
/// and the single offset `0` when the bound is below one.
pub open spec fn sweep_count(max_diff: int) -> nat {
    if max_diff < 1 {
        1
    } else {
        (2 * max_diff + 1) as nat
    }
}

/// The seed with `off` added to every entry.
pub open spec fn shifted(seed: Seq<isize>, off: int) -> Seq<int> {
    seed.map_values(|v: isize| v + off)
}

/// Every value looked at during the first `j` sweeps, in order, unfiltered.
pub open spec fn raw_candidates(seed: Seq<isize>, j: nat) -> Seq<int>
    decreases j,
{
    if j == 0 {
        Seq::empty()
    } else {
        raw_candidates(seed, (j - 1) as nat) + shifted(seed, sweep_offset((j - 1) as nat))
    }
}

/// The values of `s` that are positive, fit in an `isize`, and did not occur
/// earlier in `s`, in their order of first occurrence.
pub open spec fn fresh_positive(s: Seq<int>) -> Seq<int>
    decreases s.len(),
{
    if s.len() == 0 {
        Seq::empty()
    } else {
        let kept = fresh_positive(s.drop_last());
        let v = s.last();
        if 0 < v <= isize::MAX && !kept.contains(v) {
            kept.push(v)
        } else {
            kept
        }
    }
}

/// The unique positive entries of the seed, in the seed's order.
pub open spec fn distinct_positive(seed: Seq<isize>) -> Seq<int> {
    fresh_positive(shifted(seed, 0))
}

/// The whole sequence of values that a generator built from `seed` and
/// `max_diff` hands out.
pub open spec fn offset_sequence(seed: Seq<isize>, max_diff: int) -> Seq<int> {
    fresh_positive(raw_candidates(seed, sweep_count(max_diff)))
}

/// Lazy producer of candidate deltas.
pub struct OffsetRange {
    visited: HashSet<isize>,
    max_diff: isize,
    offset: isize,
    seed: Vec<isize>,
    seed_idx: usize,
}

impl OffsetRange {
    pub closed spec fn seed(&self) -> Seq<isize> {
        self.seed@
    }

    pub closed spec fn max_diff(&self) -> int {
        self.max_diff as int
    }

    /// The raw values looked at so far.
    closed spec fn consumed(&self) -> Seq<int> {
        raw_candidates(self.seed@, sweep_index(self.offset as int)) + shifted(
            self.seed@,
            self.offset as int,
        ).take(self.seed_idx as int)
    }

    /// The values handed out so far, in order.
    pub closed spec fn produced(&self) -> Seq<int> {
        fresh_positive(self.consumed())
    }

    pub closed spec fn wf(&self) -> bool {
        &&& self.seed_idx <= self.seed@.len()
        &&& sweep_offset(sweep_index(self.offset as int)) == self.offset
        &&& sweep_index(self.offset as int) < sweep_count(self.max_diff as int)
        &&& forall|v: isize| #[trigger]
            self.visited@.contains(v) <==> self.produced().contains(v as int)
    }

    /// What is produced is always a prefix of the whole sequence.
    pub proof fn lemma_produced_prefix(&self)
        requires
            self.wf(),
        ensures
            self.produced().is_prefix_of(offset_sequence(self.seed(), self.max_diff())),
    {
        let j = sweep_index(self.offset as int);
        let n = sweep_count(self.max_diff as int);
        let sh = shifted(self.seed@, self.offset as int);
        lemma_raw_prefix(self.seed@, j + 1, n);
        assert(raw_candidates(self.seed@, j + 1) == raw_candidates(self.seed@, j) + sh);
        let rest = sh.skip(self.seed_idx as int);
        assert(sh =~= sh.take(self.seed_idx as int) + rest);
        assert(raw_candidates(self.seed@, j + 1) =~= self.consumed() + rest);
        let tail = raw_candidates(self.seed@, n).skip(raw_candidates(self.seed@, j + 1).len() as int);
        assert(raw_candidates(self.seed@, n) =~= raw_candidates(self.seed@, j + 1) + tail);
        assert(raw_candidates(self.seed@, n) =~= self.consumed() + (rest + tail));
        lemma_fresh_prefix(self.consumed(), rest + tail);
    }

    /// A generator over `seed` that offsets each entry by at most `max_diff`.
    pub fn new(max_diff: isize, seed: Vec<isize>) -> (r: OffsetRange)
        ensures
            r.wf(),
            r.seed() == seed@,
            r.max_diff() == max_diff,
            r.produced() == Seq::<int>::empty(),
    {
        let r = OffsetRange { visited: HashSet::new(), max_diff, offset: 0, seed, seed_idx: 0 };
        assert(r.consumed() =~= Seq::<int>::empty());
        r
    }

    /// Hands out the next value of the sequence, or `None` once it is used up.
    pub fn next(&mut self) -> (r: Option<isize>)
        requires
            old(self).wf(),
        ensures
            final(self).wf(),
            final(self).seed() == old(self).seed(),
            final(self).max_diff() == old(self).max_diff(),
            match r {
                Some(v) => {
                    &&& old(self).produced().len() < offset_sequence(
                        old(self).seed(),
                        old(self).max_diff(),
                    ).len()
                    &&& v as int == offset_sequence(old(self).seed(), old(self).max_diff())[old(
                        self,
                    ).produced().len() as int]
                    &&& final(self).produced() == old(self).produced().push(v as int)
                },
                None => {
                    &&& old(self).produced() == offset_sequence(
                        old(self).seed(),
                        old(self).max_diff(),
                    )
                    &&& final(self).produced() == old(self).produced()
                },
            },
    {
        proof {
            self.lemma_produced_prefix();
        }
        let ghost start = self.produced();
        let ghost whole = offset_sequence(self.seed(), self.max_diff());
        let n = self.seed.len();
        loop
            invariant
                self.wf(),
                self.seed@ == old(self).seed@,
                self.max_diff == old(self).max_diff,
                n == self.seed@.len(),
                self.produced() == start,
                start == old(self).produced(),
                start.is_prefix_of(whole),
                whole == offset_sequence(self.seed(), self.max_diff()),
            decreases
                sweep_count(self.max_diff as int) - sweep_index(self.offset as int),
                n - self.seed_idx,
        {
            if self.seed_idx >= n {
                let ghost j = sweep_index(self.offset as int);
                proof {
                    let sh = shifted(self.seed@, self.offset as int);
                    assert(sh.take(n as int) =~= sh);
                    assert(self.consumed() == raw_candidates(self.seed@, j + 1));
                }
                if self.offset > 0 {
                    self.offset = -self.offset;
                } else {
                    if -self.offset >= self.max_diff {
                        proof {
                            assert(j + 1 == sweep_count(self.max_diff as int));
                            assert(start == whole);
                        }
                        return None;
                    }
                    self.offset = -self.offset + 1;
                }
                self.seed_idx = 0;
                proof {
                    assert(sweep_index(self.offset as int) == j + 1);
                    assert(j + 1 < sweep_count(self.max_diff as int));
                    let sh = shifted(self.seed@, self.offset as int);
                    assert(sh.take(0) =~= Seq::<int>::empty());
                    assert(self.consumed() =~= raw_candidates(self.seed@, j + 1));
                }
                continue;
            }
            let ghost before = self.consumed();
            let s = self.seed[self.seed_idx];
            let candidate = s.checked_add(self.offset);
            self.seed_idx = self.seed_idx + 1;
            proof {
                let sh = shifted(self.seed@, self.offset as int);
                let v = s + self.offset;
                assert(sh.take(self.seed_idx as int) =~= sh.take(self.seed_idx - 1).push(v));
                assert(self.consumed() =~= before.push(v));
                assert(self.consumed().drop_last() =~= before);
            }
            match candidate {
                Some(v) => {
                    if v > 0 && !self.visited.contains(&v) {
                        let ghost seen = self.visited@;
                        self.visited.insert(v);
                        proof {
                            let p = self.produced();
                            assert(p == start.push(v as int));
                            assert forall|w: isize| #[trigger]
                                self.visited@.contains(w) <==> self.produced().contains(
                                    w as int,
                                ) by {
                                if w == v {
                                    assert(p[start.len() as int] == v as int);
                                } else if seen.contains(w) {
                                    assert(start.contains(w as int));
                                    let k = choose|k: int| 0 <= k < start.len() && start[k] == w as int;
                                    assert(p[k] == w as int);
                                } else if p.contains(w as int) {
                                    let k = choose|k: int| 0 <= k < p.len() && p[k] == w as int;
                                    assert(start[k] == w as int);
                                    assert(start.contains(w as int));
                                }
                            }
                            self.lemma_produced_prefix();
                            assert(whole.subrange(0, p.len() as int)[start.len() as int] == whole[start.len() as int]);
                        }
                        return Some(v);
                    }
                },
                None => {},
            }
        }
    }
    /// Hands out every value that is left, in order.
    pub fn into_vec(self) -> (r: Vec<isize>)
        requires
            self.wf(),
        ensures
            r@.map_values(|v: isize| v as int) == offset_sequence(self.seed(), self.max_diff()).skip(
                self.produced().len() as int,
            ),
    {
        let mut range = self;
        let ghost whole = offset_sequence(self.seed(), self.max_diff());
        let ghost first = self.produced().len();
        let mut out: Vec<isize> = Vec::new();
        proof {
            range.lemma_produced_prefix();
        }
        loop
            invariant
                range.wf(),
                range.seed() == self.seed(),
                range.max_diff() == self.max_diff(),
                whole == offset_sequence(self.seed(), self.max_diff()),
                range.produced().is_prefix_of(whole),
                first <= range.produced().len(),
                out@.map_values(|v: isize| v as int) =~= whole.subrange(
                    first as int,
                    range.produced().len() as int,
                ),
            ensures
                out@.map_values(|v: isize| v as int) =~= whole.skip(first as int),
            decreases whole.len() - range.produced().len(),
        {
            match range.next() {
                Some(v) => {
                    let ghost shown = out@;
                    out.push(v);
                    proof {
                        range.lemma_produced_prefix();
                        assert(out@ =~= shown.push(v));
                        assert(out@.map_values(|v: isize| v as int) =~= shown.map_values(
                            |v: isize| v as int,
                        ).push(v as int));
                    }
                },
                None => {
                    break;
                },
            }
        }
        out
    }
}

/// `fresh_positive` of a sequence is a prefix of `fresh_positive` of any
/// extension of it.
pub proof fn lemma_fresh_prefix(a: Seq<int>, b: Seq<int>)
    ensures
        fresh_positive(a).is_prefix_of(fresh_positive(a + b)),
    decreases b.len(),
{
    if b.len() == 0 {
        assert(a + b =~= a);
    } else {
        lemma_fresh_prefix(a, b.drop_last());
        assert((a + b).drop_last() =~= a + b.drop_last());
    }
}

/// The sweeps only ever add to the raw sequence.
pub proof fn lemma_raw_prefix(seed: Seq<isize>, j: nat, k: nat)
    requires
        j <= k,
    ensures
        raw_candidates(seed, j).is_prefix_of(raw_candidates(seed, k)),
    decreases k,
{
    if j < k {
        lemma_raw_prefix(seed, j, (k - 1) as nat);
    }
}

/// Every value kept by `fresh_positive` is positive, fits in an `isize`, and
/// is kept once.
pub proof fn lemma_fresh_facts(s: Seq<int>)
    ensures
        fresh_positive(s).no_duplicates(),
        fresh_positive(s).len() <= s.len(),
        forall|i: int|
            0 <= i < fresh_positive(s).len() ==> 0 < #[trigger] fresh_positive(s)[i] <= isize::MAX,
    decreases s.len(),
{
    if s.len() > 0 {
        lemma_fresh_facts(s.drop_last());
    }
}

/// The raw sequence of `j` sweeps has `j` entries per seed value.
pub proof fn lemma_raw_len(seed: Seq<isize>, j: nat)
    ensures
        raw_candidates(seed, j).len() == j * seed.len(),
    decreases j,
{
    let n = seed.len();
    if j > 0 {
        let m = (j - 1) as nat;
        lemma_raw_len(seed, m);
        assert(raw_candidates(seed, j) == raw_candidates(seed, m) + shifted(seed, sweep_offset(m)));
        assert(shifted(seed, sweep_offset(m)).len() == n);
        assert(j * n == m * n + n) by (nonlinear_arith)
            requires
                j == m + 1,
        ;
    } else {
        assert(j * n == 0) by (nonlinear_arith)
            requires
                j == 0,
        ;
    }
}

/// No value is handed out twice.
pub proof fn lemma_offsets_distinct(seed: Seq<isize>, max_diff: int)
    ensures
        offset_sequence(seed, max_diff).no_duplicates(),
{
    lemma_fresh_facts(raw_candidates(seed, sweep_count(max_diff)));
}

/// Every value handed out is strictly positive.
pub proof fn lemma_offsets_positive(seed: Seq<isize>, max_diff: int)
    ensures
        forall|i: int|
            0 <= i < offset_sequence(seed, max_diff).len() ==> 0 < #[trigger] offset_sequence(
                seed,
                max_diff,
            )[i],
{
    lemma_fresh_facts(raw_candidates(seed, sweep_count(max_diff)));
}

/// A generator over a finite seed hands out finitely many values: at most one
/// per seed entry and sweep.
pub proof fn lemma_offsets_finite(seed: Seq<isize>, max_diff: int)
    ensures
        offset_sequence(seed, max_diff).len() <= seed.len() * sweep_count(max_diff),
{
    lemma_fresh_facts(raw_candidates(seed, sweep_count(max_diff)));
    lemma_raw_len(seed, sweep_count(max_diff));
}

/// The first values handed out are the unique positive entries of the seed,
/// in the seed's order.
pub proof fn lemma_offsets_seed_first(seed: Seq<isize>, max_diff: int)
    ensures
        distinct_positive(seed).is_prefix_of(offset_sequence(seed, max_diff)),
{
    let raw = raw_candidates(seed, sweep_count(max_diff));
    lemma_raw_prefix(seed, 1, sweep_count(max_diff));
    assert(raw_candidates(seed, 0) == Seq::<int>::empty());
    assert(sweep_offset(0) == 0);
    assert(raw_candidates(seed, 1) =~= shifted(seed, 0));
    let rest = raw.skip(seed.len() as int);
    assert(raw =~= shifted(seed, 0) + rest);
    lemma_fresh_prefix(shifted(seed, 0), rest);
}

} // verus!
