//! Histogram of the deltas observed between consecutive segments.
//!
//! Entries keep the order in which their keys were first inserted, so that
//! sorting by count is stable and ties come out in insertion order.

use vstd::prelude::*;

verus! {

/// One entry per key.
pub open spec fn keys_unique(s: Seq<(isize, u64)>) -> bool {
    forall|i: int, j: int| 0 <= i < s.len() && 0 <= j < s.len() && i != j ==> s[i].0 != s[j].0
}

pub open spec fn has_key(s: Seq<(isize, u64)>, k: isize) -> bool {
    exists|i: int| 0 <= i < s.len() && s[i].0 == k
}

/// The count recorded for `k`, zero when it has no entry.
pub open spec fn count_of(s: Seq<(isize, u64)>, k: isize) -> u64 {
    if has_key(s, k) {
        s[choose|i: int| 0 <= i < s.len() && s[i].0 == k].1
    } else {
        0
    }
}

/// `c + 1`, held at the largest count.
pub open spec fn bumped(c: u64) -> u64 {
    if c < u64::MAX {
        (c + 1) as u64
    } else {
        c
    }
}

/// The entries after one more observation of `k`: its count goes up by one
/// in place, or it is appended with count 1.
pub open spec fn with_bumped(s: Seq<(isize, u64)>, k: isize) -> Seq<(isize, u64)> {
    if has_key(s, k) {
        let i = choose|i: int| 0 <= i < s.len() && s[i].0 == k;
        s.update(i, (k, bumped(s[i].1)))
    } else {
        s.push((k, 1))
    }
}

/// Inserts `e` into `s` behind every entry whose count is at least `e`'s.
pub open spec fn insert_by_count(s: Seq<(isize, u64)>, e: (isize, u64)) -> Seq<(isize, u64)>
    decreases s.len(),
{
    if s.len() == 0 || s.last().1 >= e.1 {
        s.push(e)
    } else {
        insert_by_count(s.drop_last(), e).push(s.last())
    }
}

/// The entries ordered by count, highest first; equal counts keep their order.
pub open spec fn sort_by_count(s: Seq<(isize, u64)>) -> Seq<(isize, u64)>
    decreases s.len(),
{
    if s.len() == 0 {
        s
    } else {
        insert_by_count(sort_by_count(s.drop_last()), s.last())
    }
}

/// Counts never increase along `s`.
pub open spec fn counts_descending(s: Seq<(isize, u64)>) -> bool {
    forall|i: int, j: int| 0 <= i <= j < s.len() ==> s[i].1 >= s[j].1
}

/// The keys of `s`, in order.
pub open spec fn keys_of(s: Seq<(isize, u64)>) -> Seq<isize> {
    s.map_values(|e: (isize, u64)| e.0)
}

pub proof fn lemma_count_at(s: Seq<(isize, u64)>, i: int)
    requires
        keys_unique(s),
        0 <= i < s.len(),
    ensures
        count_of(s, s[i].0) == s[i].1,
{
    let k = s[i].0;
    assert(has_key(s, k));
    let c = choose|c: int| 0 <= c < s.len() && s[c].0 == k;
    assert(c == i);
}

/// Inserting from the back lands `e` at the first place whose tail all counts
/// less than `e`.
proof fn lemma_insert_at(s: Seq<(isize, u64)>, e: (isize, u64), p: int)
    requires
        0 <= p <= s.len(),
        p == 0 || s[p - 1].1 >= e.1,
        forall|q: int| p <= q < s.len() ==> s[q].1 < e.1,
    ensures
        insert_by_count(s, e) == s.take(p).push(e) + s.skip(p),
    decreases s.len(),
{
    if s.len() == p {
        assert(s.skip(p) =~= Seq::<(isize, u64)>::empty());
        assert(s.take(p) =~= s);
    } else {
        let d = s.drop_last();
        lemma_insert_at(d, e, p);
        assert(s.take(p) =~= d.take(p));
        assert(s.skip(p) =~= d.skip(p).push(s.last()));
        assert(insert_by_count(s, e) =~= s.take(p).push(e) + s.skip(p));
    }
}

/// The prior that both streams start from: 10 at 2000, 5 at 100, and 1 at
/// `100 * x`, `100 * x + 33` and `100 * x + 67` for `x` in `18 ..= 22`, in the
/// order of insertion.
pub open spec fn prior_entries() -> Seq<(isize, u64)> {
    seq![
        (1800, 1),
        (1833, 1),
        (1867, 1),
        (1900, 1),
        (1933, 1),
        (1967, 1),
        (2000, 10),
        (2033, 1),
        (2067, 1),
        (2100, 1),
        (2133, 1),
        (2167, 1),
        (2200, 1),
        (2233, 1),
        (2267, 1),
        (100, 5),
    ]
}

/// The entries `100 * x`, `100 * x + 33`, `100 * x + 67` (count 1) for the
/// first `k` values of `x` from 18 on.
spec fn prior_bands(k: nat) -> Seq<(isize, u64)>
    decreases k,
{
    if k == 0 {
        Seq::empty()
    } else {
        let x = 17 + k;
        prior_bands((k - 1) as nat) + seq![
            ((100 * x) as isize, 1u64),
            ((100 * x + 33) as isize, 1u64),
            ((100 * x + 67) as isize, 1u64),
        ]
    }
}

/// One more observation keeps one entry per key, adds one at `k` (held at the
/// largest count), and leaves every other count alone.
pub proof fn lemma_with_bumped(s: Seq<(isize, u64)>, k: isize)
    requires
        keys_unique(s),
    ensures
        keys_unique(with_bumped(s, k)),
        count_of(with_bumped(s, k), k) == bumped(count_of(s, k)),
        forall|j: isize| j != k ==> #[trigger] count_of(with_bumped(s, k), j) == count_of(s, j),
{
    let r = with_bumped(s, k);
    if has_key(s, k) {
        let i = choose|i: int| 0 <= i < s.len() && s[i].0 == k;
        lemma_count_at(s, i);
        lemma_count_at(r, i);
        assert forall|j: isize| j != k implies #[trigger] count_of(r, j) == count_of(s, j) by {
            if has_key(s, j) {
                let q = choose|q: int| 0 <= q < s.len() && s[q].0 == j;
                lemma_count_at(s, q);
                lemma_count_at(r, q);
            } else {
                assert(!has_key(r, j));
            }
        }
    } else {
        lemma_count_at(r, s.len() as int);
        assert forall|j: isize| j != k implies #[trigger] count_of(r, j) == count_of(s, j) by {
            if has_key(s, j) {
                let q = choose|q: int| 0 <= q < s.len() && s[q].0 == j;
                lemma_count_at(s, q);
                lemma_count_at(r, q);
            } else if has_key(r, j) {
                let q = choose|q: int| 0 <= q < r.len() && r[q].0 == j;
                assert(q < s.len());
            }
        }
    }
}

/// The histogram after observing each delta of `xs` in turn.
pub open spec fn with_all_bumped(s: Seq<(isize, u64)>, xs: Seq<isize>) -> Seq<(isize, u64)>
    decreases xs.len(),
{
    if xs.len() == 0 {
        s
    } else {
        with_bumped(with_all_bumped(s, xs.drop_last()), xs.last())
    }
}

/// How many times `k` occurs in `xs`.
pub open spec fn occurrences(xs: Seq<isize>, k: isize) -> nat
    decreases xs.len(),
{
    if xs.len() == 0 {
        0
    } else {
        occurrences(xs.drop_last(), k) + if xs.last() == k {
            1nat
        } else {
            0nat
        }
    }
}

/// Over a run of successful observations, every delta's count is its count at
/// the start plus the number of successes at that delta, as long as no count
/// reaches the largest `u64`.
pub proof fn lemma_counts_over_run(s: Seq<(isize, u64)>, xs: Seq<isize>)
    requires
        keys_unique(s),
        forall|k: isize| count_of(s, k) + occurrences(xs, k) < u64::MAX,
    ensures
        keys_unique(with_all_bumped(s, xs)),
        forall|k: isize|
            #[trigger] count_of(with_all_bumped(s, xs), k) == count_of(s, k) + occurrences(xs, k),
    decreases xs.len(),
{
    if xs.len() > 0 {
        let d = xs.drop_last();
        assert forall|k: isize| count_of(s, k) + occurrences(d, k) < u64::MAX by {
            assert(occurrences(d, k) <= occurrences(xs, k));
        }
        lemma_counts_over_run(s, d);
        lemma_with_bumped(with_all_bumped(s, d), xs.last());
        assert forall|k: isize|
            #[trigger] count_of(with_all_bumped(s, xs), k) == count_of(s, k) + occurrences(
                xs,
                k,
            ) by {
            assert(count_of(s, k) + occurrences(xs, k) < u64::MAX);
        }
    }
}

/// Inserting by count keeps the entries, adding `e` once.
proof fn lemma_insert_multiset(s: Seq<(isize, u64)>, e: (isize, u64))
    ensures
        insert_by_count(s, e).to_multiset() == s.to_multiset().insert(e),
    decreases s.len(),
{
    if s.len() == 0 || s.last().1 >= e.1 {
        s.to_multiset_ensures();
    } else {
        let d = s.drop_last();
        lemma_insert_multiset(d, e);
        insert_by_count(d, e).to_multiset_ensures();
        d.to_multiset_ensures();
        assert(d.push(s.last()) =~= s);
        assert(insert_by_count(s, e).to_multiset() =~= s.to_multiset().insert(e));
    }
}

/// Inserting by count into descending entries keeps them descending.
proof fn lemma_insert_descending(s: Seq<(isize, u64)>, e: (isize, u64))
    requires
        counts_descending(s),
    ensures
        counts_descending(insert_by_count(s, e)),
        insert_by_count(s, e).len() == s.len() + 1,
        forall|i: int|
            0 <= i < insert_by_count(s, e).len() ==> #[trigger] insert_by_count(s, e)[i].1 == e.1
                || s.contains(insert_by_count(s, e)[i]),
    decreases s.len(),
{
    if s.len() == 0 || s.last().1 >= e.1 {
        let r = s.push(e);
        assert forall|i: int| 0 <= i < r.len() && i < s.len() implies s.contains(r[i]) by {
            assert(r[i] == s[i]);
        }
    } else {
        let d = s.drop_last();
        lemma_insert_descending(d, e);
        let m = insert_by_count(d, e);
        let r = m.push(s.last());
        assert forall|i: int, j: int| 0 <= i <= j < r.len() implies r[i].1 >= r[j].1 by {
            if j == r.len() - 1 && i < j {
                if m[i].1 == e.1 {
                } else {
                    let k = choose|k: int| 0 <= k < d.len() && d[k] == m[i];
                    assert(s[k] == d[k]);
                }
            }
        }
        assert forall|i: int| 0 <= i < r.len() && r[i].1 != e.1 implies s.contains(r[i]) by {
            if i < m.len() {
                let k = choose|k: int| 0 <= k < d.len() && d[k] == m[i];
                assert(s[k] == d[k]);
            } else {
                assert(r[i] == s[s.len() - 1]);
            }
        }
    }
}

/// Sorting by count orders the entries by non-increasing count, and keeps
/// exactly the entries it was given.
pub proof fn lemma_sort_by_count(s: Seq<(isize, u64)>)
    ensures
        counts_descending(sort_by_count(s)),
        sort_by_count(s).to_multiset() == s.to_multiset(),
    decreases s.len(),
{
    if s.len() == 0 {
    } else {
        let d = s.drop_last();
        lemma_sort_by_count(d);
        lemma_insert_descending(sort_by_count(d), s.last());
        lemma_insert_multiset(sort_by_count(d), s.last());
        d.to_multiset_ensures();
        assert(d.push(s.last()) =~= s);
    }
}

/// Histogram of deltas between consecutive segment timestamps.
pub struct DeltaHistogram {
    entries: Vec<(isize, u64)>,
}

impl View for DeltaHistogram {
    type V = Seq<(isize, u64)>;

    closed spec fn view(&self) -> Seq<(isize, u64)> {
        self.entries@
    }
}

impl DeltaHistogram {
    pub open spec fn wf(&self) -> bool {
        keys_unique(self@)
    }

    pub open spec fn spec_count(&self, k: isize) -> u64 {
        count_of(self@, k)
    }

    /// An empty histogram.
    pub fn new() -> (r: DeltaHistogram)
        ensures
            r.wf(),
            r@ == Seq::<(isize, u64)>::empty(),
    {
        DeltaHistogram { entries: Vec::new() }
    }

    /// The histogram every stream starts from.
    pub fn prior() -> (r: DeltaHistogram)
        ensures
            r.wf(),
            r@ == prior_entries(),
    {
        let mut h = DeltaHistogram::new();
        let mut x: isize = 18;
        while x <= 22
            invariant
                18 <= x <= 23,
                h.wf(),
                h@ == prior_bands((x - 18) as nat),
                forall|i: int| 0 <= i < h@.len() ==> 1800 <= #[trigger] h@[i].0 < 100 * x,
            decreases 23 - x,
        {
            let ghost k = (x - 17) as nat;
            h.set(x * 100, 1);
            h.set(x * 100 + 33, 1);
            h.set(x * 100 + 67, 1);
            proof {
                assert(h@ =~= prior_bands(k));
            }
            x = x + 1;
        }
        proof {
            let p = prior_entries().take(15).update(6, (2000, 1));
            assert(prior_bands(0) =~= p.take(0));
            assert(prior_bands(1) =~= p.take(3));
            assert(prior_bands(2) =~= p.take(6));
            assert(prior_bands(3) =~= p.take(9));
            assert(prior_bands(4) =~= p.take(12));
            assert(prior_bands(5) =~= p.take(15));
            assert(h@[6].0 == 2000);
        }
        let ghost before = h@;
        h.set(2000, 10);
        proof {
            assert(before[6].0 == 2000);
            assert(h@ == before.update(6, (2000, 10)));
            assert(h@ =~= prior_entries().take(15));
        }
        h.set(100, 5);
        proof {
            assert(h@ =~= prior_entries());
        }
        h
    }

    /// A copy of the histogram.
    pub fn duplicate(&self) -> (r: DeltaHistogram)
        ensures
            r@ == self@,
    {
        let mut entries: Vec<(isize, u64)> = Vec::new();
        let mut i: usize = 0;
        while i < self.entries.len()
            invariant
                i <= self.entries@.len(),
                entries@ =~= self.entries@.take(i as int),
            decreases self.entries@.len() - i,
        {
            entries.push(self.entries[i]);
            i = i + 1;
        }
        DeltaHistogram { entries }
    }

    /// Where `k` sits among the entries.
    fn find(&self, k: isize) -> (r: Option<usize>)
        requires
            self.wf(),
        ensures
            match r {
                Some(i) => i < self@.len() && self@[i as int].0 == k,
                None => !has_key(self@, k),
            },
    {
        let mut i: usize = 0;
        while i < self.entries.len()
            invariant
                i <= self.entries@.len(),
                forall|j: int| 0 <= j < i ==> self.entries@[j].0 != k,
            decreases self.entries@.len() - i,
        {
            if self.entries[i].0 == k {
                return Some(i);
            }
            i = i + 1;
        }
        None
    }

    /// The count recorded for `k`.
    pub fn count(&self, k: isize) -> (r: u64)
        requires
            self.wf(),
        ensures
            r == self.spec_count(k),
    {
        match self.find(k) {
            Some(i) => {
                proof {
                    lemma_count_at(self@, i as int);
                }
                self.entries[i].1
            },
            None => 0,
        }
    }

    /// Records `c` as the count of `k`, in place when `k` has an entry, at the
    /// end otherwise.
    pub fn set(&mut self, k: isize, c: u64)
        requires
            old(self).wf(),
        ensures
            final(self).wf(),
            forall|i: int|
                0 <= i < old(self)@.len() && old(self)@[i].0 == k ==> final(self)@ == old(
                    self,
                )@.update(i, (k, c)),
            !has_key(old(self)@, k) ==> final(self)@ == old(self)@.push((k, c)),
    {
        match self.find(k) {
            Some(i) => {
                self.entries.set(i, (k, c));
            },
            None => {
                self.entries.push((k, c));
            },
        }
    }

    /// Adds one to the count of `k`.
    pub fn increment(&mut self, k: isize)
        requires
            old(self).wf(),
        ensures
            final(self).wf(),
            final(self).spec_count(k) == bumped(old(self).spec_count(k)),
            forall|j: isize| j != k ==> final(self).spec_count(j) == old(self).spec_count(j),
            final(self)@ == with_bumped(old(self)@, k),
    {
        let ghost before = self@;
        match self.find(k) {
            Some(i) => {
                let c = self.entries[i].1;
                let n = if c < u64::MAX {
                    c + 1
                } else {
                    c
                };
                self.entries.set(i, (k, n));
                proof {
                    lemma_count_at(before, i as int);
                    lemma_count_at(self@, i as int);
                    assert(has_key(before, k));
                    let c = choose|c: int| 0 <= c < before.len() && before[c].0 == k;
                    assert(c == i);
                    assert forall|j: isize| j != k implies self.spec_count(j) == count_of(
                        before,
                        j,
                    ) by {
                        if has_key(before, j) {
                            let q = choose|q: int| 0 <= q < before.len() && before[q].0 == j;
                            lemma_count_at(before, q);
                            lemma_count_at(self@, q);
                        } else {
                            assert(!has_key(self@, j));
                        }
                    }
                }
            },
            None => {
                self.entries.push((k, 1));
                proof {
                    let last = before.len() as int;
                    lemma_count_at(self@, last);
                    assert forall|j: isize| j != k implies self.spec_count(j) == count_of(
                        before,
                        j,
                    ) by {
                        if has_key(before, j) {
                            let q = choose|q: int| 0 <= q < before.len() && before[q].0 == j;
                            lemma_count_at(before, q);
                            lemma_count_at(self@, q);
                        } else {
                            if has_key(self@, j) {
                                let q = choose|q: int| 0 <= q < self@.len() && self@[q].0 == j;
                                assert(q < before.len());
                            }
                        }
                    }
                }
            },
        }
    }

    /// The keys ordered by count, highest first; equal counts keep the order
    /// in which their keys were first recorded.
    pub fn seed(&self) -> (r: Vec<isize>)
        ensures
            r@ == keys_of(sort_by_count(self@)),
            counts_descending(sort_by_count(self@)),
            sort_by_count(self@).to_multiset() == self@.to_multiset(),
    {
        proof {
            lemma_sort_by_count(self@);
        }
        let mut sorted: Vec<(isize, u64)> = Vec::new();
        let mut i: usize = 0;
        while i < self.entries.len()
            invariant
                i <= self.entries@.len(),
                sorted@ == sort_by_count(self@.take(i as int)),
            decreases self.entries@.len() - i,
        {
            let e = self.entries[i];
            proof {
                assert(self@.take(i + 1).drop_last() =~= self@.take(i as int));
            }
            let ghost prefix = sorted@;
            sorted.push(e);
            let mut j: usize = sorted.len() - 1;
            while j > 0 && sorted[j - 1].1 < e.1
                invariant
                    j < sorted@.len(),
                    sorted@.len() == prefix.len() + 1,
                    sorted@ == prefix.take(j as int).push(e) + prefix.skip(j as int),
                    forall|q: int| j <= q < prefix.len() ==> prefix[q].1 < e.1,
                decreases j,
            {
                let prev = sorted[j - 1];
                sorted.set(j - 1, e);
                sorted.set(j, prev);
                j = j - 1;
                proof {
                    assert(sorted@ =~= prefix.take(j as int).push(e) + prefix.skip(j as int));
                }
            }
            proof {
                lemma_insert_at(prefix, e, j as int);
                assert(self@.take(i + 1).last() == e);
            }
            i = i + 1;
        }
        proof {
            assert(self@.take(i as int) =~= self@);
        }
        let mut keys: Vec<isize> = Vec::new();
        let mut k: usize = 0;
        while k < sorted.len()
            invariant
                k <= sorted@.len(),
                keys@ =~= keys_of(sorted@.take(k as int)),
            decreases sorted@.len() - k,
        {
            keys.push(sorted[k].0);
            k = k + 1;
            proof {
                assert(keys_of(sorted@.take(k as int)) =~= keys_of(sorted@.take(k - 1)).push(
                    sorted@[k - 1].0,
                ));
            }
        }
        proof {
            assert(sorted@.take(k as int) =~= sorted@);
        }
        keys
    }
}

} // verus!
