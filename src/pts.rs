//! Reading the media probe's answer: `<start_pts>|<duration_ts>`.

use vstd::prelude::*;

verus! {

/// The whitespace that surrounds the probe's numbers.
pub open spec fn is_space(c: char) -> bool {
    c == ' ' || c == '\t' || c == '\n' || c == '\r' || c == '\x0b' || c == '\x0c'
}

pub open spec fn is_digit(c: char) -> bool {
    '0' <= c <= '9'
}

pub open spec fn digit_value(c: char) -> int {
    c as int - '0' as int
}

pub open spec fn trim_start(s: Seq<char>) -> Seq<char>
    decreases s.len(),
{
    if s.len() > 0 && is_space(s[0]) {
        trim_start(s.skip(1))
    } else {
        s
    }
}

pub open spec fn trim_end(s: Seq<char>) -> Seq<char>
    decreases s.len(),
{
    if s.len() > 0 && is_space(s.last()) {
        trim_end(s.drop_last())
    } else {
        s
    }
}

/// The value of a string of decimal digits.
pub open spec fn digits_value(s: Seq<char>) -> int
    decreases s.len(),
{
    if s.len() == 0 {
        0
    } else {
        digits_value(s.drop_last()) * 10 + digit_value(s.last())
    }
}

/// The unsigned integer that `s` spells once trimmed: an optional `+`
/// followed by at least one digit.
pub open spec fn unsigned_of(s: Seq<char>) -> Option<int> {
    let d = unsigned_digits(trim_end(trim_start(s)));
    if d.len() > 0 && all_digits(d) {
        Some(digits_value(d))
    } else {
        None
    }
}

/// `t` without a leading `+`.
pub open spec fn unsigned_digits(t: Seq<char>) -> Seq<char> {
    if t.len() > 0 && t[0] == '+' {
        t.skip(1)
    } else {
        t
    }
}

pub open spec fn all_digits(d: Seq<char>) -> bool {
    forall|i: int| 0 <= i < d.len() ==> is_digit(#[trigger] d[i])
}

/// `p` is the position of the first `|` of `s`.
pub open spec fn first_bar(s: Seq<char>, p: int) -> bool {
    &&& 0 <= p < s.len()
    &&& s[p] == '|'
    &&& forall|q: int| 0 <= q < p ==> s[q] != '|'
}

/// The pair of integers around the first `|`, when both fit in a `usize`.
pub open spec fn probe_pair(s: Seq<char>) -> Option<(usize, usize)> {
    if exists|p: int| first_bar(s, p) {
        let p = choose|p: int| first_bar(s, p);
        match (unsigned_of(s.take(p)), unsigned_of(s.skip(p + 1))) {
            (Some(a), Some(b)) => if a <= usize::MAX && b <= usize::MAX {
                Some((a as usize, b as usize))
            } else {
                None
            },
            _ => None,
        }
    } else {
        None
    }
}

fn space(c: char) -> (r: bool)
    ensures
        r == is_space(c),
{
    c == ' ' || c == '\t' || c == '\n' || c == '\r' || c == '\x0b' || c == '\x0c'
}

/// Reads the unsigned integer that `cs[lo..hi]` spells.
fn parse_unsigned(cs: &Vec<char>, lo: usize, hi: usize) -> (r: Option<usize>)
    requires
        lo <= hi <= cs@.len(),
    ensures
        match unsigned_of(cs@.subrange(lo as int, hi as int)) {
            Some(v) => if v <= usize::MAX {
                r == Some(v as usize)
            } else {
                r is None
            },
            None => r is None,
        },
{
    let ghost s = cs@.subrange(lo as int, hi as int);
    let mut a = lo;
    while a < hi && space(cs[a])
        invariant
            lo <= a <= hi <= cs@.len(),
            s == cs@.subrange(lo as int, hi as int),
            trim_start(s) == trim_start(cs@.subrange(a as int, hi as int)),
        decreases hi - a,
    {
        proof {
            let u = cs@.subrange(a as int, hi as int);
            assert(u.skip(1) =~= cs@.subrange(a + 1, hi as int));
        }
        a = a + 1;
    }
    let mut b = hi;
    while b > a && space(cs[b - 1])
        invariant
            lo <= a <= b <= hi <= cs@.len(),
            s == cs@.subrange(lo as int, hi as int),
            trim_start(s) == cs@.subrange(a as int, hi as int),
            trim_end(trim_start(s)) == trim_end(cs@.subrange(a as int, b as int)),
        decreases b - a,
    {
        proof {
            let u = cs@.subrange(a as int, b as int);
            assert(u.drop_last() =~= cs@.subrange(a as int, b - 1));
        }
        b = b - 1;
    }
    let ghost t = cs@.subrange(a as int, b as int);
    assert(trim_end(trim_start(s)) == t);
    let mut d = a;
    if d < b && cs[d] == '+' {
        d = d + 1;
    }
    let ghost digits = cs@.subrange(d as int, b as int);
    assert(digits == unsigned_digits(t));
    if d == b {
        assert(digits.len() == 0);
        assert(unsigned_of(s) is None);
        return None;
    }
    let mut v: usize = 0;
    let mut i = d;
    while i < b
        invariant
            d <= i <= b <= cs@.len(),
            lo <= hi <= cs@.len(),
            s == cs@.subrange(lo as int, hi as int),
            trim_end(trim_start(s)) == t,
            digits == unsigned_digits(t),
            digits.len() > 0,
            digits == cs@.subrange(d as int, b as int),
            forall|j: int| d <= j < i ==> is_digit(#[trigger] cs@[j]),
            v == digits_value(cs@.subrange(d as int, i as int)),
        decreases b - i,
    {
        let c = cs[i];
        if !('0' <= c && c <= '9') {
            proof {
                assert(!is_digit(digits[i - d]));
                assert(!all_digits(digits));
                assert(unsigned_of(s) is None);
            }
            return None;
        }
        let dv = (c as u32 - '0' as u32) as usize;
        proof {
            let w = cs@.subrange(d as int, i + 1);
            assert(w.drop_last() =~= cs@.subrange(d as int, i as int));
            assert(digits_value(w) == v * 10 + digit_value(c));
        }
        match v.checked_mul(10) {
            Some(m) => match m.checked_add(dv) {
                Some(n) => {
                    v = n;
                },
                None => {
                    proof {
                        if all_digits(digits) {
                            lemma_digits_grow(digits, i - d + 1);
                            assert(digits.take(i - d + 1) =~= cs@.subrange(d as int, i + 1));
                        }
                    }
                    return None;
                },
            },
            None => {
                proof {
                    if all_digits(digits) {
                        lemma_digits_grow(digits, i - d + 1);
                        assert(digits.take(i - d + 1) =~= cs@.subrange(d as int, i + 1));
                    }
                }
                return None;
            },
        }
        i = i + 1;
    }
    proof {
        assert(cs@.subrange(d as int, i as int) =~= digits);
    }
    Some(v)
}

/// A digit string is worth at least any of its prefixes.
proof fn lemma_digits_grow(s: Seq<char>, k: int)
    requires
        0 <= k <= s.len(),
        forall|i: int| 0 <= i < s.len() ==> is_digit(#[trigger] s[i]),
    ensures
        digits_value(s) >= digits_value(s.take(k)) >= 0,
    decreases s.len(),
{
    if s.len() > 0 {
        if k == s.len() {
            assert(s.take(k) =~= s);
            lemma_digits_grow(s.drop_last(), 0);
        } else {
            lemma_digits_grow(s.drop_last(), k);
            assert(s.drop_last().take(k) =~= s.take(k));
        }
    } else {
        assert(s.take(k) =~= s);
    }
}

/// The `(start_pts, duration_ts)` pair that the probe printed: two unsigned
/// integers around the first `|`, each with surrounding whitespace allowed.
pub fn parse_probe_output(out: &str) -> (r: Option<(usize, usize)>)
    ensures
        r == probe_pair(out@),
{
    let n = out.unicode_len();
    let mut cs: Vec<char> = Vec::new();
    let mut i: usize = 0;
    while i < n
        invariant
            n == out@.len(),
            i <= n,
            cs@ =~= out@.take(i as int),
        decreases n - i,
    {
        cs.push(out.get_char(i));
        i = i + 1;
    }
    proof {
        assert(cs@ =~= out@);
    }
    let mut p: usize = 0;
    while p < n && cs[p] != '|'
        invariant
            n == cs@.len(),
            p <= n,
            forall|q: int| 0 <= q < p ==> cs@[q] != '|',
        decreases n - p,
    {
        p = p + 1;
    }
    if p == n {
        return None;
    }
    proof {
        assert(first_bar(cs@, p as int));
        let c = choose|c: int| first_bar(cs@, c);
        assert(c == p);
        assert(cs@.subrange(0, p as int) =~= cs@.take(p as int));
        assert(cs@.subrange(p + 1, n as int) =~= cs@.skip(p + 1));
    }
    let start = parse_unsigned(&cs, 0, p);
    let end = parse_unsigned(&cs, p + 1, n);
    match (start, end) {
        (Some(a), Some(b)) => Some((a, b)),
        _ => None,
    }
}

} // verus!
