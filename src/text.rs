//! Character-level helpers on strings.

use vstd::prelude::*;
use vstd::string::*;

verus! {

/// Whether `s` begins with `p`.
pub fn starts_with(s: &str, p: &str) -> (r: bool)
    ensures
        r == p@.is_prefix_of(s@),
{
    let n = s.unicode_len();
    let m = p.unicode_len();
    if m > n {
        return false;
    }
    let mut i: usize = 0;
    while i < m
        invariant
            m <= n,
            n == s@.len(),
            m == p@.len(),
            i <= m,
            forall|j: int| 0 <= j < i ==> s@[j] == p@[j],
        decreases m - i,
    {
        if s.get_char(i) != p.get_char(i) {
            return false;
        }
        i = i + 1;
    }
    proof {
        assert(p@ =~= s@.subrange(0, p@.len() as int));
    }
    true
}

/// Whether `s` ends with `p`.
pub fn ends_with(s: &str, p: &str) -> (r: bool)
    ensures
        r == p@.is_suffix_of(s@),
{
    let n = s.unicode_len();
    let m = p.unicode_len();
    if m > n {
        return false;
    }
    let d = n - m;
    let mut i: usize = 0;
    while i < m
        invariant
            m <= n,
            d == n - m,
            n == s@.len(),
            m == p@.len(),
            i <= m,
            forall|j: int| 0 <= j < i ==> s@[d + j] == p@[j],
        decreases m - i,
    {
        if s.get_char(d + i) != p.get_char(i) {
            return false;
        }
        i = i + 1;
    }
    proof {
        assert(p@ =~= s@.subrange(d as int, n as int));
    }
    true
}

/// The character of a decimal digit.
pub open spec fn digit_char(d: int) -> char {
    if d == 0 {
        '0'
    } else if d == 1 {
        '1'
    } else if d == 2 {
        '2'
    } else if d == 3 {
        '3'
    } else if d == 4 {
        '4'
    } else if d == 5 {
        '5'
    } else if d == 6 {
        '6'
    } else if d == 7 {
        '7'
    } else if d == 8 {
        '8'
    } else {
        '9'
    }
}

/// `n` written in decimal, without leading zeros.
pub open spec fn decimal(n: nat) -> Seq<char>
    decreases n,
{
    if n < 10 {
        seq![digit_char(n as int)]
    } else {
        decimal(n / 10).push(digit_char((n % 10) as int))
    }
}

/// The placeholder that a media path holds for a segment's timestamp.
pub open spec fn time_marker() -> Seq<char> {
    seq!['$', 'T', 'i', 'm', 'e', '$']
}

/// `s` with every occurrence of the time marker, from left to right and
/// without overlap, replaced by `value`.
pub open spec fn substitute_time(s: Seq<char>, value: Seq<char>) -> Seq<char>
    decreases s.len(),
{
    if s.len() < 6 {
        s
    } else if s.take(6) == time_marker() {
        value + substitute_time(s.skip(6), value)
    } else {
        seq![s[0]] + substitute_time(s.skip(1), value)
    }
}

/// How many markers `substitute_time` replaces in `s`.
pub open spec fn marker_count(s: Seq<char>) -> nat
    decreases s.len(),
{
    if s.len() < 6 {
        0
    } else if s.take(6) == time_marker() {
        1 + marker_count(s.skip(6))
    } else {
        marker_count(s.skip(1))
    }
}

/// Each replaced marker trades six characters for the value.
proof fn lemma_substitute_len(s: Seq<char>, v: Seq<char>)
    ensures
        substitute_time(s, v).len() == s.len() + marker_count(s) * (v.len() - 6),
    decreases s.len(),
{
    if s.len() >= 6 {
        if s.take(6) == time_marker() {
            lemma_substitute_len(s.skip(6), v);
            let c = marker_count(s.skip(6));
            assert(marker_count(s) == 1 + c);
            assert(substitute_time(s, v) == v + substitute_time(s.skip(6), v));
            assert((1 + c) * (v.len() - 6) == (v.len() - 6) + c * (v.len() - 6)) by (nonlinear_arith);
        } else {
            lemma_substitute_len(s.skip(1), v);
            assert(marker_count(s) == marker_count(s.skip(1)));
            assert(substitute_time(s, v) == seq![s[0]] + substitute_time(s.skip(1), v));
        }
    } else {
        assert(marker_count(s) == 0);
        assert(substitute_time(s, v) == s);
        assert(0 * (v.len() - 6) == 0) by (nonlinear_arith);
    }
}

/// With a marker present, values of one length that give the same text are
/// the same value.
proof fn lemma_substitute_same_len(s: Seq<char>, v1: Seq<char>, v2: Seq<char>)
    requires
        marker_count(s) > 0,
        v1.len() == v2.len(),
        substitute_time(s, v1) == substitute_time(s, v2),
    ensures
        v1 == v2,
    decreases s.len(),
{
    if s.take(6) == time_marker() {
        assert(substitute_time(s, v1).take(v1.len() as int) =~= v1);
        assert(substitute_time(s, v2).take(v2.len() as int) =~= v2);
    } else {
        let a = substitute_time(s.skip(1), v1);
        let b = substitute_time(s.skip(1), v2);
        assert(substitute_time(s, v1).skip(1) =~= a);
        assert(substitute_time(s, v2).skip(1) =~= b);
        lemma_substitute_same_len(s.skip(1), v1, v2);
    }
}

pub proof fn lemma_decimal_nonempty(n: nat)
    ensures
        decimal(n).len() >= 1,
        n >= 10 ==> decimal(n).len() >= 2,
    decreases n,
{
    if n >= 10 {
        lemma_decimal_nonempty(n / 10);
    }
}

proof fn lemma_digit_char_injective(x: int, y: int)
    requires
        0 <= x < 10,
        0 <= y < 10,
        digit_char(x) == digit_char(y),
    ensures
        x == y,
{
}

/// Different numbers are written differently.
pub proof fn lemma_decimal_injective(a: nat, b: nat)
    requires
        decimal(a) == decimal(b),
    ensures
        a == b,
    decreases a,
{
    lemma_decimal_nonempty(a);
    lemma_decimal_nonempty(b);
    if a >= 10 && b >= 10 {
        assert(decimal(a).drop_last() =~= decimal(a / 10));
        assert(decimal(b).drop_last() =~= decimal(b / 10));
        lemma_decimal_injective(a / 10, b / 10);
        assert(decimal(a).last() == digit_char((a % 10) as int));
        assert(decimal(b).last() == digit_char((b % 10) as int));
        lemma_digit_char_injective((a % 10) as int, (b % 10) as int);
        assert(a == 10 * (a / 10) + a % 10) by (nonlinear_arith);
        assert(b == 10 * (b / 10) + b % 10) by (nonlinear_arith);
    } else if a < 10 && b < 10 {
        assert(decimal(a)[0] == digit_char(a as int));
        assert(decimal(b)[0] == digit_char(b as int));
        lemma_digit_char_injective(a as int, b as int);
    } else if a < 10 {
        assert(decimal(a).len() == 1);
    } else {
        assert(decimal(b).len() == 1);
    }
}

/// Two timestamps give the same media path only if they are equal, when the
/// template holds the `$Time$` marker.
pub proof fn lemma_media_path_unique(template: Seq<char>, t1: nat, t2: nat)
    requires
        marker_count(template) > 0,
        substitute_time(template, decimal(t1)) == substitute_time(template, decimal(t2)),
    ensures
        t1 == t2,
{
    let v1 = decimal(t1);
    let v2 = decimal(t2);
    let c = marker_count(template) as int;
    lemma_substitute_len(template, v1);
    lemma_substitute_len(template, v2);
    assert(c * (v1.len() - 6) == c * (v2.len() - 6));
    assert(v1.len() == v2.len()) by (nonlinear_arith)
        requires
            c > 0,
            c * (v1.len() - 6) == c * (v2.len() - 6),
    ;
    lemma_substitute_same_len(template, v1, v2);
    lemma_decimal_injective(t1, t2);
}

fn digit_str(d: usize) -> (r: &'static str)
    requires
        d < 10,
    ensures
        r@ == seq![digit_char(d as int)],
{
    proof {
        reveal_strlit("0");
        reveal_strlit("1");
        reveal_strlit("2");
        reveal_strlit("3");
        reveal_strlit("4");
        reveal_strlit("5");
        reveal_strlit("6");
        reveal_strlit("7");
        reveal_strlit("8");
        reveal_strlit("9");
    }
    let r = match d {
        0 => "0",
        1 => "1",
        2 => "2",
        3 => "3",
        4 => "4",
        5 => "5",
        6 => "6",
        7 => "7",
        8 => "8",
        _ => "9",
    };
    assert(r@ =~= seq![digit_char(d as int)]);
    r
}

/// Appends `n` in decimal to `out`.
pub fn push_decimal(out: &mut String, n: usize)
    ensures
        final(out)@ == old(out)@ + decimal(n as nat),
    decreases n,
{
    if n >= 10 {
        push_decimal(out, n / 10);
    }
    out.append(digit_str(n % 10));
    proof {
        if n >= 10 {
            assert(decimal(n as nat) == decimal((n / 10) as nat).push(digit_char((n % 10) as int)));
        }
    }
    assert(final(out)@ =~= old(out)@ + decimal(n as nat));
}

/// Whether the time marker starts at char `i` of `s`.
fn marker_at(s: &str, n: usize, i: usize) -> (r: bool)
    requires
        n == s@.len(),
        i + 6 <= n,
    ensures
        r == (s@.subrange(i as int, i + 6) == time_marker()),
{
    let r = s.get_char(i) == '$' && s.get_char(i + 1) == 'T' && s.get_char(i + 2) == 'i'
        && s.get_char(i + 3) == 'm' && s.get_char(i + 4) == 'e' && s.get_char(i + 5) == '$';
    assert(r == (s@.subrange(i as int, i + 6) =~= time_marker()));
    r
}

/// `template` with every `$Time$` replaced by `t` in decimal.
pub fn fill_time(template: &str, t: usize) -> (r: String)
    ensures
        r@ == substitute_time(template@, decimal(t as nat)),
{
    let mut value = String::new();
    push_decimal(&mut value, t);
    let n = template.unicode_len();
    let mut out = String::new();
    let mut i: usize = 0;
    proof {
        assert(template@.skip(0) =~= template@);
        assert(out@ + substitute_time(template@, value@) =~= substitute_time(template@, value@));
    }
    while i < n
        invariant
            n == template@.len(),
            i <= n,
            value@ == decimal(t as nat),
            substitute_time(template@, value@) == out@ + substitute_time(template@.skip(i as int), value@),
        decreases n - i,
    {
        let ghost rest = template@.skip(i as int);
        if n - i < 6 {
            out.append(template.substring_char(i, n));
            proof {
                assert(template@.subrange(i as int, n as int) =~= rest);
                assert(template@.skip(n as int) =~= Seq::<char>::empty());
            }
            i = n;
        } else if marker_at(template, n, i) {
            out.append(value.as_str());
            proof {
                assert(rest.take(6) =~= template@.subrange(i as int, i + 6));
                assert(rest.skip(6) =~= template@.skip(i + 6));
            }
            i = i + 6;
        } else {
            out.append(template.substring_char(i, i + 1));
            proof {
                assert(rest.take(6) =~= template@.subrange(i as int, i + 6));
                assert(rest.skip(1) =~= template@.skip(i + 1));
                assert(template@.subrange(i as int, i + 1) =~= seq![rest[0]]);
            }
            i = i + 1;
        }
    }
    proof {
        assert(template@.skip(n as int) =~= Seq::<char>::empty());
        assert(substitute_time(Seq::<char>::empty(), value@) == Seq::<char>::empty());
        assert(out@ + Seq::<char>::empty() =~= out@);
    }
    out
}

} // verus!
