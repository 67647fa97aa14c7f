//! Port specifications: comma-separated tokens, each a port `N` or an
//! inclusive range `A-B`, expanded into the ports they name, in order.
use vstd::prelude::*;

verus! {

/// Returned when a port specification is malformed; no ports come with it.
#[derive(Debug, Clone, Copy, PartialEq, Eq, Structural)]
pub struct ParseError;

pub open spec fn is_digit(c: char) -> bool {
    '0' <= c && c <= '9'
}

pub open spec fn digit_value(c: char) -> nat {
    (c as int - '0' as int) as nat
}

/// The number that a string of decimal digits denotes.
pub open spec fn decimal_value(t: Seq<char>) -> nat
    decreases t.len(),
{
    if t.len() == 0 {
        0
    } else {
        decimal_value(t.drop_last()) * 10 + digit_value(t.last())
    }
}

pub open spec fn all_digits(t: Seq<char>) -> bool {
    forall|i: int| 0 <= i < t.len() ==> is_digit(#[trigger] t[i])
}

/// A port written in decimal: one digit or more, nothing else, at most 65535.
pub open spec fn port_number(t: Seq<char>) -> Option<u16> {
    if t.len() > 0 && all_digits(t) && decimal_value(t) <= 65535 {
        Some(decimal_value(t) as u16)
    } else {
        None
    }
}

/// The ports from `a` up to `b`, both included; empty when `a > b`.
pub open spec fn port_range(a: u16, b: u16) -> Seq<u16> {
    Seq::new(if a <= b { (b - a + 1) as nat } else { 0 }, |k: int| (a + k) as u16)
}

/// Position of the first `c` in `s`, or `s.len()` when `s` holds none.
pub open spec fn first_index_of(s: Seq<char>, c: char) -> nat
    decreases s.len(),
{
    if s.len() == 0 {
        0
    } else if s[0] == c {
        0
    } else {
        1 + first_index_of(s.drop_first(), c)
    }
}

/// Both results, concatenated, when both are present.
pub open spec fn join(a: Option<Seq<u16>>, b: Option<Seq<u16>>) -> Option<Seq<u16>> {
    match (a, b) {
        (Some(x), Some(y)) => Some(x + y),
        _ => None,
    }
}

/// The ports that one token names: `N`, or `A-B` split at its first dash.
pub open spec fn token_ports(t: Seq<char>) -> Option<Seq<u16>> {
    let d = first_index_of(t, '-');
    if d < t.len() {
        match (port_number(t.take(d as int)), port_number(t.skip(d + 1 as int))) {
            (Some(a), Some(b)) => Some(port_range(a, b)),
            _ => None,
        }
    } else {
        match port_number(t) {
            Some(p) => Some(seq![p]),
            None => None,
        }
    }
}

/// The ports that a whole specification names: the tokens between commas,
/// left to right, each expanded in place; `None` when any token is malformed.
pub open spec fn spec_ports(s: Seq<char>) -> Option<Seq<u16>>
    decreases s.len(),
{
    let j = first_index_of(s, ',');
    if j < s.len() {
        join(token_ports(s.take(j as int)), spec_ports(s.skip(j + 1 as int)))
    } else {
        token_ports(s)
    }
}

/// Where a prefix of `u` free of `c` ends at a `c` (or at the end of `u`),
/// that is the first `c`.
pub(crate) proof fn lemma_first_index(u: Seq<char>, c: char, m: int)
    requires
        0 <= m <= u.len(),
        forall|k: int| 0 <= k < m ==> u[k] != c,
        m == u.len() || u[m] == c,
    ensures
        first_index_of(u, c) == m,
    decreases m,
{
    if m > 0 {
        let v = u.drop_first();
        assert forall|k: int| 0 <= k < m - 1 implies v[k] != c by {
            assert(v[k] == u[k + 1]);
        }
        assert(m - 1 == v.len() || v[m - 1] == c);
        lemma_first_index(v, c, m - 1);
    }
}

/// What the first `c` of `u` is: no `c` before it, and a `c` at it unless it
/// is the end of `u`.
pub(crate) proof fn lemma_first_index_facts(u: Seq<char>, c: char)
    ensures
        first_index_of(u, c) <= u.len(),
        forall|k: int| 0 <= k < first_index_of(u, c) ==> u[k] != c,
        first_index_of(u, c) < u.len() ==> u[first_index_of(u, c) as int] == c,
    decreases u.len(),
{
    if u.len() > 0 && u[0] != c {
        let v = u.drop_first();
        lemma_first_index_facts(v, c);
        assert forall|k: int| 0 <= k < first_index_of(u, c) implies u[k] != c by {
            if k > 0 {
                assert(u[k] == v[k - 1]);
            }
        }
    }
}

/// The tokens of a specification come out in the order they are written:
/// a first token `t` followed by a comma contributes its ports ahead of the
/// rest, and a specification of one token names that token's ports.
pub proof fn law_tokens_in_order(t: Seq<char>, rest: Seq<char>)
    requires
        !t.contains(','),
    ensures
        spec_ports(t + seq![','] + rest) == join(token_ports(t), spec_ports(rest)),
        spec_ports(t) == token_ports(t),
{
    let s = t + seq![','] + rest;
    assert forall|k: int| 0 <= k < t.len() implies s[k] != ',' by {
        assert(s[k] == t[k]);
        if t[k] == ',' {
            assert(t.contains(','));
        }
    }
    assert(s[t.len() as int] == ',');
    lemma_first_index(s, ',', t.len() as int);
    assert(s.take(t.len() as int) =~= t);
    assert(s.skip(t.len() + 1 as int) =~= rest);
    assert forall|k: int| 0 <= k < t.len() implies t[k] != ',' by {
        if t[k] == ',' {
            assert(t.contains(','));
        }
    }
    lemma_first_index(t, ',', t.len() as int);
}

/// A range token `A-B` names every port from `A` to `B`, both ends included,
/// ascending; when `A > B` it names none.
pub proof fn law_range_inclusive(lo: Seq<char>, hi: Seq<char>)
    requires
        port_number(lo) is Some,
        port_number(hi) is Some,
    ensures
        ({
            let a = port_number(lo).unwrap();
            let b = port_number(hi).unwrap();
            let r = token_ports(lo + seq!['-'] + hi).unwrap();
            &&& token_ports(lo + seq!['-'] + hi) is Some
            &&& r == port_range(a, b)
            &&& a <= b ==> r.len() == b - a + 1 && r[0] == a && r.last() == b
            &&& forall|k: int| 0 <= k < r.len() ==> r[k] == a + k
            &&& a > b ==> r.len() == 0
        }),
{
    let t = lo + seq!['-'] + hi;
    assert forall|k: int| 0 <= k < lo.len() implies t[k] != '-' by {
        assert(t[k] == lo[k]);
        assert(is_digit(lo[k]));
    }
    assert(t[lo.len() as int] == '-');
    lemma_first_index(t, '-', lo.len() as int);
    assert(t.take(lo.len() as int) =~= lo);
    assert(t.skip(lo.len() + 1 as int) =~= hi);
}

/// A token without a dash that is not all digits, or whose value exceeds
/// 65535, is malformed.
pub proof fn law_bad_number_rejected(t: Seq<char>)
    requires
        !t.contains('-'),
        !all_digits(t) || decimal_value(t) > 65535,
    ensures
        token_ports(t) is None,
{
    lemma_first_index_facts(t, '-');
    if first_index_of(t, '-') < t.len() {
        assert(t.contains('-'));
    }
}

/// A malformed token fails the whole specification wherever it stands,
/// however well-formed the tokens around it: no partial result remains.
pub proof fn law_malformed_token_rejects_all(head: Seq<char>, t: Seq<char>, tail: Seq<char>)
    requires
        !t.contains(','),
        token_ports(t) is None,
    ensures
        spec_ports(t) is None,
        spec_ports(t + seq![','] + tail) is None,
        spec_ports(head + seq![','] + t) is None,
        spec_ports(head + seq![','] + t + seq![','] + tail) is None,
{
    law_tokens_in_order(t, tail);
    lemma_failure_spreads(head, t);
    lemma_failure_spreads(head, t + seq![','] + tail);
    assert(head + seq![','] + t + seq![','] + tail =~= head + seq![','] + (t + seq![','] + tail));
}

/// A failing remainder fails whatever tokens come before it.
proof fn lemma_failure_spreads(head: Seq<char>, w: Seq<char>)
    requires
        spec_ports(w) is None,
    ensures
        spec_ports(head + seq![','] + w) is None,
    decreases head.len(),
{
    let s = head + seq![','] + w;
    lemma_first_index_facts(head, ',');
    let j = first_index_of(head, ',');
    assert forall|k: int| 0 <= k < j implies s[k] != ',' by {
        assert(s[k] == head[k]);
    }
    if j < head.len() {
        assert(s[j as int] == head[j as int]);
        lemma_first_index(s, ',', j as int);
        let h2 = head.skip(j + 1 as int);
        assert(s.skip(j + 1 as int) =~= h2 + seq![','] + w);
        lemma_failure_spreads(h2, w);
    } else {
        assert(s[j as int] == ',');
        lemma_first_index(s, ',', j as int);
        assert(s.skip(j + 1 as int) =~= w);
    }
}

/// Index of the first `c` in `s` within `[from, to)`, or `to`.
pub(crate) fn find_char(s: &str, c: char, from: usize, to: usize) -> (r: usize)
    requires
        from <= to <= s@.len(),
    ensures
        from <= r <= to,
        forall|k: int| from <= k < r ==> s@[k] != c,
        r < to ==> s@[r as int] == c,
{
    let mut i: usize = from;
    while i < to
        invariant
            from <= i <= to <= s@.len(),
            forall|k: int| from <= k < i ==> s@[k] != c,
        decreases to - i,
    {
        if s.get_char(i) == c {
            return i;
        }
        i = i + 1;
    }
    i
}

/// The port written in `s` between `lo` and `hi`, if it is one.
pub(crate) fn parse_number(s: &str, lo: usize, hi: usize) -> (r: Option<u16>)
    requires
        lo <= hi <= s@.len(),
    ensures
        r == port_number(s@.subrange(lo as int, hi as int)),
{
    let ghost t = s@.subrange(lo as int, hi as int);
    if lo == hi {
        return None;
    }
    // Saturates at 65536: any larger value is as much out of range.
    let mut acc: u32 = 0;
    let mut i: usize = lo;
    while i < hi
        invariant
            lo <= i <= hi <= s@.len(),
            t == s@.subrange(lo as int, hi as int),
            forall|k: int| lo <= k < i ==> is_digit(#[trigger] s@[k]),
            acc as int == if decimal_value(s@.subrange(lo as int, i as int)) < 65536 {
                decimal_value(s@.subrange(lo as int, i as int)) as int
            } else {
                65536
            },
        decreases hi - i,
    {
        let c = s.get_char(i);
        if !('0' <= c && c <= '9') {
            assert(t[i - lo] == c);
            return None;
        }
        let ghost prev = s@.subrange(lo as int, i as int);
        let ghost next = s@.subrange(lo as int, i + 1);
        assert(next.drop_last() =~= prev);
        assert(next.last() == c);
        let d: u32 = (c as u32) - ('0' as u32);
        let v: u32 = acc * 10 + d;
        acc = if v > 65536 { 65536 } else { v };
        i = i + 1;
    }
    assert(s@.subrange(lo as int, i as int) == t);
    assert forall|k: int| 0 <= k < t.len() implies is_digit(#[trigger] t[k]) by {
        assert(t[k] == s@[lo + k]);
    }
    if acc > 65535 {
        None
    } else {
        Some(acc as u16)
    }
}

/// Appends the ports from `a` up to `b`, both included.
fn push_range(out: &mut Vec<u16>, a: u16, b: u16)
    ensures
        final(out)@ == old(out)@ + port_range(a, b),
{
    let ghost base = old(out)@;
    let mut p: u32 = a as u32;
    while p <= b as u32
        invariant
            a as u32 <= p <= b as u32 + 1 || (p == a as u32 && a > b),
            out@ =~= base + Seq::new((p - a) as nat, |k: int| (a + k) as u16),
        decreases b as u32 + 1 - p,
    {
        out.push(p as u16);
        p = p + 1;
    }
    assert(out@ =~= base + port_range(a, b));
}

/// Appends the ports of the token `s[lo..hi]`, or fails.
fn push_token(s: &str, lo: usize, hi: usize, out: &mut Vec<u16>) -> (r: Result<(), ParseError>)
    requires
        lo <= hi <= s@.len(),
    ensures
        match token_ports(s@.subrange(lo as int, hi as int)) {
            Some(ps) => r is Ok && final(out)@ == old(out)@ + ps,
            None => r is Err,
        },
{
    let ghost t = s@.subrange(lo as int, hi as int);
    let d = find_char(s, '-', lo, hi);
    proof {
        assert forall|k: int| 0 <= k < d - lo implies t[k] != '-' by {
            assert(t[k] == s@[lo + k]);
        }
        if d < hi {
            assert(t[d - lo] == s@[d as int]);
        }
        lemma_first_index(t, '-', d - lo);
    }
    if d < hi {
        assert(t.take(d - lo) =~= s@.subrange(lo as int, d as int));
        assert(t.skip(d - lo + 1) =~= s@.subrange(d + 1, hi as int));
        let a = parse_number(s, lo, d);
        let b = parse_number(s, d + 1, hi);
        match (a, b) {
            (Some(a), Some(b)) => {
                push_range(out, a, b);
                Ok(())
            },
            _ => Err(ParseError),
        }
    } else {
        match parse_number(s, lo, hi) {
            Some(p) => {
                out.push(p);
                assert(out@ =~= old(out)@ + seq![p]);
                Ok(())
            },
            None => Err(ParseError),
        }
    }
}

/// Expands a port specification into its ports, in the order written:
/// tokens left to right, each range ascending with both ends included,
/// duplicates kept. Any malformed token fails the whole call.
pub fn parse_ports(ports: String) -> (r: Result<Vec<u16>, ParseError>)
    ensures
        r is Ok <==> spec_ports(ports@) is Some,
        r matches Ok(v) ==> spec_ports(ports@) == Some(v@),
{
    let s = ports.as_str();
    let n = s.unicode_len();
    let mut out: Vec<u16> = Vec::new();
    let mut start: usize = 0;
    proof {
        assert(s@.skip(0) =~= s@);
        if let Some(all) = spec_ports(s@) {
            assert(Seq::<u16>::empty() + all =~= all);
        }
    }
    loop
        invariant
            s@ == ports@,
            n == s@.len(),
            start <= n,
            spec_ports(s@) == join(Some(out@), spec_ports(s@.skip(start as int))),
        decreases n - start,
    {
        let j = find_char(s, ',', start, n);
        let ghost u = s@.skip(start as int);
        let ghost before = out@;
        proof {
            assert forall|k: int| 0 <= k < j - start implies u[k] != ',' by {
                assert(u[k] == s@[start + k]);
            }
            if j < n {
                assert(u[j - start] == s@[j as int]);
            }
            lemma_first_index(u, ',', j - start);
            assert(u.take(j - start) =~= s@.subrange(start as int, j as int));
            if j < n {
                assert(u.skip(j - start + 1) =~= s@.skip(j + 1 as int));
            } else {
                assert(u =~= s@.subrange(start as int, j as int));
            }
        }
        match push_token(s, start, j, &mut out) {
            Ok(()) => {},
            Err(e) => {
                return Err(e);
            },
        }
        proof {
            let tv = token_ports(s@.subrange(start as int, j as int)).unwrap();
            let rest = if j < n { spec_ports(s@.skip(j + 1 as int)) } else { Some(Seq::empty()) };
            if rest is Some {
                assert(before + (tv + rest.unwrap()) =~= (before + tv) + rest.unwrap());
            }
            if j == n {
                assert(out@ + Seq::<u16>::empty() =~= out@);
            }
        }
        if j == n {
            return Ok(out);
        }
        start = j + 1;
    }
}

} // verus!
