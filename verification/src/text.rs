//! Verified text utilities: whitespace tokenization, decimal parsing and
//! line splitting, the building blocks of the two record parsers.

use vstd::prelude::*;

verus! {

/// The whitespace characters recognized by the tokenizer.
pub open spec fn is_space(c: char) -> bool {
    c == ' ' || c == '\t' || c == '\n' || c == '\r'
}

/// Stop predicate marking whitespace.
pub open spec fn space_stop() -> spec_fn(char) -> bool {
    |c: char| is_space(c)
}

/// Stop predicate marking a line separator.
pub open spec fn nl_stop() -> spec_fn(char) -> bool {
    |c: char| c == '\n'
}

/// Length of the longest prefix of `s` on which `stop` is false everywhere.
pub open spec fn prefix_until(s: Seq<char>, stop: spec_fn(char) -> bool) -> int
    decreases s.len(),
{
    if s.len() == 0 || stop(s[0]) {
        0
    } else {
        1 + prefix_until(s.subrange(1, s.len() as int), stop)
    }
}

pub proof fn lemma_prefix_until_bounds(s: Seq<char>, stop: spec_fn(char) -> bool)
    ensures
        0 <= prefix_until(s, stop) <= s.len(),
    decreases s.len(),
{
    if s.len() == 0 || stop(s[0]) {
    } else {
        lemma_prefix_until_bounds(s.subrange(1, s.len() as int), stop);
    }
}

/// `prefix_until` is exactly the position of the first character satisfying
/// `stop`, or the length when there is none.
pub proof fn lemma_prefix_until_is_scan(s: Seq<char>, stop: spec_fn(char) -> bool, t: int)
    requires
        0 <= t <= s.len(),
        forall|m: int| 0 <= m < t ==> !stop(s[m]),
        t == s.len() || stop(s[t]),
    ensures
        prefix_until(s, stop) == t,
    decreases s.len(),
{
    if s.len() == 0 || stop(s[0]) {
    } else {
        let s1 = s.subrange(1, s.len() as int);
        assert(forall|m: int| 0 <= m < t - 1 ==> s1[m] == s[m + 1]);
        if t < s.len() {
            assert(s1[t - 1] == s[t as int]);
        }
        lemma_prefix_until_is_scan(s1, stop, t - 1);
    }
}

/// The whitespace-separated tokens of `s`, in order.
pub open spec fn split_ws(s: Seq<char>) -> Seq<Seq<char>>
    decreases s.len(),
{
    if s.len() == 0 {
        seq![]
    } else if is_space(s[0]) {
        split_ws(s.subrange(1, s.len() as int))
    } else {
        let t = prefix_until(s, space_stop());
        proof {
            lemma_prefix_until_bounds(s.subrange(1, s.len() as int), space_stop());
        }
        seq![s.subrange(0, t)] + split_ws(s.subrange(t, s.len() as int))
    }
}

/// Exec test matching `is_space`.
pub fn is_space_char(c: char) -> (r: bool)
    ensures
        r == is_space(c),
{
    c == ' ' || c == '\t' || c == '\n' || c == '\r'
}

/// First position at or after `start` holding whitespace, or the length.
fn scan_until_space(s: &str, start: usize, n: usize) -> (j: usize)
    requires
        n == s@.len(),
        start <= n,
    ensures
        start <= j <= n,
        forall|m: int| start <= m < j ==> !is_space(s@[m]),
        j < n ==> is_space(s@[j as int]),
{
    let mut j = start;
    while j < n
        invariant
            n == s@.len(),
            start <= j <= n,
            forall|m: int| start <= m < j ==> !is_space(s@[m]),
        decreases n - j,
    {
        let c = s.get_char(j);
        if is_space_char(c) {
            return j;
        }
        j = j + 1;
    }
    j
}

/// First position at or after `start` holding `'\n'`, or the length.
fn scan_until_nl(s: &str, start: usize, n: usize) -> (j: usize)
    requires
        n == s@.len(),
        start <= n,
    ensures
        start <= j <= n,
        forall|m: int| start <= m < j ==> s@[m] != '\n',
        j < n ==> s@[j as int] == '\n',
{
    let mut j = start;
    while j < n
        invariant
            n == s@.len(),
            start <= j <= n,
            forall|m: int| start <= m < j ==> s@[m] != '\n',
        decreases n - j,
    {
        let c = s.get_char(j);
        if c == '\n' {
            return j;
        }
        j = j + 1;
    }
    j
}

/// Split `s` at whitespace, like the standard tokenizer restricted to the
/// four ASCII whitespace characters.
pub fn split_whitespace_owned(s: &str) -> (r: Vec<String>)
    ensures
        r.deep_view() == split_ws(s@),
{
    let n = s.unicode_len();
    let mut out: Vec<String> = Vec::new();
    let mut i: usize = 0;
    proof {
        assert(s@.subrange(0, n as int) =~= s@);
        assert(out.deep_view() =~= Seq::<Seq<char>>::empty());
        assert(out.deep_view() + split_ws(s@.subrange(0, n as int)) =~= split_ws(s@));
    }
    while i < n
        invariant
            n == s@.len(),
            0 <= i <= n,
            split_ws(s@) == out.deep_view() + split_ws(s@.subrange(i as int, n as int)),
        decreases n - i,
    {
        let ghost rest = s@.subrange(i as int, n as int);
        let c = s.get_char(i);
        if is_space_char(c) {
            proof {
                assert(rest[0] == c);
                assert(rest.subrange(1, rest.len() as int) =~= s@.subrange(i + 1, n as int));
            }
            i = i + 1;
        } else {
            let start = i;
            let j = scan_until_space(s, i, n);
            proof {
                assert(rest[0] == c);
                assert forall|m: int| 0 <= m < j - start implies !(space_stop()(rest[m])) by {
                    assert(rest[m] == s@[start + m]);
                }
                if j < n {
                    assert(space_stop()(rest[j - start]));
                }
                lemma_prefix_until_is_scan(rest, space_stop(), j - start);
                assert(rest.subrange(0, j - start) =~= s@.subrange(start as int, j as int));
                assert(rest.subrange(j - start, rest.len() as int) =~= s@.subrange(
                    j as int,
                    n as int,
                ));
            }
            let tok = s.substring_char(start, j);
            let towned = String::from_str(tok);
            let ghost dv0 = out.deep_view();
            out.push(towned);
            proof {
                assert(out.deep_view() =~= dv0.push(towned@));
                assert(split_ws(rest) == seq![towned@] + split_ws(
                    s@.subrange(j as int, n as int),
                ));
                assert(dv0 + split_ws(rest) =~= dv0.push(towned@) + split_ws(
                    s@.subrange(j as int, n as int),
                ));
            }
            i = j;
        }
    }
    proof {
        assert(s@.subrange(n as int, n as int) =~= Seq::<char>::empty());
        assert(out.deep_view() + split_ws(s@.subrange(n as int, n as int)) =~= out.deep_view());
    }
    out
}

/// Is `c` a decimal digit?
pub open spec fn is_digit(c: char) -> bool {
    48 <= c as int <= 57
}

/// Numeric value of a digit character.
pub open spec fn digit_val(c: char) -> int {
    c as int - 48
}

/// Does `s` consist of one or more decimal digits?
pub open spec fn is_dec(s: Seq<char>) -> bool {
    s.len() >= 1 && forall|i: int| 0 <= i < s.len() ==> is_digit(s[i])
}

/// The value of a digit string, most significant digit first.
pub open spec fn dec_val(s: Seq<char>) -> int
    decreases s.len(),
{
    if s.len() == 0 {
        0
    } else {
        dec_val(s.drop_last()) * 10 + digit_val(s.last())
    }
}

pub proof fn lemma_dec_val_nonneg(s: Seq<char>)
    requires
        forall|i: int| 0 <= i < s.len() ==> is_digit(s[i]),
    ensures
        dec_val(s) >= 0,
    decreases s.len(),
{
    if s.len() > 0 {
        assert(forall|i: int| 0 <= i < s.drop_last().len() ==> is_digit(s.drop_last()[i]));
        lemma_dec_val_nonneg(s.drop_last());
    }
}

/// A digit string's value only grows as digits are appended.
pub proof fn lemma_dec_val_prefix_le(s: Seq<char>, i: int, j: int)
    requires
        0 <= i <= j <= s.len(),
        forall|m: int| 0 <= m < j ==> is_digit(s[m]),
    ensures
        dec_val(s.subrange(0, i)) <= dec_val(s.subrange(0, j)),
    decreases j - i,
{
    if i < j {
        lemma_dec_val_prefix_le(s, i, j - 1);
        let p = s.subrange(0, j - 1);
        let q = s.subrange(0, j);
        assert(q.drop_last() =~= p);
        assert(forall|m: int| 0 <= m < p.len() ==> is_digit(p[m]));
        lemma_dec_val_nonneg(p);
        assert(dec_val(q) == dec_val(p) * 10 + digit_val(q.last()));
    }
}

/// Parse a digit string as a `u32`; `None` when `s` is empty, holds a
/// non-digit, or its value exceeds `u32::MAX`.
pub fn parse_u32(s: &str) -> (r: Option<u32>)
    ensures
        r is Some <==> is_dec(s@) && dec_val(s@) <= u32::MAX,
        r is Some ==> r->0 == dec_val(s@),
{
    let n = s.unicode_len();
    if n == 0 {
        return None;
    }
    let mut acc: u32 = 0;
    let mut i: usize = 0;
    proof {
        assert(s@.subrange(0, 0) =~= Seq::<char>::empty());
    }
    while i < n
        invariant
            n == s@.len(),
            0 <= i <= n,
            forall|m: int| 0 <= m < i ==> is_digit(s@[m]),
            acc == dec_val(s@.subrange(0, i as int)),
        decreases n - i,
    {
        let c = s.get_char(i);
        let u = c as u32;
        if u < 48 || u > 57 {
            assert(!is_digit(s@[i as int]));
            return None;
        }
        let d = u - 48;
        let next: u64 = acc as u64 * 10 + d as u64;
        proof {
            let p = s@.subrange(0, i as int);
            let q = s@.subrange(0, i + 1);
            assert(q.drop_last() =~= p);
            assert(q.last() == s@[i as int]);
            assert(dec_val(q) == dec_val(p) * 10 + digit_val(s@[i as int]));
        }
        if next > 0xffff_ffff {
            proof {
                if is_dec(s@) {
                    lemma_dec_val_prefix_le(s@, i + 1, n as int);
                    assert(s@.subrange(0, n as int) =~= s@);
                }
            }
            return None;
        }
        acc = next as u32;
        i = i + 1;
    }
    proof {
        assert(s@.subrange(0, n as int) =~= s@);
    }
    Some(acc)
}

/// One trailing carriage return stripped from a line.
pub open spec fn strip_cr(t: Seq<char>) -> Seq<char> {
    if t.len() > 0 && t.last() == '\r' {
        t.drop_last()
    } else {
        t
    }
}

/// The lines of `s`: split at `'\n'`, one trailing `'\r'` stripped from each
/// line, and no empty final line when `s` ends with a separator.
pub open spec fn split_lines(s: Seq<char>) -> Seq<Seq<char>>
    decreases s.len(),
{
    if s.len() == 0 {
        seq![]
    } else {
        let e = prefix_until(s, nl_stop());
        proof {
            lemma_prefix_until_bounds(s, nl_stop());
        }
        let line = strip_cr(s.subrange(0, e));
        if e == s.len() {
            seq![line]
        } else {
            seq![line] + split_lines(s.subrange(e + 1, s.len() as int))
        }
    }
}

/// Split `s` into lines as `split_lines` describes.
pub fn split_lines_owned(s: &str) -> (r: Vec<String>)
    ensures
        r.deep_view() == split_lines(s@),
{
    let n = s.unicode_len();
    let mut out: Vec<String> = Vec::new();
    let mut i: usize = 0;
    proof {
        assert(s@.subrange(0, n as int) =~= s@);
        assert(out.deep_view() =~= Seq::<Seq<char>>::empty());
        assert(out.deep_view() + split_lines(s@.subrange(0, n as int)) =~= split_lines(s@));
    }
    while i < n
        invariant
            n == s@.len(),
            0 <= i <= n,
            split_lines(s@) == out.deep_view() + split_lines(s@.subrange(i as int, n as int)),
        decreases n - i,
    {
        let ghost rest = s@.subrange(i as int, n as int);
        let start = i;
        let j = scan_until_nl(s, i, n);
        proof {
            assert forall|m: int| 0 <= m < j - start implies !(nl_stop()(rest[m])) by {
                assert(rest[m] == s@[start + m]);
            }
            if j < n {
                assert(nl_stop()(rest[j - start]));
            }
            lemma_prefix_until_is_scan(rest, nl_stop(), j - start);
            assert(rest.subrange(0, j - start) =~= s@.subrange(start as int, j as int));
        }
        let line_end = if j > start && s.get_char(j - 1) == '\r' {
            j - 1
        } else {
            j
        };
        proof {
            let raw = rest.subrange(0, j - start);
            if j > start && s@[j - 1] == '\r' {
                assert(raw.last() == s@[j - 1]);
                assert(strip_cr(raw) =~= s@.subrange(start as int, line_end as int));
            } else {
                if raw.len() > 0 {
                    assert(raw.last() == s@[j - 1]);
                }
                assert(strip_cr(raw) =~= s@.subrange(start as int, line_end as int));
            }
        }
        let line = s.substring_char(start, line_end);
        let lowned = String::from_str(line);
        let ghost dv0 = out.deep_view();
        out.push(lowned);
        proof {
            assert(out.deep_view() =~= dv0.push(lowned@));
        }
        if j < n {
            proof {
                assert(rest.subrange(j - start + 1, rest.len() as int) =~= s@.subrange(
                    j + 1,
                    n as int,
                ));
                assert(split_lines(rest) == seq![lowned@] + split_lines(
                    s@.subrange(j + 1, n as int),
                ));
                assert(dv0 + split_lines(rest) =~= dv0.push(lowned@) + split_lines(
                    s@.subrange(j + 1, n as int),
                ));
            }
            i = j + 1;
        } else {
            proof {
                assert(j - start == rest.len());
                assert(split_lines(rest) == seq![lowned@]);
                assert(s@.subrange(n as int, n as int) =~= Seq::<char>::empty());
                assert(dv0 + split_lines(rest) =~= dv0.push(lowned@) + split_lines(
                    s@.subrange(n as int, n as int),
                ));
            }
            i = j;
        }
    }
    proof {
        assert(s@.subrange(n as int, n as int) =~= Seq::<char>::empty());
        assert(out.deep_view() + split_lines(s@.subrange(n as int, n as int)) =~= out.deep_view());
    }
    out
}

} // verus!
