//! Records of the candidate mapping format: one tab-delimited line per
//! approximate mapping to be validated.

use vstd::prelude::*;
use crate::filter::types::Strand;
use crate::text::{dec_val, is_dec, split_ws, split_whitespace_owned, parse_u32};

verus! {

/// Is `x` a digit string whose value fits a `u32`?
pub open spec fn num_ok(x: Seq<char>) -> bool {
    is_dec(x) && dec_val(x) <= u32::MAX
}

/// A well-formed candidate record line: at least nine fields, numeric where
/// a coordinate is expected, a single-character strand field.
pub open spec fn mashmap_line_wf(s: Seq<char>) -> bool {
    let t = split_ws(s);
    &&& t.len() >= 9
    &&& num_ok(t[1])
    &&& num_ok(t[2])
    &&& num_ok(t[3])
    &&& t[4].len() == 1
    &&& num_ok(t[6])
    &&& num_ok(t[7])
    &&& num_ok(t[8])
}

/// One candidate mapping record.
#[derive(Debug, PartialEq)]
pub struct MashMapLine {
    pub query: String,
    pub query_length: u32,
    pub query_start: u32,
    pub query_stop: u32,
    pub strand: Strand,
    pub target: String,
    pub target_length: u32,
    pub target_start: u32,
    pub target_stop: u32,
}

impl MashMapLine {
    /// The fields a parse of `s` must hold.
    pub open spec fn parsed_from(&self, s: Seq<char>) -> bool {
        let t = split_ws(s);
        &&& self.query@ == t[0]
        &&& self.query_length == dec_val(t[1])
        &&& self.query_start == dec_val(t[2])
        &&& self.query_stop == dec_val(t[3])
        &&& self.strand == (if t[4][0] == '+' {
            Strand::Forward
        } else {
            Strand::Reverse
        })
        &&& self.target@ == t[5]
        &&& self.target_length == dec_val(t[6])
        &&& self.target_start == dec_val(t[7])
        &&& self.target_stop == dec_val(t[8])
    }

    /// Parse every line of `lines`, in order.
    pub fn from_lines(lines: Vec<String>) -> (r: Vec<MashMapLine>)
        requires
            forall|i: int| 0 <= i < lines@.len() ==> mashmap_line_wf(#[trigger] lines@[i]@),
        ensures
            r@.len() == lines@.len(),
            forall|i: int| 0 <= i < lines@.len() ==> #[trigger] r@[i].parsed_from(lines@[i]@),
    {
        let mut out: Vec<MashMapLine> = Vec::new();
        let mut i: usize = 0;
        while i < lines.len()
            invariant
                i <= lines@.len(),
                forall|k: int| 0 <= k < lines@.len() ==> mashmap_line_wf(#[trigger] lines@[k]@),
                out@.len() == i,
                forall|k: int| 0 <= k < i ==> #[trigger] out@[k].parsed_from(lines@[k]@),
            decreases lines@.len() - i,
        {
            let l = MashMapLine::from_str(lines[i].as_str());
            out.push(l);
            i = i + 1;
        }
        out
    }

    /// Parse one well-formed candidate record line.
    pub fn from_str(line: &str) -> (r: MashMapLine)
        requires
            mashmap_line_wf(line@),
        ensures
            r.parsed_from(line@),
    {
        match MashMapLine::try_from_str(line) {
            Some(r) => r,
            None => vstd::pervasive::unreached(),
        }
    }

    /// Total parse: `None` exactly when the line is not well-formed.
    pub fn try_from_str(line: &str) -> (r: Option<MashMapLine>)
        ensures
            r is Some <==> mashmap_line_wf(line@),
            r is Some ==> r->0.parsed_from(line@),
    {
        let toks = split_whitespace_owned(line);
        proof {
            assert(toks@.len() == toks.deep_view().len());
        }
        if toks.len() < 9 {
            return None;
        }
        proof {
            assert forall|k: int| 0 <= k < toks@.len() implies (#[trigger] toks@[k])@ == split_ws(
                line@,
            )[k] by {
                assert(toks.deep_view()[k] == toks@[k]@);
            }
        }
        let query_length = match parse_u32(toks[1].as_str()) {
            Some(v) => v,
            None => {
                return None;
            },
        };
        let query_start = match parse_u32(toks[2].as_str()) {
            Some(v) => v,
            None => {
                return None;
            },
        };
        let query_stop = match parse_u32(toks[3].as_str()) {
            Some(v) => v,
            None => {
                return None;
            },
        };
        if toks[4].as_str().unicode_len() != 1 {
            return None;
        }
        let target_length = match parse_u32(toks[6].as_str()) {
            Some(v) => v,
            None => {
                return None;
            },
        };
        let target_start = match parse_u32(toks[7].as_str()) {
            Some(v) => v,
            None => {
                return None;
            },
        };
        let target_stop = match parse_u32(toks[8].as_str()) {
            Some(v) => v,
            None => {
                return None;
            },
        };
        let strand = Strand::from_char(toks[4].as_str().get_char(0));
        Some(
            MashMapLine {
                query: toks[0].clone(),
                query_length,
                query_start,
                query_stop,
                strand,
                target: toks[5].clone(),
                target_length,
                target_start,
                target_stop,
            },
        )
    }
}

/// A parsed candidate mapping file.
#[derive(Debug)]
pub struct MashMapOutput {
    mappings: Vec<MashMapLine>,
}

/// A (query, target) name pair.
#[derive(Debug, PartialEq, Eq, Hash)]
pub struct AlignmentPair {
    pub query: String,
    pub target: String,
}

/// The coordinate bounds one candidate mapping claims.
#[derive(Debug, PartialEq, Eq, Structural, Hash, Clone, Copy)]
pub struct AlignmentBounds {
    pub query_length: u32,
    pub query_start: u32,
    pub query_stop: u32,
    pub target_length: u32,
    pub target_start: u32,
    pub target_stop: u32,
}

/// The name-pair key of a record.
pub open spec fn mm_key(m: MashMapLine) -> (Seq<char>, Seq<char>) {
    (m.query@, m.target@)
}

/// The key of a grouped pair.
pub open spec fn pair_key(p: AlignmentPair) -> (Seq<char>, Seq<char>) {
    (p.query@, p.target@)
}

/// The bounds a record claims.
pub open spec fn mm_bounds(m: MashMapLine) -> AlignmentBounds {
    AlignmentBounds {
        query_length: m.query_length,
        query_start: m.query_start,
        query_stop: m.query_stop,
        target_length: m.target_length,
        target_start: m.target_start,
        target_stop: m.target_stop,
    }
}

/// Index of the group carrying this (query, target) pair, if any.
fn find_group(
    out: &Vec<(AlignmentPair, Vec<AlignmentBounds>)>,
    q: &String,
    t: &String,
) -> (r: Option<usize>)
    ensures
        r is Some ==> r->0 < out@.len() && pair_key(out@[r->0 as int].0) == (q@, t@),
        r is None ==> forall|i: int| 0 <= i < out@.len() ==> pair_key(#[trigger] out@[i].0) != (
            q@,
            t@,
        ),
{
    let mut gi: usize = 0;
    while gi < out.len()
        invariant
            gi <= out@.len(),
            forall|i: int| 0 <= i < gi ==> pair_key(#[trigger] out@[i].0) != (q@, t@),
        decreases out@.len() - gi,
    {
        let g = &out[gi];
        if g.0.query == *q && g.0.target == *t {
            return Some(gi);
        }
        gi = gi + 1;
    }
    None
}

/// Are these bounds already claimed in this group?
fn find_bounds(bs: &Vec<AlignmentBounds>, b: AlignmentBounds) -> (r: bool)
    ensures
        r <==> exists|a: int| 0 <= a < bs@.len() && #[trigger] bs@[a] == b,
{
    let mut bi: usize = 0;
    while bi < bs.len()
        invariant
            bi <= bs@.len(),
            forall|a: int| 0 <= a < bi ==> #[trigger] bs@[a] != b,
        decreases bs@.len() - bi,
    {
        if bs[bi] == b {
            return true;
        }
        bi = bi + 1;
    }
    false
}

impl MashMapOutput {
    /// The records held.
    pub closed spec fn mappings_view(&self) -> Seq<MashMapLine> {
        self.mappings@
    }

    /// Wrap parsed records.
    pub fn new(mappings: Vec<MashMapLine>) -> (r: MashMapOutput)
        ensures
            r.mappings_view() == mappings@,
    {
        MashMapOutput { mappings }
    }

    /// Group the bounds of all mappings by their (query, target) name pair:
    /// each distinct pair appears once, holding the distinct bounds claimed
    /// for it, at least one, and nothing else.
    pub fn gen_unique_mappings(&self) -> (r: Vec<(AlignmentPair, Vec<AlignmentBounds>)>)
        ensures
            forall|i: int, j: int|
                0 <= i < j < r@.len() ==> pair_key(#[trigger] r@[i].0) != pair_key(
                    #[trigger] r@[j].0,
                ),
            forall|i: int| 0 <= i < r@.len() ==> (#[trigger] r@[i]).1@.len() >= 1,
            forall|i: int, a: int, b: int|
                0 <= i < r@.len() && 0 <= a < b < r@[i].1@.len() ==> #[trigger] r@[i].1@[a]
                    != #[trigger] r@[i].1@[b],
            forall|i: int, a: int|
                0 <= i < r@.len() && 0 <= a < r@[i].1@.len() ==> bounds_from_source(
                    self.mappings_view(),
                    pair_key(r@[i].0),
                    #[trigger] r@[i].1@[a],
                ),
            forall|m: int|
                0 <= m < self.mappings_view().len() ==> group_holds(
                    r@,
                    mm_key(#[trigger] self.mappings_view()[m]),
                    mm_bounds(self.mappings_view()[m]),
                ),
    {
        let mut out: Vec<(AlignmentPair, Vec<AlignmentBounds>)> = Vec::new();
        let mut m: usize = 0;
        while m < self.mappings.len()
            invariant
                m <= self.mappings_view().len(),
                forall|i: int, j: int|
                    0 <= i < j < out@.len() ==> pair_key(#[trigger] out@[i].0) != pair_key(
                        #[trigger] out@[j].0,
                    ),
                forall|i: int| 0 <= i < out@.len() ==> (#[trigger] out@[i]).1@.len() >= 1,
                forall|i: int, a: int, b: int|
                    0 <= i < out@.len() && 0 <= a < b < out@[i].1@.len() ==> #[trigger] out@[i].1@[a]
                        != #[trigger] out@[i].1@[b],
                forall|i: int, a: int|
                    0 <= i < out@.len() && 0 <= a < out@[i].1@.len() ==> bounds_from_source(
                        self.mappings_view().subrange(0, m as int),
                        pair_key(out@[i].0),
                        #[trigger] out@[i].1@[a],
                    ),
                forall|k: int|
                    0 <= k < m ==> group_holds(
                        out@,
                        mm_key(#[trigger] self.mappings_view()[k]),
                        mm_bounds(self.mappings_view()[k]),
                    ),
            decreases self.mappings_view().len() - m,
        {
            let ghost pre = out@;
            let mp = &self.mappings[m];
            let bounds = AlignmentBounds {
                query_length: mp.query_length,
                query_start: mp.query_start,
                query_stop: mp.query_stop,
                target_length: mp.target_length,
                target_start: mp.target_start,
                target_stop: mp.target_stop,
            };
            let found_group = find_group(&out, &mp.query, &mp.target);
            let ghost mv = self.mappings_view();
            let ghost key_m = mm_key(mv[m as int]);
            let ghost b_m = mm_bounds(mv[m as int]);
            proof {
                assert(key_m == (mp.query@, mp.target@));
                assert(b_m == bounds);
            }
            match found_group {
                Some(gi) => {
                    if !find_bounds(&out[gi].1, bounds) {
                        let pair_ref = &mut out[gi];
                        pair_ref.1.push(bounds);
                        proof {
                            assert(out@[gi as int].1@ == pre[gi as int].1@.push(bounds));
                            assert(out@[gi as int].0 == pre[gi as int].0);
                            assert(forall|i: int|
                                0 <= i < out@.len() && i != gi ==> out@[i] == pre[i]);
                            let la = pre[gi as int].1@.len() as int;
                            assert(out@[gi as int].1@[la] == bounds);
                            assert(group_holds(out@, key_m, b_m));
                            // the one new element
                            assert forall|i: int, a: int|
                                0 <= i < out@.len() && 0 <= a < out@[i].1@.len() && !(i < pre.len()
                                    && a < pre[i].1@.len()) implies pair_key(out@[i].0)
                                == key_m && #[trigger] out@[i].1@[a] == b_m by {
                                assert(i == gi && a == la);
                            }
                            // distinct bounds kept
                            assert forall|i: int, a: int, b: int|
                                0 <= i < out@.len() && 0 <= a < b < out@[i].1@.len() implies
                                #[trigger] out@[i].1@[a] != #[trigger] out@[i].1@[b] by {
                                if i == gi {
                                    if b == la {
                                        assert(out@[i].1@[a] == pre[i].1@[a]);
                                        assert(!(exists|x: int|
                                            0 <= x < pre[gi as int].1@.len()
                                                && #[trigger] pre[gi as int].1@[x] == bounds));
                                        assert(pre[i].1@[a] != bounds);
                                    } else {
                                        assert(out@[i].1@[a] == pre[i].1@[a]);
                                        assert(out@[i].1@[b] == pre[i].1@[b]);
                                    }
                                }
                            }
                        }
                    } else {
                        proof {
                            let a = choose|a: int|
                                0 <= a < out@[gi as int].1@.len() && #[trigger] out@[gi as int].1@[a]
                                    == bounds;
                            assert(group_holds(out@, key_m, b_m));
                        }
                    }
                },
                None => {
                    let pair = AlignmentPair { query: mp.query.clone(), target: mp.target.clone() };
                    let mut bs: Vec<AlignmentBounds> = Vec::new();
                    bs.push(bounds);
                    out.push((pair, bs));
                    proof {
                        assert(forall|i: int| 0 <= i < pre.len() ==> out@[i] == pre[i]);
                        let ni = pre.len() as int;
                        assert(out@[ni].1@ =~= seq![bounds]);
                        assert(out@[ni].1@[0] == bounds);
                        assert(pair_key(out@[ni].0) == key_m);
                        assert(group_holds(out@, key_m, b_m));
                        assert forall|i: int, a: int|
                            0 <= i < out@.len() && 0 <= a < out@[i].1@.len() && !(i < pre.len()
                                && a < pre[i].1@.len()) implies pair_key(out@[i].0)
                            == key_m && #[trigger] out@[i].1@[a] == b_m by {
                            assert(i == ni && a == 0);
                        }
                        // key distinctness kept: the new key differs from all old ones
                        assert forall|i: int, j: int|
                            0 <= i < j < out@.len() implies pair_key(#[trigger] out@[i].0)
                            != pair_key(#[trigger] out@[j].0) by {
                            if j == ni {
                                assert(pair_key(out@[i].0) == pair_key(pre[i].0));
                            }
                        }
                    }
                },
            }
            proof {
                // every old group is preserved up to appended bounds
                assert forall|i: int| 0 <= i < pre.len() implies pair_key(#[trigger] out@[i].0)
                    == pair_key(pre[i].0) && pre[i].1@.is_prefix_of(out@[i].1@) by {
                    if out@[i] == pre[i] {
                        assert(out@[i].1@.subrange(0, pre[i].1@.len() as int) =~= pre[i].1@);
                    } else {
                        assert(out@[i].1@ == pre[i].1@.push(bounds));
                        assert(out@[i].1@.subrange(0, pre[i].1@.len() as int) =~= pre[i].1@);
                    }
                }
                lemma_bounds_from_source_grow(mv, m as int);
                assert forall|i: int, a: int|
                    0 <= i < out@.len() && 0 <= a < out@[i].1@.len() implies bounds_from_source(
                    mv.subrange(0, m + 1),
                    pair_key(out@[i].0),
                    #[trigger] out@[i].1@[a],
                ) by {
                    let sub1 = mv.subrange(0, m + 1);
                    if i < pre.len() && a < pre[i].1@.len() {
                        assert(bounds_from_source(
                            mv.subrange(0, m as int),
                            pair_key(pre[i].0),
                            pre[i].1@[a],
                        ));
                        assert(out@[i].1@[a] == out@[i].1@.subrange(0, pre[i].1@.len() as int)[a]);
                        assert(out@[i].1@[a] == pre[i].1@[a]);
                    } else {
                        assert(pair_key(out@[i].0) == key_m && out@[i].1@[a] == b_m);
                        assert(sub1[m as int] == mv[m as int]);
                        assert(bounds_from_source(sub1, key_m, b_m));
                    }
                }
                assert forall|k: int| 0 <= k < m + 1 implies group_holds(
                    out@,
                    mm_key(#[trigger] mv[k]),
                    mm_bounds(mv[k]),
                ) by {
                    if k < m {
                        lemma_group_holds_grow(
                            pre,
                            out@,
                            mm_key(mv[k]),
                            mm_bounds(mv[k]),
                            (m as int),
                        );
                    }
                }
            }
            m = m + 1;
        }
        proof {
            assert(self.mappings_view().subrange(0, self.mappings_view().len() as int)
                =~= self.mappings_view());
        }
        out
    }
}

/// Some record among `ms` names exactly this pair and claims exactly these
/// bounds.
pub open spec fn bounds_from_source(
    ms: Seq<MashMapLine>,
    key: (Seq<char>, Seq<char>),
    b: AlignmentBounds,
) -> bool {
    exists|m: int| 0 <= m < ms.len() && mm_key(#[trigger] ms[m]) == key && mm_bounds(ms[m]) == b
}

/// Some group of `r` carries this pair with these bounds among its claims.
pub open spec fn group_holds(
    r: Seq<(AlignmentPair, Vec<AlignmentBounds>)>,
    key: (Seq<char>, Seq<char>),
    b: AlignmentBounds,
) -> bool {
    exists|i: int, a: int|
        0 <= i < r.len() && 0 <= a < r[i].1@.len() && pair_key(r[i].0) == key && #[trigger] r[i].1@[a]
            == b
}

/// A claim found among the first `m` records is found in the whole list.
proof fn lemma_bounds_from_source_grow(ms: Seq<MashMapLine>, m: int)
    requires
        0 <= m < ms.len(),
    ensures
        forall|key: (Seq<char>, Seq<char>), b: AlignmentBounds|
            #[trigger] bounds_from_source(ms.subrange(0, m), key, b) ==> bounds_from_source(
                ms.subrange(0, m + 1),
                key,
                b,
            ),
{
    assert forall|key: (Seq<char>, Seq<char>), b: AlignmentBounds|
        #[trigger] bounds_from_source(ms.subrange(0, m), key, b) implies bounds_from_source(
        ms.subrange(0, m + 1),
        key,
        b,
    ) by {
        let k = choose|k: int|
            0 <= k < ms.subrange(0, m).len() && mm_key(#[trigger] ms.subrange(0, m)[k]) == key
                && mm_bounds(ms.subrange(0, m)[k]) == b;
        assert(ms.subrange(0, m + 1)[k] == ms.subrange(0, m)[k]);
    }
}

/// Groups only ever grow: what a group held, it still holds after appending
/// bounds to some group or appending a new group.
proof fn lemma_group_holds_grow(
    pre: Seq<(AlignmentPair, Vec<AlignmentBounds>)>,
    post: Seq<(AlignmentPair, Vec<AlignmentBounds>)>,
    key: (Seq<char>, Seq<char>),
    b: AlignmentBounds,
    m: int,
)
    requires
        group_holds(pre, key, b),
        pre.len() <= post.len(),
        forall|i: int|
            0 <= i < pre.len() ==> pair_key(#[trigger] post[i].0) == pair_key(pre[i].0)
                && pre[i].1@.is_prefix_of(post[i].1@),
    ensures
        group_holds(post, key, b),
{
    let (i, a) = choose|i: int, a: int|
        0 <= i < pre.len() && 0 <= a < pre[i].1@.len() && pair_key(pre[i].0) == key
            && #[trigger] pre[i].1@[a] == b;
    let l = pre[i].1@.len() as int;
    assert(pair_key(post[i].0) == pair_key(pre[i].0));
    assert(pre[i].1@.is_prefix_of(post[i].1@));
    assert(pre[i].1@ == post[i].1@.subrange(0, l));
    assert(pre[i].1@[a] == post[i].1@.subrange(0, l)[a]);
    assert(post[i].1@[a] == b);
}

} // verus!
