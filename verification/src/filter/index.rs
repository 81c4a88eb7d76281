//! The evidence extractor and the interval index built from it.

use vstd::prelude::*;
use vstd::multiset::Multiset;
use coitrees::IntervalTree;
use crate::filter::types::{Interval, SequenceType, Strand};
use crate::paf::paf::PafAlignment;
use crate::paf::paf::PAF;
use crate::text::{digit_val, is_digit};

verus! {

/// A fatal defect in an edit script.
#[derive(PartialEq, Eq, Structural, Clone, Copy, Debug)]
pub enum CigarParseError {
    /// An alphabetic character that is not an operation code.
    UnexpectedChar(char),
    /// A character that is neither digit nor letter.
    UnknownChar(char),
    /// An operation with no preceding count, or a count above `u32::MAX`.
    BadCount,
    /// A cursor move past the ends of the coordinate range.
    CursorRange,
}

/// State of an edit-script walk: accumulated digit buffer, cursor position,
/// intervals emitted so far, and the first error met, if any.
pub struct CigState {
    pub err: Option<CigarParseError>,
    pub buf: int,
    pub buf_len: nat,
    pub cursor: int,
    pub ivs: Seq<(int, int)>,
}

pub open spec fn is_alpha(c: char) -> bool {
    ('a' <= c && c <= 'z') || ('A' <= c && c <= 'Z')
}

/// One character of the walk.  A digit extends the count buffer; `M`/`=`
/// emits a matched interval and advances the cursor; `X` advances without
/// emitting; `I` and `D` move the cursor backward or forward depending on the
/// axis.  After an error the state is frozen.
pub open spec fn cigar_step(is_target: bool, st: CigState, c: char) -> CigState {
    if st.err is Some {
        st
    } else if is_digit(c) {
        CigState { buf: st.buf * 10 + digit_val(c), buf_len: st.buf_len + 1, ..st }
    } else if c == 'M' || c == '=' || c == 'X' || c == 'I' || c == 'D' {
        if st.buf_len == 0 || st.buf > u32::MAX {
            CigState { err: Some(CigarParseError::BadCount), ..st }
        } else {
            let fwd = if c == 'I' {
                !is_target
            } else if c == 'D' {
                is_target
            } else {
                true
            };
            let nc = if fwd {
                st.cursor + st.buf
            } else {
                st.cursor - st.buf
            };
            if nc < 0 || nc > u32::MAX {
                CigState { err: Some(CigarParseError::CursorRange), ..st }
            } else if c == 'M' || c == '=' {
                CigState {
                    ivs: st.ivs.push((st.cursor, nc)),
                    cursor: nc,
                    buf: 0,
                    buf_len: 0,
                    ..st
                }
            } else {
                CigState { cursor: nc, buf: 0, buf_len: 0, ..st }
            }
        }
    } else if is_alpha(c) {
        CigState { err: Some(CigarParseError::UnexpectedChar(c)), ..st }
    } else {
        CigState { err: Some(CigarParseError::UnknownChar(c)), ..st }
    }
}

/// Walk state at the start of a script.
pub open spec fn cigar_init(start: int) -> CigState {
    CigState { err: None, buf: 0, buf_len: 0, cursor: start, ivs: seq![] }
}

/// The walk of a whole script from cursor position `start`.
pub open spec fn cigar_walk(is_target: bool, s: Seq<char>, start: int) -> CigState
    decreases s.len(),
{
    if s.len() == 0 {
        cigar_init(start)
    } else {
        cigar_step(is_target, cigar_walk(is_target, s.drop_last(), start), s.last())
    }
}

/// A script is accepted when its walk meets no error.
pub open spec fn cigar_ok(is_target: bool, s: Seq<char>, start: int) -> bool {
    cigar_walk(is_target, s, start).err is None
}

/// The matched intervals of a script.
pub open spec fn match_intervals_spec(is_target: bool, s: Seq<char>, start: int) -> Seq<
    (int, int),
> {
    cigar_walk(is_target, s, start).ivs
}

/// The walk's cursor stays within the coordinate range and its emitted
/// intervals are well-formed, as long as no error is recorded.
pub proof fn lemma_cigar_walk_wf(is_target: bool, s: Seq<char>, start: int)
    requires
        0 <= start <= u32::MAX,
    ensures
        ({
            let st = cigar_walk(is_target, s, start);
            &&& st.err is None ==> 0 <= st.cursor <= u32::MAX
            &&& st.err is None ==> st.buf >= 0
            &&& forall|j: int|
                0 <= j < st.ivs.len() ==> {
                    let iv = #[trigger] st.ivs[j];
                    0 <= iv.0 <= iv.1 <= u32::MAX
                }
        }),
    decreases s.len(),
{
    if s.len() > 0 {
        lemma_cigar_walk_wf(is_target, s.drop_last(), start);
        let prev = cigar_walk(is_target, s.drop_last(), start);
        let st = cigar_walk(is_target, s, start);
        if prev.err is None && st.err is None {
            assert forall|j: int| 0 <= j < st.ivs.len() implies {
                let iv = #[trigger] st.ivs[j];
                0 <= iv.0 <= iv.1 <= u32::MAX
            } by {
                if j < prev.ivs.len() {
                    assert(st.ivs[j] == prev.ivs[j]);
                }
            }
        }
    }
}

/// Once the walk has erred, the remaining characters change nothing.
pub proof fn lemma_cigar_err_stable(is_target: bool, s: Seq<char>, start: int, i: int)
    requires
        0 <= i <= s.len(),
        cigar_walk(is_target, s.subrange(0, i), start).err is Some,
    ensures
        cigar_walk(is_target, s, start) == cigar_walk(is_target, s.subrange(0, i), start),
    decreases s.len() - i,
{
    if i < s.len() {
        let p = s.subrange(0, i);
        let q = s.subrange(0, i + 1);
        assert(q.drop_last() =~= p);
        assert(q.last() == s[i]);
        lemma_cigar_err_stable(is_target, s, start, i + 1);
    } else {
        assert(s.subrange(0, i) =~= s);
    }
}

/// Convert one accepted edit script into its matched evidence intervals.
///
/// The cursor starts at `start`; match and mismatch operations advance it;
/// insertions and deletions shift it according to `seq_type`.  Each match
/// operation of length `L` at cursor `c` yields the interval `[c, c + L)`
/// tagged with `line_num` and `name`.  The strand is accepted but not yet
/// used to re-orient intervals.
pub fn compute_match_intervals(
    seq_type: SequenceType,
    _strand: Strand,
    start: u32,
    _stop: u32,
    cigar: &str,
    name: &str,
    line_num: usize,
) -> (r: Vec<Interval>)
    requires
        cigar_ok(seq_type is Target, cigar@, start as int),
    ensures
        ({
            let ivs = match_intervals_spec(seq_type is Target, cigar@, start as int);
            &&& r@.len() == ivs.len()
            &&& forall|j: int|
                0 <= j < ivs.len() ==> (#[trigger] r@[j])@ == (
                    ivs[j].0,
                    ivs[j].1,
                    line_num as int,
                    name@,
                )
        }),
{
    match try_compute_match_intervals(seq_type, _strand, start, _stop, cigar, name, line_num) {
        Ok(v) => v,
        Err(_) => vstd::pervasive::unreached(),
    }
}

/// Total form of the walk: `Err` with the first defect exactly when the
/// script is not accepted.
pub fn try_compute_match_intervals(
    seq_type: SequenceType,
    _strand: Strand,
    start: u32,
    _stop: u32,
    cigar: &str,
    name: &str,
    line_num: usize,
) -> (r: Result<Vec<Interval>, CigarParseError>)
    ensures
        r is Ok <==> cigar_ok(seq_type is Target, cigar@, start as int),
        r is Ok ==> ({
            let ivs = match_intervals_spec(seq_type is Target, cigar@, start as int);
            &&& r->Ok_0@.len() == ivs.len()
            &&& forall|j: int|
                0 <= j < ivs.len() ==> (#[trigger] r->Ok_0@[j])@ == (
                    ivs[j].0,
                    ivs[j].1,
                    line_num as int,
                    name@,
                )
        }),
        r is Err ==> Some(r->Err_0) == cigar_walk(seq_type is Target, cigar@, start as int).err,
{
    let is_target = match seq_type {
        SequenceType::Target => true,
        SequenceType::Query => false,
    };
    let n = cigar.unicode_len();
    let mut out: Vec<Interval> = Vec::new();
    let mut cursor: u32 = start;
    // the count buffer, capped one past `u32::MAX` once it can no longer fit
    let mut buf: u64 = 0;
    let mut has_digits = false;
    let mut i: usize = 0;
    proof {
        assert(cigar@.subrange(0, 0) =~= Seq::<char>::empty());
    }
    while i < n
        invariant
            n == cigar@.len(),
            0 <= i <= n,
            is_target == (seq_type is Target),
            0 <= start <= u32::MAX,
            ({
                let gw = cigar_walk(is_target, cigar@.subrange(0, i as int), start as int);
                &&& gw.err is None
                &&& cursor == gw.cursor
                &&& has_digits == (gw.buf_len > 0)
                &&& gw.buf >= 0
                &&& (gw.buf <= u32::MAX ==> buf == gw.buf)
                &&& (gw.buf > u32::MAX ==> buf == 0x1_0000_0000u64)
                &&& (gw.buf_len == 0 ==> gw.buf == 0)
                &&& out@.len() == gw.ivs.len()
                &&& forall|j: int|
                    0 <= j < gw.ivs.len() ==> (#[trigger] out@[j])@ == (
                        gw.ivs[j].0,
                        gw.ivs[j].1,
                        line_num as int,
                        name@,
                    )
            }),
        decreases n - i,
    {
        let ghost pre = cigar@.subrange(0, i as int);
        let ghost gw = cigar_walk(is_target, pre, start as int);
        let c = cigar.get_char(i);
        proof {
            let q = cigar@.subrange(0, i + 1);
            assert(q.drop_last() =~= pre);
            assert(q.last() == cigar@[i as int]);
        }
        let ghost gw2 = cigar_walk(is_target, cigar@.subrange(0, i + 1), start as int);
        let u = c as u32;
        if 48 <= u && u <= 57 {
            let d = (u - 48) as u64;
            if buf <= 0xffff_ffff {
                let nv = buf * 10 + d;
                buf = if nv > 0xffff_ffff {
                    0x1_0000_0000u64
                } else {
                    nv
                };
            }
            has_digits = true;
        } else if c == 'M' || c == '=' || c == 'X' || c == 'I' || c == 'D' {
            if !has_digits || buf > 0xffff_ffff {
                proof {
                    lemma_cigar_err_stable(is_target, cigar@, start as int, i + 1);
                }
                return Err(CigarParseError::BadCount);
            }
            let m = buf as u32;
            let fwd = if c == 'I' {
                !is_target
            } else if c == 'D' {
                is_target
            } else {
                true
            };
            if fwd {
                if cursor as u64 + m as u64 > 0xffff_ffff {
                    proof {
                        lemma_cigar_err_stable(is_target, cigar@, start as int, i + 1);
                    }
                    return Err(CigarParseError::CursorRange);
                }
                let nc = cursor + m;
                if c == 'M' || c == '=' {
                    out.push(Interval(cursor, nc, line_num, String::from_str(name)));
                    proof {
                        assert forall|j: int| 0 <= j < gw2.ivs.len() implies (
                        #[trigger] out@[j])@ == (
                            gw2.ivs[j].0,
                            gw2.ivs[j].1,
                            line_num as int,
                            name@,
                        ) by {
                            if j < gw.ivs.len() {
                                assert(out@[j] == out@.subrange(0, out@.len() - 1)[j]);
                                assert(gw2.ivs[j] == gw.ivs[j]);
                            }
                        }
                    }
                }
                cursor = nc;
            } else {
                if m > cursor {
                    proof {
                        lemma_cigar_err_stable(is_target, cigar@, start as int, i + 1);
                    }
                    return Err(CigarParseError::CursorRange);
                }
                let nc = cursor - m;
                cursor = nc;
            }
            buf = 0;
            has_digits = false;
        } else {
            let is_alpha_c = ('a' <= c && c <= 'z') || ('A' <= c && c <= 'Z');
            proof {
                lemma_cigar_err_stable(is_target, cigar@, start as int, i + 1);
            }
            if is_alpha_c {
                return Err(CigarParseError::UnexpectedChar(c));
            } else {
                return Err(CigarParseError::UnknownChar(c));
            }
        }
        i = i + 1;
    }
    proof {
        assert(cigar@.subrange(0, n as int) =~= cigar@);
    }
    Ok(out)
}

/// A walk of a script made of one match operation: a digit run `ds` followed
/// by `M`.  It is accepted and yields exactly the interval
/// `[start, start + L)` where `L` is the value of `ds`.
pub proof fn lemma_single_match_script(is_target: bool, ds: Seq<char>, start: int)
    requires
        crate::text::is_dec(ds),
        0 <= start,
        start + crate::text::dec_val(ds) <= u32::MAX,
    ensures
        cigar_ok(is_target, ds.push('M'), start),
        match_intervals_spec(is_target, ds.push('M'), start) == seq![
            (start, start + crate::text::dec_val(ds)),
        ],
{
    lemma_digit_run_walk(is_target, ds, start);
    let s = ds.push('M');
    assert(s.drop_last() =~= ds);
    assert(s.last() == 'M');
    crate::text::lemma_dec_val_nonneg(ds);
    let st = cigar_walk(is_target, ds, start);
    let fin = cigar_step(is_target, st, 'M');
    assert(fin.ivs =~= seq![(start, start + crate::text::dec_val(ds))]);
}

/// A walk of a pure digit run accumulates its value and emits nothing.
proof fn lemma_digit_run_walk(is_target: bool, ds: Seq<char>, start: int)
    requires
        forall|i: int| 0 <= i < ds.len() ==> is_digit(ds[i]),
    ensures
        ({
            let st = cigar_walk(is_target, ds, start);
            &&& st.err is None
            &&& st.buf == crate::text::dec_val(ds)
            &&& st.buf_len == ds.len()
            &&& st.cursor == start
            &&& st.ivs == Seq::<(int, int)>::empty()
        }),
    decreases ds.len(),
{
    if ds.len() > 0 {
        assert(forall|i: int|
            0 <= i < ds.drop_last().len() ==> is_digit(#[trigger] ds.drop_last()[i]));
        lemma_digit_run_walk(is_target, ds.drop_last(), start);
    }
}

// ---------------------------------------------------------------------------
// The interval index over the evidence.

/// One stored evidence entry: interval start and end as stored (the walk's
/// half-open stop is stored as the inclusive end, as the index was built),
/// and a (source line, name id) payload.
pub type EvEntry = (i32, i32, (u32, u32));

/// The interval tree of one axis.  The tree itself comes from the
/// `coitrees` crate; it is held opaquely and spoken of through
/// `coitree_entries`.
#[verifier::external_body]
pub struct EvidenceTree {
    tree: coitrees::BasicCOITree<(u32, u32), u32>,
}

/// What an evidence tree holds.
pub uninterp spec fn coitree_entries(t: EvidenceTree) -> Multiset<EvEntry>;

/// Does a stored entry intersect the end-inclusive range `[first, last]`?
pub open spec fn ent_overlaps(e: EvEntry, first: i32, last: i32) -> bool {
    e.0 <= last && e.1 >= first
}

/// The stored entries intersecting an end-inclusive range.
pub open spec fn overlapping(m: Multiset<EvEntry>, first: i32, last: i32) -> Multiset<EvEntry> {
    m.filter(|e: EvEntry| ent_overlaps(e, first, last))
}

/// Every entry intersects the full coordinate range, so a full-range count
/// reports exactly the number of entries stored.
pub proof fn lemma_full_range_count(m: Multiset<EvEntry>)
    ensures
        overlapping(m, -0x8000_0000i32, 0x7fff_ffffi32) == m,
        overlapping(m, -0x8000_0000i32, 0x7fff_ffffi32).len() == m.len(),
{
    broadcast use vstd::multiset::group_multiset_axioms;

    assert(overlapping(m, -0x8000_0000i32, 0x7fff_ffffi32) =~= m);
}

/// Build a tree from a short list of entries, checking the bounds the tree
/// construction needs.
pub(crate) fn coitree_build_public(items: &Vec<EvEntry>) -> (t: EvidenceTree)
    requires
        items@.len() < 0xffff_ffff,
        forall|k: int|
            0 <= k < items@.len() ==> 0 <= (#[trigger] items@[k]).0 && items@[k].0
                <= items@[k].1 && items@[k].1 <= 0x3fff_ffff,
    ensures
        coitree_entries(t) == items@.to_multiset(),
{
    coitree_build(items)
}

/// Relies on `coitrees::BasicCOITree::new` (its `IntervalTree` impl): builds
/// a static interval tree holding exactly the given end-inclusive intervals
/// with their payloads.  The construction panics when the entry count
/// reaches the index type's maximum, and it computes subtree spans as
/// `last - first + 1` in `i32`, so entries are kept to ordered coordinates
/// in `[0, 0x3fff_ffff]`, where every such span fits.
#[verifier::external_body]
fn coitree_build(items: &Vec<EvEntry>) -> (t: EvidenceTree)
    requires
        items@.len() < 0xffff_ffff,
        forall|k: int|
            0 <= k < items@.len() ==> 0 <= (#[trigger] items@[k]).0 && items@[k].0
                <= items@[k].1 && items@[k].1 <= 0x3fff_ffff,
    ensures
        coitree_entries(t) == items@.to_multiset(),
{
    let nodes: Vec<coitrees::Interval<(u32, u32)>> = items.iter().map(
        |it: &EvEntry| coitrees::Interval::new(it.0, it.1, it.2),
    ).collect();
    EvidenceTree { tree: coitrees::BasicCOITree::new(&nodes) }
}

impl EvidenceTree {
    /// Relies on `coitrees::BasicCOITree::query_count` (its `IntervalTree`
    /// impl): the number of stored intervals intersecting the end-inclusive
    /// range `[first, last]`.
    #[verifier::external_body]
    pub fn query_count(&self, first: i32, last: i32) -> (r: usize)
        ensures
            r == overlapping(coitree_entries(*self), first, last).len(),
    {
        self.tree.query_count(first, last)
    }

    /// Relies on `coitrees::BasicCOITree::query`: visits exactly the stored
    /// intervals intersecting the end-inclusive range `[first, last]`, each
    /// once, in an order the tree layout decides.
    #[verifier::external_body]
    pub fn query_collect(&self, first: i32, last: i32) -> (r: Vec<EvEntry>)
        ensures
            r@.to_multiset() == overlapping(coitree_entries(*self), first, last),
    {
        let mut out: Vec<EvEntry> = Vec::new();
        self.tree.query(first, last, |n: &coitrees::IntervalNode<(u32, u32), u32>| {
            out.push((n.first, n.last, n.metadata));
        });
        out
    }

    /// Relies on `coitrees::BasicCOITree::len`: the number of stored
    /// intervals.
    #[verifier::external_body]
    pub fn len(&self) -> (r: usize)
        ensures
            r == coitree_entries(*self).len(),
    {
        self.tree.len()
    }
}

/// Sequence names are pairwise distinct.
pub open spec fn names_distinct(ns: Seq<Seq<char>>) -> bool {
    forall|i: int, j: int| 0 <= i < j < ns.len() ==> ns[i] != ns[j]
}

/// A stored entry is well-formed for a name table of `n_names` entries.
pub open spec fn ent_wf(e: EvEntry, n_names: int) -> bool {
    0 <= e.0 <= e.1 && (e.2.1 as int) < n_names
}

/// The two-axis evidence index: one interval tree per axis holding (line,
/// name id) payloads, plus the interned sequence names the ids refer to.
pub struct Index {
    pub target_index: EvidenceTree,
    pub query_index: EvidenceTree,
    pub names: Vec<String>,
}

impl Index {
    /// The query-axis evidence.
    pub open spec fn q_entries(&self) -> Multiset<EvEntry> {
        coitree_entries(self.query_index)
    }

    /// The target-axis evidence.
    pub open spec fn t_entries(&self) -> Multiset<EvEntry> {
        coitree_entries(self.target_index)
    }

    /// The interned names.
    pub open spec fn names_seq(&self) -> Seq<Seq<char>> {
        self.names.deep_view()
    }

    /// Names are distinct and every stored entry is a well-formed interval
    /// tagged with a valid name id.
    pub open spec fn wf(&self) -> bool {
        &&& names_distinct(self.names_seq())
        &&& forall|e: EvEntry|
            #[trigger] self.q_entries().count(e) > 0 ==> ent_wf(e, self.names_seq().len() as int)
        &&& forall|e: EvEntry|
            #[trigger] self.t_entries().count(e) > 0 ==> ent_wf(e, self.names_seq().len() as int)
    }
}

/// Id of `name` in the table, interning it at the end when absent.
fn intern_name(names: &mut Vec<String>, name: &str) -> (id: u32)
    requires
        names_distinct(old(names).deep_view()),
        old(names)@.len() < 0xffff_ffff,
    ensures
        names_distinct(final(names).deep_view()),
        old(names).deep_view().is_prefix_of(final(names).deep_view()),
        final(names)@.len() <= old(names)@.len() + 1,
        (id as int) < final(names).deep_view().len(),
        final(names).deep_view()[id as int] == name@,
{
    let key = String::from_str(name);
    let n = names.len();
    let mut k: usize = 0;
    proof {
        assert(names.deep_view().subrange(0, names.deep_view().len() as int) =~= names.deep_view());
        assert(names.deep_view() == old(names).deep_view());
    }
    while k < n
        invariant
            n == names@.len(),
            n < 0xffff_ffff,
            k <= n,
            key@ == name@,
            names@ == old(names)@,
            names.deep_view() == old(names).deep_view(),
            names_distinct(names.deep_view()),
            forall|i: int| 0 <= i < k ==> names.deep_view()[i] != name@,
        decreases n - k,
    {
        if names[k] == key {
            proof {
                assert(names.deep_view()[k as int] == names@[k as int]@);
            }
            return k as u32;
        }
        proof {
            assert(names.deep_view()[k as int] == names@[k as int]@);
        }
        k = k + 1;
    }
    let ghost pre = names.deep_view();
    names.push(key);
    proof {
        assert(names.deep_view() =~= pre.push(name@));
        assert(names.deep_view().subrange(0, pre.len() as int) =~= pre);
        assert forall|i: int, j: int|
            0 <= i < j < names.deep_view().len() implies names.deep_view()[i]
            != names.deep_view()[j] by {
            if j == pre.len() as int {
                assert(names.deep_view()[i] == pre[i]);
            }
        }
    }
    n as u32
}

/// One axis's evidence, tagged with source line and sequence name.
pub open spec fn tag_evidence(ivs: Seq<(int, int)>, line: int, name: Seq<char>) -> Seq<
    (int, int, int, Seq<char>),
> {
    ivs.map_values(|iv: (int, int)| (iv.0, iv.1, line, name))
}

/// All query-axis evidence of a list of alignments, in record order.
pub open spec fn q_evidence(alns: Seq<PafAlignment>) -> Seq<(int, int, int, Seq<char>)>
    decreases alns.len(),
{
    if alns.len() == 0 {
        seq![]
    } else {
        q_evidence(alns.drop_last()) + tag_evidence(
            match_intervals_spec(false, alns.last().cigar@, alns.last().query_start as int),
            alns.len() - 1,
            alns.last().query@,
        )
    }
}

/// All target-axis evidence of a list of alignments, in record order.
pub open spec fn t_evidence(alns: Seq<PafAlignment>) -> Seq<(int, int, int, Seq<char>)>
    decreases alns.len(),
{
    if alns.len() == 0 {
        seq![]
    } else {
        t_evidence(alns.drop_last()) + tag_evidence(
            match_intervals_spec(true, alns.last().cigar@, alns.last().target_start as int),
            alns.len() - 1,
            alns.last().target@,
        )
    }
}

/// Can these alignments be indexed?  Every edit script walks without error on
/// both axes and every evidence coordinate fits the range the index's tree
/// construction can hold.
pub open spec fn paf_indexable(alns: Seq<PafAlignment>) -> bool {
    &&& forall|k: int|
        0 <= k < alns.len() ==> cigar_ok(
            true,
            (#[trigger] alns[k]).cigar@,
            alns[k].target_start as int,
        ) && cigar_ok(false, alns[k].cigar@, alns[k].query_start as int)
    &&& forall|k: int, j: int|
        0 <= k < alns.len() && 0 <= j < match_intervals_spec(
            true,
            (#[trigger] alns[k]).cigar@,
            alns[k].target_start as int,
        ).len() ==> (#[trigger] match_intervals_spec(
            true,
            alns[k].cigar@,
            alns[k].target_start as int,
        )[j]).1 <= 0x3fff_ffff
    &&& forall|k: int, j: int|
        0 <= k < alns.len() && 0 <= j < match_intervals_spec(
            false,
            (#[trigger] alns[k]).cigar@,
            alns[k].query_start as int,
        ).len() ==> (#[trigger] match_intervals_spec(
            false,
            alns[k].cigar@,
            alns[k].query_start as int,
        )[j]).1 <= 0x3fff_ffff
    &&& alns.len() < 0x7fff_ffff
    &&& q_evidence(alns).len() < 0xffff_ffff
    &&& t_evidence(alns).len() < 0xffff_ffff
}

/// A list of stored entries realizes a list of evidence under a name table:
/// same coordinates and lines, and each id resolves to the evidence's name.
pub open spec fn ids_match(
    es: Seq<EvEntry>,
    evs: Seq<(int, int, int, Seq<char>)>,
    ns: Seq<Seq<char>>,
) -> bool {
    &&& es.len() == evs.len()
    &&& forall|k: int|
        0 <= k < es.len() ==> {
            let e = #[trigger] es[k];
            &&& e.0 as int == evs[k].0
            &&& e.1 as int == evs[k].1
            &&& e.2.0 as int == evs[k].2
            &&& (e.2.1 as int) < ns.len()
            &&& ns[e.2.1 as int] == evs[k].3
        }
}

/// A realization stays one when the name table grows at the end.
proof fn lemma_ids_match_grow(
    es: Seq<EvEntry>,
    evs: Seq<(int, int, int, Seq<char>)>,
    ns: Seq<Seq<char>>,
    ns2: Seq<Seq<char>>,
)
    requires
        ids_match(es, evs, ns),
        ns.is_prefix_of(ns2),
    ensures
        ids_match(es, evs, ns2),
{
    assert forall|k: int| 0 <= k < es.len() implies {
        let e = #[trigger] es[k];
        &&& e.0 as int == evs[k].0
        &&& e.1 as int == evs[k].1
        &&& e.2.0 as int == evs[k].2
        &&& (e.2.1 as int) < ns2.len()
        &&& ns2[e.2.1 as int] == evs[k].3
    } by {
        assert(ns[es[k].2.1 as int] == ns2.subrange(0, ns.len() as int)[es[k].2.1 as int]);
    }
}

/// Both walks of one script succeed with the same running count state, so
/// they emit the same number of intervals.
proof fn lemma_axes_walk(s: Seq<char>, st: int, sq: int)
    ensures
        ({
            let wt = cigar_walk(true, s, st);
            let wq = cigar_walk(false, s, sq);
            (wt.err is None && wq.err is None) ==> (wt.buf == wq.buf && wt.buf_len == wq.buf_len
                && wt.ivs.len() == wq.ivs.len())
        }),
    decreases s.len(),
{
    if s.len() > 0 {
        lemma_axes_walk(s.drop_last(), st, sq);
    }
}

/// Both axes of an indexable record list carry the same number of evidence
/// intervals.
pub proof fn lemma_q_t_evidence_len_eq(alns: Seq<PafAlignment>)
    requires
        forall|k: int|
            0 <= k < alns.len() ==> cigar_ok(
                true,
                (#[trigger] alns[k]).cigar@,
                alns[k].target_start as int,
            ) && cigar_ok(false, alns[k].cigar@, alns[k].query_start as int),
    ensures
        q_evidence(alns).len() == t_evidence(alns).len(),
    decreases alns.len(),
{
    if alns.len() > 0 {
        let pre = alns.drop_last();
        assert(forall|k: int| 0 <= k < pre.len() ==> pre[k] == alns[k]);
        lemma_q_t_evidence_len_eq(pre);
        let a = alns.last();
        assert(a == alns[alns.len() - 1]);
        lemma_axes_walk(a.cigar@, a.target_start as int, a.query_start as int);
    }
}

/// Every evidence interval has ordered non-negative endpoints.
proof fn lemma_evidence_wf(alns: Seq<PafAlignment>, is_target: bool)
    ensures
        is_target ==> forall|k: int|
            0 <= k < t_evidence(alns).len() ==> 0 <= (#[trigger] t_evidence(alns)[k]).0
                <= t_evidence(alns)[k].1,
        !is_target ==> forall|k: int|
            0 <= k < q_evidence(alns).len() ==> 0 <= (#[trigger] q_evidence(alns)[k]).0
                <= q_evidence(alns)[k].1,
    decreases alns.len(),
{
    if alns.len() > 0 {
        let pre = alns.drop_last();
        lemma_evidence_wf(pre, is_target);
        let a = alns.last();
        if is_target {
            lemma_cigar_walk_wf(true, a.cigar@, a.target_start as int);
            let ivs = match_intervals_spec(true, a.cigar@, a.target_start as int);
            let tag = tag_evidence(ivs, alns.len() - 1, a.target@);
            assert(t_evidence(alns) == t_evidence(pre) + tag);
            assert forall|k: int| 0 <= k < t_evidence(alns).len() implies 0 <= (
            #[trigger] t_evidence(alns)[k]).0 <= t_evidence(alns)[k].1 by {
                if k < t_evidence(pre).len() {
                    assert(t_evidence(alns)[k] == t_evidence(pre)[k]);
                } else {
                    assert(t_evidence(alns)[k] == tag[k - t_evidence(pre).len()]);
                    assert(tag[k - t_evidence(pre).len()].0 == ivs[k - t_evidence(pre).len()].0);
                }
            }
        } else {
            lemma_cigar_walk_wf(false, a.cigar@, a.query_start as int);
            let ivs = match_intervals_spec(false, a.cigar@, a.query_start as int);
            let tag = tag_evidence(ivs, alns.len() - 1, a.query@);
            assert(q_evidence(alns) == q_evidence(pre) + tag);
            assert forall|k: int| 0 <= k < q_evidence(alns).len() implies 0 <= (
            #[trigger] q_evidence(alns)[k]).0 <= q_evidence(alns)[k].1 by {
                if k < q_evidence(pre).len() {
                    assert(q_evidence(alns)[k] == q_evidence(pre)[k]);
                } else {
                    assert(q_evidence(alns)[k] == tag[k - q_evidence(pre).len()]);
                    assert(tag[k - q_evidence(pre).len()].0 == ivs[k - q_evidence(pre).len()].0);
                }
            }
        }
    }
}

/// Every evidence interval of an indexable record list stops within the
/// range the tree construction can hold.
proof fn lemma_evidence_bounds(alns: Seq<PafAlignment>, is_target: bool)
    requires
        is_target ==> forall|k: int, j: int|
            0 <= k < alns.len() && 0 <= j < match_intervals_spec(
                true,
                (#[trigger] alns[k]).cigar@,
                alns[k].target_start as int,
            ).len() ==> (#[trigger] match_intervals_spec(
                true,
                alns[k].cigar@,
                alns[k].target_start as int,
            )[j]).1 <= 0x3fff_ffff,
        !is_target ==> forall|k: int, j: int|
            0 <= k < alns.len() && 0 <= j < match_intervals_spec(
                false,
                (#[trigger] alns[k]).cigar@,
                alns[k].query_start as int,
            ).len() ==> (#[trigger] match_intervals_spec(
                false,
                alns[k].cigar@,
                alns[k].query_start as int,
            )[j]).1 <= 0x3fff_ffff,
    ensures
        is_target ==> forall|k: int|
            0 <= k < t_evidence(alns).len() ==> (#[trigger] t_evidence(alns)[k]).1 <= 0x3fff_ffff,
        !is_target ==> forall|k: int|
            0 <= k < q_evidence(alns).len() ==> (#[trigger] q_evidence(alns)[k]).1 <= 0x3fff_ffff,
    decreases alns.len(),
{
    if alns.len() > 0 {
        let pre = alns.drop_last();
        if is_target {
            assert forall|k: int, j: int|
                0 <= k < pre.len() && 0 <= j < match_intervals_spec(
                    true,
                    (#[trigger] pre[k]).cigar@,
                    pre[k].target_start as int,
                ).len() implies (#[trigger] match_intervals_spec(
                true,
                pre[k].cigar@,
                pre[k].target_start as int,
            )[j]).1 <= 0x3fff_ffff by {
                assert(pre[k] == alns[k]);
            }
            lemma_evidence_bounds(pre, is_target);
            let a = alns.last();
            assert(a == alns[alns.len() - 1]);
            let ivs = match_intervals_spec(true, a.cigar@, a.target_start as int);
            let tag = tag_evidence(ivs, alns.len() - 1, a.target@);
            assert(t_evidence(alns) == t_evidence(pre) + tag);
            assert forall|k: int| 0 <= k < t_evidence(alns).len() implies (
            #[trigger] t_evidence(alns)[k]).1 <= 0x3fff_ffff by {
                if k < t_evidence(pre).len() {
                    assert(t_evidence(alns)[k] == t_evidence(pre)[k]);
                } else {
                    assert(t_evidence(alns)[k] == tag[k - t_evidence(pre).len()]);
                    assert(tag[k - t_evidence(pre).len()].1 == ivs[k - t_evidence(pre).len()].1);
                }
            }
        } else {
            assert forall|k: int, j: int|
                0 <= k < pre.len() && 0 <= j < match_intervals_spec(
                    false,
                    (#[trigger] pre[k]).cigar@,
                    pre[k].query_start as int,
                ).len() implies (#[trigger] match_intervals_spec(
                false,
                pre[k].cigar@,
                pre[k].query_start as int,
            )[j]).1 <= 0x3fff_ffff by {
                assert(pre[k] == alns[k]);
            }
            lemma_evidence_bounds(pre, is_target);
            let a = alns.last();
            assert(a == alns[alns.len() - 1]);
            let ivs = match_intervals_spec(false, a.cigar@, a.query_start as int);
            let tag = tag_evidence(ivs, alns.len() - 1, a.query@);
            assert(q_evidence(alns) == q_evidence(pre) + tag);
            assert forall|k: int| 0 <= k < q_evidence(alns).len() implies (
            #[trigger] q_evidence(alns)[k]).1 <= 0x3fff_ffff by {
                if k < q_evidence(pre).len() {
                    assert(q_evidence(alns)[k] == q_evidence(pre)[k]);
                } else {
                    assert(q_evidence(alns)[k] == tag[k - q_evidence(pre).len()]);
                    assert(tag[k - q_evidence(pre).len()].1 == ivs[k - q_evidence(pre).len()].1);
                }
            }
        }
    }
}

/// Build the two-axis evidence index from a mapping file's records: walk each
/// record's edit script on both axes, tag every matched interval with the
/// record's line number and sequence name, and index each axis.  Both axes
/// hold one entry per match operation of each record, so their totals agree.
pub fn index_paf_matches(p: &PAF) -> (r: Index)
    requires
        paf_indexable(p.alignments_view()),
    ensures
        r.wf(),
        r.names_seq().len() <= 2 * p.alignments_view().len(),
        r.q_entries().len() == q_evidence(p.alignments_view()).len(),
        r.t_entries().len() == t_evidence(p.alignments_view()).len(),
        r.q_entries().len() == r.t_entries().len(),
        exists|qs: Seq<EvEntry>|
            #[trigger] qs.to_multiset() == r.q_entries() && ids_match(
                qs,
                q_evidence(p.alignments_view()),
                r.names_seq(),
            ),
        exists|ts: Seq<EvEntry>|
            #[trigger] ts.to_multiset() == r.t_entries() && ids_match(
                ts,
                t_evidence(p.alignments_view()),
                r.names_seq(),
            ),
{
    broadcast use vstd::seq_lib::group_to_multiset_ensures;

    let alignments = p.get_alignments();
    let ghost alns = p.alignments_view();
    let mut q_items: Vec<EvEntry> = Vec::new();
    let mut t_items: Vec<EvEntry> = Vec::new();
    let mut names: Vec<String> = Vec::new();
    let mut i: usize = 0;
    proof {
        assert(alns.subrange(0, 0) =~= Seq::<PafAlignment>::empty());
    }
    while i < alignments.len()
        invariant
            alns == p.alignments_view(),
            alignments@ == alns,
            paf_indexable(alns),
            i <= alns.len(),
            names_distinct(names.deep_view()),
            names@.len() <= 2 * i,
            names@.len() == names.deep_view().len(),
            i <= alns.len(),
            ids_match(q_items@, q_evidence(alns.subrange(0, i as int)), names.deep_view()),
            ids_match(t_items@, t_evidence(alns.subrange(0, i as int)), names.deep_view()),
        decreases alns.len() - i,
    {
        let a = &alignments[i];
        proof {
            lemma_evidence_len_bound(alns, i as int);
        }
        let t_ivs = compute_match_intervals(
            SequenceType::Target,
            a.strand,
            a.target_start,
            a.target_end,
            a.cigar.as_str(),
            a.target.as_str(),
            i,
        );
        let q_ivs = compute_match_intervals(
            SequenceType::Query,
            a.strand,
            a.query_start,
            a.query_end,
            a.cigar.as_str(),
            a.query.as_str(),
            i,
        );
        let ghost names0 = names.deep_view();
        let tid = intern_name(&mut names, a.target.as_str());
        let ghost names1 = names.deep_view();
        let qid = intern_name(&mut names, a.query.as_str());
        let ghost names2 = names.deep_view();
        proof {
            lemma_prefix_trans(names0, names1, names2);
            lemma_ids_match_grow(
                q_items@,
                q_evidence(alns.subrange(0, i as int)),
                names0,
                names2,
            );
            lemma_ids_match_grow(
                t_items@,
                t_evidence(alns.subrange(0, i as int)),
                names0,
                names2,
            );
            assert(names2[tid as int] == a.target@) by {
                if (tid as int) < names1.len() {
                    assert(names1[tid as int] == names2.subrange(0, names1.len() as int)[
                        tid as int]);
                }
            }
            assert(names2[qid as int] == a.query@);
            lemma_cigar_walk_wf(true, a.cigar@, a.target_start as int);
            lemma_cigar_walk_wf(false, a.cigar@, a.query_start as int);
        }
        let ghost spec_t = match_intervals_spec(true, a.cigar@, a.target_start as int);
        let ghost spec_q = match_intervals_spec(false, a.cigar@, a.query_start as int);
        // target-axis entries of this record
        let mut j: usize = 0;
        let ghost t0 = t_items@;
        while j < t_ivs.len()
            invariant
                alns == p.alignments_view(),
                paf_indexable(alns),
                i < alns.len(),
                alns[i as int] == alignments@[i as int],
                spec_t == match_intervals_spec(
                    true,
                    alns[i as int].cigar@,
                    alns[i as int].target_start as int,
                ),
                t_ivs@.len() == spec_t.len(),
                forall|m: int|
                    0 <= m < spec_t.len() ==> (#[trigger] t_ivs@[m])@ == (
                        spec_t[m].0,
                        spec_t[m].1,
                        i as int,
                        alns[i as int].target@,
                    ),
                forall|m: int| 0 <= m < spec_t.len() ==> 0 <= (#[trigger] spec_t[m]).0
                    <= spec_t[m].1,
                j <= t_ivs@.len(),
                (tid as int) < names2.len(),
                names2[tid as int] == alns[i as int].target@,
                i < 0x7fff_ffff,
                t_items@.len() == t0.len() + j,
                forall|m: int| 0 <= m < t0.len() ==> #[trigger] t_items@[m] == t0[m],
                forall|m: int|
                    0 <= m < j ==> {
                        let e = #[trigger] t_items@[t0.len() + m];
                        &&& e.0 as int == spec_t[m].0
                        &&& e.1 as int == spec_t[m].1
                        &&& e.2.0 as int == i as int
                        &&& e.2.1 == tid
                    },
                ids_match(t0, t_evidence(alns.subrange(0, i as int)), names2),
                names2 == names.deep_view(),
            decreases t_ivs@.len() - j,
        {
            let iv = &t_ivs[j];
            t_items.push((iv.0 as i32, iv.1 as i32, (i as u32, tid)));
            j = j + 1;
        }
        proof {
            let tag_t = tag_evidence(spec_t, i as int, alns[i as int].target@);
            assert(ids_match(t_items@, t_evidence(alns.subrange(0, i as int)) + tag_t, names2))
                by {
                assert forall|m: int| 0 <= m < t_items@.len() implies {
                    let e = #[trigger] t_items@[m];
                    let evs = t_evidence(alns.subrange(0, i as int)) + tag_t;
                    &&& e.0 as int == evs[m].0
                    &&& e.1 as int == evs[m].1
                    &&& e.2.0 as int == evs[m].2
                    &&& (e.2.1 as int) < names2.len()
                    &&& names2[e.2.1 as int] == evs[m].3
                } by {
                    let evs = t_evidence(alns.subrange(0, i as int)) + tag_t;
                    if m < t0.len() {
                        assert(t_items@[m] == t0[m]);
                        assert(evs[m] == t_evidence(alns.subrange(0, i as int))[m]);
                    } else {
                        let mm = m - t0.len();
                        assert(t_items@[t0.len() as int + mm] == t_items@[m]);
                        assert(evs[m] == tag_t[m - t0.len()]);
                        assert(tag_t[m - t0.len()] == (
                            spec_t[m - t0.len()].0,
                            spec_t[m - t0.len()].1,
                            i as int,
                            alns[i as int].target@,
                        ));
                    }
                }
            }
            assert(ids_match(t_items@, t_evidence(alns.subrange(0, i + 1)), names2));
        }
        // query-axis entries of this record
        let mut j2: usize = 0;
        let ghost q0 = q_items@;
        while j2 < q_ivs.len()
            invariant
                alns == p.alignments_view(),
                paf_indexable(alns),
                i < alns.len(),
                alns[i as int] == alignments@[i as int],
                spec_q == match_intervals_spec(
                    false,
                    alns[i as int].cigar@,
                    alns[i as int].query_start as int,
                ),
                q_ivs@.len() == spec_q.len(),
                forall|m: int|
                    0 <= m < spec_q.len() ==> (#[trigger] q_ivs@[m])@ == (
                        spec_q[m].0,
                        spec_q[m].1,
                        i as int,
                        alns[i as int].query@,
                    ),
                forall|m: int| 0 <= m < spec_q.len() ==> 0 <= (#[trigger] spec_q[m]).0
                    <= spec_q[m].1,
                j2 <= q_ivs@.len(),
                (qid as int) < names2.len(),
                names2[qid as int] == alns[i as int].query@,
                i < 0x7fff_ffff,
                q_items@.len() == q0.len() + j2,
                forall|m: int| 0 <= m < q0.len() ==> #[trigger] q_items@[m] == q0[m],
                forall|m: int|
                    0 <= m < j2 ==> {
                        let e = #[trigger] q_items@[q0.len() + m];
                        &&& e.0 as int == spec_q[m].0
                        &&& e.1 as int == spec_q[m].1
                        &&& e.2.0 as int == i as int
                        &&& e.2.1 == qid
                    },
                ids_match(q0, q_evidence(alns.subrange(0, i as int)), names2),
                ids_match(t_items@, t_evidence(alns.subrange(0, i + 1)), names2),
                names2 == names.deep_view(),
            decreases q_ivs@.len() - j2,
        {
            let iv = &q_ivs[j2];
            q_items.push((iv.0 as i32, iv.1 as i32, (i as u32, qid)));
            j2 = j2 + 1;
        }
        proof {
            let tag_q = tag_evidence(spec_q, i as int, alns[i as int].query@);
            assert(ids_match(q_items@, q_evidence(alns.subrange(0, i as int)) + tag_q, names2))
                by {
                assert forall|m: int| 0 <= m < q_items@.len() implies {
                    let e = #[trigger] q_items@[m];
                    let evs = q_evidence(alns.subrange(0, i as int)) + tag_q;
                    &&& e.0 as int == evs[m].0
                    &&& e.1 as int == evs[m].1
                    &&& e.2.0 as int == evs[m].2
                    &&& (e.2.1 as int) < names2.len()
                    &&& names2[e.2.1 as int] == evs[m].3
                } by {
                    let evs = q_evidence(alns.subrange(0, i as int)) + tag_q;
                    if m < q0.len() {
                        assert(q_items@[m] == q0[m]);
                        assert(evs[m] == q_evidence(alns.subrange(0, i as int))[m]);
                    } else {
                        let mm = m - q0.len();
                        assert(q_items@[q0.len() as int + mm] == q_items@[m]);
                        assert(evs[m] == tag_q[m - q0.len()]);
                        assert(tag_q[m - q0.len()] == (
                            spec_q[m - q0.len()].0,
                            spec_q[m - q0.len()].1,
                            i as int,
                            alns[i as int].query@,
                        ));
                    }
                }
            }
            assert(ids_match(q_items@, q_evidence(alns.subrange(0, i + 1)), names2));
        }
        i = i + 1;
    }
    proof {
        assert(alns.subrange(0, alns.len() as int) =~= alns);
        assert forall|k: int|
            0 <= k < alns.len() implies cigar_ok(
            true,
            (#[trigger] alns[k]).cigar@,
            alns[k].target_start as int,
        ) && cigar_ok(false, alns[k].cigar@, alns[k].query_start as int) by {}
        lemma_q_t_evidence_len_eq(alns);
    }
    proof {
        lemma_evidence_wf(alns, false);
        lemma_evidence_wf(alns, true);
        lemma_evidence_bounds(alns, false);
        lemma_evidence_bounds(alns, true);
        assert forall|k: int| 0 <= k < q_items@.len() implies 0 <= (#[trigger] q_items@[k]).0
            && q_items@[k].0 <= q_items@[k].1 && q_items@[k].1 <= 0x3fff_ffff by {
            assert(0 <= q_evidence(alns)[k].0 <= q_evidence(alns)[k].1);
            assert(q_evidence(alns)[k].1 <= 0x3fff_ffff);
        }
        assert forall|k: int| 0 <= k < t_items@.len() implies 0 <= (#[trigger] t_items@[k]).0
            && t_items@[k].0 <= t_items@[k].1 && t_items@[k].1 <= 0x3fff_ffff by {
            assert(0 <= t_evidence(alns)[k].0 <= t_evidence(alns)[k].1);
            assert(t_evidence(alns)[k].1 <= 0x3fff_ffff);
        }
    }
    let query_index = coitree_build(&q_items);
    let target_index = coitree_build(&t_items);
    let r = Index { target_index, query_index, names };
    proof {
        assert(r.q_entries() == q_items@.to_multiset());
        assert(r.t_entries() == t_items@.to_multiset());
        lemma_evidence_wf(alns, false);
        lemma_evidence_wf(alns, true);
        assert forall|e: EvEntry| #[trigger] r.q_entries().count(e) > 0 implies ent_wf(
            e,
            r.names_seq().len() as int,
        ) by {
            assert(q_items@.to_multiset().count(e) > 0);
            assert(q_items@.contains(e));
            let k = choose|k: int| 0 <= k < q_items@.len() && q_items@[k] == e;
            assert(0 <= q_evidence(alns)[k].0 <= q_evidence(alns)[k].1);
        }
        assert forall|e: EvEntry| #[trigger] r.t_entries().count(e) > 0 implies ent_wf(
            e,
            r.names_seq().len() as int,
        ) by {
            assert(t_items@.to_multiset().count(e) > 0);
            assert(t_items@.contains(e));
            let k = choose|k: int| 0 <= k < t_items@.len() && t_items@[k] == e;
            assert(0 <= t_evidence(alns)[k].0 <= t_evidence(alns)[k].1);
        }
    }
    r
}

/// Prefixes compose.
proof fn lemma_prefix_trans(a: Seq<Seq<char>>, b: Seq<Seq<char>>, c: Seq<Seq<char>>)
    requires
        a.is_prefix_of(b),
        b.is_prefix_of(c),
    ensures
        a.is_prefix_of(c),
{
    assert(a =~= c.subrange(0, a.len() as int)) by {
        assert forall|i: int| 0 <= i < a.len() implies a[i] == c.subrange(0, a.len() as int)[i] by {
            assert(a[i] == b.subrange(0, a.len() as int)[i]);
            assert(b[i] == c.subrange(0, b.len() as int)[i]);
        }
    }
}

/// The evidence of a one-longer prefix of the records extends the evidence
/// of the shorter prefix by the new record's tagged intervals.
proof fn lemma_evidence_len_bound(alns: Seq<PafAlignment>, i: int)
    requires
        0 <= i < alns.len(),
        q_evidence(alns).len() < 0xffff_ffff,
        t_evidence(alns).len() < 0xffff_ffff,
    ensures
        q_evidence(alns.subrange(0, i + 1)).len() <= q_evidence(alns).len(),
        t_evidence(alns.subrange(0, i + 1)).len() <= t_evidence(alns).len(),
        q_evidence(alns.subrange(0, i + 1)) == q_evidence(alns.subrange(0, i)) + tag_evidence(
            match_intervals_spec(false, alns[i].cigar@, alns[i].query_start as int),
            i,
            alns[i].query@,
        ),
        t_evidence(alns.subrange(0, i + 1)) == t_evidence(alns.subrange(0, i)) + tag_evidence(
            match_intervals_spec(true, alns[i].cigar@, alns[i].target_start as int),
            i,
            alns[i].target@,
        ),
    decreases alns.len() - i,
{
    let p1 = alns.subrange(0, i + 1);
    assert(p1.drop_last() =~= alns.subrange(0, i));
    assert(p1.last() == alns[i]);
    if i + 1 == alns.len() {
        assert(alns.subrange(0, i + 1) =~= alns);
    } else {
        lemma_evidence_len_bound(alns, i + 1);
        let p2 = alns.subrange(0, i + 2);
        assert(p2.drop_last() =~= alns.subrange(0, i + 1));
        assert(p2.last() == alns[i + 1]);
    }
}

} // verus!
