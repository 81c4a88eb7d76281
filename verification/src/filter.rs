//! Segment generation and the windowed evidence filter.

pub mod filter;
pub mod index;
pub mod types;

use vstd::prelude::*;
use crate::filter::index::{coitree_build_public, EvEntry, Index};
use crate::filter::types::Segment;

verus! {

/// A small built-in evidence index over one sequence pair, for exercising
/// the filter: the query axis holds matches over `[1, 5)` and `[6, 9)` from
/// line 1 and `[14, 24)` and `[26, 31)` from line 2; the target axis holds
/// `[3, 8)` and `[7, 10)` from line 1 and `[36, 46)` and `[48, 53)` from
/// line 2.  The query sequence is named `q`, the target `t`.
pub fn build_index() -> (r: Index)
    ensures
        r.wf(),
        r.names_seq().len() == 2,
        r.names_seq()[0] == "q"@,
        r.names_seq()[1] == "t"@,
        r.q_entries() == seq![
            (1i32, 5i32, (1u32, 0u32)),
            (6i32, 9i32, (1u32, 0u32)),
            (14i32, 24i32, (2u32, 0u32)),
            (26i32, 31i32, (2u32, 0u32)),
        ].to_multiset(),
        r.t_entries() == seq![
            (3i32, 8i32, (1u32, 1u32)),
            (7i32, 10i32, (1u32, 1u32)),
            (36i32, 46i32, (2u32, 1u32)),
            (48i32, 53i32, (2u32, 1u32)),
        ].to_multiset(),
{
    broadcast use vstd::seq_lib::group_to_multiset_ensures;
    broadcast use vstd::multiset::group_multiset_axioms;

    let mut q_items: Vec<EvEntry> = Vec::new();
    q_items.push((1, 5, (1, 0)));
    q_items.push((6, 9, (1, 0)));
    q_items.push((14, 24, (2, 0)));
    q_items.push((26, 31, (2, 0)));
    let mut t_items: Vec<EvEntry> = Vec::new();
    t_items.push((3, 8, (1, 1)));
    t_items.push((7, 10, (1, 1)));
    t_items.push((36, 46, (2, 1)));
    t_items.push((48, 53, (2, 1)));
    let mut names: Vec<String> = Vec::new();
    names.push(String::from_str("q"));
    names.push(String::from_str("t"));
    proof {
        assert(q_items@ =~= seq![
            (1i32, 5i32, (1u32, 0u32)),
            (6i32, 9i32, (1u32, 0u32)),
            (14i32, 24i32, (2u32, 0u32)),
            (26i32, 31i32, (2u32, 0u32)),
        ]);
        assert(t_items@ =~= seq![
            (3i32, 8i32, (1u32, 1u32)),
            (7i32, 10i32, (1u32, 1u32)),
            (36i32, 46i32, (2u32, 1u32)),
            (48i32, 53i32, (2u32, 1u32)),
        ]);
        reveal_strlit("q");
        reveal_strlit("t");
        assert(names.deep_view() =~= seq!["q"@, "t"@]);
        assert("q"@.len() == 1);
        assert("q"@[0] == 'q');
        assert("t"@[0] == 't');
        assert("q"@ != "t"@) by {
            if "q"@ == "t"@ {
                assert("q"@[0] == "t"@[0]);
            }
        }
    }
    let query_index = coitree_build_public(&q_items);
    let target_index = coitree_build_public(&t_items);
    let r = Index { target_index, query_index, names };
    proof {
        assert forall|e: EvEntry| #[trigger] r.q_entries().count(e) > 0 implies
            crate::filter::index::ent_wf(e, r.names_seq().len() as int) by {
            assert(q_items@.contains(e));
        }
        assert forall|e: EvEntry| #[trigger] r.t_entries().count(e) > 0 implies
            crate::filter::index::ent_wf(e, r.names_seq().len() as int) by {
            assert(t_items@.contains(e));
        }
    }
    r
}

/// Minimum of two lengths.
pub open spec fn min_len(a: int, b: int) -> int {
    if a <= b {
        a
    } else {
        b
    }
}

/// The windows emitted from `start` onward: each spans `seg_len` positions on
/// both axes, except the last, which is clipped to the true lengths; `step`
/// is the distance between window starts.
pub open spec fn seg_from(tlen: int, qlen: int, seg_len: int, step: int, start: int) -> Seq<
    ((int, int), (int, int)),
>
    decreases min_len(tlen, qlen) - start
        when 1 <= step <= seg_len && 0 <= start

{
    let stop = start + seg_len;
    if stop >= min_len(tlen, qlen) {
        seq![((start, tlen), (start, qlen))]
    } else {
        seq![((start, stop), (start, stop))] + seg_from(tlen, qlen, seg_len, step, start + step)
    }
}

/// All probe windows for a candidate pair of sequence lengths: none when one
/// length is zero, else windows from position zero stepped by `step`.
pub open spec fn segments_spec(tlen: int, qlen: int, seg_len: int, step: int) -> Seq<
    ((int, int), (int, int)),
> {
    if min_len(tlen, qlen) == 0 {
        seq![]
    } else {
        seg_from(tlen, qlen, seg_len, step, 0)
    }
}

/// Every window from `start` onward lies inside the sequences and is
/// non-empty on both axes.
pub proof fn lemma_seg_from_bounds(tlen: int, qlen: int, seg_len: int, step: int, start: int)
    requires
        1 <= step <= seg_len,
        0 <= start < min_len(tlen, qlen),
    ensures
        forall|j: int|
            0 <= j < seg_from(tlen, qlen, seg_len, step, start).len() ==> {
                let s = #[trigger] seg_from(tlen, qlen, seg_len, step, start)[j];
                &&& 0 <= s.0.0 < s.0.1 <= tlen
                &&& 0 <= s.1.0 < s.1.1 <= qlen
                &&& s.0.0 == s.1.0
            },
    decreases min_len(tlen, qlen) - start,
{
    let stop = start + seg_len;
    let s0 = seg_from(tlen, qlen, seg_len, step, start);
    if stop >= min_len(tlen, qlen) {
        assert(s0[0] == ((start, tlen), (start, qlen)));
    } else {
        lemma_seg_from_bounds(tlen, qlen, seg_len, step, start + step);
        let rest = seg_from(tlen, qlen, seg_len, step, start + step);
        assert forall|j: int| 0 <= j < s0.len() implies {
            let s = #[trigger] s0[j];
            &&& 0 <= s.0.0 < s.0.1 <= tlen
            &&& 0 <= s.1.0 < s.1.1 <= qlen
            &&& s.0.0 == s.1.0
        } by {
            if j == 0 {
                assert(s0[0] == ((start, stop), (start, stop)));
            } else {
                assert(s0[j] == rest[j - 1]);
            }
        }
    }
}

/// The exec view of one window matches its mathematical counterpart.
pub open spec fn seg_view(s: Segment) -> ((int, int), (int, int)) {
    ((s.0.0 as int, s.0.1 as int), (s.1.0 as int, s.1.1 as int))
}

/// Core of segment generation, shared by the overlapping and abutting modes.
pub(crate) fn gen_segments_core(tlen: usize, qlen: usize, seg_len: usize, step: usize) -> (r: Vec<
    Segment,
>)
    requires
        1 <= step <= seg_len,
        min_len(tlen as int, qlen as int) + seg_len <= usize::MAX,
    ensures
        r@.map_values(|s: Segment| seg_view(s)) == segments_spec(
            tlen as int,
            qlen as int,
            seg_len as int,
            step as int,
        ),
{
    let l = if tlen <= qlen {
        tlen
    } else {
        qlen
    };
    let mut out: Vec<Segment> = Vec::new();
    if l == 0 {
        proof {
            assert(out@.map_values(|s: Segment| seg_view(s)) =~= segments_spec(
                tlen as int,
                qlen as int,
                seg_len as int,
                step as int,
            ));
        }
        return out;
    }
    let mut start: usize = 0;
    loop
        invariant
            l == min_len(tlen as int, qlen as int),
            l + seg_len <= usize::MAX,
            1 <= step <= seg_len,
            0 <= start < l,
            segments_spec(tlen as int, qlen as int, seg_len as int, step as int) == out@.map_values(
                |s: Segment| seg_view(s),
            ) + seg_from(tlen as int, qlen as int, seg_len as int, step as int, start as int),
        decreases l - start,
    {
        let ghost pre = out@.map_values(|s: Segment| seg_view(s));
        let stop = start + seg_len;
        if stop >= l {
            out.push(((start, tlen), (start, qlen)));
            proof {
                assert(out@.map_values(|s: Segment| seg_view(s)) =~= pre + seq![
                    ((start as int, tlen as int), (start as int, qlen as int)),
                ]);
            }
            return out;
        }
        out.push(((start, stop), (start, stop)));
        proof {
            assert(out@.map_values(|s: Segment| seg_view(s)) =~= pre + seq![
                ((start as int, stop as int), (start as int, stop as int)),
            ]);
            assert(pre + seg_from(
                tlen as int,
                qlen as int,
                seg_len as int,
                step as int,
                start as int,
            ) =~= (pre + seq![((start as int, stop as int), (start as int, stop as int))])
                + seg_from(
                tlen as int,
                qlen as int,
                seg_len as int,
                step as int,
                start + step,
            ));
        }
        start = start + step;
    }
}

/// Generate the 50%-overlapping probe windows covering
/// `[0, min(tlen, qlen))`: windows of `segment_length` positions advancing by
/// half that length, the final window clipped to end exactly at
/// `(tlen, qlen)`.  Zero windows exactly when one length is zero.
pub fn generate_segments(tlen: usize, qlen: usize, segment_length: usize) -> (r: Vec<Segment>)
    requires
        segment_length >= 2,
        min_len(tlen as int, qlen as int) + segment_length <= usize::MAX,
    ensures
        r@.map_values(|s: Segment| seg_view(s)) == segments_spec(
            tlen as int,
            qlen as int,
            segment_length as int,
            segment_length as int / 2,
        ),
        r@.len() == 0 <==> min_len(tlen as int, qlen as int) == 0,
{
    let step: usize = segment_length / 2;
    let r = gen_segments_core(tlen, qlen, segment_length, step);
    proof {
        if min_len(tlen as int, qlen as int) != 0 {
            assert(segments_spec(
                tlen as int,
                qlen as int,
                segment_length as int,
                segment_length as int / 2,
            ).len() >= 1);
        }
    }
    r
}

} // verus!
