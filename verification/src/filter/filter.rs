//! The filter orchestrator: probe every candidate pair window by window and
//! keep the source lines corroborated by evidence on both axes.

use vstd::prelude::*;
use vstd::multiset::Multiset;
use crate::filter::types::{MatchRegion, QueryResult, Segment, qr_key};
use crate::filter::index::{Index, EvEntry, EvidenceTree, coitree_entries, overlapping, ent_overlaps, ent_wf, names_distinct};
use crate::filter::{gen_segments_core, min_len, seg_view, segments_spec};
use crate::paf::paf::{PAF, PafAlignment, apair_key, aln_key, alns_have, lemma_metadata_spec_contains};
use crate::types::AppConfig;
use crate::wflambda::wflambda::{engine_state, stop_score, wf_align, region_sound, regions_sound};

verus! {

/// The index holds an entry with this name id intersecting this position.
pub open spec fn has_ev_id(entries: Multiset<EvEntry>, id: u32, pos: int) -> bool {
    exists|e: EvEntry| #[trigger] entries.contains(e) && e.2.1 == id && e.0 <= pos && pos <= e.1
}

/// The oracle the wavefront search consults: evidence for the query sequence
/// at the query position and for the target sequence at the target position.
pub open spec fn oracle_at(
    qe: Multiset<EvEntry>,
    te: Multiset<EvEntry>,
    qid: u32,
    tid: u32,
    qpos: int,
    tpos: int,
) -> bool {
    has_ev_id(qe, qid, qpos) && has_ev_id(te, tid, tpos)
}

/// The index holds, on one axis, an entry of this sequence name
/// intersecting position `pos`.
pub open spec fn has_name_ev(
    entries: Multiset<EvEntry>,
    ns: Seq<Seq<char>>,
    name: Seq<char>,
    pos: int,
) -> bool {
    exists|e: EvEntry|
        #[trigger] entries.contains(e) && (e.2.1 as int) < ns.len() && ns[e.2.1 as int] == name
            && e.0 <= pos && pos <= e.1
}

/// Under a well-formed name table, evidence at a position by id is evidence
/// at it by name.
proof fn lemma_ev_id_name(
    entries: Multiset<EvEntry>,
    ns: Seq<Seq<char>>,
    id: u32,
    name: Seq<char>,
    pos: int,
)
    requires
        names_distinct(ns),
        (id as int) < ns.len(),
        ns[id as int] == name,
        forall|e: EvEntry| #[trigger] entries.count(e) > 0 ==> ent_wf(e, ns.len() as int),
    ensures
        has_ev_id(entries, id, pos) == has_name_ev(entries, ns, name, pos),
{
    if has_ev_id(entries, id, pos) {
        let e = choose|e: EvEntry|
            #[trigger] entries.contains(e) && e.2.1 == id && e.0 <= pos && pos <= e.1;
        assert(entries.count(e) > 0);
        assert(has_name_ev(entries, ns, name, pos));
    }
    if has_name_ev(entries, ns, name, pos) {
        let e = choose|e: EvEntry|
            #[trigger] entries.contains(e) && (e.2.1 as int) < ns.len() && ns[e.2.1 as int]
                == name && e.0 <= pos && pos <= e.1;
        assert(entries.count(e) > 0);
        assert(e.2.1 == id) by {
            if e.2.1 != id {
                assert(ns[e.2.1 as int] == ns[id as int]);
            }
        }
        assert(has_ev_id(entries, id, pos));
    }
}

/// The match oracle of one window: a window-relative position pair satisfies
/// it when the index holds evidence under the pair's names at the
/// corresponding absolute positions of both axes.
pub open spec fn seg_oracle(
    qe: Multiset<EvEntry>,
    te: Multiset<EvEntry>,
    ns: Seq<Seq<char>>,
    qname: Seq<char>,
    tname: Seq<char>,
    qstart: int,
    tstart: int,
) -> spec_fn(int, int) -> bool {
    |vi: int, hi: int|
        has_name_ev(qe, ns, qname, qstart + vi) && has_name_ev(te, ns, tname, tstart + hi)
}

/// The regions the wavefront sweep of one window records, as a function of
/// the index contents, the pair's names, the window and the configuration.
pub open spec fn sweep_regions(
    index: Index,
    qname: Seq<char>,
    tname: Seq<char>,
    sv: ((int, int), (int, int)),
    max_score: int,
    adapt: bool,
) -> Seq<MatchRegion> {
    let tw = sv.0.1 - sv.0.0;
    let qw = sv.1.1 - sv.1.0;
    let p = seg_oracle(
        index.q_entries(),
        index.t_entries(),
        index.names_seq(),
        qname,
        tname,
        sv.1.0,
        sv.0.0,
    );
    engine_state(tw, qw, adapt, p, stop_score(tw, qw, max_score, adapt, p, 0)).3
}

/// The window a result was recorded for.
pub open spec fn qr_window(qr: QueryResult) -> ((int, int), (int, int)) {
    (
        (qr.segment_tstart as int, qr.segment_tstop as int),
        (qr.segment_qstart as int, qr.segment_qstop as int),
    )
}

/// Two entries of one line, named after the probed pair, each intersecting
/// the absolute range a sweep region covers on its axis within the window
/// `sv`.
pub open spec fn region_backs(
    index: Index,
    qname: Seq<char>,
    tname: Seq<char>,
    sv: ((int, int), (int, int)),
    rg: MatchRegion,
    eq: EvEntry,
    et: EvEntry,
    line: u32,
) -> bool {
    &&& index.q_entries().contains(eq)
    &&& index.t_entries().contains(et)
    &&& eq.2.0 == line && et.2.0 == line
    &&& (eq.2.1 as int) < index.names_seq().len() && index.names_seq()[eq.2.1 as int] == qname
    &&& (et.2.1 as int) < index.names_seq().len() && index.names_seq()[et.2.1 as int] == tname
    &&& eq.0 as int <= sv.1.0 + rg.query_stop - 1
    &&& sv.1.0 + rg.query_start <= eq.1 as int
    &&& et.0 as int <= sv.0.0 + rg.text_stop - 1
    &&& sv.0.0 + rg.text_start <= et.1 as int
}

/// A result's line is backed by the sweep: entries of that line under the
/// pair's names intersect, on their axes, one region the sweep of the
/// result's window records.
pub open spec fn key_backed(
    index: Index,
    qname: Seq<char>,
    tname: Seq<char>,
    line: u32,
    sv: ((int, int), (int, int)),
    max_score: int,
    adapt: bool,
) -> bool {
    exists|j: int, eq: EvEntry, et: EvEntry|
        0 <= j < sweep_regions(index, qname, tname, sv, max_score, adapt).len()
            && #[trigger] region_backs(
            index,
            qname,
            tname,
            sv,
            sweep_regions(index, qname, tname, sv, max_score, adapt)[j],
            eq,
            et,
            line,
        )
}

/// Is there an entry with this name id intersecting position `pos`?
fn probe(tree: &EvidenceTree, id: u32, pos: i32) -> (r: bool)
    ensures
        r == has_ev_id(coitree_entries(*tree), id, pos as int),
{
    broadcast use vstd::seq_lib::group_to_multiset_ensures;
    broadcast use vstd::multiset::group_multiset_axioms;

    let hits = tree.query_collect(pos, pos);
    let ghost m = coitree_entries(*tree);
    let mut k: usize = 0;
    while k < hits.len()
        invariant
            m == coitree_entries(*tree),
            hits@.to_multiset() == overlapping(m, pos, pos),
            k <= hits@.len(),
            forall|i: int| 0 <= i < k ==> (#[trigger] hits@[i]).2.1 != id,
        decreases hits@.len() - k,
    {
        let e = hits[k];
        if e.2.1 == id {
            proof {
                broadcast use vstd::seq_lib::group_to_multiset_ensures;
                broadcast use vstd::multiset::group_multiset_axioms;

                assert(hits@.contains(hits@[k as int]));
                assert(hits@.to_multiset().count(hits@[k as int]) > 0);
                assert(overlapping(m, pos, pos).count(hits@[k as int]) > 0);
                assert(m.count(hits@[k as int]) > 0);
                assert(coitree_entries(*tree).contains(hits@[k as int]));
                assert(ent_overlaps(hits@[k as int], pos, pos));
                assert(has_ev_id(coitree_entries(*tree), id, pos as int));
            }
            return true;
        }
        k = k + 1;
    }
    proof {
        broadcast use vstd::seq_lib::group_to_multiset_ensures;
        broadcast use vstd::multiset::group_multiset_axioms;

        if has_ev_id(m, id, pos as int) {
            let e = choose|e: EvEntry|
                #[trigger] m.contains(e) && e.2.1 == id && e.0 <= pos as int && pos as int <= e.1;
            assert(ent_overlaps(e, pos, pos));
            assert(overlapping(m, pos, pos).count(e) > 0);
            assert(hits@.to_multiset().count(e) > 0);
            assert(hits@.contains(e));
            let i = choose|i: int| 0 <= i < hits@.len() && hits@[i] == e;
            assert(hits@[i].2.1 == id);
        }
    }
    false
}

/// Id of `name` among the index's interned names, if present.
fn lookup_name_id(names: &Vec<String>, name: &str) -> (r: Option<u32>)
    requires
        names@.len() < 0xffff_ffff,
    ensures
        r is Some ==> (r->0 as int) < names.deep_view().len() && names.deep_view()[r->0 as int]
            == name@,
        r is None ==> forall|k: int| 0 <= k < names.deep_view().len() ==> names.deep_view()[k]
            != name@,
{
    let key = String::from_str(name);
    let n = names.len();
    let mut k: usize = 0;
    while k < n
        invariant
            n == names@.len(),
            n < 0xffff_ffff,
            k <= n,
            key@ == name@,
            forall|i: int| 0 <= i < k ==> names.deep_view()[i] != name@,
        decreases n - k,
    {
        if names[k] == key {
            proof {
                assert(names.deep_view()[k as int] == names@[k as int]@);
            }
            return Some(k as u32);
        }
        proof {
            assert(names.deep_view()[k as int] == names@[k as int]@);
        }
        k = k + 1;
    }
    None
}

/// A found result is backed by evidence: entries on both axes with the
/// result's line, resolving to the probed names, each intersecting the
/// result's segment on its axis.
pub open spec fn result_sound(
    qr: QueryResult,
    index: Index,
    qname: Seq<char>,
    tname: Seq<char>,
) -> bool {
    exists|eq: EvEntry, et: EvEntry|
        {
            &&& #[trigger] index.q_entries().contains(eq)
            &&& #[trigger] index.t_entries().contains(et)
            &&& eq.2.0 == qr.line && et.2.0 == qr.line
            &&& (eq.2.1 as int) < index.names_seq().len() && index.names_seq()[eq.2.1 as int]
                == qname
            &&& (et.2.1 as int) < index.names_seq().len() && index.names_seq()[et.2.1 as int]
                == tname
            &&& eq.0 as int <= qr.segment_qstop - 1 && qr.segment_qstart <= eq.1 as int
            &&& et.0 as int <= qr.segment_tstop - 1 && qr.segment_tstart <= et.1 as int
        }
}

pub open spec fn results_sound(
    rs: Seq<QueryResult>,
    index: Index,
    qname: Seq<char>,
    tname: Seq<char>,
) -> bool {
    forall|i: int| 0 <= i < rs.len() ==> result_sound(#[trigger] rs[i], index, qname, tname)
}

/// Some recorded result carries this line for this probed segment.
pub open spec fn pair_recorded(
    mr: Seq<QueryResult>,
    line: u32,
    qstart: usize,
    qstop: usize,
    tstart: usize,
    tstop: usize,
) -> bool {
    exists|i: int|
        0 <= i < mr.len() && {
            let r = #[trigger] mr[i];
            &&& r.line == line
            &&& r.segment_qstart == qstart
            &&& r.segment_qstop == qstop
            &&& r.segment_tstart == tstart
            &&& r.segment_tstop == tstop
        }
}

/// Evidence entries of one line on both axes, named after the probed pair,
/// each covering the start position of its axis's window.
pub open spec fn origin_evidence(
    index: Index,
    qname: Seq<char>,
    tname: Seq<char>,
    eq: EvEntry,
    et: EvEntry,
    qpos: int,
    tpos: int,
) -> bool {
    &&& index.q_entries().contains(eq)
    &&& index.t_entries().contains(et)
    &&& (eq.2.1 as int) < index.names_seq().len() && index.names_seq()[eq.2.1 as int] == qname
    &&& (et.2.1 as int) < index.names_seq().len() && index.names_seq()[et.2.1 as int] == tname
    &&& eq.0 as int <= qpos <= eq.1 as int
    &&& et.0 as int <= tpos <= et.1 as int
    &&& eq.2.0 == et.2.0
}

/// Every pair of evidence entries of one line, named after the probed pair,
/// whose entries intersect this region's two absolute ranges, has a recorded
/// result for this segment.
pub open spec fn region_pairs_recorded(
    mr: Seq<QueryResult>,
    index: Index,
    qid: u32,
    tid: u32,
    qstart: usize,
    qstop: usize,
    tstart: usize,
    tstop: usize,
    rg: MatchRegion,
) -> bool {
    forall|eq: EvEntry, et: EvEntry|
        #[trigger] index.q_entries().contains(eq) && #[trigger] index.t_entries().contains(et)
            && eq.2.1 == qid && et.2.1 == tid && eq.2.0 == et.2.0 && eq.0 as int <= qstart
            + rg.query_stop - 1 && qstart + rg.query_start <= eq.1 as int && et.0 as int <= tstart
            + rg.text_stop - 1 && tstart + rg.text_start <= et.1 as int ==> pair_recorded(
            mr,
            et.2.0,
            qstart,
            qstop,
            tstart,
            tstop,
        )
}

/// A recorded pair stays recorded as the result list grows at the end.
proof fn lemma_pair_recorded_grow(
    pre: Seq<QueryResult>,
    post: Seq<QueryResult>,
    line: u32,
    qstart: usize,
    qstop: usize,
    tstart: usize,
    tstop: usize,
)
    requires
        pair_recorded(pre, line, qstart, qstop, tstart, tstop),
        pre.is_prefix_of(post),
    ensures
        pair_recorded(post, line, qstart, qstop, tstart, tstop),
{
    let i = choose|i: int|
        0 <= i < pre.len() && {
            let r = #[trigger] pre[i];
            &&& r.line == line
            &&& r.segment_qstart == qstart
            &&& r.segment_qstop == qstop
            &&& r.segment_tstart == tstart
            &&& r.segment_tstop == tstop
        }
    ;
    assert(post[i] == pre[i]) by {
        assert(pre[i] == post.subrange(0, pre.len() as int)[i]);
    }
}

/// A result's recorded segment fields are exactly this window's bounds.
pub open spec fn result_in_window(qr: QueryResult, seg: Segment) -> bool {
    &&& qr.segment_qstart == seg.1.0
    &&& qr.segment_qstop == seg.1.1
    &&& qr.segment_tstart == seg.0.0
    &&& qr.segment_tstop == seg.0.1
}

/// Every result from `from` on records the bounds of one of the windows.
pub open spec fn results_in_windows(
    rs: Seq<QueryResult>,
    from: int,
    segments: Seq<Segment>,
) -> bool {
    forall|i: int|
        from <= i < rs.len() ==> exists|s: int|
            0 <= s < segments.len() && result_in_window(#[trigger] rs[i], #[trigger] segments[s])
}

/// No two results share a key.
pub open spec fn results_dedup(rs: Seq<QueryResult>) -> bool {
    forall|i: int, j: int| 0 <= i < j < rs.len() ==> qr_key(#[trigger] rs[i]) != qr_key(
        #[trigger] rs[j],
    )
}

/// Is a result with this key already recorded?
fn has_result(rs: &Vec<QueryResult>, qr: QueryResult) -> (r: bool)
    ensures
        r <==> exists|i: int| 0 <= i < rs@.len() && qr_key(#[trigger] rs@[i]) == qr_key(qr),
{
    let mut i: usize = 0;
    while i < rs.len()
        invariant
            i <= rs@.len(),
            forall|k: int| 0 <= k < i ==> qr_key(#[trigger] rs@[k]) != qr_key(qr),
        decreases rs@.len() - i,
    {
        if rs[i] == qr {
            return true;
        }
        i = i + 1;
    }
    false
}

/// Probe every window of one candidate pair with the wavefront search and
/// record, deduplicated, the evidence corroborated on both axes.
///
/// Every result appended names a line with evidence on both axes that
/// intersects the window it was found in, and carries the bounds of one of
/// the probed windows; a line is recorded for a window exactly when the
/// window's specification-level sweep backs it on both axes.
fn run_aln(
    segments: &Vec<Segment>,
    index: &Index,
    target_name: &str,
    query_name: &str,
    config: &AppConfig,
    matching_regions: &mut Vec<QueryResult>,
)
    requires
        index.wf(),
        index.names_seq().len() < 0xffff_ffff,
        forall|s: int|
            0 <= s < segments@.len() ==> {
                let sv = seg_view(#[trigger] segments@[s]);
                &&& 0 <= sv.0.0 < sv.0.1 <= 0x7fff_ffff
                &&& 0 <= sv.1.0 < sv.1.1 <= 0x7fff_ffff
                &&& (sv.0.1 - sv.0.0) + (sv.1.1 - sv.1.0) <= 0x7fff_ffff
            },
        results_dedup(old(matching_regions)@),
        results_sound(old(matching_regions)@, *index, query_name@, target_name@),
    ensures
        results_dedup(final(matching_regions)@),
        results_sound(final(matching_regions)@, *index, query_name@, target_name@),
        old(matching_regions)@.is_prefix_of(final(matching_regions)@),
        results_in_windows(final(matching_regions)@, old(matching_regions)@.len() as int, segments@),
        forall|i: int|
            old(matching_regions)@.len() <= i < final(matching_regions)@.len() ==> key_backed(
                *index,
                query_name@,
                target_name@,
                (#[trigger] final(matching_regions)@[i]).line,
                qr_window(final(matching_regions)@[i]),
                config.segment_length as int,
                config.adapt,
            ),
        forall|si: int, j: int, eq: EvEntry, et: EvEntry|
            0 <= si < segments@.len() && 0 <= j < sweep_regions(
                *index,
                query_name@,
                target_name@,
                seg_view(#[trigger] segments@[si]),
                config.segment_length as int,
                config.adapt,
            ).len() && #[trigger] region_backs(
                *index,
                query_name@,
                target_name@,
                seg_view(segments@[si]),
                sweep_regions(
                    *index,
                    query_name@,
                    target_name@,
                    seg_view(segments@[si]),
                    config.segment_length as int,
                    config.adapt,
                )[j],
                eq,
                et,
                eq.2.0,
            ) ==> pair_recorded(
                final(matching_regions)@,
                eq.2.0,
                segments@[si].1.0,
                segments@[si].1.1,
                segments@[si].0.0,
                segments@[si].0.1,
            ),
        forall|si: int, eq: EvEntry, et: EvEntry|
            0 <= si < segments@.len() && #[trigger] origin_evidence(
                *index,
                query_name@,
                target_name@,
                eq,
                et,
                seg_view(segments@[si]).1.0,
                seg_view(segments@[si]).0.0,
            ) ==> pair_recorded(
                final(matching_regions)@,
                eq.2.0,
                segments@[si].1.0,
                segments@[si].1.1,
                segments@[si].0.0,
                segments@[si].0.1,
            ),
{
    broadcast use vstd::seq_lib::group_to_multiset_ensures;
    broadcast use vstd::multiset::group_multiset_axioms;

    proof {
        let mr0 = old(matching_regions)@;
        assert(mr0.subrange(0, mr0.len() as int) =~= mr0);
    }
    let qid_opt = lookup_name_id(&index.names, query_name);
    let tid_opt = lookup_name_id(&index.names, target_name);
    let (qid, tid) = match (qid_opt, tid_opt) {
        (Some(q), Some(t)) => (q, t),
        _ => {
            // a name never seen in the evidence has no corroboration
            proof {
                assert forall|si: int, eq: EvEntry, et: EvEntry|
                    0 <= si < segments@.len() && #[trigger] origin_evidence(
                        *index,
                        query_name@,
                        target_name@,
                        eq,
                        et,
                        seg_view(segments@[si]).1.0,
                        seg_view(segments@[si]).0.0,
                    ) implies pair_recorded(
                    matching_regions@,
                    eq.2.0,
                    segments@[si].1.0,
                    segments@[si].1.1,
                    segments@[si].0.0,
                    segments@[si].0.1,
                ) by {
                    let ns = index.names_seq();
                    assert(ns.len() == index.names.deep_view().len());
                    assert(false);
                }
            }
            return ;
        },
    };
    let max_score = config.segment_length;
    let mut si: usize = 0;
    while si < segments.len()
        invariant
            index.wf(),
            index.names_seq().len() < 0xffff_ffff,
            (qid as int) < index.names_seq().len(),
            index.names_seq()[qid as int] == query_name@,
            (tid as int) < index.names_seq().len(),
            index.names_seq()[tid as int] == target_name@,
            max_score == config.segment_length,
            forall|s: int|
                0 <= s < segments@.len() ==> {
                    let sv = seg_view(#[trigger] segments@[s]);
                    &&& 0 <= sv.0.0 < sv.0.1 <= 0x7fff_ffff
                    &&& 0 <= sv.1.0 < sv.1.1 <= 0x7fff_ffff
                    &&& (sv.0.1 - sv.0.0) + (sv.1.1 - sv.1.0) <= 0x7fff_ffff
                },
            si <= segments@.len(),
            results_dedup(matching_regions@),
            results_sound(matching_regions@, *index, query_name@, target_name@),
            old(matching_regions)@.is_prefix_of(matching_regions@),
            results_in_windows(matching_regions@, old(matching_regions)@.len() as int, segments@),
            forall|i: int|
                old(matching_regions)@.len() <= i < matching_regions@.len() ==> key_backed(
                    *index,
                    query_name@,
                    target_name@,
                    (#[trigger] matching_regions@[i]).line,
                    qr_window(matching_regions@[i]),
                    config.segment_length as int,
                    config.adapt,
                ),
            forall|ss: int, j: int, eq: EvEntry, et: EvEntry|
                0 <= ss < si && 0 <= j < sweep_regions(
                    *index,
                    query_name@,
                    target_name@,
                    seg_view(#[trigger] segments@[ss]),
                    config.segment_length as int,
                    config.adapt,
                ).len() && #[trigger] region_backs(
                    *index,
                    query_name@,
                    target_name@,
                    seg_view(segments@[ss]),
                    sweep_regions(
                        *index,
                        query_name@,
                        target_name@,
                        seg_view(segments@[ss]),
                        config.segment_length as int,
                        config.adapt,
                    )[j],
                    eq,
                    et,
                    eq.2.0,
                ) ==> pair_recorded(
                    matching_regions@,
                    eq.2.0,
                    segments@[ss].1.0,
                    segments@[ss].1.1,
                    segments@[ss].0.0,
                    segments@[ss].0.1,
                ),
            forall|ss: int, eq: EvEntry, et: EvEntry|
                0 <= ss < si && #[trigger] origin_evidence(
                    *index,
                    query_name@,
                    target_name@,
                    eq,
                    et,
                    seg_view(segments@[ss]).1.0,
                    seg_view(segments@[ss]).0.0,
                ) ==> pair_recorded(
                    matching_regions@,
                    eq.2.0,
                    segments@[ss].1.0,
                    segments@[ss].1.1,
                    segments@[ss].0.0,
                    segments@[ss].0.1,
                ),
        decreases segments@.len() - si,
    {
        let ghost mr_seg0 = matching_regions@;
        let seg = segments[si];
        let ((tstart, tstop), (qstart, qstop)) = seg;
        let tw = tstop - tstart;
        let qw = qstop - qstart;
        let qtree = &index.query_index;
        let ttree = &index.target_index;
        let test = |v: usize, h: usize| -> (b: bool)
            requires
                v < qw,
                h < tw,
                qstart + qw <= 0x7fff_ffff,
                tstart + tw <= 0x7fff_ffff,
            ensures
                b == oracle_at(
                    coitree_entries(*qtree),
                    coitree_entries(*ttree),
                    qid,
                    tid,
                    qstart + v,
                    tstart + h,
                ),
            {
                let qp = (qstart + v) as i32;
                let tp = (tstart + h) as i32;
                let bq = probe(qtree, qid, qp);
                if bq {
                    probe(ttree, tid, tp)
                } else {
                    false
                }
            };
        let ghost p = seg_oracle(
            coitree_entries(*qtree),
            coitree_entries(*ttree),
            index.names_seq(),
            query_name@,
            target_name@,
            qstart as int,
            tstart as int,
        );
        proof {
            assert forall|v: usize, h: usize| v < qw && h < tw implies call_requires(
                test,
                (v, h),
            ) by {}
            assert forall|v: usize, h: usize, b: bool| call_ensures(test, (v, h), b) implies b == p(
                v as int,
                h as int,
            ) by {
                assert(coitree_entries(*qtree) == index.q_entries());
                assert(coitree_entries(*ttree) == index.t_entries());
                lemma_ev_id_name(
                    coitree_entries(*qtree),
                    index.names_seq(),
                    qid,
                    query_name@,
                    qstart + v as int,
                );
                lemma_ev_id_name(
                    coitree_entries(*ttree),
                    index.names_seq(),
                    tid,
                    target_name@,
                    tstart + h as int,
                );
            }
        }
        let (_reached, regions, _last_frame) = wf_align(
            test,
            tw,
            qw,
            max_score,
            config.adapt,
            Ghost(p),
        );
        let ghost sv = seg_view(segments@[si as int]);
        proof {
            assert(sv.1.0 == qstart as int && sv.0.0 == tstart as int && sv.1.1 == qstop as int
                && sv.0.1 == tstop as int);
            assert(coitree_entries(*qtree) == index.q_entries());
            assert(coitree_entries(*ttree) == index.t_entries());
            assert(p == seg_oracle(
                index.q_entries(),
                index.t_entries(),
                index.names_seq(),
                query_name@,
                target_name@,
                sv.1.0,
                sv.0.0,
            ));
            assert(tw as int == sv.0.1 - sv.0.0);
            assert(qw as int == sv.1.1 - sv.1.0);
            assert(max_score == config.segment_length);
            assert(regions@ == sweep_regions(
                *index,
                query_name@,
                target_name@,
                sv,
                config.segment_length as int,
                config.adapt,
            ));
        }
        // turn each corroborated run into recorded results
        let mut ri: usize = 0;
        while ri < regions.len()
            invariant
                index.wf(),
                index.names_seq().len() < 0xffff_ffff,
                (qid as int) < index.names_seq().len(),
                index.names_seq()[qid as int] == query_name@,
                (tid as int) < index.names_seq().len(),
                index.names_seq()[tid as int] == target_name@,
                regions_sound(regions@, tw as int, qw as int, p),
                ri <= regions@.len(),
                qstart < qstop <= 0x7fff_ffff,
                tstart < tstop <= 0x7fff_ffff,
                qw == qstop - qstart,
                tw == tstop - tstart,
                coitree_entries(*qtree) == index.q_entries(),
                coitree_entries(*ttree) == index.t_entries(),
                results_dedup(matching_regions@),
                results_sound(matching_regions@, *index, query_name@, target_name@),
                old(matching_regions)@.is_prefix_of(matching_regions@),
                mr_seg0.is_prefix_of(matching_regions@),
                si < segments@.len(),
                qstart == segments@[si as int].1.0,
                qstop == segments@[si as int].1.1,
                tstart == segments@[si as int].0.0,
                tstop == segments@[si as int].0.1,
                results_in_windows(
                    matching_regions@,
                    old(matching_regions)@.len() as int,
                    segments@,
                ),
                sv == seg_view(segments@[si as int]),
                sv.1.0 == qstart as int && sv.0.0 == tstart as int && sv.1.1 == qstop as int
                    && sv.0.1 == tstop as int,
                regions@ == sweep_regions(
                    *index,
                    query_name@,
                    target_name@,
                    sv,
                    config.segment_length as int,
                    config.adapt,
                ),
                forall|i: int|
                    old(matching_regions)@.len() <= i < matching_regions@.len() ==> key_backed(
                        *index,
                        query_name@,
                        target_name@,
                        (#[trigger] matching_regions@[i]).line,
                        qr_window(matching_regions@[i]),
                        config.segment_length as int,
                        config.adapt,
                    ),
                forall|ss: int, j2: int, eq: EvEntry, et: EvEntry|
                    0 <= ss < si && 0 <= j2 < sweep_regions(
                        *index,
                        query_name@,
                        target_name@,
                        seg_view(#[trigger] segments@[ss]),
                        config.segment_length as int,
                        config.adapt,
                    ).len() && #[trigger] region_backs(
                        *index,
                        query_name@,
                        target_name@,
                        seg_view(segments@[ss]),
                        sweep_regions(
                            *index,
                            query_name@,
                            target_name@,
                            seg_view(segments@[ss]),
                            config.segment_length as int,
                            config.adapt,
                        )[j2],
                        eq,
                        et,
                        eq.2.0,
                    ) ==> pair_recorded(
                        matching_regions@,
                        eq.2.0,
                        segments@[ss].1.0,
                        segments@[ss].1.1,
                        segments@[ss].0.0,
                        segments@[ss].0.1,
                    ),
                forall|j: int|
                    0 <= j < ri ==> #[trigger] region_pairs_recorded(
                        matching_regions@,
                        *index,
                        qid,
                        tid,
                        qstart,
                        qstop,
                        tstart,
                        tstop,
                        regions@[j],
                    ),
            decreases regions@.len() - ri,
        {
            let ghost mr_ri0 = matching_regions@;
            let region = regions[ri];
            let qlo = (qstart + region.query_start) as i32;
            let qhi = (qstart + region.query_stop - 1) as i32;
            let tlo = (tstart + region.text_start) as i32;
            let thi = (tstart + region.text_stop - 1) as i32;
            let qhits = qtree.query_collect(qlo, qhi);
            let thits = ttree.query_collect(tlo, thi);
            let mut a: usize = 0;
            while a < thits.len()
                invariant
                    index.wf(),
                    (qid as int) < index.names_seq().len(),
                    index.names_seq()[qid as int] == query_name@,
                    (tid as int) < index.names_seq().len(),
                    index.names_seq()[tid as int] == target_name@,
                    a <= thits@.len(),
                    qstart < qstop <= 0x7fff_ffff,
                    tstart < tstop <= 0x7fff_ffff,
                    qlo as int >= qstart,
                    qhi as int <= qstop - 1,
                    tlo as int >= tstart,
                    thi as int <= tstop - 1,
                    qhits@.to_multiset() == overlapping(index.q_entries(), qlo, qhi),
                    thits@.to_multiset() == overlapping(index.t_entries(), tlo, thi),
                    results_dedup(matching_regions@),
                    results_sound(matching_regions@, *index, query_name@, target_name@),
                    old(matching_regions)@.is_prefix_of(matching_regions@),
                    mr_seg0.is_prefix_of(matching_regions@),
                    mr_ri0.is_prefix_of(matching_regions@),
                    si < segments@.len(),
                    ri < regions@.len(),
                    region == regions@[ri as int],
                    qlo as int == qstart + region.query_start,
                    qhi as int == qstart + region.query_stop - 1,
                    tlo as int == tstart + region.text_start,
                    thi as int == tstart + region.text_stop - 1,
                    qstart == segments@[si as int].1.0,
                    qstop == segments@[si as int].1.1,
                    tstart == segments@[si as int].0.0,
                    tstop == segments@[si as int].0.1,
                    results_in_windows(
                        matching_regions@,
                        old(matching_regions)@.len() as int,
                        segments@,
                    ),
                    sv == seg_view(segments@[si as int]),
                    sv.1.0 == qstart as int && sv.0.0 == tstart as int && sv.1.1 == qstop as int
                        && sv.0.1 == tstop as int,
                    regions@ == sweep_regions(
                        *index,
                        query_name@,
                        target_name@,
                        sv,
                        config.segment_length as int,
                        config.adapt,
                    ),
                    forall|i: int|
                        old(matching_regions)@.len() <= i < matching_regions@.len() ==> key_backed(
                            *index,
                            query_name@,
                            target_name@,
                            (#[trigger] matching_regions@[i]).line,
                            qr_window(matching_regions@[i]),
                            config.segment_length as int,
                            config.adapt,
                        ),
                    forall|ss: int, j2: int, eq: EvEntry, et: EvEntry|
                        0 <= ss < si && 0 <= j2 < sweep_regions(
                            *index,
                            query_name@,
                            target_name@,
                            seg_view(#[trigger] segments@[ss]),
                            config.segment_length as int,
                            config.adapt,
                        ).len() && #[trigger] region_backs(
                            *index,
                            query_name@,
                            target_name@,
                            seg_view(segments@[ss]),
                            sweep_regions(
                                *index,
                                query_name@,
                                target_name@,
                                seg_view(segments@[ss]),
                                config.segment_length as int,
                                config.adapt,
                            )[j2],
                            eq,
                            et,
                            eq.2.0,
                        ) ==> pair_recorded(
                            matching_regions@,
                            eq.2.0,
                            segments@[ss].1.0,
                            segments@[ss].1.1,
                            segments@[ss].0.0,
                            segments@[ss].0.1,
                        ),
                    forall|aa: int, bb: int|
                        0 <= aa < a && 0 <= bb < qhits@.len() && (#[trigger] thits@[aa]).2.1 == tid
                            && (#[trigger] qhits@[bb]).2.1 == qid && qhits@[bb].2.0
                            == thits@[aa].2.0 ==> pair_recorded(
                            matching_regions@,
                            thits@[aa].2.0,
                            qstart,
                            qstop,
                            tstart,
                            tstop,
                        ),
                decreases thits@.len() - a,
            {
                let et = thits[a];
                if et.2.1 == tid {
                    let mut b: usize = 0;
                    while b < qhits.len()
                        invariant
                            index.wf(),
                            (qid as int) < index.names_seq().len(),
                            index.names_seq()[qid as int] == query_name@,
                            (tid as int) < index.names_seq().len(),
                            index.names_seq()[tid as int] == target_name@,
                            b <= qhits@.len(),
                            a < thits@.len(),
                            et == thits@[a as int],
                            et.2.1 == tid,
                            qstart < qstop <= 0x7fff_ffff,
                            tstart < tstop <= 0x7fff_ffff,
                            qlo as int >= qstart,
                            qhi as int <= qstop - 1,
                            tlo as int >= tstart,
                            thi as int <= tstop - 1,
                            qhits@.to_multiset() == overlapping(index.q_entries(), qlo, qhi),
                            thits@.to_multiset() == overlapping(index.t_entries(), tlo, thi),
                            results_dedup(matching_regions@),
                            results_sound(matching_regions@, *index, query_name@, target_name@),
                            old(matching_regions)@.is_prefix_of(matching_regions@),
                            mr_seg0.is_prefix_of(matching_regions@),
                            mr_ri0.is_prefix_of(matching_regions@),
                            si < segments@.len(),
                            ri < regions@.len(),
                            region == regions@[ri as int],
                            qlo as int == qstart + region.query_start,
                            qhi as int == qstart + region.query_stop - 1,
                            tlo as int == tstart + region.text_start,
                            thi as int == tstart + region.text_stop - 1,
                            qstart == segments@[si as int].1.0,
                            qstop == segments@[si as int].1.1,
                            tstart == segments@[si as int].0.0,
                            tstop == segments@[si as int].0.1,
                            results_in_windows(
                                matching_regions@,
                                old(matching_regions)@.len() as int,
                                segments@,
                            ),
                            sv == seg_view(segments@[si as int]),
                            sv.1.0 == qstart as int && sv.0.0 == tstart as int && sv.1.1 == qstop as int
                                && sv.0.1 == tstop as int,
                            regions@ == sweep_regions(
                                *index,
                                query_name@,
                                target_name@,
                                sv,
                                config.segment_length as int,
                                config.adapt,
                            ),
                            forall|i: int|
                                old(matching_regions)@.len() <= i < matching_regions@.len() ==> key_backed(
                                    *index,
                                    query_name@,
                                    target_name@,
                                    (#[trigger] matching_regions@[i]).line,
                                    qr_window(matching_regions@[i]),
                                    config.segment_length as int,
                                    config.adapt,
                                ),
                            forall|ss: int, j2: int, eq: EvEntry, et: EvEntry|
                                0 <= ss < si && 0 <= j2 < sweep_regions(
                                    *index,
                                    query_name@,
                                    target_name@,
                                    seg_view(#[trigger] segments@[ss]),
                                    config.segment_length as int,
                                    config.adapt,
                                ).len() && #[trigger] region_backs(
                                    *index,
                                    query_name@,
                                    target_name@,
                                    seg_view(segments@[ss]),
                                    sweep_regions(
                                        *index,
                                        query_name@,
                                        target_name@,
                                        seg_view(segments@[ss]),
                                        config.segment_length as int,
                                        config.adapt,
                                    )[j2],
                                    eq,
                                    et,
                                    eq.2.0,
                                ) ==> pair_recorded(
                                    matching_regions@,
                                    eq.2.0,
                                    segments@[ss].1.0,
                                    segments@[ss].1.1,
                                    segments@[ss].0.0,
                                    segments@[ss].0.1,
                                ),
                            forall|aa: int, bb: int|
                                0 <= aa < a && 0 <= bb < qhits@.len() && (
                                #[trigger] thits@[aa]).2.1 == tid && (#[trigger] qhits@[bb]).2.1
                                    == qid && qhits@[bb].2.0 == thits@[aa].2.0 ==> pair_recorded(
                                    matching_regions@,
                                    thits@[aa].2.0,
                                    qstart,
                                    qstop,
                                    tstart,
                                    tstop,
                                ),
                            forall|bb: int|
                                0 <= bb < b && (#[trigger] qhits@[bb]).2.1 == qid
                                    && qhits@[bb].2.0 == et.2.0 ==> pair_recorded(
                                    matching_regions@,
                                    et.2.0,
                                    qstart,
                                    qstop,
                                    tstart,
                                    tstop,
                                ),
                        decreases qhits@.len() - b,
                    {
                        let eq = qhits[b];
                        if eq.2.1 == qid && eq.2.0 == et.2.0 {
                            let qr = QueryResult {
                                line: et.2.0,
                                sequence_start: et.0,
                                sequence_stop: et.1,
                                segment_qstart: qstart,
                                segment_qstop: qstop,
                                segment_tstart: tstart,
                                segment_tstop: tstop,
                            };
                            proof {
                                broadcast use vstd::seq_lib::group_to_multiset_ensures;
                                broadcast use vstd::multiset::group_multiset_axioms;

                                assert(thits@.contains(thits@[a as int]));
                                assert(thits@.to_multiset().count(et) > 0);
                                assert(index.t_entries().count(et) > 0);
                                assert(index.t_entries().contains(et));
                                assert(ent_overlaps(et, tlo, thi));
                                assert(qhits@.contains(qhits@[b as int]));
                                assert(qhits@.to_multiset().count(eq) > 0);
                                assert(index.q_entries().count(eq) > 0);
                                assert(index.q_entries().contains(eq));
                                assert(ent_overlaps(eq, qlo, qhi));
                                assert(result_sound(qr, *index, query_name@, target_name@));
                            }
                            if !has_result(matching_regions, qr) {
                                let ghost mrpre = matching_regions@;
                                matching_regions.push(qr);
                                proof {
                                    assert(mrpre.is_prefix_of(matching_regions@)) by {
                                        assert(matching_regions@.subrange(
                                            0,
                                            mrpre.len() as int,
                                        ) =~= mrpre);
                                    }
                                    assert(old(matching_regions)@.is_prefix_of(matching_regions@))
                                        by {
                                        let l = old(matching_regions)@.len() as int;
                                        assert(matching_regions@.subrange(0, l) =~= mrpre.subrange(
                                            0,
                                            l,
                                        ));
                                    }
                                    assert(mr_seg0.is_prefix_of(matching_regions@)) by {
                                        let l = mr_seg0.len() as int;
                                        assert(matching_regions@.subrange(0, l) =~= mrpre.subrange(
                                            0,
                                            l,
                                        ));
                                    }
                                    assert(mr_ri0.is_prefix_of(matching_regions@)) by {
                                        let l = mr_ri0.len() as int;
                                        assert(matching_regions@.subrange(0, l) =~= mrpre.subrange(
                                            0,
                                            l,
                                        ));
                                    }
                                    assert(matching_regions@[mrpre.len() as int] == qr);
                                    assert(result_in_window(qr, segments@[si as int]));
                                    // the new result's line is backed by this
                                    // region of this window's sweep
                                    assert(index.q_entries().count(eq) > 0);
                                    assert(index.t_entries().count(et) > 0);
                                    assert(qr_window(qr) == sv);
                                    assert(region_backs(
                                        *index,
                                        query_name@,
                                        target_name@,
                                        sv,
                                        regions@[ri as int],
                                        eq,
                                        et,
                                        qr.line,
                                    ));
                                    assert(key_backed(
                                        *index,
                                        query_name@,
                                        target_name@,
                                        qr.line,
                                        qr_window(qr),
                                        config.segment_length as int,
                                        config.adapt,
                                    ));
                                    assert forall|i: int|
                                        old(matching_regions)@.len() <= i
                                            < matching_regions@.len() implies key_backed(
                                        *index,
                                        query_name@,
                                        target_name@,
                                        (#[trigger] matching_regions@[i]).line,
                                        qr_window(matching_regions@[i]),
                                        config.segment_length as int,
                                        config.adapt,
                                    ) by {
                                        if i < mrpre.len() {
                                            assert(matching_regions@[i] == mrpre[i]);
                                        }
                                    }
                                    assert forall|ss: int, j2: int, eq2: EvEntry, et2: EvEntry|
                                        0 <= ss < si && 0 <= j2 < sweep_regions(
                                            *index,
                                            query_name@,
                                            target_name@,
                                            seg_view(#[trigger] segments@[ss]),
                                            config.segment_length as int,
                                            config.adapt,
                                        ).len() && #[trigger] region_backs(
                                            *index,
                                            query_name@,
                                            target_name@,
                                            seg_view(segments@[ss]),
                                            sweep_regions(
                                                *index,
                                                query_name@,
                                                target_name@,
                                                seg_view(segments@[ss]),
                                                config.segment_length as int,
                                                config.adapt,
                                            )[j2],
                                            eq2,
                                            et2,
                                            eq2.2.0,
                                        ) implies pair_recorded(
                                        matching_regions@,
                                        eq2.2.0,
                                        segments@[ss].1.0,
                                        segments@[ss].1.1,
                                        segments@[ss].0.0,
                                        segments@[ss].0.1,
                                    ) by {
                                        lemma_pair_recorded_grow(
                                            mrpre,
                                            matching_regions@,
                                            eq2.2.0,
                                            segments@[ss].1.0,
                                            segments@[ss].1.1,
                                            segments@[ss].0.0,
                                            segments@[ss].0.1,
                                        );
                                    }
                                    assert forall|i: int|
                                        old(matching_regions)@.len() as int <= i
                                            < matching_regions@.len() implies exists|s: int|
                                        0 <= s < segments@.len() && result_in_window(
                                            #[trigger] matching_regions@[i],
                                            #[trigger] segments@[s],
                                        ) by {
                                        if i < mrpre.len() {
                                            assert(matching_regions@[i] == mrpre[i]);
                                            let s0 = choose|s0: int|
                                                0 <= s0 < segments@.len() && result_in_window(
                                                    mrpre[i],
                                                    #[trigger] segments@[s0],
                                                );
                                            assert(result_in_window(
                                                matching_regions@[i],
                                                segments@[s0],
                                            ));
                                        } else {
                                            assert(result_in_window(
                                                matching_regions@[i],
                                                segments@[si as int],
                                            ));
                                        }
                                    }
                                    assert(pair_recorded(
                                        matching_regions@,
                                        et.2.0,
                                        qstart,
                                        qstop,
                                        tstart,
                                        tstop,
                                    ));
                                    assert forall|aa: int, bb: int|
                                        0 <= aa < a && 0 <= bb < qhits@.len() && (
                                    #[trigger] thits@[aa]).2.1 == tid && (#[trigger] qhits@[bb]).2.1
                                        == qid && qhits@[bb].2.0 == thits@[aa].2.0 implies
                                        pair_recorded(
                                        matching_regions@,
                                        thits@[aa].2.0,
                                        qstart,
                                        qstop,
                                        tstart,
                                        tstop,
                                    ) by {
                                        lemma_pair_recorded_grow(
                                            mrpre,
                                            matching_regions@,
                                            thits@[aa].2.0,
                                            qstart,
                                            qstop,
                                            tstart,
                                            tstop,
                                        );
                                    }
                                    assert forall|bb: int|
                                        0 <= bb < b + 1 && (#[trigger] qhits@[bb]).2.1 == qid
                                            && qhits@[bb].2.0 == et.2.0 implies pair_recorded(
                                        matching_regions@,
                                        et.2.0,
                                        qstart,
                                        qstop,
                                        tstart,
                                        tstop,
                                    ) by {}
                                    assert forall|i: int, j: int|
                                        0 <= i < j < matching_regions@.len() implies qr_key(
                                        #[trigger] matching_regions@[i],
                                    ) != qr_key(#[trigger] matching_regions@[j]) by {
                                        if j == mrpre.len() as int {
                                            assert(matching_regions@[i] == mrpre[i]);
                                        }
                                    }
                                    assert forall|i: int|
                                        0 <= i < matching_regions@.len() implies result_sound(
                                        #[trigger] matching_regions@[i],
                                        *index,
                                        query_name@,
                                        target_name@,
                                    ) by {
                                        if i < mrpre.len() {
                                            assert(matching_regions@[i] == mrpre[i]);
                                        }
                                    }
                                }
                            } else {
                                proof {
                                    let i = choose|i: int|
                                        0 <= i < matching_regions@.len() && qr_key(
                                            #[trigger] matching_regions@[i],
                                        ) == qr_key(qr);
                                    assert(pair_recorded(
                                        matching_regions@,
                                        et.2.0,
                                        qstart,
                                        qstop,
                                        tstart,
                                        tstop,
                                    ));
                                }
                            }
                        }
                        b = b + 1;
                    }
                }
                proof {
                    assert forall|aa: int, bb: int|
                        0 <= aa < a + 1 && 0 <= bb < qhits@.len() && (#[trigger] thits@[aa]).2.1
                            == tid && (#[trigger] qhits@[bb]).2.1 == qid && qhits@[bb].2.0
                            == thits@[aa].2.0 implies pair_recorded(
                        matching_regions@,
                        thits@[aa].2.0,
                        qstart,
                        qstop,
                        tstart,
                        tstop,
                    ) by {}
                }
                a = a + 1;
            }
            proof {
                broadcast use vstd::seq_lib::group_to_multiset_ensures;
                broadcast use vstd::multiset::group_multiset_axioms;

                assert(qlo as int == qstart + region.query_start);
                assert(qhi as int == qstart + region.query_stop - 1);
                assert(tlo as int == tstart + region.text_start);
                assert(thi as int == tstart + region.text_stop - 1);
                assert forall|eq: EvEntry, et: EvEntry|
                    #[trigger] index.q_entries().contains(eq) && #[trigger] index.t_entries().contains(et)
                        && eq.2.1 == qid && et.2.1 == tid && eq.2.0 == et.2.0 && eq.0 as int
                        <= qstart + region.query_stop - 1 && qstart + region.query_start
                        <= eq.1 as int && et.0 as int <= tstart + region.text_stop - 1 && tstart
                        + region.text_start <= et.1 as int implies pair_recorded(
                    matching_regions@,
                    et.2.0,
                    qstart,
                    qstop,
                    tstart,
                    tstop,
                ) by {
                    assert(ent_overlaps(eq, qlo, qhi));
                    assert(overlapping(index.q_entries(), qlo, qhi).count(eq) > 0);
                    assert(qhits@.to_multiset().count(eq) > 0);
                    assert(qhits@.contains(eq));
                    let bb = choose|bb: int| 0 <= bb < qhits@.len() && qhits@[bb] == eq;
                    assert(ent_overlaps(et, tlo, thi));
                    assert(overlapping(index.t_entries(), tlo, thi).count(et) > 0);
                    assert(thits@.to_multiset().count(et) > 0);
                    assert(thits@.contains(et));
                    let aa = choose|aa: int| 0 <= aa < thits@.len() && thits@[aa] == et;
                    assert((#[trigger] thits@[aa]).2.1 == tid && (#[trigger] qhits@[bb]).2.1
                        == qid && qhits@[bb].2.0 == thits@[aa].2.0);
                }
                assert(region_pairs_recorded(
                    matching_regions@,
                    *index,
                    qid,
                    tid,
                    qstart,
                    qstop,
                    tstart,
                    tstop,
                    regions@[ri as int],
                ));
                assert forall|j: int| 0 <= j < ri + 1 implies #[trigger] region_pairs_recorded(
                    matching_regions@,
                    *index,
                    qid,
                    tid,
                    qstart,
                    qstop,
                    tstart,
                    tstop,
                    regions@[j],
                ) by {
                    if j < ri {
                        assert(region_pairs_recorded(
                            mr_ri0,
                            *index,
                            qid,
                            tid,
                            qstart,
                            qstop,
                            tstart,
                            tstop,
                            regions@[j],
                        ));
                        assert forall|eq: EvEntry, et: EvEntry|
                            #[trigger] index.q_entries().contains(eq)
                                && #[trigger] index.t_entries().contains(et) && eq.2.1 == qid
                                && et.2.1 == tid && eq.2.0 == et.2.0 && eq.0 as int <= qstart
                                + regions@[j].query_stop - 1 && qstart + regions@[j].query_start
                                <= eq.1 as int && et.0 as int <= tstart + regions@[j].text_stop - 1
                                && tstart + regions@[j].text_start <= et.1 as int implies
                            pair_recorded(
                            matching_regions@,
                            et.2.0,
                            qstart,
                            qstop,
                            tstart,
                            tstop,
                        ) by {
                            lemma_pair_recorded_grow(
                                mr_ri0,
                                matching_regions@,
                                et.2.0,
                                qstart,
                                qstop,
                                tstart,
                                tstop,
                            );
                        }
                    }
                }
            }
            ri = ri + 1;
        }
        // every backed line of this window's sweep is recorded
        proof {
            assert forall|ss: int, j: int, eq: EvEntry, et: EvEntry|
                0 <= ss < si + 1 && 0 <= j < sweep_regions(
                    *index,
                    query_name@,
                    target_name@,
                    seg_view(#[trigger] segments@[ss]),
                    config.segment_length as int,
                    config.adapt,
                ).len() && #[trigger] region_backs(
                    *index,
                    query_name@,
                    target_name@,
                    seg_view(segments@[ss]),
                    sweep_regions(
                        *index,
                        query_name@,
                        target_name@,
                        seg_view(segments@[ss]),
                        config.segment_length as int,
                        config.adapt,
                    )[j],
                    eq,
                    et,
                    eq.2.0,
                ) implies pair_recorded(
                matching_regions@,
                eq.2.0,
                segments@[ss].1.0,
                segments@[ss].1.1,
                segments@[ss].0.0,
                segments@[ss].0.1,
            ) by {
                if ss == si as int {
                    // resolve the names to this pair's ids
                    assert(index.q_entries().count(eq) > 0);
                    assert(index.t_entries().count(et) > 0);
                    assert(eq.2.1 == qid) by {
                        if eq.2.1 != qid {
                            assert(index.names_seq()[eq.2.1 as int] == index.names_seq()[
                                qid as int]);
                        }
                    }
                    assert(et.2.1 == tid) by {
                        if et.2.1 != tid {
                            assert(index.names_seq()[et.2.1 as int] == index.names_seq()[
                                tid as int]);
                        }
                    }
                    assert(sweep_regions(
                        *index,
                        query_name@,
                        target_name@,
                        seg_view(segments@[ss]),
                        config.segment_length as int,
                        config.adapt,
                    ) == regions@);
                    assert(region_pairs_recorded(
                        matching_regions@,
                        *index,
                        qid,
                        tid,
                        qstart,
                        qstop,
                        tstart,
                        tstop,
                        regions@[j],
                    ));
                    assert(eq.0 as int <= qstart + regions@[j].query_stop - 1);
                    assert(qstart + regions@[j].query_start <= eq.1 as int);
                    assert(et.0 as int <= tstart + regions@[j].text_stop - 1);
                    assert(tstart + regions@[j].text_start <= et.1 as int);
                }
            }
        }
        // evidence at a window's origin is never missed: the search always
        // extends through it and its run was recorded above
        proof {
            assert forall|ss: int, eq: EvEntry, et: EvEntry|
                0 <= ss < si + 1 && #[trigger] origin_evidence(
                    *index,
                    query_name@,
                    target_name@,
                    eq,
                    et,
                    seg_view(segments@[ss]).1.0,
                    seg_view(segments@[ss]).0.0,
                ) implies pair_recorded(
                matching_regions@,
                eq.2.0,
                segments@[ss].1.0,
                segments@[ss].1.1,
                segments@[ss].0.0,
                segments@[ss].0.1,
            ) by {
                if ss < si {
                    lemma_pair_recorded_grow(
                        mr_seg0,
                        matching_regions@,
                        eq.2.0,
                        segments@[ss].1.0,
                        segments@[ss].1.1,
                        segments@[ss].0.0,
                        segments@[ss].0.1,
                    );
                } else {
                    // the ids of the two entries are the probed pair's ids
                    assert(index.q_entries().count(eq) > 0);
                    assert(index.t_entries().count(et) > 0);
                    assert(crate::filter::index::ent_wf(eq, index.names_seq().len() as int));
                    assert(crate::filter::index::ent_wf(et, index.names_seq().len() as int));
                    assert(eq.2.1 == qid) by {
                        if eq.2.1 != qid {
                            assert(index.names_seq()[eq.2.1 as int] == index.names_seq()[
                                qid as int]);
                        }
                    }
                    assert(et.2.1 == tid) by {
                        if et.2.1 != tid {
                            assert(index.names_seq()[et.2.1 as int] == index.names_seq()[
                                tid as int]);
                        }
                    }
                    // the match predicate holds at the window origin
                    assert(has_ev_id(coitree_entries(*qtree), qid, qstart as int));
                    assert(has_ev_id(coitree_entries(*ttree), tid, tstart as int));
                    assert(p(0, 0));
                    let j = choose|j: int|
                        0 <= j < regions@.len() && (#[trigger] regions@[j]).query_start == 0
                            && regions@[j].text_start == 0;
                    assert(region_sound(regions@[j], tw as int, qw as int, p));
                    assert(region_pairs_recorded(
                        matching_regions@,
                        *index,
                        qid,
                        tid,
                        qstart,
                        qstop,
                        tstart,
                        tstop,
                        regions@[j],
                    ));
                    assert(eq.0 as int <= qstart + regions@[j].query_stop - 1);
                    assert(qstart + regions@[j].query_start <= eq.1 as int);
                    assert(et.0 as int <= tstart + regions@[j].text_stop - 1);
                    assert(tstart + regions@[j].text_start <= et.1 as int);
                }
            }
        }
        si = si + 1;
    }
}

/// Generate the probe windows for one candidate pair under the run's
/// configuration: windows of `config.segment_length`, advancing by half that
/// length when `config.step` asks for overlapping windows and by the whole
/// length otherwise, the final window clipped to the true lengths.
pub fn generate_segments(tlen: usize, qlen: usize, config: &AppConfig) -> (r: Vec<Segment>)
    requires
        config.step ==> config.segment_length >= 2,
        !config.step ==> config.segment_length >= 1,
        min_len(tlen as int, qlen as int) + config.segment_length <= usize::MAX,
    ensures
        r@.map_values(|s: Segment| seg_view(s)) == segments_spec(
            tlen as int,
            qlen as int,
            config.segment_length as int,
            if config.step {
                config.segment_length as int / 2
            } else {
                config.segment_length as int
            },
        ),
        r@.len() == 0 <==> min_len(tlen as int, qlen as int) == 0,
{
    let step: usize = if config.step {
        config.segment_length / 2
    } else {
        config.segment_length
    };
    let r = gen_segments_core(tlen, qlen, config.segment_length, step);
    proof {
        if min_len(tlen as int, qlen as int) != 0 {
            assert(segments_spec(
                tlen as int,
                qlen as int,
                config.segment_length as int,
                step as int,
            ).len() >= 1);
        }
    }
    r
}

/// The step between window starts under this configuration.
pub open spec fn cfg_step(c: AppConfig) -> int {
    if c.step {
        c.segment_length as int / 2
    } else {
        c.segment_length as int
    }
}

/// The probe windows of one record's pair under the length lookup `md` and
/// the window size and step of the run.
pub open spec fn pair_windows(
    md: Map<Seq<char>, u32>,
    a: PafAlignment,
    seg_len: int,
    step: int,
) -> Seq<((int, int), (int, int))> {
    segments_spec(md[a.target@] as int, md[a.query@] as int, seg_len, step)
}

/// A line can only survive if, for some record's (query, target) pair,
/// evidence entries carry that line on both axes under the pair's names and
/// each intersects one of the pair's generated probe windows on its axis.
pub open spec fn line_sound(
    line: int,
    index: Index,
    alns: Seq<PafAlignment>,
    md: Map<Seq<char>, u32>,
    seg_len: int,
    step: int,
) -> bool {
    exists|k: int, s: int, eq: EvEntry, et: EvEntry|
        {
            &&& 0 <= k < alns.len()
            &&& 0 <= s < pair_windows(md, alns[k], seg_len, step).len()
            &&& #[trigger] index.q_entries().contains(eq)
            &&& #[trigger] index.t_entries().contains(et)
            &&& eq.2.0 as int == line && et.2.0 as int == line
            &&& (eq.2.1 as int) < index.names_seq().len() && index.names_seq()[eq.2.1 as int]
                == alns[k].query@
            &&& (et.2.1 as int) < index.names_seq().len() && index.names_seq()[et.2.1 as int]
                == alns[k].target@
            &&& eq.0 as int <= (#[trigger] pair_windows(md, alns[k], seg_len, step)[s]).1.1 - 1
            &&& pair_windows(md, alns[k], seg_len, step)[s].1.0 <= eq.1 as int
            &&& et.0 as int <= pair_windows(md, alns[k], seg_len, step)[s].0.1 - 1
            &&& pair_windows(md, alns[k], seg_len, step)[s].0.0 <= et.1 as int
        }
}

/// A line is in the specification-level sweep: some record's pair has a
/// generated window whose sweep backs the line on both axes.
pub open spec fn line_in_sweep(
    line: int,
    index: Index,
    alns: Seq<PafAlignment>,
    md: Map<Seq<char>, u32>,
    seg_len: int,
    step: int,
    adapt: bool,
) -> bool {
    exists|k: int, s: int, lw: u32|
        0 <= k < alns.len() && 0 <= s < pair_windows(md, alns[k], seg_len, step).len()
            && lw as int == line && #[trigger] key_backed(
            index,
            alns[k].query@,
            alns[k].target@,
            lw,
            pair_windows(md, alns[k], seg_len, step)[s],
            seg_len,
            adapt,
        )
}

/// Decide which source lines survive: for every distinct candidate pair,
/// sweep its probe windows with the wavefront search against the evidence
/// index, keep the lines corroborated on both axes, and return them sorted
/// ascending without duplicates.  An empty result means everything was
/// filtered out; it is not an error.
///
/// The surviving set is stated exactly: a line is in the output if and only
/// if some pair's window sweep backs it on both axes
/// (`line_in_sweep`); with the output sorted and duplicate-free, the whole
/// result is a function of the index contents, the records, the lookup and
/// the window configuration alone, so equal inputs give identical output
/// lists, whatever the thread count or verbosity.
pub fn filter(index: &Index, paf: &PAF, config: &AppConfig) -> (r: Vec<usize>)
    requires
        index.wf(),
        index.names_seq().len() < 0xffff_ffff,
        paf.wf(),
        forall|n: Seq<char>|
            #[trigger] paf.metadata_map().dom().contains(n) ==> paf.metadata_map()[n]
                <= 0x3fff_ffff,
        config.step ==> config.segment_length >= 2,
        !config.step ==> config.segment_length >= 1,
        config.segment_length <= 0x3fff_ffff,
    ensures
        forall|i: int, j: int| 0 <= i < j < r@.len() ==> r@[i] < r@[j],
        forall|i: int|
            0 <= i < r@.len() ==> line_sound(
                #[trigger] r@[i] as int,
                *index,
                paf.alignments_view(),
                paf.metadata_map(),
                config.segment_length as int,
                cfg_step(*config),
            ),
        forall|i: int|
            0 <= i < r@.len() ==> line_in_sweep(
                #[trigger] r@[i] as int,
                *index,
                paf.alignments_view(),
                paf.metadata_map(),
                config.segment_length as int,
                cfg_step(*config),
                config.adapt,
            ),
        forall|k: int, s: int, lw: u32|
            0 <= k < paf.alignments_view().len() && 0 <= s < pair_windows(
                paf.metadata_map(),
                paf.alignments_view()[k],
                config.segment_length as int,
                cfg_step(*config),
            ).len() && #[trigger] key_backed(
                *index,
                paf.alignments_view()[k].query@,
                paf.alignments_view()[k].target@,
                lw,
                pair_windows(
                    paf.metadata_map(),
                    paf.alignments_view()[k],
                    config.segment_length as int,
                    cfg_step(*config),
                )[s],
                config.segment_length as int,
                config.adapt,
            ) ==> has_line(r@, lw as usize),
        forall|k: int, s: int, eq: EvEntry, et: EvEntry|
            0 <= k < paf.alignments_view().len() && 0 <= s < pair_windows(
                paf.metadata_map(),
                paf.alignments_view()[k],
                config.segment_length as int,
                cfg_step(*config),
            ).len() && #[trigger] origin_evidence(
                *index,
                paf.alignments_view()[k].query@,
                paf.alignments_view()[k].target@,
                eq,
                et,
                pair_windows(
                    paf.metadata_map(),
                    paf.alignments_view()[k],
                    config.segment_length as int,
                    cfg_step(*config),
                )[s].1.0,
                pair_windows(
                    paf.metadata_map(),
                    paf.alignments_view()[k],
                    config.segment_length as int,
                    cfg_step(*config),
                )[s].0.0,
            ) ==> has_line(r@, eq.2.0 as usize),
{
    let ghost md = paf.metadata_map();
    let ghost sl = config.segment_length as int;
    let ghost st = cfg_step(*config);
    let alignment_pairs = paf.get_unique_alignments();
    let metadata = paf.get_metadata();
    let mut lines: Vec<usize> = Vec::new();
    let mut pi: usize = 0;
    while pi < alignment_pairs.len()
        invariant
            index.wf(),
            index.names_seq().len() < 0xffff_ffff,
            paf.wf(),
            md == paf.metadata_map(),
            sl == config.segment_length as int,
            st == cfg_step(*config),
            metadata@ == paf.metadata_map(),
            metadata.wf(),
            forall|n: Seq<char>|
                #[trigger] paf.metadata_map().dom().contains(n) ==> paf.metadata_map()[n]
                    <= 0x3fff_ffff,
            config.step ==> config.segment_length >= 2,
            !config.step ==> config.segment_length >= 1,
            config.segment_length <= 0x3fff_ffff,
            forall|i: int|
                0 <= i < alignment_pairs@.len() ==> alns_have(
                    paf.alignments_view(),
                    apair_key(#[trigger] alignment_pairs@[i]),
                ),
            pi <= alignment_pairs@.len(),
            forall|i: int, j: int| 0 <= i < j < lines@.len() ==> #[trigger] lines@[i]
                != #[trigger] lines@[j],
            forall|i: int|
                0 <= i < lines@.len() ==> line_sound(
                    #[trigger] lines@[i] as int,
                    *index,
                    paf.alignments_view(),
                    md,
                    sl,
                    st,
                ),
            forall|i: int|
                0 <= i < lines@.len() ==> line_in_sweep(
                    #[trigger] lines@[i] as int,
                    *index,
                    paf.alignments_view(),
                    md,
                    sl,
                    st,
                    config.adapt,
                ),
            forall|k: int, s: int, lw: u32|
                0 <= k < paf.alignments_view().len() && (exists|ii: int|
                    0 <= ii < pi && apair_key(#[trigger] alignment_pairs@[ii]) == aln_key(
                        paf.alignments_view()[k],
                    )) && 0 <= s < pair_windows(md, paf.alignments_view()[k], sl, st).len()
                    && #[trigger] key_backed(
                    *index,
                    paf.alignments_view()[k].query@,
                    paf.alignments_view()[k].target@,
                    lw,
                    pair_windows(md, paf.alignments_view()[k], sl, st)[s],
                    sl,
                    config.adapt,
                ) ==> has_line(lines@, lw as usize),
            forall|k: int, s: int, eq: EvEntry, et: EvEntry|
                0 <= k < paf.alignments_view().len() && (exists|ii: int|
                    0 <= ii < pi && apair_key(#[trigger] alignment_pairs@[ii]) == aln_key(
                        paf.alignments_view()[k],
                    )) && 0 <= s < pair_windows(md, paf.alignments_view()[k], sl, st).len()
                    && #[trigger] origin_evidence(
                    *index,
                    paf.alignments_view()[k].query@,
                    paf.alignments_view()[k].target@,
                    eq,
                    et,
                    pair_windows(md, paf.alignments_view()[k], sl, st)[s].1.0,
                    pair_windows(md, paf.alignments_view()[k], sl, st)[s].0.0,
                ) ==> has_line(lines@, eq.2.0 as usize),
        decreases alignment_pairs@.len() - pi,
    {
        let ghost lines_pi0 = lines@;
        let pair = &alignment_pairs[pi];
        let target_name = pair.target_name.as_str();
        let query_name = pair.query_name.as_str();
        proof {
            assert(alns_have(paf.alignments_view(), apair_key(alignment_pairs@[pi as int])));
            let k = choose|k: int|
                0 <= k < paf.alignments_view().len() && aln_key(
                    #[trigger] paf.alignments_view()[k],
                ) == apair_key(alignment_pairs@[pi as int]);
            lemma_metadata_spec_contains(paf.alignments_view(), k);
            crate::paf::paf::lemma_paf_wf_metadata(paf);
            assert(paf.alignments_view()[k].target@ == pair.target_name@);
            assert(paf.alignments_view()[k].query@ == pair.query_name@);
            assert(metadata@.dom().contains(target_name@));
            assert(metadata@.dom().contains(query_name@));
        }
        let tmd = match metadata.get(target_name) {
            Some(m) => m,
            None => vstd::pervasive::unreached(),
        };
        let qmd = match metadata.get(query_name) {
            Some(m) => m,
            None => vstd::pervasive::unreached(),
        };
        let tlen = tmd.length as usize;
        let qlen = qmd.length as usize;
        let segments = generate_segments(tlen, qlen, config);
        proof {
            if min_len(tlen as int, qlen as int) > 0 {
                crate::filter::lemma_seg_from_bounds(tlen as int, qlen as int, sl, st, 0);
            }
            assert forall|s: int| 0 <= s < segments@.len() implies {
                let sv = seg_view(#[trigger] segments@[s]);
                &&& 0 <= sv.0.0 < sv.0.1 <= 0x7fff_ffff
                &&& 0 <= sv.1.0 < sv.1.1 <= 0x7fff_ffff
                &&& (sv.0.1 - sv.0.0) + (sv.1.1 - sv.1.0) <= 0x7fff_ffff
            } by {
                assert(seg_view(segments@[s]) == segments@.map_values(
                    |sg: Segment| seg_view(sg),
                )[s]);
            }
        }
        let mut matching_regions: Vec<QueryResult> = Vec::new();
        run_aln(&segments, index, target_name, query_name, config, &mut matching_regions);
        let ghost mrs = matching_regions@;
        // project the pair's verdicts onto line numbers
        let mut mi: usize = 0;
        while mi < matching_regions.len()
            invariant
                index.wf(),
                paf.wf(),
                md == paf.metadata_map(),
                sl == config.segment_length as int,
                st == cfg_step(*config),
                mi <= matching_regions@.len(),
                results_sound(
                    matching_regions@,
                    *index,
                    alignment_pairs@[pi as int].query_name@,
                    alignment_pairs@[pi as int].target_name@,
                ),
                results_in_windows(matching_regions@, 0, segments@),
                segments@.map_values(|sg: Segment| seg_view(sg)) == segments_spec(
                    tlen as int,
                    qlen as int,
                    sl,
                    st,
                ),
                tlen as int == md[alignment_pairs@[pi as int].target_name@] as int,
                qlen as int == md[alignment_pairs@[pi as int].query_name@] as int,
                pi < alignment_pairs@.len(),
                alns_have(paf.alignments_view(), apair_key(alignment_pairs@[pi as int])),
                forall|i: int, j: int| 0 <= i < j < lines@.len() ==> #[trigger] lines@[i]
                    != #[trigger] lines@[j],
                forall|i: int|
                    0 <= i < lines@.len() ==> line_sound(
                        #[trigger] lines@[i] as int,
                        *index,
                        paf.alignments_view(),
                        md,
                        sl,
                        st,
                    ),
                matching_regions@ == mrs,
                lines_pi0.is_prefix_of(lines@),
                forall|i: int|
                    0 <= i < mi ==> has_line(
                        lines@,
                        (#[trigger] matching_regions@[i]).line as usize,
                    ),
                forall|i: int|
                    0 <= i < lines@.len() ==> line_in_sweep(
                        #[trigger] lines@[i] as int,
                        *index,
                        paf.alignments_view(),
                        md,
                        sl,
                        st,
                        config.adapt,
                    ),
                forall|i: int|
                    0 <= i < mrs.len() ==> key_backed(
                        *index,
                        alignment_pairs@[pi as int].query_name@,
                        alignment_pairs@[pi as int].target_name@,
                        (#[trigger] mrs[i]).line,
                        qr_window(mrs[i]),
                        sl,
                        config.adapt,
                    ),
            decreases matching_regions@.len() - mi,
        {
            let line = matching_regions[mi].line as usize;
            if !contains_line(&lines, line) {
                let ghost lpre = lines@;
                lines.push(line);
                proof {
                    assert(lpre.is_prefix_of(lines@)) by {
                        assert(lines@.subrange(0, lpre.len() as int) =~= lpre);
                    }
                    assert(lines_pi0.is_prefix_of(lines@)) by {
                        let l = lines_pi0.len() as int;
                        assert(lines@.subrange(0, l) =~= lpre.subrange(0, l));
                    }
                    assert(lines@[lpre.len() as int] == line);
                    assert(has_line(lines@, line));
                    assert forall|i: int| 0 <= i < mi + 1 implies has_line(
                        lines@,
                        (#[trigger] matching_regions@[i]).line as usize,
                    ) by {
                        if i < mi {
                            lemma_has_line_grow(lpre, lines@, matching_regions@[i].line as usize);
                        }
                    }
                    // the pushed line is backed by window-overlapping evidence
                    let alns = paf.alignments_view();
                    let k = choose|k: int|
                        0 <= k < alns.len() && aln_key(#[trigger] alns[k]) == apair_key(
                            alignment_pairs@[pi as int],
                        );
                    let qr = mrs[mi as int];
                    assert(result_sound(
                        qr,
                        *index,
                        alignment_pairs@[pi as int].query_name@,
                        alignment_pairs@[pi as int].target_name@,
                    ));
                    let (eq, et) = choose|eq: EvEntry, et: EvEntry|
                        {
                            &&& #[trigger] index.q_entries().contains(eq)
                            &&& #[trigger] index.t_entries().contains(et)
                            &&& eq.2.0 == qr.line && et.2.0 == qr.line
                            &&& (eq.2.1 as int) < index.names_seq().len()
                                && index.names_seq()[eq.2.1 as int] == alignment_pairs@[
                                pi as int].query_name@
                            &&& (et.2.1 as int) < index.names_seq().len()
                                && index.names_seq()[et.2.1 as int] == alignment_pairs@[
                                pi as int].target_name@
                            &&& eq.0 as int <= qr.segment_qstop - 1 && qr.segment_qstart
                                <= eq.1 as int
                            &&& et.0 as int <= qr.segment_tstop - 1 && qr.segment_tstart
                                <= et.1 as int
                        };
                    let s = choose|s: int|
                        0 <= s < segments@.len() && result_in_window(qr, #[trigger] segments@[s]);
                    assert(seg_view(segments@[s]) == segments@.map_values(
                        |sg: Segment| seg_view(sg),
                    )[s]);
                    assert(seg_view(segments@[s]) == pair_windows(md, alns[k], sl, st)[s]);
                    assert(pair_windows(md, alns[k], sl, st)[s].1.1 == qr.segment_qstop as int);
                    assert(pair_windows(md, alns[k], sl, st)[s].1.0 == qr.segment_qstart as int);
                    assert(pair_windows(md, alns[k], sl, st)[s].0.1 == qr.segment_tstop as int);
                    assert(pair_windows(md, alns[k], sl, st)[s].0.0 == qr.segment_tstart as int);
                    assert(line_sound(line as int, *index, alns, md, sl, st));
                    assert(qr_window(qr) == pair_windows(md, alns[k], sl, st)[s]);
                    assert(key_backed(
                        *index,
                        alignment_pairs@[pi as int].query_name@,
                        alignment_pairs@[pi as int].target_name@,
                        qr.line,
                        qr_window(qr),
                        sl,
                        config.adapt,
                    ));
                    assert(key_backed(
                        *index,
                        alns[k].query@,
                        alns[k].target@,
                        qr.line,
                        pair_windows(md, alns[k], sl, st)[s],
                        sl,
                        config.adapt,
                    ));
                    assert(line_in_sweep(line as int, *index, alns, md, sl, st, config.adapt));
                    assert forall|i: int| 0 <= i < lines@.len() implies line_in_sweep(
                        #[trigger] lines@[i] as int,
                        *index,
                        paf.alignments_view(),
                        md,
                        sl,
                        st,
                        config.adapt,
                    ) by {
                        if i < lpre.len() {
                            assert(lines@[i] == lpre[i]);
                        }
                    }
                    assert forall|i: int, j: int|
                        0 <= i < j < lines@.len() implies #[trigger] lines@[i]
                        != #[trigger] lines@[j] by {
                        if j == lpre.len() as int {
                            assert(lines@[i] == lpre[i]);
                        }
                    }
                    assert forall|i: int| 0 <= i < lines@.len() implies line_sound(
                        #[trigger] lines@[i] as int,
                        *index,
                        paf.alignments_view(),
                        md,
                        sl,
                        st,
                    ) by {
                        if i < lpre.len() {
                            assert(lines@[i] == lpre[i]);
                        }
                    }
                }
            }
            mi = mi + 1;
        }
        // every line the sweep of one of this pair's windows backs is now
        // recorded
        proof {
            let alns = paf.alignments_view();
            assert forall|k: int, s: int, lw: u32|
                0 <= k < alns.len() && (exists|ii: int|
                    0 <= ii < pi + 1 && apair_key(#[trigger] alignment_pairs@[ii]) == aln_key(
                        alns[k],
                    )) && 0 <= s < pair_windows(md, alns[k], sl, st).len() && #[trigger] key_backed(
                    *index,
                    alns[k].query@,
                    alns[k].target@,
                    lw,
                    pair_windows(md, alns[k], sl, st)[s],
                    sl,
                    config.adapt,
                ) implies has_line(lines@, lw as usize) by {
                let ii = choose|ii: int|
                    0 <= ii < pi + 1 && apair_key(#[trigger] alignment_pairs@[ii]) == aln_key(
                        alns[k],
                    );
                if ii < pi {
                    assert(exists|i2: int|
                        0 <= i2 < pi && apair_key(#[trigger] alignment_pairs@[i2]) == aln_key(
                            alns[k],
                        ));
                    assert(has_line(lines_pi0, lw as usize));
                    lemma_has_line_grow(lines_pi0, lines@, lw as usize);
                } else {
                    assert(apair_key(alignment_pairs@[pi as int]) == aln_key(alns[k]));
                    assert(alns[k].query@ == pair.query_name@);
                    assert(alns[k].target@ == pair.target_name@);
                    assert(pair_windows(md, alns[k], sl, st) == segments_spec(
                        tlen as int,
                        qlen as int,
                        sl,
                        st,
                    ));
                    assert(s < segments@.len());
                    assert(seg_view(segments@[s]) == segments@.map_values(
                        |sg: Segment| seg_view(sg),
                    )[s]);
                    assert(seg_view(segments@[s]) == pair_windows(md, alns[k], sl, st)[s]);
                    assert(key_backed(
                        *index,
                        pair.query_name@,
                        pair.target_name@,
                        lw,
                        seg_view(segments@[s]),
                        sl,
                        config.adapt,
                    ));
                    let (j, eq, et) = choose|j: int, eq: EvEntry, et: EvEntry|
                        0 <= j < sweep_regions(
                            *index,
                            pair.query_name@,
                            pair.target_name@,
                            seg_view(segments@[s]),
                            sl,
                            config.adapt,
                        ).len() && #[trigger] region_backs(
                            *index,
                            pair.query_name@,
                            pair.target_name@,
                            seg_view(segments@[s]),
                            sweep_regions(
                                *index,
                                pair.query_name@,
                                pair.target_name@,
                                seg_view(segments@[s]),
                                sl,
                                config.adapt,
                            )[j],
                            eq,
                            et,
                            lw,
                        );
                    assert(eq.2.0 == lw);
                    assert(region_backs(
                        *index,
                        pair.query_name@,
                        pair.target_name@,
                        seg_view(segments@[s]),
                        sweep_regions(
                            *index,
                            pair.query_name@,
                            pair.target_name@,
                            seg_view(segments@[s]),
                            sl,
                            config.adapt,
                        )[j],
                        eq,
                        et,
                        eq.2.0,
                    ));
                    assert(pair_recorded(
                        mrs,
                        eq.2.0,
                        segments@[s].1.0,
                        segments@[s].1.1,
                        segments@[s].0.0,
                        segments@[s].0.1,
                    ));
                    let ridx = choose|i: int|
                        0 <= i < mrs.len() && {
                            let rr = #[trigger] mrs[i];
                            &&& rr.line == eq.2.0
                            &&& rr.segment_qstart == segments@[s].1.0
                            &&& rr.segment_qstop == segments@[s].1.1
                            &&& rr.segment_tstart == segments@[s].0.0
                            &&& rr.segment_tstop == segments@[s].0.1
                        }
                    ;
                    assert(has_line(lines@, mrs[ridx].line as usize));
                }
            }
            assert forall|k: int, s: int, eq: EvEntry, et: EvEntry|
                0 <= k < alns.len() && (exists|ii: int|
                    0 <= ii < pi + 1 && apair_key(#[trigger] alignment_pairs@[ii]) == aln_key(
                        alns[k],
                    )) && 0 <= s < pair_windows(md, alns[k], sl, st).len()
                    && #[trigger] origin_evidence(
                    *index,
                    alns[k].query@,
                    alns[k].target@,
                    eq,
                    et,
                    pair_windows(md, alns[k], sl, st)[s].1.0,
                    pair_windows(md, alns[k], sl, st)[s].0.0,
                ) implies has_line(lines@, eq.2.0 as usize) by {
                let ii = choose|ii: int|
                    0 <= ii < pi + 1 && apair_key(#[trigger] alignment_pairs@[ii]) == aln_key(
                        alns[k],
                    );
                if ii < pi {
                    assert(exists|i2: int|
                        0 <= i2 < pi && apair_key(#[trigger] alignment_pairs@[i2]) == aln_key(
                            alns[k],
                        ));
                    assert(has_line(lines_pi0, eq.2.0 as usize));
                    lemma_has_line_grow(lines_pi0, lines@, eq.2.0 as usize);
                } else {
                    assert(apair_key(alignment_pairs@[pi as int]) == aln_key(alns[k]));
                    assert(alns[k].query@ == pair.query_name@);
                    assert(alns[k].target@ == pair.target_name@);
                    assert(pair_windows(md, alns[k], sl, st) == segments_spec(
                        tlen as int,
                        qlen as int,
                        sl,
                        st,
                    ));
                    assert(s < segments@.len());
                    assert(seg_view(segments@[s]) == segments@.map_values(
                        |sg: Segment| seg_view(sg),
                    )[s]);
                    assert(seg_view(segments@[s]) == pair_windows(md, alns[k], sl, st)[s]);
                    assert(origin_evidence(
                        *index,
                        query_name@,
                        target_name@,
                        eq,
                        et,
                        seg_view(segments@[s]).1.0,
                        seg_view(segments@[s]).0.0,
                    ));
                    assert(pair_recorded(
                        mrs,
                        eq.2.0,
                        segments@[s].1.0,
                        segments@[s].1.1,
                        segments@[s].0.0,
                        segments@[s].0.1,
                    ));
                    let ridx = choose|i: int|
                        0 <= i < mrs.len() && {
                            let rr = #[trigger] mrs[i];
                            &&& rr.line == eq.2.0
                            &&& rr.segment_qstart == segments@[s].1.0
                            &&& rr.segment_qstop == segments@[s].1.1
                            &&& rr.segment_tstart == segments@[s].0.0
                            &&& rr.segment_tstop == segments@[s].0.1
                        }
                    ;
                    assert(has_line(lines@, mrs[ridx].line as usize));
                }
            }
        }
        pi = pi + 1;
    }
    let sorted = sort_lines(lines);
    proof {
        assert forall|i: int| 0 <= i < sorted@.len() implies line_sound(
            #[trigger] sorted@[i] as int,
            *index,
            paf.alignments_view(),
            md,
            sl,
            st,
        ) && line_in_sweep(
            sorted@[i] as int,
            *index,
            paf.alignments_view(),
            md,
            sl,
            st,
            config.adapt,
        ) by {
            assert(has_line(sorted@, sorted@[i]));
            assert(has_line(lines@, sorted@[i]));
            let k = choose|k: int| 0 <= k < lines@.len() && #[trigger] lines@[k] == sorted@[i];
        }
        assert forall|k: int, s: int, lw: u32|
            0 <= k < paf.alignments_view().len() && 0 <= s < pair_windows(
                md,
                paf.alignments_view()[k],
                sl,
                st,
            ).len() && #[trigger] key_backed(
                *index,
                paf.alignments_view()[k].query@,
                paf.alignments_view()[k].target@,
                lw,
                pair_windows(md, paf.alignments_view()[k], sl, st)[s],
                sl,
                config.adapt,
            ) implies has_line(sorted@, lw as usize) by {
            assert(has_line(lines@, lw as usize));
            let i = choose|i: int| 0 <= i < lines@.len() && #[trigger] lines@[i] == lw as usize;
        }
    }
    sorted
}

/// Is this line already recorded?
fn contains_line(lines: &Vec<usize>, line: usize) -> (r: bool)
    ensures
        r <==> exists|i: int| 0 <= i < lines@.len() && #[trigger] lines@[i] == line,
{
    let mut i: usize = 0;
    while i < lines.len()
        invariant
            i <= lines@.len(),
            forall|k: int| 0 <= k < i ==> #[trigger] lines@[k] != line,
        decreases lines@.len() - i,
    {
        if lines[i] == line {
            return true;
        }
        i = i + 1;
    }
    false
}

/// First position whose value is at least `v`, in an ascending vector.
fn find_insert_pos(out: &Vec<usize>, v: usize) -> (pos: usize)
    ensures
        pos <= out@.len(),
        forall|a: int| 0 <= a < pos ==> #[trigger] out@[a] < v,
        pos < out@.len() ==> out@[pos as int] >= v,
{
    let mut pos: usize = 0;
    while pos < out.len()
        invariant
            pos <= out@.len(),
            forall|a: int| 0 <= a < pos ==> #[trigger] out@[a] < v,
        decreases out@.len() - pos,
    {
        if out[pos] >= v {
            return pos;
        }
        pos = pos + 1;
    }
    pos
}

/// Does `s` hold the value `v`?
pub open spec fn has_line(s: Seq<usize>, v: usize) -> bool {
    exists|i: int| 0 <= i < s.len() && #[trigger] s[i] == v
}

/// A held value stays held as the list grows at the end.
proof fn lemma_has_line_grow(pre: Seq<usize>, post: Seq<usize>, v: usize)
    requires
        has_line(pre, v),
        pre.is_prefix_of(post),
    ensures
        has_line(post, v),
{
    let i = choose|i: int| 0 <= i < pre.len() && #[trigger] pre[i] == v;
    assert(post[i] == pre[i]) by {
        assert(pre[i] == post.subrange(0, pre.len() as int)[i]);
    }
}

/// Sort distinct line numbers ascending by insertion, keeping exactly the
/// same collection of values.
fn sort_lines(lines: Vec<usize>) -> (r: Vec<usize>)
    requires
        forall|i: int, j: int| 0 <= i < j < lines@.len() ==> #[trigger] lines@[i]
            != #[trigger] lines@[j],
    ensures
        forall|i: int, j: int| 0 <= i < j < r@.len() ==> r@[i] < r@[j],
        forall|v: usize| #[trigger] has_line(r@, v) <==> has_line(lines@, v),
    {
    let mut out: Vec<usize> = Vec::new();
    let mut i: usize = 0;
    proof {
        assert(lines@.subrange(0, 0) =~= Seq::<usize>::empty());
    }
    while i < lines.len()
        invariant
            i <= lines@.len(),
            forall|a: int, b: int| 0 <= a < b < lines@.len() ==> #[trigger] lines@[a]
                != #[trigger] lines@[b],
            forall|a: int, b: int| 0 <= a < b < out@.len() ==> #[trigger] out@[a]
                < #[trigger] out@[b],
            forall|v: usize| #[trigger] has_line(out@, v) <==> has_line(
                lines@.subrange(0, i as int),
                v,
            ),
        decreases lines@.len() - i,
    {
        let v = lines[i];
        let pos = find_insert_pos(&out, v);
        proof {
            // v is distinct from everything already inserted
            if has_line(out@, v) {
                assert(has_line(lines@.subrange(0, i as int), v));
                let k2 = choose|k2: int|
                    0 <= k2 < i && #[trigger] lines@.subrange(0, i as int)[k2] == v;
                assert(lines@[k2] == lines@[i as int]);
                assert(false);
            }
        }
        let ghost opre = out@;
        out.insert(pos, v);
        proof {
            assert(out@ == opre.insert(pos as int, v));
            assert forall|a: int, b: int| 0 <= a < b < out@.len() implies #[trigger] out@[a]
                < #[trigger] out@[b] by {
                let av = if a < pos {
                    opre[a]
                } else if a == pos {
                    v
                } else {
                    opre[a - 1]
                };
                assert(out@[a] == av);
                let bv = if b < pos {
                    opre[b]
                } else if b == pos {
                    v
                } else {
                    opre[b - 1]
                };
                assert(out@[b] == bv);
                if a < pos && b == pos {
                    assert(opre[a] < v);
                } else if a == pos && b > pos {
                    assert(!(opre[b - 1] < v));
                    assert(opre[b - 1] != v);
                } else if a < pos && b > pos {
                    assert(opre[a] < v);
                    assert(!(opre[b - 1] < v));
                    assert(opre[b - 1] != v);
                }
            }
            assert forall|w: usize| #[trigger] has_line(out@, w) implies has_line(
                lines@.subrange(0, i + 1),
                w,
            ) by {
                let k = choose|k: int| 0 <= k < out@.len() && #[trigger] out@[k] == w;
                if k < pos {
                    assert(opre[k] == w);
                    assert(has_line(opre, w));
                    assert(has_line(lines@.subrange(0, i as int), w));
                    let k2 = choose|k2: int|
                        0 <= k2 < i && #[trigger] lines@.subrange(0, i as int)[k2] == w;
                    assert(lines@.subrange(0, i + 1)[k2] == w);
                } else if k == pos {
                    assert(lines@.subrange(0, i + 1)[i as int] == w);
                } else {
                    assert(opre[k - 1] == w);
                    assert(has_line(opre, w));
                    assert(has_line(lines@.subrange(0, i as int), w));
                    let k2 = choose|k2: int|
                        0 <= k2 < i && #[trigger] lines@.subrange(0, i as int)[k2] == w;
                    assert(lines@.subrange(0, i + 1)[k2] == w);
                }
            }
            assert forall|w: usize| #[trigger] has_line(lines@.subrange(0, i + 1), w) implies
                has_line(out@, w) by {
                let k = choose|k: int|
                    0 <= k < i + 1 && #[trigger] lines@.subrange(0, i + 1)[k] == w;
                if k < i {
                    assert(lines@.subrange(0, i as int)[k] == w);
                    assert(has_line(lines@.subrange(0, i as int), w));
                    assert(has_line(opre, w));
                    let k2 = choose|k2: int| 0 <= k2 < opre.len() && #[trigger] opre[k2] == w;
                    if k2 < pos {
                        assert(out@[k2] == w);
                    } else {
                        assert(out@[k2 + 1] == w);
                    }
                } else {
                    assert(out@[pos as int] == w);
                }
            }
        }
        i = i + 1;
    }
    proof {
        assert(lines@.subrange(0, lines@.len() as int) =~= lines@);
    }
    out
}

/// The filter is deterministic: any two outputs meeting `filter`'s contract
/// for the same index contents, records, length lookup and window
/// configuration are the same list.  Running the filter twice on the same
/// inputs therefore gives identical output, and the output does not depend
/// on the thread count, the verbosity level or any scheduling order, none of
/// which appear among these arguments.
pub proof fn lemma_filter_deterministic(
    r1: Seq<usize>,
    r2: Seq<usize>,
    index: Index,
    alns: Seq<PafAlignment>,
    md: Map<Seq<char>, u32>,
    seg_len: int,
    step: int,
    adapt: bool,
)
    requires
        forall|i: int, j: int| 0 <= i < j < r1.len() ==> r1[i] < r1[j],
        forall|i: int, j: int| 0 <= i < j < r2.len() ==> r2[i] < r2[j],
        forall|i: int|
            0 <= i < r1.len() ==> line_in_sweep(
                #[trigger] r1[i] as int,
                index,
                alns,
                md,
                seg_len,
                step,
                adapt,
            ),
        forall|i: int|
            0 <= i < r2.len() ==> line_in_sweep(
                #[trigger] r2[i] as int,
                index,
                alns,
                md,
                seg_len,
                step,
                adapt,
            ),
        forall|k: int, s: int, lw: u32|
            0 <= k < alns.len() && 0 <= s < pair_windows(md, alns[k], seg_len, step).len()
                && #[trigger] key_backed(
                index,
                alns[k].query@,
                alns[k].target@,
                lw,
                pair_windows(md, alns[k], seg_len, step)[s],
                seg_len,
                adapt,
            ) ==> has_line(r1, lw as usize),
        forall|k: int, s: int, lw: u32|
            0 <= k < alns.len() && 0 <= s < pair_windows(md, alns[k], seg_len, step).len()
                && #[trigger] key_backed(
                index,
                alns[k].query@,
                alns[k].target@,
                lw,
                pair_windows(md, alns[k], seg_len, step)[s],
                seg_len,
                adapt,
            ) ==> has_line(r2, lw as usize),
    ensures
        r1 == r2,
{
    assert forall|v: usize| has_line(r1, v) implies has_line(r2, v) by {
        let i = choose|i: int| 0 <= i < r1.len() && #[trigger] r1[i] == v;
        assert(line_in_sweep(r1[i] as int, index, alns, md, seg_len, step, adapt));
        let (k, s, lw) = choose|k: int, s: int, lw: u32|
            0 <= k < alns.len() && 0 <= s < pair_windows(md, alns[k], seg_len, step).len()
                && lw as int == r1[i] as int && #[trigger] key_backed(
                index,
                alns[k].query@,
                alns[k].target@,
                lw,
                pair_windows(md, alns[k], seg_len, step)[s],
                seg_len,
                adapt,
            );
        assert(has_line(r2, lw as usize));
        assert(lw as usize == v);
    }
    assert forall|v: usize| has_line(r2, v) implies has_line(r1, v) by {
        let i = choose|i: int| 0 <= i < r2.len() && #[trigger] r2[i] == v;
        assert(line_in_sweep(r2[i] as int, index, alns, md, seg_len, step, adapt));
        let (k, s, lw) = choose|k: int, s: int, lw: u32|
            0 <= k < alns.len() && 0 <= s < pair_windows(md, alns[k], seg_len, step).len()
                && lw as int == r2[i] as int && #[trigger] key_backed(
                index,
                alns[k].query@,
                alns[k].target@,
                lw,
                pair_windows(md, alns[k], seg_len, step)[s],
                seg_len,
                adapt,
            );
        assert(has_line(r1, lw as usize));
        assert(lw as usize == v);
    }
    lemma_sorted_unique(r1, r2);
}

/// The surviving set determines the output: two sorted, duplicate-free line
/// lists with the same members are the same list, whatever order their
/// verdicts were gathered in.
pub proof fn lemma_sorted_unique(r1: Seq<usize>, r2: Seq<usize>)
    requires
        forall|i: int, j: int| 0 <= i < j < r1.len() ==> r1[i] < r1[j],
        forall|i: int, j: int| 0 <= i < j < r2.len() ==> r2[i] < r2[j],
        forall|v: usize| has_line(r1, v) <==> has_line(r2, v),
    ensures
        r1 == r2,
    decreases r1.len(),
{
    if r1.len() == 0 {
        if r2.len() > 0 {
            assert(r2[0] == r2[0]);
            assert(has_line(r2, r2[0]));
            assert(has_line(r1, r2[0]));
            assert(false);
        }
        assert(r1 =~= r2);
    } else {
        if r2.len() == 0 {
            assert(r1[0] == r1[0]);
            assert(has_line(r1, r1[0]));
            assert(has_line(r2, r1[0]));
            assert(false);
        }
        // the heads are both the least member, so they agree
        assert(has_line(r1, r1[0]));
        assert(has_line(r2, r1[0]));
        let k2 = choose|k: int| 0 <= k < r2.len() && #[trigger] r2[k] == r1[0];
        assert(has_line(r2, r2[0]));
        assert(has_line(r1, r2[0]));
        let k1 = choose|k: int| 0 <= k < r1.len() && #[trigger] r1[k] == r2[0];
        assert(r2[0] <= r2[k2]);
        assert(r1[0] <= r1[k1]);
        assert(r1[0] == r2[0]);
        // the tails hold the same members
        let t1 = r1.subrange(1, r1.len() as int);
        let t2 = r2.subrange(1, r2.len() as int);
        assert(forall|i: int, j: int| 0 <= i < j < t1.len() ==> t1[i] < t1[j]) by {
            assert(forall|i: int| 0 <= i < t1.len() ==> t1[i] == r1[i + 1]);
        }
        assert(forall|i: int, j: int| 0 <= i < j < t2.len() ==> t2[i] < t2[j]) by {
            assert(forall|i: int| 0 <= i < t2.len() ==> t2[i] == r2[i + 1]);
        }
        assert forall|v: usize| has_line(t1, v) implies has_line(t2, v) by {
            let k = choose|k: int| 0 <= k < t1.len() && #[trigger] t1[k] == v;
            assert(r1[k + 1] == v);
            assert(has_line(r1, v));
            assert(has_line(r2, v));
            let m = choose|m: int| 0 <= m < r2.len() && #[trigger] r2[m] == v;
            assert(v > r1[0]);
            assert(m > 0);
            assert(t2[m - 1] == v);
        }
        assert forall|v: usize| has_line(t2, v) implies has_line(t1, v) by {
            let k = choose|k: int| 0 <= k < t2.len() && #[trigger] t2[k] == v;
            assert(r2[k + 1] == v);
            assert(has_line(r2, v));
            assert(has_line(r1, v));
            let m = choose|m: int| 0 <= m < r1.len() && #[trigger] r1[m] == v;
            assert(v > r2[0]);
            assert(m > 0);
            assert(t1[m - 1] == v);
        }
        lemma_sorted_unique(t1, t2);
        assert(r1.len() == r2.len());
        assert forall|i: int| 0 <= i < r1.len() implies r1[i] == r2[i] by {
            if i > 0 {
                assert(t1[i - 1] == r1[i]);
                assert(t2[i - 1] == r2[i]);
            }
        }
        assert(r1 =~= r2);
    }
}

} // verus!
