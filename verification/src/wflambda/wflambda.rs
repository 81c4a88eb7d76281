//! The diagonal-wavefront search used as a match oracle over one window.
//!
//! One call probes a window of `tlen` by `qlen` positions.  A wavefront holds
//! per diagonal the furthest target offset reached at a given score; at each
//! score every diagonal is extended for as long as the match test keeps
//! answering true, each non-empty run being recorded; then the score grows,
//! the band widens by one on each side (narrowed around the best diagonal in
//! adaptive mode), and the new offsets are derived from their neighbours.
//! The search stops when the window is consumed or the score ceiling is
//! reached; extension order is scores ascending, diagonals ascending.

use vstd::prelude::*;
use crate::filter::types::MatchRegion;
use crate::wflambda::types::{WaveFront, zero_offsets};
use crate::wflambda::utils::compute_k;

verus! {

/// Smallest target offset a grid state on diagonal `d` can have.
pub open spec fn hmin(d: int) -> int {
    if d > 0 {
        d
    } else {
        0
    }
}

/// Largest target offset a grid state on diagonal `d` can have in a window.
pub open spec fn hmax(d: int, tlen: int, qlen: int) -> int {
    if tlen <= qlen + d {
        tlen
    } else {
        qlen + d
    }
}

/// A wavefront frame is well-formed for a window: its band lies inside the
/// window's diagonal range and every offset in the band is a grid position.
pub open spec fn frame_wf(w: WaveFront, tlen: int, qlen: int) -> bool {
    &&& -qlen < w.low as int
    &&& w.low as int <= w.high as int
    &&& w.high as int <= tlen - 1
    &&& w.m_wavefront@.len() == tlen + qlen
    &&& forall|d: int|
        w.low as int <= d <= w.high as int ==> hmin(d) <= #[trigger] w.m_wavefront@[qlen - 1
            + d] as int <= hmax(d, tlen, qlen)
}

/// A recorded region is a non-empty diagonal run inside the window, every
/// position of which satisfied the match predicate.
pub open spec fn region_sound(
    r: MatchRegion,
    tlen: int,
    qlen: int,
    p: spec_fn(int, int) -> bool,
) -> bool {
    &&& r.query_start < r.query_stop <= qlen
    &&& r.text_start < r.text_stop <= tlen
    &&& r.query_stop - r.query_start == r.text_stop - r.text_start
    &&& forall|e: int|
        0 <= e < r.query_stop - r.query_start ==> #[trigger] p(r.query_start + e, r.text_start + e)
}

/// The window is consumed: the frame's band reaches the diagonal the search
/// ends on and the offset there has crossed the whole target window.
pub open spec fn window_consumed(w: WaveFront, tlen: int, qlen: int) -> bool {
    &&& w.low as int <= tlen - qlen <= w.high as int
    &&& w.m_wavefront@[qlen - 1 + (tlen - qlen)] as int >= tlen
}

/// Some recorded region starts at the window origin.
pub open spec fn has_origin_region(rs: Seq<MatchRegion>) -> bool {
    exists|j: int|
        0 <= j < rs.len() && (#[trigger] rs[j]).query_start == 0 && rs[j].text_start == 0
}

pub open spec fn regions_sound(
    rs: Seq<MatchRegion>,
    tlen: int,
    qlen: int,
    p: spec_fn(int, int) -> bool,
) -> bool {
    forall|j: int| 0 <= j < rs.len() ==> region_sound(#[trigger] rs[j], tlen, qlen, p)
}

/// The number of consecutive positions from target offset `h` along
/// diagonal `d` on which the predicate holds, stopping at the window edge
/// `hm`.
pub open spec fn ext_len(p: spec_fn(int, int) -> bool, d: int, h: int, hm: int) -> int
    decreases hm - h
        when h <= hm
{
    if h >= hm || !p(h - d, h) {
        0
    } else {
        1 + ext_len(p, d, h + 1, hm)
    }
}

pub proof fn lemma_ext_len_bounds(p: spec_fn(int, int) -> bool, d: int, h: int, hm: int)
    requires
        h <= hm,
    ensures
        0 <= ext_len(p, d, h, hm) <= hm - h,
    decreases hm - h,
{
    if !(h >= hm || !p(h - d, h)) {
        lemma_ext_len_bounds(p, d, h + 1, hm);
    }
}

/// The m-track and recorded regions after maximally extending the diagonals
/// `[lo, d)` of a frame, in ascending order: each diagonal's offset advances
/// by its extension length, and every non-empty run is recorded.
pub open spec fn extend_upto(
    m: Seq<u64>,
    regs: Seq<MatchRegion>,
    lo: int,
    d: int,
    tlen: int,
    qlen: int,
    p: spec_fn(int, int) -> bool,
) -> (Seq<u64>, Seq<MatchRegion>)
    decreases d - lo
        when lo <= d
{
    if d <= lo {
        (m, regs)
    } else {
        let (m1, r1) = extend_upto(m, regs, lo, d - 1, tlen, qlen, p);
        let dd = d - 1;
        let h0 = m1[qlen - 1 + dd] as int;
        let e = ext_len(p, dd, h0, hmax(dd, tlen, qlen));
        let m2 = m1.update(qlen - 1 + dd, (h0 + e) as u64);
        if e > 0 {
            (
                m2,
                r1.push(
                    MatchRegion {
                        query_start: (h0 - dd) as usize,
                        query_stop: (h0 + e - dd) as usize,
                        text_start: h0 as usize,
                        text_stop: (h0 + e) as usize,
                    },
                ),
            )
        } else {
            (m2, r1)
        }
    }
}

/// One diagonal of a frame was extended as far as the match predicate
/// allows: its offset never shrank, it stopped only at the window edge or at
/// a position the predicate refutes, and any progress left a recorded region
/// covering exactly the run.
pub open spec fn extended_maximally(
    pre: WaveFront,
    post: WaveFront,
    regs_pre: Seq<MatchRegion>,
    regs_post: Seq<MatchRegion>,
    dd: int,
    tlen: int,
    qlen: int,
    p: spec_fn(int, int) -> bool,
) -> bool {
    let o0 = pre.m_wavefront@[qlen - 1 + dd] as int;
    let o1 = post.m_wavefront@[qlen - 1 + dd] as int;
    &&& o0 <= o1
    &&& (o1 < hmax(dd, tlen, qlen) ==> !p(o1 - dd, o1))
    &&& (o1 > o0 ==> exists|j: int|
        regs_pre.len() <= j < regs_post.len() && {
            let rg = #[trigger] regs_post[j];
            &&& rg.query_start == o0 - dd
            &&& rg.text_start == o0
            &&& rg.query_stop == o1 - dd
            &&& rg.text_stop == o1
        })
}

/// Greedily advance every diagonal of the frame while the match test keeps
/// answering true, recording each non-empty run.  Diagonals are visited in
/// ascending order.
pub fn wf_extend<F: Fn(usize, usize) -> bool + Copy>(
    wavefront: &mut WaveFront,
    match_lambda: F,
    tlen: usize,
    qlen: usize,
    Ghost(p): Ghost<spec_fn(int, int) -> bool>,
    regions: &mut Vec<MatchRegion>,
)
    requires
        1 <= tlen <= 0x7fff_ffff,
        1 <= qlen <= 0x7fff_ffff,
        tlen + qlen <= 0x7fff_ffff,
        frame_wf(*old(wavefront), tlen as int, qlen as int),
        forall|v: usize, h: usize| v < qlen && h < tlen ==> match_lambda.requires((v, h)),
        forall|v: usize, h: usize, b: bool|
            match_lambda.ensures((v, h), b) ==> b == p(v as int, h as int),
        regions_sound(old(regions)@, tlen as int, qlen as int, p),
    ensures
        frame_wf(*final(wavefront), tlen as int, qlen as int),
        final(wavefront).low == old(wavefront).low,
        final(wavefront).high == old(wavefront).high,
        final(wavefront).i_wavefront == old(wavefront).i_wavefront,
        final(wavefront).d_wavefront == old(wavefront).d_wavefront,
        regions_sound(final(regions)@, tlen as int, qlen as int, p),
        old(regions)@.is_prefix_of(final(regions)@),
        forall|dd: int|
            old(wavefront).low as int <= dd <= old(wavefront).high as int ==> extended_maximally(
                *old(wavefront),
                *final(wavefront),
                old(regions)@,
                final(regions)@,
                dd,
                tlen as int,
                qlen as int,
                p,
            ),
        ({
            let (m2, r2) = extend_upto(
                old(wavefront).m_wavefront@,
                old(regions)@,
                old(wavefront).low as int,
                old(wavefront).high as int + 1,
                tlen as int,
                qlen as int,
                p,
            );
            final(wavefront).m_wavefront@ == m2 && final(regions)@ == r2
        }),
{
    let ghost regs0 = regions@;
    proof {
        assert(regs0.subrange(0, regs0.len() as int) =~= regs0);
    }
    let mut d: i32 = wavefront.low;
    while d <= wavefront.high
        invariant
            1 <= tlen <= 0x7fff_ffff,
            1 <= qlen <= 0x7fff_ffff,
            tlen + qlen <= 0x7fff_ffff,
            frame_wf(*wavefront, tlen as int, qlen as int),
            wavefront.low == old(wavefront).low,
            wavefront.high == old(wavefront).high,
            wavefront.i_wavefront == old(wavefront).i_wavefront,
            wavefront.d_wavefront == old(wavefront).d_wavefront,
            wavefront.low as int <= d as int <= wavefront.high as int + 1,
            forall|v: usize, h: usize| v < qlen && h < tlen ==> match_lambda.requires((v, h)),
            forall|v: usize, h: usize, b: bool|
                match_lambda.ensures((v, h), b) ==> b == p(v as int, h as int),
            regions_sound(regions@, tlen as int, qlen as int, p),
            regs0.is_prefix_of(regions@),
            forall|dd: int|
                d as int <= dd <= wavefront.high as int ==> #[trigger] wavefront.m_wavefront@[qlen
                    - 1 + dd] == old(wavefront).m_wavefront@[qlen - 1 + dd],
            forall|dd: int|
                wavefront.low as int <= dd < d as int ==> extended_maximally(
                    *old(wavefront),
                    *wavefront,
                    regs0,
                    regions@,
                    dd,
                    tlen as int,
                    qlen as int,
                    p,
                ),
            ({
                let (m2, r2) = extend_upto(
                    old(wavefront).m_wavefront@,
                    regs0,
                    old(wavefront).low as int,
                    d as int,
                    tlen as int,
                    qlen as int,
                    p,
                );
                wavefront.m_wavefront@ == m2 && regions@ == r2
            }),
        decreases wavefront.high + 1 - d,
    {
        let ghost regs_iter = regions@;
        let ghost frame_iter = *wavefront;
        let idx = compute_k(qlen, d);
        let h0: usize = wavefront.m_wavefront[idx] as usize;
        // largest target offset this diagonal can reach inside the window
        let qd: i64 = qlen as i64 + d as i64;
        let hm: usize = if (tlen as i64) <= qd {
            tlen
        } else {
            qd as usize
        };
        proof {
            assert(hm as int == hmax(d as int, tlen as int, qlen as int));
            assert(hmin(d as int) <= h0 as int <= hmax(d as int, tlen as int, qlen as int));
        }
        let mut h: usize = h0;
        while h < hm
            invariant_except_break
                1 <= tlen <= 0x7fff_ffff,
                1 <= qlen <= 0x7fff_ffff,
                hmin(d as int) <= h0 as int,
                h0 <= h <= hm,
                hm as int == hmax(d as int, tlen as int, qlen as int),
                forall|v: usize, hh: usize| v < qlen && hh < tlen ==> match_lambda.requires((
                    v,
                    hh,
                )),
                forall|v: usize, hh: usize, b: bool|
                    match_lambda.ensures((v, hh), b) ==> b == p(v as int, hh as int),
                forall|e: int| h0 as int <= e < h as int ==> #[trigger] p(e - d as int, e),
                ext_len(p, d as int, h0 as int, hm as int) == (h - h0) + ext_len(
                    p,
                    d as int,
                    h as int,
                    hm as int,
                ),
            ensures
                h0 <= h <= hm,
                forall|e: int| h0 as int <= e < h as int ==> #[trigger] p(e - d as int, e),
                h == hm || !p(h as int - d as int, h as int),
                h - h0 == ext_len(p, d as int, h0 as int, hm as int),
            decreases hm - h,
        {
            let v: usize = (h as i64 - d as i64) as usize;
            proof {
                assert(v as int == h as int - d as int);
                assert(v < qlen);
                assert(h < tlen);
            }
            if match_lambda(v, h) {
                proof {
                    assert(p(h as int - d as int, h as int));
                    assert(ext_len(p, d as int, h as int, hm as int) == 1 + ext_len(
                        p,
                        d as int,
                        h as int + 1,
                        hm as int,
                    ));
                }
                h = h + 1;
            } else {
                proof {
                    assert(!p(h as int - d as int, h as int));
                    assert(ext_len(p, d as int, h as int, hm as int) == 0);
                }
                break;
            }
        }
        proof {
            if h == hm {
                assert(ext_len(p, d as int, h as int, hm as int) == 0);
            }
            assert(h - h0 == ext_len(p, d as int, h0 as int, hm as int));
        }
        if h > h0 {
            let v0: usize = (h0 as i64 - d as i64) as usize;
            let v1: usize = (h as i64 - d as i64) as usize;
            let region = MatchRegion {
                query_start: v0,
                query_stop: v1,
                text_start: h0,
                text_stop: h,
            };
            proof {
                assert(v0 as int == h0 as int - d as int);
                assert(v1 as int == h as int - d as int);
                assert(region_sound(region, tlen as int, qlen as int, p)) by {
                    assert forall|e: int|
                        0 <= e < region.query_stop - region.query_start implies #[trigger] p(
                        region.query_start + e,
                        region.text_start + e,
                    ) by {
                        assert(p((h0 as int + e) - d as int, h0 as int + e));
                    }
                }
            }
            let ghost rpre = regions@;
            regions.push(region);
            proof {
                assert(rpre.is_prefix_of(regions@)) by {
                    assert(regions@.subrange(0, rpre.len() as int) =~= rpre);
                }
                assert(regs0.is_prefix_of(regions@)) by {
                    assert(regions@.subrange(0, regs0.len() as int) =~= rpre.subrange(
                        0,
                        regs0.len() as int,
                    ));
                }
                assert forall|j: int| 0 <= j < regions@.len() implies region_sound(
                    #[trigger] regions@[j],
                    tlen as int,
                    qlen as int,
                    p,
                ) by {
                    if j < rpre.len() {
                        assert(regions@[j] == rpre[j]);
                    }
                }
            }
        }
        let ghost mpre = wavefront.m_wavefront@;
        wavefront.m_wavefront[idx] = h as u64;
        proof {
            assert(wavefront.m_wavefront@ =~= mpre.update(idx as int, h as u64));
            assert forall|dd: int|
                wavefront.low as int <= dd <= wavefront.high as int implies hmin(dd)
                <= #[trigger] wavefront.m_wavefront@[qlen - 1 + dd] as int <= hmax(
                dd,
                tlen as int,
                qlen as int,
            ) by {
                if qlen - 1 + dd != idx as int {
                    assert(wavefront.m_wavefront@[qlen - 1 + dd] == mpre[qlen - 1 + dd]);
                } else {
                    assert(dd == d as int);
                }
            }
            assert forall|dd: int|
                d as int + 1 <= dd <= wavefront.high as int implies
                #[trigger] wavefront.m_wavefront@[qlen - 1 + dd] == old(
                wavefront,
            ).m_wavefront@[qlen - 1 + dd] by {
                assert(qlen - 1 + dd != idx as int);
                assert(wavefront.m_wavefront@[qlen - 1 + dd] == mpre[qlen - 1 + dd]);
            }
            assert forall|dd: int| wavefront.low as int <= dd < d as int + 1 implies
                extended_maximally(
                *old(wavefront),
                *wavefront,
                regs0,
                regions@,
                dd,
                tlen as int,
                qlen as int,
                p,
            ) by {
                if dd < d as int {
                    // earlier diagonals kept their offsets and regions only grew
                    assert(extended_maximally(
                        *old(wavefront),
                        frame_iter,
                        regs0,
                        regs_iter,
                        dd,
                        tlen as int,
                        qlen as int,
                        p,
                    ));
                    assert(qlen - 1 + dd != idx as int);
                    assert(wavefront.m_wavefront@[qlen - 1 + dd] == frame_iter.m_wavefront@[qlen - 1
                        + dd]);
                    let o0 = old(wavefront).m_wavefront@[qlen - 1 + dd] as int;
                    let o1 = wavefront.m_wavefront@[qlen - 1 + dd] as int;
                    if o1 > o0 {
                        let j = choose|j: int|
                            regs0.len() <= j < regs_iter.len() && {
                                let rg = #[trigger] regs_iter[j];
                                &&& rg.query_start == o0 - dd
                                &&& rg.text_start == o0
                                &&& rg.query_stop == o1 - dd
                                &&& rg.text_stop == o1
                            };
                        assert(regions@[j] == regs_iter[j]) by {
                            assert(regs_iter.is_prefix_of(regions@));
                            assert(regs_iter[j] == regions@.subrange(0, regs_iter.len() as int)[j]);
                        }
                    }
                } else {
                    // this iteration's diagonal: the extension loop stopped at
                    // the edge or at a refuted position, and any progress
                    // pushed exactly the run's region
                    assert(wavefront.m_wavefront@[qlen - 1 + dd] == h as u64);
                    assert(frame_iter.m_wavefront@[qlen - 1 + dd] == old(
                        wavefront,
                    ).m_wavefront@[qlen - 1 + dd]);
                    let o0 = old(wavefront).m_wavefront@[qlen - 1 + dd] as int;
                    assert(o0 == h0 as int);
                    if h > h0 {
                        assert(regions@[regs_iter.len() as int].text_start == h0);
                    }
                }
            }
            // the step matches the specification of one maximal extension
            let lo = old(wavefront).low as int;
            let (m1, r1) = extend_upto(
                old(wavefront).m_wavefront@,
                regs0,
                lo,
                d as int,
                tlen as int,
                qlen as int,
                p,
            );
            assert(frame_iter.m_wavefront@ == m1);
            assert(regs_iter == r1);
            let (m2, r2) = extend_upto(
                old(wavefront).m_wavefront@,
                regs0,
                lo,
                d as int + 1,
                tlen as int,
                qlen as int,
                p,
            );
            assert(m1[qlen - 1 + d] == frame_iter.m_wavefront@[qlen - 1 + d]);
            assert(h0 as int == m1[qlen - 1 + d] as int);
            lemma_ext_len_bounds(p, d as int, h0 as int, hm as int);
            assert(h as int == h0 as int + ext_len(p, d as int, h0 as int, hm as int));
            assert(m2 == m1.update(qlen - 1 + d, (h0 as int + ext_len(
                p,
                d as int,
                h0 as int,
                hm as int,
            )) as u64));
            assert(wavefront.m_wavefront@ == m2) by {
                assert(wavefront.m_wavefront@ =~= m1.update(idx as int, h as u64));
            }
            assert(regions@ == r2) by {
                if h > h0 {
                    assert(regions@ == regs_iter.push(regions@[regs_iter.len() as int]));
                    assert(regions@[regs_iter.len() as int].query_start as int == h0 as int
                        - d as int);
                    assert(regions@[regs_iter.len() as int].query_stop as int == h as int
                        - d as int);
                    assert(regions@[regs_iter.len() as int].text_start == h0);
                    assert(regions@[regs_iter.len() as int].text_stop == h);
                }
            }
        }
        d = d + 1;
    }
}

/// The furthest-reaching diagonal among `[lo, dd)` of a frame, ties going to
/// the lower diagonal, with its reach `2 * offset - diagonal`.
pub open spec fn best_upto(m: Seq<u64>, lo: int, dd: int, qlen: int) -> (int, int)
    decreases dd - lo
        when lo < dd
{
    if dd <= lo + 1 {
        (lo, 2 * (m[qlen - 1 + lo] as int) - lo)
    } else {
        let (bd, br) = best_upto(m, lo, dd - 1, qlen);
        let reach = 2 * (m[qlen - 1 + (dd - 1)] as int) - (dd - 1);
        if reach > br {
            (dd - 1, reach)
        } else {
            (bd, br)
        }
    }
}

/// The next score's diagonal band: one wider on each side inside the window,
/// narrowed to ten diagonals around the furthest-reaching one in adaptive
/// mode.
pub open spec fn next_band(
    lo: int,
    hi: int,
    m: Seq<u64>,
    adapt: bool,
    tlen: int,
    qlen: int,
) -> (int, int) {
    let l0 = if lo > 1 - qlen {
        lo - 1
    } else {
        1 - qlen
    };
    let h0 = if hi < tlen - 1 {
        hi + 1
    } else {
        tlen - 1
    };
    if adapt {
        let bd = best_upto(m, lo, hi + 1, qlen).0;
        let l1 = if l0 < bd - 10 {
            bd - 10
        } else {
            l0
        };
        let h1 = if h0 > bd + 10 {
            bd + 10
        } else {
            h0
        };
        (l1, h1)
    } else {
        (l0, h0)
    }
}

/// The next score's base offset on one diagonal, before extension: the best
/// of a mismatch step, an insertion from the diagonal above and a deletion
/// from the diagonal below, clamped to the window.
pub open spec fn succ_val(m: Seq<u64>, lo: int, hi: int, dd: int, tlen: int, qlen: int) -> int {
    let a = if lo <= dd && dd <= hi {
        m[qlen - 1 + dd] as int + 1
    } else {
        -1
    };
    let b = if lo <= dd + 1 && dd + 1 <= hi {
        m[qlen - 1 + dd + 1] as int
    } else {
        -1
    };
    let c = if lo <= dd - 1 && dd - 1 <= hi {
        m[qlen - 1 + dd - 1] as int + 1
    } else {
        -1
    };
    let ab = if b > a {
        b
    } else {
        a
    };
    let cand = if c > ab {
        c
    } else {
        ab
    };
    if cand > hmax(dd, tlen, qlen) {
        hmax(dd, tlen, qlen)
    } else {
        cand
    }
}

/// The next score's whole base m-track: successor offsets on the new band's
/// slots, zero elsewhere.
pub open spec fn next_m(
    m: Seq<u64>,
    lo: int,
    hi: int,
    lo2: int,
    hi2: int,
    tlen: int,
    qlen: int,
) -> Seq<u64> {
    Seq::new(
        (tlen + qlen) as nat,
        |i: int|
            if qlen - 1 + lo2 <= i && i <= qlen - 1 + hi2 {
                succ_val(m, lo, hi, i - (qlen - 1), tlen, qlen) as u64
            } else {
                0u64
            },
    )
}

/// The search state after the extension of score `s`: the band, the m-track
/// and all regions recorded so far.
pub open spec fn engine_state(
    tlen: int,
    qlen: int,
    adapt: bool,
    p: spec_fn(int, int) -> bool,
    s: int,
) -> (int, int, Seq<u64>, Seq<MatchRegion>)
    decreases s
        when s >= 0
{
    if s <= 0 {
        let m0 = Seq::new((tlen + qlen) as nat, |i: int| 0u64);
        let (m1, r1) = extend_upto(m0, Seq::empty(), 0, 1, tlen, qlen, p);
        (0, 0, m1, r1)
    } else {
        let (lo, hi, m, regs) = engine_state(tlen, qlen, adapt, p, s - 1);
        let (lo2, hi2) = next_band(lo, hi, m, adapt, tlen, qlen);
        let mb = next_m(m, lo, hi, lo2, hi2, tlen, qlen);
        let (m2, r2) = extend_upto(mb, regs, lo2, hi2 + 1, tlen, qlen, p);
        (lo2, hi2, m2, r2)
    }
}

/// Is the window consumed after the extension of score `s`?
pub open spec fn consumed_at(
    tlen: int,
    qlen: int,
    adapt: bool,
    p: spec_fn(int, int) -> bool,
    s: int,
) -> bool {
    let (lo, hi, m, _) = engine_state(tlen, qlen, adapt, p, s);
    lo <= tlen - qlen <= hi && m[qlen - 1 + (tlen - qlen)] as int >= tlen
}

/// The score the search stops at, from `s` on: the first consumed score, or
/// the ceiling.
pub open spec fn stop_score(
    tlen: int,
    qlen: int,
    max_score: int,
    adapt: bool,
    p: spec_fn(int, int) -> bool,
    s: int,
) -> int
    decreases max_score - s
        when 0 <= s <= max_score
{
    if consumed_at(tlen, qlen, adapt, p, s) || s >= max_score {
        s
    } else {
        stop_score(tlen, qlen, max_score, adapt, p, s + 1)
    }
}

/// With no consumption before `s`, and consumption or the ceiling at `s`,
/// the search stops exactly at `s`.
proof fn lemma_stop_from(
    tlen: int,
    qlen: int,
    max_score: int,
    adapt: bool,
    p: spec_fn(int, int) -> bool,
    i: int,
    s: int,
)
    requires
        0 <= i <= s <= max_score,
        forall|x: int| i <= x < s ==> !consumed_at(tlen, qlen, adapt, p, x),
        consumed_at(tlen, qlen, adapt, p, s) || s == max_score,
    ensures
        stop_score(tlen, qlen, max_score, adapt, p, i) == s,
    decreases s - i,
{
    if i < s {
        lemma_stop_from(tlen, qlen, max_score, adapt, p, i + 1, s);
    }
}

/// Run the bounded wavefront search over one window of `tlen` target and
/// `qlen` query positions.  The match test drives free extension along
/// diagonals; the score grows until the window is consumed or `max_score` is
/// reached, the band widening by one diagonal per score on each side (and, in
/// adaptive mode, narrowed to ten diagonals around the furthest-reaching
/// one).  Returns whether the window was consumed, every recorded extension
/// run, and the final frame; each run covers only positions the match test
/// answered true for, and the whole result is pinned to the specification
/// of the search (`engine_state`, `stop_score`), so it is a function of the
/// window, the ceiling, the mode and the match predicate alone.
#[verifier::rlimit(80)]
pub fn wf_align<F: Fn(usize, usize) -> bool + Copy>(
    match_lambda: F,
    tlen: usize,
    qlen: usize,
    max_score: usize,
    adapt: bool,
    Ghost(p): Ghost<spec_fn(int, int) -> bool>,
) -> (res: (bool, Vec<MatchRegion>, WaveFront))
    requires
        1 <= tlen <= 0x7fff_ffff,
        1 <= qlen <= 0x7fff_ffff,
        tlen + qlen <= 0x7fff_ffff,
        forall|v: usize, h: usize| v < qlen && h < tlen ==> match_lambda.requires((v, h)),
        forall|v: usize, h: usize, b: bool|
            match_lambda.ensures((v, h), b) ==> b == p(v as int, h as int),
    ensures
        regions_sound(res.1@, tlen as int, qlen as int, p),
        p(0, 0) ==> has_origin_region(res.1@),
        frame_wf(res.2, tlen as int, qlen as int),
        res.0 == window_consumed(res.2, tlen as int, qlen as int),
        ({
            let stop = stop_score(tlen as int, qlen as int, max_score as int, adapt, p, 0);
            let (lo, hi, m, regs) = engine_state(tlen as int, qlen as int, adapt, p, stop);
            &&& res.0 == consumed_at(tlen as int, qlen as int, adapt, p, stop)
            &&& res.1@ == regs
            &&& res.2.low as int == lo
            &&& res.2.high as int == hi
            &&& res.2.m_wavefront@ == m
        }),
{
    let size = tlen + qlen;
    let mut regions: Vec<MatchRegion> = Vec::new();
    let mut frame = WaveFront::new(0, 0, size);
    let ghost frame0 = frame;
    proof {
        assert(frame_wf(frame, tlen as int, qlen as int));
        assert(frame0.m_wavefront@ =~= Seq::new((tlen + qlen) as nat, |i: int| 0u64));
        assert(regions@ =~= Seq::<MatchRegion>::empty());
    }
    wf_extend(&mut frame, match_lambda, tlen, qlen, Ghost(p), &mut regions);
    proof {
        let st0 = engine_state(tlen as int, qlen as int, adapt, p, 0);
        assert(frame.low as int == st0.0 && frame.high as int == st0.1 && frame.m_wavefront@
            == st0.2 && regions@ == st0.3);
    }
    proof {
        if p(0, 0) {
            assert(extended_maximally(
                frame0,
                frame,
                Seq::<MatchRegion>::empty(),
                regions@,
                0,
                tlen as int,
                qlen as int,
                p,
            ));
            assert(frame0.m_wavefront@[qlen - 1] == 0u64);
            let o1 = frame.m_wavefront@[qlen - 1] as int;
            assert(hmax(0, tlen as int, qlen as int) >= 1);
            if o1 == 0 {
                assert(!p(0 - 0, 0));
                assert(false);
            }
            assert(has_origin_region(regions@));
        }
    }
    // the diagonal on which the search ends
    let c: i32 = (tlen as i64 - qlen as i64) as i32;
    let mut score: usize = 0;
    loop
        invariant
            1 <= tlen <= 0x7fff_ffff,
            1 <= qlen <= 0x7fff_ffff,
            tlen + qlen <= 0x7fff_ffff,
            size == tlen + qlen,
            c as int == tlen - qlen,
            score <= max_score,
            frame_wf(frame, tlen as int, qlen as int),
            forall|v: usize, h: usize| v < qlen && h < tlen ==> match_lambda.requires((v, h)),
            forall|v: usize, h: usize, b: bool|
                match_lambda.ensures((v, h), b) ==> b == p(v as int, h as int),
            regions_sound(regions@, tlen as int, qlen as int, p),
            p(0, 0) ==> has_origin_region(regions@),
            frame.low as int == engine_state(tlen as int, qlen as int, adapt, p, score as int).0,
            frame.high as int == engine_state(tlen as int, qlen as int, adapt, p, score as int).1,
            frame.m_wavefront@ == engine_state(tlen as int, qlen as int, adapt, p, score as int).2,
            regions@ == engine_state(tlen as int, qlen as int, adapt, p, score as int).3,
            forall|x: int| 0 <= x < score ==> !consumed_at(tlen as int, qlen as int, adapt, p, x),
        decreases max_score - score,
    {
        // window consumed?
        if frame.low <= c && c <= frame.high {
            let idx = compute_k(qlen, c);
            if frame.m_wavefront[idx] as usize >= tlen {
                proof {
                    assert(window_consumed(frame, tlen as int, qlen as int));
                    assert(consumed_at(tlen as int, qlen as int, adapt, p, score as int));
                    lemma_stop_from(
                        tlen as int,
                        qlen as int,
                        max_score as int,
                        adapt,
                        p,
                        0,
                        score as int,
                    );
                }
                return (true, regions, frame);
            }
        }
        proof {
            assert(!consumed_at(tlen as int, qlen as int, adapt, p, score as int));
        }
        if score == max_score {
            proof {
                assert(!window_consumed(frame, tlen as int, qlen as int));
                lemma_stop_from(
                    tlen as int,
                    qlen as int,
                    max_score as int,
                    adapt,
                    p,
                    0,
                    score as int,
                );
            }
            return (false, regions, frame);
        }
        // widen the band by one diagonal on each side, inside the window
        let lo_bound: i32 = ((-(qlen as i64)) + 1) as i32;
        let hi_bound: i32 = (tlen as i64 - 1) as i32;
        let mut lo2: i32 = if frame.low > lo_bound {
            frame.low - 1
        } else {
            lo_bound
        };
        let mut hi2: i32 = if frame.high < hi_bound {
            frame.high + 1
        } else {
            hi_bound
        };
        if adapt {
            // narrow around the diagonal with the furthest reach, ties going
            // to the lower diagonal
            let mut best_d: i32 = frame.low;
            let mut best_reach: i64 = 2 * (frame.m_wavefront[compute_k(qlen, frame.low)] as i64)
                - frame.low as i64;
            let mut dd: i32 = frame.low + 1;
            while dd <= frame.high
                invariant
                    1 <= tlen <= 0x7fff_ffff,
                    1 <= qlen <= 0x7fff_ffff,
                    tlen + qlen <= 0x7fff_ffff,
                    frame_wf(frame, tlen as int, qlen as int),
                    (frame.low as int) < dd as int,
                    dd as int <= frame.high as int + 1,
                    frame.low <= best_d <= frame.high,
                    (best_d as int, best_reach as int) == best_upto(
                        frame.m_wavefront@,
                        frame.low as int,
                        dd as int,
                        qlen as int,
                    ),
                decreases frame.high + 1 - dd,
            {
                let reach = 2 * (frame.m_wavefront[compute_k(qlen, dd)] as i64) - dd as i64;
                if reach > best_reach {
                    best_d = dd;
                    best_reach = reach;
                }
                dd = dd + 1;
            }
            let lo_cand: i64 = best_d as i64 - 10;
            let hi_cand: i64 = best_d as i64 + 10;
            if (lo2 as i64) < lo_cand {
                lo2 = lo_cand as i32;
            }
            if (hi2 as i64) > hi_cand {
                hi2 = hi_cand as i32;
            }
            proof {
                assert(lo2 <= best_d);
                assert(best_d <= hi2);
            }
        }
        proof {
            assert(frame.low - 1 <= lo2 as int);
            assert(hi2 as int <= frame.high + 1);
            assert(lo2 <= hi2);
            assert(-(qlen as int) < lo2 as int);
            assert(hi2 as int <= tlen - 1);
            assert((lo2 as int, hi2 as int) == next_band(
                frame.low as int,
                frame.high as int,
                frame.m_wavefront@,
                adapt,
                tlen as int,
                qlen as int,
            ));
        }
        // derive the next frame's offsets from mismatch, insertion and
        // deletion steps out of the current one
        let mut m2 = zero_offsets(size);
        let mut nd: i32 = lo2;
        while nd <= hi2
            invariant
                1 <= tlen <= 0x7fff_ffff,
                1 <= qlen <= 0x7fff_ffff,
                tlen + qlen <= 0x7fff_ffff,
                size == tlen + qlen,
                frame_wf(frame, tlen as int, qlen as int),
                frame.low - 1 <= lo2 as int,
                hi2 as int <= frame.high + 1,
                lo2 as int <= nd as int <= hi2 as int + 1,
                -(qlen as int) < lo2 as int,
                hi2 as int <= tlen - 1,
                m2@.len() == size,
                forall|d: int|
                    lo2 as int <= d < nd as int ==> hmin(d) <= #[trigger] m2@[qlen - 1 + d] as int
                        <= hmax(d, tlen as int, qlen as int),
                forall|i: int|
                    0 <= i < size && !(qlen - 1 + lo2 <= i && i < qlen - 1 + nd)
                        ==> #[trigger] m2@[i] == 0u64,
                forall|d: int|
                    lo2 as int <= d < nd as int ==> #[trigger] m2@[qlen - 1 + d] as int == succ_val(
                        frame.m_wavefront@,
                        frame.low as int,
                        frame.high as int,
                        d,
                        tlen as int,
                        qlen as int,
                    ),
            decreases hi2 + 1 - nd,
        {
            let mut cand: i64 = -1;
            if frame.low <= nd && nd <= frame.high {
                let c1 = frame.m_wavefront[compute_k(qlen, nd)] as i64 + 1;
                if c1 > cand {
                    cand = c1;
                }
            }
            if frame.low <= nd + 1 && nd + 1 <= frame.high {
                let c2 = frame.m_wavefront[compute_k(qlen, nd + 1)] as i64;
                if c2 > cand {
                    cand = c2;
                }
            }
            if nd - 1 >= frame.low && nd - 1 <= frame.high {
                let c3 = frame.m_wavefront[compute_k(qlen, nd - 1)] as i64 + 1;
                if c3 > cand {
                    cand = c3;
                }
            }
            proof {
                assert(cand >= hmin(nd as int)) by {
                    if frame.low <= nd && nd <= frame.high {
                    } else if nd < frame.low {
                        assert(nd + 1 == frame.low);
                    } else {
                        assert(nd - 1 == frame.high);
                    }
                }
            }
            let hmv: i64 = if (tlen as i64) <= qlen as i64 + nd as i64 {
                tlen as i64
            } else {
                qlen as i64 + nd as i64
            };
            let newh: i64 = if cand > hmv {
                hmv
            } else {
                cand
            };
            let idx = compute_k(qlen, nd);
            let ghost m2pre = m2@;
            m2[idx] = newh as u64;
            proof {
                assert(m2@ =~= m2pre.update(idx as int, newh as u64));
                assert(hmin(nd as int) <= newh as int <= hmax(nd as int, tlen as int, qlen as int));
                assert(newh as int == succ_val(
                    frame.m_wavefront@,
                    frame.low as int,
                    frame.high as int,
                    nd as int,
                    tlen as int,
                    qlen as int,
                ));
                assert forall|d: int| lo2 as int <= d < nd + 1 implies hmin(d)
                    <= #[trigger] m2@[qlen - 1 + d] as int <= hmax(d, tlen as int, qlen as int) by {
                    if qlen - 1 + d != idx as int {
                        assert(m2@[qlen - 1 + d] == m2pre[qlen - 1 + d]);
                    } else {
                        assert(d == nd as int);
                    }
                }
                assert forall|d: int| lo2 as int <= d < nd + 1 implies #[trigger] m2@[qlen - 1
                    + d] as int == succ_val(
                    frame.m_wavefront@,
                    frame.low as int,
                    frame.high as int,
                    d,
                    tlen as int,
                    qlen as int,
                ) by {
                    if qlen - 1 + d != idx as int {
                        assert(m2@[qlen - 1 + d] == m2pre[qlen - 1 + d]);
                    } else {
                        assert(d == nd as int);
                    }
                }
                assert forall|i: int|
                    0 <= i < size && !(qlen - 1 + lo2 <= i && i < qlen - 1 + (nd + 1))
                        implies #[trigger] m2@[i] == 0u64 by {
                    if i != idx as int {
                        assert(m2@[i] == m2pre[i]);
                    }
                }
            }
            nd = nd + 1;
        }
        let ghost prev_lo = frame.low as int;
        let ghost prev_hi = frame.high as int;
        let ghost prev_m = frame.m_wavefront@;
        proof {
            assert(m2@ =~= next_m(
                prev_m,
                prev_lo,
                prev_hi,
                lo2 as int,
                hi2 as int,
                tlen as int,
                qlen as int,
            ));
        }
        frame = WaveFront {
            high: hi2,
            low: lo2,
            m_wavefront: m2,
            i_wavefront: zero_offsets(size),
            d_wavefront: zero_offsets(size),
        };
        proof {
            assert(frame_wf(frame, tlen as int, qlen as int));
        }
        let ghost regs_loop = regions@;
        wf_extend(&mut frame, match_lambda, tlen, qlen, Ghost(p), &mut regions);
        proof {
            let nst = engine_state(tlen as int, qlen as int, adapt, p, score as int + 1);
            assert(frame.low as int == nst.0 && frame.high as int == nst.1 && frame.m_wavefront@
                == nst.2 && regions@ == nst.3);
            assert forall|x: int| 0 <= x < score + 1 implies !consumed_at(
                tlen as int,
                qlen as int,
                adapt,
                p,
                x,
            ) by {}
        }
        proof {
            if p(0, 0) {
                let j = choose|j: int|
                    0 <= j < regs_loop.len() && (#[trigger] regs_loop[j]).query_start == 0
                        && regs_loop[j].text_start == 0;
                assert(regions@[j] == regs_loop[j]) by {
                    assert(regs_loop[j] == regions@.subrange(0, regs_loop.len() as int)[j]);
                }
                assert(has_origin_region(regions@));
            }
        }
        score = score + 1;
    }
}

} // verus!
