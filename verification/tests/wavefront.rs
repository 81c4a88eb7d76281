use wffilter::wflambda::types::{WaveFront, WaveFronts};
use wffilter::wflambda::utils::{compute_h, compute_k, compute_v};

#[test]
fn test_compute_k() {
    assert_eq!(compute_k(10, 0), 9);
    assert_eq!(compute_k(10, 5), 14);
    assert_eq!(compute_k(10, -9), 0);
}

#[test]
fn test_compute_v_h() {
    // on or below the central diagonal the query position is the offset
    assert_eq!(compute_v(7, 3, 3), 7);
    assert_eq!(compute_v(7, 1, 3), 7);
    // above it the offset is pushed out by the distance from the centre
    assert_eq!(compute_v(7, 5, 3), 9);
    // and symmetrically for the target position
    assert_eq!(compute_h(7, 5, 3), 7);
    assert_eq!(compute_h(7, 1, 3), 9);
    assert_eq!(compute_h(7, 3, 3), 7);
}

#[test]
fn test_wavefront_new() {
    let wf = WaveFront::new(4, -2, 8);
    assert_eq!(wf.high, 4);
    assert_eq!(wf.low, -2);
    assert_eq!(wf.m_wavefront.len(), 8);
    assert_eq!(wf.i_wavefront.len(), 8);
    assert_eq!(wf.d_wavefront.len(), 8);
    assert!(wf.m_wavefront.iter().all(|&o| o == 0));
}

#[test]
fn test_wavefronts_grow() {
    let mut wfs = WaveFronts::new(6, 4);
    assert_eq!(wfs.wavefronts.len(), 0);
    wfs.add_wavefront(0, 0, 0);
    assert_eq!(wfs.wavefronts.len(), 1);
    wfs.add_wavefront(3, 2, -2);
    assert_eq!(wfs.wavefronts.len(), 4);
    assert_eq!(wfs.wavefronts[3].high, 2);
    assert_eq!(wfs.wavefronts[3].low, -2);
    assert_eq!(wfs.wavefronts[3].m_wavefront.len(), 10);
    // growing to an already-covered score changes nothing
    wfs.add_wavefront(1, 9, 9);
    assert_eq!(wfs.wavefronts.len(), 4);
    assert_eq!(wfs.wavefronts[1].high, 2);
}
