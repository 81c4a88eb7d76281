//! Coordinate helpers for the wavefront grid.

use vstd::prelude::*;
use crate::wflambda::types::{Diagonal, Offset};

verus! {

/// The slot of a diagonal in a wavefront's offset vector.
pub fn compute_k(qlen: usize, diagonal: Diagonal) -> (r: usize)
    requires
        1 <= qlen <= 0x7fff_ffff,
        -(qlen as int) < diagonal as int,
        qlen as int - 1 + diagonal as int <= 0x7fff_ffff,
    ensures
        r as int == qlen - 1 + diagonal as int,
{
    ((qlen as isize - 1) + diagonal as isize) as usize
}

/// The query position of an offset on a diagonal, relative to the central
/// diagonal: on and below the central diagonal the offset itself, above it
/// the offset pushed out by the distance from the centre.
pub fn compute_v(offset: Offset, diagonal: Diagonal, central_diagonal: usize) -> (r: usize)
    requires
        central_diagonal <= 0x7fff_ffff,
        offset <= usize::MAX,
        offset as int + (if diagonal as int > central_diagonal as int {
            diagonal as int - central_diagonal as int
        } else {
            0
        }) <= usize::MAX,
    ensures
        r as int == offset as int + (if diagonal as int > central_diagonal as int {
            diagonal as int - central_diagonal as int
        } else {
            0
        }),
{
    let central_diagonal = central_diagonal as i32;
    let offset = offset as usize;

    if diagonal <= central_diagonal {
        offset
    } else {
        offset + (diagonal - central_diagonal) as usize
    }
}

/// The target position of an offset on a diagonal, relative to the central
/// diagonal: symmetric to `compute_v`.
pub fn compute_h(offset: Offset, diagonal: Diagonal, central_diagonal: usize) -> (r: usize)
    requires
        central_diagonal <= 0x7fff_ffff,
        offset <= usize::MAX,
        central_diagonal as int - diagonal as int <= 0x7fff_ffff,
        offset as int + (if (diagonal as int) < central_diagonal as int {
            central_diagonal as int - diagonal as int
        } else {
            0
        }) <= usize::MAX,
    ensures
        r as int == offset as int + (if (diagonal as int) < central_diagonal as int {
            central_diagonal as int - diagonal as int
        } else {
            0
        }),
{
    let central_diagonal = central_diagonal as i32;
    let offset = offset as usize;

    if diagonal <= central_diagonal {
        offset + (central_diagonal - diagonal) as usize
    } else {
        offset
    }
}

} // verus!
