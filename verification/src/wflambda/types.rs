//! Wavefront state: per-score frames of furthest-reaching offsets, one slot
//! per diagonal.

use vstd::prelude::*;

verus! {

/// A furthest-reaching offset along a diagonal.
pub type Offset = u64;

/// A diagonal of the alignment grid.
pub type Diagonal = i32;

/// An alignment score.
pub type Score = usize;

/// A vector of `size` zeroed offsets.
pub(crate) fn zero_offsets(size: usize) -> (r: Vec<Offset>)
    ensures
        r@.len() == size,
        forall|i: int| 0 <= i < size ==> r@[i] == 0u64,
{
    let mut v: Vec<Offset> = Vec::new();
    let mut i: usize = 0;
    while i < size
        invariant
            i <= size,
            v@.len() == i,
            forall|k: int| 0 <= k < i ==> v@[k] == 0u64,
        decreases size - i,
    {
        v.push(0);
        i = i + 1;
    }
    v
}

/// One wavefront: the diagonal band `[low, high]` it covers and, per
/// diagonal, the current offset on the match, insertion and deletion tracks.
pub struct WaveFront {
    pub high: Diagonal,
    pub low: Diagonal,
    pub m_wavefront: Vec<Offset>,
    pub i_wavefront: Vec<Offset>,
    pub d_wavefront: Vec<Offset>,
}

impl WaveFront {
    /// A zeroed wavefront over `[low, high]` with `size` slots per track.
    pub fn new(high: Diagonal, low: Diagonal, size: usize) -> (r: WaveFront)
        ensures
            r.high == high,
            r.low == low,
            r.m_wavefront@.len() == size,
            r.i_wavefront@.len() == size,
            r.d_wavefront@.len() == size,
            forall|i: int| 0 <= i < size ==> r.m_wavefront@[i] == 0u64,
            forall|i: int| 0 <= i < size ==> r.i_wavefront@[i] == 0u64,
            forall|i: int| 0 <= i < size ==> r.d_wavefront@[i] == 0u64,
    {
        WaveFront {
            high,
            low,
            m_wavefront: zero_offsets(size),
            i_wavefront: zero_offsets(size),
            d_wavefront: zero_offsets(size),
        }
    }
}

/// All wavefronts of one search, indexed by score.
pub struct WaveFronts {
    pub wavefronts: Vec<WaveFront>,
    pub max_offset: usize,
}

impl WaveFronts {
    /// An empty collection for a search over windows of the given lengths.
    pub fn new(tlen: usize, qlen: usize) -> (r: WaveFronts)
        requires
            tlen + qlen <= usize::MAX,
        ensures
            r.wavefronts@.len() == 0,
            r.max_offset == tlen + qlen,
    {
        WaveFronts { wavefronts: Vec::with_capacity(tlen + qlen), max_offset: tlen + qlen }
    }

    /// Grow the collection with zeroed frames over `[lo, hi]` until the one
    /// for `score` exists.
    pub fn add_wavefront(&mut self, score: Score, hi: Diagonal, lo: Diagonal)
        requires
            score < usize::MAX,
        ensures
            final(self).wavefronts@.len() as int == if old(self).wavefronts@.len() >= score
                + 1 {
                old(self).wavefronts@.len() as int
            } else {
                (score + 1) as int
            },
            final(self).max_offset == old(self).max_offset,
            forall|i: int|
                0 <= i < old(self).wavefronts@.len() ==> final(self).wavefronts@[i]
                    == old(self).wavefronts@[i],
            forall|i: int|
                old(self).wavefronts@.len() <= i < final(self).wavefronts@.len() ==> {
                    &&& (#[trigger] final(self).wavefronts@[i]).high == hi
                    &&& final(self).wavefronts@[i].low == lo
                    &&& final(self).wavefronts@[i].m_wavefront@.len() == old(self).max_offset
                    &&& final(self).wavefronts@[i].i_wavefront@.len() == old(self).max_offset
                    &&& final(self).wavefronts@[i].d_wavefront@.len() == old(self).max_offset
                    &&& forall|o: int|
                        0 <= o < old(self).max_offset
                            ==> #[trigger] final(self).wavefronts@[i].m_wavefront@[o] == 0u64
                            && final(self).wavefronts@[i].i_wavefront@[o] == 0u64
                            && final(self).wavefronts@[i].d_wavefront@[o] == 0u64
                },
    {
        let num_wavefronts = self.wavefronts.len();
        let size = self.max_offset;
        let ghost pre = self.wavefronts@;
        let mut n = num_wavefronts;
        while n <= score
            invariant
                num_wavefronts <= n,
                n <= score + 1 || n == num_wavefronts,
                score < usize::MAX,
                size == self.max_offset,
                self.wavefronts@.len() == n,
                forall|i: int| 0 <= i < pre.len() ==> self.wavefronts@[i] == pre[i],
                num_wavefronts == pre.len(),
                forall|i: int|
                    pre.len() <= i < n ==> {
                        &&& (#[trigger] self.wavefronts@[i]).high == hi
                        &&& self.wavefronts@[i].low == lo
                        &&& self.wavefronts@[i].m_wavefront@.len() == size
                        &&& self.wavefronts@[i].i_wavefront@.len() == size
                        &&& self.wavefronts@[i].d_wavefront@.len() == size
                        &&& forall|o: int|
                            0 <= o < size ==> #[trigger] self.wavefronts@[i].m_wavefront@[o]
                                == 0u64 && self.wavefronts@[i].i_wavefront@[o] == 0u64
                                && self.wavefronts@[i].d_wavefront@[o] == 0u64
                    },
            decreases score + 1 - n,
        {
            self.wavefronts.push(WaveFront::new(hi, lo, size));
            n = n + 1;
        }
    }
}

} // verus!
