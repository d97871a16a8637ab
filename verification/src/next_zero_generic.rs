//! Width-generic zero finding: the window is scanned in chunks of `N`
//! bytes.  A chunk is compared byte-for-byte against the needle into a
//! bitmask (bit `i` set when byte `i` matches), and the offset of the first
//! match is the number of trailing zero bits of the mask.  A remainder
//! shorter than `N` bytes falls back to the scalar scan.

use crate::block_iter::{scalar_scan_from, NextZeroIndex};
use crate::model;
use vstd::prelude::*;
use vstd::slice::slice_subrange;

verus! {

proof fn lemma_or_bit(m: u64, i: u64, j: u64)
    requires
        i < 64,
        j < 64,
    ensures
        ((m | (1u64 << i)) >> j) & 1u64 == (if i == j {
            1u64
        } else {
            (m >> j) & 1u64
        }),
{
    assert(((m | (1u64 << i)) >> j) & 1u64 == (if i == j {
        1u64
    } else {
        (m >> j) & 1u64
    })) by (bit_vector)
        requires
            i < 64,
            j < 64,
    ;
}

proof fn lemma_zero_bit(j: u64)
    requires
        j < 64,
    ensures
        (0u64 >> j) & 1u64 == 0u64,
{
    assert((0u64 >> j) & 1u64 == 0u64) by (bit_vector)
        requires
            j < 64,
    ;
}

/// The equality bitmask of a window of at most 64 bytes: bit `i` of the
/// result is set exactly when byte `i` equals `needle`; bits at and above
/// the window length are clear.
pub fn byte_eq_mask(block: &[u8], needle: u8) -> (mask: u64)
    requires
        block@.len() <= 64,
    ensures
        forall|j: int|
            0 <= j < block@.len() ==> (((#[trigger] (mask >> (j as u64))) & 1u64 == 1u64)
                <==> block@[j] == needle),
        forall|j: int| block@.len() <= j < 64 ==> (#[trigger] (mask >> (j as u64))) & 1u64
            == 0u64,
{
    let mut mask: u64 = 0;
    let mut i: usize = 0;
    proof {
        assert forall|j: int| 0 <= j < 64 implies (#[trigger] (0u64 >> (j as u64))) & 1u64
            == 0u64 by {
            lemma_zero_bit(j as u64);
        }
    }
    while i < block.len()
        invariant
            i <= block@.len() <= 64,
            forall|j: int|
                0 <= j < i ==> (((#[trigger] (mask >> (j as u64))) & 1u64 == 1u64) <==> block@[j]
                    == needle),
            forall|j: int| i <= j < 64 ==> (#[trigger] (mask >> (j as u64))) & 1u64 == 0u64,
        decreases block@.len() - i,
    {
        if block[i] == needle {
            let ghost m0 = mask;
            mask = mask | (1u64 << (i as u64));
            proof {
                assert forall|j: int| 0 <= j < 64 implies ((#[trigger] (mask >> (j as u64)))
                    & 1u64) == (if j == i {
                    1u64
                } else {
                    (m0 >> (j as u64)) & 1u64
                }) by {
                    lemma_or_bit(m0, i as u64, j as u64);
                }
            }
        }
        i += 1;
    }
    mask
}

/// Offset of the first zero byte in a window of at most 64 bytes, or the
/// window length when there is none: the number of trailing zero bits of
/// the zero-compare bitmask.
pub fn first_zero_in_vector(block: &[u8]) -> (r: u32)
    requires
        block@.len() <= 64,
    ensures
        r <= block@.len(),
        r < block@.len() ==> block@[r as int] == 0 && (forall|j: int|
            0 <= j < r ==> block@[j] != 0),
        r == block@.len() ==> forall|j: int| 0 <= j < block@.len() ==> block@[j] != 0,
{
    let mask = byte_eq_mask(block, 0);
    let tz = mask.trailing_zeros();
    proof {
        broadcast use vstd::std_specs::bits::axiom_u64_trailing_zeros;

    }
    if (tz as usize) < block.len() {
        proof {
            assert(tz < 64);
            assert((mask >> (tz as u64)) & 1u64 == 1u64);
            assert(block@[tz as int] == 0);
            assert forall|j: int| 0 <= j < tz implies block@[j] != 0 by {
                assert((mask >> (j as u64)) & 1u64 == 0u64);
            }
        }
        tz
    } else {
        proof {
            assert forall|j: int| 0 <= j < block@.len() implies block@[j] != 0 by {
                if block@[j] == 0 {
                    assert((mask >> (j as u64)) & 1u64 == 1u64);
                    assert((mask >> (j as u64)) & 1u64 == 0u64);
                }
            }
        }
        block.len() as u32
    }
}

/// Zero finding in chunks of `N` bytes via the equality bitmask.  Widths
/// outside `1..=64` do not fit the mask and fall back to the scalar scan.
pub struct SimdBlocksGeneric<const N: usize> {}

impl<const N: usize> NextZeroIndex for SimdBlocksGeneric<N> {
    fn next_zero_index(data: &[u8]) -> (r: Option<usize>) {
        if N < 1 || N > 64 {
            return scalar_scan_from(data, 0);
        }
        let mut nonzero_bytes: usize = 0;
        while data.len() - nonzero_bytes >= N
            invariant
                1 <= N <= 64,
                nonzero_bytes <= data@.len(),
                forall|j: int| 0 <= j < nonzero_bytes ==> data@[j] != 0,
            decreases data@.len() - nonzero_bytes,
        {
            let chunk = slice_subrange(data, nonzero_bytes, nonzero_bytes + N);
            let index = first_zero_in_vector(chunk);
            proof {
                assert forall|j: int|
                    0 <= j < nonzero_bytes + index implies data@[j] != 0 by {
                    if j >= nonzero_bytes {
                        assert(chunk@[j - nonzero_bytes] != 0);
                    }
                }
            }
            if (index as usize) < N {
                proof {
                    assert(data@[nonzero_bytes + index] == chunk@[index as int]);
                    model::lemma_zero_run_matches(data@, nonzero_bytes + index);
                }
                return Some(nonzero_bytes + index as usize);
            }
            nonzero_bytes += N;
        }
        scalar_scan_from(data, nonzero_bytes)
    }
}

} // verus!
