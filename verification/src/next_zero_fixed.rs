//! Fixed-width zero finding: the window is scanned in chunks of exactly 16
//! bytes, each chunk searched with a first-match scan that reports 16 when
//! the chunk holds no zero; a remainder shorter than 16 bytes falls back to
//! the scalar scan.

use crate::block_iter::{scalar_scan_from, NextZeroIndex};
use crate::model;
use vstd::prelude::*;
use vstd::slice::slice_subrange;

verus! {

/// First zero within one 16-byte chunk, or 16 when there is none.
fn first_zero_in_chunk16(chunk: &[u8]) -> (r: usize)
    requires
        chunk@.len() == 16,
    ensures
        r <= 16,
        r < 16 ==> chunk@[r as int] == 0 && (forall|j: int| 0 <= j < r ==> chunk@[j] != 0),
        r == 16 ==> forall|j: int| 0 <= j < 16 ==> chunk@[j] != 0,
{
    let mut i: usize = 0;
    while i < 16
        invariant
            i <= 16,
            chunk@.len() == 16,
            forall|j: int| 0 <= j < i ==> chunk@[j] != 0,
        decreases 16 - i,
    {
        if chunk[i] == 0 {
            return i;
        }
        i += 1;
    }
    16
}

/// Zero finding in chunks of 16 bytes.
pub struct SimdBlocks16 {}

impl NextZeroIndex for SimdBlocks16 {
    fn next_zero_index(data: &[u8]) -> (r: Option<usize>) {
        let mut nonzero_bytes: usize = 0;
        while data.len() - nonzero_bytes >= 16
            invariant
                nonzero_bytes <= data@.len(),
                forall|j: int| 0 <= j < nonzero_bytes ==> data@[j] != 0,
            decreases data@.len() - nonzero_bytes,
        {
            let chunk = slice_subrange(data, nonzero_bytes, nonzero_bytes + 16);
            let res = first_zero_in_chunk16(chunk);
            proof {
                assert forall|j: int|
                    0 <= j < nonzero_bytes + res implies data@[j] != 0 by {
                    if j >= nonzero_bytes {
                        assert(chunk@[j - nonzero_bytes] != 0);
                    }
                }
            }
            if res < 16 {
                proof {
                    assert(data@[nonzero_bytes + res] == chunk@[res as int]);
                    model::lemma_zero_run_matches(data@, nonzero_bytes + res);
                }
                return Some(nonzero_bytes + res);
            }
            nonzero_bytes += 16;
        }
        scalar_scan_from(data, nonzero_bytes)
    }
}

} // verus!
