//! Lazy splitting of a message into COBS blocks, parameterized by a
//! zero-finding strategy.

use crate::model;
use core::marker::PhantomData;
use vstd::prelude::*;
use vstd::slice::slice_subrange;

verus! {

/// A strategy for locating the first zero byte within a window of bytes.
///
/// Every implementation must report exactly the offset of the first zero
/// byte, or `None` when the window holds none; this is what makes all
/// strategies interchangeable.
pub trait NextZeroIndex {
    fn next_zero_index(data: &[u8]) -> (r: Option<usize>)
        ensures
            r == model::spec_next_zero(data@),
    ;
}

/// Scans for a zero byte from `start`, given that everything before
/// `start` is already known to be non-zero.  Shared tail of the scalar and
/// chunked strategies.
pub(crate) fn scalar_scan_from(data: &[u8], start: usize) -> (r: Option<usize>)
    requires
        start <= data@.len(),
        forall|j: int| 0 <= j < start ==> data@[j] != 0,
    ensures
        r == model::spec_next_zero(data@),
{
    let mut i: usize = start;
    while i < data.len()
        invariant
            i <= data@.len(),
            forall|j: int| 0 <= j < i ==> data@[j] != 0,
        decreases data@.len() - i,
    {
        if data[i] == 0 {
            proof {
                model::lemma_zero_run_matches(data@, i as int);
            }
            return Some(i);
        }
        i += 1;
    }
    proof {
        model::lemma_zero_run_matches(data@, data@.len() as int);
    }
    None
}

/// The baseline strategy: a plain linear scan.
pub struct IterPosition {}

impl NextZeroIndex for IterPosition {
    fn next_zero_index(data: &[u8]) -> (r: Option<usize>) {
        scalar_scan_from(data, 0)
    }
}

/// Splits input data into COBS blocks: zero-free runs of at most
/// `max_block_size` bytes, each run ended by a zero of the input or by
/// reaching the size limit, plus one final run for the tail of the input
/// (empty when the input is empty or ends in a zero).
pub struct BlockIter<'a, ZeroIndexMethod> where ZeroIndexMethod: NextZeroIndex {
    input_data: &'a [u8],  // BlockIter can't outlive input data
    processed: usize,  // Number of bytes already processed
    max_block_size: usize,
    zero_index_method: PhantomData<ZeroIndexMethod>,
}

impl<'a, T: NextZeroIndex> BlockIter<'a, T> {
    /// The input being split.
    pub closed spec fn input(self) -> Seq<u8> {
        self.input_data@
    }

    /// The block size limit.
    pub closed spec fn max(self) -> int {
        self.max_block_size as int
    }

    /// Well-formed iterator state.
    pub closed spec fn wf(self) -> bool {
        &&& self.processed <= self.input_data@.len() + 1
        &&& self.input_data@.len() < usize::MAX
        &&& (self.max_block_size >= 1 || self.input_data@.len() == 0)
    }

    /// The blocks not yet yielded, as the model splits them.
    pub closed spec fn remaining(self) -> Seq<Seq<u8>> {
        if self.processed > self.input_data@.len() {
            Seq::empty()
        } else {
            model::spec_blocks(
                self.input_data@.skip(self.processed as int),
                self.max_block_size as int,
            )
        }
    }

    pub fn new(input_data: &'a [u8], max_block_size: usize) -> (it: BlockIter<'a, T>)
        requires
            max_block_size >= 1 || input_data@.len() == 0,
            input_data@.len() < usize::MAX,
        ensures
            it.wf(),
            it.input() == input_data@,
            it.max() == max_block_size as int,
            it.remaining() == model::spec_blocks(input_data@, max_block_size as int),
    {
        let it = BlockIter {
            input_data,
            processed: 0,
            max_block_size,
            zero_index_method: PhantomData,
        };
        proof {
            assert(input_data@.skip(0) =~= input_data@);
        }
        it
    }

    /// Whether another block will be yielded.
    pub fn has_more(&self) -> (r: bool)
        requires
            self.wf(),
        ensures
            r == (self.remaining().len() > 0),
    {
        proof {
            if self.processed <= self.input_data@.len() {
                model::lemma_blocks_nonempty(
                    self.input_data@.skip(self.processed as int),
                    self.max_block_size as int,
                );
            }
        }
        self.processed <= self.input_data.len()
    }

    /// Yields the next block, or `None` when the input, including the
    /// implicit trailing zero, has been consumed.
    pub fn next(&mut self) -> (r: Option<&'a [u8]>)
        requires
            old(self).wf(),
        ensures
            final (self).wf(),
            final (self).input() == old(self).input(),
            final (self).max() == old(self).max(),
            match r {
                Some(block) => {
                    &&& old(self).remaining().len() > 0
                    &&& block@ == old(self).remaining()[0]
                    &&& final (self).remaining() == old(self).remaining().skip(1)
                },
                None => {
                    &&& old(self).remaining().len() == 0
                    &&& final (self).remaining().len() == 0
                },
            },
    {
        let ghost s = self.input_data@;
        let ghost max = self.max_block_size as int;
        let len = self.input_data.len();
        if self.processed > len {
            // Processed all bytes plus the appended zero
            return None;
        }
        if self.processed == len {
            // Only the appended zero remaining, without data
            self.processed += 1;
            proof {
                assert(s.skip(len as int) =~= Seq::<u8>::empty());
                assert(old(self).remaining() == seq![Seq::<u8>::empty()]);
                assert(old(self).remaining().skip(1) =~= Seq::<Seq<u8>>::empty());
            }
            return Some(slice_subrange(self.input_data, 0, 0));
        }
        let start_index = self.processed;
        let ghost suffix = s.skip(start_index as int);
        let upper_bound = if self.max_block_size >= len - start_index {
            len
        } else {
            start_index + self.max_block_size
        };
        let ghost bound = upper_bound - start_index;
        let window = slice_subrange(self.input_data, start_index, upper_bound);
        proof {
            assert(window@ =~= suffix.take(bound));
            assert(bound == if max <= suffix.len() {
                max
            } else {
                suffix.len() as int
            });
        }
        let zero_index = T::next_zero_index(window);
        proof {
            model::lemma_zero_run(window@);
        }
        match zero_index {
            Some(i) => {
                // Process data inclusive zero at i
                self.processed = start_index + i + 1;
                let block = slice_subrange(self.input_data, start_index, start_index + i);
                proof {
                    let run = model::zero_run(suffix.take(bound)) as int;
                    assert(run == i);
                    assert(old(self).remaining() == seq![suffix.take(run)] + model::spec_blocks(
                        suffix.skip(run + 1),
                        max,
                    ));
                    assert(block@ =~= suffix.take(run));
                    assert(s.skip(start_index + i + 1) =~= suffix.skip(run + 1));
                    assert(old(self).remaining().skip(1) =~= model::spec_blocks(
                        suffix.skip(run + 1),
                        max,
                    ));
                }
                Some(block)
            },
            None => {
                proof {
                    let run = model::zero_run(suffix.take(bound)) as int;
                    assert(run == bound);
                }
                if upper_bound == len {
                    // No zeros until end, pretend there is one appended
                    self.processed = len + 1;
                    let block = slice_subrange(self.input_data, start_index, len);
                    proof {
                        assert(bound == suffix.len());
                        assert(old(self).remaining() == seq![suffix]);
                        assert(block@ =~= suffix);
                        assert(old(self).remaining().skip(1) =~= Seq::<Seq<u8>>::empty());
                    }
                    Some(block)
                } else {
                    // Block without zeros of length max_block_size, but not at the end
                    self.processed = start_index + self.max_block_size;
                    let block = slice_subrange(
                        self.input_data,
                        start_index,
                        start_index + self.max_block_size,
                    );
                    proof {
                        assert(bound == max);
                        assert(old(self).remaining() == seq![suffix.take(max)] + model::spec_blocks(
                            suffix.skip(max),
                            max,
                        ));
                        assert(block@ =~= suffix.take(max));
                        assert(s.skip(start_index + max) =~= suffix.skip(max));
                        assert(old(self).remaining().skip(1) =~= model::spec_blocks(
                            suffix.skip(max),
                            max,
                        ));
                    }
                    Some(block)
                }
            },
        }
    }
}

} // verus!
