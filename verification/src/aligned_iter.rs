//! Iterator over a byte slice in fixed-size chunks, meant for scans that
//! prefer to work on windows of a given width: every chunk but the last
//! holds exactly `align_bytes` bytes, and the chunks concatenate to the
//! whole slice, in order.

use vstd::prelude::*;
use vstd::slice::slice_subrange;

verus! {

pub struct AlignedIter<'a> {
    data: &'a [u8],
    align_bytes: usize,
    processed: usize,
}

impl<'a> AlignedIter<'a> {
    /// The data being chunked.
    pub closed spec fn data_view(self) -> Seq<u8> {
        self.data@
    }

    /// The chunk width.
    pub closed spec fn align(self) -> int {
        self.align_bytes as int
    }

    /// Bytes already yielded.
    pub closed spec fn processed_bytes(self) -> int {
        self.processed as int
    }

    /// Well-formed iterator state.
    pub closed spec fn wf(self) -> bool {
        &&& self.processed <= self.data@.len()
        &&& self.align_bytes >= 1
    }

    pub fn new(data: &'a [u8], align_bytes: usize) -> (it: AlignedIter<'a>)
        requires
            align_bytes >= 1,
        ensures
            it.wf(),
            it.data_view() == data@,
            it.align() == align_bytes as int,
            it.processed_bytes() == 0,
    {
        AlignedIter { data, align_bytes, processed: 0 }
    }

    /// Yields the next chunk: the following `align_bytes` bytes of the
    /// data, or the shorter tail at its end, or `None` once everything has
    /// been yielded.
    pub fn next(&mut self) -> (r: Option<&'a [u8]>)
        requires
            old(self).wf(),
        ensures
            final (self).wf(),
            final (self).data_view() == old(self).data_view(),
            final (self).align() == old(self).align(),
            match r {
                None => {
                    &&& old(self).processed_bytes() == old(self).data_view().len()
                    &&& final (self).processed_bytes() == old(self).processed_bytes()
                },
                Some(chunk) => {
                    &&& old(self).processed_bytes() < old(self).data_view().len()
                    &&& final (self).processed_bytes() == (if old(self).processed_bytes() + old(
                        self,
                    ).align() <= old(self).data_view().len() {
                        old(self).processed_bytes() + old(self).align()
                    } else {
                        old(self).data_view().len() as int
                    })
                    &&& chunk@ == old(self).data_view().subrange(
                        old(self).processed_bytes(),
                        final (self).processed_bytes(),
                    )
                    &&& chunk@.len() >= 1
                },
            },
    {
        if self.processed == self.data.len() {
            None
        } else {
            let start = self.processed;
            let len = if self.align_bytes <= self.data.len() - start {
                self.align_bytes
            } else {
                self.data.len() - start
            };
            self.processed = start + len;
            Some(slice_subrange(self.data, start, start + len))
        }
    }
}

} // verus!
