//! Consistent Overhead Byte Stuffing (COBS).
//!
//! COBS reframes an arbitrary byte sequence so that the result contains no
//! zero byte, at a cost of at most one extra byte per 254 input bytes.  The
//! encoded stream is a sequence of wire records: one length byte `L`
//! (`1..=255`) followed by `L - 1` raw payload bytes.  A record with
//! `L < 255` stands for its payload followed by a zero byte of the original
//! message (except at the very end of the stream); `L == 255` stands for a
//! full 254-byte run with no following zero.
//!
//! The crate offers several interchangeable encoding strategies that differ
//! only in how they locate zero bytes in the input; every strategy is proved
//! to produce the same output, byte for byte.

use vstd::prelude::*;

pub mod aligned_iter;
pub mod block_iter;
pub mod next_zero_fixed;
pub mod next_zero_generic;
pub mod model;

use crate::block_iter::{BlockIter, NextZeroIndex};
use vstd::slice::slice_subrange;
use crate::next_zero_fixed::SimdBlocks16;
use crate::next_zero_generic::SimdBlocksGeneric;

verus! {

/// Determines the upper bound of the encoded message size depending on the input length.
///
/// COBS induces a maximum of one byte of overhead for every 254 data bytes.
pub fn encoded_size_upper_bound(input_size: usize) -> (r: usize)
    requires
        input_size + 253 <= usize::MAX,
        model::spec_encoded_size_upper_bound(input_size as int) <= usize::MAX,
    ensures
        r == model::spec_encoded_size_upper_bound(input_size as int),
{
    input_size + (input_size + 254 - 1) / 254
}

/// Encoding method
///
/// These are different methods for COBS encoding.
/// They all produce the same output, but have different runtime characteristics.
#[derive(Clone)]
pub enum Method {
    /// Simple loop, sequentially processing every byte of the input.
    Trivial,
    /// Index-based rendering of the classic pointer-walking C encoder.
    Crazy,
    /// Block iterator driven by the fixed 16-byte chunked zero finder.
    Simd16,
    /// Block iterator driven by the width-generic chunked zero finder.
    StdSimd8,
    StdSimd16,
    StdSimd32,
    /// Two-stage versions that find the largest zero-free runs first and
    /// re-chunk them while writing, which may yield a small performance
    /// benefit.
    StdSimd8TwoStage,
    StdSimd16TwoStage,
    StdSimd32TwoStage,
}

/// COBS-encode data to a buffer.
///
/// The buffer must hold at least `encoded_size_upper_bound(input.len())`
/// bytes, and one byte even for an empty input.  Every method writes the
/// same bytes: the contract below does not depend on `method`.
pub fn cobs_encode_to(input: &[u8], output: &mut [u8], method: Method) -> (written: usize)
    requires
        old(output)@.len() >= model::spec_encoded_size_upper_bound(input@.len() as int),
        old(output)@.len() >= 1,
    ensures
        final (output)@.len() == old(output)@.len(),
        written == model::spec_encode(input@).len(),
        final (output)@.subrange(0, written as int) == model::spec_encode(input@),
        forall|k: int|
            written <= k < old(output)@.len() ==> final (output)@[k] == old(output)@[k],
{
    match method {
        Method::Trivial => cobs_encode_to_trivial(input, output),
        Method::Simd16 => cobs_encode_to_opt(input, output),
        Method::Crazy => cobs_encode_to_c(input, output),
        Method::StdSimd8 => cobs_encode_to_std::<8>(input, output),
        Method::StdSimd16 => cobs_encode_to_std::<16>(input, output),
        Method::StdSimd32 => cobs_encode_to_std::<32>(input, output),
        Method::StdSimd8TwoStage => cobs_encode_to_chained_iter::<SimdBlocksGeneric<8>>(
            input,
            output,
        ),
        Method::StdSimd16TwoStage => cobs_encode_to_chained_iter::<SimdBlocksGeneric<16>>(
            input,
            output,
        ),
        Method::StdSimd32TwoStage => cobs_encode_to_chained_iter::<SimdBlocksGeneric<32>>(
            input,
            output,
        ),
    }
}

/// Writes one wire record at `out_idx`: the length byte, then the block.
fn write_record(output: &mut [u8], out_idx: usize, block: &[u8])
    requires
        block@.len() <= 254,
        out_idx + 1 + block@.len() <= old(output)@.len(),
    ensures
        final (output)@.len() == old(output)@.len(),
        final (output)@.subrange(out_idx as int, out_idx + 1 + block@.len())
            == model::record_of(block@),
        forall|k: int| 0 <= k < out_idx ==> final (output)@[k] == old(output)@[k],
        forall|k: int|
            out_idx + 1 + block@.len() <= k < old(output)@.len() ==> final (output)@[k] == old(
                output,
            )@[k],
{
    let olen = output.len();
    output[out_idx] = block.len() as u8 + 1;
    let mut j: usize = 0;
    while j < block.len()
        invariant
            j <= block@.len() <= 254,
            out_idx + 1 + block@.len() <= output@.len(),
            olen == output@.len(),
            output@.len() == old(output)@.len(),
            output@[out_idx as int] == (block@.len() + 1) as u8,
            forall|k: int| 0 <= k < j ==> output@[out_idx + 1 + k] == block@[k],
            forall|k: int| 0 <= k < out_idx ==> output@[k] == old(output)@[k],
            forall|k: int|
                out_idx + 1 + block@.len() <= k < output@.len() ==> output@[k] == old(output)@[k],
        decreases block@.len() - j,
    {
        output[out_idx + 1 + j] = block[j];
        j += 1;
    }
    proof {
        assert(output@.subrange(out_idx as int, out_idx + 1 + block@.len())
            =~= model::record_of(block@));
    }
}

/// Writes the blocks of the splitter, one record each, and returns the
/// number of bytes written.
fn encode_blocks<ZeroMethod: NextZeroIndex>(input: &[u8], output: &mut [u8]) -> (written: usize)
    requires
        old(output)@.len() >= model::spec_encoded_size_upper_bound(input@.len() as int),
        old(output)@.len() >= 1,
    ensures
        final (output)@.len() == old(output)@.len(),
        written == model::spec_encode(input@).len(),
        final (output)@.subrange(0, written as int) == model::spec_encode(input@),
        forall|k: int|
            written <= k < old(output)@.len() ==> final (output)@[k] == old(output)@[k],
{
    let ghost total = model::spec_encode(input@);
    let ghost blocks0 = model::spec_blocks(input@, 254);
    let olen = output.len();
    let ilen = input.len();
    proof {
        model::lemma_encode_len(input@);
        if input@.len() >= 1 {
            model::lemma_size_room(input@.len() as int);
        }
        model::lemma_blocks_bounded(input@, 254);
        assert(input@.len() < usize::MAX);
    }
    let mut it = BlockIter::<ZeroMethod>::new(input, 254);
    let mut out_idx: usize = 0;
    let ghost mut count: int = 0;
    loop
        invariant
            it.wf(),
            it.input() == input@,
            it.max() == 254,
            0 <= count <= blocks0.len(),
            it.remaining() == blocks0.skip(count),
            blocks0 == model::spec_blocks(input@, 254),
            total == model::spec_encode(input@),
            olen == output@.len(),
            output@.len() == old(output)@.len(),
            out_idx <= output@.len(),
            total.len() <= output@.len(),
            total == output@.subrange(0, out_idx as int) + model::wire_of(it.remaining()),
            forall|k: int| out_idx <= k < output@.len() ==> output@[k] == old(output)@[k],
        ensures
            it.remaining().len() == 0,
            output@.len() == old(output)@.len(),
            out_idx <= output@.len(),
            total == output@.subrange(0, out_idx as int) + model::wire_of(it.remaining()),
            forall|k: int| out_idx <= k < output@.len() ==> output@[k] == old(output)@[k],
        decreases it.remaining().len(),
    {
        let ghost prev = it.remaining();
        match it.next() {
            None => {
                break ;
            },
            Some(block) => {
                proof {
                    model::lemma_blocks_bounded(input@, 254);
                    assert(block@ == prev[0]);
                    assert(prev[0] == blocks0[count]);
                    assert(block@.len() <= 254);
                    assert(model::wire_of(prev) == model::record_of(prev[0]) + model::wire_of(
                        prev.skip(1),
                    ));
                    assert(out_idx + 1 + block@.len() <= total.len());
                }
                write_record(output, out_idx, block);
                let ghost before = out_idx as int;
                out_idx = out_idx + 1 + block.len();
                proof {
                    count = count + 1;
                    assert(blocks0.skip(count - 1).skip(1) =~= blocks0.skip(count));
                    assert(output@.subrange(0, out_idx as int) =~= output@.subrange(0, before)
                        + model::record_of(block@));
                    assert(total =~= output@.subrange(0, out_idx as int) + model::wire_of(
                        it.remaining(),
                    ));
                }
            },
        }
    }
    proof {
        assert(model::wire_of(it.remaining()) =~= Seq::<u8>::empty());
        assert(total =~= output@.subrange(0, out_idx as int));
    }
    out_idx
}

/// Direct-loop encoding: walk the input once, keep the length of the
/// current zero-free run, and back-fill the reserved length byte whenever a
/// zero of the input or a full run of 254 bytes ends the record.
fn cobs_encode_to_trivial(input: &[u8], output: &mut [u8]) -> (written: usize)
    requires
        old(output)@.len() >= model::spec_encoded_size_upper_bound(input@.len() as int),
        old(output)@.len() >= 1,
    ensures
        final (output)@.len() == old(output)@.len(),
        written == model::spec_encode(input@).len(),
        final (output)@.subrange(0, written as int) == model::spec_encode(input@),
        forall|k: int|
            written <= k < old(output)@.len() ==> final (output)@[k] == old(output)@[k],
{
    let ghost s = input@;
    let ghost total = model::spec_encode(s);
    let olen = output.len();
    let ilen = input.len();
    proof {
        model::lemma_encode_len(s);
        if s.len() >= 1 {
            model::lemma_size_room(s.len() as int);
        }
        assert(s.skip(0) =~= s);
        assert(output@.subrange(0, 0) =~= Seq::<u8>::empty());
    }
    let mut written: usize = 1;  // slot 0 reserved for the first length byte
    let mut code_idx: usize = 0;
    let mut cur: u8 = 0;  // length of the current zero-free run
    let mut open = true;  // a length-byte slot is reserved at code_idx
    let mut i: usize = 0;
    proof {
        assert(output@.subrange(1, 1) =~= s.subrange(0, 0));
    }
    while i < ilen
        invariant
            ilen == s.len(),
            s == input@,
            total == model::spec_encode(s),
            olen == output@.len(),
            output@.len() == old(output)@.len(),
            total.len() <= olen,
            i <= ilen,
            written <= olen,
            forall|k: int| written <= k < olen ==> output@[k] == old(output)@[k],
            open ==> {
                &&& cur as int <= 253
                &&& cur as int <= i
                &&& code_idx + 1 + cur as int == written
                &&& total == output@.subrange(0, code_idx as int) + model::spec_encode(
                    s.skip(i - cur as int),
                )
                &&& (forall|j: int| i - cur as int <= j < i ==> s[j] != 0)
                &&& output@.subrange(code_idx as int + 1, written as int) == s.subrange(
                    i - cur as int,
                    i as int,
                )
            },
            !open ==> {
                &&& i == ilen
                &&& written as int == total.len()
                &&& output@.subrange(0, written as int) == total
            },
        decreases ilen - i,
    {
        let ghost q = i - cur as int;
        let b = input[i];
        if b == 0 {
            // End of group: the zero is consumed and the record is sealed
            proof {
                assert forall|j: int| 0 <= j < cur as int implies s.skip(q)[j] != 0 by {
                    assert(s.skip(q)[j] == s[q + j]);
                }
                assert(s.skip(q)[cur as int] == s[i as int]);
                model::lemma_encode_sep(s.skip(q), cur as int);
                model::lemma_encode_len(s.skip(i + 1));
                assert(s.skip(q).skip(cur as int + 1) =~= s.skip(i + 1));
                assert(s.skip(q).take(cur as int) =~= s.subrange(q, i as int));
            }
            let ghost before = output@;
            output[code_idx] = cur + 1;
            proof {
                assert(output@.subrange(0, code_idx as int) =~= before.subrange(
                    0,
                    code_idx as int,
                ));
                assert(output@.subrange(code_idx as int + 1, written as int) =~= before.subrange(
                    code_idx as int + 1,
                    written as int,
                ));
                assert(output@.subrange(0, written as int) =~= output@.subrange(0, code_idx as int)
                    + seq![(cur + 1) as u8] + s.subrange(q, i as int));
                assert(total =~= output@.subrange(0, written as int) + model::spec_encode(
                    s.skip(i + 1),
                ));
            }
            code_idx = written;
            written += 1;
            cur = 0;
            i += 1;
            proof {
                assert(output@.subrange(code_idx as int + 1, written as int) =~= s.subrange(
                    i as int,
                    i as int,
                ));
            }
        } else {
            proof {
                assert forall|j: int| 0 <= j < cur as int + 1 implies s.skip(q)[j] != 0 by {
                    assert(s.skip(q)[j] == s[q + j]);
                }
                model::lemma_encode_len_lower(s.skip(q), cur as int + 1);
            }
            output[written] = b;
            written += 1;
            cur = cur + 1;
            i += 1;
            proof {
                assert(output@.subrange(0, code_idx as int) =~= output@.subrange(
                    0,
                    code_idx as int,
                ));
                assert(output@.subrange(code_idx as int + 1, written as int) =~= s.subrange(
                    q,
                    i as int,
                ));
            }
            if cur == 254 {
                // End of group of 254 non-zero bytes
                if i < ilen {
                    proof {
                        assert(s.skip(q).len() > 254);
                        assert forall|j: int| 0 <= j < 254 implies s.skip(q)[j] != 0 by {
                            assert(s.skip(q)[j] == s[q + j]);
                        }
                        model::lemma_encode_full(s.skip(q));
                        model::lemma_encode_len(s.skip(i as int));
                        assert(s.skip(q).skip(254) =~= s.skip(i as int));
                        assert(s.skip(q).take(254) =~= s.subrange(q, i as int));
                    }
                    let ghost before = output@;
                    output[code_idx] = 255;
                    proof {
                        assert(output@.subrange(0, code_idx as int) =~= before.subrange(
                            0,
                            code_idx as int,
                        ));
                        assert(output@.subrange(code_idx as int + 1, written as int)
                            =~= before.subrange(code_idx as int + 1, written as int));
                        assert(output@.subrange(0, written as int) =~= output@.subrange(
                            0,
                            code_idx as int,
                        ) + seq![255u8] + s.subrange(q, i as int));
                        assert(total =~= output@.subrange(0, written as int) + model::spec_encode(
                            s.skip(i as int),
                        ));
                    }
                    code_idx = written;
                    written += 1;
                    cur = 0;
                    proof {
                        assert(output@.subrange(code_idx as int + 1, written as int) =~= s.subrange(
                            i as int,
                            i as int,
                        ));
                    }
                } else {
                    // The full run reaches the end of the input: the record
                    // is final and no further slot is reserved
                    proof {
                        assert(s.skip(q).len() == 254);
                        assert forall|j: int| 0 <= j < 254 implies s.skip(q)[j] != 0 by {
                            assert(s.skip(q)[j] == s[q + j]);
                        }
                        model::lemma_encode_tail(s.skip(q));
                        assert(s.skip(q) =~= s.subrange(q, i as int));
                    }
                    let ghost before = output@;
                    output[code_idx] = 255;
                    proof {
                        assert(output@.subrange(0, code_idx as int) =~= before.subrange(
                            0,
                            code_idx as int,
                        ));
                        assert(output@.subrange(code_idx as int + 1, written as int)
                            =~= before.subrange(code_idx as int + 1, written as int));
                        assert(output@.subrange(0, written as int) =~= output@.subrange(
                            0,
                            code_idx as int,
                        ) + seq![255u8] + s.subrange(q, i as int));
                        assert(total =~= output@.subrange(0, written as int));
                    }
                    open = false;
                }
            }
        }
    }
    if open {
        // Seal the final record for the tail of the input, as if one zero
        // byte were appended to the message
        proof {
            let q = i - cur as int;
            assert(s.skip(q).len() == cur as int);
            assert forall|j: int| 0 <= j < cur as int implies s.skip(q)[j] != 0 by {
                assert(s.skip(q)[j] == s[q + j]);
            }
            model::lemma_encode_tail(s.skip(q));
            assert(s.skip(q) =~= s.subrange(q, i as int));
        }
        let ghost q = i - cur as int;
        let ghost before = output@;
        output[code_idx] = cur + 1;
        proof {
            assert(output@.subrange(0, code_idx as int) =~= before.subrange(0, code_idx as int));
            assert(output@.subrange(code_idx as int + 1, written as int) =~= before.subrange(
                code_idx as int + 1,
                written as int,
            ));
            assert(output@.subrange(0, written as int) =~= output@.subrange(0, code_idx as int)
                + seq![(cur + 1) as u8] + s.subrange(q, i as int));
            assert(total =~= output@.subrange(0, written as int));
        }
    }
    written
}

/// The classic pointer-walking encoder, re-expressed with explicit
/// indices: `codep` marks the pending length byte, `code` counts the run
/// length plus one, and `encode` is the write cursor.  A record sealed
/// exactly at the end of the input reserves no further slot.
fn cobs_encode_to_c(input: &[u8], output: &mut [u8]) -> (written: usize)
    requires
        old(output)@.len() >= model::spec_encoded_size_upper_bound(input@.len() as int),
        old(output)@.len() >= 1,
    ensures
        final (output)@.len() == old(output)@.len(),
        written == model::spec_encode(input@).len(),
        final (output)@.subrange(0, written as int) == model::spec_encode(input@),
        forall|k: int|
            written <= k < old(output)@.len() ==> final (output)@[k] == old(output)@[k],
{
    let ghost s = input@;
    let ghost total = model::spec_encode(s);
    let olen = output.len();
    let ilen = input.len();
    proof {
        model::lemma_encode_len(s);
        if s.len() >= 1 {
            model::lemma_size_room(s.len() as int);
        }
        assert(s.skip(0) =~= s);
        assert(output@.subrange(0, 0) =~= Seq::<u8>::empty());
        assert(output@.subrange(1, 1) =~= s.subrange(0, 0));
    }
    let mut encode: usize = 1;  // write cursor, one past the pending length byte
    let mut codep: usize = 0;  // index of the pending length byte
    let mut code: u8 = 1;  // pending length byte value: run length plus one
    let mut i: usize = 0;
    while i < ilen
        invariant
            ilen == s.len(),
            s == input@,
            total == model::spec_encode(s),
            olen == output@.len(),
            output@.len() == old(output)@.len(),
            total.len() <= olen,
            i <= ilen,
            encode <= olen,
            codep <= encode,
            codep < encode ==> {
                &&& 1 <= code as int <= 254
                &&& code as int - 1 <= i
                &&& codep + code as int == encode
                &&& total == output@.subrange(0, codep as int) + model::spec_encode(
                    s.skip(i - (code as int - 1)),
                )
                &&& (forall|j: int| i - (code as int - 1) <= j < i ==> s[j] != 0)
                &&& output@.subrange(codep as int + 1, encode as int) == s.subrange(
                    i - (code as int - 1),
                    i as int,
                )
            },
            codep == encode ==> {
                &&& i == ilen
                &&& encode as int == total.len()
                &&& output@.subrange(0, encode as int) == total
            },
            forall|k: int| encode <= k < olen ==> output@[k] == old(output)@[k],
        decreases ilen - i,
    {
        let ghost q = i - (code as int - 1);
        let b = input[i];
        if b != 0 {
            // Byte not zero, write it
            proof {
                assert forall|j: int| 0 <= j < code as int implies s.skip(q)[j] != 0 by {
                    assert(s.skip(q)[j] == s[q + j]);
                }
                model::lemma_encode_len_lower(s.skip(q), code as int);
            }
            output[encode] = b;
            code = code + 1;
            encode += 1;
            proof {
                assert(output@.subrange(codep as int + 1, encode as int) =~= s.subrange(
                    q,
                    i + 1,
                ));
            }
        }
        if b == 0 || code == 255 {
            // Input is zero or block completed, seal the record
            if b == 0 {
                proof {
                    assert forall|j: int| 0 <= j < code as int - 1 implies s.skip(q)[j] != 0 by {
                        assert(s.skip(q)[j] == s[q + j]);
                    }
                    assert(s.skip(q)[code as int - 1] == s[i as int]);
                    model::lemma_encode_sep(s.skip(q), code as int - 1);
                    model::lemma_encode_len(s.skip(i + 1));
                    assert(s.skip(q).skip(code as int) =~= s.skip(i + 1));
                    assert(s.skip(q).take(code as int - 1) =~= s.subrange(q, i as int));
                }
                let ghost before = output@;
                output[codep] = code;
                proof {
                    assert(output@.subrange(0, codep as int) =~= before.subrange(
                        0,
                        codep as int,
                    ));
                    assert(output@.subrange(codep as int + 1, encode as int) =~= before.subrange(
                        codep as int + 1,
                        encode as int,
                    ));
                    assert(output@.subrange(0, encode as int) =~= output@.subrange(0, codep as int)
                        + seq![code] + s.subrange(q, i as int));
                    assert(total =~= output@.subrange(0, encode as int) + model::spec_encode(
                        s.skip(i + 1),
                    ));
                }
                code = 1;
                codep = encode;
                encode += 1;
                proof {
                    assert(output@.subrange(codep as int + 1, encode as int) =~= s.subrange(
                        i + 1,
                        i + 1,
                    ));
                }
            } else {
                // code == 255: a full run of 254 non-zero bytes ending at i
                let ghost before = output@;
                if i + 1 < ilen {
                    proof {
                        assert(s.skip(q).len() > 254);
                        assert forall|j: int| 0 <= j < 254 implies s.skip(q)[j] != 0 by {
                            assert(s.skip(q)[j] == s[q + j]);
                        }
                        model::lemma_encode_full(s.skip(q));
                        model::lemma_encode_len(s.skip(i + 1));
                        assert(s.skip(q).skip(254) =~= s.skip(i + 1));
                        assert(s.skip(q).take(254) =~= s.subrange(q, i + 1));
                    }
                    output[codep] = code;
                    proof {
                        assert(output@.subrange(0, codep as int) =~= before.subrange(
                            0,
                            codep as int,
                        ));
                        assert(output@.subrange(codep as int + 1, encode as int)
                            =~= before.subrange(codep as int + 1, encode as int));
                        assert(output@.subrange(0, encode as int) =~= output@.subrange(
                            0,
                            codep as int,
                        ) + seq![255u8] + s.subrange(q, i + 1));
                        assert(total =~= output@.subrange(0, encode as int) + model::spec_encode(
                            s.skip(i + 1),
                        ));
                    }
                    code = 1;
                    codep = encode;
                    encode += 1;
                    proof {
                        assert(output@.subrange(codep as int + 1, encode as int) =~= s.subrange(
                            i + 1,
                            i + 1,
                        ));
                    }
                } else {
                    // The run reaches the end of the input: the record is
                    // final, nothing further is reserved
                    proof {
                        assert(s.skip(q).len() == 254);
                        assert forall|j: int| 0 <= j < 254 implies s.skip(q)[j] != 0 by {
                            assert(s.skip(q)[j] == s[q + j]);
                        }
                        model::lemma_encode_tail(s.skip(q));
                        assert(s.skip(q) =~= s.subrange(q, i + 1));
                    }
                    output[codep] = code;
                    proof {
                        assert(output@.subrange(0, codep as int) =~= before.subrange(
                            0,
                            codep as int,
                        ));
                        assert(output@.subrange(codep as int + 1, encode as int)
                            =~= before.subrange(codep as int + 1, encode as int));
                        assert(output@.subrange(0, encode as int) =~= output@.subrange(
                            0,
                            codep as int,
                        ) + seq![255u8] + s.subrange(q, i + 1));
                        assert(total =~= output@.subrange(0, encode as int));
                    }
                    code = 1;
                    codep = encode;
                }
            }
        }
        i += 1;
    }
    if codep < encode {
        // Seal the final record for the tail of the input
        proof {
            let q = i - (code as int - 1);
            assert(s.skip(q).len() == code as int - 1);
            assert forall|j: int| 0 <= j < code as int - 1 implies s.skip(q)[j] != 0 by {
                assert(s.skip(q)[j] == s[q + j]);
            }
            model::lemma_encode_tail(s.skip(q));
            assert(s.skip(q) =~= s.subrange(q, i as int));
        }
        let ghost q = i - (code as int - 1);
        let ghost before = output@;
        output[codep] = code;
        proof {
            assert(output@.subrange(0, codep as int) =~= before.subrange(0, codep as int));
            assert(output@.subrange(codep as int + 1, encode as int) =~= before.subrange(
                codep as int + 1,
                encode as int,
            ));
            assert(output@.subrange(0, encode as int) =~= output@.subrange(0, codep as int)
                + seq![code] + s.subrange(q, i as int));
            assert(total =~= output@.subrange(0, encode as int));
        }
    }
    encode
}

/// Block-based encoding with the fixed-width zero finder.
fn cobs_encode_to_opt(input: &[u8], output: &mut [u8]) -> (written: usize)
    requires
        old(output)@.len() >= model::spec_encoded_size_upper_bound(input@.len() as int),
        old(output)@.len() >= 1,
    ensures
        final (output)@.len() == old(output)@.len(),
        written == model::spec_encode(input@).len(),
        final (output)@.subrange(0, written as int) == model::spec_encode(input@),
        forall|k: int|
            written <= k < old(output)@.len() ==> final (output)@[k] == old(output)@[k],
{
    encode_blocks::<SimdBlocks16>(input, output)
}

/// Block-based encoding with the width-generic zero finder of width `N`.
fn cobs_encode_to_std<const N: usize>(input: &[u8], output: &mut [u8]) -> (written: usize)
    requires
        old(output)@.len() >= model::spec_encoded_size_upper_bound(input@.len() as int),
        old(output)@.len() >= 1,
    ensures
        final (output)@.len() == old(output)@.len(),
        written == model::spec_encode(input@).len(),
        final (output)@.subrange(0, written as int) == model::spec_encode(input@),
        forall|k: int|
            written <= k < old(output)@.len() ==> final (output)@[k] == old(output)@[k],
{
    encode_blocks::<SimdBlocksGeneric<N>>(input, output)
}

/// Two-stage encoding: find the largest zero-free runs first, then
/// re-chunk each run into records of at most 254 payload bytes while
/// writing.  A run ended by a zero of the input always ends in a record of
/// fewer than 254 payload bytes, possibly empty; the final run does not.
fn cobs_encode_to_chained_iter<ZeroMethod: NextZeroIndex>(
    input: &[u8],
    output: &mut [u8],
) -> (written: usize)
    requires
        old(output)@.len() >= model::spec_encoded_size_upper_bound(input@.len() as int),
        old(output)@.len() >= 1,
    ensures
        final (output)@.len() == old(output)@.len(),
        written == model::spec_encode(input@).len(),
        final (output)@.subrange(0, written as int) == model::spec_encode(input@),
        forall|k: int|
            written <= k < old(output)@.len() ==> final (output)@[k] == old(output)@[k],
{
    let ghost total = model::spec_encode(input@);
    let olen = output.len();
    let ilen = input.len();
    proof {
        model::lemma_encode_len(input@);
        if input@.len() >= 1 {
            model::lemma_size_room(input@.len() as int);
        }
        assert(input@.len() < usize::MAX);
        model::lemma_two_stage(input@, input@.len() as int);
    }
    // This finds large non-zero blocks first, and then divides them, instead
    // of directly finding non-zero blocks with maximum size
    let mut it = BlockIter::<ZeroMethod>::new(input, ilen);
    let mut out_idx: usize = 0;
    loop
        invariant
            it.wf(),
            it.input() == input@,
            total == model::spec_encode(input@),
            olen == output@.len(),
            output@.len() == old(output)@.len(),
            out_idx <= output@.len(),
            total.len() <= output@.len(),
            total == output@.subrange(0, out_idx as int) + model::chunked_wire_of(it.remaining()),
            forall|k: int| out_idx <= k < output@.len() ==> output@[k] == old(output)@[k],
        ensures
            it.remaining().len() == 0,
            olen == output@.len(),
            output@.len() == old(output)@.len(),
            out_idx <= output@.len(),
            total == output@.subrange(0, out_idx as int) + model::chunked_wire_of(it.remaining()),
            forall|k: int| out_idx <= k < output@.len() ==> output@[k] == old(output)@[k],
        decreases it.remaining().len(),
    {
        let ghost prev = it.remaining();
        match it.next() {
            None => {
                break ;
            },
            Some(large_block) => {
                let more = it.has_more();
                let ghost rest_wire = model::chunked_wire_of(it.remaining());
                if more {
                    // Run ended by a zero of the input: full chunks, then a
                    // remainder record, possibly empty
                    proof {
                        assert(prev.len() >= 2);
                        assert(model::chunked_wire_of(prev) == model::run_records(prev[0])
                            + rest_wire);
                        assert(large_block@.skip(0) =~= large_block@);
                    }
                    let mut off: usize = 0;
                    while large_block.len() - off >= 254
                        invariant
                            off <= large_block@.len(),
                            olen == output@.len(),
                            output@.len() == old(output)@.len(),
                            out_idx <= output@.len(),
                            total.len() <= output@.len(),
                            total == model::spec_encode(input@),
                            total == output@.subrange(0, out_idx as int) + model::run_records(
                                large_block@.skip(off as int),
                            ) + rest_wire,
                            forall|k: int|
                                out_idx <= k < output@.len() ==> output@[k] == old(output)@[k],
                        decreases large_block@.len() - off,
                    {
                        let ghost tail = large_block@.skip(off as int);
                        let chunk = slice_subrange(large_block, off, off + 254);
                        proof {
                            assert(model::run_records(tail) == model::record_of(tail.take(254))
                                + model::run_records(tail.skip(254)));
                            assert(chunk@ =~= tail.take(254));
                            assert(out_idx + 255 <= total.len());
                        }
                        write_record(output, out_idx, chunk);
                        let ghost before = out_idx as int;
                        out_idx += 255;
                        off += 254;
                        proof {
                            assert(large_block@.skip(off as int) =~= tail.skip(254));
                            assert(output@.subrange(0, out_idx as int) =~= output@.subrange(
                                0,
                                before,
                            ) + model::record_of(chunk@));
                            assert(total =~= output@.subrange(0, out_idx as int)
                                + model::run_records(large_block@.skip(off as int)) + rest_wire);
                        }
                    }
                    let ghost tail = large_block@.skip(off as int);
                    let chunk = slice_subrange(large_block, off, large_block.len());
                    proof {
                        assert(tail.len() < 254);
                        assert(model::run_records(tail) == model::record_of(tail));
                        assert(chunk@ =~= tail);
                        assert(out_idx + 1 + chunk@.len() <= total.len());
                    }
                    write_record(output, out_idx, chunk);
                    let ghost before = out_idx as int;
                    out_idx += 1 + (large_block.len() - off);
                    proof {
                        assert(output@.subrange(0, out_idx as int) =~= output@.subrange(0, before)
                            + model::record_of(chunk@));
                        assert(total =~= output@.subrange(0, out_idx as int)
                            + model::chunked_wire_of(it.remaining()));
                    }
                } else {
                    // Final run: full chunks only while more than 254 bytes
                    // remain; the last record is never an extra empty one
                    proof {
                        assert(prev.len() == 1);
                        assert(model::chunked_wire_of(prev) == model::chunk_records(prev[0]));
                        assert(rest_wire =~= Seq::<u8>::empty());
                        assert(large_block@.skip(0) =~= large_block@);
                    }
                    let mut off: usize = 0;
                    while large_block.len() - off > 254
                        invariant
                            off <= large_block@.len(),
                            olen == output@.len(),
                            output@.len() == old(output)@.len(),
                            out_idx <= output@.len(),
                            total.len() <= output@.len(),
                            total == model::spec_encode(input@),
                            total == output@.subrange(0, out_idx as int) + model::chunk_records(
                                large_block@.skip(off as int),
                            ) + rest_wire,
                            forall|k: int|
                                out_idx <= k < output@.len() ==> output@[k] == old(output)@[k],
                        decreases large_block@.len() - off,
                    {
                        let ghost tail = large_block@.skip(off as int);
                        let chunk = slice_subrange(large_block, off, off + 254);
                        proof {
                            assert(model::chunk_records(tail) == model::record_of(tail.take(254))
                                + model::chunk_records(tail.skip(254)));
                            assert(chunk@ =~= tail.take(254));
                            assert(out_idx + 255 <= total.len());
                        }
                        write_record(output, out_idx, chunk);
                        let ghost before = out_idx as int;
                        out_idx += 255;
                        off += 254;
                        proof {
                            assert(large_block@.skip(off as int) =~= tail.skip(254));
                            assert(output@.subrange(0, out_idx as int) =~= output@.subrange(
                                0,
                                before,
                            ) + model::record_of(chunk@));
                            assert(total =~= output@.subrange(0, out_idx as int)
                                + model::chunk_records(large_block@.skip(off as int)) + rest_wire);
                        }
                    }
                    let ghost tail = large_block@.skip(off as int);
                    let chunk = slice_subrange(large_block, off, large_block.len());
                    proof {
                        assert(tail.len() <= 254);
                        assert(model::chunk_records(tail) == model::record_of(tail));
                        assert(chunk@ =~= tail);
                        assert(out_idx + 1 + chunk@.len() <= total.len());
                    }
                    write_record(output, out_idx, chunk);
                    let ghost before = out_idx as int;
                    out_idx += 1 + (large_block.len() - off);
                    proof {
                        assert(output@.subrange(0, out_idx as int) =~= output@.subrange(0, before)
                            + model::record_of(chunk@));
                        assert(total =~= output@.subrange(0, out_idx as int)
                            + model::chunked_wire_of(it.remaining()));
                    }
                }
            },
        }
    }
    proof {
        assert(model::chunked_wire_of(it.remaining()) =~= Seq::<u8>::empty());
        assert(total =~= output@.subrange(0, out_idx as int));
    }
    out_idx
}

/// Encodes into a freshly allocated vector: the direct loop of
/// `cobs_encode_to_trivial`, growing the vector as records are written.
/// The reserved length byte is pushed as a zero and back-filled later.
pub fn cobs_encode_to_vec(input: &[u8]) -> (res: Vec<u8>)
    ensures
        res@ == model::spec_encode(input@),
{
    let ghost s = input@;
    let ghost total = model::spec_encode(s);
    let ilen = input.len();
    let mut res: Vec<u8> = Vec::new();
    res.push(0);  // slot for the first length byte
    let mut code_idx: usize = 0;
    let mut cur: u8 = 0;  // length of the current zero-free run
    let mut open = true;  // a length-byte slot is reserved at code_idx
    let mut i: usize = 0;
    proof {
        assert(s.skip(0) =~= s);
        assert(res@.subrange(0, 0) =~= Seq::<u8>::empty());
        assert(res@.subrange(1, 1) =~= s.subrange(0, 0));
    }
    while i < ilen
        invariant
            ilen == s.len(),
            s == input@,
            total == model::spec_encode(s),
            i <= ilen,
            open ==> {
                &&& cur as int <= 253
                &&& cur as int <= i
                &&& code_idx + 1 + cur as int == res@.len()
                &&& total == res@.subrange(0, code_idx as int) + model::spec_encode(
                    s.skip(i - cur as int),
                )
                &&& (forall|j: int| i - cur as int <= j < i ==> s[j] != 0)
                &&& res@.subrange(code_idx as int + 1, res@.len() as int) == s.subrange(
                    i - cur as int,
                    i as int,
                )
            },
            !open ==> {
                &&& i == ilen
                &&& res@ == total
            },
        decreases ilen - i,
    {
        let ghost q = i - cur as int;
        let b = input[i];
        if b == 0 {
            // End of group: the zero is consumed and the record is sealed
            proof {
                assert forall|j: int| 0 <= j < cur as int implies s.skip(q)[j] != 0 by {
                    assert(s.skip(q)[j] == s[q + j]);
                }
                assert(s.skip(q)[cur as int] == s[i as int]);
                model::lemma_encode_sep(s.skip(q), cur as int);
                assert(s.skip(q).skip(cur as int + 1) =~= s.skip(i + 1));
                assert(s.skip(q).take(cur as int) =~= s.subrange(q, i as int));
            }
            let ghost before = res@;
            res[code_idx] = cur + 1;
            proof {
                assert(res@.subrange(0, code_idx as int) =~= before.subrange(0, code_idx as int));
                assert(res@.subrange(code_idx as int + 1, res@.len() as int) =~= before.subrange(
                    code_idx as int + 1,
                    before.len() as int,
                ));
                assert(res@ =~= res@.subrange(0, code_idx as int) + seq![(cur + 1) as u8]
                    + s.subrange(q, i as int));
                assert(total =~= res@ + model::spec_encode(s.skip(i + 1)));
            }
            code_idx = res.len();
            res.push(0);  // slot for the next length byte
            cur = 0;
            i += 1;
            proof {
                assert(res@.subrange(code_idx as int + 1, res@.len() as int) =~= s.subrange(
                    i as int,
                    i as int,
                ));
                assert(total == res@.subrange(0, code_idx as int) + model::spec_encode(
                    s.skip(i as int),
                ));
            }
        } else {
            res.push(b);
            cur = cur + 1;
            i += 1;
            proof {
                assert(res@.subrange(code_idx as int + 1, res@.len() as int) =~= s.subrange(
                    q,
                    i as int,
                ));
            }
            if cur == 254 {
                // End of group of 254 non-zero bytes
                if i < ilen {
                    proof {
                        assert(s.skip(q).len() > 254);
                        assert forall|j: int| 0 <= j < 254 implies s.skip(q)[j] != 0 by {
                            assert(s.skip(q)[j] == s[q + j]);
                        }
                        model::lemma_encode_full(s.skip(q));
                        assert(s.skip(q).skip(254) =~= s.skip(i as int));
                        assert(s.skip(q).take(254) =~= s.subrange(q, i as int));
                    }
                    let ghost before = res@;
                    res[code_idx] = 255;
                    proof {
                        assert(res@.subrange(0, code_idx as int) =~= before.subrange(
                            0,
                            code_idx as int,
                        ));
                        assert(res@.subrange(code_idx as int + 1, res@.len() as int)
                            =~= before.subrange(code_idx as int + 1, before.len() as int));
                        assert(res@ =~= res@.subrange(0, code_idx as int) + seq![255u8]
                            + s.subrange(q, i as int));
                        assert(total =~= res@ + model::spec_encode(s.skip(i as int)));
                    }
                    code_idx = res.len();
                    res.push(0);  // slot for the next length byte
                    cur = 0;
                    proof {
                        assert(res@.subrange(code_idx as int + 1, res@.len() as int) =~= s.subrange(
                            i as int,
                            i as int,
                        ));
                        assert(total == res@.subrange(0, code_idx as int) + model::spec_encode(
                            s.skip(i as int),
                        ));
                    }
                } else {
                    // The full run reaches the end of the input: the record
                    // is final and no further slot is reserved
                    proof {
                        assert(s.skip(q).len() == 254);
                        assert forall|j: int| 0 <= j < 254 implies s.skip(q)[j] != 0 by {
                            assert(s.skip(q)[j] == s[q + j]);
                        }
                        model::lemma_encode_tail(s.skip(q));
                        assert(s.skip(q) =~= s.subrange(q, i as int));
                    }
                    let ghost before = res@;
                    res[code_idx] = 255;
                    proof {
                        assert(res@.subrange(0, code_idx as int) =~= before.subrange(
                            0,
                            code_idx as int,
                        ));
                        assert(res@.subrange(code_idx as int + 1, res@.len() as int)
                            =~= before.subrange(code_idx as int + 1, before.len() as int));
                        assert(res@ =~= res@.subrange(0, code_idx as int) + seq![255u8]
                            + s.subrange(q, i as int));
                        assert(res@ =~= total);
                    }
                    open = false;
                }
            }
        }
    }
    if open {
        // Seal the final record for the tail of the input
        proof {
            let q = i - cur as int;
            assert(s.skip(q).len() == cur as int);
            assert forall|j: int| 0 <= j < cur as int implies s.skip(q)[j] != 0 by {
                assert(s.skip(q)[j] == s[q + j]);
            }
            model::lemma_encode_tail(s.skip(q));
            assert(s.skip(q) =~= s.subrange(q, i as int));
        }
        let ghost q = i - cur as int;
        let ghost before = res@;
        res[code_idx] = cur + 1;
        proof {
            assert(res@.subrange(0, code_idx as int) =~= before.subrange(0, code_idx as int));
            assert(res@.subrange(code_idx as int + 1, res@.len() as int) =~= before.subrange(
                code_idx as int + 1,
                before.len() as int,
            ));
            assert(res@ =~= res@.subrange(0, code_idx as int) + seq![(cur + 1) as u8] + s.subrange(
                q,
                i as int,
            ));
            assert(res@ =~= total);
        }
    }
    res
}

/// Decodes a COBS wire stream back to the original message, or returns
/// `None` when the stream is malformed: a record whose length byte is
/// zero, or one that claims more payload bytes than remain.
pub fn cobs_decode(input: &[u8]) -> (r: Option<Vec<u8>>)
    ensures
        match r {
            Some(v) => model::spec_decode(input@) == Some(v@),
            None => model::spec_decode(input@) is None,
        },
{
    let ghost s = input@;
    let n = input.len();
    let mut res: Vec<u8> = Vec::new();
    let mut i: usize = 0;
    proof {
        assert(s.skip(0) =~= s);
    }
    while i < n
        invariant
            s == input@,
            n == s.len(),
            i <= s.len(),
            match model::spec_decode(s.skip(i as int)) {
                None => model::spec_decode(s) is None,
                Some(d) => model::spec_decode(s) == Some(res@ + d),
            },
        decreases s.len() - i,
    {
        let ghost suffix = s.skip(i as int);
        let l = input[i];
        if l == 0 {
            proof {
                assert(suffix[0] == 0);
                assert(model::spec_decode(suffix) is None);
            }
            return None;
        }
        let cnt = (l - 1) as usize;
        if cnt > n - i - 1 {
            // The length byte claims more payload bytes than remain
            proof {
                assert(suffix.len() < l as int);
                assert(model::spec_decode(suffix) is None);
            }
            return None;
        }
        let ghost r0 = res@;
        let mut k: usize = 0;
        while k < cnt
            invariant
                k <= cnt,
                s == input@,
                n == s.len(),
                i + 1 + cnt <= n,
                res@ == r0 + s.subrange(i + 1, i + 1 + k),
            decreases cnt - k,
        {
            res.push(input[i + 1 + k]);
            k += 1;
            proof {
                assert(res@ =~= r0 + s.subrange(i as int + 1, i + 1 + k));
            }
        }
        let ghost iprev = i as int;
        i += 1 + cnt;
        if l != 255 && i < n {
            res.push(0);
        }
        proof {
            let payload = suffix.subrange(1, l as int);
            let rest = suffix.skip(l as int);
            assert(payload =~= s.subrange(iprev + 1, iprev + 1 + cnt));
            assert(rest =~= s.skip(i as int));
            assert(model::spec_decode(suffix) == (match model::spec_decode(rest) {
                None => None::<Seq<u8>>,
                Some(d) => Some(payload + (if l != 255 && rest.len() > 0 {
                    seq![0u8] + d
                } else {
                    d
                })),
            }));
            if l != 255 && i < n {
                assert(res@ =~= (r0 + payload) + seq![0u8]);
                match model::spec_decode(s.skip(i as int)) {
                    Some(d) => {
                        assert(r0 + (payload + (seq![0u8] + d)) =~= res@ + d);
                    },
                    None => {},
                }
            } else {
                assert(res@ =~= r0 + payload);
            }
        }
    }
    proof {
        assert(s.skip(s.len() as int) =~= Seq::<u8>::empty());
        assert(res@ + Seq::<u8>::empty() =~= res@);
    }
    Some(res)
}

} // verus!
