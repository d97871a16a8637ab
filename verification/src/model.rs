//! Mathematical model of the COBS wire format.
//!
//! Everything here is specification-level: the block splitting of a message,
//! the wire bytes of a block sequence, the encoding and decoding functions
//! over abstract byte sequences, and the laws that relate them (round trip,
//! zero freedom, size bound, strategy agreement).

use vstd::prelude::*;

verus! {

/// Worst-case encoded length for a message of `n` bytes:
/// `n` data bytes plus one overhead byte per started group of 254.
pub open spec fn spec_encoded_size_upper_bound(n: int) -> int {
    n + (n + 253) / 254
}

/// Length of the zero-free prefix of `s`: the index of the first zero byte,
/// or `s.len()` if `s` contains no zero byte.
pub open spec fn zero_run(s: Seq<u8>) -> nat
    decreases s.len(),
{
    if s.len() == 0 {
        0
    } else if s[0] == 0 {
        0
    } else {
        1 + zero_run(s.skip(1))
    }
}

/// What a zero-finding strategy reports for a window `s`:
/// the offset of the first zero byte, or `None` if there is none.
pub open spec fn spec_next_zero(s: Seq<u8>) -> Option<usize> {
    if zero_run(s) < s.len() {
        Some(zero_run(s) as usize)
    } else {
        None
    }
}

/// A result `r` points at the first zero of `s`: the named offset holds a
/// zero preceded only by non-zero bytes, or there is no zero at all.
pub open spec fn finds_first_zero(s: Seq<u8>, r: Option<usize>) -> bool {
    match r {
        Some(i) => i < s.len() && s[i as int] == 0 && (forall|j: int| 0 <= j < i ==> s[j] != 0),
        None => forall|j: int| 0 <= j < s.len() ==> s[j] != 0,
    }
}

/// `zero_run` is the length of a zero-free prefix, ended by a zero byte
/// unless it covers the whole sequence.
pub proof fn lemma_zero_run(s: Seq<u8>)
    ensures
        zero_run(s) <= s.len(),
        zero_run(s) < s.len() ==> s[zero_run(s) as int] == 0,
        forall|j: int| 0 <= j < zero_run(s) ==> s[j] != 0,
    decreases s.len(),
{
    if s.len() == 0 {
    } else if s[0] == 0 {
    } else {
        lemma_zero_run(s.skip(1));
        assert(forall|j: int| 0 <= j < zero_run(s.skip(1)) ==> s.skip(1)[j] != 0);
        assert forall|j: int| 0 <= j < zero_run(s) implies s[j] != 0 by {
            if j > 0 {
                assert(s.skip(1)[j - 1] != 0);
            }
        }
    }
}

/// Evidence that the first `n` bytes are non-zero and byte `n` (if any) is
/// zero pins `zero_run` down to exactly `n`.
pub proof fn lemma_zero_run_matches(s: Seq<u8>, n: int)
    requires
        0 <= n <= s.len(),
        forall|j: int| 0 <= j < n ==> s[j] != 0,
        n < s.len() ==> s[n] == 0,
    ensures
        zero_run(s) == n,
    decreases s.len(),
{
    if s.len() == 0 {
    } else if s[0] == 0 {
        assert(n == 0);
    } else {
        assert(n >= 1);
        assert forall|j: int| 0 <= j < n - 1 implies s.skip(1)[j] != 0 by {
            assert(s[j + 1] != 0);
        }
        assert(n - 1 < s.skip(1).len() ==> s.skip(1)[n - 1] == 0);
        lemma_zero_run_matches(s.skip(1), n - 1);
    }
}

/// Strategy agreement: any two results that each point at the first zero of
/// the same window are equal.  Every zero-finding strategy of this crate
/// returns such a result, so all strategies agree on every input.
pub proof fn lemma_strategies_agree(s: Seq<u8>, r1: Option<usize>, r2: Option<usize>)
    requires
        finds_first_zero(s, r1),
        finds_first_zero(s, r2),
    ensures
        r1 == r2,
{
    match (r1, r2) {
        (Some(i1), Some(i2)) => {
            if i1 < i2 {
                assert(s[i1 as int] != 0);
            } else if i2 < i1 {
                assert(s[i2 as int] != 0);
            }
        },
        (Some(i1), None) => {
            assert(s[i1 as int] != 0);
        },
        (None, Some(i2)) => {
            assert(s[i2 as int] != 0);
        },
        (None, None) => {},
    }
}

/// The block splitting of a message `s` with maximum block length `max`.
///
/// A block is a zero-free run of message bytes.  Each zero byte of the
/// message ends a block (the zero itself is consumed); a run of `max`
/// non-zero bytes ends a block as well.  One final block covers the
/// remaining tail, as if a single zero byte were appended to the message;
/// it is empty when the message is empty or ends in a zero.
pub open spec fn spec_blocks(s: Seq<u8>, max: int) -> Seq<Seq<u8>>
    decreases s.len(),
        when max >= 1 || s.len() == 0
        via spec_blocks_decreases
{
    if s.len() == 0 {
        seq![Seq::<u8>::empty()]
    } else {
        let bound = if max <= s.len() { max } else { s.len() as int };
        let run = zero_run(s.take(bound)) as int;
        if run < bound {
            seq![s.take(run)] + spec_blocks(s.skip(run + 1), max)
        } else if bound == s.len() {
            seq![s]
        } else {
            seq![s.take(max)] + spec_blocks(s.skip(max), max)
        }
    }
}

#[via_fn]
proof fn spec_blocks_decreases(s: Seq<u8>, max: int) {
    if s.len() != 0 {
        let bound = if max <= s.len() { max } else { s.len() as int };
        lemma_zero_run(s.take(bound));
    }
}

/// The wire record of one block: a length byte (block length plus one)
/// followed by the block's bytes.
pub open spec fn record_of(b: Seq<u8>) -> Seq<u8>
    recommends
        b.len() <= 254,
{
    seq![(b.len() + 1) as u8] + b
}

/// The wire bytes of a block sequence: the records, concatenated.
pub open spec fn wire_of(blocks: Seq<Seq<u8>>) -> Seq<u8>
    decreases blocks.len(),
{
    if blocks.len() == 0 {
        Seq::empty()
    } else {
        record_of(blocks[0]) + wire_of(blocks.skip(1))
    }
}

/// The COBS encoding of a message: the wire bytes of its block splitting
/// with the maximum block length of the format, 254.
pub open spec fn spec_encode(s: Seq<u8>) -> Seq<u8> {
    wire_of(spec_blocks(s, 254))
}

/// The wire records of a zero-free run that was ended by a zero byte of the
/// message, re-chunked into pieces of at most 254 bytes.  The zero itself
/// is represented by the final record having fewer than 254 payload bytes,
/// so a trailing record is emitted even when it is empty.
pub open spec fn run_records(b: Seq<u8>) -> Seq<u8>
    decreases b.len(),
{
    if b.len() < 254 {
        record_of(b)
    } else {
        record_of(b.take(254)) + run_records(b.skip(254))
    }
}

/// The wire records of the final zero-free run of a message (no zero byte
/// follows it), re-chunked into pieces of at most 254 bytes.  No trailing
/// empty record is emitted; an empty run still yields one record.
pub open spec fn chunk_records(b: Seq<u8>) -> Seq<u8>
    decreases b.len(),
{
    if b.len() <= 254 {
        record_of(b)
    } else {
        record_of(b.take(254)) + chunk_records(b.skip(254))
    }
}

/// The wire bytes of a block sequence whose blocks may exceed 254 bytes:
/// every block but the last was ended by a zero of the message and is
/// re-chunked with `run_records`; the last block is the final run and is
/// re-chunked with `chunk_records`.
pub open spec fn chunked_wire_of(blocks: Seq<Seq<u8>>) -> Seq<u8>
    decreases blocks.len(),
{
    if blocks.len() == 0 {
        Seq::empty()
    } else if blocks.len() == 1 {
        chunk_records(blocks[0])
    } else {
        run_records(blocks[0]) + chunked_wire_of(blocks.skip(1))
    }
}

/// The COBS decoding of a wire stream, or `None` if the stream is
/// malformed: a record whose length byte is zero, or one that claims more
/// payload bytes than remain.  A record with length byte below 255 stands
/// for its payload followed by a zero byte, except at the end of the
/// stream.
pub open spec fn spec_decode(s: Seq<u8>) -> Option<Seq<u8>>
    decreases s.len(),
{
    if s.len() == 0 {
        Some(Seq::<u8>::empty())
    } else {
        let l = s[0] as int;
        if l == 0 {
            None
        } else if s.len() < l {
            None
        } else {
            let payload = s.subrange(1, l);
            let rest = s.skip(l);
            match spec_decode(rest) {
                None => None,
                Some(d) => Some(
                    payload + (if l != 255 && rest.len() > 0 {
                        seq![0u8] + d
                    } else {
                        d
                    }),
                ),
            }
        }
    }
}

proof fn lemma_wire_cons(b: Seq<u8>, rest: Seq<Seq<u8>>)
    ensures
        wire_of(seq![b] + rest) == record_of(b) + wire_of(rest),
{
    let blocks = seq![b] + rest;
    assert(blocks[0] == b);
    assert(blocks.skip(1) =~= rest);
}

proof fn lemma_chunked_wire_cons(b: Seq<u8>, rest: Seq<Seq<u8>>)
    requires
        rest.len() >= 1,
    ensures
        chunked_wire_of(seq![b] + rest) == run_records(b) + chunked_wire_of(rest),
{
    let blocks = seq![b] + rest;
    assert(blocks[0] == b);
    assert(blocks.skip(1) =~= rest);
}

/// Block shape: splitting with maximum length `max` yields at least one
/// block, every block is at most `max` bytes long, and no block contains a
/// zero byte.
pub proof fn lemma_blocks_bounded(s: Seq<u8>, max: int)
    requires
        max >= 1,
    ensures
        spec_blocks(s, max).len() >= 1,
        forall|k: int|
            0 <= k < spec_blocks(s, max).len() ==> (#[trigger] spec_blocks(s, max)[k]).len()
                <= max,
        forall|k: int, j: int|
            0 <= k < spec_blocks(s, max).len() && 0 <= j < spec_blocks(s, max)[k].len()
                ==> #[trigger] spec_blocks(s, max)[k][j] != 0,
    decreases s.len(),
{
    let blocks = spec_blocks(s, max);
    if s.len() == 0 {
    } else {
        let bound = if max <= s.len() { max } else { s.len() as int };
        lemma_zero_run(s.take(bound));
        let run = zero_run(s.take(bound)) as int;
        if run < bound {
            lemma_blocks_bounded(s.skip(run + 1), max);
            let head = s.take(run);
            let rest = spec_blocks(s.skip(run + 1), max);
            assert(blocks == seq![head] + rest);
            assert forall|k: int| 0 <= k < blocks.len() implies (#[trigger] blocks[k]).len()
                <= max by {
                if k == 0 {
                    assert(blocks[k] == head);
                } else {
                    assert(blocks[k] == rest[k - 1]);
                }
            }
            assert forall|k: int, j: int|
                0 <= k < blocks.len() && 0 <= j < blocks[k].len() implies #[trigger] blocks[k][j]
                != 0 by {
                if k == 0 {
                    assert(blocks[k] == head);
                    assert(head[j] == s.take(bound)[j]);
                } else {
                    assert(blocks[k] == rest[k - 1]);
                }
            }
        } else if bound == s.len() {
            assert(blocks == seq![s]);
            assert(s.take(bound) =~= s);
            assert forall|k: int, j: int|
                0 <= k < blocks.len() && 0 <= j < blocks[k].len() implies #[trigger] blocks[k][j]
                != 0 by {
                assert(blocks[k] == s);
                assert(s.take(bound)[j] != 0);
            }
        } else {
            lemma_blocks_bounded(s.skip(max), max);
            let head = s.take(max);
            let rest = spec_blocks(s.skip(max), max);
            assert(blocks == seq![head] + rest);
            assert forall|k: int| 0 <= k < blocks.len() implies (#[trigger] blocks[k]).len()
                <= max by {
                if k == 0 {
                    assert(blocks[k] == head);
                } else {
                    assert(blocks[k] == rest[k - 1]);
                }
            }
            assert forall|k: int, j: int|
                0 <= k < blocks.len() && 0 <= j < blocks[k].len() implies #[trigger] blocks[k][j]
                != 0 by {
                if k == 0 {
                    assert(blocks[k] == head);
                    assert(head[j] == s.take(bound)[j]);
                } else {
                    assert(blocks[k] == rest[k - 1]);
                }
            }
        }
    }
}

/// Unfolding: a first zero at offset `i < 254` yields one record of the run
/// before it, then the encoding of what follows the zero.
pub proof fn lemma_encode_sep(s: Seq<u8>, i: int)
    requires
        0 <= i < s.len(),
        i < 254,
        s[i] == 0,
        forall|j: int| 0 <= j < i ==> s[j] != 0,
    ensures
        spec_encode(s) == seq![(i + 1) as u8] + s.take(i) + spec_encode(s.skip(i + 1)),
{
    let bound = if 254 <= s.len() { 254int } else { s.len() as int };
    assert forall|j: int| 0 <= j < i implies s.take(bound)[j] != 0 by {
        assert(s.take(bound)[j] == s[j]);
    }
    lemma_zero_run_matches(s.take(bound), i);
    lemma_wire_cons(s.take(i), spec_blocks(s.skip(i + 1), 254));
    assert(record_of(s.take(i)) == seq![(i + 1) as u8] + s.take(i));
}

/// Unfolding: 254 leading non-zero bytes with more input behind them yield
/// one full record, then the encoding of the remainder.
pub proof fn lemma_encode_full(s: Seq<u8>)
    requires
        s.len() > 254,
        forall|j: int| 0 <= j < 254 ==> s[j] != 0,
    ensures
        spec_encode(s) == seq![255u8] + s.take(254) + spec_encode(s.skip(254)),
{
    assert forall|j: int| 0 <= j < 254 implies s.take(254)[j] != 0 by {
        assert(s.take(254)[j] == s[j]);
    }
    lemma_zero_run_matches(s.take(254), 254);
    lemma_wire_cons(s.take(254), spec_blocks(s.skip(254), 254));
    assert(record_of(s.take(254)) == seq![255u8] + s.take(254));
}

/// Unfolding: a zero-free message of at most 254 bytes is one final record.
pub proof fn lemma_encode_tail(s: Seq<u8>)
    requires
        s.len() <= 254,
        forall|j: int| 0 <= j < s.len() ==> s[j] != 0,
    ensures
        spec_encode(s) == seq![(s.len() + 1) as u8] + s,
{
    if s.len() == 0 {
        assert(spec_blocks(s, 254) == seq![Seq::<u8>::empty()]);
        lemma_wire_cons(Seq::<u8>::empty(), Seq::<Seq<u8>>::empty());
        assert(seq![Seq::<u8>::empty()] + Seq::<Seq<u8>>::empty() =~= spec_blocks(s, 254));
        assert(spec_encode(s) =~= seq![1u8]);
        assert(seq![(s.len() + 1) as u8] + s =~= seq![1u8]);
    } else {
        let bound = s.len() as int;
        assert forall|j: int| 0 <= j < bound implies s.take(bound)[j] != 0 by {
            assert(s.take(bound)[j] == s[j]);
        }
        lemma_zero_run_matches(s.take(bound), bound);
        assert(spec_blocks(s, 254) == seq![s]);
        lemma_wire_cons(s, Seq::<Seq<u8>>::empty());
        assert(seq![s] + Seq::<Seq<u8>>::empty() =~= spec_blocks(s, 254));
        assert(spec_encode(s) =~= seq![(s.len() + 1) as u8] + s);
    }
}

/// The block splitting always yields at least one block.
pub proof fn lemma_blocks_nonempty(s: Seq<u8>, max: int)
    requires
        max >= 1 || s.len() == 0,
    ensures
        spec_blocks(s, max).len() >= 1,
{
    if s.len() != 0 {
        let bound = if max <= s.len() { max } else { s.len() as int };
        lemma_zero_run(s.take(bound));
    }
}

/// Encoded length: one byte for the empty message, and otherwise at most
/// the published upper bound of `n + ceil(n / 254)` bytes for `n` input
/// bytes.  The empty message is the one input whose encoding, a single
/// byte, exceeds that formula (which gives zero there).
pub proof fn lemma_encode_len(s: Seq<u8>)
    ensures
        spec_encode(s).len() >= 1,
        s.len() == 0 ==> spec_encode(s).len() == 1,
        s.len() >= 1 ==> spec_encode(s).len() <= spec_encoded_size_upper_bound(s.len() as int),
    decreases s.len(),
{
    let n = s.len() as int;
    if s.len() == 0 {
        lemma_encode_tail(s);
    } else {
        let bound = if 254 <= n { 254int } else { n };
        lemma_zero_run(s.take(bound));
        let run = zero_run(s.take(bound)) as int;
        if run < bound {
            assert(s[run] == 0);
            assert forall|j: int| 0 <= j < run implies s[j] != 0 by {
                assert(s.take(bound)[j] != 0);
            }
            lemma_encode_sep(s, run);
            lemma_encode_len(s.skip(run + 1));
            let m = n - run - 1;
            if m == 0 {
                assert((n + 253) / 254 >= 1) by {
                    vstd::arithmetic::div_mod::lemma_div_is_ordered(254, n + 253, 254);
                }
            } else {
                vstd::arithmetic::div_mod::lemma_div_is_ordered(m + 253, n + 253, 254);
            }
        } else if bound == n {
            assert forall|j: int| 0 <= j < n implies s[j] != 0 by {
                assert(s.take(bound)[j] != 0);
            }
            lemma_encode_tail(s);
            assert((n + 253) / 254 >= 1) by {
                vstd::arithmetic::div_mod::lemma_div_is_ordered(254, n + 253, 254);
            }
        } else {
            assert forall|j: int| 0 <= j < 254 implies s[j] != 0 by {
                assert(s.take(bound)[j] != 0);
            }
            lemma_encode_full(s);
            lemma_encode_len(s.skip(254));
            let m = n - 254;
            vstd::arithmetic::div_mod::lemma_div_plus_one(m + 253, 254);
            assert(254 + (m + 253) == n + 253);
        }
    }
}

/// For a non-empty message the published bound leaves room for the data
/// and at least one overhead byte.
pub proof fn lemma_size_room(n: int)
    requires
        n >= 1,
    ensures
        spec_encoded_size_upper_bound(n) >= n + 1,
{
    vstd::arithmetic::div_mod::lemma_div_is_ordered(254, n + 253, 254);
}

/// A zero-free prefix of `p <= 254` bytes forces at least `p` payload
/// bytes behind the first length byte of the encoding.
pub proof fn lemma_encode_len_lower(s: Seq<u8>, p: int)
    requires
        0 <= p <= 254,
        p <= s.len(),
        forall|j: int| 0 <= j < p ==> s[j] != 0,
    ensures
        spec_encode(s).len() >= 1 + p,
{
    let n = s.len() as int;
    let bound = if 254 <= n { 254int } else { n };
    lemma_zero_run(s.take(bound));
    let run = zero_run(s.take(bound)) as int;
    if run < p {
        assert(s.take(bound)[run] == 0);
        assert(s[run] != 0);
    }
    assert forall|j: int| 0 <= j < run implies s[j] != 0 by {
        assert(s.take(bound)[j] != 0);
    }
    if run < bound {
        assert(s.take(bound)[run] == s[run]);
        lemma_encode_sep(s, run);
        lemma_encode_len(s.skip(run + 1));
    } else if bound == n {
        lemma_encode_tail(s);
    } else {
        lemma_encode_full(s);
        lemma_encode_len(s.skip(254));
    }
}

/// Zero freedom: the encoding of any message contains no zero byte, so a
/// zero can safely delimit encoded messages on a stream.
pub proof fn lemma_encode_no_zeros(s: Seq<u8>)
    ensures
        forall|k: int| 0 <= k < spec_encode(s).len() ==> #[trigger] spec_encode(s)[k] != 0,
    decreases s.len(),
{
    let n = s.len() as int;
    if s.len() == 0 {
        lemma_encode_tail(s);
    } else {
        let bound = if 254 <= n { 254int } else { n };
        lemma_zero_run(s.take(bound));
        let run = zero_run(s.take(bound)) as int;
        if run < bound {
            assert(s[run] == 0);
            assert forall|j: int| 0 <= j < run implies s[j] != 0 by {
                assert(s.take(bound)[j] != 0);
            }
            lemma_encode_sep(s, run);
            lemma_encode_no_zeros(s.skip(run + 1));
            let e = seq![(run + 1) as u8] + s.take(run) + spec_encode(s.skip(run + 1));
            assert forall|k: int| 0 <= k < e.len() implies #[trigger] e[k] != 0 by {
                if k == 0 {
                } else if k < run + 1 {
                    assert(e[k] == s.take(run)[k - 1]);
                } else {
                    assert(e[k] == spec_encode(s.skip(run + 1))[k - run - 1]);
                }
            }
        } else if bound == n {
            assert forall|j: int| 0 <= j < n implies s[j] != 0 by {
                assert(s.take(bound)[j] != 0);
            }
            lemma_encode_tail(s);
            let e = seq![(n + 1) as u8] + s;
            assert forall|k: int| 0 <= k < e.len() implies #[trigger] e[k] != 0 by {
                if k > 0 {
                    assert(e[k] == s[k - 1]);
                }
            }
        } else {
            assert forall|j: int| 0 <= j < 254 implies s[j] != 0 by {
                assert(s.take(bound)[j] != 0);
            }
            lemma_encode_full(s);
            lemma_encode_no_zeros(s.skip(254));
            let e = seq![255u8] + s.take(254) + spec_encode(s.skip(254));
            assert forall|k: int| 0 <= k < e.len() implies #[trigger] e[k] != 0 by {
                if k == 0 {
                } else if k < 255 {
                    assert(e[k] == s.take(254)[k - 1]);
                } else {
                    assert(e[k] == spec_encode(s.skip(254))[k - 255]);
                }
            }
        }
    }
}

/// Decoding one well-formed record at the front of a stream: the payload,
/// a zero separator where the record stands for one, then the rest.
proof fn lemma_decode_record(e: Seq<u8>, b: Seq<u8>, rest: Seq<u8>)
    requires
        b.len() <= 254,
        e == seq![(b.len() + 1) as u8] + b + rest,
    ensures
        spec_decode(e) == match spec_decode(rest) {
            None => None::<Seq<u8>>,
            Some(d) => Some(
                b + (if b.len() != 254 && rest.len() > 0 {
                    seq![0u8] + d
                } else {
                    d
                }),
            ),
        },
{
    let l = b.len() + 1;
    assert(e[0] == (l as u8));
    assert(e[0] as int == l);
    assert(e.len() == 1 + b.len() + rest.len());
    assert(e.subrange(1, l as int) =~= b) by {
        assert forall|j: int| 0 <= j < b.len() implies e.subrange(1, l as int)[j] == b[j] by {
            assert(e[1 + j] == b[j]);
        }
    }
    assert(e.skip(l as int) =~= rest) by {
        assert forall|j: int| 0 <= j < rest.len() implies e.skip(l as int)[j] == rest[j] by {
            assert(e[l + j] == rest[j]);
        }
    }
    assert(l != 255 <==> b.len() != 254);
}

/// Round trip: decoding an encoded message gives back the message.
pub proof fn lemma_round_trip(s: Seq<u8>)
    ensures
        spec_decode(spec_encode(s)) == Some(s),
    decreases s.len(),
{
    let n = s.len() as int;
    let empty = Seq::<u8>::empty();
    assert(spec_decode(empty) == Some(empty));
    if s.len() == 0 {
        lemma_encode_tail(s);
        let e = spec_encode(s);
        assert(e =~= seq![1u8] + empty + empty);
        lemma_decode_record(e, empty, empty);
        assert(empty + empty =~= s);
    } else {
        let bound = if 254 <= n { 254int } else { n };
        lemma_zero_run(s.take(bound));
        let run = zero_run(s.take(bound)) as int;
        if run < bound {
            assert(s[run] == 0);
            assert forall|j: int| 0 <= j < run implies s[j] != 0 by {
                assert(s.take(bound)[j] != 0);
            }
            lemma_encode_sep(s, run);
            lemma_round_trip(s.skip(run + 1));
            lemma_encode_len(s.skip(run + 1));
            let e = spec_encode(s);
            let rest = spec_encode(s.skip(run + 1));
            lemma_decode_record(e, s.take(run), rest);
            assert(rest.len() > 0);
            assert(spec_decode(e) == Some(s.take(run) + (seq![0u8] + s.skip(run + 1))));
            assert(s.take(run) + (seq![0u8] + s.skip(run + 1)) =~= s);
        } else if bound == n {
            assert forall|j: int| 0 <= j < n implies s[j] != 0 by {
                assert(s.take(bound)[j] != 0);
            }
            lemma_encode_tail(s);
            let e = spec_encode(s);
            assert(e =~= seq![(n + 1) as u8] + s + empty);
            lemma_decode_record(e, s, empty);
            assert(spec_decode(e) == Some(s + empty));
            assert(s + empty =~= s);
        } else {
            assert forall|j: int| 0 <= j < 254 implies s[j] != 0 by {
                assert(s.take(bound)[j] != 0);
            }
            lemma_encode_full(s);
            lemma_round_trip(s.skip(254));
            lemma_encode_len(s.skip(254));
            let e = spec_encode(s);
            let rest = spec_encode(s.skip(254));
            lemma_decode_record(e, s.take(254), rest);
            assert(spec_decode(e) == Some(s.take(254) + s.skip(254)));
            assert(s.take(254) + s.skip(254) =~= s);
        }
    }
}

/// Re-chunking a run ended by a zero: if the first zero of `s` sits at
/// offset `i`, the encoding of `s` is the re-chunked records of the run
/// before the zero, then the encoding of what follows the zero.
proof fn lemma_runs_zero(s: Seq<u8>, i: int)
    requires
        0 <= i < s.len(),
        s[i] == 0,
        forall|j: int| 0 <= j < i ==> s[j] != 0,
    ensures
        spec_encode(s) == run_records(s.take(i)) + spec_encode(s.skip(i + 1)),
    decreases i,
{
    if i < 254 {
        lemma_encode_sep(s, i);
        assert(run_records(s.take(i)) == seq![(i + 1) as u8] + s.take(i));
    } else {
        lemma_encode_full(s);
        assert(s.skip(254)[i - 254] == s[i]);
        assert forall|j: int| 0 <= j < i - 254 implies s.skip(254)[j] != 0 by {
            assert(s.skip(254)[j] == s[254 + j]);
        }
        lemma_runs_zero(s.skip(254), i - 254);
        assert(s.skip(254).take(i - 254) =~= s.take(i).skip(254));
        assert(s.skip(254).skip(i - 254 + 1) =~= s.skip(i + 1));
        assert(s.take(i).take(254) =~= s.take(254));
        assert(record_of(s.take(254)) == seq![255u8] + s.take(254));
        assert(run_records(s.take(i)) == (seq![255u8] + s.take(254)) + run_records(
            s.take(i).skip(254),
        ));
        assert(spec_encode(s) =~= run_records(s.take(i)) + spec_encode(s.skip(i + 1)));
    }
}

/// Re-chunking the final run: a zero-free message encodes to its
/// re-chunked records alone.
proof fn lemma_chunks_tail(s: Seq<u8>)
    requires
        forall|j: int| 0 <= j < s.len() ==> s[j] != 0,
    ensures
        spec_encode(s) == chunk_records(s),
    decreases s.len(),
{
    if s.len() <= 254 {
        lemma_encode_tail(s);
    } else {
        lemma_encode_full(s);
        assert forall|j: int| 0 <= j < s.skip(254).len() implies s.skip(254)[j] != 0 by {
            assert(s.skip(254)[j] == s[254 + j]);
        }
        lemma_chunks_tail(s.skip(254));
        assert(record_of(s.take(254)) == seq![255u8] + s.take(254));
        assert(spec_encode(s) =~= chunk_records(s));
    }
}

/// Two-stage splitting: splitting into maximal zero-free runs first and
/// re-chunking each run afterwards yields exactly the encoding.
pub proof fn lemma_two_stage(s: Seq<u8>, max: int)
    requires
        max >= s.len(),
        max >= 1 || s.len() == 0,
    ensures
        chunked_wire_of(spec_blocks(s, max)) == spec_encode(s),
    decreases s.len(),
{
    if s.len() == 0 {
        let blocks = spec_blocks(s, max);
        assert(blocks == seq![Seq::<u8>::empty()]);
        assert(blocks[0] == Seq::<u8>::empty());
        lemma_encode_tail(s);
        assert(chunk_records(Seq::<u8>::empty()) =~= spec_encode(s));
    } else {
        let bound = if max <= s.len() { max } else { s.len() as int };
        assert(s.take(bound) =~= s);
        lemma_zero_run(s);
        let run = zero_run(s) as int;
        if run < bound {
            let head = s.take(run);
            let rest = spec_blocks(s.skip(run + 1), max);
            assert(spec_blocks(s, max) == seq![head] + rest);
            lemma_blocks_nonempty(s.skip(run + 1), max);
            lemma_chunked_wire_cons(head, rest);
            lemma_two_stage(s.skip(run + 1), max);
            lemma_runs_zero(s, run);
        } else {
            assert(spec_blocks(s, max) == seq![s]);
            assert(spec_blocks(s, max)[0] == s);
            lemma_chunks_tail(s);
        }
    }
}

/// The canonical strategy result points at the first zero.
pub proof fn lemma_spec_next_zero_finds(s: Seq<u8>)
    requires
        s.len() <= usize::MAX,
    ensures
        finds_first_zero(s, spec_next_zero(s)),
{
    lemma_zero_run(s);
}

} // verus!
