//! Streams that hold their bytes in stored blocks, and the proof that the stream of the
//! decoder in front of them is those bytes.

use crate::adler32::{adler32, initial_sums, lemma_feed_bounded};
use crate::bit::{bit_at, bit_count, bits_value};
use crate::error::Error;
use crate::inflate::{after_block, block_start, stored_block_at, InflaterModel, Phase};
use crate::stream::{
    inflate_stream, lemma_stored_bytes, lemma_stream_idle, lemma_stream_start,
    lemma_stream_stored, zlib_stream, Ending, Rest,
};
use crate::zlib_decoder::{trailer_at, zlib_header_at, Stage, ZlibModel};
use vstd::arithmetic::power2::lemma2_to64;
use vstd::prelude::*;

verus! {

/// The longest payload of a stored block.
pub const MAX_STORED: usize = 65535;

/// The five bytes in front of the payload of a stored block: the block header, padded to
/// a byte, then the length of the payload and its complement, low byte first.
pub open spec fn stored_header(last_block: bool, len: nat) -> Seq<u8> {
    seq![
        if last_block { 1u8 } else { 0u8 },
        (len % 256) as u8,
        (len / 256) as u8,
        (255 - len % 256) as u8,
        (255 - len / 256) as u8,
    ]
}

/// The deflate stream that holds `bytes` in stored blocks, each but the last as long as a
/// stored block can be.
pub open spec fn stored_stream(bytes: Seq<u8>) -> Seq<u8>
    decreases bytes.len(),
{
    if bytes.len() <= MAX_STORED {
        stored_header(true, bytes.len()) + bytes
    } else {
        stored_header(false, MAX_STORED as nat) + bytes.take(MAX_STORED as int) + stored_stream(
            bytes.skip(MAX_STORED as int),
        )
    }
}

/// The four bytes of a checksum, the highest first.
pub open spec fn checksum_bytes(value: nat) -> Seq<u8> {
    seq![
        (value / 0x100_0000) as u8,
        ((value / 0x1_0000) % 256) as u8,
        ((value / 0x100) % 256) as u8,
        (value % 256) as u8,
    ]
}

/// The zlib stream that holds `bytes` in stored blocks: the header, the deflate stream,
/// and the Adler-32 checksum of `bytes`.
#[verifier::opaque]
pub open spec fn zlib_stored(bytes: Seq<u8>) -> Seq<u8> {
    seq![0x78u8, 0x01u8] + stored_stream(bytes) + checksum_bytes(adler32(bytes))
}

/// The first block of a stream of stored blocks is followed by the stream of what it does
/// not hold.
proof fn lemma_stored_stream(bytes: Seq<u8>)
    ensures
        stored_stream(bytes).len() >= 5,
        bytes.len() <= MAX_STORED ==> stored_stream(bytes) == stored_header(true, bytes.len())
            + bytes,
        bytes.len() > MAX_STORED ==> stored_stream(bytes) == stored_header(
            false,
            MAX_STORED as nat,
        ) + bytes.take(MAX_STORED as int) + stored_stream(bytes.skip(MAX_STORED as int)),
{
}

/// A stored block header in the data leads into the block.
proof fn lemma_block_start_stored(data: Seq<u8>, at: nat, last_block: bool, len: nat)
    requires
        len <= MAX_STORED,
        at + 5 <= data.len(),
        data.subrange(at as int, (at + 5) as int) == stored_header(last_block, len),
    ensures
        block_start(data, 8 * at) == Ok::<Phase, Error>(
            Phase::UncompressedData { at: at + 5, len, last_block },
        ),
{
    reveal(block_start);
    reveal_with_fuel(bits_value, 3);
    lemma2_to64();
    let header = stored_header(last_block, len);
    let window = data.subrange(at as int, (at + 5) as int);
    assert(data[at as int] == window[0]);
    assert(data[at as int + 1] == window[1]);
    assert(data[at as int + 2] == window[2]);
    assert(data[at as int + 3] == window[3]);
    assert(data[at as int + 4] == window[4]);
    let pos = 8 * at;
    assert(pos / 8 == at && pos % 8 == 0);
    assert((pos + 1) / 8 == at && (pos + 1) % 8 == 1);
    assert((pos + 2) / 8 == at && (pos + 2) % 8 == 2);
    assert((pos + 3 + 7) / 8 == at + 1);
    let first = data[at as int] as nat;
    assert(first == 0 || first == 1);
    assert(first / 1 == first && first / 2 == 0 && first / 4 == 0) by (nonlinear_arith)
        requires
            first == 0 || first == 1,
    ;
    assert(bit_at(data, pos) == (first / 1) % 2);
    assert(bit_at(data, (pos + 1) as nat) == (first / 2) % 2);
    assert(bit_at(data, (pos + 2) as nat) == (first / 4) % 2);
    assert(bit_at(data, pos) == if last_block { 1nat } else { 0nat });
    assert(bit_at(data, pos + 1) == 0);
    assert(bit_at(data, pos + 2) == 0);
    assert(bits_value(data, pos, 1) == if last_block { 1nat } else { 0nat });
    assert(bits_value(data, pos + 1, 2) == 0);
    assert(stored_block_at(data, at + 1, last_block) == Ok::<Phase, Error>(
        Phase::UncompressedData { at: at + 5, len, last_block },
    ));
}

/// The deflate decoder in `phase` has `rest` left to put out, and the data holds it in
/// stored blocks that end at byte position `end`.
pub open spec fn holds_stored(data: Seq<u8>, phase: Phase, rest: Seq<u8>, end: nat) -> bool {
    &&& end <= data.len()
    &&& match phase {
        Phase::BeforeBlockStart { pos } => {
            &&& pos % 8 == 0
            &&& pos / 8 <= end
            &&& data.subrange((pos / 8) as int, end as int) == stored_stream(rest)
        },
        Phase::UncompressedData { at, len, last_block } => {
            &&& len <= rest.len()
            &&& len <= MAX_STORED
            &&& at + len <= end
            &&& data.subrange(at as int, (at + len) as int) == rest.take(len as int)
            &&& if last_block {
                rest.len() == len && end == at + len
            } else {
                data.subrange((at + len) as int, end as int) == stored_stream(rest.skip(len as int))
            }
        },
        Phase::Eof { at } => rest.len() == 0 && at == end,
        _ => false,
    }
}

/// The stored block in front of the decoder, as `holds_stored` has it.
spec fn first_block(at: nat, rest: Seq<u8>) -> Phase {
    Phase::UncompressedData {
        at: at + 5,
        len: if rest.len() <= MAX_STORED {
            rest.len()
        } else {
            MAX_STORED as nat
        },
        last_block: rest.len() <= MAX_STORED,
    }
}

/// In front of a stored block, the decoder reads its header and comes into the block.
proof fn lemma_enter_stored(data: Seq<u8>, at: nat, rest: Seq<u8>, end: nat)
    requires
        holds_stored(data, Phase::BeforeBlockStart { pos: 8 * at }, rest, end),
    ensures
        block_start(data, 8 * at) == Ok::<Phase, Error>(first_block(at, rest)),
        holds_stored(data, first_block(at, rest), rest, end),
{
    lemma_stored_stream(rest);
    let stream = stored_stream(rest);
    let last_block = rest.len() <= MAX_STORED;
    let len: nat = if last_block {
        rest.len()
    } else {
        MAX_STORED as nat
    };
    assert((8 * at) / 8 == at);
    let held = data.subrange(at as int, end as int);
    assert(held == stream);
    assert(data.subrange(at as int, (at + 5) as int) =~= held.subrange(0, 5));
    assert(stream.subrange(0, 5) =~= stored_header(last_block, len));
    lemma_block_start_stored(data, at, last_block, len);
    assert(data.subrange((at + 5) as int, (at + 5 + len) as int) =~= held.subrange(
        5,
        (5 + len) as int,
    ));
    assert(stream.subrange(5, (5 + len) as int) =~= rest.take(len as int));
    if !last_block {
        assert(data.subrange((at + 5 + len) as int, end as int) =~= held.subrange(
            (5 + len) as int,
            held.len() as int,
        ));
        assert(stream.subrange((5 + len) as int, stream.len() as int) =~= stored_stream(
            rest.skip(len as int),
        ));
    } else {
        assert(rest.take(len as int) =~= rest);
    }
}

/// Inside a stored block, the next `count` bytes of the data are the next of what is
/// left, and the rest is still held.
proof fn lemma_copy_stored(
    data: Seq<u8>,
    at: nat,
    len: nat,
    last_block: bool,
    rest: Seq<u8>,
    end: nat,
    count: nat,
)
    requires
        holds_stored(data, Phase::UncompressedData { at, len, last_block }, rest, end),
        count <= len,
    ensures
        data.subrange(at as int, (at + count) as int) == rest.take(count as int),
        holds_stored(
            data,
            Phase::UncompressedData { at: at + count, len: (len - count) as nat, last_block },
            rest.skip(count as int),
            end,
        ),
{
    let out = data.subrange(at as int, (at + count) as int);
    let block = data.subrange(at as int, (at + len) as int);
    assert(out =~= block.subrange(0, count as int));
    assert(rest.take(len as int).subrange(0, count as int) =~= rest.take(count as int));
    let left = rest.skip(count as int);
    assert(data.subrange((at + count) as int, (at + len) as int) =~= block.subrange(
        count as int,
        len as int,
    ));
    assert(rest.take(len as int).subrange(count as int, len as int) =~= left.take(
        (len - count) as int,
    ));
    assert(left.skip((len - count) as int) =~= rest.skip(len as int));
}

/// Behind a stored block, the decoder is at the end or in front of the next block.
proof fn lemma_leave_stored(data: Seq<u8>, at: nat, last_block: bool, rest: Seq<u8>, end: nat)
    requires
        holds_stored(data, Phase::UncompressedData { at, len: 0, last_block }, rest, end),
    ensures
        holds_stored(data, after_block(last_block, 8 * at), rest, end),
{
    assert(rest.skip(0) =~= rest);
    assert((8 * at) / 8 == at);
    assert((8 * at + 7) / 8 == at);
}

/// The parts of a zlib stream of stored blocks: the two bytes of the header, the deflate
/// stream, and the checksum, which is read back as it was stored.
proof fn lemma_zlib_stored_parts(bytes: Seq<u8>)
    ensures
        zlib_stored(bytes).len() == 2 + stored_stream(bytes).len() + 4,
        zlib_header_at(zlib_stored(bytes), 0) == Ok::<nat, Error>(2),
        zlib_stored(bytes).subrange(2, 2 + stored_stream(bytes).len() as int) == stored_stream(
            bytes,
        ),
        trailer_at(zlib_stored(bytes), 2 + stored_stream(bytes).len()) == Ok::<nat, Error>(
            adler32(bytes),
        ),
{
    reveal(zlib_stored);
    let data = zlib_stored(bytes);
    let at = 2 + stored_stream(bytes).len();
    let value = adler32(bytes);
    lemma_feed_bounded(initial_sums(), bytes);
    let tail = checksum_bytes(value);
    assert(data[0] == 0x78u8);
    assert(data[1] == 0x01u8);
    assert(data[at as int] == tail[0]);
    assert(data[at as int + 1] == tail[1]);
    assert(data[at as int + 2] == tail[2]);
    assert(data[at as int + 3] == tail[3]);
    assert(value < 0x1_0000_0000);
    assert(data.subrange(2, at as int) =~= stored_stream(bytes));
}

/// The stream of a deflate decoder in stored blocks is what the blocks hold, and it ends
/// where they end.
proof fn lemma_stored_inflate_stream(model: InflaterModel, rest: Seq<u8>, end: nat)
    requires
        holds_stored(model.data, model.phase, rest, end),
    ensures
        inflate_stream(model) == (Rest { bytes: rest, ending: Ending::End { at: end } }),
    decreases bit_count(model.data) - model.phase.pos(), model.phase.rank(),
{
    let data = model.data;
    match model.phase {
        Phase::BeforeBlockStart { pos } => {
            let at = pos / 8;
            assert(pos == 8 * at);
            lemma_stream_start(model);
            lemma_enter_stored(data, at, rest, end);
            lemma_stored_inflate_stream(model.at_phase(first_block(at, rest)), rest, end);
        },
        Phase::UncompressedData { at, len, last_block } => {
            lemma_stream_stored(model);
            if len == 0 {
                lemma_leave_stored(data, at, last_block, rest, end);
                lemma_stored_inflate_stream(
                    model.at_phase(after_block(last_block, 8 * at)),
                    rest,
                    end,
                );
            } else {
                lemma_stored_bytes(model, len);
                lemma_copy_stored(data, at, len, last_block, rest, end, len);
                let bytes = data.subrange(at as int, (at + len) as int);
                let behind = InflaterModel {
                    phase: Phase::UncompressedData { at: at + len, len: 0, last_block },
                    history: model.history + bytes,
                    ..model
                };
                lemma_stored_inflate_stream(behind, rest.skip(len as int), end);
                assert(rest.take(len as int) + rest.skip(len as int) =~= rest);
            }
        },
        _ => {
            lemma_stream_idle(model);
            assert(rest =~= Seq::<u8>::empty());
        },
    }
}

/// Round trip through stored blocks: for any byte sequence, the stream of the decoder
/// that stands in front of the zlib stream holding the sequence in stored blocks is that
/// sequence, and it ends as it should, at the end of the data. (What the reads of a
/// decoder put out is its stream, whatever the buffers and however the data arrives.)
pub proof fn lemma_stored_round_trip(bytes: Seq<u8>, complete: bool)
    ensures
        zlib_stream(
            ZlibModel {
                data: zlib_stored(bytes),
                complete,
                stage: Stage::Start { at: 0 },
                produced: Seq::empty(),
            },
        ) == (Rest { bytes, ending: Ending::End { at: zlib_stored(bytes).len() } }),
{
    let data = zlib_stored(bytes);
    let model = ZlibModel {
        data,
        complete,
        stage: Stage::Start { at: 0 },
        produced: Seq::empty(),
    };
    let end = 2 + stored_stream(bytes).len();
    lemma_zlib_stored_parts(bytes);
    let phase = Phase::BeforeBlockStart { pos: 16 };
    lemma_stored_inflate_stream(model.inflater(phase), bytes, end);
    assert(model.produced + bytes =~= bytes);
    assert(bytes + Seq::<u8>::empty() =~= bytes);
}

} // verus!
