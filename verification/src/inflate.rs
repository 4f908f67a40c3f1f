//! The deflate decoder: a state machine over the blocks of a stream.

use crate::alphabet::{is_final, BlockTables, MAX_DISTANCE};
use crate::bit::{
    bit_count, bits_value, lemma_bits_value_bound, lemma_bits_value_prefix, BitRead,
};
use crate::compressed_block_reader::{
    block_run, fixed_tables, is_window_of, lemma_block_run_result, lemma_block_run_window,
    BlockState, CompressedBlockReader,
};
use crate::dynamic_tables::{
    dynamic_tables_at, lemma_dynamic_tables_position, lemma_dynamic_tables_stable,
    read_dynamic_tables,
};
use crate::error::Error;
use crate::read_all;
use crate::source::ByteSource;
use vstd::arithmetic::power2::lemma2_to64;
use vstd::prelude::*;

verus! {

/// What the decoder is doing.
pub enum Phase {
    /// It is outside of any block; the next block starts at bit position `pos`.
    BeforeBlockStart { pos: nat },
    /// It is inside a stored block, of which `len` bytes are left, the first of them at
    /// byte position `at`.
    UncompressedData { at: nat, len: nat, last_block: bool },
    /// It is inside a compressed block.
    CompressedData { tables: BlockTables, state: BlockState, last_block: bool },
    /// It has finished reading the last block; the deflate stream ended before byte
    /// position `at`.
    Eof { at: nat },
    /// A read has failed.
    Poisoned,
}

/// What a decoder is: the data that has arrived, whether that is the whole stream, what
/// the decoder is doing, and all the bytes it has put out since it was made.
pub struct InflaterModel {
    pub data: Seq<u8>,
    pub complete: bool,
    pub phase: Phase,
    pub history: Seq<u8>,
}

/// What a read does: the decoder after it, the bytes that it puts out, and the error, if
/// it fails.
pub struct ReadOutcome {
    pub model: InflaterModel,
    pub out: Seq<u8>,
    pub error: Option<Error>,
}

/// The state of a block reader that has not read anything of its block yet.
pub open spec fn fresh_state(pos: nat) -> BlockState {
    BlockState { pos, eof: false, pending_length: 0, pending_distance: 0 }
}

/// The phase after a block that ended at bit position `pos`: after the last block the
/// stream has ended, and what is left of the current byte is dropped.
pub open spec fn after_block(last_block: bool, pos: nat) -> Phase {
    if last_block {
        Phase::Eof { at: (pos + 7) / 8 }
    } else {
        Phase::BeforeBlockStart { pos }
    }
}

/// The phase inside the stored block whose header is at byte position `at`. The header is
/// the length of the block and its complement, two bytes each, low byte first.
pub open spec fn stored_block_at(data: Seq<u8>, at: nat, last_block: bool) -> Result<
    Phase,
    Error,
> {
    if at + 4 > data.len() {
        Err(Error::UnexpectedEof)
    } else {
        let len = data[at as int] as nat + 256 * data[at as int + 1] as nat;
        let nlen = data[at as int + 2] as nat + 256 * data[at as int + 3] as nat;
        if len + nlen != 65535 {
            Err(Error::LengthMismatch)
        } else {
            Ok(Phase::UncompressedData { at: at + 4, len, last_block })
        }
    }
}

/// The phase inside the block whose header is at bit position `pos`. The first bit says
/// whether the block is the last one, the next two say of what kind it is: stored (0),
/// compressed with the fixed codes (1), or compressed with codes of its own (2).
#[verifier::opaque]
pub open spec fn block_start(data: Seq<u8>, pos: nat) -> Result<Phase, Error> {
    if pos + 3 > bit_count(data) {
        Err(Error::UnexpectedEofInBits)
    } else {
        let last_block = bits_value(data, pos, 1) != 0;
        let kind = bits_value(data, pos + 1, 2);
        if kind == 2 {
            match dynamic_tables_at(data, pos + 3) {
                Err(e) => Err(e),
                Ok((tables, next)) => Ok(
                    Phase::CompressedData { tables, state: fresh_state(next), last_block },
                ),
            }
        } else if kind == 1 {
            Ok(
                Phase::CompressedData {
                    tables: fixed_tables(),
                    state: fresh_state(pos + 3),
                    last_block,
                },
            )
        } else if kind == 0 {
            stored_block_at(data, (pos + 3 + 7) / 8, last_block)
        } else {
            Err(Error::ReservedBlockType)
        }
    }
}

impl Phase {
    /// The bit position that the phase stands at.
    pub open spec fn pos(self) -> nat {
        match self {
            Phase::BeforeBlockStart { pos } => pos,
            Phase::UncompressedData { at, .. } => 8 * at,
            Phase::CompressedData { state, .. } => state.pos,
            Phase::Eof { at } => 8 * at,
            Phase::Poisoned => 0,
        }
    }

    /// 1 inside a block, 0 outside.
    pub open spec fn rank(self) -> nat {
        match self {
            Phase::UncompressedData { .. } => 1,
            Phase::CompressedData { .. } => 1,
            _ => 0,
        }
    }

    /// The position is within `data`, and a back-reference under way has a distance that
    /// the format can express.
    pub open spec fn within(self, data: Seq<u8>) -> bool {
        &&& self.pos() <= bit_count(data)
        &&& match self {
            Phase::CompressedData { state, .. } => state.pending_distance <= MAX_DISTANCE,
            _ => true,
        }
    }
}

impl InflaterModel {
    /// The phase is within the data.
    pub open spec fn well_formed(self) -> bool {
        self.phase.within(self.data)
    }

    /// The data ended too early for what `e` says was being read, and more is to come.
    pub open spec fn starved(self, e: Error) -> bool {
        !self.complete && e.is_end_of_data()
    }

    /// A read that stops in `phase` for want of data: nothing is put out, and the decoder
    /// goes on from there once more data has arrived.
    pub open spec fn waiting(self, phase: Phase) -> ReadOutcome {
        ReadOutcome {
            model: self.at_phase(phase),
            out: Seq::empty(),
            error: Some(Error::NeedInput),
        }
    }

    /// The same decoder in another phase.
    pub open spec fn at_phase(self, phase: Phase) -> InflaterModel {
        InflaterModel { phase, ..self }
    }

    /// A read that fails with `e`: nothing is put out, and the decoder is poisoned.
    pub open spec fn failed(self, e: Error) -> ReadOutcome {
        ReadOutcome { model: self.at_phase(Phase::Poisoned), out: Seq::empty(), error: Some(e) }
    }

    /// A read that puts out `out` and leaves the decoder in `phase`.
    pub open spec fn produced(self, phase: Phase, out: Seq<u8>) -> ReadOutcome {
        ReadOutcome {
            model: InflaterModel { phase, history: self.history + out, ..self },
            out,
            error: None,
        }
    }
}

/// A block that starts within the data leads to a phase further on, still within the
/// data. Where its header cannot be read, the error names a defect of the data.
pub proof fn lemma_block_start(data: Seq<u8>, pos: nat)
    ensures
        match block_start(data, pos) {
            Ok(phase) => {
                &&& pos < phase.pos() <= bit_count(data)
                &&& phase.rank() == 1
                &&& phase.within(data)
            },
            Err(e) => e.is_data_error(),
        },
{
    reveal(block_start);
    lemma_dynamic_tables_position(data, pos + 3);
}

/// A block header read from the data that has arrived leads to the same phase when more
/// arrives, and the verdict that it is wrong stays, unless that says that the data ended
/// too early.
pub proof fn lemma_block_start_stable(data: Seq<u8>, more: Seq<u8>, pos: nat)
    ensures
        is_final(block_start(data, pos)) ==> block_start(data + more, pos) == block_start(
            data,
            pos,
        ),
{
    reveal(block_start);
    if pos + 3 <= bit_count(data) {
        lemma_bits_value_prefix(data, more, pos, 1);
        lemma_bits_value_prefix(data, more, pos + 1, 2);
        lemma_dynamic_tables_stable(data, more, pos + 3);
        let at = (pos + 3 + 7) / 8;
        if at + 4 <= data.len() {
            let longer = data + more;
            assert(longer[at as int] == data[at as int]);
            assert(longer[at as int + 1] == data[at as int + 1]);
            assert(longer[at as int + 2] == data[at as int + 2]);
            assert(longer[at as int + 3] == data[at as int + 3]);
        }
    }
}

/// What a read into a buffer of `cap` bytes does.
///
/// A poisoned decoder fails. Otherwise a buffer without room gets nothing, and changes
/// nothing. Otherwise the decoder goes on until it has put out at least one byte, or has
/// read the end of the last block, or fails, or waits for data:
/// - before a block, it reads the header of the block;
/// - in a stored block, it puts out the next bytes of the data, as many as are left of
///   the block and as the buffer holds; if the block has no byte left, it is over, and if
///   the data has none left, the read fails;
/// - in a compressed block, it puts out what the block reader gives; if that is nothing,
///   the block is over, or the data has ended within a step;
/// - after the last block, it puts out nothing.
///
/// Where the data ends too early, the read fails only if the stream is complete. If it
/// is not, the read asks for input, and the decoder stays in front of what it could not
/// read.
#[verifier::rlimit(50)]
pub open spec fn inflate_read(model: InflaterModel, cap: nat) -> ReadOutcome
    decreases bit_count(model.data) - model.phase.pos(), model.phase.rank(),
    when model.well_formed()
{
    match model.phase {
        Phase::Poisoned => model.failed(Error::Poisoned),
        Phase::Eof { .. } => model.produced(model.phase, Seq::empty()),
        Phase::BeforeBlockStart { pos } => if cap == 0 {
            model.produced(model.phase, Seq::empty())
        } else {
            match block_start(model.data, pos) {
                Err(e) => if model.starved(e) {
                    model.waiting(model.phase)
                } else {
                    model.failed(e)
                },
                Ok(phase) => {
                    proof {
                        lemma_block_start(model.data, pos);
                    }
                    inflate_read(model.at_phase(phase), cap)
                },
            }
        },
        Phase::UncompressedData { at, len, last_block } => if cap == 0 {
            model.produced(model.phase, Seq::empty())
        } else if len == 0 {
            inflate_read(model.at_phase(after_block(last_block, 8 * at)), cap)
        } else {
            let count = vstd::math::min(
                vstd::math::min(cap as int, len as int),
                model.data.len() - at,
            ) as nat;
            if count == 0 {
                if model.starved(Error::UnexpectedEofInBlock) {
                    model.waiting(model.phase)
                } else {
                    model.failed(Error::UnexpectedEofInBlock)
                }
            } else {
                model.produced(
                    Phase::UncompressedData {
                        at: at + count,
                        len: (len - count) as nat,
                        last_block,
                    },
                    model.data.subrange(at as int, (at + count) as int),
                )
            }
        },
        Phase::CompressedData { tables, state, last_block } => if cap == 0 {
            model.produced(model.phase, Seq::empty())
        } else {
            match block_run(
                tables,
                model.data,
                model.complete,
                state,
                model.history,
                Seq::empty(),
                cap,
            ) {
                Err(e) => model.failed(e),
                Ok((next, out)) => {
                    proof {
                        lemma_block_run_result(
                            tables,
                            model.data,
                            model.complete,
                            state,
                            model.history,
                            Seq::empty(),
                            cap,
                        );
                    }
                    if out.len() > 0 {
                        model.produced(
                            Phase::CompressedData { tables, state: next, last_block },
                            out,
                        )
                    } else if next.eof {
                        inflate_read(model.at_phase(after_block(last_block, next.pos)), cap)
                    } else {
                        model.waiting(Phase::CompressedData { tables, state: next, last_block })
                    }
                },
            }
        },
    }
}

/// A read leaves a well-formed decoder well formed, with the same data. If it does not
/// fail, the decoder has as history what it had, followed by what the read put out; and
/// a read into a buffer with room puts out nothing only at the end of the stream. If it
/// asks for input, the stream is not complete, and the decoder is not poisoned unless it
/// was. If it fails otherwise, the decoder is poisoned.
#[verifier::rlimit(50)]
pub proof fn lemma_inflate_read(model: InflaterModel, cap: nat)
    requires
        model.well_formed(),
    ensures
        inflate_read(model, cap).model.well_formed(),
        inflate_read(model, cap).model.data == model.data,
        inflate_read(model, cap).model.complete == model.complete,
        inflate_read(model, cap).out.len() <= cap,
        match inflate_read(model, cap).error {
            None => {
                &&& inflate_read(model, cap).model.history == model.history + inflate_read(
                    model,
                    cap,
                ).out
                &&& !(inflate_read(model, cap).model.phase is Poisoned)
                &&& cap > 0 && inflate_read(model, cap).out.len() == 0 ==> inflate_read(
                    model,
                    cap,
                ).model.phase is Eof
            },
            Some(e) => {
                &&& inflate_read(model, cap).model.history == model.history
                &&& inflate_read(model, cap).out.len() == 0
                &&& if e == Error::NeedInput {
                    !model.complete && !(inflate_read(model, cap).model.phase is Poisoned)
                } else {
                    inflate_read(model, cap).model.phase is Poisoned
                }
            },
        },
    decreases bit_count(model.data) - model.phase.pos(), model.phase.rank(),
{
    match model.phase {
        Phase::Poisoned => {},
        Phase::Eof { .. } => {},
        Phase::BeforeBlockStart { pos } => if cap == 0 {
        } else {
            match block_start(model.data, pos) {
                Err(e) => {
                    lemma_block_start(model.data, pos);
                },
                Ok(phase) => {
                    lemma_block_start(model.data, pos);
                    lemma_inflate_read(model.at_phase(phase), cap);
                },
            }
        },
        Phase::UncompressedData { at, len, last_block } => if cap == 0 {
        } else if len == 0 {
            lemma_inflate_read(model.at_phase(after_block(last_block, 8 * at)), cap);
        } else {
        },
        Phase::CompressedData { tables, state, last_block } => if cap == 0 {
        } else {
            lemma_block_run_result(
                tables,
                model.data,
                model.complete,
                state,
                model.history,
                Seq::empty(),
                cap,
            );
            match block_run(
                tables,
                model.data,
                model.complete,
                state,
                model.history,
                Seq::empty(),
                cap,
            ) {
                Err(e) => {},
                Ok((next, out)) => {
                    if out.len() == 0 && next.eof {
                        lemma_inflate_read(
                            model.at_phase(after_block(last_block, next.pos)),
                            cap,
                        );
                    }
                },
            }
        },
    }
}

/// Idempotence of the end: once a read into a buffer with room has put out nothing and
/// has not failed, every later read puts out nothing, does not fail, and leaves the
/// decoder as it is.
pub proof fn lemma_end_is_idempotent(model: InflaterModel, cap: nat, later: nat)
    requires
        model.well_formed(),
        cap > 0,
        inflate_read(model, cap).error is None,
        inflate_read(model, cap).out.len() == 0,
    ensures
        inflate_read(inflate_read(model, cap).model, later).error is None,
        inflate_read(inflate_read(model, cap).model, later).out.len() == 0,
        inflate_read(inflate_read(model, cap).model, later).model == inflate_read(
            model,
            cap,
        ).model,
{
    lemma_inflate_read(model, cap);
    let end = inflate_read(model, cap).model;
    assert(end.history + Seq::<u8>::empty() =~= end.history);
}

/// State of the inflater.
#[allow(inconsistent_fields)]
enum InflaterState {
    /// We are outside of any block.
    BeforeBlockStart {
        /// The source of bits.
        data: BitRead,
    },
    /// Uncompressed data
    UncompressedData {
        /// The uncompressed data.
        data: ByteSource,
        /// Number of bytes remaining to read from this uncompressed block.
        len: usize,
        /// If true, then we have read a block header whose `bfinal` value is true, meaning
        /// that this is the last block of the stream.
        last_block: bool,
    },
    CompressedData {
        /// The data to read from. Returns EOF at the end of the block.
        data: CompressedBlockReader,
        /// If true, then we have read a block header whose `bfinal` value is true, meaning
        /// that this is the last block of the stream.
        last_block: bool,
    },
    /// We have finished reading the last block and there's nothing left.
    Eof {
        /// The reader, if the user wants to get it back.
        data: ByteSource,
    },
}

impl InflaterState {
    /// All the bytes of the underlying source.
    closed spec fn bytes(self) -> Seq<u8> {
        match self {
            InflaterState::BeforeBlockStart { data } => data.bytes(),
            InflaterState::UncompressedData { data, .. } => data.bytes(),
            InflaterState::CompressedData { data, .. } => data.bytes(),
            InflaterState::Eof { data } => data.bytes(),
        }
    }

    /// Whether the underlying source is complete.
    closed spec fn complete(self) -> bool {
        match self {
            InflaterState::BeforeBlockStart { data } => data.complete(),
            InflaterState::UncompressedData { data, .. } => data.complete(),
            InflaterState::CompressedData { data, .. } => data.complete(),
            InflaterState::Eof { data } => data.complete(),
        }
    }

    /// The phase that the state stands for.
    closed spec fn phase(self) -> Phase {
        match self {
            InflaterState::BeforeBlockStart { data } => Phase::BeforeBlockStart {
                pos: data.bit_position(),
            },
            InflaterState::UncompressedData { data, len, last_block } => Phase::UncompressedData {
                at: data.position(),
                len: len as nat,
                last_block,
            },
            InflaterState::CompressedData { data, last_block } => Phase::CompressedData {
                tables: data.tables(),
                state: data.state(),
                last_block,
            },
            InflaterState::Eof { data } => Phase::Eof { at: data.position() },
        }
    }

    /// The reader that the state holds is well formed.
    closed spec fn wf(self) -> bool {
        match self {
            InflaterState::BeforeBlockStart { data } => data.wf(),
            InflaterState::UncompressedData { data, .. } => data.wf(),
            InflaterState::CompressedData { data, .. } => data.wf(),
            InflaterState::Eof { data } => data.wf(),
        }
    }

    /// The phase of a well-formed state is within the data.
    proof fn lemma_well_formed(self)
        requires
            self.wf(),
        ensures
            self.phase().within(self.bytes()),
    {
        match self {
            InflaterState::BeforeBlockStart { data } => {
                data.lemma_position();
            },
            InflaterState::UncompressedData { data, .. } => {},
            InflaterState::CompressedData { data, .. } => {
                data.lemma_position();
            },
            InflaterState::Eof { data } => {},
        }
    }

    /// Takes the next bytes of the stream as they arrive.
    #[verifier::rlimit(50)]
    fn feed(self, more: &[u8]) -> (fed: InflaterState)
        requires
            self.wf(),
        ensures
            fed.wf(),
            fed.bytes() == self.bytes() + more@,
            fed.complete() == self.complete(),
            fed.phase() == self.phase(),
    {
        match self {
            InflaterState::BeforeBlockStart { data } => {
                let mut data = data;
                data.feed(more);
                InflaterState::BeforeBlockStart { data: data }
            },
            InflaterState::UncompressedData { data, len, last_block } => {
                let mut data = data;
                data.push(more);
                InflaterState::UncompressedData { data: data, len: len, last_block: last_block }
            },
            InflaterState::CompressedData { data, last_block } => {
                let mut data = data;
                data.feed(more);
                InflaterState::CompressedData { data: data, last_block: last_block }
            },
            InflaterState::Eof { data } => {
                let mut data = data;
                data.push(more);
                InflaterState::Eof { data: data }
            },
        }
    }

    /// Says that the whole stream has arrived.
    #[verifier::rlimit(50)]
    fn finish(self) -> (done: InflaterState)
        requires
            self.wf(),
        ensures
            done.wf(),
            done.bytes() == self.bytes(),
            done.complete(),
            done.phase() == self.phase(),
    {
        match self {
            InflaterState::BeforeBlockStart { data } => {
                let mut data = data;
                data.finish();
                InflaterState::BeforeBlockStart { data: data }
            },
            InflaterState::UncompressedData { data, len, last_block } => {
                let mut data = data;
                data.finish();
                InflaterState::UncompressedData { data: data, len: len, last_block: last_block }
            },
            InflaterState::CompressedData { data, last_block } => {
                let mut data = data;
                data.finish();
                InflaterState::CompressedData { data: data, last_block: last_block }
            },
            InflaterState::Eof { data } => {
                let mut data = data;
                data.finish();
                InflaterState::Eof { data: data }
            },
        }
    }
}

/// Reads data from an underlying reader and decodes it.
pub struct Inflater {
    /// Since the algorithm can require us to copy previous data in the stream, we have to
    /// keep a cache of the already decoded data: the last 32768 bytes at least.
    output_cache: Vec<u8>,
    /// If this ever becomes `None`, that means an error occured somewhere.
    state: Option<InflaterState>,
    /// All the bytes of the stream that have arrived.
    data: Ghost<Seq<u8>>,
    /// Whether the whole stream has arrived.
    complete: Ghost<bool>,
    /// All the bytes decoded so far.
    history: Ghost<Seq<u8>>,
}

impl View for Inflater {
    type V = InflaterModel;

    closed spec fn view(&self) -> InflaterModel {
        InflaterModel {
            data: self.data@,
            complete: self.complete@,
            phase: match self.state {
                Some(state) => state.phase(),
                None => Phase::Poisoned,
            },
            history: self.history@,
        }
    }
}

/// Appends the first `count` bytes of `bytes` to the window, and drops from its front what
/// no distance reaches any more.
fn extend_window(window: &mut Vec<u8>, bytes: &[u8], count: usize, Ghost(history): Ghost<Seq<u8>>)
    requires
        count <= bytes@.len(),
        is_window_of(old(window)@, history),
    ensures
        is_window_of(final(window)@, history + bytes@.take(count as int)),
        final(window)@.len() <= 2 * MAX_DISTANCE,
{
    let mut i: usize = 0;
    while i < count
        invariant
            i <= count <= bytes@.len(),
            window@ == old(window)@ + bytes@.take(i as int),
        decreases count - i,
    {
        window.push(bytes[i]);
        i += 1;
        proof {
            assert(window@ =~= old(window)@ + bytes@.take(i as int));
        }
    }
    let ghost all = history + bytes@.take(count as int);
    proof {
        assert(window@ =~= all.skip(all.len() - window@.len()));
    }
    if window.len() > 2 * MAX_DISTANCE {
        let keep = window.split_off(window.len() - MAX_DISTANCE);
        *window = keep;
        proof {
            assert(window@ =~= all.skip(all.len() - window@.len()));
        }
    }
}

/// Assumes that a block starts at the start of `bits` and reads its header. Where that
/// fails, the bit reader comes back with the error.
#[verifier::rlimit(50)]
fn consume_block_start(bits: BitRead) -> (result: Result<InflaterState, (Error, BitRead)>)
    requires
        bits.wf(),
    ensures
        match result {
            Ok(state) => {
                &&& state.wf()
                &&& state.bytes() == bits.bytes()
                &&& state.complete() == bits.complete()
                &&& block_start(bits.bytes(), bits.bit_position()) == Ok::<Phase, Error>(
                    state.phase(),
                )
            },
            Err((e, back)) => {
                &&& block_start(bits.bytes(), bits.bit_position()) == Err::<Phase, Error>(e)
                &&& back.wf()
                &&& back.same_stream(bits)
            },
        },
{
    let ghost data = bits.bytes();
    let ghost pos = bits.bit_position();
    proof {
        reveal(block_start);
        lemma_bits_value_bound(data, pos, 1);
        lemma_bits_value_bound(data, pos + 1, 2);
        lemma2_to64();
    }
    let mut bits = bits;
    // the bfinal bit indicates whether we are at the last block
    let bfinal = match bits.read(1) {
        Ok(bit) => bit != 0,
        Err(e) => {
            return Err((e, bits));
        },
    };

    // the next two bits correspond to the type of block
    let kind = match bits.read(2) {
        Ok(kind) => kind,
        Err(e) => {
            return Err((e, bits));
        },
    };
    if kind == 0b10 {
        // dynamic huffman codes
        // the block starts with two huffman table definitions
        match read_dynamic_tables(&mut bits) {
            Ok((lit_len_table, dist_table)) => Ok(
                InflaterState::CompressedData {
                    data: CompressedBlockReader::with_tables(bits, lit_len_table, dist_table),
                    last_block: bfinal,
                },
            ),
            Err(e) => Err((e, bits)),
        }
    } else if kind == 0b01 {
        // fixed huffman codes
        // instead of having the two sets of lengths (see previous section), we use
        // lengths defined by the RFC
        Ok(
            InflaterState::CompressedData {
                data: CompressedBlockReader::from_fixed_tables(bits),
                last_block: bfinal,
            },
        )
    } else if kind == 0b00 {
        // block of uncompressed data
        // the rest of the bits must be ignored
        let mut inner = bits.byte_align_unwrap();
        let ghost at = inner.position();

        // reading the header of the uncompressed data
        let mut header: Vec<u8> = Vec::new();
        header.push(0);
        header.push(0);
        header.push(0);
        header.push(0);
        match read_all(&mut inner, header.as_mut_slice()) {
            Ok(()) => {},
            Err(e) => {
                return Err((e, BitRead::new(inner)));
            },
        }
        proof {
            assert(header@[0] == data[at as int]);
            assert(header@[1] == data[at as int + 1]);
            assert(header@[2] == data[at as int + 2]);
            assert(header@[3] == data[at as int + 3]);
        }
        let (h0, h1, h2, h3) = (header[0], header[1], header[2], header[3]);
        let len = ((h1 as u16) << 8) | h0 as u16;
        let nlen = ((h3 as u16) << 8) | h2 as u16;
        proof {
            assert(((h1 as u16) << 8) | h0 as u16 == h0 as u16 + 256 * (h1 as u16))
                by (bit_vector);
            assert(((h3 as u16) << 8) | h2 as u16 == h2 as u16 + 256 * (h3 as u16))
                by (bit_vector);
            assert(!len == 65535 - len) by (bit_vector);
        }

        // nlen must len's one complement
        if nlen != !len {
            return Err((Error::LengthMismatch, BitRead::new(inner)));
        }
        Ok(InflaterState::UncompressedData { data: inner, len: len as usize, last_block: bfinal })
    } else {
        // reserved
        Err((Error::ReservedBlockType, bits))
    }
}

/// The read that started at `before` is not over at `after`, but has come nearer to its
/// end.
spec fn goes_on(before: InflaterModel, after: InflaterModel, cap: nat) -> bool {
    &&& inflate_read(before, cap) == inflate_read(after, cap)
    &&& after.data == before.data
    &&& {
        ||| bit_count(after.data) - after.phase.pos() < bit_count(before.data)
            - before.phase.pos()
        ||| (bit_count(after.data) - after.phase.pos() == bit_count(before.data)
            - before.phase.pos() && after.phase.rank() < before.phase.rank())
    }
}

/// The read that started at `before` is over, with the result `done`, and has led to
/// `after`.
spec fn finishes(
    before: InflaterModel,
    after: InflaterModel,
    old_buf: Seq<u8>,
    new_buf: Seq<u8>,
    done: Result<usize, Error>,
) -> bool {
    let outcome = inflate_read(before, old_buf.len());
    &&& after == outcome.model
    &&& match done {
        Ok(n) => {
            &&& outcome.error is None
            &&& n <= old_buf.len()
            &&& new_buf.take(n as int) == outcome.out
            &&& forall|i: int| n <= i < old_buf.len() ==> new_buf[i] == old_buf[i]
        },
        Err(e) => outcome.error == Some(e),
    }
}

impl Inflater {
    /// The decoded bytes that the decoder keeps for the back-references to come.
    pub closed spec fn window(&self) -> Seq<u8> {
        self.output_cache@
    }

    /// The state is well formed, and stands in the data of the model.
    pub closed spec fn state_wf(&self) -> bool {
        match self.state {
            Some(state) => {
                &&& state.wf()
                &&& state.bytes() == self.data@
                &&& state.complete() == self.complete@
            },
            None => true,
        }
    }

    /// The window holds the end of the history: all of it, or as much as the longest
    /// distance reaches back, and never more than twice that. And the state is well
    /// formed.
    pub open spec fn wf(&self) -> bool {
        &&& is_window_of(self.window(), self@.history)
        &&& self.window().len() <= 2 * MAX_DISTANCE
        &&& self@.well_formed()
        &&& self.state_wf()
    }

    /// A well-formed decoder has a well-formed model.
    pub proof fn lemma_wf(&self)
        requires
            self.wf(),
        ensures
            self@.well_formed(),
    {
    }

    /// Initializes a new inflater, which reads a deflate stream from where `inner` stands.
    pub fn new(inner: ByteSource) -> (inflater: Inflater)
        requires
            inner.wf(),
        ensures
            inflater.wf(),
            inflater@ == (InflaterModel {
                data: inner.bytes(),
                complete: inner.complete(),
                phase: Phase::BeforeBlockStart { pos: 8 * inner.position() },
                history: Seq::empty(),
            }),
    {
        let ghost data = inner.bytes();
        let ghost complete = inner.complete();
        let inflater = Inflater {
            output_cache: Vec::with_capacity(32768 + 258),
            state: Some(InflaterState::BeforeBlockStart { data: BitRead::new(inner) }),
            data: Ghost(data),
            complete: Ghost(complete),
            history: Ghost(Seq::empty()),
        };
        proof {
            assert(inflater.output_cache@ =~= inflater.history@.skip(0));
        }
        inflater
    }

    /// Takes the next bytes of the stream as they arrive. The decoder stays where it is.
    #[verifier::rlimit(50)]
    pub fn feed(&mut self, more: &[u8])
        requires
            old(self).wf(),
        ensures
            final(self).wf(),
            final(self)@ == (InflaterModel { data: old(self)@.data + more@, ..old(self)@ }),
    {
        match self.state.take() {
            Some(state) => {
                let fed = state.feed(more);
                proof {
                    fed.lemma_well_formed();
                }
                self.state = Some(fed);
            },
            None => {},
        }
        self.data = Ghost(self.data@ + more@);
    }

    /// Says that the whole stream has arrived. From then on the decoder does not ask for
    /// input: where the data ends too early, it fails.
    #[verifier::rlimit(50)]
    pub fn finish(&mut self)
        requires
            old(self).wf(),
        ensures
            final(self).wf(),
            final(self)@ == (InflaterModel { complete: true, ..old(self)@ }),
    {
        match self.state.take() {
            Some(state) => {
                let done = state.finish();
                self.state = Some(done);
            },
            None => {},
        }
        self.complete = Ghost(true);
    }

    /// Gives the byte source back once the stream has ended: it then stands behind the
    /// last byte of the deflate stream. Before the end, and after a failure, gives `None`.
    pub fn into_inner(self) -> (source: Option<ByteSource>)
        requires
            self.wf(),
        ensures
            match source {
                Some(inner) => {
                    &&& inner.wf()
                    &&& inner.bytes() == self@.data
                    &&& inner.complete() == self@.complete
                    &&& self@.phase == Phase::Eof { at: inner.position() }
                },
                None => !(self@.phase is Eof),
            },
    {
        match self.state {
            Some(InflaterState::Eof { data }) => Some(data),
            _ => None,
        }
    }

    /// The decoder with its state taken out, seen as being in `phase`.
    closed spec fn model_in(&self, phase: Phase) -> InflaterModel {
        InflaterModel {
            data: self.data@,
            complete: self.complete@,
            phase,
            history: self.history@,
        }
    }

    /// The state is taken out; the rest is in order.
    closed spec fn emptied(&self) -> bool {
        &&& self.state is None
        &&& is_window_of(self.output_cache@, self.history@)
        &&& self.output_cache@.len() <= 2 * MAX_DISTANCE
    }

    /// Before a block: reads the header of the block.
    #[verifier::rlimit(50)]
    fn enter_block(&mut self, data: BitRead, Ghost(cap): Ghost<nat>) -> (result: Option<Error>)
        requires
            old(self).emptied(),
            data.wf(),
            data.bytes() == old(self).data@,
            data.complete() == old(self).complete@,
            cap > 0,
        ensures
            final(self).wf(),
            match result {
                None => goes_on(
                    old(self).model_in(Phase::BeforeBlockStart { pos: data.bit_position() }),
                    final(self)@,
                    cap,
                ),
                Some(e) => {
                    &&& final(self)@ == inflate_read(
                        old(self).model_in(Phase::BeforeBlockStart { pos: data.bit_position() }),
                        cap,
                    ).model
                    &&& inflate_read(
                        old(self).model_in(Phase::BeforeBlockStart { pos: data.bit_position() }),
                        cap,
                    ).error == Some(e)
                },
            },
    {
        proof {
            data.lemma_position();
            lemma_block_start(data.bytes(), data.bit_position());
        }
        let mark = data.mark();
        match consume_block_start(data) {
            Ok(state) => {
                proof {
                    state.lemma_well_formed();
                }
                self.state = Some(state);
                None
            },
            Err((e, back)) => {
                if e.ends_early() && !back.is_complete() {
                    // the header is not all there yet: we stay in front of it
                    let mut back = back;
                    back.rewind(mark);
                    self.state = Some(InflaterState::BeforeBlockStart { data: back });
                    Some(Error::NeedInput)
                } else {
                    Some(e)
                }
            },
        }
    }

    /// In a stored block: copies the next bytes of the block, or leaves the block if it
    /// has none left.
    #[verifier::rlimit(50)]
    fn read_stored(
        &mut self,
        data: ByteSource,
        len: usize,
        last_block: bool,
        buf: &mut [u8],
    ) -> (result: Option<Result<usize, Error>>)
        requires
            old(self).emptied(),
            data.wf(),
            data.bytes() == old(self).data@,
            data.complete() == old(self).complete@,
            old(buf)@.len() > 0,
        ensures
            final(self).wf(),
            final(buf)@.len() == old(buf)@.len(),
            match result {
                None => {
                    &&& goes_on(
                        old(self).model_in(
                            Phase::UncompressedData {
                                at: data.position(),
                                len: len as nat,
                                last_block,
                            },
                        ),
                        final(self)@,
                        old(buf)@.len(),
                    )
                    &&& final(buf)@ == old(buf)@
                },
                Some(done) => finishes(
                    old(self).model_in(
                        Phase::UncompressedData {
                            at: data.position(),
                            len: len as nat,
                            last_block,
                        },
                    ),
                    final(self)@,
                    old(buf)@,
                    final(buf)@,
                    done,
                ),
            },
    {
        let mut data = data;
        let ghost before = self.model_in(
            Phase::UncompressedData { at: data.position(), len: len as nat, last_block },
        );
        if len == 0 {
            if last_block {
                self.state = Some(InflaterState::Eof { data: data });
            } else {
                self.state = Some(InflaterState::BeforeBlockStart { data: BitRead::new(data) });
            }
            None
        } else {
            let ghost at = data.position();
            let count = data.read_at_most(buf, len);
            if count == 0 {
                if data.is_complete() {
                    return Some(Err(Error::UnexpectedEofInBlock));
                }
                // the rest of the block has not arrived yet
                proof {
                    assert(buf@ =~= old(buf)@);
                }
                self.state = Some(
                    InflaterState::UncompressedData {
                        data: data,
                        len: len,
                        last_block: last_block,
                    },
                );
                return Some(Err(Error::NeedInput));
            }
            proof {
                assert(buf@.take(count as int) =~= before.data.subrange(at as int, at + count));
            }
            extend_window(&mut self.output_cache, buf, count, Ghost(self.history@));
            self.history = Ghost(self.history@ + buf@.take(count as int));
            self.state = Some(
                InflaterState::UncompressedData {
                    data: data,
                    len: len - count,
                    last_block: last_block,
                },
            );
            Some(Ok(count))
        }
    }

    /// In a compressed block: decodes the next bytes of the block, or leaves the block if
    /// it is over.
    #[verifier::rlimit(50)]
    fn read_compressed(
        &mut self,
        data: CompressedBlockReader,
        last_block: bool,
        buf: &mut [u8],
    ) -> (result: Option<Result<usize, Error>>)
        requires
            old(self).emptied(),
            data.wf(),
            data.bytes() == old(self).data@,
            data.complete() == old(self).complete@,
            old(buf)@.len() > 0,
        ensures
            final(self).wf(),
            final(buf)@.len() == old(buf)@.len(),
            match result {
                None => {
                    &&& goes_on(
                        old(self).model_in(
                            Phase::CompressedData {
                                tables: data.tables(),
                                state: data.state(),
                                last_block,
                            },
                        ),
                        final(self)@,
                        old(buf)@.len(),
                    )
                    &&& final(buf)@ == old(buf)@
                },
                Some(done) => finishes(
                    old(self).model_in(
                        Phase::CompressedData {
                            tables: data.tables(),
                            state: data.state(),
                            last_block,
                        },
                    ),
                    final(self)@,
                    old(buf)@,
                    final(buf)@,
                    done,
                ),
            },
    {
        let mut data = data;
        let ghost cap = buf@.len();
        proof {
            data.lemma_position();
            lemma_block_run_window(
                data.tables(),
                data.bytes(),
                data.complete(),
                data.state(),
                self.history@,
                self.output_cache@,
                Seq::empty(),
                cap,
            );
            lemma_block_run_result(
                data.tables(),
                data.bytes(),
                data.complete(),
                data.state(),
                self.history@,
                Seq::empty(),
                cap,
            );
        }
        let result = {
            let mut context = data.with_previous_data(self.output_cache.as_slice());
            context.read(buf)
        };
        match result {
            Err(e) => Some(Err(e)),
            Ok(count) => {
                proof {
                    data.lemma_position();
                }
                if count > 0 {
                    extend_window(&mut self.output_cache, buf, count, Ghost(self.history@));
                    self.history = Ghost(self.history@ + buf@.take(count as int));
                    self.state = Some(
                        InflaterState::CompressedData { data: data, last_block: last_block },
                    );
                    Some(Ok(count))
                } else {
                    proof {
                        assert(buf@ =~= old(buf)@);
                    }
                    if data.is_eof() {
                        if last_block {
                            self.state = Some(
                                InflaterState::Eof { data: data.into_inner().byte_align_unwrap() },
                            );
                        } else {
                            self.state = Some(
                                InflaterState::BeforeBlockStart { data: data.into_inner() },
                            );
                        }
                        None
                    } else {
                        // the next step of the block has not arrived yet
                        self.state = Some(
                            InflaterState::CompressedData { data: data, last_block: last_block },
                        );
                        Some(Err(Error::NeedInput))
                    }
                }
            },
        }
    }

    /// Decodes the next bytes of the stream into `buf` and returns how many it wrote. What
    /// lies behind them in `buf` keeps its content.
    ///
    /// It writes at least one byte, unless `buf` is empty or the stream has ended: then it
    /// returns 0. Once a read has failed, every later read fails with `Poisoned`.
    ///
    /// Where the data that has arrived ends too early and the stream is not complete, it
    /// returns `NeedInput`. That is no failure: the decoder goes on from where it stands
    /// once it was fed, or told that the stream is complete.
    #[verifier::rlimit(50)]
    pub fn read(&mut self, buf: &mut [u8]) -> (result: Result<usize, Error>)
        requires
            old(self).wf(),
        ensures
            final(self).wf(),
            final(buf)@.len() == old(buf)@.len(),
            final(self)@ == inflate_read(old(self)@, old(buf)@.len()).model,
            match result {
                Ok(n) => {
                    &&& inflate_read(old(self)@, old(buf)@.len()).error is None
                    &&& n <= old(buf)@.len()
                    &&& final(buf)@.take(n as int) == inflate_read(old(self)@, old(buf)@.len()).out
                    &&& forall|i: int| n <= i < old(buf)@.len() ==> final(buf)@[i] == old(buf)@[i]
                },
                Err(e) => inflate_read(old(self)@, old(buf)@.len()).error == Some(e),
            },
    {
        let ghost cap = buf@.len();
        if buf.len() == 0 {
            proof {
                assert(self.history@ + Seq::<u8>::empty() =~= self.history@);
                assert(buf@.take(0) =~= Seq::<u8>::empty());
            }
            return match &self.state {
                None => Err(Error::Poisoned),
                Some(_) => Ok(0),
            };
        }
        loop
            invariant
                self.wf(),
                cap == old(buf)@.len(),
                cap > 0,
                buf@ == old(buf)@,
                inflate_read(old(self)@, cap) == inflate_read(self@, cap),
            decreases bit_count(self@.data) - self@.phase.pos(), self@.phase.rank(),
        {
            let progress = match self.state.take() {
                None => Some(Err(Error::Poisoned)),
                Some(InflaterState::BeforeBlockStart { data }) => {
                    match self.enter_block(data, Ghost(cap)) {
                        None => None,
                        Some(e) => Some(Err(e)),
                    }
                },
                Some(InflaterState::UncompressedData { data, len, last_block }) => {
                    self.read_stored(data, len, last_block, buf)
                },
                Some(InflaterState::CompressedData { data, last_block }) => {
                    self.read_compressed(data, last_block, buf)
                },
                Some(InflaterState::Eof { data }) => {
                    proof {
                        assert(self.history@ + Seq::<u8>::empty() =~= self.history@);
                        assert(buf@.take(0) =~= Seq::<u8>::empty());
                    }
                    self.state = Some(InflaterState::Eof { data: data });
                    Some(Ok(0))
                },
            };
            match progress {
                Some(done) => {
                    return done;
                },
                None => {},
            }
        }
    }
}

} // verus!
