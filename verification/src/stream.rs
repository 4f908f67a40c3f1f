//! The stream that a decoder stands in: all that it is going to put out, whatever the
//! buffers it is read through and however the data arrives.

use crate::adler32::adler32;
use crate::alphabet::{
    lemma_symbol_advances, lemma_symbol_stable, symbol_at, BlockSymbol, BlockTables, MAX_DISTANCE,
};
use crate::bit::bit_count;
use crate::compressed_block_reader::{
    block_run, byte_back, lemma_block_run_result, lemma_block_run_starved, BlockState,
};
use crate::error::Error;
use crate::inflate::{
    after_block, block_start, inflate_read, lemma_block_start, lemma_block_start_stable,
    lemma_inflate_read, InflaterModel, Phase,
};
use crate::zlib_decoder::{
    lemma_frame_stable, lemma_well_formed_grows, lemma_zlib_read, trailer_at, zlib_header_at,
    zlib_read, Stage, ZlibModel,
};
use vstd::prelude::*;

verus! {

/// How a stream ends.
pub enum Ending {
    /// It ends as it should, before byte position `at` of the data.
    End { at: nat },
    /// The data that has arrived ends too early, and more is to come.
    Waiting,
    /// The data has a defect, or the decoder had failed before.
    Failed { error: Error },
}

/// What a decoder is going to put out, and how that ends.
pub struct Rest {
    pub bytes: Seq<u8>,
    pub ending: Ending,
}

impl Rest {
    /// The same after `bytes`.
    pub open spec fn after(self, bytes: Seq<u8>) -> Rest {
        Rest { bytes: bytes + self.bytes, ending: self.ending }
    }

    /// Nothing, ending in `ending`.
    pub open spec fn only(ending: Ending) -> Rest {
        Rest { bytes: Seq::empty(), ending }
    }
}

/// How a stream ends where `e` stops the decoder: it waits if the data ended too early
/// and more is to come; else it has failed.
pub open spec fn stopped(model: InflaterModel, e: Error) -> Rest {
    if model.starved(e) {
        Rest::only(Ending::Waiting)
    } else {
        Rest::only(Ending::Failed { error: e })
    }
}

/// The error says that the data ended too early, and that may not be so of all the data:
/// `more` of it arrives, or it is no longer said to be complete.
pub open spec fn may_mend(e: Error, complete: bool, more: Seq<u8>, later: bool) -> bool {
    e.is_end_of_data() && (more.len() > 0 || later != complete)
}

/// How many bytes of a back-reference are still to be put out.
pub open spec fn pending(phase: Phase) -> nat {
    match phase {
        Phase::CompressedData { state, .. } => state.pending_length,
        _ => 0,
    }
}

/// All that the decoder is going to put out from where it stands, byte by byte, and how
/// that ends.
///
/// Before a block comes the header of the block. In a stored block each byte of the data
/// is a byte of the stream. In a compressed block each literal is a byte of the stream,
/// and each back-reference is as many bytes as it is long, each the one that lies its
/// distance back in what was put out so far. Behind the last block the stream ends.
#[verifier::opaque]
#[verifier::rlimit(50)]
pub open spec fn inflate_stream(model: InflaterModel) -> Rest
    decreases
            bit_count(model.data) - model.phase.pos(),
            pending(model.phase),
            model.phase.rank(),
    when model.well_formed()
{
    match model.phase {
        Phase::Poisoned => Rest::only(Ending::Failed { error: Error::Poisoned }),
        Phase::Eof { at } => Rest::only(Ending::End { at }),
        Phase::BeforeBlockStart { pos } => match block_start(model.data, pos) {
            Err(e) => stopped(model, e),
            Ok(phase) => {
                proof {
                    lemma_block_start(model.data, pos);
                }
                inflate_stream(model.at_phase(phase))
            },
        },
        Phase::UncompressedData { at, len, last_block } => if len == 0 {
            inflate_stream(model.at_phase(after_block(last_block, 8 * at)))
        } else if at < model.data.len() {
            let byte = model.data[at as int];
            inflate_stream(
                InflaterModel {
                    phase: Phase::UncompressedData {
                        at: at + 1,
                        len: (len - 1) as nat,
                        last_block,
                    },
                    history: model.history.push(byte),
                    ..model
                },
            ).after(seq![byte])
        } else {
            stopped(model, Error::UnexpectedEofInBlock)
        },
        Phase::CompressedData { tables, state, last_block } => if state.eof {
            inflate_stream(model.at_phase(after_block(last_block, state.pos)))
        } else if state.pending_length > 0 {
            if state.pending_distance == 0 || state.pending_distance > model.history.len() {
                Rest::only(Ending::Failed { error: Error::DistanceTooFar })
            } else {
                let byte = model.history[model.history.len() - state.pending_distance];
                inflate_stream(
                    InflaterModel {
                        phase: Phase::CompressedData {
                            tables,
                            state: BlockState {
                                pending_length: (state.pending_length - 1) as nat,
                                ..state
                            },
                            last_block,
                        },
                        history: model.history.push(byte),
                        ..model
                    },
                ).after(seq![byte])
            }
        } else {
            match symbol_at(tables, model.data, state.pos) {
                Err(e) => stopped(model, e),
                Ok((symbol, next)) => {
                    proof {
                        lemma_symbol_advances(tables, model.data, state.pos);
                    }
                    match symbol {
                        BlockSymbol::Literal(byte) => inflate_stream(
                            InflaterModel {
                                phase: Phase::CompressedData {
                                    tables,
                                    state: BlockState { pos: next, ..state },
                                    last_block,
                                },
                                history: model.history.push(byte),
                                ..model
                            },
                        ).after(seq![byte]),
                        BlockSymbol::EndOfBlock => inflate_stream(
                            model.at_phase(
                                Phase::CompressedData {
                                    tables,
                                    state: BlockState { pos: next, eof: true, ..state },
                                    last_block,
                                },
                            ),
                        ),
                        BlockSymbol::Copy { length, distance } => inflate_stream(
                            model.at_phase(
                                Phase::CompressedData {
                                    tables,
                                    state: BlockState {
                                        pos: next,
                                        eof: false,
                                        pending_length: length,
                                        pending_distance: distance,
                                    },
                                    last_block,
                                },
                            ),
                        ),
                    }
                },
            }
        },
    }
}

/// The stream of a decoder that has failed, or has read the end of the last block.
pub proof fn lemma_stream_idle(model: InflaterModel)
    requires
        model.well_formed(),
    ensures
        model.phase is Poisoned ==> inflate_stream(model) == Rest::only(
            Ending::Failed { error: Error::Poisoned },
        ),
        model.phase is Eof ==> inflate_stream(model) == Rest::only(
            Ending::End { at: model.phase->Eof_at },
        ),
{
    reveal_with_fuel(inflate_stream, 1);
}

/// The stream of a decoder in front of a block.
pub proof fn lemma_stream_start(model: InflaterModel)
    requires
        model.well_formed(),
        model.phase is BeforeBlockStart,
    ensures
        inflate_stream(model) == match block_start(
            model.data,
            model.phase->BeforeBlockStart_pos,
        ) {
            Err(e) => stopped(model, e),
            Ok(phase) => inflate_stream(model.at_phase(phase)),
        },
{
    reveal_with_fuel(inflate_stream, 1);
    let pos = model.phase->BeforeBlockStart_pos;
    assert(model.phase == Phase::BeforeBlockStart { pos });
    match block_start(model.data, pos) {
        Err(e) => {
            assert(inflate_stream(model) == stopped(model, e));
        },
        Ok(phase) => {
            lemma_block_start(model.data, pos);
            assert(inflate_stream(model) == inflate_stream(model.at_phase(phase)));
        },
    }
}

/// The stream of a decoder in a stored block.
pub proof fn lemma_stream_stored(model: InflaterModel)
    requires
        model.well_formed(),
        model.phase is UncompressedData,
    ensures
        ({
            let at = model.phase->UncompressedData_at;
            let len = model.phase->UncompressedData_len;
            let last_block = model.phase->UncompressedData_last_block;
            inflate_stream(model) == if len == 0 {
                inflate_stream(model.at_phase(after_block(last_block, 8 * at)))
            } else if at < model.data.len() {
                inflate_stream(
                    InflaterModel {
                        phase: Phase::UncompressedData {
                            at: at + 1,
                            len: (len - 1) as nat,
                            last_block,
                        },
                        history: model.history.push(model.data[at as int]),
                        ..model
                    },
                ).after(seq![model.data[at as int]])
            } else {
                stopped(model, Error::UnexpectedEofInBlock)
            }
        }),
{
    reveal_with_fuel(inflate_stream, 1);
}

/// The stream of a decoder in a compressed block, in which a back-reference is under
/// way: its next byte, and then the rest.
pub proof fn lemma_stream_copy(model: InflaterModel)
    requires
        model.well_formed(),
        model.phase is CompressedData,
        !model.phase->CompressedData_state.eof,
        model.phase->CompressedData_state.pending_length > 0,
    ensures
        ({
            let state = model.phase->CompressedData_state;
            inflate_stream(model) == if state.pending_distance == 0 || state.pending_distance
                > model.history.len() {
                Rest::only(Ending::Failed { error: Error::DistanceTooFar })
            } else {
                inflate_stream(
                    in_block(
                        model,
                        BlockState { pending_length: (state.pending_length - 1) as nat, ..state },
                        model.history.push(
                            model.history[model.history.len() - state.pending_distance],
                        ),
                    ),
                ).after(seq![model.history[model.history.len() - state.pending_distance]])
            }
        }),
{
    reveal_with_fuel(inflate_stream, 1);
}

/// The stream of a decoder in a compressed block, in front of a step, or behind the end
/// of the block.
pub proof fn lemma_stream_symbol(model: InflaterModel)
    requires
        model.well_formed(),
        model.phase is CompressedData,
        model.phase->CompressedData_state.eof
            || model.phase->CompressedData_state.pending_length == 0,
    ensures
        ({
            let tables = model.phase->CompressedData_tables;
            let state = model.phase->CompressedData_state;
            let last_block = model.phase->CompressedData_last_block;
            inflate_stream(model) == if state.eof {
                inflate_stream(model.at_phase(after_block(last_block, state.pos)))
            } else {
                match symbol_at(tables, model.data, state.pos) {
                    Err(e) => stopped(model, e),
                    Ok((BlockSymbol::Literal(byte), next)) => inflate_stream(
                        in_block(
                            model,
                            BlockState { pos: next, ..state },
                            model.history.push(byte),
                        ),
                    ).after(seq![byte]),
                    Ok((BlockSymbol::EndOfBlock, next)) => inflate_stream(
                        in_block(
                            model,
                            BlockState { pos: next, eof: true, ..state },
                            model.history,
                        ),
                    ),
                    Ok((BlockSymbol::Copy { length, distance }, next)) => inflate_stream(
                        in_block(
                            model,
                            BlockState {
                                pos: next,
                                eof: false,
                                pending_length: length,
                                pending_distance: distance,
                            },
                            model.history,
                        ),
                    ),
                }
            }
        }),
{
    reveal_with_fuel(inflate_stream, 1);
    let tables = model.phase->CompressedData_tables;
    let state = model.phase->CompressedData_state;
    let last_block = model.phase->CompressedData_last_block;
    assert(model.phase == Phase::CompressedData { tables, state, last_block });
    if !state.eof {
        lemma_symbol_advances(tables, model.data, state.pos);
        match symbol_at(tables, model.data, state.pos) {
            Err(e) => {
                assert(inflate_stream(model) == stopped(model, e));
            },
            Ok((symbol, next)) => {
                match symbol {
                    BlockSymbol::Literal(byte) => {
                        assert(inflate_stream(model) == inflate_stream(
                            in_block(
                                model,
                                BlockState { pos: next, ..state },
                                model.history.push(byte),
                            ),
                        ).after(seq![byte]));
                    },
                    BlockSymbol::EndOfBlock => {
                        assert(inflate_stream(model) == inflate_stream(
                            in_block(
                                model,
                                BlockState { pos: next, eof: true, ..state },
                                model.history,
                            ),
                        ));
                    },
                    BlockSymbol::Copy { length, distance } => {
                        assert(inflate_stream(model) == inflate_stream(
                            in_block(
                                model,
                                BlockState {
                                    pos: next,
                                    eof: false,
                                    pending_length: length,
                                    pending_distance: distance,
                                },
                                model.history,
                            ),
                        ));
                    },
                }
            },
        }
    }
}

/// The decoder in a compressed block, in the state `state`, after it has put out
/// `history`.
pub open spec fn in_block(
    model: InflaterModel,
    state: BlockState,
    history: Seq<u8>,
) -> InflaterModel {
    match model.phase {
        Phase::CompressedData { tables, last_block, .. } => InflaterModel {
            phase: Phase::CompressedData { tables, state, last_block },
            history,
            ..model
        },
        _ => model,
    }
}

/// Nothing in front changes nothing.
pub proof fn lemma_after_nothing(rest: Rest)
    ensures
        rest.after(Seq::empty()) == rest,
{
    assert(Seq::<u8>::empty() + rest.bytes =~= rest.bytes);
}

/// Bytes in front of bytes in front are all the bytes in front.
pub proof fn lemma_after_after(rest: Rest, first: Seq<u8>, second: Seq<u8>)
    ensures
        rest.after(second).after(first) == rest.after(first + second),
{
    assert(first + (second + rest.bytes) =~= (first + second) + rest.bytes);
}

/// What the reading of a block puts into the buffer is the beginning of the stream, and
/// the stream goes on from where the reading stops. This holds of the stream of all the
/// data when the block was read from a part of it; and a defect that the reading finds
/// is a defect of the stream.
#[verifier::rlimit(50)]
pub proof fn lemma_block_run_stream(
    model: InflaterModel,
    more: Seq<u8>,
    later: bool,
    out: Seq<u8>,
    cap: nat,
)
    requires
        model.phase is CompressedData,
        model.well_formed(),
    ensures
        ({
            let tables = model.phase->CompressedData_tables;
            let state = model.phase->CompressedData_state;
            let all_data = InflaterModel { data: model.data + more, complete: later, ..model };
            match block_run(tables, model.data, model.complete, state, model.history, out, cap) {
                Ok((last, all)) => inflate_stream(in_block(all_data, state, model.history + out))
                    == inflate_stream(in_block(all_data, last, model.history + all)).after(
                    all.skip(out.len() as int),
                ),
                Err(e) => may_mend(e, model.complete, more, later) || inflate_stream(
                    in_block(all_data, state, model.history + out),
                ).ending == (Ending::Failed { error: e }),
            }
        }),
    decreases
            bit_count(model.data) - model.phase.pos(),
            pending(model.phase),
{
    reveal_with_fuel(block_run, 1);
    let tables = model.phase->CompressedData_tables;
    let state = model.phase->CompressedData_state;
    let data = model.data;
    let history = model.history;
    let all_data = InflaterModel { data: data + more, complete: later, ..model };
    let here = in_block(all_data, state, history + out);
    if more.len() == 0 {
        assert(data + more =~= data);
    }
    if !state.eof && state.pending_length > 0 {
        lemma_stream_copy(here);
    } else {
        lemma_stream_symbol(here);
    }
    if state.eof || out.len() >= cap {
        assert(out.skip(out.len() as int) =~= Seq::<u8>::empty());
        lemma_after_nothing(inflate_stream(here));
    } else if state.pending_length > 0 {
        if state.pending_distance == 0 || state.pending_distance > history.len() + out.len() {
        } else {
            let byte = byte_back(history, out, state.pending_distance);
            let next_state = BlockState {
                pending_length: (state.pending_length - 1) as nat,
                ..state
            };
            let next_out = out.push(byte);
            lemma_block_run_stream(
                in_block(model, next_state, history),
                more,
                later,
                next_out,
                cap,
            );
            assert((history + out).push(byte) =~= history + next_out);
            lemma_run_tail(
                tables,
                data,
                model.complete,
                next_state,
                history,
                out,
                byte,
                cap,
            );
            match block_run(tables, data, model.complete, next_state, history, next_out, cap) {
                Ok((last, all)) => {
                    lemma_after_after(
                        inflate_stream(in_block(all_data, last, history + all)),
                        seq![byte],
                        all.skip(next_out.len() as int),
                    );
                },
                Err(_) => {},
            }
        }
    } else {
        lemma_symbol_advances(tables, data, state.pos);
        lemma_symbol_stable(tables, data, more, state.pos);
        match symbol_at(tables, data, state.pos) {
            Err(e) => {
                if !model.complete && e.is_end_of_data() {
                    assert(out.skip(out.len() as int) =~= Seq::<u8>::empty());
                    lemma_after_nothing(inflate_stream(here));
                }
            },
            Ok((symbol, next)) => {
                match symbol {
                    BlockSymbol::Literal(byte) => {
                        let next_state = BlockState { pos: next, ..state };
                        let next_out = out.push(byte);
                        lemma_block_run_stream(
                            in_block(model, next_state, history),
                            more,
                            later,
                            next_out,
                            cap,
                        );
                        assert((history + out).push(byte) =~= history + next_out);
                        lemma_run_tail(
                            tables,
                            data,
                            model.complete,
                            next_state,
                            history,
                            out,
                            byte,
                            cap,
                        );
                        match block_run(
                            tables,
                            data,
                            model.complete,
                            next_state,
                            history,
                            next_out,
                            cap,
                        ) {
                            Ok((last, all)) => {
                                lemma_after_after(
                                    inflate_stream(in_block(all_data, last, history + all)),
                                    seq![byte],
                                    all.skip(next_out.len() as int),
                                );
                            },
                            Err(_) => {},
                        }
                    },
                    BlockSymbol::EndOfBlock => {
                        assert(out.skip(out.len() as int) =~= Seq::<u8>::empty());
                        lemma_after_nothing(
                            inflate_stream(
                                in_block(
                                    all_data,
                                    BlockState { pos: next, eof: true, ..state },
                                    history + out,
                                ),
                            ),
                        );
                    },
                    BlockSymbol::Copy { length, distance } => {
                        lemma_block_run_stream(
                            in_block(
                                model,
                                BlockState {
                                    pos: next,
                                    eof: false,
                                    pending_length: length,
                                    pending_distance: distance,
                                },
                                history,
                            ),
                            more,
                            later,
                            out,
                            cap,
                        );
                    },
                }
            },
        }
    }
}

/// Where a reading goes on with one more byte in the buffer, what it adds to the buffer
/// begins with that byte.
proof fn lemma_run_tail(
    tables: BlockTables,
    data: Seq<u8>,
    complete: bool,
    state: BlockState,
    history: Seq<u8>,
    out: Seq<u8>,
    byte: u8,
    cap: nat,
)
    requires
        state.pos <= bit_count(data),
        state.pending_distance <= MAX_DISTANCE,
    ensures
        match block_run(tables, data, complete, state, history, out.push(byte), cap) {
            Ok((_, all)) => all.skip(out.len() as int) == seq![byte] + all.skip(
                out.len() as int + 1,
            ),
            Err(_) => true,
        },
{
    lemma_block_run_result(
        tables,
        data,
        complete,
        state,
        history,
        out.push(byte),
        cap,
    );
    match block_run(tables, data, complete, state, history, out.push(byte), cap) {
        Ok((_, all)) => {
            assert(all.take(out.len() as int + 1)[out.len() as int] == byte);
            assert(all.skip(out.len() as int) =~= seq![byte] + all.skip(out.len() as int + 1));
        },
        Err(_) => {},
    }
}

/// The same decoder when `data` has arrived, and that is the whole stream or not.
pub open spec fn with_data(model: InflaterModel, data: Seq<u8>, complete: bool) -> InflaterModel {
    InflaterModel { data, complete, ..model }
}

/// In a stored block, the next bytes of the data are the next bytes of the stream.
#[verifier::rlimit(50)]
pub proof fn lemma_stored_bytes(model: InflaterModel, count: nat)
    requires
        model.phase is UncompressedData,
        model.well_formed(),
        count <= model.phase->UncompressedData_len,
        model.phase->UncompressedData_at + count <= model.data.len(),
    ensures
        ({
            let at = model.phase->UncompressedData_at;
            let len = model.phase->UncompressedData_len;
            let last_block = model.phase->UncompressedData_last_block;
            let bytes = model.data.subrange(at as int, (at + count) as int);
            inflate_stream(model) == inflate_stream(
                InflaterModel {
                    phase: Phase::UncompressedData {
                        at: at + count,
                        len: (len - count) as nat,
                        last_block,
                    },
                    history: model.history + bytes,
                    ..model
                },
            ).after(bytes)
        }),
    decreases count,
{
    let at = model.phase->UncompressedData_at;
    let len = model.phase->UncompressedData_len;
    let last_block = model.phase->UncompressedData_last_block;
    let bytes = model.data.subrange(at as int, (at + count) as int);
    if count == 0 {
        assert(bytes =~= Seq::<u8>::empty());
        assert(model.history + bytes =~= model.history);
        lemma_after_nothing(inflate_stream(model));
    } else {
        lemma_stream_stored(model);
        let byte = model.data[at as int];
        let next = InflaterModel {
            phase: Phase::UncompressedData { at: at + 1, len: (len - 1) as nat, last_block },
            history: model.history.push(byte),
            ..model
        };
        lemma_stored_bytes(next, (count - 1) as nat);
        let tail = model.data.subrange((at + 1) as int, (at + count) as int);
        assert(seq![byte] + tail =~= bytes);
        assert(model.history.push(byte) + tail =~= model.history + bytes);
        let end = InflaterModel {
            phase: Phase::UncompressedData {
                at: at + count,
                len: (len - count) as nat,
                last_block,
            },
            history: model.history + bytes,
            ..model
        };
        lemma_after_after(inflate_stream(end), seq![byte], tail);
    }
}

/// What a read puts out is the beginning of the stream, and the stream goes on from where
/// the read leaves the decoder; a read that asks for input leaves the stream as it is.
/// This is said of the stream of all the data, when the read saw only a part of it, `more`
/// being the rest. And a defect that stops the read is the defect in which the stream
/// ends, unless it is that the data ended too early and that is not so of all the data.
#[verifier::opaque]
pub open spec fn read_agrees(model: InflaterModel, more: Seq<u8>, later: bool, cap: nat) -> bool {
    let before = inflate_stream(with_data(model, model.data + more, later));
    let after = inflate_stream(
        with_data(inflate_read(model, cap).model, model.data + more, later),
    );
    match inflate_read(model, cap).error {
        None => before == after.after(inflate_read(model, cap).out),
        Some(e) => if e == Error::NeedInput {
            before == after
        } else {
            may_mend(e, model.complete, more, later) || before.ending == (Ending::Failed {
                error: e,
            })
        },
    }
}

/// A read that does nothing agrees with the stream.
#[verifier::rlimit(50)]
proof fn lemma_idle_agrees(model: InflaterModel, more: Seq<u8>, later: bool, cap: nat)
    requires
        model.well_formed(),
        model.phase is Poisoned || model.phase is Eof || cap == 0,
    ensures
        read_agrees(model, more, later, cap),
{
    reveal(read_agrees);
    let here = with_data(model, model.data + more, later);
    lemma_stream_idle(here);
    assert(model.history + Seq::<u8>::empty() =~= model.history);
    lemma_after_nothing(inflate_stream(here));
}

/// A read in front of a block agrees with the stream.
#[verifier::rlimit(50)]
proof fn lemma_start_agrees(model: InflaterModel, more: Seq<u8>, later: bool, cap: nat)
    requires
        model.well_formed(),
        model.phase is BeforeBlockStart,
        cap > 0,
    ensures
        read_agrees(model, more, later, cap),
    decreases bit_count(model.data) - model.phase.pos(), model.phase.rank(), 0nat,
{
    reveal(read_agrees);
    let pos = model.phase->BeforeBlockStart_pos;
    lemma_block_start(model.data, pos);
    match block_start(model.data, pos) {
        Ok(phase) => {
            lemma_read_agrees(model.at_phase(phase), more, later, cap);
        },
        Err(_) => {},
    }
    if more.len() == 0 {
        assert(model.data + more =~= model.data);
    }
    lemma_stream_start(with_data(model, model.data + more, later));
    lemma_block_start(model.data, pos);
    lemma_block_start_stable(model.data, more, pos);
}

/// A read in a stored block agrees with the stream.
#[verifier::rlimit(50)]
proof fn lemma_stored_agrees(model: InflaterModel, more: Seq<u8>, later: bool, cap: nat)
    requires
        model.well_formed(),
        model.phase is UncompressedData,
        cap > 0,
    ensures
        read_agrees(model, more, later, cap),
    decreases bit_count(model.data) - model.phase.pos(), model.phase.rank(), 0nat,
{
    reveal(read_agrees);
    let at = model.phase->UncompressedData_at;
    let len = model.phase->UncompressedData_len;
    if len == 0 {
        lemma_read_agrees(
            model.at_phase(after_block(model.phase->UncompressedData_last_block, 8 * at)),
            more,
            later,
            cap,
        );
    }
    let all = model.data + more;
    let here = with_data(model, all, later);
    if more.len() == 0 {
        assert(all =~= model.data);
    }
    lemma_stream_stored(here);
    if len > 0 {
        let count = vstd::math::min(
            vstd::math::min(cap as int, len as int),
            model.data.len() - at,
        ) as nat;
        if count > 0 {
            lemma_stored_bytes(here, count);
            assert(all.subrange(at as int, (at + count) as int) =~= model.data.subrange(
                at as int,
                (at + count) as int,
            ));
        }
    }
}

/// A read in a compressed block agrees with the stream.
#[verifier::rlimit(50)]
proof fn lemma_compressed_agrees(model: InflaterModel, more: Seq<u8>, later: bool, cap: nat)
    requires
        model.well_formed(),
        model.phase is CompressedData,
        cap > 0,
    ensures
        read_agrees(model, more, later, cap),
    decreases bit_count(model.data) - model.phase.pos(), model.phase.rank(), 0nat,
{
    reveal(read_agrees);
    let tables = model.phase->CompressedData_tables;
    let state = model.phase->CompressedData_state;
    assert(model.history + Seq::<u8>::empty() =~= model.history);
    lemma_block_run_stream(model, more, later, Seq::empty(), cap);
    lemma_block_run_result(
        tables,
        model.data,
        model.complete,
        state,
        model.history,
        Seq::empty(),
        cap,
    );
    match block_run(tables, model.data, model.complete, state, model.history, Seq::empty(), cap) {
        Err(e) => {},
        Ok((next, out)) => {
            assert(out.skip(0) =~= out);
            if out.len() == 0 {
                assert(model.history + out =~= model.history);
                if next.eof {
                    lemma_read_agrees(
                        model.at_phase(
                            after_block(model.phase->CompressedData_last_block, next.pos),
                        ),
                        more,
                        later,
                        cap,
                    );
                    lemma_stream_symbol(
                        in_block(
                            with_data(model, model.data + more, later),
                            next,
                            model.history,
                        ),
                    );
                }
            }
        },
    }
}

/// Buffers and pieces do not matter: what a read puts out is the beginning of the stream
/// of all the data, and that stream goes on from where the read leaves the decoder,
/// whatever the size of the buffer and however much of the data had arrived, `more` being
/// what had not. A read that asks for input leaves the stream as it is. And a defect that
/// stops the read is the defect in which the stream ends, unless it is that the data
/// ended too early and that is not so of all the data.
pub proof fn lemma_inflate_read_stream(
    model: InflaterModel,
    more: Seq<u8>,
    later: bool,
    cap: nat,
)
    requires
        model.well_formed(),
    ensures
        match inflate_read(model, cap).error {
            None => inflate_stream(with_data(model, model.data + more, later)) == inflate_stream(
                with_data(inflate_read(model, cap).model, model.data + more, later),
            ).after(inflate_read(model, cap).out),
            Some(e) => if e == Error::NeedInput {
                inflate_stream(with_data(model, model.data + more, later)) == inflate_stream(
                    with_data(inflate_read(model, cap).model, model.data + more, later),
                )
            } else {
                may_mend(e, model.complete, more, later) || inflate_stream(
                    with_data(model, model.data + more, later),
                ).ending == (Ending::Failed { error: e })
            },
        },
{
    reveal(read_agrees);
    lemma_read_agrees(model, more, later, cap);
}

/// Every read agrees with the stream.
proof fn lemma_read_agrees(model: InflaterModel, more: Seq<u8>, later: bool, cap: nat)
    requires
        model.well_formed(),
    ensures
        read_agrees(model, more, later, cap),
    decreases bit_count(model.data) - model.phase.pos(), model.phase.rank(), 1nat,
{
    if cap == 0 {
        lemma_idle_agrees(model, more, later, cap);
    } else {
        match model.phase {
            Phase::BeforeBlockStart { .. } => {
                lemma_start_agrees(model, more, later, cap);
            },
            Phase::UncompressedData { .. } => {
                lemma_stored_agrees(model, more, later, cap);
            },
            Phase::CompressedData { .. } => {
                lemma_compressed_agrees(model, more, later, cap);
            },
            _ => {
                lemma_idle_agrees(model, more, later, cap);
            },
        }
    }
}

/// How the stream ends behind the deflate stream, where the checksum is stored at byte
/// position `at`: as it should if that is the Adler-32 checksum of `produced`, which is
/// all that was put out.
pub open spec fn checked(model: ZlibModel, produced: Seq<u8>, at: nat) -> Rest {
    match trailer_at(model.data, at) {
        Err(e) => if model.starved(e) {
            Rest::only(Ending::Waiting)
        } else {
            Rest::only(Ending::Failed { error: e })
        },
        Ok(stored) => if stored == adler32(produced) {
            Rest::only(Ending::End { at: at + 4 })
        } else {
            Rest::only(Ending::Failed { error: Error::ChecksumMismatch })
        },
    }
}

/// The stream of a decoder in the deflate stream: the deflate stream, and then the
/// checksum.
pub open spec fn zlib_data_stream(model: ZlibModel, phase: Phase) -> Rest {
    let inner = inflate_stream(model.inflater(phase));
    match inner.ending {
        Ending::End { at } => checked(model, model.produced + inner.bytes, at).after(inner.bytes),
        _ => inner,
    }
}

/// All that the zlib decoder is going to put out from where it stands, and how that
/// ends: behind the header, the bytes of the deflate stream; the stream ends as it should
/// if the checksum behind the deflate stream is that of all the bytes put out.
pub open spec fn zlib_stream(model: ZlibModel) -> Rest {
    match model.stage {
        Stage::Poisoned => Rest::only(Ending::Failed { error: Error::Poisoned }),
        Stage::Eof { at } => Rest::only(Ending::End { at }),
        Stage::Start { at } => match zlib_header_at(model.data, at) {
            Err(e) => if model.starved(e) {
                Rest::only(Ending::Waiting)
            } else {
                Rest::only(Ending::Failed { error: e })
            },
            Ok(next) => zlib_data_stream(model, Phase::BeforeBlockStart { pos: 8 * next }),
        },
        Stage::CompressedData { phase } => zlib_data_stream(model, phase),
        Stage::Checksum { at } => checked(model, model.produced, at),
    }
}

/// The same decoder when `data` has arrived, and that is the whole stream or not.
pub open spec fn zlib_with_data(model: ZlibModel, data: Seq<u8>, complete: bool) -> ZlibModel {
    ZlibModel { data, complete, ..model }
}

/// What a read puts out is the beginning of the stream, and the stream goes on from where
/// the read leaves the decoder; a read that asks for input leaves the stream as it is.
/// This is said of the stream of all the data, when the read saw only a part of it, `more`
/// being the rest. And a defect that stops the read is the defect in which the stream
/// ends, unless it is that the data ended too early and that is not so of all the data.
#[verifier::opaque]
pub open spec fn zlib_read_agrees(model: ZlibModel, more: Seq<u8>, later: bool, cap: nat) -> bool {
    let before = zlib_stream(zlib_with_data(model, model.data + more, later));
    let after = zlib_stream(zlib_with_data(zlib_read(model, cap).model, model.data + more, later));
    match zlib_read(model, cap).error {
        None => before == after.after(zlib_read(model, cap).out),
        Some(e) => if e == Error::NeedInput {
            before == after
        } else {
            may_mend(e, model.complete, more, later) || before.ending == (Ending::Failed {
                error: e,
            })
        },
    }
}

/// A read behind the deflate stream agrees with the stream.
#[verifier::rlimit(50)]
proof fn lemma_checksum_agrees(model: ZlibModel, more: Seq<u8>, later: bool, cap: nat)
    requires
        model.stage is Checksum,
        cap > 0,
    ensures
        zlib_read_agrees(model, more, later, cap),
{
    reveal(zlib_read_agrees);
    let at = model.stage->Checksum_at;
    if more.len() == 0 {
        assert(model.data + more =~= model.data);
    }
    lemma_frame_stable(model.data, more, at);
    assert(model.produced + Seq::<u8>::empty() =~= model.produced);
    lemma_after_nothing(zlib_stream(zlib_with_data(model, model.data + more, later)));
    lemma_after_nothing(Rest::only(Ending::End { at: at + 4 }));
}

/// A read in the deflate stream agrees with the stream.
#[verifier::rlimit(50)]
proof fn lemma_data_agrees(model: ZlibModel, more: Seq<u8>, later: bool, cap: nat)
    requires
        model.stage is CompressedData,
        model.well_formed(),
        cap > 0,
    ensures
        zlib_read_agrees(model, more, later, cap),
{
    reveal(zlib_read_agrees);
    let phase = model.stage->CompressedData_phase;
    let inflater = model.inflater(phase);
    let inner = inflate_read(inflater, cap);
    let all = model.data + more;
    lemma_inflate_read(inflater, cap);
    lemma_inflate_read_stream(inflater, more, later, cap);
    let before = inflate_stream(with_data(inflater, all, later));
    let after = inflate_stream(with_data(inner.model, all, later));
    assert(with_data(inflater, all, later) == zlib_with_data(model, all, later).inflater(phase));
    match inner.error {
        Some(e) => {},
        None => {
            if inner.out.len() == 0 {
                lemma_stream_idle(with_data(inner.model, all, later));
                let at = inner.model.phase->Eof_at;
                let checking = model.at_stage(Stage::Checksum { at });
                assert(model.produced + Seq::<u8>::empty() =~= model.produced);
                lemma_after_nothing(after);
                lemma_checksum_agrees(checking, more, later, cap);
                lemma_after_nothing(checked(zlib_with_data(model, all, later), model.produced, at));
            } else {
                let next = zlib_read(model, cap).model;
                assert(with_data(inner.model, all, later) == zlib_with_data(
                    next,
                    all,
                    later,
                ).inflater(inner.model.phase));
                match after.ending {
                    Ending::End { at } => {
                        assert(model.produced + (inner.out + after.bytes) =~= (model.produced
                            + inner.out) + after.bytes);
                        lemma_after_after(
                            checked(
                                zlib_with_data(model, all, later),
                                model.produced + before.bytes,
                                at,
                            ),
                            inner.out,
                            after.bytes,
                        );
                    },
                    _ => {},
                }
            }
        },
    }
}

/// Buffers and pieces do not matter: what a read puts out is the beginning of the stream
/// of all the data, and that stream goes on from where the read leaves the decoder,
/// whatever the size of the buffer and however much of the data had arrived, `more` being
/// what had not. A read that asks for input leaves the stream as it is. And a defect that
/// stops the read is the defect in which the stream ends, unless it is that the data
/// ended too early and that is not so of all the data.
pub proof fn lemma_zlib_read_stream(model: ZlibModel, more: Seq<u8>, later: bool, cap: nat)
    requires
        model.well_formed(),
    ensures
        match zlib_read(model, cap).error {
            None => zlib_stream(zlib_with_data(model, model.data + more, later)) == zlib_stream(
                zlib_with_data(zlib_read(model, cap).model, model.data + more, later),
            ).after(zlib_read(model, cap).out),
            Some(e) => if e == Error::NeedInput {
                zlib_stream(zlib_with_data(model, model.data + more, later)) == zlib_stream(
                    zlib_with_data(zlib_read(model, cap).model, model.data + more, later),
                )
            } else {
                may_mend(e, model.complete, more, later) || zlib_stream(
                    zlib_with_data(model, model.data + more, later),
                ).ending == (Ending::Failed { error: e })
            },
        },
{
    reveal(zlib_read_agrees);
    lemma_zlib_read_agrees(model, more, later, cap);
}

/// Every read agrees with the stream.
#[verifier::rlimit(50)]
proof fn lemma_zlib_read_agrees(model: ZlibModel, more: Seq<u8>, later: bool, cap: nat)
    requires
        model.well_formed(),
    ensures
        zlib_read_agrees(model, more, later, cap),
{
    reveal(zlib_read_agrees);
    let all = model.data + more;
    if more.len() == 0 {
        assert(all =~= model.data);
    }
    assert(model.produced + Seq::<u8>::empty() =~= model.produced);
    lemma_after_nothing(zlib_stream(zlib_with_data(model, all, later)));
    match model.stage {
        Stage::Start { at } => {
            if cap > 0 {
                lemma_frame_stable(model.data, more, at);
                match zlib_header_at(model.data, at) {
                    Ok(next) => {
                        lemma_data_agrees(
                            model.at_stage(
                                Stage::CompressedData {
                                    phase: Phase::BeforeBlockStart { pos: 8 * next },
                                },
                            ),
                            more,
                            later,
                            cap,
                        );
                    },
                    Err(_) => {},
                }
            }
        },
        Stage::CompressedData { phase } => {
            if cap > 0 {
                lemma_data_agrees(model, more, later, cap);
            }
        },
        Stage::Checksum { at } => {
            if cap > 0 {
                lemma_checksum_agrees(model, more, later, cap);
            }
        },
        _ => {},
    }
}

/// The checksum at the end: where the stream of a decoder ends as it should, the four
/// bytes in front of its end hold the Adler-32 checksum of all that the decoder has put
/// out and is going to put out.
pub proof fn lemma_stream_end_checksum(model: ZlibModel)
    requires
        model.well_formed(),
    ensures
        match zlib_stream(model).ending {
            Ending::End { at } => at >= 4 && trailer_at(model.data, (at - 4) as nat) == Ok::<
                nat,
                Error,
            >(adler32(model.produced + zlib_stream(model).bytes)),
            _ => true,
        },
{
    assert(model.produced + Seq::<u8>::empty() =~= model.produced);
}

/// What is done with a decoder.
pub enum Action {
    /// A read into a buffer of `cap` bytes.
    Read { cap: nat },
    /// The next bytes of the data arrive.
    Feed { more: Seq<u8> },
    /// The decoder is told that all the data has arrived.
    Finish,
}

/// What has come of a sequence of actions: the decoder after them, all that the reads
/// have put out, and whether a read has failed.
pub struct Run {
    pub model: ZlibModel,
    pub out: Seq<u8>,
    pub failed: bool,
}

/// What comes of the actions of `script`, done in order.
pub open spec fn run(model: ZlibModel, script: Seq<Action>) -> Run
    decreases script.len(),
{
    if script.len() == 0 {
        Run { model, out: Seq::empty(), failed: false }
    } else {
        match script[0] {
            Action::Read { cap } => {
                let first = zlib_read(model, cap);
                let rest = run(first.model, script.skip(1));
                Run {
                    model: rest.model,
                    out: first.out + rest.out,
                    failed: rest.failed || match first.error {
                        Some(e) => e != Error::NeedInput,
                        None => false,
                    },
                }
            },
            Action::Feed { more } => run(
                ZlibModel { data: model.data + more, ..model },
                script.skip(1),
            ),
            Action::Finish => run(ZlibModel { complete: true, ..model }, script.skip(1)),
        }
    }
}

/// All the bytes that arrive in the course of `script`.
pub open spec fn fed(script: Seq<Action>) -> Seq<u8>
    decreases script.len(),
{
    if script.len() == 0 {
        Seq::empty()
    } else {
        match script[0] {
            Action::Feed { more } => more + fed(script.skip(1)),
            _ => fed(script.skip(1)),
        }
    }
}

/// Buffers and pieces do not matter, said of any sequence of actions in which no read
/// fails: what the reads put out, one after the other, is the beginning of the stream of
/// all the data, and that stream goes on from where the actions leave the decoder. All
/// the data is what had arrived at first, then what arrives in the course of the actions,
/// then `tail`, which has not arrived yet; and it is `complete` or not.
#[verifier::rlimit(50)]
pub proof fn lemma_run_stream(
    model: ZlibModel,
    script: Seq<Action>,
    tail: Seq<u8>,
    complete: bool,
)
    requires
        model.well_formed(),
        !run(model, script).failed,
    ensures
        run(model, script).model.well_formed(),
        run(model, script).model.data == model.data + fed(script),
        zlib_stream(zlib_with_data(model, model.data + fed(script) + tail, complete))
            == zlib_stream(
            zlib_with_data(run(model, script).model, model.data + fed(script) + tail, complete),
        ).after(run(model, script).out),
    decreases script.len(),
{
    let all = model.data + fed(script) + tail;
    if script.len() == 0 {
        assert(model.data + fed(script) =~= model.data);
        lemma_after_nothing(zlib_stream(zlib_with_data(model, all, complete)));
    } else {
        let later = script.skip(1);
        match script[0] {
            Action::Read { cap } => {
                let first = zlib_read(model, cap);
                let more = fed(script) + tail;
                assert(model.data + more =~= all);
                lemma_zlib_read(model, cap);
                lemma_zlib_read_stream(model, more, complete, cap);
                lemma_run_stream(first.model, later, tail, complete);
                let end = run(first.model, later);
                lemma_after_nothing(zlib_stream(zlib_with_data(first.model, all, complete)));
                lemma_after_after(
                    zlib_stream(zlib_with_data(end.model, all, complete)),
                    first.out,
                    end.out,
                );
            },
            Action::Feed { more } => {
                let next = ZlibModel { data: model.data + more, ..model };
                lemma_well_formed_grows(model, more);
                lemma_run_stream(next, later, tail, complete);
                assert(next.data + fed(later) =~= model.data + fed(script));
                assert(next.data + fed(later) + tail =~= all);
            },
            Action::Finish => {
                let next = ZlibModel { complete: true, ..model };
                lemma_run_stream(next, later, tail, complete);
            },
        }
    }
}

/// If the read asks for input, the stream of the decoder after it waits.
#[verifier::opaque]
pub open spec fn waits(model: InflaterModel, cap: nat) -> bool {
    inflate_read(model, cap).error == Some(Error::NeedInput) ==> inflate_stream(
        inflate_read(model, cap).model,
    ) == Rest::only(Ending::Waiting)
}

/// In front of a block, the stream waits where the read asks for input.
#[verifier::rlimit(50)]
proof fn lemma_start_waits(model: InflaterModel, cap: nat)
    requires
        model.well_formed(),
        model.phase is BeforeBlockStart,
    ensures
        waits(model, cap),
    decreases bit_count(model.data) - model.phase.pos(), model.phase.rank(), 0nat,
{
    reveal(waits);
    let pos = model.phase->BeforeBlockStart_pos;
    lemma_block_start(model.data, pos);
    lemma_stream_start(model);
    match block_start(model.data, pos) {
        Ok(phase) => {
            lemma_waits(model.at_phase(phase), cap);
        },
        Err(_) => {},
    }
}

/// In a stored block, the stream waits where the read asks for input.
#[verifier::rlimit(50)]
proof fn lemma_stored_waits(model: InflaterModel, cap: nat)
    requires
        model.well_formed(),
        model.phase is UncompressedData,
    ensures
        waits(model, cap),
    decreases bit_count(model.data) - model.phase.pos(), model.phase.rank(), 0nat,
{
    reveal(waits);
    lemma_stream_stored(model);
    if model.phase->UncompressedData_len == 0 {
        lemma_waits(
            model.at_phase(
                after_block(
                    model.phase->UncompressedData_last_block,
                    8 * model.phase->UncompressedData_at,
                ),
            ),
            cap,
        );
    }
}

/// In a compressed block, the stream waits where the read asks for input.
#[verifier::rlimit(50)]
proof fn lemma_compressed_waits(model: InflaterModel, cap: nat)
    requires
        model.well_formed(),
        model.phase is CompressedData,
    ensures
        waits(model, cap),
    decreases bit_count(model.data) - model.phase.pos(), model.phase.rank(), 0nat,
{
    reveal(waits);
    let tables = model.phase->CompressedData_tables;
    let state = model.phase->CompressedData_state;
    lemma_block_run_result(
        tables,
        model.data,
        model.complete,
        state,
        model.history,
        Seq::empty(),
        cap,
    );
    lemma_block_run_starved(
        tables,
        model.data,
        model.complete,
        state,
        model.history,
        Seq::empty(),
        cap,
    );
    match block_run(tables, model.data, model.complete, state, model.history, Seq::empty(), cap) {
        Err(e) => {},
        Ok((next, out)) => {
            if cap > 0 && out.len() == 0 && !next.eof {
                lemma_stream_symbol(inflate_read(model, cap).model);
            }
            if cap > 0 && out.len() == 0 && next.eof {
                lemma_waits(
                    model.at_phase(
                        after_block(model.phase->CompressedData_last_block, next.pos),
                    ),
                    cap,
                );
            }
        },
    }
}

/// A decoder asks for input only where its stream waits: after a read that asked for
/// input, not one more byte can be decoded from the data that has arrived.
pub proof fn lemma_waiting_stream(model: InflaterModel, cap: nat)
    requires
        model.well_formed(),
        inflate_read(model, cap).error == Some(Error::NeedInput),
    ensures
        inflate_stream(inflate_read(model, cap).model) == Rest::only(Ending::Waiting),
{
    reveal(waits);
    lemma_waits(model, cap);
}

/// Wherever a read asks for input, the stream waits.
proof fn lemma_waits(model: InflaterModel, cap: nat)
    requires
        model.well_formed(),
    ensures
        waits(model, cap),
    decreases bit_count(model.data) - model.phase.pos(), model.phase.rank(), 1nat,
{
    match model.phase {
        Phase::BeforeBlockStart { .. } => {
            lemma_start_waits(model, cap);
        },
        Phase::UncompressedData { .. } => {
            lemma_stored_waits(model, cap);
        },
        Phase::CompressedData { .. } => {
            lemma_compressed_waits(model, cap);
        },
        _ => {
            reveal(waits);
        },
    }
}

/// A decoder asks for input only where its stream waits: after a read that asked for
/// input, not one more byte can be decoded from the data that has arrived.
#[verifier::rlimit(50)]
pub proof fn lemma_zlib_waiting_stream(model: ZlibModel, cap: nat)
    requires
        model.well_formed(),
        zlib_read(model, cap).error == Some(Error::NeedInput),
    ensures
        zlib_stream(zlib_read(model, cap).model) == Rest::only(Ending::Waiting),
    decreases model.stage.rank(),
{
    match model.stage {
        Stage::Start { at } => {
            match zlib_header_at(model.data, at) {
                Ok(next) => {
                    lemma_zlib_waiting_stream(
                        model.at_stage(
                            Stage::CompressedData {
                                phase: Phase::BeforeBlockStart { pos: 8 * next },
                            },
                        ),
                        cap,
                    );
                },
                Err(_) => {},
            }
        },
        Stage::CompressedData { phase } => {
            let inflater = model.inflater(phase);
            let inner = inflate_read(inflater, cap);
            lemma_inflate_read(inflater, cap);
            match inner.error {
                Some(e) => {
                    if e == Error::NeedInput {
                        lemma_waiting_stream(inflater, cap);
                        assert(zlib_read(model, cap).model.inflater(inner.model.phase)
                            == inner.model);
                    }
                },
                None => {
                    if inner.out.len() == 0 {
                        match inner.model.phase {
                            Phase::Eof { at } => {
                                lemma_zlib_waiting_stream(
                                    model.at_stage(Stage::Checksum { at }),
                                    cap,
                                );
                            },
                            _ => {},
                        }
                    }
                },
            }
        },
        _ => {},
    }
}

} // verus!
