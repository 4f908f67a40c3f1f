//! Reading the data of a compressed block.

use crate::alphabet::{
    byte_pairs, collect_byte_pairs, collect_lit_len_pairs, lemma_byte_pairs_valid,
    lemma_lit_len_pairs_valid, lemma_symbol_advances, lit_len_pairs, read_extra, symbol_at,
    BlockSymbol, BlockTables, LitLenSymbol, DISTANCES, EXTRA_DISTANCES, EXTRA_LENGTHS, LENGTHS,
    MAX_DISTANCE,
};
use crate::bit::{bit_count, lemma_bits_value_bound, BitRead};
use crate::dynamic_tables::{dynamic_tables_at, read_dynamic_tables};
use crate::error::Error;
use crate::huffman::{canonical_table, HuffmanTable};
use vstd::arithmetic::power2::lemma2_to64;
use vstd::pervasive::unreached;
use vstd::prelude::*;

verus! {

/// Where the reading of a block stands.
pub struct BlockState {
    /// The bit position in the data.
    pub pos: nat,
    /// Whether the end of the block has been read.
    pub eof: bool,
    /// How many bytes of the current back-reference are still to be put out.
    pub pending_length: nat,
    /// The distance of the current back-reference.
    pub pending_distance: nat,
}

/// The byte that lies `distance` positions before the end of `history` followed by `out`.
pub open spec fn byte_back(history: Seq<u8>, out: Seq<u8>, distance: nat) -> u8 {
    (history + out)[history.len() + out.len() - distance]
}

/// `out` after `count` bytes of a back-reference were put out: each byte is the one
/// `distance` positions before it in `history` followed by what is out already, so the
/// copy may run into the bytes it has just made.
pub open spec fn copy_out(history: Seq<u8>, out: Seq<u8>, distance: nat, count: nat) -> Seq<u8>
    decreases count,
{
    if count == 0 {
        out
    } else {
        let before = copy_out(history, out, distance, (count - 1) as nat);
        before.push(byte_back(history, before, distance))
    }
}

/// Back-reference soundness: a back-reference appends `count` bytes to the output, and
/// each of them equals the byte exactly `distance` positions earlier in the output
/// stream, which is `history` followed by the bytes put out since.
pub proof fn lemma_copy_out(history: Seq<u8>, out: Seq<u8>, distance: nat, count: nat)
    requires
        1 <= distance <= history.len() + out.len(),
    ensures
        copy_out(history, out, distance, count).len() == out.len() + count,
        copy_out(history, out, distance, count).take(out.len() as int) == out,
        ({
            let stream = history + copy_out(history, out, distance, count);
            forall|i: int|
                history.len() + out.len() <= i < history.len() + out.len() + count
                    ==> #[trigger] stream[i] == stream[i - distance]
        }),
    decreases count,
{
    if count == 0 {
        assert(out.take(out.len() as int) =~= out);
    } else {
        let before = copy_out(history, out, distance, (count - 1) as nat);
        let after = copy_out(history, out, distance, count);
        lemma_copy_out(history, out, distance, (count - 1) as nat);
        assert(after.take(out.len() as int) =~= before.take(out.len() as int));
        let stream = history + after;
        let shorter = history + before;
        assert forall|i: int|
            history.len() + out.len() <= i < history.len() + out.len() + count implies
            #[trigger] stream[i] == stream[i - distance] by {
            assert(stream[i - distance] == shorter[i - distance]);
            if i < history.len() + out.len() + count - 1 {
                assert(stream[i] == shorter[i]);
            }
        }
    }
}

/// Reading a block from `state` on, into a buffer that holds `cap` bytes and holds `out`
/// already: the state in which the reading stops, and the content of the buffer then.
///
/// Reading stops when the buffer is full or the end of the block is read. Before that,
/// each step puts out a literal, or starts a back-reference, whose bytes come out one by
/// one. A back-reference that reaches back before the first byte of `history` is an
/// error, as is whatever stops the decoding of a step; but where the data ends within a
/// step and the stream is not `complete`, reading stops in front of that step.
#[verifier::opaque]
#[verifier::rlimit(50)]
pub open spec fn block_run(
    tables: BlockTables,
    data: Seq<u8>,
    complete: bool,
    state: BlockState,
    history: Seq<u8>,
    out: Seq<u8>,
    cap: nat,
) -> Result<(BlockState, Seq<u8>), Error>
    decreases bit_count(data) - state.pos, state.pending_length,
{
    if state.eof || out.len() >= cap {
        Ok((state, out))
    } else if state.pending_length > 0 {
        if state.pending_distance == 0 || state.pending_distance > history.len() + out.len() {
            Err(Error::DistanceTooFar)
        } else {
            block_run(
                tables,
                data,
                complete,
                BlockState { pending_length: (state.pending_length - 1) as nat, ..state },
                history,
                out.push(byte_back(history, out, state.pending_distance)),
                cap,
            )
        }
    } else {
        match symbol_at(tables, data, state.pos) {
            Err(e) => if !complete && e.is_end_of_data() {
                Ok((state, out))
            } else {
                Err(e)
            },
            Ok((symbol, next)) => {
                proof {
                    lemma_symbol_advances(tables, data, state.pos);
                }
                match symbol {
                    BlockSymbol::Literal(byte) => block_run(
                        tables,
                        data,
                        complete,
                        BlockState { pos: next, ..state },
                        history,
                        out.push(byte),
                        cap,
                    ),
                    BlockSymbol::EndOfBlock => Ok(
                        (BlockState { pos: next, eof: true, ..state }, out),
                    ),
                    BlockSymbol::Copy { length, distance } => block_run(
                        tables,
                        data,
                        complete,
                        BlockState {
                            pos: next,
                            eof: false,
                            pending_length: length,
                            pending_distance: distance,
                        },
                        history,
                        out,
                        cap,
                    ),
                }
            },
        }
    }
}

/// Putting out `count` bytes of the current back-reference at once is `count` steps of
/// the reading.
pub proof fn lemma_block_run_copy(
    tables: BlockTables,
    data: Seq<u8>,
    complete: bool,
    state: BlockState,
    history: Seq<u8>,
    out: Seq<u8>,
    cap: nat,
    count: nat,
)
    requires
        !state.eof,
        count <= state.pending_length,
        out.len() + count <= cap,
        1 <= state.pending_distance <= history.len() + out.len(),
    ensures
        block_run(tables, data, complete, state, history, out, cap) == block_run(
            tables,
            data,
            complete,
            BlockState { pending_length: (state.pending_length - count) as nat, ..state },
            history,
            copy_out(history, out, state.pending_distance, count),
            cap,
        ),
    decreases count,
{
    reveal_with_fuel(block_run, 1);
    if count > 0 {
        lemma_block_run_copy(tables, data, complete, state, history, out, cap, (count - 1) as nat);
        lemma_copy_out(history, out, state.pending_distance, (count - 1) as nat);
    } else {
        assert(BlockState { pending_length: (state.pending_length - 0) as nat, ..state } == state);
    }
}

/// Where a reading stops, and with what: the position has not gone back and is within the
/// data, the buffer holds what it held before and then the new bytes, and it is full
/// unless the end of the block was read or the data of an incomplete stream ended within
/// the next step.
#[verifier::rlimit(50)]
pub proof fn lemma_block_run_result(
    tables: BlockTables,
    data: Seq<u8>,
    complete: bool,
    state: BlockState,
    history: Seq<u8>,
    out: Seq<u8>,
    cap: nat,
)
    requires
        state.pos <= bit_count(data),
        state.pending_distance <= MAX_DISTANCE,
    ensures
        match block_run(tables, data, complete, state, history, out, cap) {
            Ok((last, all)) => {
                &&& state.pos <= last.pos <= bit_count(data)
                &&& last.pending_distance <= MAX_DISTANCE
                &&& out.len() <= all.len()
                &&& all.len() <= cap || all == out
                &&& all.take(out.len() as int) == out
                &&& all.len() < cap ==> last.eof || !complete
                &&& last.eof || all.len() > out.len() || last == state
            },
            Err(e) => e.is_data_error(),
        },
    decreases bit_count(data) - state.pos, state.pending_length,
{
    reveal_with_fuel(block_run, 1);
    if state.eof || out.len() >= cap {
        assert(out.take(out.len() as int) =~= out);
    } else if state.pending_length > 0 {
        if state.pending_distance == 0 || state.pending_distance > history.len() + out.len() {
        } else {
            let next_state = BlockState {
                pending_length: (state.pending_length - 1) as nat,
                ..state
            };
            let next_out = out.push(byte_back(history, out, state.pending_distance));
            lemma_block_run_result(tables, data, complete, next_state, history, next_out, cap);
            match block_run(tables, data, complete, next_state, history, next_out, cap) {
                Ok((last, all)) => {
                    assert(all.take(out.len() as int) =~= all.take(next_out.len() as int).take(
                        out.len() as int,
                    ));
                    assert(next_out.take(out.len() as int) =~= out);
                },
                Err(_) => {},
            }
        }
    } else {
        lemma_symbol_advances(tables, data, state.pos);
        match symbol_at(tables, data, state.pos) {
            Err(e) => {},
            Ok((symbol, next)) => {
                match symbol {
                    BlockSymbol::Literal(byte) => {
                        let next_state = BlockState { pos: next, ..state };
                        let next_out = out.push(byte);
                        lemma_block_run_result(
                            tables,
                            data,
                            complete,
                            next_state,
                            history,
                            next_out,
                            cap,
                        );
                        match block_run(
                            tables,
                            data,
                            complete,
                            next_state,
                            history,
                            next_out,
                            cap,
                        ) {
                            Ok((last, all)) => {
                                assert(all.take(out.len() as int) =~= all.take(
                                    next_out.len() as int,
                                ).take(out.len() as int));
                                assert(next_out.take(out.len() as int) =~= out);
                            },
                            Err(_) => {},
                        }
                    },
                    BlockSymbol::EndOfBlock => {
                        assert(out.take(out.len() as int) =~= out);
                    },
                    BlockSymbol::Copy { length, distance } => {
                        let copy_state = BlockState {
                            pos: next,
                            eof: false,
                            pending_length: length,
                            pending_distance: distance,
                        };
                        lemma_block_run_result(
                            tables,
                            data,
                            complete,
                            copy_state,
                            history,
                            out,
                            cap,
                        );
                        if distance <= history.len() + out.len() {
                            // the first byte of the copy comes out at once
                            lemma_block_run_result(
                                tables,
                                data,
                                complete,
                                BlockState {
                                    pending_length: (length - 1) as nat,
                                    ..copy_state
                                },
                                history,
                                out.push(byte_back(history, out, distance)),
                                cap,
                            );
                        }
                    },
                }
            },
        }
    }
}

/// A reading stops short of a full buffer and of the end of the block only in front of
/// a step within which the data ends.
#[verifier::rlimit(50)]
pub proof fn lemma_block_run_starved(
    tables: BlockTables,
    data: Seq<u8>,
    complete: bool,
    state: BlockState,
    history: Seq<u8>,
    out: Seq<u8>,
    cap: nat,
)
    requires
        state.pos <= bit_count(data),
    ensures
        match block_run(tables, data, complete, state, history, out, cap) {
            Ok((last, all)) => all.len() < cap && !last.eof ==> last.pending_length == 0
                && !complete && match symbol_at(tables, data, last.pos) {
                Err(e) => e.is_end_of_data(),
                Ok(_) => false,
            },
            Err(_) => true,
        },
    decreases bit_count(data) - state.pos, state.pending_length,
{
    reveal_with_fuel(block_run, 1);
    if state.eof || out.len() >= cap {
    } else if state.pending_length > 0 {
        if state.pending_distance == 0 || state.pending_distance > history.len() + out.len() {
        } else {
            lemma_block_run_starved(
                tables,
                data,
                complete,
                BlockState { pending_length: (state.pending_length - 1) as nat, ..state },
                history,
                out.push(byte_back(history, out, state.pending_distance)),
                cap,
            );
        }
    } else {
        lemma_symbol_advances(tables, data, state.pos);
        match symbol_at(tables, data, state.pos) {
            Err(e) => {},
            Ok((symbol, next)) => {
                match symbol {
                    BlockSymbol::Literal(byte) => {
                        lemma_block_run_starved(
                            tables,
                            data,
                            complete,
                            BlockState { pos: next, ..state },
                            history,
                            out.push(byte),
                            cap,
                        );
                    },
                    BlockSymbol::EndOfBlock => {},
                    BlockSymbol::Copy { length, distance } => {
                        lemma_block_run_starved(
                            tables,
                            data,
                            complete,
                            BlockState {
                                pos: next,
                                eof: false,
                                pending_length: length,
                                pending_distance: distance,
                            },
                            history,
                            out,
                            cap,
                        );
                    },
                }
            },
        }
    }
}

/// `window` holds the end of `history`: all of it, or at least as much as the longest
/// distance reaches back.
pub open spec fn is_window_of(window: Seq<u8>, history: Seq<u8>) -> bool {
    &&& window.len() <= history.len()
    &&& window == history.skip(history.len() - window.len())
    &&& window.len() >= MAX_DISTANCE || window.len() == history.len()
}

/// Reading a block with a window of the history in place of the whole history gives the
/// same.
#[verifier::rlimit(50)]
pub proof fn lemma_block_run_window(
    tables: BlockTables,
    data: Seq<u8>,
    complete: bool,
    state: BlockState,
    history: Seq<u8>,
    window: Seq<u8>,
    out: Seq<u8>,
    cap: nat,
)
    requires
        is_window_of(window, history),
        state.pending_distance <= MAX_DISTANCE,
    ensures
        block_run(tables, data, complete, state, window, out, cap) == block_run(
            tables,
            data,
            complete,
            state,
            history,
            out,
            cap,
        ),
    decreases bit_count(data) - state.pos, state.pending_length,
{
    reveal_with_fuel(block_run, 1);
    if state.eof || out.len() >= cap {
    } else if state.pending_length > 0 {
        if state.pending_distance == 0 || state.pending_distance > history.len() + out.len() {
        } else {
            let distance = state.pending_distance;
            assert(byte_back(window, out, distance) == byte_back(history, out, distance)) by {
                if distance > out.len() {
                    assert(window[window.len() + out.len() - distance] == history[history.len()
                        + out.len() - distance]);
                }
            }
            lemma_block_run_window(
                tables,
                data,
                complete,
                BlockState { pending_length: (state.pending_length - 1) as nat, ..state },
                history,
                window,
                out.push(byte_back(history, out, distance)),
                cap,
            );
        }
    } else {
        lemma_symbol_advances(tables, data, state.pos);
        match symbol_at(tables, data, state.pos) {
            Err(e) => {},
            Ok((symbol, next)) => {
                match symbol {
                    BlockSymbol::Literal(byte) => {
                        lemma_block_run_window(
                            tables,
                            data,
                            complete,
                            BlockState { pos: next, ..state },
                            history,
                            window,
                            out.push(byte),
                            cap,
                        );
                    },
                    BlockSymbol::EndOfBlock => {},
                    BlockSymbol::Copy { length, distance } => {
                        lemma_block_run_window(
                            tables,
                            data,
                            complete,
                            BlockState {
                                pos: next,
                                eof: false,
                                pending_length: length,
                                pending_distance: distance,
                            },
                            history,
                            window,
                            out,
                            cap,
                        );
                    },
                }
            },
        }
    }
}

/// Reads from the previous data into the destination.
///
/// Puts the bytes of a back-reference of `length` bytes at `distance` into `buf` from
/// `written` on, as many as fit. Each byte is read `distance` positions before the place
/// it is written to, in `previous_cache` followed by `buf`. Returns the number of bytes
/// written. A distance of zero, or one that reaches before the first byte of
/// `previous_cache`, is an error.
#[verifier::rlimit(50)]
pub fn read_behind(
    length: u16,
    distance: u16,
    previous_cache: &[u8],
    buf: &mut [u8],
    written: usize,
) -> (result: Result<usize, Error>)
    requires
        written <= old(buf)@.len(),
    ensures
        final(buf)@.len() == old(buf)@.len(),
        match result {
            Ok(n) => {
                &&& 1 <= distance <= previous_cache@.len() + written
                &&& written + n <= old(buf)@.len()
                &&& n == length || written + n == old(buf)@.len()
                &&& n <= length
                &&& final(buf)@.take(written + n) == copy_out(
                    previous_cache@,
                    old(buf)@.take(written as int),
                    distance as nat,
                    n as nat,
                )
                &&& forall|i: int|
                    written + n <= i < old(buf)@.len() ==> final(buf)@[i] == old(buf)@[i]
            },
            Err(e) => {
                &&& e == Error::DistanceTooFar
                &&& distance == 0 || distance > previous_cache@.len() + written
                &&& final(buf)@ == old(buf)@
            },
        },
{
    let back = distance as usize;
    if back == 0 || (back > written && back - written > previous_cache.len()) {
        return Err(Error::DistanceTooFar);
    }
    let room = buf.len() - written;
    let count = if (length as usize) < room {
        length as usize
    } else {
        room
    };
    let ghost history = previous_cache@;
    let ghost start = old(buf)@.take(written as int);
    let mut done: usize = 0;
    proof {
        assert(buf@.take(written as int) =~= copy_out(history, start, distance as nat, 0));
    }
    while done < count
        invariant
            done <= count,
            written + count <= buf@.len() <= usize::MAX,
            buf@.len() == old(buf)@.len(),
            back == distance,
            1 <= back <= history.len() + written,
            history == previous_cache@,
            start == old(buf)@.take(written as int),
            buf@.take(written + done) == copy_out(history, start, distance as nat, done as nat),
            forall|i: int| written + done <= i < buf@.len() ==> buf@[i] == old(buf)@[i],
        decreases count - done,
    {
        let at = written + done;
        let ghost before = buf@.take(at as int);
        proof {
            lemma_copy_out(history, start, distance as nat, done as nat);
        }
        let byte = if back <= at {
            buf[at - back]
        } else {
            previous_cache[previous_cache.len() - (back - at)]
        };
        proof {
            assert(byte == byte_back(history, before, distance as nat));
        }
        buf[at] = byte;
        done += 1;
        proof {
            assert(buf@.take(written + done) =~= before.push(byte));
        }
    }
    Ok(count)
}

/// The code length of the symbol at index `index` in the fixed literal/length code.
pub open spec fn fixed_length(index: int) -> u8 {
    if index <= 143 {
        8
    } else if index <= 255 {
        9
    } else if index <= 279 {
        7
    } else {
        8
    }
}

/// The tables of a block with fixed codes: 288 literal/length symbols with the lengths
/// above, and 30 distance symbols of 5 bits each.
pub open spec fn fixed_tables() -> BlockTables {
    BlockTables {
        lit_len: canonical_table(lit_len_pairs(Seq::new(288, |i: int| fixed_length(i)))),
        dist: Some(canonical_table(byte_pairs(Seq::new(30, |i: int| 5u8)))),
    }
}

/// One step of a compressed block, as it was decoded.
#[derive(Clone, Copy, Debug)]
pub enum Step {
    /// Put out this byte.
    Literal(u8),
    /// The block ends here.
    EndOfBlock,
    /// Put out `length` bytes, each the one `distance` positions before it.
    Copy { length: u16, distance: u16 },
}

impl View for Step {
    type V = BlockSymbol;

    open spec fn view(&self) -> BlockSymbol {
        match *self {
            Step::Literal(byte) => BlockSymbol::Literal(byte),
            Step::EndOfBlock => BlockSymbol::EndOfBlock,
            Step::Copy { length, distance } => BlockSymbol::Copy {
                length: length as nat,
                distance: distance as nat,
            },
        }
    }
}

/// A reader that allows reading from a compressed block.
pub struct CompressedBlockReader {
    data: BitRead,
    eof: bool,
    lit_len_table: HuffmanTable<LitLenSymbol>,
    dist_table: Option<HuffmanTable<u8>>,
    pending_length: u16,
    pending_distance: u16,
}

impl CompressedBlockReader {
    /// All the bytes of the underlying source.
    pub closed spec fn bytes(&self) -> Seq<u8> {
        self.data.bytes()
    }

    /// Whether the whole stream has arrived.
    pub closed spec fn complete(&self) -> bool {
        self.data.complete()
    }

    /// The number of bytes at the front of the stream that are not kept any more.
    pub closed spec fn origin(&self) -> nat {
        self.data.origin()
    }

    /// Both read the same stream, of which the same bytes have arrived and are kept, with
    /// the same tables.
    pub open spec fn same_block(self, other: CompressedBlockReader) -> bool {
        &&& self.bytes() == other.bytes()
        &&& self.origin() == other.origin()
        &&& self.complete() == other.complete()
        &&& self.tables() == other.tables()
    }

    /// The two tables of the block.
    pub closed spec fn tables(&self) -> BlockTables {
        BlockTables {
            lit_len: self.lit_len_table@,
            dist: match self.dist_table {
                Some(table) => Some(table@),
                None => None,
            },
        }
    }

    /// Where the reading stands.
    pub closed spec fn state(&self) -> BlockState {
        BlockState {
            pos: self.data.bit_position(),
            eof: self.eof,
            pending_length: self.pending_length as nat,
            pending_distance: self.pending_distance as nat,
        }
    }

    /// The bit reader and the tables are well formed, and the distance of the current
    /// back-reference is one that the format can express.
    pub closed spec fn wf(&self) -> bool {
        &&& self.data.wf()
        &&& self.pending_distance <= MAX_DISTANCE
        &&& self.lit_len_table.wf()
        &&& match self.dist_table {
            Some(table) => table.wf(),
            None => true,
        }
    }

    /// The position is within the data.
    pub proof fn lemma_position(&self)
        requires
            self.wf(),
        ensures
            self.state().pos <= bit_count(self.bytes()),
            self.state().pending_distance <= MAX_DISTANCE,
    {
        self.data.lemma_position();
    }

    /// Reads dynamic tables from the input stream and builds a reader for this block.
    pub fn from_dynamic_tables(inner: BitRead) -> (result: Result<CompressedBlockReader, Error>)
        requires
            inner.wf(),
        ensures
            match result {
                Ok(reader) => {
                    &&& reader.wf()
                    &&& reader.bytes() == inner.bytes()
                    &&& reader.origin() == inner.origin()
                    &&& reader.complete() == inner.complete()
                    &&& dynamic_tables_at(inner.bytes(), inner.bit_position()) == Ok::<
                        (BlockTables, nat),
                        Error,
                    >((reader.tables(), reader.state().pos))
                    &&& !reader.state().eof
                    &&& reader.state().pending_length == 0
                    &&& reader.state().pending_distance == 0
                },
                Err(e) => dynamic_tables_at(inner.bytes(), inner.bit_position()) == Err::<
                    (BlockTables, nat),
                    Error,
                >(e),
            },
    {
        let mut inner = inner;
        let (lit_len_table, dist_table) = read_dynamic_tables(&mut inner)?;

        Ok(CompressedBlockReader::with_tables(inner, lit_len_table, dist_table))
    }

    /// Builds a reader for a block that uses the given tables, and whose data `inner`
    /// stands in front of.
    pub fn with_tables(
        inner: BitRead,
        lit_len_table: HuffmanTable<LitLenSymbol>,
        dist_table: Option<HuffmanTable<u8>>,
    ) -> (reader: CompressedBlockReader)
        requires
            inner.wf(),
            lit_len_table.wf(),
            match dist_table {
                Some(table) => table.wf(),
                None => true,
            },
        ensures
            reader.wf(),
            reader.bytes() == inner.bytes(),
            reader.origin() == inner.origin(),
            reader.complete() == inner.complete(),
            reader.tables() == (BlockTables {
                lit_len: lit_len_table@,
                dist: match dist_table {
                    Some(table) => Some(table@),
                    None => None,
                },
            }),
            reader.state() == (BlockState {
                pos: inner.bit_position(),
                eof: false,
                pending_length: 0,
                pending_distance: 0,
            }),
    {
        CompressedBlockReader {
            data: inner,
            eof: false,
            lit_len_table: lit_len_table,
            dist_table: dist_table,
            pending_length: 0,
            pending_distance: 0,
        }
    }

    /// Whether the end of the block has been read.
    pub fn is_eof(&self) -> (eof: bool)
        ensures
            eof == self.state().eof,
    {
        self.eof
    }

    /// Whether the whole stream has arrived.
    pub fn is_complete(&self) -> (complete: bool)
        ensures
            complete == self.complete(),
    {
        self.data.is_complete()
    }

    /// Says that the whole stream has arrived.
    pub fn finish(&mut self)
        requires
            old(self).wf(),
        ensures
            final(self).wf(),
            final(self).complete(),
            final(self).bytes() == old(self).bytes(),
            final(self).tables() == old(self).tables(),
            final(self).state() == old(self).state(),
    {
        self.data.finish();
    }

    /// Takes the next bytes of the stream as they arrive.
    pub fn feed(&mut self, more: &[u8])
        requires
            old(self).wf(),
        ensures
            final(self).wf(),
            final(self).bytes() == old(self).bytes() + more@,
            final(self).complete() == old(self).complete(),
            final(self).tables() == old(self).tables(),
            final(self).state() == old(self).state(),
    {
        self.data.feed(more);
    }

    /// Builds a reader for this block that uses fixed huffman tables.
    #[verifier::rlimit(50)]
    pub fn from_fixed_tables(inner: BitRead) -> (reader: CompressedBlockReader)
        requires
            inner.wf(),
        ensures
            reader.wf(),
            reader.bytes() == inner.bytes(),
            reader.origin() == inner.origin(),
            reader.complete() == inner.complete(),
            reader.tables() == fixed_tables(),
            reader.state() == (BlockState {
                pos: inner.bit_position(),
                eof: false,
                pending_length: 0,
                pending_distance: 0,
            }),
    {
        let mut lit_lens: Vec<u8> = Vec::new();
        let mut i: u16 = 0;
        while i < 288
            invariant
                i <= 288,
                lit_lens@ =~= Seq::new(i as nat, |i: int| fixed_length(i)),
            decreases 288 - i,
        {
            let len: u8 = if i <= 143 {
                8
            } else if i <= 255 {
                9
            } else if i <= 279 {
                7
            } else {
                8
            };
            lit_lens.push(len);
            i += 1;
        }
        let mut dist_lens: Vec<u8> = Vec::new();
        while dist_lens.len() < 30
            invariant
                dist_lens@.len() <= 30,
                dist_lens@ =~= Seq::new(dist_lens@.len(), |i: int| 5u8),
            decreases 30 - dist_lens@.len(),
        {
            dist_lens.push(5);
        }
        proof {
            lemma_lit_len_pairs_valid(lit_lens@);
            lemma_byte_pairs_valid(dist_lens@);
            assert(lit_lens@.last() == 8);
            assert(dist_lens@.last() == 5);
        }
        let lit_pairs = collect_lit_len_pairs(lit_lens.as_slice());
        let dist_pairs = collect_byte_pairs(dist_lens.as_slice());
        let lit_len_table = match HuffmanTable::from_lengths(lit_pairs.as_slice()) {
            Ok(table) => table,
            Err(_) => unreached(),
        };
        let dist_table = match HuffmanTable::from_lengths(dist_pairs.as_slice()) {
            Ok(table) => table,
            Err(_) => unreached(),
        };

        CompressedBlockReader::with_tables(inner, lit_len_table, Some(dist_table))
    }

    /// Stops decoding and returns the underlying bits reader.
    pub fn into_inner(self) -> (inner: BitRead)
        requires
            self.wf(),
        ensures
            inner.wf(),
            inner.bytes() == self.bytes(),
            inner.origin() == self.origin(),
            inner.complete() == self.complete(),
            inner.bit_position() == self.state().pos,
    {
        self.data
    }

    /// Decodes the next step of the block: a symbol of the literal/length code and, for a
    /// back-reference, the extra bits of its length, a symbol of the distance code and the
    /// extra bits of its distance.
    #[verifier::rlimit(50)]
    pub fn decode_step(&mut self) -> (result: Result<Step, Error>)
        requires
            old(self).wf(),
        ensures
            final(self).wf(),
            final(self).same_block(*old(self)),
            final(self).state().eof == old(self).state().eof,
            final(self).state().pending_length == old(self).state().pending_length,
            final(self).state().pending_distance == old(self).state().pending_distance,
            match result {
                Ok(step) => symbol_at(old(self).tables(), old(self).bytes(), old(self).state().pos)
                    == Ok::<(BlockSymbol, nat), Error>((step@, final(self).state().pos)),
                Err(e) => symbol_at(old(self).tables(), old(self).bytes(), old(self).state().pos)
                    == Err::<(BlockSymbol, nat), Error>(e),
            },
    {
        let ghost data = self.data.bytes();
        let symbol = self.lit_len_table.decode(&mut self.data)?;
        match symbol {
            LitLenSymbol::Byte(val) => Ok(Step::Literal(val)),
            LitLenSymbol::Eof => Ok(Step::EndOfBlock),
            LitLenSymbol::Pointer(ptr) => {
                if ptr >= 29 {
                    return Err(Error::InvalidLengthCode);
                }
                let ghost after = self.data.bit_position();
                let extra = read_extra(&mut self.data, EXTRA_LENGTHS[ptr as usize])?;
                proof {
                    lemma_bits_value_bound(data, after, EXTRA_LENGTHS[ptr as int] as nat);
                    lemma2_to64();
                }
                let length = LENGTHS[ptr as usize] + extra;
                let distance = match &self.dist_table {
                    None => {
                        return Err(Error::BadHuffmanData);
                    },
                    Some(table) => table.decode(&mut self.data)?,
                };
                if distance >= 30 {
                    return Err(Error::InvalidDistanceCode);
                }
                let ghost behind = self.data.bit_position();
                let extra = read_extra(&mut self.data, EXTRA_DISTANCES[distance as usize])?;
                proof {
                    lemma_bits_value_bound(data, behind, EXTRA_DISTANCES[distance as int] as nat);
                }
                let distance = DISTANCES[distance as usize] + extra;
                Ok(Step::Copy { length, distance })
            },
        }
    }

    /// Starts reading from the block. We need to pass the data previously read from the
    /// stream in case of a pointer in the uncompressed data.
    pub fn with_previous_data<'a>(&'a mut self, cache: &'a [u8]) -> (context: ReadContext<'a>)
        ensures
            *context.reader == *old(self),
            *final(self) == *final(context.reader),
            context.data_cache@ == cache@,
    {
        ReadContext { reader: self, data_cache: cache }
    }
}

/// A block reader together with the data that was decoded before, ready to read.
pub struct ReadContext<'a> {
    pub reader: &'a mut CompressedBlockReader,
    pub data_cache: &'a [u8],
}

impl<'a> ReadContext<'a> {
    /// Decodes the next bytes of the block into `buf`, until `buf` is full or the block
    /// ends, and returns how many bytes it wrote. What lies behind them in `buf` keeps its
    /// content. After the end of the block it writes nothing and returns 0.
    ///
    /// Where the data that has arrived ends within a step and more is to come, it stops in
    /// front of that step, as if `buf` were full.
    ///
    /// The context goes on borrowing the same block reader: what the reader is when the
    /// borrow ends is what the context leaves it as.
    #[verifier::rlimit(50)]
    pub fn read(&mut self, buf: &mut [u8]) -> (result: Result<usize, Error>)
        requires
            old(self).reader.wf(),
        ensures
            *final(final(self).reader) == *final(old(self).reader),
            final(self).data_cache@ == old(self).data_cache@,
            final(self).reader.wf(),
            final(self).reader.same_block(*old(self).reader),
            final(buf)@.len() == old(buf)@.len(),
            match result {
                Ok(n) => {
                    &&& n <= old(buf)@.len()
                    &&& block_run(
                        old(self).reader.tables(),
                        old(self).reader.bytes(),
                        old(self).reader.complete(),
                        old(self).reader.state(),
                        old(self).data_cache@,
                        Seq::empty(),
                        old(buf)@.len(),
                    ) == Ok::<(BlockState, Seq<u8>), Error>(
                        (final(self).reader.state(), final(buf)@.take(n as int)),
                    )
                    &&& forall|i: int| n <= i < old(buf)@.len() ==> final(buf)@[i] == old(buf)@[i]
                },
                Err(e) => block_run(
                    old(self).reader.tables(),
                    old(self).reader.bytes(),
                    old(self).reader.complete(),
                    old(self).reader.state(),
                    old(self).data_cache@,
                    Seq::empty(),
                    old(buf)@.len(),
                ) == Err::<(BlockState, Seq<u8>), Error>(e),
            },
    {
        proof {
            reveal_with_fuel(block_run, 1);
        }
        let ghost tables = self.reader.tables();
        let ghost data = self.reader.bytes();
        let ghost complete = self.reader.complete();
        let ghost first = self.reader.state();
        let ghost history = self.data_cache@;
        let ghost cap = buf@.len();
        if self.reader.eof {
            proof {
                assert(buf@.take(0) =~= Seq::<u8>::empty());
            }
            return Ok(0);
        }
        // number of bytes already written to `buf`
        let mut written: usize = 0;
        proof {
            assert(buf@.take(0) =~= Seq::<u8>::empty());
        }
        loop
            invariant
                written <= buf@.len(),
                buf@.len() == cap,
                cap == old(buf)@.len(),
                *final(self.reader) == *final(old(self).reader),
                self.data_cache@ == history,
                history == old(self).data_cache@,
                tables == old(self).reader.tables(),
                data == old(self).reader.bytes(),
                complete == old(self).reader.complete(),
                first == old(self).reader.state(),
                self.reader.wf(),
                self.reader.same_block(*old(self).reader),
                !self.reader.eof,
                forall|i: int| written <= i < buf@.len() ==> buf@[i] == old(buf)@[i],
                block_run(tables, data, complete, first, history, Seq::empty(), cap) == block_run(
                    tables,
                    data,
                    complete,
                    self.reader.state(),
                    history,
                    buf@.take(written as int),
                    cap,
                ),
            decreases
                    bit_count(data) - self.reader.state().pos,
                    self.reader.state().pending_length,
        {
            proof {
                reveal_with_fuel(block_run, 1);
            }
            if written == buf.len() {
                return Ok(written);
            }
            let ghost state = self.reader.state();
            let ghost out = buf@.take(written as int);
            proof {
                self.reader.lemma_position();
            }
            if self.reader.pending_length > 0 {
                // this means that we need to copy some existing data
                let copied = match read_behind(
                    self.reader.pending_length,
                    self.reader.pending_distance,
                    self.data_cache,
                    buf,
                    written,
                ) {
                    Ok(n) => n,
                    Err(e) => {
                        return Err(e);
                    },
                };
                proof {
                    lemma_block_run_copy(
                        tables,
                        data,
                        complete,
                        state,
                        history,
                        out,
                        cap,
                        copied as nat,
                    );
                }
                written += copied;
                self.reader.pending_length = self.reader.pending_length - copied as u16;
            } else {
                // reading a symbol from the input data
                // this symbol doesn't necessarly mean a byte, it can also be an EOF marker
                // or a pointer to a previous element of the output buffer
                proof {
                    lemma_symbol_advances(tables, data, state.pos);
                }
                let mark = self.reader.data.mark();
                let step = match self.reader.decode_step() {
                    Ok(step) => step,
                    Err(e) => {
                        if e.ends_early() && !self.reader.data.is_complete() {
                            // the step is not all there yet: we stop in front of it
                            self.reader.data.rewind(mark);
                            return Ok(written);
                        }
                        return Err(e);
                    },
                };
                match step {
                    Step::Literal(val) => {
                        // byte to copy to the output
                        buf[written] = val;
                        written += 1;
                        proof {
                            assert(buf@.take(written as int) =~= out.push(val));
                        }
                    },
                    Step::EndOfBlock => {
                        // we reached the end of the block
                        self.reader.eof = true;
                        return Ok(written);
                    },
                    Step::Copy { length, distance } => {
                        // this means that we need to copy some existing data
                        self.reader.pending_length = length;
                        self.reader.pending_distance = distance;
                    },
                }
            }
        }
    }
}

} // verus!
