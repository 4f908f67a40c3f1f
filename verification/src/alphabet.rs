//! The symbols of a compressed block and what they stand for.

use crate::bit::{
    bit_count, bits_value, lemma_bits_value_bound, lemma_bits_value_prefix,
    lemma_bits_value_split, BitRead,
};
use crate::error::Error;
use crate::huffman::{code_lengths, valid_lengths, TableModel, MAX_BITS};
use vstd::arithmetic::power2::lemma2_to64;
use vstd::prelude::*;

verus! {

/// Base length of each of the 29 length symbols.
pub const LENGTHS: [u16; 29] = [
    3, 4, 5, 6, 7, 8, 9, 10, 11, 13,
    15, 17, 19, 23, 27, 31, 35, 43, 51, 59,
    67, 83, 99, 115, 131, 163, 195, 227, 258,
];

/// Number of extra bits that follow each of the 29 length symbols.
pub const EXTRA_LENGTHS: [u8; 29] = [
    0, 0, 0, 0, 0, 0, 0, 0, 1, 1,
    1, 1, 2, 2, 2, 2, 3, 3, 3, 3,
    4, 4, 4, 4, 5, 5, 5, 5, 0,
];

/// Base distance of each of the 30 distance symbols.
pub const DISTANCES: [u16; 30] = [
    1, 2, 3, 4, 5, 7, 9, 13, 17, 25,
    33, 49, 65, 97, 129, 193, 257, 385, 513, 769,
    1025, 1537, 2049, 3073, 4097, 6145, 8193, 12289, 16385, 24577,
];

/// Number of extra bits that follow each of the 30 distance symbols.
pub const EXTRA_DISTANCES: [u8; 30] = [
    0, 0, 0, 0, 1, 1, 2, 2, 3, 3,
    4, 4, 5, 5, 6, 6, 7, 7, 8, 8,
    9, 9, 10, 10, 11, 11, 12, 12, 13, 13,
];

/// The longest distance that a back-reference can have.
pub const MAX_DISTANCE: usize = 32768;

/// A symbol of the literal/length alphabet.
#[derive(Debug, Copy, Clone, PartialEq, Eq, Structural)]
pub enum LitLenSymbol {
    /// A byte to copy to the output.
    Byte(u8),
    /// The end of the block.
    Eof,
    /// A back-reference, with the index of its length symbol.
    Pointer(u8),
}

/// The symbol at index `index` of the literal/length alphabet: 0 to 255 are the bytes,
/// 256 is the end of the block, and the length symbols follow.
pub open spec fn symbol_of_index(index: nat) -> LitLenSymbol {
    if index < 256 {
        LitLenSymbol::Byte(index as u8)
    } else if index == 256 {
        LitLenSymbol::Eof
    } else {
        LitLenSymbol::Pointer((index - 257) as u8)
    }
}

/// The symbol at index `index` of the literal/length alphabet.
pub fn lit_len_symbol(index: u16) -> (symbol: LitLenSymbol)
    requires
        index < 512,
    ensures
        symbol == symbol_of_index(index as nat),
{
    if index < 256 {
        LitLenSymbol::Byte(index as u8)
    } else if index == 256 {
        LitLenSymbol::Eof
    } else {
        LitLenSymbol::Pointer((index - 257) as u8)
    }
}

/// The pairs of a table whose symbols are their own indices: each index with a length
/// other than zero, in order, with that length.
pub open spec fn byte_pairs(lens: Seq<u8>) -> Seq<(u8, u8)>
    decreases lens.len(),
{
    if lens.len() == 0 {
        seq![]
    } else if lens.last() == 0 {
        byte_pairs(lens.drop_last())
    } else {
        byte_pairs(lens.drop_last()).push(((lens.len() - 1) as u8, lens.last()))
    }
}

/// The pairs of a literal/length table: the symbol of each index with a length other than
/// zero, in order, with that length.
pub open spec fn lit_len_pairs(lens: Seq<u8>) -> Seq<(LitLenSymbol, u8)>
    decreases lens.len(),
{
    if lens.len() == 0 {
        seq![]
    } else if lens.last() == 0 {
        lit_len_pairs(lens.drop_last())
    } else {
        lit_len_pairs(lens.drop_last()).push(
            (symbol_of_index((lens.len() - 1) as nat), lens.last()),
        )
    }
}

/// No length is above 15.
pub open spec fn bounded_lengths(lens: Seq<u8>) -> bool {
    forall|i: int| 0 <= i < lens.len() ==> #[trigger] lens[i] <= MAX_BITS
}

/// The pairs made of bounded lengths have lengths in `1..=15`, and are no more than the
/// lengths.
pub proof fn lemma_byte_pairs_valid(lens: Seq<u8>)
    requires
        bounded_lengths(lens),
    ensures
        valid_lengths(code_lengths(byte_pairs(lens))),
        byte_pairs(lens).len() <= lens.len(),
    decreases lens.len(),
{
    if lens.len() > 0 {
        let rest = lens.drop_last();
        assert forall|i: int| 0 <= i < rest.len() implies #[trigger] rest[i] <= MAX_BITS by {
            assert(rest[i] == lens[i]);
        }
        lemma_byte_pairs_valid(rest);
        assert(lens[lens.len() - 1] <= MAX_BITS);
        let pairs = byte_pairs(lens);
        let before = byte_pairs(rest);
        assert forall|i: int| 0 <= i < pairs.len() implies 1 <= #[trigger] code_lengths(pairs)[i]
            <= MAX_BITS by {
            if i < before.len() {
                assert(code_lengths(before)[i] == before[i].1);
                assert(pairs[i] == before[i]);
            }
        }
    }
}

/// The pairs made of bounded lengths have lengths in `1..=15`, and are no more than the
/// lengths.
pub proof fn lemma_lit_len_pairs_valid(lens: Seq<u8>)
    requires
        bounded_lengths(lens),
    ensures
        valid_lengths(code_lengths(lit_len_pairs(lens))),
        lit_len_pairs(lens).len() <= lens.len(),
    decreases lens.len(),
{
    if lens.len() > 0 {
        let rest = lens.drop_last();
        assert forall|i: int| 0 <= i < rest.len() implies #[trigger] rest[i] <= MAX_BITS by {
            assert(rest[i] == lens[i]);
        }
        lemma_lit_len_pairs_valid(rest);
        assert(lens[lens.len() - 1] <= MAX_BITS);
        let pairs = lit_len_pairs(lens);
        let before = lit_len_pairs(rest);
        assert forall|i: int| 0 <= i < pairs.len() implies 1 <= #[trigger] code_lengths(pairs)[i]
            <= MAX_BITS by {
            if i < before.len() {
                assert(code_lengths(before)[i] == before[i].1);
                assert(pairs[i] == before[i]);
            }
        }
    }
}

/// Collects the pairs of a table whose symbols are their own indices.
pub fn collect_byte_pairs(lens: &[u8]) -> (pairs: Vec<(u8, u8)>)
    requires
        lens@.len() <= 256,
    ensures
        pairs@ == byte_pairs(lens@),
{
    let mut pairs: Vec<(u8, u8)> = Vec::new();
    let mut i: usize = 0;
    while i < lens.len()
        invariant
            i <= lens@.len() <= 256,
            pairs@ == byte_pairs(lens@.take(i as int)),
        decreases lens@.len() - i,
    {
        proof {
            assert(lens@.take(i + 1).drop_last() =~= lens@.take(i as int));
        }
        if lens[i] != 0 {
            pairs.push((i as u8, lens[i]));
        }
        i += 1;
    }
    proof {
        assert(lens@.take(i as int) =~= lens@);
    }
    pairs
}

/// Collects the pairs of a literal/length table.
pub fn collect_lit_len_pairs(lens: &[u8]) -> (pairs: Vec<(LitLenSymbol, u8)>)
    requires
        lens@.len() <= 512,
    ensures
        pairs@ == lit_len_pairs(lens@),
{
    let mut pairs: Vec<(LitLenSymbol, u8)> = Vec::new();
    let mut i: usize = 0;
    while i < lens.len()
        invariant
            i <= lens@.len() <= 512,
            pairs@ == lit_len_pairs(lens@.take(i as int)),
        decreases lens@.len() - i,
    {
        proof {
            assert(lens@.take(i + 1).drop_last() =~= lens@.take(i as int));
        }
        if lens[i] != 0 {
            pairs.push((lit_len_symbol(i as u16), lens[i]));
        }
        i += 1;
    }
    proof {
        assert(lens@.take(i as int) =~= lens@);
    }
    pairs
}

/// The two tables of a compressed block. A block without any distance code has no
/// distance table.
pub struct BlockTables {
    pub lit_len: TableModel<LitLenSymbol>,
    pub dist: Option<TableModel<u8>>,
}

/// What one step of a compressed block says to do.
pub enum BlockSymbol {
    /// Put out this byte.
    Literal(u8),
    /// The block ends here.
    EndOfBlock,
    /// Put out `length` bytes, each the one `distance` positions before it.
    Copy { length: nat, distance: nat },
}

/// The number that the `n` bits at `pos` spell, and the position behind them.
pub open spec fn extra_at(data: Seq<u8>, pos: nat, n: nat) -> Result<(nat, nat), Error> {
    if pos + n > bit_count(data) {
        Err(Error::UnexpectedEofInBits)
    } else {
        Ok((bits_value(data, pos, n), pos + n))
    }
}

/// The length of the back-reference whose length symbol is `index` and whose extra bits
/// are at `pos`, and the position behind them.
pub open spec fn copy_length_at(data: Seq<u8>, pos: nat, index: u8) -> Result<(nat, nat), Error> {
    if index >= 29 {
        Err(Error::InvalidLengthCode)
    } else {
        match extra_at(data, pos, EXTRA_LENGTHS[index as int] as nat) {
            Ok((extra, next)) => Ok((LENGTHS[index as int] as nat + extra, next)),
            Err(e) => Err(e),
        }
    }
}

/// The distance that is coded at `pos`, and the position behind it: a symbol of the
/// distance table, then its extra bits.
pub open spec fn copy_distance_at(dist: Option<TableModel<u8>>, data: Seq<u8>, pos: nat) -> Result<
    (nat, nat),
    Error,
> {
    match dist {
        None => Err(Error::BadHuffmanData),
        Some(table) => match table.decode_at(data, pos) {
            Err(e) => Err(e),
            Ok((index, after)) => if index >= 30 {
                Err(Error::InvalidDistanceCode)
            } else {
                match extra_at(data, after, EXTRA_DISTANCES[index as int] as nat) {
                    Ok((extra, next)) => Ok((DISTANCES[index as int] as nat + extra, next)),
                    Err(e) => Err(e),
                }
            },
        },
    }
}

/// The step that is coded at `pos`, and the position behind it.
pub open spec fn symbol_at(tables: BlockTables, data: Seq<u8>, pos: nat) -> Result<
    (BlockSymbol, nat),
    Error,
> {
    match tables.lit_len.decode_at(data, pos) {
        Err(e) => Err(e),
        Ok((LitLenSymbol::Byte(byte), next)) => Ok((BlockSymbol::Literal(byte), next)),
        Ok((LitLenSymbol::Eof, next)) => Ok((BlockSymbol::EndOfBlock, next)),
        Ok((LitLenSymbol::Pointer(index), after)) => match copy_length_at(data, after, index) {
            Err(e) => Err(e),
            Ok((length, then)) => match copy_distance_at(tables.dist, data, then) {
                Err(e) => Err(e),
                Ok((distance, next)) => Ok((BlockSymbol::Copy { length, distance }, next)),
            },
        },
    }
}

/// A step ends after the position it started at, and within the data. A back-reference
/// is 3 to 258 bytes long and reaches 1 to 32768 bytes back. Where no step can be
/// decoded, the error names a defect of the data.
pub proof fn lemma_symbol_advances(tables: BlockTables, data: Seq<u8>, pos: nat)
    ensures
        match symbol_at(tables, data, pos) {
            Ok((symbol, next)) => {
                &&& pos < next <= bit_count(data)
                &&& match symbol {
                    BlockSymbol::Copy { length, distance } => 3 <= length <= 258 && 1 <= distance
                        <= MAX_DISTANCE,
                    _ => true,
                }
            },
            Err(e) => e.is_data_error(),
        },
{
    tables.lit_len.lemma_decode_advances(data, pos, 1);
    match tables.lit_len.decode_at(data, pos) {
        Ok((LitLenSymbol::Pointer(index), after)) => {
            if index < 29 {
                let n = EXTRA_LENGTHS[index as int] as nat;
                lemma_bits_value_bound(data, after, n);
                lemma2_to64();
                match copy_length_at(data, after, index) {
                    Ok((length, then)) => {
                        lemma_distance_advances(tables.dist, data, then);
                    },
                    Err(_) => {},
                }
            }
        },
        _ => {},
    }
}

/// A distance ends after the position it started at, and within the data, and reaches 1
/// to 32768 bytes back. Where none can be decoded, the error names a defect of the data.
pub proof fn lemma_distance_advances(dist: Option<TableModel<u8>>, data: Seq<u8>, pos: nat)
    ensures
        match copy_distance_at(dist, data, pos) {
            Ok((distance, next)) => pos < next <= bit_count(data) && 1 <= distance
                <= MAX_DISTANCE,
            Err(e) => e.is_data_error(),
        },
{
    match dist {
        Some(table) => {
            table.lemma_decode_advances(data, pos, 1);
            match table.decode_at(data, pos) {
                Ok((q, behind)) => {
                    if q < 30 {
                        let m = EXTRA_DISTANCES[q as int] as nat;
                        lemma_bits_value_bound(data, behind, m);
                        lemma2_to64();
                    }
                },
                Err(_) => {},
            }
        },
        None => {},
    }
}

/// A result that does not say that the data ended too early: such a result stays when
/// more data arrives.
pub open spec fn is_final<T>(result: Result<T, Error>) -> bool {
    match result {
        Ok(_) => true,
        Err(e) => !e.is_end_of_data(),
    }
}

/// A number read from the data that has arrived stays when more arrives.
pub proof fn lemma_extra_stable(data: Seq<u8>, more: Seq<u8>, pos: nat, n: nat)
    ensures
        is_final(extra_at(data, pos, n)) ==> extra_at(data + more, pos, n) == extra_at(
            data,
            pos,
            n,
        ),
{
    if pos + n <= bit_count(data) {
        lemma_bits_value_prefix(data, more, pos, n);
    }
}

/// A distance decoded from the data that has arrived stays when more arrives.
pub proof fn lemma_distance_stable(
    dist: Option<TableModel<u8>>,
    data: Seq<u8>,
    more: Seq<u8>,
    pos: nat,
)
    ensures
        is_final(copy_distance_at(dist, data, pos)) ==> copy_distance_at(dist, data + more, pos)
            == copy_distance_at(dist, data, pos),
{
    match dist {
        Some(table) => {
            table.lemma_decode_stable(data, more, pos, 1);
            match table.decode_at(data, pos) {
                Ok((index, after)) => {
                    if index < 30 {
                        lemma_extra_stable(data, more, after, EXTRA_DISTANCES[index as int] as nat);
                    }
                },
                Err(_) => {},
            }
        },
        None => {},
    }
}

/// A step decoded from the data that has arrived stays when more arrives, and so does
/// the verdict that it cannot be decoded, unless that says that the data ended too early.
pub proof fn lemma_symbol_stable(tables: BlockTables, data: Seq<u8>, more: Seq<u8>, pos: nat)
    ensures
        is_final(symbol_at(tables, data, pos)) ==> symbol_at(tables, data + more, pos)
            == symbol_at(tables, data, pos),
{
    tables.lit_len.lemma_decode_stable(data, more, pos, 1);
    match tables.lit_len.decode_at(data, pos) {
        Ok((LitLenSymbol::Pointer(index), after)) => {
            if index < 29 {
                lemma_extra_stable(data, more, after, EXTRA_LENGTHS[index as int] as nat);
                match copy_length_at(data, after, index) {
                    Ok((length, then)) => {
                        lemma_distance_stable(tables.dist, data, more, then);
                    },
                    Err(_) => {},
                }
            }
        },
        _ => {},
    }
}

/// Reads an unsigned number of `bits` bits, the first bit lowest.
pub fn read_extra(input: &mut BitRead, bits: u8) -> (result: Result<u16, Error>)
    requires
        old(input).wf(),
        bits <= 16,
    ensures
        final(input).wf(),
        final(input).same_stream(*old(input)),
        match result {
            Ok(value) => extra_at(old(input).bytes(), old(input).bit_position(), bits as nat)
                == Ok::<(nat, nat), Error>((value as nat, final(input).bit_position())),
            Err(e) => extra_at(old(input).bytes(), old(input).bit_position(), bits as nat)
                == Err::<(nat, nat), Error>(e),
        },
{
    if bits <= 8 {
        match input.read(bits) {
            Ok(value) => Ok(value as u16),
            Err(e) => Err(e),
        }
    } else {
        let low = match input.read(8) {
            Ok(value) => value,
            Err(e) => {
                return Err(e);
            },
        };
        let high = match input.read(bits - 8) {
            Ok(value) => value,
            Err(e) => {
                return Err(e);
            },
        };
        proof {
            let data = old(input).bytes();
            let pos = old(input).bit_position();
            lemma_bits_value_split(data, pos, 8, (bits - 8) as nat);
            lemma_bits_value_bound(data, pos, 8);
            lemma_bits_value_bound(data, pos + 8, (bits - 8) as nat);
            lemma2_to64();
            let l = low as u16;
            let h = high as u16;
            assert(l | (h << 8) == l + 256 * h) by (bit_vector)
                requires
                    l < 256,
                    h < 256,
            ;
        }
        Ok((low as u16) | ((high as u16) << 8))
    }
}

} // verus!
