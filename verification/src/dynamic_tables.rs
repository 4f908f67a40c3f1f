//! The tables that a block with dynamic codes carries in front of its data.

use crate::alphabet::{
    bounded_lengths, byte_pairs, collect_byte_pairs, collect_lit_len_pairs, extra_at, is_final,
    lemma_byte_pairs_valid, lemma_extra_stable, lemma_lit_len_pairs_valid, lit_len_pairs,
    read_extra, BlockTables, LitLenSymbol,
};
use crate::bit::{
    bit_count, bits_value, lemma_bits_value_bound, lemma_bits_value_prefix, BitRead,
};
use crate::error::Error;
use crate::huffman::{canonical_table, HuffmanTable, TableModel, MAX_BITS};
use vstd::arithmetic::power2::lemma2_to64;
use vstd::prelude::*;
use vstd::slice::slice_subrange;

verus! {

/// The order in which the lengths of the code-length alphabet are stored.
pub const CODE_LENGTH_ORDER: [u8; 19] = [
    16, 17, 18, 0, 8, 7, 9, 6, 10, 5, 11, 4, 12, 3, 13, 2, 14, 1, 15,
];

/// The lengths of the 19 symbols of the code-length alphabet when `count` of them are
/// stored from `pos` on, three bits each, in the order above. The others are zero.
pub open spec fn meta_lengths(data: Seq<u8>, pos: nat, count: nat) -> Seq<u8>
    decreases count,
{
    if count == 0 {
        Seq::new(19, |i: int| 0u8)
    } else {
        meta_lengths(data, pos, (count - 1) as nat).update(
            CODE_LENGTH_ORDER[count - 1] as int,
            bits_value(data, (pos + 3 * (count - 1)) as nat, 3) as u8,
        )
    }
}

/// `lens` followed by `count` times `value`.
pub open spec fn repeated(lens: Seq<u8>, value: u8, count: nat) -> Seq<u8> {
    lens + Seq::new(count, |i: int| value)
}

/// The code lengths that are coded from `pos` on with the code `meta`, after `lens`, until
/// there are `total` of them, and the position behind them.
///
/// A symbol up to 15 is a length. 16 repeats the length before it 3 to 6 times, 17 gives
/// 3 to 10 zeros and 18 gives 11 to 138 zeros; how many, the next 2, 3 or 7 bits say. A
/// repeat may not run past `total`.
#[verifier::rlimit(50)]
pub open spec fn code_lengths_from(
    meta: TableModel<u8>,
    data: Seq<u8>,
    pos: nat,
    lens: Seq<u8>,
    total: nat,
) -> Result<(Seq<u8>, nat), Error>
    decreases bit_count(data) - pos,
{
    if lens.len() >= total {
        Ok((lens, pos))
    } else {
        match meta.decode_at(data, pos) {
            Err(e) => Err(e),
            Ok((symbol, next)) => {
                if symbol <= 15 {
                    proof {
                        meta.lemma_decode_advances(data, pos, 1);
                    }
                    code_lengths_from(meta, data, next, lens.push(symbol), total)
                } else if symbol > 18 {
                    Err(Error::BadHuffmanData)
                } else if symbol == 16 && lens.len() == 0 {
                    Err(Error::NoPreviousLength)
                } else {
                    let bits: nat = if symbol == 16 {
                        2
                    } else if symbol == 17 {
                        3
                    } else {
                        7
                    };
                    let base: nat = if symbol == 18 {
                        11
                    } else {
                        3
                    };
                    let value = if symbol == 16 {
                        lens.last()
                    } else {
                        0u8
                    };
                    match extra_at(data, next, bits) {
                        Err(e) => Err(e),
                        Ok((extra, after)) => if lens.len() + base + extra > total {
                            Err(Error::TooManyCodeLengths)
                        } else {
                            proof {
                                meta.lemma_decode_advances(data, pos, 1);
                            }
                            code_lengths_from(
                                meta,
                                data,
                                after,
                                repeated(lens, value, base + extra),
                                total,
                            )
                        },
                    }
                }
            },
        }
    }
}

/// The two tables that the code lengths `lens` define, the first `hlit` of them for the
/// literal/length alphabet and the others for the distances.
pub open spec fn tables_of_lengths(lens: Seq<u8>, hlit: nat) -> Result<BlockTables, Error> {
    let lit_pairs = lit_len_pairs(lens.subrange(0, hlit as int));
    let dist_pairs = byte_pairs(lens.subrange(hlit as int, lens.len() as int));
    if lit_pairs.len() == 0 {
        Err(Error::BadHuffmanData)
    } else {
        Ok(
            BlockTables {
                lit_len: canonical_table(lit_pairs),
                dist: if dist_pairs.len() == 0 {
                    None
                } else {
                    Some(canonical_table(dist_pairs))
                },
            },
        )
    }
}

/// The tables that are stored from `pos` on, and the position behind them.
///
/// First come the number of literal/length codes less 257 (5 bits), the number of
/// distance codes less 1 (5 bits) and the number of stored code-length lengths less 4
/// (4 bits); then those lengths; then, coded with the code they define, the lengths of
/// the literal/length codes and of the distance codes, as one sequence.
#[verifier::opaque]
pub open spec fn dynamic_tables_at(data: Seq<u8>, pos: nat) -> Result<(BlockTables, nat), Error> {
    if pos + 14 > bit_count(data) {
        Err(Error::UnexpectedEofInBits)
    } else {
        let hlit = bits_value(data, pos, 5) + 257;
        let hdist = bits_value(data, pos + 5, 5) + 1;
        let hclen = bits_value(data, pos + 10, 4) + 4;
        if pos + 14 + 3 * hclen > bit_count(data) {
            Err(Error::UnexpectedEofInBits)
        } else {
            let meta_pairs = byte_pairs(meta_lengths(data, pos + 14, hclen));
            if meta_pairs.len() == 0 {
                Err(Error::BadHuffmanData)
            } else {
                match code_lengths_from(
                    canonical_table(meta_pairs),
                    data,
                    pos + 14 + 3 * hclen,
                    Seq::empty(),
                    hlit + hdist,
                ) {
                    Err(e) => Err(e),
                    Ok((lens, next)) => match tables_of_lengths(lens, hlit) {
                        Err(e) => Err(e),
                        Ok(tables) => Ok((tables, next)),
                    },
                }
            }
        }
    }
}

/// Decoded code lengths are `total` many and none is above 15, and they end within the
/// data. Where they cannot be decoded, the error names a defect of the data.
#[verifier::rlimit(50)]
pub proof fn lemma_code_lengths_from(
    meta: TableModel<u8>,
    data: Seq<u8>,
    pos: nat,
    lens: Seq<u8>,
    total: nat,
)
    requires
        bounded_lengths(lens),
        lens.len() <= total,
        pos <= bit_count(data),
    ensures
        match code_lengths_from(meta, data, pos, lens, total) {
            Ok((all, next)) => all.len() == total && bounded_lengths(all) && pos <= next
                <= bit_count(data),
            Err(e) => e.is_data_error(),
        },
    decreases bit_count(data) - pos,
{
    if lens.len() < total {
        meta.lemma_decode_advances(data, pos, 1);
        match meta.decode_at(data, pos) {
            Err(e) => {},
            Ok((symbol, next)) => {
                if symbol <= 15 {
                    lemma_code_lengths_from(meta, data, next, lens.push(symbol), total);
                } else if symbol > 18 {
                } else if symbol == 16 && lens.len() == 0 {
                } else {
                    let bits: nat = if symbol == 16 {
                        2
                    } else if symbol == 17 {
                        3
                    } else {
                        7
                    };
                    let base: nat = if symbol == 18 {
                        11
                    } else {
                        3
                    };
                    let value = if symbol == 16 {
                        lens.last()
                    } else {
                        0u8
                    };
                    match extra_at(data, next, bits) {
                        Err(e) => {},
                        Ok((extra, after)) => {
                            if lens.len() + base + extra <= total {
                                lemma_code_lengths_from(
                                    meta,
                                    data,
                                    after,
                                    repeated(lens, value, base + extra),
                                    total,
                                );
                            }
                        },
                    }
                }
            },
        }
    }
}

/// Stored tables end within the data, at least 14 bits after they begin. Where they
/// cannot be read, the error names a defect of the data.
pub proof fn lemma_dynamic_tables_position(data: Seq<u8>, pos: nat)
    ensures
        match dynamic_tables_at(data, pos) {
            Ok((_, next)) => pos + 14 <= next <= bit_count(data),
            Err(e) => e.is_data_error(),
        },
{
    reveal(dynamic_tables_at);
    if pos + 14 <= bit_count(data) {
        let hlit = bits_value(data, pos, 5) + 257;
        let hdist = bits_value(data, pos + 5, 5) + 1;
        let hclen = bits_value(data, pos + 10, 4) + 4;
        if pos + 14 + 3 * hclen <= bit_count(data) {
            let meta_pairs = byte_pairs(meta_lengths(data, pos + 14, hclen));
            lemma_code_lengths_from(
                canonical_table(meta_pairs),
                data,
                pos + 14 + 3 * hclen,
                Seq::empty(),
                hlit + hdist,
            );
        }
    }
}

/// The lengths of the code-length alphabet that lie within `data` stay when more bytes
/// follow `data`.
pub proof fn lemma_meta_lengths_stable(data: Seq<u8>, more: Seq<u8>, pos: nat, count: nat)
    requires
        pos + 3 * count <= bit_count(data),
    ensures
        meta_lengths(data + more, pos, count) == meta_lengths(data, pos, count),
    decreases count,
{
    if count > 0 {
        lemma_meta_lengths_stable(data, more, pos, (count - 1) as nat);
        lemma_bits_value_prefix(data, more, (pos + 3 * (count - 1)) as nat, 3);
    }
}

/// Code lengths decoded from the data that has arrived stay when more arrives, and so
/// does the verdict that they cannot be decoded, unless that says that the data ended
/// too early.
#[verifier::rlimit(50)]
pub proof fn lemma_code_lengths_stable(
    meta: TableModel<u8>,
    data: Seq<u8>,
    more: Seq<u8>,
    pos: nat,
    lens: Seq<u8>,
    total: nat,
)
    ensures
        is_final(code_lengths_from(meta, data, pos, lens, total)) ==> code_lengths_from(
            meta,
            data + more,
            pos,
            lens,
            total,
        ) == code_lengths_from(meta, data, pos, lens, total),
    decreases bit_count(data) - pos,
{
    if lens.len() < total {
        meta.lemma_decode_advances(data, pos, 1);
        meta.lemma_decode_stable(data, more, pos, 1);
        match meta.decode_at(data, pos) {
            Err(e) => {},
            Ok((symbol, next)) => {
                if symbol <= 15 {
                    lemma_code_lengths_stable(meta, data, more, next, lens.push(symbol), total);
                } else if symbol > 18 {
                } else if symbol == 16 && lens.len() == 0 {
                } else {
                    let bits: nat = if symbol == 16 {
                        2
                    } else if symbol == 17 {
                        3
                    } else {
                        7
                    };
                    let base: nat = if symbol == 18 {
                        11
                    } else {
                        3
                    };
                    let value = if symbol == 16 {
                        lens.last()
                    } else {
                        0u8
                    };
                    lemma_extra_stable(data, more, next, bits);
                    match extra_at(data, next, bits) {
                        Err(e) => {},
                        Ok((extra, after)) => {
                            if lens.len() + base + extra <= total {
                                lemma_code_lengths_stable(
                                    meta,
                                    data,
                                    more,
                                    after,
                                    repeated(lens, value, base + extra),
                                    total,
                                );
                            }
                        },
                    }
                }
            },
        }
    }
}

/// Tables read from the data that has arrived stay when more arrives, and so does the
/// verdict that they cannot be read, unless that says that the data ended too early.
pub proof fn lemma_dynamic_tables_stable(data: Seq<u8>, more: Seq<u8>, pos: nat)
    ensures
        is_final(dynamic_tables_at(data, pos)) ==> dynamic_tables_at(data + more, pos)
            == dynamic_tables_at(data, pos),
{
    reveal(dynamic_tables_at);
    if pos + 14 <= bit_count(data) {
        lemma_bits_value_prefix(data, more, pos, 5);
        lemma_bits_value_prefix(data, more, pos + 5, 5);
        lemma_bits_value_prefix(data, more, pos + 10, 4);
        let hlit = bits_value(data, pos, 5) + 257;
        let hdist = bits_value(data, pos + 5, 5) + 1;
        let hclen = bits_value(data, pos + 10, 4) + 4;
        if pos + 14 + 3 * hclen <= bit_count(data) {
            lemma_meta_lengths_stable(data, more, pos + 14, hclen);
            let meta_pairs = byte_pairs(meta_lengths(data, pos + 14, hclen));
            lemma_code_lengths_stable(
                canonical_table(meta_pairs),
                data,
                more,
                pos + 14 + 3 * hclen,
                Seq::empty(),
                hlit + hdist,
            );
        }
    }
}

/// Reads the lengths of the code-length alphabet: `count` of them, three bits each.
fn read_meta_lengths(inner: &mut BitRead, count: u8) -> (result: Result<Vec<u8>, Error>)
    requires
        old(inner).wf(),
        4 <= count <= 19,
    ensures
        final(inner).wf(),
        final(inner).same_stream(*old(inner)),
        match result {
            Ok(lens) => {
                &&& old(inner).bit_position() + 3 * count <= bit_count(old(inner).bytes())
                &&& final(inner).bit_position() == old(inner).bit_position() + 3 * count
                &&& lens@ == meta_lengths(
                    old(inner).bytes(),
                    old(inner).bit_position(),
                    count as nat,
                )
                &&& bounded_lengths(lens@)
                &&& lens@.len() == 19
            },
            Err(e) => {
                &&& e == Error::UnexpectedEofInBits
                &&& old(inner).bit_position() + 3 * count > bit_count(old(inner).bytes())
            },
        },
{
    let ghost data = inner.bytes();
    let ghost start = inner.bit_position();
    // This table contains the code length of each decoding command.
    let mut decoding_codes: Vec<u8> = Vec::new();
    while decoding_codes.len() < 19
        invariant
            decoding_codes@.len() <= 19,
            decoding_codes@ =~= Seq::new(decoding_codes@.len(), |i: int| 0u8),
        decreases 19 - decoding_codes@.len(),
    {
        decoding_codes.push(0);
    }
    proof {
        inner.lemma_position();
        assert(decoding_codes@ =~= meta_lengths(data, start, 0));
    }
    let mut k: u8 = 0;
    while k < count
        invariant
            k <= count <= 19,
            start + 3 * k <= bit_count(data),
            inner.wf(),
            data == old(inner).bytes(),
            start == old(inner).bit_position(),
            inner.same_stream(*old(inner)),
            inner.bit_position() == start + 3 * k,
            decoding_codes@ == meta_lengths(data, start, k as nat),
            decoding_codes@.len() == 19,
            bounded_lengths(decoding_codes@),
        decreases count - k,
    {
        let slot = CODE_LENGTH_ORDER[k as usize];
        let length = match inner.read(3) {
            Ok(value) => value,
            Err(e) => {
                return Err(e);
            },
        };
        proof {
            lemma_bits_value_bound(data, (start + 3 * k) as nat, 3);
            lemma2_to64();
        }
        decoding_codes[slot as usize] = length;
        k += 1;
    }
    Ok(decoding_codes)
}

/// Reads code lengths with the code `meta` until there are `total` of them.
#[verifier::rlimit(50)]
fn read_code_lengths(meta: &HuffmanTable<u8>, inner: &mut BitRead, total: usize) -> (result:
    Result<Vec<u8>, Error>)
    requires
        meta.wf(),
        old(inner).wf(),
        total <= 1024,
    ensures
        final(inner).wf(),
        final(inner).same_stream(*old(inner)),
        match result {
            Ok(lens) => code_lengths_from(
                meta@,
                old(inner).bytes(),
                old(inner).bit_position(),
                Seq::empty(),
                total as nat,
            ) == Ok::<(Seq<u8>, nat), Error>((lens@, final(inner).bit_position())),
            Err(e) => code_lengths_from(
                meta@,
                old(inner).bytes(),
                old(inner).bit_position(),
                Seq::empty(),
                total as nat,
            ) == Err::<(Seq<u8>, nat), Error>(e),
        },
{
    let ghost data = inner.bytes();
    let ghost start = inner.bit_position();
    let mut result: Vec<u8> = Vec::new();
    while result.len() < total
        invariant
            meta.wf(),
            inner.wf(),
            total <= 1024,
            data == old(inner).bytes(),
            start == old(inner).bit_position(),
            inner.same_stream(*old(inner)),
            result@.len() <= total,
            code_lengths_from(meta@, data, start, Seq::empty(), total as nat) == code_lengths_from(
                meta@,
                data,
                inner.bit_position(),
                result@,
                total as nat,
            ),
        decreases bit_count(data) - inner.bit_position(),
    {
        let ghost pos = inner.bit_position();
        let ghost before = result@;
        proof {
            meta@.lemma_decode_advances(data, pos, 1);
        }
        let symbol = meta.decode(inner)?;
        if symbol <= 15 {
            result.push(symbol);
        } else if symbol > 18 {
            return Err(Error::BadHuffmanData);
        } else if symbol == 16 && result.len() == 0 {
            return Err(Error::NoPreviousLength);
        } else {
            let bits: u8 = if symbol == 16 {
                2
            } else if symbol == 17 {
                3
            } else {
                7
            };
            let base: usize = if symbol == 18 {
                11
            } else {
                3
            };
            let value: u8 = if symbol == 16 {
                result[result.len() - 1]
            } else {
                0
            };
            let ghost next = inner.bit_position();
            let extra = read_extra(inner, bits)?;
            proof {
                lemma_bits_value_bound(data, next, bits as nat);
                lemma2_to64();
            }
            let count = base + extra as usize;
            if result.len() + count > total {
                return Err(Error::TooManyCodeLengths);
            }
            let mut done: usize = 0;
            while done < count
                invariant
                    done <= count,
                    result@ == repeated(before, value, done as nat),
                decreases count - done,
            {
                result.push(value);
                done += 1;
                proof {
                    assert(result@ =~= repeated(before, value, done as nat));
                }
            }
        }
    }
    Ok(result)
}

/// Reads dynamic tables from the input stream.
///
/// On success the reader stands behind the tables. A set of code lengths without any
/// code for the code lengths themselves, or for the literal/length alphabet, is bad data.
#[verifier::rlimit(50)]
pub fn read_dynamic_tables(inner: &mut BitRead) -> (result: Result<
    (HuffmanTable<LitLenSymbol>, Option<HuffmanTable<u8>>),
    Error,
>)
    requires
        old(inner).wf(),
    ensures
        final(inner).wf(),
        final(inner).same_stream(*old(inner)),
        match result {
            Ok((lit_len, dist)) => {
                &&& dynamic_tables_at(old(inner).bytes(), old(inner).bit_position()) == Ok::<
                    (BlockTables, nat),
                    Error,
                >(
                    (
                        BlockTables {
                            lit_len: lit_len@,
                            dist: match dist {
                                Some(table) => Some(table@),
                                None => None,
                            },
                        },
                        final(inner).bit_position(),
                    ),
                )
                &&& lit_len.wf()
                &&& match dist {
                    Some(table) => table.wf(),
                    None => true,
                }
            },
            Err(e) => dynamic_tables_at(old(inner).bytes(), old(inner).bit_position()) == Err::<
                (BlockTables, nat),
                Error,
            >(e),
        },
{
    let ghost data = inner.bytes();
    let ghost start = inner.bit_position();
    proof {
        reveal(dynamic_tables_at);
        lemma_bits_value_bound(data, start, 5);
        lemma_bits_value_bound(data, start + 5, 5);
        lemma_bits_value_bound(data, start + 10, 4);
        lemma2_to64();
    }
    // the dynamic tables start with the number of elements that are following
    let hlit = match inner.read(5) {
        Ok(value) => value as usize + 257,
        Err(e) => {
            return Err(e);
        },
    };
    let hdist = match inner.read(5) {
        Ok(value) => value as usize + 1,
        Err(e) => {
            return Err(e);
        },
    };
    let hclen = match inner.read(4) {
        Ok(value) => value + 4,
        Err(e) => {
            return Err(e);
        },
    };

    // The lengths of the two tables are themselves coded with a prefix code. Its table
    // comes first and we are going to read it now.
    let decoding_codes = read_meta_lengths(inner, hclen)?;
    let meta_pairs = collect_byte_pairs(decoding_codes.as_slice());
    if meta_pairs.len() == 0 {
        return Err(Error::BadHuffmanData);
    }
    proof {
        lemma_byte_pairs_valid(decoding_codes@);
    }
    let decoding_table = match HuffmanTable::from_lengths(meta_pairs.as_slice()) {
        Ok(table) => table,
        Err(e) => {
            return Err(e);
        },
    };

    // Now that we have the decoding table, we can decode the lengths of the two real
    // tables with it, as one sequence.
    proof {
        lemma_code_lengths_from(
            decoding_table@,
            data,
            inner.bit_position(),
            Seq::empty(),
            (hlit + hdist) as nat,
        );
    }
    let lens = read_code_lengths(&decoding_table, inner, hlit + hdist)?;
    let lit_lens = slice_subrange(lens.as_slice(), 0, hlit);
    let dist_lens = slice_subrange(lens.as_slice(), hlit, lens.len());
    proof {
        assert forall|i: int| 0 <= i < lit_lens@.len() implies #[trigger] lit_lens@[i]
            <= MAX_BITS by {
            assert(lit_lens@[i] == lens@[i]);
        }
        assert forall|i: int| 0 <= i < dist_lens@.len() implies #[trigger] dist_lens@[i]
            <= MAX_BITS by {
            assert(dist_lens@[i] == lens@[i + hlit]);
        }
        lemma_lit_len_pairs_valid(lit_lens@);
        lemma_byte_pairs_valid(dist_lens@);
    }
    let lit_pairs = collect_lit_len_pairs(lit_lens);
    let dist_pairs = collect_byte_pairs(dist_lens);
    if lit_pairs.len() == 0 {
        return Err(Error::BadHuffmanData);
    }
    let lit_len_table = match HuffmanTable::from_lengths(lit_pairs.as_slice()) {
        Ok(table) => table,
        Err(e) => {
            return Err(e);
        },
    };
    let dist_table = if dist_pairs.len() == 0 {
        None
    } else {
        match HuffmanTable::from_lengths(dist_pairs.as_slice()) {
            Ok(table) => Some(table),
            Err(e) => {
                return Err(e);
            },
        }
    };
    Ok((lit_len_table, dist_table))
}

} // verus!
