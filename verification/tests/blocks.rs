use flate3::alphabet::LitLenSymbol;
use flate3::bit::BitRead;
use flate3::compressed_block_reader::{read_behind, CompressedBlockReader, Step};
use flate3::huffman::HuffmanTable;
use flate3::dynamic_tables::read_dynamic_tables;
use flate3::inflate::Inflater;
use flate3::{ByteSource, Error};

/// Writes bits into bytes, the first bit lowest.
struct BitWriter {
    bytes: Vec<u8>,
    used: u8,
}

impl BitWriter {
    fn new() -> BitWriter {
        BitWriter { bytes: Vec::new(), used: 0 }
    }

    fn bit(&mut self, bit: u32) {
        if self.used == 0 {
            self.bytes.push(0);
        }
        let last = self.bytes.len() - 1;
        self.bytes[last] |= ((bit & 1) as u8) << self.used;
        self.used = (self.used + 1) % 8;
    }

    /// A number of `count` bits, lowest bit first.
    fn bits(&mut self, value: u32, count: u8) {
        for i in 0..count {
            self.bit(value >> i);
        }
    }

    /// A code of `len` bits, highest bit first.
    fn code(&mut self, code: u32, len: u8) {
        for i in (0..len).rev() {
            self.bit(code >> i);
        }
    }

    /// A symbol of the fixed literal/length code.
    fn fixed(&mut self, symbol: u32) {
        if symbol <= 143 {
            self.code(0x30 + symbol, 8);
        } else if symbol <= 255 {
            self.code(0x190 + symbol - 144, 9);
        } else if symbol <= 279 {
            self.code(symbol - 256, 7);
        } else {
            self.code(0xc0 + symbol - 280, 8);
        }
    }

    fn align(&mut self) {
        self.used = 0;
    }

    /// A whole stored block.
    fn stored(&mut self, last: bool, payload: &[u8]) {
        self.bits(last as u32, 1);
        self.bits(0, 2);
        self.align();
        let len = payload.len() as u16;
        self.bytes.push(len as u8);
        self.bytes.push((len >> 8) as u8);
        self.bytes.push(!len as u8);
        self.bytes.push((!len >> 8) as u8);
        self.bytes.extend_from_slice(payload);
    }

    /// The header of a block with codes of its own, in which every symbol of the
    /// code-length alphabet has 5 bits, so that the code of a symbol is its number.
    fn dynamic_header(&mut self, last: bool, hlit: u32, hdist: u32) {
        self.bits(last as u32, 1);
        self.bits(2, 2);
        self.bits(hlit - 257, 5);
        self.bits(hdist - 1, 5);
        self.bits(19 - 4, 4);
        for _ in 0..19 {
            self.bits(5, 3);
        }
    }
}

fn read_to_end(inflater: &mut Inflater, chunk: usize) -> Result<Vec<u8>, Error> {
    let mut output = Vec::new();
    let mut buf = vec![0u8; chunk];
    loop {
        let n = inflater.read(&mut buf)?;
        if n == 0 {
            return Ok(output);
        }
        output.extend_from_slice(&buf[..n]);
    }
}

fn inflate(data: Vec<u8>, chunk: usize) -> Result<Vec<u8>, Error> {
    read_to_end(&mut Inflater::new(ByteSource::new(data)), chunk)
}

/// Some bytes without an obvious pattern.
fn noise(len: usize) -> Vec<u8> {
    let mut state: u32 = 12345;
    (0..len)
        .map(|_| {
            state = state.wrapping_mul(1103515245).wrapping_add(12345);
            (state >> 16) as u8
        })
        .collect()
}

#[test]
fn empty_stored_block() {
    assert_eq!(inflate(vec![0x01, 0x00, 0x00, 0xff, 0xff], 16).unwrap(), b"");
}

#[test]
fn empty_stored_blocks_in_a_row() {
    let mut w = BitWriter::new();
    w.stored(false, b"");
    w.stored(false, b"");
    w.stored(false, b"ab");
    w.stored(false, b"");
    w.stored(true, b"");
    assert_eq!(inflate(w.bytes, 16).unwrap(), b"ab");
}

#[test]
fn largest_stored_block() {
    let payload = noise(65535);
    let mut data = vec![0x01, 0xff, 0xff, 0x00, 0x00];
    data.extend_from_slice(&payload);
    assert_eq!(inflate(data.clone(), 1000).unwrap(), payload);
    assert_eq!(inflate(data, 100000).unwrap(), payload);
}

#[test]
fn stored_block_is_read_in_pieces() {
    let data = vec![0x01, 5, 0, 0xfa, 0xff, b'h', b'e', b'l', b'l', b'o'];
    let mut inflater = Inflater::new(ByteSource::new(data));
    let mut buf = [0u8; 3];
    assert_eq!(inflater.read(&mut buf), Ok(3));
    assert_eq!(&buf, b"hel");
    assert_eq!(inflater.read(&mut buf), Ok(2));
    assert_eq!(&buf, b"lol");
    assert_eq!(inflater.read(&mut buf), Ok(0));
    assert_eq!(inflater.read(&mut buf), Ok(0));
}

#[test]
fn truncated_stored_block() {
    let data = vec![0x01, 5, 0, 0xfa, 0xff, b'h', b'e', b'l'];
    let mut inflater = Inflater::new(ByteSource::new(data));
    let mut buf = [0u8; 16];
    assert_eq!(inflater.read(&mut buf), Ok(3));
    assert_eq!(inflater.read(&mut buf), Err(Error::UnexpectedEofInBlock));
    assert_eq!(inflater.read(&mut buf), Err(Error::Poisoned));
}

#[test]
fn truncated_stored_header() {
    assert_eq!(inflate(vec![0x01, 5, 0, 0xfa], 16), Err(Error::UnexpectedEof));
}

#[test]
fn bad_nlen() {
    let data = vec![0x01, 5, 0, 0xfb, 0xff, b'h', b'e', b'l', b'l', b'o'];
    assert_eq!(inflate(data, 16), Err(Error::LengthMismatch));
}

#[test]
fn reserved_block_type() {
    assert_eq!(inflate(vec![0x07], 16), Err(Error::ReservedBlockType));
}

#[test]
fn no_data_at_all() {
    assert_eq!(inflate(vec![], 16), Err(Error::UnexpectedEofInBits));
}

#[test]
fn run_of_one_byte() {
    // a literal, then a back-reference of 258 bytes at distance 1
    let data = vec![0x4b, 0x4c, 0x1c, 0xf1, 0x00, 0x00];
    let expected = vec![b'a'; 259];
    assert_eq!(inflate(data.clone(), 1024).unwrap(), expected);
    // the copy is taken up again where a short buffer cut it
    assert_eq!(inflate(data.clone(), 100).unwrap(), expected);
    assert_eq!(inflate(data, 1).unwrap(), expected);
}

#[test]
fn run_written_by_hand() {
    let mut w = BitWriter::new();
    w.bits(1, 1);
    w.bits(1, 2);
    w.fixed(b'x' as u32);
    w.fixed(b'y' as u32);
    w.fixed(285); // length 258
    w.code(1, 5); // distance 2
    w.fixed(256);
    let mut expected = Vec::new();
    for i in 0..260 {
        expected.push(if i % 2 == 0 { b'x' } else { b'y' });
    }
    assert_eq!(inflate(w.bytes, 7).unwrap(), expected);
}

#[test]
fn every_byte_is_the_one_distance_before() {
    let mut w = BitWriter::new();
    w.bits(1, 1);
    w.bits(1, 2);
    for &b in b"abcde" {
        w.fixed(b as u32);
    }
    w.fixed(265); // length 11 + 1 extra bit
    w.bits(1, 1); // length 12
    w.code(2, 5); // distance 3
    w.fixed(256);
    let output = inflate(w.bytes, 4).unwrap();
    assert_eq!(output, b"abcdecdecdecdecde");
    for i in 5..output.len() {
        assert_eq!(output[i], output[i - 3]);
    }
}

#[test]
fn distance_too_far() {
    let mut w = BitWriter::new();
    w.bits(1, 1);
    w.bits(1, 2);
    w.fixed(b'a' as u32);
    w.fixed(257); // length 3
    w.code(1, 5); // distance 2
    w.fixed(256);
    assert_eq!(inflate(w.bytes, 16), Err(Error::DistanceTooFar));
}

#[test]
fn invalid_length_code() {
    let mut w = BitWriter::new();
    w.bits(1, 1);
    w.bits(1, 2);
    w.fixed(b'a' as u32);
    w.fixed(286);
    w.code(0, 5);
    w.fixed(256);
    assert_eq!(inflate(w.bytes, 16), Err(Error::InvalidLengthCode));
}

#[test]
fn fixed_distance_code_has_thirty_symbols() {
    let mut w = BitWriter::new();
    w.bits(1, 1);
    w.bits(1, 2);
    w.fixed(b'a' as u32);
    w.fixed(257);
    w.code(30, 5);
    w.fixed(256);
    assert_eq!(inflate(w.bytes, 16), Err(Error::BadHuffmanData));
}

#[test]
fn longest_distance_across_a_trimmed_window() {
    // 90000 stored bytes, then a back-reference of 258 bytes at distance 32768
    let payload = noise(90000);
    let mut w = BitWriter::new();
    w.stored(false, &payload[..30000]);
    w.stored(false, &payload[30000..60000]);
    w.stored(false, &payload[60000..]);
    w.bits(1, 1);
    w.bits(1, 2);
    w.fixed(285); // length 258
    w.code(29, 5); // distance 24577 + 13 extra bits
    w.bits(8191, 13); // distance 32768
    w.fixed(b'!' as u32);
    w.fixed(264); // length 10
    w.code(0, 5); // distance 1
    w.fixed(256);
    let mut expected = payload.clone();
    for i in 0..258 {
        expected.push(payload[90000 - 32768 + i]);
    }
    expected.extend_from_slice(&[b'!'; 11]);
    assert_eq!(inflate(w.bytes.clone(), 4096).unwrap(), expected);
    assert_eq!(inflate(w.bytes.clone(), 70000).unwrap(), expected);
    assert_eq!(inflate(w.bytes, 1 << 20).unwrap(), expected);
}

#[test]
fn truncated_compressed_block() {
    let data = vec![0x73, 0x49, 0x4d, 0xcb, 0x49, 0x2c];
    let mut inflater = Inflater::new(ByteSource::new(data));
    let mut buf = [0u8; 4];
    assert_eq!(inflater.read(&mut buf), Ok(4));
    assert_eq!(&buf, b"Defl");
    // the bytes decoded before the data ran out are lost with the failed read
    assert_eq!(inflater.read(&mut buf), Err(Error::UnexpectedEofInBits));
    assert_eq!(inflater.read(&mut buf), Err(Error::Poisoned));
}

#[test]
fn dynamic_block_written_by_hand() {
    let mut w = BitWriter::new();
    w.dynamic_header(true, 286, 30);
    // every literal/length symbol has 9 bits, every distance symbol 5 bits
    for _ in 0..286 {
        w.code(9, 5);
    }
    for _ in 0..30 {
        w.code(5, 5);
    }
    w.code(b'h' as u32, 9);
    w.code(b'o' as u32, 9);
    w.code(257, 9); // length 3
    w.code(0, 5); // distance 1
    w.code(256, 9);
    assert_eq!(inflate(w.bytes, 16).unwrap(), b"hoooo");
}

#[test]
fn dynamic_block_with_zero_lengths() {
    // only `a`, `b`, the end of the block and one length symbol have a code; the symbols
    // keep their place in the alphabet
    let mut w = BitWriter::new();
    w.dynamic_header(true, 258, 1);
    w.code(18, 5);
    w.bits(97 - 11, 7); // 97 zeros
    w.code(2, 5); // a
    w.code(2, 5); // b
    w.code(18, 5);
    w.bits(138 - 11, 7); // 138 zeros: 99..=236
    w.code(17, 5);
    w.bits(10 - 3, 3); // 10 zeros: 237..=246
    w.code(17, 5);
    w.bits(9 - 3, 3); // 9 zeros: 247..=255
    w.code(2, 5); // end of block
    w.code(2, 5); // length 3
    w.code(1, 5); // the one distance symbol
    // a = 00, b = 01, end = 10, length 3 = 11; distance 1 = 0
    w.code(0, 2);
    w.code(1, 2);
    w.code(3, 2);
    w.code(0, 1);
    w.code(2, 2);
    assert_eq!(inflate(w.bytes, 16).unwrap(), b"abbbb");
}

#[test]
fn repeat_crosses_from_lengths_to_distances() {
    let mut w = BitWriter::new();
    w.dynamic_header(true, 257, 4);
    for _ in 0..255 {
        w.code(9, 5);
    }
    w.code(3, 5); // symbol 255
    w.code(16, 5);
    w.bits(5 - 3, 2); // five more of length 3: the end of the block and four distances
    // the two codes of length 3 are 000 and 001; those of length 9 start at 010000000
    w.code(0, 3);
    w.code(128 + 65, 9);
    w.code(1, 3);
    assert_eq!(inflate(w.bytes, 16).unwrap(), [255, 65]);
}

#[test]
fn only_large_runs_of_zeros() {
    // 258 code lengths, all of them zero, made of two runs: there is no code at all
    let mut w = BitWriter::new();
    w.bits(1, 1);
    w.bits(2, 2);
    w.bits(0, 5);
    w.bits(0, 5);
    w.bits(0, 4);
    // the lengths of the symbols 16, 17, 18 and 0: only 18 has a code
    w.bits(0, 3);
    w.bits(0, 3);
    w.bits(1, 3);
    w.bits(0, 3);
    w.code(0, 1);
    w.bits(138 - 11, 7);
    w.code(0, 1);
    w.bits(120 - 11, 7);
    assert_eq!(inflate(w.bytes, 16), Err(Error::BadHuffmanData));
}

#[test]
fn repeat_without_a_length_before() {
    let mut w = BitWriter::new();
    w.dynamic_header(true, 257, 1);
    w.code(16, 5);
    w.bits(0, 2);
    assert_eq!(inflate(w.bytes, 16), Err(Error::NoPreviousLength));
}

#[test]
fn repeat_past_the_last_length() {
    let mut w = BitWriter::new();
    w.dynamic_header(true, 257, 1);
    w.code(18, 5);
    w.bits(138 - 11, 7);
    w.code(18, 5);
    w.bits(138 - 11, 7);
    assert_eq!(inflate(w.bytes, 16), Err(Error::TooManyCodeLengths));
}

#[test]
fn invalid_distance_code() {
    let mut w = BitWriter::new();
    w.dynamic_header(true, 286, 32);
    for _ in 0..286 {
        w.code(9, 5);
    }
    for _ in 0..32 {
        w.code(5, 5);
    }
    w.code(b'a' as u32, 9);
    w.code(257, 9);
    w.code(30, 5);
    assert_eq!(inflate(w.bytes, 16), Err(Error::InvalidDistanceCode));
}

#[test]
fn literals_without_distance_codes() {
    // the one distance length is zero: the block can hold literals only
    let mut w = BitWriter::new();
    w.dynamic_header(true, 258, 1);
    for _ in 0..258 {
        w.code(9, 5);
    }
    w.code(0, 5);
    w.code(b'o' as u32, 9);
    w.code(b'k' as u32, 9);
    w.code(256, 9);
    assert_eq!(inflate(w.bytes, 16).unwrap(), b"ok");

    let mut w = BitWriter::new();
    w.dynamic_header(true, 258, 1);
    for _ in 0..258 {
        w.code(9, 5);
    }
    w.code(0, 5);
    w.code(b'o' as u32, 9);
    w.code(257, 9);
    assert_eq!(inflate(w.bytes, 16), Err(Error::BadHuffmanData));
}

#[test]
fn dynamic_tables_are_read_from_the_bits() {
    let mut w = BitWriter::new();
    w.dynamic_header(true, 257, 2);
    for _ in 0..257 {
        w.code(9, 5);
    }
    w.code(1, 5);
    w.code(1, 5);
    w.code(65, 9);
    // skip the three bits of the block header
    let mut bits = BitRead::new(ByteSource::new(w.bytes));
    assert_eq!(bits.read(3), Ok(0b101));
    let (lit_len, dist) = read_dynamic_tables(&mut bits).unwrap();
    let dist = dist.unwrap();
    assert_eq!(dist.entry(0), Some((1, 0)));
    assert_eq!(dist.entry(1), Some((1, 1)));
    assert_eq!(dist.entry(2), None);
    assert!(matches!(lit_len.entry(65), Some((9, LitLenSymbol::Byte(65)))));
    assert!(matches!(lit_len.entry(256), Some((9, LitLenSymbol::Eof))));
    assert_eq!(lit_len.decode(&mut bits), Ok(LitLenSymbol::Byte(65)));
}

#[test]
fn read_behind_copies_from_both_sides() {
    let previous = [1u8, 2, 3, 4];
    let mut buf = [9u8, 8, 0, 0, 0, 0, 0, 0];
    // distance 5: the first byte copied is `2`, four bytes before the end of the cache
    assert_eq!(read_behind(5, 5, &previous, &mut buf, 2), Ok(5));
    assert_eq!(buf, [9, 8, 2, 3, 4, 9, 8, 0]);
}

#[test]
fn read_behind_stops_at_the_end_of_the_buffer() {
    let previous = [7u8];
    let mut buf = [0u8; 4];
    assert_eq!(read_behind(258, 1, &previous, &mut buf, 0), Ok(4));
    assert_eq!(buf, [7, 7, 7, 7]);
    assert_eq!(read_behind(258, 1, &previous, &mut buf, 4), Ok(0));
}

#[test]
fn read_behind_refuses_a_distance_out_of_reach() {
    let previous = [1u8, 2];
    let mut buf = [5u8, 0, 0, 0];
    assert_eq!(read_behind(3, 4, &previous, &mut buf, 1), Err(Error::DistanceTooFar));
    assert_eq!(read_behind(3, 0, &previous, &mut buf, 1), Err(Error::DistanceTooFar));
    assert_eq!(read_behind(3, 3, &previous, &mut buf, 1), Ok(3));
    assert_eq!(buf, [5, 1, 2, 5]);
}

#[test]
fn block_reader_steps() {
    let mut w = BitWriter::new();
    w.fixed(b'a' as u32);
    w.fixed(266); // length 13 + 1 extra bit
    w.bits(1, 1); // length 14
    w.code(4, 5); // distance 5 + 1 extra bit
    w.bits(1, 1); // distance 6
    w.fixed(256);
    let bits = BitRead::new(ByteSource::new(w.bytes));
    let mut reader = CompressedBlockReader::from_fixed_tables(bits);
    assert!(matches!(reader.decode_step(), Ok(Step::Literal(b'a'))));
    assert!(matches!(reader.decode_step(), Ok(Step::Copy { length: 14, distance: 6 })));
    assert!(matches!(reader.decode_step(), Ok(Step::EndOfBlock)));
}

#[test]
fn block_reader_reads_with_previous_data() {
    let mut w = BitWriter::new();
    w.fixed(257); // length 3
    w.code(2, 5); // distance 3
    w.fixed(b'!' as u32);
    w.fixed(256);
    w.bits(0b10110, 5);
    let bits = BitRead::new(ByteSource::new(w.bytes));
    let mut reader = CompressedBlockReader::from_fixed_tables(bits);
    let previous = *b"xyz";
    let mut buf = [0u8; 8];
    assert_eq!(reader.with_previous_data(&previous).read(&mut buf), Ok(4));
    assert_eq!(&buf[..4], b"xyz!");
    assert_eq!(reader.with_previous_data(&previous).read(&mut buf), Ok(0));
    // the bits behind the block are still there
    let mut bits = reader.into_inner();
    assert_eq!(bits.read(5), Ok(0b10110));
}

#[test]
fn block_reader_waits_for_the_rest_of_a_step() {
    let mut w = BitWriter::new();
    w.fixed(b'a' as u32);
    w.fixed(285); // length 258
    w.code(29, 5); // distance 24577 + 13 extra bits
    w.bits(0, 13);
    w.fixed(256);
    let bytes = w.bytes;
    // the back-reference takes the bits up to the middle of the fifth byte
    let bits = BitRead::new(ByteSource::partial(bytes[..3].to_vec()));
    let mut reader = CompressedBlockReader::from_fixed_tables(bits);
    assert!(!reader.is_complete());
    let previous = [0u8; 0];
    let mut buf = [0u8; 8];
    assert_eq!(reader.with_previous_data(&previous).read(&mut buf), Ok(1));
    assert_eq!(buf[0], b'a');
    assert!(!reader.is_eof());
    // nothing more can be decoded, and nothing is lost
    assert_eq!(reader.with_previous_data(&previous).read(&mut buf), Ok(0));
    assert!(!reader.is_eof());
    reader.feed(&bytes[3..]);
    // now the step is all there: it reaches back too far
    assert_eq!(
        reader.with_previous_data(&previous).read(&mut buf),
        Err(Error::DistanceTooFar)
    );
}

#[test]
fn block_reader_fails_at_the_end_of_a_complete_stream() {
    let mut w = BitWriter::new();
    w.fixed(b'a' as u32);
    w.fixed(b'b' as u32);
    let mut bytes = w.bytes;
    bytes.truncate(1);
    let bits = BitRead::new(ByteSource::partial(bytes));
    let mut reader = CompressedBlockReader::from_fixed_tables(bits);
    let previous = [0u8; 0];
    let mut buf = [0u8; 8];
    assert_eq!(reader.with_previous_data(&previous).read(&mut buf), Ok(1));
    reader.finish();
    assert!(reader.is_complete());
    assert_eq!(
        reader.with_previous_data(&previous).read(&mut buf),
        Err(Error::UnexpectedEofInBits)
    );
}

#[test]
fn block_reader_with_tables_of_its_own() {
    let lit_len = HuffmanTable::from_lengths(&[
        (LitLenSymbol::Byte(b'x'), 1),
        (LitLenSymbol::Byte(b'y'), 2),
        (LitLenSymbol::Eof, 2),
    ])
    .unwrap();
    // x = 0, y = 10, end = 11
    let bits = BitRead::new(ByteSource::new(vec![0b00_11_01_0_0]));
    assert_eq!(lit_len.entry(0), Some((1, LitLenSymbol::Byte(b'x'))));
    let mut reader = CompressedBlockReader::with_tables(bits, lit_len, None);
    let mut buf = [0u8; 8];
    assert_eq!(reader.with_previous_data(&[]).read(&mut buf), Ok(3));
    assert_eq!(&buf[..3], b"xxy");
    assert!(reader.is_eof());
}
