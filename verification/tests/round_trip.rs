use std::collections::HashMap;

use flate3::adler32::Adler32;
use flate3::alphabet::{DISTANCES, EXTRA_DISTANCES, EXTRA_LENGTHS, LENGTHS};
use flate3::{ByteSource, Error, ZlibDecoder};

/// Writes bits into bytes, the first bit lowest.
struct Bits {
    bytes: Vec<u8>,
    used: u8,
}

impl Bits {
    fn bit(&mut self, bit: u32) {
        if self.used == 0 {
            self.bytes.push(0);
        }
        let last = self.bytes.len() - 1;
        self.bytes[last] |= ((bit & 1) as u8) << self.used;
        self.used = (self.used + 1) % 8;
    }

    /// A number of `count` bits, lowest bit first.
    fn number(&mut self, value: u32, count: u8) {
        for i in 0..count {
            self.bit(value >> i);
        }
    }

    /// A code of `len` bits, highest bit first.
    fn code(&mut self, code: u32, len: u8) {
        for i in (0..len).rev() {
            self.bit(code >> i);
        }
    }
}

/// One step of a compressed block.
#[derive(Clone, Copy)]
enum Token {
    Literal(u8),
    Copy { length: usize, distance: usize },
}

/// Replaces what was seen before by back-references, wherever the last place that began
/// with the same three bytes goes on alike for at least three bytes.
fn tokens(data: &[u8]) -> Vec<Token> {
    let mut seen: HashMap<[u8; 3], usize> = HashMap::new();
    let mut out = Vec::new();
    let mut i = 0;
    while i < data.len() {
        let mut found = None;
        if i + 3 <= data.len() {
            let key = [data[i], data[i + 1], data[i + 2]];
            if let Some(&at) = seen.get(&key) {
                let distance = i - at;
                if distance <= 32768 {
                    let mut length = 0;
                    while length < 258 && i + length < data.len()
                        && data[at + length] == data[i + length]
                    {
                        length += 1;
                    }
                    found = Some(Token::Copy { length, distance });
                }
            }
        }
        let step = match found {
            Some(Token::Copy { length, .. }) => length,
            _ => 1,
        };
        for k in i..i + step {
            if k + 3 <= data.len() {
                seen.insert([data[k], data[k + 1], data[k + 2]], k);
            }
        }
        out.push(found.unwrap_or(Token::Literal(data[i])));
        i += step;
    }
    out
}

/// The index of the last base that is not above `value`.
fn index_of(bases: &[u16], value: usize) -> usize {
    bases.iter().rposition(|&base| base as usize <= value).unwrap()
}

/// How the symbols of a block are coded.
#[derive(Clone, Copy, PartialEq)]
enum Coding {
    /// With the fixed codes.
    Fixed,
    /// With codes of the block's own, in which every literal/length symbol has 9 bits and
    /// every distance symbol 5 bits.
    Flat,
}

fn symbol(bits: &mut Bits, coding: Coding, symbol: u32) {
    match coding {
        Coding::Flat => bits.code(symbol, 9),
        Coding::Fixed => {
            if symbol <= 143 {
                bits.code(0x30 + symbol, 8)
            } else if symbol <= 255 {
                bits.code(0x190 + symbol - 144, 9)
            } else if symbol <= 279 {
                bits.code(symbol - 256, 7)
            } else {
                bits.code(0xc0 + symbol - 280, 8)
            }
        }
    }
}

/// A compressed block that holds `tokens`.
fn compressed_block(bits: &mut Bits, last: bool, coding: Coding, tokens: &[Token]) {
    bits.number(last as u32, 1);
    match coding {
        Coding::Fixed => bits.number(1, 2),
        Coding::Flat => {
            bits.number(2, 2);
            bits.number(286 - 257, 5);
            bits.number(30 - 1, 5);
            bits.number(19 - 4, 4);
            // every symbol of the code-length alphabet has 5 bits: its code is its number
            for _ in 0..19 {
                bits.number(5, 3);
            }
            for _ in 0..286 {
                bits.code(9, 5);
            }
            for _ in 0..30 {
                bits.code(5, 5);
            }
        }
    }
    for &token in tokens {
        match token {
            Token::Literal(byte) => symbol(bits, coding, byte as u32),
            Token::Copy { length, distance } => {
                let l = index_of(&LENGTHS, length);
                symbol(bits, coding, 257 + l as u32);
                bits.number((length - LENGTHS[l] as usize) as u32, EXTRA_LENGTHS[l]);
                let d = index_of(&DISTANCES, distance);
                bits.code(d as u32, 5);
                bits.number((distance - DISTANCES[d] as usize) as u32, EXTRA_DISTANCES[d]);
            }
        }
    }
    symbol(bits, coding, 256);
}

/// A stored block that holds `payload`.
fn stored_block(bits: &mut Bits, last: bool, payload: &[u8]) {
    bits.number(last as u32, 1);
    bits.number(0, 2);
    bits.used = 0;
    let len = payload.len() as u16;
    bits.bytes.extend_from_slice(&[len as u8, (len >> 8) as u8, !len as u8, (!len >> 8) as u8]);
    bits.bytes.extend_from_slice(payload);
}

/// A zlib stream that holds `data`, in blocks of all three kinds by turns.
fn encode(data: &[u8], tokens_per_block: usize) -> Vec<u8> {
    let mut bits = Bits { bytes: vec![0x78, 0x9c], used: 0 };
    let all = tokens(data);
    let blocks: Vec<&[Token]> = all.chunks(tokens_per_block).collect();
    let mut at = 0;
    for (i, block) in blocks.iter().enumerate() {
        let last = i + 1 == blocks.len();
        let len: usize = block
            .iter()
            .map(|token| match token {
                Token::Literal(_) => 1,
                Token::Copy { length, .. } => *length,
            })
            .sum();
        match i % 3 {
            0 => compressed_block(&mut bits, last, Coding::Fixed, block),
            1 => compressed_block(&mut bits, last, Coding::Flat, block),
            _ if len <= 65535 => stored_block(&mut bits, last, &data[at..at + len]),
            _ => compressed_block(&mut bits, last, Coding::Fixed, block),
        }
        at += len;
    }
    if blocks.is_empty() {
        stored_block(&mut bits, true, b"");
    }
    let mut hasher = Adler32::new();
    hasher.feed(data);
    let sum = hasher.checksum();
    bits.bytes.extend_from_slice(&sum.to_be_bytes());
    bits.bytes
}

/// Decodes `data` as it arrives in pieces of `piece` bytes, through a buffer of `chunk`
/// bytes.
fn decode(data: &[u8], piece: usize, chunk: usize) -> Result<Vec<u8>, Error> {
    let mut decoder = ZlibDecoder::new(ByteSource::partial(Vec::new()));
    let mut pieces = data.chunks(piece);
    let mut output = Vec::new();
    let mut buf = vec![0u8; chunk];
    loop {
        match decoder.read(&mut buf) {
            Ok(0) => return Ok(output),
            Ok(n) => output.extend_from_slice(&buf[..n]),
            Err(Error::NeedInput) => match pieces.next() {
                Some(more) => decoder.feed(more),
                None => decoder.finish(),
            },
            Err(e) => return Err(e),
        }
    }
}

/// Text in which much comes again, near and far.
fn text(len: usize) -> Vec<u8> {
    let words: [&[u8]; 8] =
        [b"alpha", b"beta", b"gamma", b"delta", b"epsilon", b"zeta", b"eta", b"theta"];
    let mut state: u32 = 1;
    let mut out = Vec::new();
    while out.len() < len {
        state = state.wrapping_mul(1103515245).wrapping_add(12345);
        out.extend_from_slice(words[(state >> 16) as usize % 8]);
        out.push(if (state >> 20) % 5 == 0 { b'\n' } else { b' ' });
        if (state >> 24) % 64 == 0 {
            // a run, and bytes of all values
            out.extend_from_slice(&[(state >> 8) as u8; 300]);
            out.extend((0..=255u8).map(|b| b ^ (state >> 12) as u8));
        }
    }
    out.truncate(len);
    out
}

#[test]
fn round_trip_of_nothing() {
    assert_eq!(decode(&encode(b"", 100), 4096, 4096).unwrap(), b"");
}

#[test]
fn round_trip_of_short_texts() {
    for len in 0..300 {
        let data = text(len);
        assert_eq!(decode(&encode(&data, 7), 5, 11).unwrap(), data);
    }
}

#[test]
fn round_trip_of_a_long_text() {
    let data = text(300_000);
    let stream = encode(&data, 5000);
    assert_eq!(decode(&stream, 4096, 4096).unwrap(), data);
    assert_eq!(decode(&stream, 1 << 20, 1 << 20).unwrap(), data);
    assert_eq!(decode(&stream, 1000, 100_000).unwrap(), data);
    assert_eq!(decode(&stream, 37, 301).unwrap(), data);
}

#[test]
fn round_trip_with_the_longest_distance() {
    // what comes again lies exactly 32768 bytes back
    let mut state: u32 = 99;
    let mut data: Vec<u8> = (0..32768)
        .map(|_| {
            state = state.wrapping_mul(1664525).wrapping_add(1013904223);
            (state >> 24) as u8
        })
        .collect();
    let again = data.clone();
    data.extend_from_slice(&again);
    data.extend_from_slice(&again);
    let all = tokens(&data);
    assert!(all.iter().any(|token| matches!(token, Token::Copy { distance: 32768, .. })));
    let stream = encode(&data, 1 << 20);
    assert_eq!(decode(&stream, 4096, 4096).unwrap(), data);
    assert_eq!(decode(&stream, 1, 1 << 20).unwrap(), data);
}

#[test]
fn round_trip_of_bytes_without_pattern() {
    let mut state: u32 = 7;
    let data: Vec<u8> = (0..100_000)
        .map(|_| {
            state = state.wrapping_mul(1664525).wrapping_add(1013904223);
            (state >> 24) as u8
        })
        .collect();
    let stream = encode(&data, 3000);
    assert_eq!(decode(&stream, 4096, 4096).unwrap(), data);
}
