use flate3::inflate::Inflater;
use flate3::{ByteSource, Error, ZlibDecoder};

const TALE: &[u8] = b"It was the best of times, it was the worst of times, it was the age of \
wisdom, it was the age of foolishness, it was the epoch of belief, it was the epoch of \
incredulity, it was the season of Light, it was the season of Darkness, it was the spring of \
hope, it was the winter of despair.";

const TALE_ZLIB: [u8; 127] = [
    0x78, 0xda, 0x75, 0xcf, 0xc1, 0x09, 0xc3, 0x30, 0x0c, 0x85, 0xe1, 0x55, 0x34, 0x40, 0xe9,
    0x14, 0xbd, 0x14, 0xba, 0x84, 0x13, 0x3f, 0xdb, 0xa2, 0x89, 0x65, 0x24, 0x15, 0xd3, 0xed,
    0x8b, 0x4f, 0xc5, 0x24, 0x39, 0x7f, 0xbf, 0x78, 0xe8, 0xe9, 0xd4, 0x83, 0x91, 0x17, 0xd0,
    0x02, 0x73, 0x92, 0x44, 0xce, 0x3b, 0xec, 0x46, 0xfc, 0x97, 0x2e, 0x7a, 0x45, 0x21, 0x63,
    0x40, 0x67, 0x8b, 0xb2, 0x9f, 0x49, 0x12, 0xd9, 0xd8, 0x4a, 0x85, 0xcd, 0x87, 0x68, 0xb2,
    0x96, 0x11, 0x2c, 0xd8, 0x18, 0xe9, 0xdc, 0xb8, 0xae, 0x8a, 0xf8, 0xd9, 0xd8, 0xbf, 0x53,
    0x60, 0x08, 0x26, 0x75, 0x14, 0x2f, 0xce, 0xc5, 0x2f, 0xec, 0x11, 0xf4, 0x7d, 0xd8, 0xb5,
    0xa6, 0x5c, 0xf3, 0xe0, 0x22, 0x0d, 0xf3, 0x9b, 0x5c, 0x1d, 0x3a, 0x28, 0xc2, 0x5a, 0x60,
    0xbd, 0xff, 0x00, 0x12, 0x35, 0x64, 0x68,
];

const HELLO_WORLD: [u8; 19] = [
    0x78, 0x9c, 0xcb, 0x48, 0xcd, 0xc9, 0xc9, 0x57, 0x28, 0xcf, 0x2f, 0xca, 0x49, 0x01, 0x00,
    0x1a, 0x0b, 0x04, 0x5d,
];

/// Decodes `data` as it arrives in pieces of `piece` bytes, through a buffer of `chunk`
/// bytes. The decoder is fed only when it asks for input.
fn decode_in_pieces(data: &[u8], piece: usize, chunk: usize) -> Result<Vec<u8>, Error> {
    let mut decoder = ZlibDecoder::new(ByteSource::partial(Vec::new()));
    let mut pieces = data.chunks(piece);
    let mut output = Vec::new();
    let mut buf = vec![0u8; chunk];
    loop {
        match decoder.read(&mut buf) {
            Ok(0) => return Ok(output),
            Ok(n) => output.extend_from_slice(&buf[..n]),
            Err(Error::NeedInput) => match pieces.next() {
                Some(more) => decoder.feed(more),
                None => decoder.finish(),
            },
            Err(e) => return Err(e),
        }
    }
}

/// The same for a bare deflate stream.
fn inflate_in_pieces(data: &[u8], piece: usize, chunk: usize) -> Result<Vec<u8>, Error> {
    let mut inflater = Inflater::new(ByteSource::partial(Vec::new()));
    let mut pieces = data.chunks(piece);
    let mut output = Vec::new();
    let mut buf = vec![0u8; chunk];
    loop {
        match inflater.read(&mut buf) {
            Ok(0) => return Ok(output),
            Ok(n) => output.extend_from_slice(&buf[..n]),
            Err(Error::NeedInput) => match pieces.next() {
                Some(more) => inflater.feed(more),
                None => inflater.finish(),
            },
            Err(e) => return Err(e),
        }
    }
}

#[test]
fn fed_byte_by_byte() {
    assert_eq!(decode_in_pieces(&HELLO_WORLD, 1, 64).unwrap(), b"hello world");
    assert_eq!(decode_in_pieces(&TALE_ZLIB, 1, 64).unwrap(), TALE);
    assert_eq!(decode_in_pieces(&TALE_ZLIB, 1, 1).unwrap(), TALE);
}

#[test]
fn fed_in_pieces_of_any_size() {
    for piece in 1..=TALE_ZLIB.len() + 1 {
        assert_eq!(decode_in_pieces(&TALE_ZLIB, piece, 16).unwrap(), TALE);
    }
}

#[test]
fn ends_without_the_end_of_the_source() {
    // the decoder finds the end of the stream in the data; it need not be told that no
    // more is to come
    let mut decoder = ZlibDecoder::new(ByteSource::partial(HELLO_WORLD.to_vec()));
    let mut buf = [0u8; 64];
    assert_eq!(decoder.read(&mut buf), Ok(11));
    assert_eq!(&buf[..11], b"hello world");
    assert_eq!(decoder.read(&mut buf), Ok(0));
    decoder.feed(b"what follows the stream is not read");
    assert_eq!(decoder.read(&mut buf), Ok(0));
}

#[test]
fn asks_for_input_where_the_data_ends() {
    let mut decoder = ZlibDecoder::new(ByteSource::partial(Vec::new()));
    let mut buf = [0u8; 4];
    assert_eq!(decoder.read(&mut buf), Err(Error::NeedInput));
    // asking again changes nothing
    assert_eq!(decoder.read(&mut buf), Err(Error::NeedInput));
    decoder.feed(&HELLO_WORLD[..1]);
    assert_eq!(decoder.read(&mut buf), Err(Error::NeedInput));
    decoder.feed(&HELLO_WORLD[1..4]);
    // the header is there; `h` is coded in the bits up to the middle of the fourth byte
    assert_eq!(decoder.read(&mut buf), Ok(1));
    assert_eq!(buf[0], b'h');
    assert_eq!(decoder.read(&mut buf), Err(Error::NeedInput));
    decoder.feed(&HELLO_WORLD[4..17]);
    assert_eq!(decoder.read(&mut buf), Ok(4));
    assert_eq!(&buf, b"ello");
    assert_eq!(decoder.read(&mut buf), Ok(4));
    assert_eq!(&buf, b" wor");
    assert_eq!(decoder.read(&mut buf), Ok(2));
    assert_eq!(&buf[..2], b"ld");
    // two bytes of the checksum are missing
    assert_eq!(decoder.read(&mut buf), Err(Error::NeedInput));
    decoder.feed(&HELLO_WORLD[17..]);
    assert_eq!(decoder.read(&mut buf), Ok(0));
    assert_eq!(decoder.read(&mut buf), Ok(0));
}

#[test]
fn fails_where_a_complete_stream_ends_early() {
    let mut decoder = ZlibDecoder::new(ByteSource::partial(HELLO_WORLD[..16].to_vec()));
    let mut buf = [0u8; 64];
    assert_eq!(decoder.read(&mut buf), Ok(11));
    assert_eq!(decoder.read(&mut buf), Err(Error::NeedInput));
    decoder.finish();
    assert_eq!(decoder.read(&mut buf), Err(Error::UnexpectedEof));
    assert_eq!(decoder.read(&mut buf), Err(Error::Poisoned));
}

#[test]
fn defects_are_found_before_the_stream_is_complete() {
    let mut data = HELLO_WORLD.to_vec();
    data[1] = 0x9d;
    assert_eq!(decode_in_pieces(&data, 1, 64), Err(Error::HeaderChecksum));
    let mut data = HELLO_WORLD.to_vec();
    data[18] = 0;
    assert_eq!(decode_in_pieces(&data, 3, 64), Err(Error::ChecksumMismatch));
}

#[test]
fn stored_blocks_fed_in_pieces() {
    let payload: Vec<u8> = (0..70000u32).map(|i| (i * 31 + i / 257) as u8).collect();
    let mut data = vec![0x00, 0xff, 0xff, 0x00, 0x00];
    data.extend_from_slice(&payload[..65535]);
    let rest = payload.len() - 65535;
    data.extend_from_slice(&[0x01, rest as u8, (rest >> 8) as u8, !rest as u8, (!rest >> 8) as u8]);
    data.extend_from_slice(&payload[65535..]);
    for &piece in &[1usize, 7, 4096, 100000] {
        assert_eq!(inflate_in_pieces(&data, piece, 1000).unwrap(), payload);
    }
}

#[test]
fn stored_block_waits_for_its_payload() {
    let mut inflater = Inflater::new(ByteSource::partial(vec![0x01, 5, 0, 0xfa, 0xff, b'h']));
    let mut buf = [0u8; 16];
    assert_eq!(inflater.read(&mut buf), Ok(1));
    assert_eq!(inflater.read(&mut buf), Err(Error::NeedInput));
    inflater.feed(b"ell");
    assert_eq!(inflater.read(&mut buf), Ok(3));
    assert_eq!(&buf[..3], b"ell");
    assert_eq!(inflater.read(&mut buf), Err(Error::NeedInput));
    inflater.finish();
    assert_eq!(inflater.read(&mut buf), Err(Error::UnexpectedEofInBlock));
}

#[test]
fn compressed_blocks_fed_in_pieces() {
    let data = [
        0x00, 5, 0, 0xfa, 0xff, b'h', b'e', b'l', b'l', b'o', 0x73, 0x49, 0x4d, 0xcb, 0x49, 0x2c,
        0x49, 0x55, 0x00, 0x11, 0x00,
    ];
    for piece in 1..=data.len() {
        for &chunk in &[1usize, 2, 3, 5, 64] {
            assert_eq!(inflate_in_pieces(&data, piece, chunk).unwrap(), b"helloDeflate late");
        }
    }
    // the deflate stream of the tale, without the header and the checksum
    let tale = &TALE_ZLIB[2..TALE_ZLIB.len() - 4];
    for piece in 1..=tale.len() {
        assert_eq!(inflate_in_pieces(tale, piece, 50).unwrap(), TALE);
    }
}

#[test]
fn source_keeps_only_what_is_unread() {
    let mut source = ByteSource::partial(vec![1, 2, 3]);
    assert!(!source.is_complete());
    assert_eq!(source.available(), 3);
    assert_eq!(source.next_byte(), Some(1));
    assert_eq!(source.next_byte(), Some(2));
    let offset = source.offset();
    assert_eq!(source.next_byte(), Some(3));
    assert_eq!(source.next_byte(), None);
    source.seek(offset);
    assert_eq!(source.next_byte(), Some(3));
    source.seek(offset);
    source.push(&[4, 5]);
    assert_eq!(source.available(), 3);
    assert_eq!(source.offset(), 0);
    let mut buf = [0u8; 8];
    assert_eq!(source.read(&mut buf), 3);
    assert_eq!(&buf[..3], &[3, 4, 5]);
    source.finish();
    assert!(source.is_complete());
}
