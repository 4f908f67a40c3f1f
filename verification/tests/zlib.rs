use flate3::{ByteSource, Error, ZlibDecoder};

/// Reads until the end of the stream, through a buffer of `chunk` bytes.
fn decode(data: Vec<u8>, chunk: usize) -> Result<Vec<u8>, Error> {
    let mut decoder = ZlibDecoder::new(ByteSource::new(data));
    let mut output = Vec::new();
    let mut buf = vec![0u8; chunk];
    loop {
        let n = decoder.read(&mut buf)?;
        if n == 0 {
            return Ok(output);
        }
        output.extend_from_slice(&buf[..n]);
    }
}

const HELLO_WORLD: [u8; 19] = [
    0x78, 0x9c, 0xcb, 0x48, 0xcd, 0xc9, 0xc9, 0x57, 0x28, 0xcf, 0x2f, 0xca, 0x49, 0x01, 0x00,
    0x1a, 0x0b, 0x04, 0x5d,
];

const TALE: &[u8] = b"It was the best of times, it was the worst of times, it was the age of \
wisdom, it was the age of foolishness, it was the epoch of belief, it was the epoch of \
incredulity, it was the season of Light, it was the season of Darkness, it was the spring of \
hope, it was the winter of despair.";

const TALE_ZLIB: [u8; 127] = [
    0x78, 0xda, 0x75, 0xcf, 0xc1, 0x09, 0xc3, 0x30, 0x0c, 0x85, 0xe1, 0x55, 0x34, 0x40, 0xe9,
    0x14, 0xbd, 0x14, 0xba, 0x84, 0x13, 0x3f, 0xdb, 0xa2, 0x89, 0x65, 0x24, 0x15, 0xd3, 0xed,
    0x8b, 0x4f, 0xc5, 0x24, 0x39, 0x7f, 0xbf, 0x78, 0xe8, 0xe9, 0xd4, 0x83, 0x91, 0x17, 0xd0,
    0x02, 0x73, 0x92, 0x44, 0xce, 0x3b, 0xec, 0x46, 0xfc, 0x97, 0x2e, 0x7a, 0x45, 0x21, 0x63,
    0x40, 0x67, 0x8b, 0xb2, 0x9f, 0x49, 0x12, 0xd9, 0xd8, 0x4a, 0x85, 0xcd, 0x87, 0x68, 0xb2,
    0x96, 0x11, 0x2c, 0xd8, 0x18, 0xe9, 0xdc, 0xb8, 0xae, 0x8a, 0xf8, 0xd9, 0xd8, 0xbf, 0x53,
    0x60, 0x08, 0x26, 0x75, 0x14, 0x2f, 0xce, 0xc5, 0x2f, 0xec, 0x11, 0xf4, 0x7d, 0xd8, 0xb5,
    0xa6, 0x5c, 0xf3, 0xe0, 0x22, 0x0d, 0xf3, 0x9b, 0x5c, 0x1d, 0x3a, 0x28, 0xc2, 0x5a, 0x60,
    0xbd, 0xff, 0x00, 0x12, 0x35, 0x64, 0x68,
];

#[test]
fn hello_world() {
    let data = vec![0x78, 0x9c, 0xcb, 0x48, 0xcd, 0xc9, 0xc9, 0x57, 0x28, 0xcf, 0x2f, 0xca,
                    0x49, 0x01, 0x00, 0x1a, 0x0b, 0x04, 0x5d];
    let data = ByteSource::new(data);

    let mut inflater = ZlibDecoder::new(data);

    let mut output = Vec::new();
    let mut buf = [0u8; 64];
    loop {
        let n = inflater.read(&mut buf).unwrap();
        if n == 0 {
            break;
        }
        output.extend_from_slice(&buf[..n]);
    }
    assert_eq!(output, b"hello world");
}

#[test]
fn hello_world_byte_by_byte() {
    assert_eq!(decode(HELLO_WORLD.to_vec(), 1).unwrap(), b"hello world");
}

#[test]
fn dynamic_codes() {
    assert_eq!(decode(TALE_ZLIB.to_vec(), 4096).unwrap(), TALE);
    assert_eq!(decode(TALE_ZLIB.to_vec(), 3).unwrap(), TALE);
}

#[test]
fn empty_stream() {
    let data = vec![0x78, 0x9c, 0x03, 0x00, 0x00, 0x00, 0x00, 0x01];
    assert_eq!(decode(data, 16).unwrap(), b"");
}

#[test]
fn end_of_stream_is_idempotent() {
    let mut decoder = ZlibDecoder::new(ByteSource::new(HELLO_WORLD.to_vec()));
    let mut buf = [0u8; 64];
    assert_eq!(decoder.read(&mut buf), Ok(11));
    assert_eq!(decoder.read(&mut buf), Ok(0));
    assert_eq!(decoder.read(&mut buf), Ok(0));
    assert_eq!(decoder.read(&mut buf[..1]), Ok(0));
    assert_eq!(decoder.read(&mut buf), Ok(0));
}

#[test]
fn empty_buffer_reads_nothing() {
    let mut decoder = ZlibDecoder::new(ByteSource::new(HELLO_WORLD.to_vec()));
    let mut none = [0u8; 0];
    let mut buf = [0u8; 5];
    assert_eq!(decoder.read(&mut none), Ok(0));
    assert_eq!(decoder.read(&mut buf), Ok(5));
    assert_eq!(&buf, b"hello");
    assert_eq!(decoder.read(&mut none), Ok(0));
    assert_eq!(decoder.read(&mut buf), Ok(5));
    assert_eq!(&buf, b" worl");
    assert_eq!(decoder.read(&mut buf), Ok(1));
    assert_eq!(&buf, b"dworl");
    assert_eq!(decoder.read(&mut buf), Ok(0));
}

#[test]
fn checksum_mismatch() {
    let mut data = HELLO_WORLD.to_vec();
    data[18] = 0x5e;
    assert_eq!(decode(data, 64), Err(Error::ChecksumMismatch));
}

#[test]
fn checksum_is_checked_after_the_last_byte() {
    let mut data = HELLO_WORLD.to_vec();
    data[15] = 0;
    let mut decoder = ZlibDecoder::new(ByteSource::new(data));
    let mut buf = [0u8; 64];
    assert_eq!(decoder.read(&mut buf), Ok(11));
    assert_eq!(&buf[..11], b"hello world");
    assert_eq!(decoder.read(&mut buf), Err(Error::ChecksumMismatch));
    assert_eq!(decoder.read(&mut buf), Err(Error::Poisoned));
}

#[test]
fn truncated_trailer() {
    let data = HELLO_WORLD[..17].to_vec();
    assert_eq!(decode(data, 64), Err(Error::UnexpectedEof));
}

#[test]
fn truncated_header() {
    assert_eq!(decode(vec![0x78], 64), Err(Error::UnexpectedEof));
    assert_eq!(decode(vec![], 64), Err(Error::UnexpectedEof));
}

#[test]
fn unsupported_method() {
    // method 7, and a second byte that makes the two a multiple of 31
    assert_eq!(decode(vec![0x77, 0x09, 0x03, 0x00], 64), Err(Error::UnsupportedMethod));
}

#[test]
fn unsupported_window() {
    assert_eq!(decode(vec![0x88, 0x1c, 0x03, 0x00], 64), Err(Error::UnsupportedWindow));
    assert_eq!(decode(vec![0x68, 0x81, 0x03, 0x00], 64), Err(Error::UnsupportedWindow));
}

#[test]
fn wrong_header_checksum() {
    let mut data = HELLO_WORLD.to_vec();
    data[1] = 0x9d;
    assert_eq!(decode(data, 64), Err(Error::HeaderChecksum));
}

#[test]
fn dictionary_id_is_skipped() {
    // 0x78 0xbb: deflate, 32K window, FDICT set, multiple of 31
    assert_eq!((0x78 * 256 + 0xbb) % 31, 0);
    let mut data = vec![0x78, 0xbb, 0xde, 0xad, 0xbe, 0xef];
    data.extend_from_slice(&HELLO_WORLD[2..]);
    assert_eq!(decode(data, 64).unwrap(), b"hello world");
}

#[test]
fn truncated_dictionary_id() {
    assert_eq!(decode(vec![0x78, 0xbb, 0xde, 0xad], 64), Err(Error::UnexpectedEof));
}

#[test]
fn failure_poisons_the_decoder() {
    let mut data = HELLO_WORLD.to_vec();
    data[1] = 0x9d;
    let mut decoder = ZlibDecoder::new(ByteSource::new(data));
    let mut buf = [0u8; 64];
    let mut none = [0u8; 0];
    assert_eq!(decoder.read(&mut buf), Err(Error::HeaderChecksum));
    assert_eq!(decoder.read(&mut buf), Err(Error::Poisoned));
    assert_eq!(decoder.read(&mut none), Err(Error::Poisoned));
}

/// The zlib stream that holds `bytes` in stored blocks.
fn store(bytes: &[u8]) -> Vec<u8> {
    let mut data = vec![0x78, 0x01];
    let mut rest = bytes;
    loop {
        let last = rest.len() <= 65535;
        let len = if last { rest.len() } else { 65535 };
        data.push(last as u8);
        data.push((len % 256) as u8);
        data.push((len / 256) as u8);
        data.push((255 - len % 256) as u8);
        data.push((255 - len / 256) as u8);
        data.extend_from_slice(&rest[..len]);
        rest = &rest[len..];
        if last {
            break;
        }
    }
    let mut hasher = flate3::adler32::Adler32::new();
    hasher.feed(bytes);
    let sum = hasher.checksum();
    data.extend_from_slice(&[(sum >> 24) as u8, (sum >> 16) as u8, (sum >> 8) as u8, sum as u8]);
    data
}

#[test]
fn stored_round_trip() {
    for &len in &[0usize, 1, 2, 255, 256, 65534, 65535, 65536, 65537, 131070, 200000] {
        let bytes: Vec<u8> = (0..len).map(|i| (i * 7 + i / 251) as u8).collect();
        for &chunk in &[1usize, 1000, 65535, 1 << 20] {
            if chunk == 1 && len > 1000 {
                continue;
            }
            assert_eq!(decode(store(&bytes), chunk).unwrap(), bytes);
        }
    }
}

#[test]
fn stored_stream_of_nothing() {
    assert_eq!(store(b""), [0x78, 0x01, 0x01, 0x00, 0x00, 0xff, 0xff, 0x00, 0x00, 0x00, 0x01]);
    assert_eq!(decode(store(b""), 8).unwrap(), b"");
}
