use flate3::inflate::Inflater;
use flate3::{ByteSource, Error};

/// Reads until the end of the stream, through a buffer of `chunk` bytes.
fn read_to_end(
    inflater: &mut Inflater,
    chunk: usize,
    output: &mut Vec<u8>,
) -> Result<usize, Error> {
    let mut buf = vec![0u8; chunk];
    let mut total = 0;
    loop {
        let n = inflater.read(&mut buf)?;
        if n == 0 {
            return Ok(total);
        }
        output.extend_from_slice(&buf[..n]);
        total += n;
    }
}

#[test]
fn uncompressed_block() {
    let data = vec![0x1, 5, 0, 0xfa, 0xff, b'h', b'e', b'l', b'l', b'o'];
    let data = ByteSource::new(data);

    let mut inflater = Inflater::new(data);

    let mut output = Vec::new();
    read_to_end(&mut inflater, 32, &mut output).unwrap();
    assert_eq!(output, b"hello");
}

#[test]
fn uncompressed_block_too_short() {
    let data = vec![0x1, 5, 0, 0xfa, 0xff, b'h', b'e', b'l'];
    let data = ByteSource::new(data);

    let mut inflater = Inflater::new(data);

    let mut output = Vec::new();
    assert!(read_to_end(&mut inflater, 32, &mut output).is_err());
}

#[test]
fn uncompressed_block_wrong_len_nlen() {
    let data = vec![0x1, 5, 0, 0xfb, 0xff, b'h', b'e', b'l', b'l', b'o'];
    let data = ByteSource::new(data);

    let mut inflater = Inflater::new(data);

    let mut output = Vec::new();
    assert!(read_to_end(&mut inflater, 32, &mut output).is_err());
}

#[test]
fn compressed_fixed_block_distance() {
    let data = vec![0x73, 0x49, 0x4d, 0xcb, 0x49, 0x2c, 0x49, 0x55, 0x00, 0x11, 0x00];
    let data = ByteSource::new(data);

    let mut inflater = Inflater::new(data);

    let mut output = Vec::new();
    read_to_end(&mut inflater, 32, &mut output).unwrap();
    assert_eq!(output, b"Deflate late");
}

#[test]
fn uncompressed_then_compressed_fixed_block_distance() {
    let data = vec![0x0, 5, 0, 0xfa, 0xff, b'h', b'e', b'l', b'l', b'o',
                    0x73, 0x49, 0x4d, 0xcb, 0x49, 0x2c, 0x49, 0x55, 0x00, 0x11, 0x00];
    let data = ByteSource::new(data);

    let mut inflater = Inflater::new(data);

    let mut output = Vec::new();
    read_to_end(&mut inflater, 32, &mut output).unwrap();
    assert_eq!(output, b"helloDeflate late");
}

#[test]
fn compressed_fixed_block_distance_then_uncompressed() {
    let data = vec![0x72, 0x49, 0x4d, 0xcb, 0x49, 0x2c, 0x49, 0x55, 0x00, 0x11, 0x80,
                    0x0, 5, 0, 0xfa, 0xff, b'h', b'e', b'l', b'l', b'o'];
    let data = ByteSource::new(data);

    let mut inflater = Inflater::new(data);

    let mut output = Vec::new();
    read_to_end(&mut inflater, 32, &mut output).unwrap();
    assert_eq!(output, b"Deflate latehello");
}

#[test]
fn one_byte_at_a_time() {
    let data = vec![0x0, 5, 0, 0xfa, 0xff, b'h', b'e', b'l', b'l', b'o',
                    0x73, 0x49, 0x4d, 0xcb, 0x49, 0x2c, 0x49, 0x55, 0x00, 0x11, 0x00];
    let mut inflater = Inflater::new(ByteSource::new(data));

    let mut output = Vec::new();
    read_to_end(&mut inflater, 1, &mut output).unwrap();
    assert_eq!(output, b"helloDeflate late");
}
