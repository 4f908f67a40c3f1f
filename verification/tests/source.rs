use flate3::{read_all, ByteSource, Error};

#[test]
fn source_reads_in_order() {
    let mut source = ByteSource::new(vec![1, 2, 3, 4, 5]);
    let mut buf = [0u8; 2];
    assert_eq!(source.read(&mut buf), 2);
    assert_eq!(buf, [1, 2]);
    assert_eq!(source.next_byte(), Some(3));
    let mut buf = [9u8; 4];
    assert_eq!(source.read(&mut buf), 2);
    assert_eq!(buf, [4, 5, 9, 9]);
    assert_eq!(source.read(&mut buf), 0);
    assert_eq!(source.next_byte(), None);
}

#[test]
fn source_reads_at_most() {
    let mut source = ByteSource::new(vec![1, 2, 3, 4, 5]);
    let mut buf = [0u8; 4];
    assert_eq!(source.read_at_most(&mut buf, 3), 3);
    assert_eq!(buf, [1, 2, 3, 0]);
    assert_eq!(source.read_at_most(&mut buf, 0), 0);
    assert_eq!(source.read_at_most(&mut buf, 9), 2);
    assert_eq!(buf, [4, 5, 3, 0]);
}

#[test]
fn read_all_fills_the_buffer() {
    let mut source = ByteSource::new(vec![1, 2, 3, 4, 5]);
    let mut buf = [0u8; 4];
    assert_eq!(read_all(&mut source, &mut buf), Ok(()));
    assert_eq!(buf, [1, 2, 3, 4]);
    assert_eq!(source.next_byte(), Some(5));
}

#[test]
fn read_all_fails_on_short_source() {
    let mut source = ByteSource::new(vec![1, 2, 3]);
    let mut buf = [0u8; 4];
    assert_eq!(read_all(&mut source, &mut buf), Err(Error::UnexpectedEof));
}

#[test]
fn error_messages() {
    assert_eq!(Error::UnexpectedEof.message(), "Unexpected EOF");
    assert_eq!(Error::UnexpectedEofInBits.message(), "Unexpected EOF in bits stream");
    assert_eq!(Error::BadHuffmanData.message(), "Bad huffman data");
    assert_eq!(Error::ReservedBlockType.message(), "Reserved block type 0b11");
    assert_eq!(Error::HeaderChecksum.message(), "Wrong value for zlib header checksum");
    assert_eq!(Error::ChecksumMismatch.message(), "Checksum mismatch");
    assert_eq!(Error::Poisoned.message(), "I/O errors in the inflater are unrecoverable");
}

#[test]
fn errors_that_more_data_can_mend() {
    assert!(Error::UnexpectedEof.ends_early());
    assert!(Error::UnexpectedEofInBits.ends_early());
    assert!(Error::UnexpectedEofInBlock.ends_early());
    assert!(!Error::BadHuffmanData.ends_early());
    assert!(!Error::ChecksumMismatch.ends_early());
    assert!(!Error::Poisoned.ends_early());
    assert!(!Error::NeedInput.ends_early());
    assert_eq!(Error::NeedInput.message(), "More input is needed");
}
