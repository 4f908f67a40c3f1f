use flate3::bit::BitRead;
use flate3::ByteSource;

#[test]
fn test() {
    let data = ByteSource::new(vec![0b01001110, 0b11011000]);
    let mut data = BitRead::new(data);

    assert_eq!(data.read(2).unwrap(), 0b10);
    assert_eq!(data.read(3).unwrap(), 0b011);
    assert_eq!(data.read(1).unwrap(), 0b0);
    assert_eq!(data.read(3).unwrap(), 0b001);
    assert_eq!(data.read(3).unwrap(), 0b100);
    assert_eq!(data.read(4).unwrap(), 0b1101);
}

#[test]
fn bit_by_bit() {
    let data = ByteSource::new(vec![0b01001110]);
    let mut data = BitRead::new(data);

    assert_eq!(data.read(1).unwrap(), 0b0);
    assert_eq!(data.read(1).unwrap(), 0b1);
    assert_eq!(data.read(1).unwrap(), 0b1);
    assert_eq!(data.read(1).unwrap(), 0b1);
    assert_eq!(data.read(1).unwrap(), 0b0);
    assert_eq!(data.read(1).unwrap(), 0b0);
    assert_eq!(data.read(1).unwrap(), 0b1);
    assert_eq!(data.read(1).unwrap(), 0b0);
}

#[test]
fn byte_align() {
    let data = ByteSource::new(vec![0b01001110, 0xaa]);

    let mut data = BitRead::new(data);
    assert_eq!(data.read(2).unwrap(), 0b10);

    let mut data = data.byte_align_unwrap();
    assert_eq!(data.next_byte().unwrap(), 0xaa);
}

#[test]
fn byte_align_0() {
    let data = ByteSource::new(vec![0xcc, 0xaa]);

    let mut data = BitRead::new(data);
    assert_eq!(data.read(0).unwrap(), 0);

    let mut data = data.byte_align_unwrap();
    assert_eq!(data.next_byte().unwrap(), 0xcc);
    assert_eq!(data.next_byte().unwrap(), 0xaa);
}

#[test]
fn byte_align_8() {
    let data = ByteSource::new(vec![0b01001110, 0xaa]);

    let mut data = BitRead::new(data);
    assert_eq!(data.read(8).unwrap(), 0b01001110);

    let mut data = data.byte_align_unwrap();
    assert_eq!(data.next_byte().unwrap(), 0xaa);
}

#[test]
fn mark_and_rewind() {
    let mut data = BitRead::new(ByteSource::new(vec![0b01001110, 0b11011000]));
    assert_eq!(data.read(3).unwrap(), 0b110);
    let mark = data.mark();
    assert_eq!(data.read(8).unwrap(), 0b00001001);
    assert_eq!(data.read(5).unwrap(), 0b11011);
    assert!(data.read(1).is_err());
    data.rewind(mark);
    assert_eq!(data.read(2).unwrap(), 0b01);
    assert_eq!(data.read(7).unwrap(), 0b1000010);
    data.rewind(mark);
    assert_eq!(data.read(8).unwrap(), 0b00001001);
}

#[test]
fn bits_arrive_in_pieces() {
    let mut data = BitRead::new(ByteSource::partial(vec![0b01001110]));
    assert!(!data.is_complete());
    assert_eq!(data.read(6).unwrap(), 0b001110);
    // two bits are left, and five are asked for
    assert_eq!(data.read(5), Err(flate3::Error::UnexpectedEofInBits));
    data.feed(&[0b11011000]);
    assert_eq!(data.read(5).unwrap(), 0b00001);
    data.finish();
    assert!(data.is_complete());
    assert_eq!(data.read(5).unwrap(), 0b11011);
    assert_eq!(data.read(1), Err(flate3::Error::UnexpectedEofInBits));
}

#[test]
fn read_from_cache_takes_what_is_held() {
    let mut data = BitRead::new(ByteSource::new(vec![0b01001110]));
    assert_eq!(data.read(1).unwrap(), 0);
    // seven bits are held now
    assert_eq!(data.read_from_cache(3), 0b111);
    assert_eq!(data.read_from_cache(0), 0);
    assert_eq!(data.read_from_cache(4), 0b0100);
}
