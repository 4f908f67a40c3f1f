use flate3::bit::BitRead;
use flate3::huffman::HuffmanTable;
use flate3::{ByteSource, Error};

#[test]
fn decode_rfc1951() {
    // takes the example from RFC1951
    let table = HuffmanTable::from_lengths(&[('B', 1), ('A', 2), ('C', 3), ('D', 3)]).unwrap();
    assert_eq!(table.entry(0b0), Some((1, 'B')));
    assert_eq!(table.entry(0b1), None);
    assert_eq!(table.entry(0b10), Some((2, 'A')));
    assert_eq!(table.entry(0b11), None);
    assert_eq!(table.entry(0b100), None);
    assert_eq!(table.entry(0b101), None);
    assert_eq!(table.entry(0b110), Some((3, 'C')));
    assert_eq!(table.entry(0b111), Some((3, 'D')));
    assert_eq!(table.entry(0b1000), None);

    // BAACDC
    let data = vec![0b01101010, 0b00011111];
    let data = ByteSource::new(data);
    let mut data = BitRead::new(data);

    assert_eq!(table.decode(&mut data).unwrap(), 'B');
    assert_eq!(table.decode(&mut data).unwrap(), 'A');
    assert_eq!(table.decode(&mut data).unwrap(), 'A');
    assert_eq!(table.decode(&mut data).unwrap(), 'C');
    assert_eq!(table.decode(&mut data).unwrap(), 'D');
    assert_eq!(table.decode(&mut data).unwrap(), 'C');
}

#[test]
fn from_lengths_rfc1951() {
    // "Consider the alphabet ABCDEFGH, with bit lengths (3, 3, 3, 3, 3, 2, 4, 4)."
    let tree = HuffmanTable::from_lengths(&[
        ('A', 3), ('B', 3), ('C', 3), ('D', 3), ('E', 3), ('F', 2), ('G', 4), ('H', 4),
    ])
    .unwrap();

    assert_eq!(tree.entry(0b010), Some((3, 'A')));
    assert_eq!(tree.entry(0b011), Some((3, 'B')));
    assert_eq!(tree.entry(0b100), Some((3, 'C')));
    assert_eq!(tree.entry(0b101), Some((3, 'D')));
    assert_eq!(tree.entry(0b110), Some((3, 'E')));
    assert_eq!(tree.entry(0b00), Some((2, 'F')));
    assert_eq!(tree.entry(0b1110), Some((4, 'G')));
    assert_eq!(tree.entry(0b1111), Some((4, 'H')));
}

#[test]
fn from_lengths_rejects_zero_length() {
    let result = HuffmanTable::from_lengths(&[('A', 1), ('B', 0)]);
    assert!(matches!(result, Err(Error::InvalidCodeLength)));
}

#[test]
fn from_lengths_rejects_long_length() {
    let result = HuffmanTable::from_lengths(&[('A', 16), ('B', 1)]);
    assert!(matches!(result, Err(Error::InvalidCodeLength)));
}

#[test]
fn from_lengths_accepts_fifteen_bits() {
    let table = HuffmanTable::from_lengths(&[('A', 15), ('B', 1)]).unwrap();
    assert_eq!(table.entry(0), Some((1, 'B')));
    assert_eq!(table.entry(1 << 14), Some((15, 'A')));
}

#[test]
fn decode_bad_data() {
    // the only code is `0`, and the stream starts with a one
    let table = HuffmanTable::from_lengths(&[('A', 1)]).unwrap();
    let mut data = BitRead::new(ByteSource::new(vec![0b1]));
    assert_eq!(table.decode(&mut data), Err(Error::BadHuffmanData));
}

#[test]
fn decode_incomplete_code() {
    // three codes of two bits: `00`, `01` and `10`; `11` is no code
    let table = HuffmanTable::from_lengths(&[('A', 2), ('B', 2), ('C', 2)]).unwrap();
    let mut data = BitRead::new(ByteSource::new(vec![0b11_01_10_00]));
    assert_eq!(table.decode(&mut data), Ok('A'));
    assert_eq!(table.decode(&mut data), Ok('B'));
    assert_eq!(table.decode(&mut data), Ok('C'));
    assert_eq!(table.decode(&mut data), Err(Error::BadHuffmanData));
}

#[test]
fn decode_at_end_of_data() {
    let table = HuffmanTable::from_lengths(&[('A', 2), ('B', 2)]).unwrap();
    let mut data = BitRead::new(ByteSource::new(vec![]));
    assert_eq!(table.decode(&mut data), Err(Error::UnexpectedEofInBits));
}

#[test]
fn no_code_is_a_prefix_of_another() {
    let lengths = [3u8, 3, 3, 3, 3, 2, 4, 4];
    let pairs: Vec<(usize, u8)> = lengths.iter().cloned().enumerate().collect();
    let table = HuffmanTable::from_lengths(&pairs).unwrap();
    let mut codes = Vec::new();
    for code in 0..32usize {
        if let Some((len, _)) = table.entry(code) {
            codes.push((code, len));
        }
    }
    assert_eq!(codes.len(), 8);
    for &(a, la) in &codes {
        for &(b, lb) in &codes {
            if a != b && la <= lb {
                assert_ne!(b >> (lb - la), a);
            }
        }
    }
}

#[test]
fn more_codes_than_the_bits_can_spell() {
    // three codes of one bit: the third would be `10`, which one bit cannot spell
    let table = HuffmanTable::from_lengths(&[('A', 1), ('B', 1), ('C', 1)]).unwrap();
    assert_eq!(table.entry(0), Some((1, 'A')));
    assert_eq!(table.entry(1), Some((1, 'B')));
    assert_eq!(table.entry(2), None);
    let mut data = BitRead::new(ByteSource::new(vec![0b10]));
    assert_eq!(table.decode(&mut data), Ok('A'));
    assert_eq!(table.decode(&mut data), Ok('B'));
}
