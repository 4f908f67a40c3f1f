use flate3::adler32::Adler32;

#[test]
fn adler32_of_nothing() {
    assert_eq!(Adler32::new().checksum(), 1);
}

#[test]
fn adler32_of_one_byte() {
    // s1 = 1 + 97, s2 = 0 + 98
    let mut hasher = Adler32::new();
    hasher.feed(b"a");
    assert_eq!(hasher.checksum(), (98 << 16) | 98);
}

#[test]
fn adler32_known_value() {
    let mut hasher = Adler32::new();
    hasher.feed(b"Wikipedia");
    assert_eq!(hasher.checksum(), 0x11e60398);
}

#[test]
fn adler32_in_pieces() {
    let mut whole = Adler32::new();
    whole.feed(b"hello world");
    let mut pieces = Adler32::new();
    pieces.feed(b"hello");
    pieces.feed(b"");
    pieces.feed(b" world");
    assert_eq!(whole.checksum(), 0x1a0b045d);
    assert_eq!(pieces.checksum(), 0x1a0b045d);
}

#[test]
fn adler32_wraps_at_the_modulus() {
    // 300 bytes of 255: s1 = (1 + 300 * 255) mod 65521 = 10980,
    // s2 = (300 + 255 * 300 * 301 / 2) mod 65521 = 48095
    let mut hasher = Adler32::new();
    hasher.feed(&[255u8; 300]);
    let s1: u32 = (1 + 300 * 255) % 65521;
    let s2: u32 = ((300 + 255 * (300 * 301 / 2)) % 65521) as u32;
    assert_eq!(s1, 10980);
    assert_eq!(hasher.checksum(), (s2 << 16) | s1);
}
