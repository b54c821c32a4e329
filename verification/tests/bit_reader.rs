use chime::dst::DstBitReader;

#[test]
fn test_bit_reader() {
    let data = [0b10101010u8, 0b11110000];
    let mut reader = DstBitReader::new(&data);
    assert_eq!(reader.read_bits(4), 0b1010);
    assert_eq!(reader.read_bits(4), 0b1010);
    assert_eq!(reader.read_bits(4), 0b1111);
    assert_eq!(reader.read_bits(4), 0b0000);
}

#[test]
fn test_signed_bits() {
    let data = [0b10000000u8];
    let mut reader = DstBitReader::new(&data);
    assert_eq!(reader.read_signed_bits(4), -8);
}

#[test]
fn signed_bits_positive_and_full_width() {
    let data = [0b01110000u8, 0xFF, 0xFF, 0xFF, 0xFF];
    let mut reader = DstBitReader::new(&data);
    assert_eq!(reader.read_signed_bits(4), 7);
    assert_eq!(reader.read_signed_bits(4), 0);
    assert_eq!(reader.read_signed_bits(8), -1);
}

#[test]
fn consecutive_reads_match_one_read() {
    let data = [0xABu8, 0xCD];
    let mut whole = DstBitReader::new(&data);
    let v = whole.read_bits(12);
    let mut parts = DstBitReader::new(&data);
    let hi = parts.read_bits(4);
    let lo = parts.read_bits(8);
    assert_eq!(v, 0xABC);
    assert_eq!((hi << 8) | lo, v);
}

#[test]
fn bits_past_the_end_read_as_zero() {
    let data = [0xFFu8];
    let mut reader = DstBitReader::new(&data);
    assert_eq!(reader.read_bits(4), 0xF);
    assert_eq!(reader.read_bits(8), 0xF0);
    assert_eq!(reader.read_bits(8), 0);
}

#[test]
fn byte_reads_alignment_and_counts() {
    let data = [0x12u8, 0x34, 0x56];
    let mut reader = DstBitReader::new(&data);
    assert_eq!(reader.bits_remaining(), 24);
    assert_eq!(reader.bytes_consumed(), 0);
    assert_eq!(reader.read_bits(4), 0x1);
    assert_eq!(reader.read_byte(), 0x23);
    assert_eq!(reader.position(), (1, 4));
    assert_eq!(reader.bits_remaining(), 12);
    assert_eq!(reader.bytes_consumed(), 2);
    reader.align_to_byte();
    assert_eq!(reader.position(), (2, 0));
    assert_eq!(reader.read_byte(), 0x56);
    assert_eq!(reader.bits_remaining(), 0);
    assert_eq!(reader.bytes_consumed(), 3);
    reader.align_to_byte();
    assert_eq!(reader.position(), (3, 0));
}

#[test]
fn full_width_signed_field() {
    let data = [0xFFu8, 0xFF, 0xFF, 0xFF, 0x80, 0x00, 0x00, 0x01];
    let mut reader = DstBitReader::new(&data);
    assert_eq!(reader.read_signed_bits(32), -1);
    assert_eq!(reader.read_signed_bits(32), i32::MIN + 1);
}

#[test]
fn nothing_remains_past_the_end() {
    let data: [u8; 0] = [];
    let mut reader = DstBitReader::new(&data);
    reader.read_bits(3);
    assert_eq!(reader.bits_remaining(), 0);
    let one = [0u8];
    let mut r2 = DstBitReader::new(&one);
    r2.read_bits(12);
    assert_eq!(r2.bits_remaining(), 0);
}

#[test]
fn aligning_keeps_the_bytes_consumed() {
    let data = [0xFFu8, 0x0F];
    let mut r = DstBitReader::new(&data);
    r.read_bits(3);
    let c0 = r.bytes_consumed();
    r.align_to_byte();
    assert_eq!(r.bytes_consumed(), c0);
    assert_eq!(r.position(), (1, 0));
    r.align_to_byte();
    assert_eq!(r.position(), (1, 0));
    assert_eq!(r.read_bits(8), 0x0F);
}
