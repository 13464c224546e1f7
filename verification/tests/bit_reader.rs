use gif_decoder::bit_reader::BitReader;
use gif_decoder::types::GifError;

#[test]
fn read_bits_least_significant_first() {
    let mut reader = BitReader::new();
    reader.push_bytes(&[0b1011_0100, 0b0000_0001]);
    // bits of 0xB4, lowest first: 0 0 1 0 1 1 0 1
    assert_eq!(reader.read_bits(3), Ok(0b100));
    assert_eq!(reader.read_bits(5), Ok(0b10110));
    assert_eq!(reader.read_bits(8), Ok(1));
    assert_eq!(reader.read_bits(1), Err(GifError::InsufficientBits));
}

#[test]
fn read_bits_across_byte_boundary() {
    let mut reader = BitReader::new();
    reader.push_bytes(&[0xFF, 0x00, 0x0F]);
    assert_eq!(reader.read_bits(4), Ok(0xF));
    // the next twelve bits are 1111 0000 0000, lowest first
    assert_eq!(reader.read_bits(12), Ok(0x00F));
    assert_eq!(reader.read_bits(8), Ok(0x0F));
}

#[test]
fn insufficient_bits_on_empty_reader() {
    let mut reader = BitReader::new();
    assert_eq!(reader.read_bits(1), Err(GifError::InsufficientBits));
}

#[test]
fn has_bits_refuses_more_than_twelve() {
    let mut reader = BitReader::new();
    reader.push_bytes(&[0xAA, 0xBB]);
    assert_eq!(reader.has_bits(13), None);
    assert_eq!(reader.has_bits(12), Some(true));
    assert_eq!(reader.has_bits(1), Some(true));
}

#[test]
fn has_bits_counts_remaining() {
    let mut reader = BitReader::new();
    reader.push_bytes(&[0xFF]);
    assert_eq!(reader.read_bits(6), Ok(0b111111));
    assert_eq!(reader.has_bits(2), Some(true));
    assert_eq!(reader.has_bits(3), Some(false));
    assert_eq!(reader.read_bits(2), Ok(0b11));
    assert_eq!(reader.has_bits(1), Some(false));
}

#[test]
fn push_bytes_preserves_bit_offset() {
    let mut reader = BitReader::new();
    reader.push_bytes(&[0x0F]);
    assert_eq!(reader.read_bits(4), Ok(0xF));
    // four unread zero bits remain; appending keeps the mid-byte offset
    reader.push_bytes(&[0xFF]);
    assert_eq!(reader.read_bits(8), Ok(0xF0));
    assert_eq!(reader.read_bits(4), Ok(0xF));
}

#[test]
fn push_bytes_restarts_after_exhaustion() {
    let mut reader = BitReader::new();
    reader.push_bytes(&[0xAB]);
    assert_eq!(reader.read_bits(8), Ok(0xAB));
    reader.push_bytes(&[0x05]);
    assert_eq!(reader.read_bits(3), Ok(5));
}
