use splaycompress::bits::{BitReader, BitWriter};
use splaycompress::error::ErrorKind;

#[test]
fn test_write() {
    let mut writer = BitWriter::new(vec![42]);
    assert_eq!(writer.padding_needed(), 0);
    writer.write_bit(true).unwrap();
    assert_eq!(writer.padding_needed(), 7);
    writer.write_bit(false).unwrap();
    assert_eq!(writer.padding_needed(), 6);
    writer.write_bit(false).unwrap();
    assert_eq!(writer.padding_needed(), 5);
    writer.write_bit(true).unwrap();
    assert_eq!(writer.padding_needed(), 4);
    writer.write_bit(true).unwrap();
    assert_eq!(writer.padding_needed(), 3);
    writer.write_bit(true).unwrap();
    assert_eq!(writer.padding_needed(), 2);
    writer.write_bit(false).unwrap();
    assert_eq!(writer.padding_needed(), 1);
    writer.write_bit(false).unwrap();
    assert_eq!(writer.padding_needed(), 0);
    writer.write_bit(false).unwrap();
    assert_eq!(writer.padding_needed(), 7);
    writer.write_bit(false).unwrap();
    assert_eq!(writer.padding_needed(), 6);
    writer.write_bit(true).unwrap();
    assert_eq!(writer.padding_needed(), 5);
    writer.write_bit(true).unwrap();
    assert_eq!(writer.padding_needed(), 4);
    writer.write_bit(true).unwrap();
    assert_eq!(writer.padding_needed(), 3);
    writer.write_bit(true).unwrap();
    assert_eq!(writer.padding_needed(), 2);
    writer.write_bit(true).unwrap();
    assert_eq!(writer.padding_needed(), 1);
    writer.write_bit(false).unwrap();
    assert_eq!(writer.padding_needed(), 0);
    writer.flush().unwrap();
    let buffer = writer.into_inner();
    assert_eq!(&buffer, &[42, 0b1001_1100, 0b0011_1110]);
}

#[test]
fn test_read() {
    let buffer: [u8; 3] = [0b1001_1100, 0b0011_1110, 42];
    let mut reader = BitReader::new(buffer.as_slice());
    assert!(reader.read_bit().unwrap());
    assert!(!reader.read_bit().unwrap());
    assert!(!reader.read_bit().unwrap());
    assert!(reader.read_bit().unwrap());
    assert!(reader.read_bit().unwrap());
    assert!(reader.read_bit().unwrap());
    assert!(!reader.read_bit().unwrap());
    assert!(!reader.read_bit().unwrap());
    assert!(!reader.read_bit().unwrap());
    assert!(!reader.read_bit().unwrap());
    assert!(reader.read_bit().unwrap());
    assert!(reader.read_bit().unwrap());
    assert!(reader.read_bit().unwrap());
    assert!(reader.read_bit().unwrap());
    assert!(reader.read_bit().unwrap());
    assert!(!reader.read_bit().unwrap());
}

#[test]
fn read_bit_fails_at_the_end() {
    let buffer: [u8; 1] = [0b1010_0101];
    let mut reader = BitReader::new(buffer.as_slice());
    let mut bits = Vec::new();
    for _ in 0..8 {
        bits.push(reader.read_bit().unwrap());
    }
    assert_eq!(bits, [true, false, true, false, false, true, false, true]);
    assert_eq!(reader.read_bit().unwrap_err().kind(), ErrorKind::UnexpectedEof);
    assert_eq!(reader.read_bit().unwrap_err().kind(), ErrorKind::UnexpectedEof);
}

#[test]
fn read_bit_of_nothing_fails() {
    let buffer: [u8; 0] = [];
    let mut reader = BitReader::new(buffer.as_slice());
    let err = reader.read_bit().unwrap_err();
    assert_eq!(err.kind(), ErrorKind::UnexpectedEof);
    assert_eq!(err.message(), "unexpected end of file");
}

#[test]
fn written_bytes_read_back_as_the_same_bits() {
    let bits = [
        true, true, false, true, false, false, true, false, false, false, false, false, true, true,
        true, true, true, false, true, false, true, false, true, false,
    ];
    let mut writer = BitWriter::new(Vec::new());
    for b in bits {
        writer.write_bit(b).unwrap();
    }
    assert_eq!(writer.padding_needed(), 0);
    writer.flush().unwrap();
    let bytes = writer.into_inner();
    assert_eq!(bytes, [0b1101_0010, 0b0000_1111, 0b1010_1010]);
    let mut reader = BitReader::new(bytes.as_slice());
    for b in bits {
        assert_eq!(reader.read_bit().unwrap(), b);
    }
    assert!(reader.read_bit().is_err());
}

#[test]
fn waiting_bits_are_not_handed_on() {
    let mut writer = BitWriter::new(Vec::new());
    for _ in 0..11 {
        writer.write_bit(true).unwrap();
    }
    assert_eq!(writer.padding_needed(), 5);
    assert_eq!(writer.into_inner(), [0xff]);
}
