use compression_toolkit::error::CodecError;
use compression_toolkit::io::{BitReader, BitWriter, IOTrait, LookbackInput, ReadBits, RepeatOutput, SliceToVecIO, WriteBits};

#[test]
fn bitreader_empty() {
    let input = b"";
    let mut reader = BitReader::new(input);
    let r = reader.read_bits(1);
    assert!(r.is_err());
}

#[test]
fn bitreader() {
    // From least significant to most significant:
    // 0101 0110 1010 0010 1000 0011 0110 1100
    let input = b"jE\xc16";
    let mut reader = BitReader::new(input);
    // 0101
    assert_eq!(reader.read_bits(4).unwrap(), 0xa);
    // 011
    assert_eq!(reader.read_bits(3).unwrap(), 0x6);
    // 010
    assert_eq!(reader.read_bits(3).unwrap(), 0x2);
    // 1000 1010 0000 1101
    assert_eq!(reader.read_bits(16).unwrap(), 0xb051);
    // 1011 00
    assert_eq!(reader.read_bits(6).unwrap(), 0x0d);
    assert!(reader.read_bits(1).is_err());
}

#[test]
fn bitwriter_5bits() {
    let mut writer = BitWriter::new();
    assert!(writer.write_bits(2, 2).is_ok());
    assert!(writer.write_bits(7, 3).is_ok());
    assert!(writer.flush().is_ok());
    assert_eq!(writer.bytes().as_slice(), [0x1e]);
}

#[test]
fn bitwriter_8bits() {
    let mut writer = BitWriter::new();
    assert!(writer.write_bits(2, 2).is_ok());
    assert!(writer.write_bits(7, 3).is_ok());
    assert!(writer.write_bits(5, 3).is_ok());
    assert!(writer.flush().is_ok());
    assert_eq!(writer.bytes().as_slice(), [0xbe]);
}

#[test]
fn bitwriter_9bits() {
    let mut writer = BitWriter::new();
    assert!(writer.write_bits(2, 2).is_ok());
    assert!(writer.write_bits(7, 3).is_ok());
    assert!(writer.write_bits(9, 4).is_ok());
    assert!(writer.flush().is_ok());
    assert_eq!(writer.bytes().as_slice(), [0x3e, 0x01]);
}

#[test]
fn bitwriter_keeps_only_low_bits() {
    let mut writer = BitWriter::new();
    writer.write_bits(0xff, 1).unwrap();
    writer.write_bits(0, 3).unwrap();
    writer.flush().unwrap();
    assert_eq!(writer.bytes().as_slice(), [0x01]);
}

#[test]
fn bits_round_trip_32_wide() {
    let mut writer = BitWriter::new();
    writer.write_bits(5, 3).unwrap();
    writer.write_bits(0xdead_beef, 32).unwrap();
    writer.write_bits(0, 0).unwrap();
    writer.flush().unwrap();
    let bytes = writer.bytes().clone();
    assert_eq!(bytes.len(), 5);
    let mut reader = BitReader::new(&bytes);
    assert_eq!(reader.read_bits(3).unwrap(), 5);
    assert_eq!(reader.read_bits(32).unwrap(), 0xdead_beef);
    assert_eq!(reader.read_bits(5).unwrap(), 0);
    assert!(reader.read_bits(1).is_err());
}

fn read_through<R: ReadBits>(r: &mut R, n: u32) -> Result<u32, CodecError> {
    r.read_bits(n)
}

fn write_through<W: WriteBits>(w: &mut W, v: u32, n: u8) {
    w.write_bits(v, n).unwrap();
    w.flush().unwrap();
}

#[test]
fn streams_through_traits() {
    let mut writer = BitWriter::new();
    write_through(&mut writer, 0x5a5, 12);
    assert_eq!(writer.bytes().as_slice(), [0xa5, 0x05]);
    let bytes = writer.bytes().clone();
    let mut reader = BitReader::new(&bytes);
    assert_eq!(read_through(&mut reader, 12), Ok(0x5a5));
    assert_eq!(read_through(&mut reader, 5), Err(CodecError::TruncatedInput));

    let mut io = SliceToVecIO::new(b"xyz");
    assert_eq!(IOTrait::next_byte(&mut io), Ok(Some(b'x')));
    IOTrait::copy_bytes(&mut io, 2).unwrap();
    assert_eq!(IOTrait::inpos(&io), 3);
    assert_eq!(IOTrait::next_byte(&mut io), Ok(None));
    assert_eq!(LookbackInput::lookback(&io, 0), b'x');
    IOTrait::write_byte(&mut io, b'!').unwrap();
    RepeatOutput::repeat_bytes(&mut io, 4, 1).unwrap();
    assert_eq!(io.output().as_slice(), b"yz!z!z!");
    assert_eq!(RepeatOutput::repeat_bytes(&mut io, 1, 7), Err(CodecError::BadReference));
}

#[test]
fn flushed_bytes_hold_the_written_bits() {
    let mut writer = BitWriter::new();
    writer.write_bits(0b101, 3).unwrap();
    writer.write_bits(0x3ff, 10).unwrap();
    assert_eq!(writer.bytes().as_slice(), [0xfd]);
    writer.flush().unwrap();
    assert_eq!(writer.bytes().as_slice(), [0xfd, 0x1f]);
    writer.flush().unwrap();
    assert_eq!(writer.bytes().len(), 2);
}
