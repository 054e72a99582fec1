use compression_toolkit::backref::{decode, encode};
use compression_toolkit::error::CodecError;
use compression_toolkit::io::{IOTrait, SliceToVecIO};

#[test]
fn decode_empty() {
    let input = b"";
    let mut io = SliceToVecIO::new(input);
    decode(&mut io).unwrap();
    assert_eq!(io.output().as_slice(), b"");
}

#[test]
fn decode_litlit() {
    let input = b"\x03xyz\x02zy";
    let mut io = SliceToVecIO::new(input);
    decode(&mut io).unwrap();
    assert_eq!(io.output().as_slice(), b"xyzzy");
}

#[test]
fn decode_rep0() {
    let input = b"\x01a\x84\x00\x00";
    let mut io = SliceToVecIO::new(input);
    decode(&mut io).unwrap();
    assert_eq!(io.output().as_slice(), b"aaaaa");
}

#[test]
fn decode_rep2() {
    let input = b"\x03abc\x83\x02\x00";
    let mut io = SliceToVecIO::new(input);
    decode(&mut io).unwrap();
    assert_eq!(io.output().as_slice(), b"abcabc");
}

#[test]
fn decode_rep3() {
    let input = b"\x04abcd\x83\x03\x00";
    let mut io = SliceToVecIO::new(input);
    decode(&mut io).unwrap();
    assert_eq!(io.output().as_slice(), b"abcdabc");
}

#[test]
fn decode_truncated_literal() {
    let mut io = SliceToVecIO::new(b"\x05ab");
    assert_eq!(decode(&mut io), Err(CodecError::TruncatedInput));
    let mut io = SliceToVecIO::new(b"\x01a\x84\x00");
    assert_eq!(decode(&mut io), Err(CodecError::TruncatedInput));
}

#[test]
fn decode_reference_before_start() {
    let mut io = SliceToVecIO::new(b"\x01a\x84\x01\x00");
    assert_eq!(decode(&mut io), Err(CodecError::BadReference));
}

#[test]
fn encode_empty() {
    let input = b"";
    let mut io = SliceToVecIO::new(input);
    encode(&mut io).unwrap();
    assert_eq!(io.output().as_slice(), b"");
}

#[test]
fn encode_lit() {
    let input = b"a";
    let mut io = SliceToVecIO::new(input);
    encode(&mut io).unwrap();
    assert_eq!(io.output().as_slice(), b"\x01a");
}

#[test]
fn encode_litlit() {
    let input: Vec<u8> = (0..=253).collect();
    let mut io = SliceToVecIO::new(&input[..]);
    encode(&mut io).unwrap();
    let expected: Vec<u8> = (0x7f..=0x7f).chain(0..=126).chain(0x7f..=0x7f).chain(127..=253).collect();
    assert_eq!(io.output(), &expected);
}

#[test]
fn encode_rep0() {
    let input = b"aaaaa";
    let mut io = SliceToVecIO::new(input);
    encode(&mut io).unwrap();
    assert_eq!(io.output().as_slice(), b"\x01a\x84\x00\x00");
}

#[test]
fn encode_rep_lit() {
    let input = b"aaaaab";
    let mut io = SliceToVecIO::new(input);
    encode(&mut io).unwrap();
    assert_eq!(io.output().as_slice(), b"\x01a\x84\x00\x00\x01b");
}

#[test]
fn encode_rep2() {
    let input = b"abcabc";
    let mut io = SliceToVecIO::new(input);
    encode(&mut io).unwrap();
    assert_eq!(io.output().as_slice(), b"\x03abc\x83\x02\x00");
}

#[test]
fn encode_rep3() {
    let input = b"abcdabc";
    let mut io = SliceToVecIO::new(input);
    encode(&mut io).unwrap();
    assert_eq!(io.output().as_slice(), b"\x04abcd\x83\x03\x00");
}

fn round_trip(input: &[u8]) {
    let mut io = SliceToVecIO::new(input);
    encode(&mut io).unwrap();
    let packed = io.output().clone();
    let mut io = SliceToVecIO::new(&packed);
    decode(&mut io).unwrap();
    assert_eq!(io.output().as_slice(), input);
}

#[test]
fn encode_then_decode_gives_input() {
    round_trip(b"abababababababababababab");
    round_trip(b"the cat sat on the mat; the cat sat on the hat");
    let long: Vec<u8> = (0..3000u32).map(|i| ((i * i) % 7 + (i / 300)) as u8).collect();
    round_trip(&long);
    let runs: Vec<u8> = (0..1000u32).map(|i| if i % 130 < 128 { b'x' } else { b'y' }).collect();
    round_trip(&runs);
}

#[test]
fn decode_appends_after_existing_output() {
    let mut io = SliceToVecIO::new(b"ab");
    IOTrait::copy_bytes(&mut io, 2).unwrap();
    let mut io2 = SliceToVecIO::new(b"\x83\x01\x00");
    IOTrait::write_byte(&mut io2, b'x').unwrap();
    IOTrait::write_byte(&mut io2, b'y').unwrap();
    decode(&mut io2).unwrap();
    assert_eq!(io2.output().as_slice(), b"xyxyx");
    assert_eq!(io.output().as_slice(), b"ab");
}
