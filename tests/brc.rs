use compression_toolkit::brc::{Decoder, Encoder};

struct Predictor {
    bit: u8,
}

impl Predictor {
    fn new() -> Predictor {
        Predictor { bit: 0 }
    }

    fn p0(&mut self) -> u8 {
        let p = match 7 - self.bit {
            7 => 255,
            6 => 51,
            5 => 20,
            _ => 128,
        };
        self.bit = (self.bit + 1) & 7;
        p
    }
}

#[test]
fn decode_hi() {
    let mut decoder = Decoder::new();
    assert_eq!(decoder.needs_normalize(), true);
    decoder.normalize(0x73);
    assert_eq!(decoder.needs_normalize(), true);
    decoder.normalize(0xe4);
    assert_eq!(decoder.needs_normalize(), true);
    decoder.normalize(0x00);
    assert_eq!(decoder.needs_normalize(), false);
    assert_eq!(decoder.decode_bit(160), false);
    assert_eq!(decoder.decode_bit(160), true);
    assert_eq!(decoder.decode_bit(160), false);
    assert_eq!(decoder.decode_bit(160), false);
    assert_eq!(decoder.decode_bit(160), true);
    assert_eq!(decoder.decode_bit(160), false);
    assert_eq!(decoder.decode_bit(160), false);
    assert_eq!(decoder.decode_bit(160), false);
    assert_eq!(decoder.decode_bit(160), false);
    assert_eq!(decoder.needs_normalize(), false);
    assert_eq!(decoder.decode_bit(160), true);
    assert_eq!(decoder.needs_normalize(), true);
    decoder.normalize(0x00);
    assert_eq!(decoder.decode_bit(160), true);
    assert_eq!(decoder.decode_bit(160), false);
    assert_eq!(decoder.decode_bit(160), true);
    assert_eq!(decoder.decode_bit(160), false);
    assert_eq!(decoder.decode_bit(160), false);
    assert_eq!(decoder.decode_bit(160), true);
}

#[test]
fn encode_hi() {
    let mut encoder = Encoder::new();
    encoder.encode_bit(160, false);
    encoder.encode_bit(160, true);
    encoder.encode_bit(160, false);
    encoder.encode_bit(160, false);
    encoder.encode_bit(160, true);
    encoder.encode_bit(160, false);
    encoder.encode_bit(160, false);
    encoder.encode_bit(160, false);
    encoder.encode_bit(160, false);
    assert_eq!(encoder.needs_normalize(), false);
    encoder.encode_bit(160, true);
    assert_eq!(encoder.needs_normalize(), true);
    assert_eq!(encoder.normalize(), 0x73);
    encoder.encode_bit(160, true);
    encoder.encode_bit(160, false);
    encoder.encode_bit(160, true);
    encoder.encode_bit(160, false);
    encoder.encode_bit(160, false);
    encoder.encode_bit(160, true);
    assert_eq!(encoder.needs_normalize(), false);
    assert_eq!(encoder.flush(), 0xe4);
}

#[test]
fn english() {
    let input = b"Hello, world!\n";
    let mut output = Vec::new();

    let mut predictor = Predictor::new();
    let mut encoder = Encoder::new();

    for b in input {
        for i in 0..8 {
            let bit = b & (1 << (7 - i)) != 0;
            encoder.encode_bit(predictor.p0(), bit);
            if encoder.needs_normalize() {
                output.push(encoder.normalize());
            }
        }
    }
    output.push(encoder.flush());
    assert_eq!(output, b"6\xfb\x8dkd>\x16\xaf#\xd8\xfa");

    let mut predictor = Predictor::new();
    let mut decoder = Decoder::new();
    let mut input = output.iter();
    let mut output = Vec::new();
    for _ in 0..14 {
        let mut b = 0;
        for i in 0..8 {
            while decoder.needs_normalize() {
                decoder.normalize(*input.next().unwrap_or(&0));
            }
            b |= (decoder.decode_bit(predictor.p0()) as u8) << (7 - i);
        }
        output.push(b);
    }

    assert_eq!(output, b"Hello, world!\n");
}

#[test]
fn threshold_splits_range() {
    // range 0xffffff, p0 128: threshold 0x7fffff.
    let mut encoder = Encoder::new();
    encoder.encode_bit(128, true);
    assert_eq!(encoder.flush(), 0xff);
    let mut encoder = Encoder::new();
    encoder.encode_bit(128, false);
    assert_eq!(encoder.flush(), 0x7f);
}
