use compression_toolkit::error::CodecError;
use compression_toolkit::io::{BitReader, BitWriter};
use compression_toolkit::tans::{build_decode_table, compute_coded_nbits, compute_stride, Decoder, Encoder};

const EXAMPLE_TABLE: &[(char, u8, u32)] = &[
    ('c', 3, 0), // 0
    ('b', 1, 6), // 1
    ('a', 2, 4), // 2
    ('b', 0, 1), // 3
    ('b', 1, 4), // 4
    ('a', 2, 0), // 5
    ('b', 0, 0), // 6
    ('b', 1, 2), // 7
];

fn tans_prev_state<S: Copy + Eq>(successor: u32, sym: S, table: &[(S, u8, u32)]) -> u32 {
    for i in 0..table.len() {
        let (s, nbits, base) = table[i];
        if s == sym && base <= successor && (base + (1 << nbits)) > successor {
            return i as u32;
        }
    }
    panic!("Cannot encode symbol; table malformed.");
}

#[test]
fn test_coded_nbits() {
    // 8 total states, bits for a state that occurs 4 times should be 1 for every successor state.
    let coded_one = compute_coded_nbits(4, 3);
    assert_eq!(coded_one >> 24, 1);
    assert_eq!((coded_one + 7) >> 24, 1);

    // 8 total states, bits for a state that occurs 3 times should be 1 for every successor
    // state < 4, and 2 for successor state >= 4.
    let coded_one_two = compute_coded_nbits(3, 3);
    assert_eq!(coded_one_two >> 24, 1);
    assert_eq!((coded_one_two + 3) >> 24, 1);
    assert_eq!((coded_one_two + 4) >> 24, 2);
    assert_eq!((coded_one_two + 7) >> 24, 2);
}

#[test]
fn decode_abbc() {
    let input = [0xdu8];
    let mut reader = BitReader::new(&input);
    let mut decoder = Decoder::new(EXAMPLE_TABLE).unwrap();
    assert_eq!(decoder.decode_first(&mut reader).unwrap(), 'a');
    assert_eq!(decoder.decode_sym(&mut reader).unwrap(), 'b');
    assert_eq!(decoder.decode_sym(&mut reader).unwrap(), 'b');
    assert_eq!(decoder.decode_sym(&mut reader).unwrap(), 'c');
}

#[test]
fn encode_abbac_slow() {
    let table = EXAMPLE_TABLE;
    let s = tans_prev_state(0, 'c', table);
    assert_eq!(s, 0);
    let s = tans_prev_state(s, 'a', table);
    assert_eq!(s, 5);
    let s = tans_prev_state(s, 'b', table);
    assert_eq!(s, 4);
    let s = tans_prev_state(s, 'b', table);
    assert_eq!(s, 4);
    let s = tans_prev_state(s, 'a', table);
    assert_eq!(s, 2);
}

#[test]
fn encoder_new() {
    let freqs = &[2, 5, 1];
    let encoder = Encoder::new(3, freqs).unwrap();
    assert_eq!((encoder.symbol_entry(0).0 + 7) >> 24, 2);
    assert_eq!(encoder.symbol_entry(0).1, 6);
    assert_eq!((encoder.symbol_entry(1).0 + 1) >> 24, 0);
    assert_eq!((encoder.symbol_entry(1).0 + 7) >> 24, 1);
    assert_eq!(encoder.symbol_entry(1).1, 5);
    assert_eq!((encoder.symbol_entry(2).0 + 7) >> 24, 3);
    assert_eq!(encoder.symbol_entry(2).1, 6);
    assert_eq!(encoder.origin_at(0), 5);
    assert_eq!(encoder.origin_at(1), 2);
    assert_eq!(encoder.origin_at(2), 7);
}

#[test]
fn encode_abbac() {
    let freqs = &[2, 5, 1];
    let mut writer = BitWriter::new();
    let mut encoder = Encoder::new(3, freqs).unwrap();
    // The state table should be
    //   state | 0 | 1 | 2 | 3 | 4 | 5 | 6 | 7 |
    //     sym | c | b | a | b | b | a | b | b |
    //   nbits | 3 | 1 | 2 | 0 | 1 | 2 | 0 | 1 |
    //    base | 0 | 6 | 4 | 1 | 4 | 0 | 0 | 2 |
    encoder.encode_first(2).unwrap();
    assert_eq!(encoder.state(), 0);
    encoder.encode_sym(0).unwrap();
    assert_eq!(encoder.state(), 5);
    encoder.encode_sym(1).unwrap();
    assert_eq!(encoder.state(), 4);
    encoder.encode_sym(1).unwrap();
    assert_eq!(encoder.state(), 4);
    encoder.encode_sym(0).unwrap();
    assert_eq!(encoder.state(), 2);
    assert!(encoder.write(&mut writer).is_ok());
    assert!(writer.flush().is_ok());
    assert_eq!(writer.bytes().as_slice(), b"\x42\x00");
}

#[test]
fn decode_table_matches_hand_built_table() {
    let table = build_decode_table(3, &[2, 5, 1], &['a', 'b', 'c']).unwrap();
    assert_eq!(table.as_slice(), EXAMPLE_TABLE);
    let decoder = Decoder::new(&table).unwrap();
    assert_eq!(decoder.table(), EXAMPLE_TABLE);
}

#[test]
fn decode_reads_back_encoded_scenario() {
    // c, a, b, b, a encoded; the decoder yields them last first.
    let input = [0x42u8, 0x00];
    let mut reader = BitReader::new(&input);
    let table = build_decode_table(3, &[2, 5, 1], &['a', 'b', 'c']).unwrap();
    let mut decoder = Decoder::new(&table).unwrap();
    assert_eq!(decoder.decode_first(&mut reader).unwrap(), 'a');
    assert_eq!(decoder.decode_sym(&mut reader).unwrap(), 'b');
    assert_eq!(decoder.decode_sym(&mut reader).unwrap(), 'b');
    assert_eq!(decoder.decode_sym(&mut reader).unwrap(), 'a');
    assert_eq!(decoder.decode_sym(&mut reader).unwrap(), 'c');
    assert_eq!(decoder.state(), 0);
}

fn round_trip(sbits: u32, freqs: &[u32], message: &[u32]) {
    let symbols: Vec<u32> = (0..freqs.len() as u32).collect();
    let mut encoder = Encoder::new(sbits, freqs).unwrap();
    // Encode back to front so that the decoder yields the message in order.
    let last = message.len() - 1;
    encoder.encode_first(message[last]).unwrap();
    for i in (0..last).rev() {
        encoder.encode_sym(message[i]).unwrap();
    }
    let mut writer = BitWriter::new();
    encoder.write(&mut writer).unwrap();
    writer.flush().unwrap();
    let bytes = writer.bytes().clone();
    let mut reader = BitReader::new(&bytes);
    let table = build_decode_table(sbits, freqs, &symbols).unwrap();
    let mut decoder = Decoder::new(&table).unwrap();
    let mut decoded = vec![decoder.decode_first(&mut reader).unwrap()];
    for _ in 1..message.len() {
        decoded.push(decoder.decode_sym(&mut reader).unwrap());
    }
    assert_eq!(decoded, message);
}

#[test]
fn round_trip_small_table() {
    round_trip(3, &[2, 5, 1], &[0, 2, 1, 1, 0, 0, 1, 2, 1, 1, 1]);
}

#[test]
fn round_trip_long_message_fills_words() {
    let freqs = [100, 3, 0, 900, 21];
    let mut message = Vec::new();
    for i in 0..2000u32 {
        let s = match i % 7 {
            0 => 1,
            1 | 4 => 0,
            2 => 4,
            _ => 3,
        };
        message.push(s);
    }
    round_trip(10, &freqs, &message);
}

#[test]
fn round_trip_large_table() {
    let mut freqs = vec![1u32; 1 << 12];
    freqs[0] = (1 << 16) - (1 << 12) + 1;
    let message: Vec<u32> = (0..500u32).map(|i| (i * 37) % 4096).collect();
    round_trip(16, &freqs, &message);
}

#[test]
fn single_symbol_writes_only_the_state() {
    let mut encoder = Encoder::new(4, &[0, 16, 0]).unwrap();
    encoder.encode_first(1).unwrap();
    for _ in 0..50 {
        encoder.encode_sym(1).unwrap();
    }
    let mut writer = BitWriter::new();
    encoder.write(&mut writer).unwrap();
    writer.flush().unwrap();
    // Only the 4-bit final state is written.
    assert_eq!(writer.bytes().len(), 1);
    let bytes = writer.bytes().clone();
    let mut reader = BitReader::new(&bytes);
    let table = build_decode_table(4, &[0, 16, 0], &['x', 'y', 'z']).unwrap();
    let mut decoder = Decoder::new(&table).unwrap();
    assert_eq!(decoder.decode_first(&mut reader).unwrap(), 'y');
    for _ in 0..50 {
        assert_eq!(decoder.decode_sym(&mut reader).unwrap(), 'y');
    }
}

#[test]
fn stride_is_odd() {
    assert_eq!(compute_stride(1), 5);
    assert_eq!(compute_stride(8), 5);
    assert_eq!(compute_stride(16), 13);
    assert_eq!(compute_stride(1 << 24), (1 << 23) + (1 << 21) + 3);
    for sbits in 0..25 {
        assert_eq!(compute_stride(1 << sbits) % 2, 1);
    }
}

#[test]
fn selector_boundary_at_threshold() {
    // freq 3 of 16 states: n = 2, covered = 12, threshold = 8.
    let c = compute_coded_nbits(3, 4);
    assert_eq!((7 + c) >> 24, 2);
    assert_eq!((8 + c) >> 24, 3);
    assert_eq!(compute_coded_nbits(0, 4), 0);
    assert_eq!(compute_coded_nbits(16, 4) >> 24, 0);
}

#[test]
fn bad_distributions_are_rejected() {
    assert_eq!(Encoder::new(3, &[2, 5, 2]).err(), Some(CodecError::InvalidDistribution));
    assert_eq!(Encoder::new(3, &[2, 5]).err(), Some(CodecError::InvalidDistribution));
    assert_eq!(Encoder::new(25, &[1 << 25]).err(), Some(CodecError::InvalidDistribution));
    assert!(build_decode_table(2, &[3, 0], &['a', 'b']).is_err());
    assert!(Decoder::new(&vec![('a', 0u8, 0u32); 6]).is_err());
    assert!(Decoder::new(&vec![('a', 1u8, 1u32); 2]).is_err());
}

#[test]
fn zero_frequency_symbol_is_rejected() {
    let mut encoder = Encoder::new(3, &[2, 0, 6]).unwrap();
    assert_eq!(encoder.encode_first(1), Err(CodecError::ZeroFrequencySymbol));
    encoder.encode_first(0).unwrap();
    let before = encoder.state();
    assert_eq!(encoder.encode_sym(1), Err(CodecError::ZeroFrequencySymbol));
    assert_eq!(encoder.state(), before);
}

#[test]
fn truncated_input_is_reported() {
    let input = [0x02u8];
    let mut reader = BitReader::new(&input);
    let table = build_decode_table(3, &[2, 5, 1], &['a', 'b', 'c']).unwrap();
    let mut decoder = Decoder::new(&table).unwrap();
    assert_eq!(decoder.decode_first(&mut reader).unwrap(), 'a');
    // 3 + 2 + 1 + 1 + 1 bits fill the byte.
    decoder.decode_sym(&mut reader).unwrap();
    decoder.decode_sym(&mut reader).unwrap();
    decoder.decode_sym(&mut reader).unwrap();
    decoder.decode_sym(&mut reader).unwrap();
    assert_eq!(decoder.decode_sym(&mut reader), Err(CodecError::TruncatedInput));
}

#[test]
fn each_symbol_covers_every_state_once() {
    let table = build_decode_table(4, &[3, 7, 1, 5], &[0u8, 1, 2, 3]).unwrap();
    for sym in 0..4u8 {
        for v in 0..16u32 {
            let covering = table
                .iter()
                .filter(|(s, nbits, base)| *s == sym && *base <= v && v < base + (1 << nbits))
                .count();
            assert_eq!(covering, 1);
        }
    }
}
