use huffman::compress;
use huffman::decompress;
use huffman::decompress::DecodeError;

fn header_of(counts: &[u64; 256]) -> Vec<u8> {
    let mut out = Vec::new();
    for c in counts.iter() {
        out.extend_from_slice(&c.to_le_bytes());
    }
    out
}

#[test]
fn empty_input_gives_header_and_closing_byte() {
    let out = compress::run(&[]);
    let mut expected = header_of(&[1u64; 256]);
    expected.push(8);
    assert_eq!(out.len(), 2049);
    assert_eq!(out, expected);
}

#[test]
fn empty_input_round_trips() {
    let out = compress::run(&[]);
    assert_eq!(decompress::run(&out), Ok(Vec::new()));
}

#[test]
fn single_repeated_byte_round_trips() {
    let input = vec![0x41u8; 1000];
    let out = compress::run(&input);
    assert!(out.len() >= 2049);
    assert_eq!(decompress::run(&out), Ok(input));
}

#[test]
fn short_text_round_trips() {
    let input = b"AAAAABBBCC".to_vec();
    let out = compress::run(&input);
    assert_eq!(decompress::run(&out), Ok(input));
}

#[test]
fn short_text_counts_and_code_lengths() {
    let input = b"AAAAABBBCC".to_vec();
    let frequencies = compress::get_frequencies(&input);
    assert_eq!(frequencies[b'A' as usize], 6);
    assert_eq!(frequencies[b'B' as usize], 4);
    assert_eq!(frequencies[b'C' as usize], 3);
    assert_eq!(frequencies[b'D' as usize], 1);
    let codes = compress::get_code_map(&frequencies);
    assert!(codes[b'A' as usize].len() <= codes[b'B' as usize].len());
    assert!(codes[b'B' as usize].len() <= codes[b'C' as usize].len());
    assert!(codes[b'A' as usize].len() < codes[b'D' as usize].len());
}

#[test]
fn counts_sum_to_length_plus_256() {
    let input: Vec<u8> = (0..5000u32).map(|i| (i * 7 % 251) as u8).collect();
    let frequencies = compress::get_frequencies(&input);
    let total: usize = frequencies.iter().sum();
    assert_eq!(total, input.len() + 256);
    assert!(frequencies.iter().all(|c| *c >= 1));
}

#[test]
fn output_starts_with_stored_counts() {
    let input = b"hello, hello".to_vec();
    let out = compress::run(&input);
    let frequencies = compress::get_frequencies(&input);
    let mut counts = [0u64; 256];
    for i in 0..256 {
        counts[i] = frequencies[i] as u64;
    }
    assert_eq!(&out[..2048], &header_of(&counts)[..]);
    assert_eq!(decompress::read_frequencies(&out), Ok(frequencies));
}

#[test]
fn write_frequencies_is_little_endian() {
    let mut frequencies = [1usize; 256];
    frequencies[0] = 0x0102;
    let mut out = vec![9u8];
    compress::write_frequencies(&frequencies, &mut out);
    assert_eq!(out.len(), 2049);
    assert_eq!(&out[..10], &[9, 2, 1, 0, 0, 0, 0, 0, 0, 1]);
}

#[test]
fn compressing_twice_gives_the_same_bytes() {
    let input: Vec<u8> = (0..3000u32).map(|i| (i * i % 97) as u8).collect();
    assert_eq!(compress::run(&input), compress::run(&input));
}

#[test]
fn equal_counts_give_each_byte_its_own_value_as_code() {
    let input: Vec<u8> = (0..=255u8).collect();
    let out = compress::run(&input);
    let mut expected = header_of(&[2u64; 256]);
    expected.extend_from_slice(&input);
    expected.push(0);
    assert_eq!(out, expected);
    assert_eq!(decompress::run(&out), Ok(input));
}

#[test]
fn partial_last_byte_is_padded_with_zeros_in_its_low_bits() {
    // With all counts equal every code is eight bits long, so a code table
    // built from such counts packs one input byte into one output byte.
    let frequencies = [1usize; 256];
    let codes = compress::get_code_map(&frequencies);
    let mut short_codes = codes.clone();
    short_codes[0xff] = vec![1, 0, 1];
    let mut out = Vec::new();
    compress::write_codes(&[0x12, 0xff], &short_codes, &mut out);
    assert_eq!(out, vec![0x12, 0b1010_0000, 5]);
}

#[test]
fn codes_are_prefix_free() {
    let input = b"the quick brown fox jumps over the lazy dog".to_vec();
    let codes = compress::get_code_map(&compress::get_frequencies(&input));
    assert_eq!(codes.len(), 256);
    for a in 0..256 {
        assert!(!codes[a].is_empty());
        for b in 0..256 {
            if a != b {
                assert!(!codes[b].starts_with(&codes[a]));
            }
        }
    }
}

#[test]
fn long_mixed_input_round_trips() {
    let mut input = Vec::new();
    let mut x: u32 = 12345;
    for _ in 0..20000 {
        x = x.wrapping_mul(1103515245).wrapping_add(12345);
        let b = (x >> 16) as u8;
        input.push(if b < 200 { b % 7 } else { b });
    }
    let out = compress::run(&input);
    assert!(out.len() < 2049 + input.len());
    assert_eq!(decompress::run(&out), Ok(input));
}

#[test]
fn short_input_is_truncated() {
    assert_eq!(decompress::run(&[]), Err(DecodeError::Truncated));
    assert_eq!(decompress::run(&vec![0u8; 2048]), Err(DecodeError::Truncated));
}

#[test]
fn header_alone_with_closing_byte_is_empty() {
    let mut input = header_of(&[1u64; 256]);
    input.push(3);
    assert_eq!(decompress::run(&input), Ok(Vec::new()));
}

#[test]
fn counts_that_overflow_are_refused() {
    let mut input = header_of(&[u64::MAX; 256]);
    input.push(8);
    assert_eq!(decompress::run(&input), Err(DecodeError::CountOverflow));
    assert_eq!(
        decompress::read_frequencies(&input),
        Err(DecodeError::CountOverflow)
    );
}

#[test]
fn closing_byte_of_eight_after_data_is_refused() {
    let mut input = header_of(&[1u64; 256]);
    input.push(0x41);
    input.push(8);
    assert_eq!(decompress::run(&input), Err(DecodeError::BadPadding));
}

#[test]
fn bits_that_end_inside_a_code_are_refused() {
    let mut input = header_of(&[1u64; 256]);
    input.push(0x41);
    input.push(3);
    assert_eq!(decompress::run(&input), Err(DecodeError::UnmatchedBits));
}

#[test]
fn equal_counts_decode_bytes_as_they_are() {
    let mut input = header_of(&[1u64; 256]);
    input.extend_from_slice(&[0x00, 0x41, 0xff]);
    input.push(0);
    assert_eq!(decompress::run(&input), Ok(vec![0x00, 0x41, 0xff]));
}
