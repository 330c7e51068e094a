use lzw_arc::bitbuf::{get_bits_count, BitBuffer};
use lzw_arc::compress::Compressor;
use lzw_arc::decompress::Decompressor;
use lzw_arc::lzw::{
    compress, compress_padded, decompress, decompress_deciphered, derive_key, split_cipher,
    strip_final_zeros,
};
use lzw_arc::LzwError;
use rand::rngs::StdRng;
use rand::{Rng, SeedableRng};

fn round_trip(data: &[u8], max_bits: usize) -> Vec<u8> {
    let packed = compress(data, max_bits).unwrap();
    decompress(&packed, max_bits).unwrap()
}

fn pseudo_random(len: usize, seed: u64) -> Vec<u8> {
    let mut rng = StdRng::seed_from_u64(seed);
    (0..len).map(|_| rng.gen::<u8>()).collect()
}

#[test]
fn compress_test() {
    let packed = compress(b"TOBEORNOTTOBEORTOBEORNOT", 16).unwrap();
    assert_eq!(
        packed,
        vec![84, 39, 144, 136, 164, 242, 145, 56, 158, 84, 128, 64, 160, 144, 152, 28, 22, 14]
    );
}

#[test]
fn decompress_test() {
    let packed = vec![84, 39, 144, 136, 164, 242, 145, 56, 158, 84, 128, 64, 160, 144, 152, 28, 22, 14];
    assert_eq!(decompress(&packed, 16).unwrap(), b"TOBEORNOTTOBEORTOBEORNOT".to_vec());
}

#[test]
fn aes_test() {
    let data = pseudo_random(5000, 7);
    let plain = compress_padded(&data, 16).unwrap();
    assert_eq!(plain.len() % 16, 0);
    assert_eq!(decompress_deciphered(&plain, 16).unwrap(), data);
}

#[test]
fn derive_key_matches_pbkdf2_hmac_sha256() {
    let key = derive_key("secret");
    assert_eq!(
        key,
        [150, 71, 163, 192, 226, 171, 187, 161, 85, 237, 24, 199, 118, 77, 160, 59]
    );
    assert_ne!(derive_key("secret"), derive_key("Secret"));
}

#[test]
fn abab_exact_codes() {
    // codes 65/8, 66/9, 256/9, 258/9
    assert_eq!(compress(b"ABABABA", 16).unwrap(), vec![65, 33, 64, 32, 64]);
    assert_eq!(round_trip(b"ABABABA", 16), b"ABABABA".to_vec());
}

#[test]
fn nine_a_bytes_kwk_case() {
    let x = b"AAAAAAAAA";
    assert_eq!(compress(x, 9).unwrap(), vec![65, 128, 64, 96, 32]);
    assert_eq!(round_trip(x, 9), x.to_vec());
}

#[test]
fn all_byte_values_in_order() {
    let x: Vec<u8> = (0..=255u8).collect();
    let packed = compress(&x, 9).unwrap();
    // one 8-bit code, then 255 codes of 9 bits: 2303 bits in 288 bytes
    assert_eq!(packed.len(), 288);
    assert_eq!(packed[0], 0);
    assert_eq!(decompress(&packed, 9).unwrap(), x);
}

#[test]
fn single_byte_input() {
    assert_eq!(compress(b"a", 9).unwrap(), vec![97]);
    assert_eq!(round_trip(b"a", 9), b"a".to_vec());
}

#[test]
fn empty_input_gives_empty_output() {
    let packed = compress(&[], 16).unwrap();
    assert!(packed.is_empty());
    assert!(decompress(&packed, 16).unwrap().is_empty());
}

#[test]
fn max_bits_out_of_range_rejected() {
    assert_eq!(compress(b"abc", 8), Err(LzwError::InvalidMaxBits));
    assert_eq!(compress(b"abc", 33), Err(LzwError::InvalidMaxBits));
    assert_eq!(decompress(b"abc", 8), Err(LzwError::InvalidMaxBits));
    assert_eq!(decompress(b"abc", 33), Err(LzwError::InvalidMaxBits));
    assert!(Compressor::new(8).is_err());
    assert!(Compressor::new(33).is_err());
    assert!(Decompressor::new(8).is_err());
    assert!(Decompressor::new(33).is_err());
    assert!(Compressor::new(9).is_ok());
    assert!(Decompressor::new(32).is_ok());
}

#[test]
fn random_inputs_round_trip() {
    for len in [1usize, 2, 17, 255, 256, 1000, 1024] {
        let x = pseudo_random(len, len as u64);
        for max_bits in [9usize, 12, 16, 32] {
            assert_eq!(round_trip(&x, max_bits), x);
        }
    }
}

#[test]
fn repetitive_input_round_trip() {
    let x: Vec<u8> = b"abcabcabcabd".iter().cycle().take(50_000).cloned().collect();
    assert_eq!(round_trip(&x, 9), x);
    let y = vec![b'z'; 70_000];
    assert_eq!(round_trip(&y, 9), y);
    assert_eq!(round_trip(&y, 16), y);
}

#[test]
fn many_distinct_substrings_force_reset() {
    // far more than 2^9 distinct substrings
    let x = pseudo_random(20_000, 3);
    let packed = compress(&x, 9).unwrap();
    assert_eq!(decompress(&packed, 9).unwrap(), x);
}

#[test]
fn large_random_input_with_resets() {
    let x = pseudo_random(200_000, 42);
    let packed = compress(&x, 12).unwrap();
    assert_eq!(decompress(&packed, 12).unwrap(), x);
}

#[test]
fn streaming_matches_whole_buffer() {
    let x = pseudo_random(30_000, 11);
    let mut c = Compressor::new(10).unwrap();
    let mut packed = Vec::new();
    for chunk in x.chunks(777) {
        c.compress(chunk, &mut packed);
    }
    c.finish(&mut packed);
    assert_eq!(packed, compress(&x, 10).unwrap());
    let mut d = Decompressor::new(10).unwrap();
    let mut out = Vec::new();
    for chunk in packed.chunks(5) {
        d.decompress(chunk, &mut out).unwrap();
    }
    assert_eq!(out, x);
}

#[test]
fn truncated_stream_decodes_a_prefix() {
    let x = pseudo_random(4000, 5);
    let mut packed = compress(&x, 12).unwrap();
    packed.pop();
    let out = decompress(&packed, 12).unwrap();
    assert!(out.len() < x.len());
    assert_eq!(out[..], x[..out.len()]);
}

#[test]
fn flipped_byte_is_wrong_or_corrupt() {
    let x = pseudo_random(4000, 9);
    let mut packed = compress(&x, 12).unwrap();
    let mid = packed.len() / 2;
    packed[mid] ^= 0xff;
    match decompress(&packed, 12) {
        Ok(out) => assert_ne!(out, x),
        Err(e) => assert_eq!(e, LzwError::CorruptCode),
    }
}

#[test]
fn code_past_next_index_is_corrupt() {
    // first code 65 (8 bits), then 0x1ff (9 bits) where 256 is the next index
    assert_eq!(decompress(&[65, 255, 128], 9), Err(LzwError::CorruptCode));
    // eight bits after the first code are too few for a 9-bit code: padding
    assert_eq!(decompress(&[0xff, 0xff], 9).unwrap(), vec![255]);
}

#[test]
fn bit_buffer_push_then_pop() {
    for w in 1u8..=32 {
        let v: u32 = if w == 32 { 0xdead_beef } else { (0x5a5a_5a5a_u32) & ((1u32 << w) - 1) };
        let mut b = BitBuffer::new();
        b.push_bits(v, w);
        assert_eq!(b.len(), w as usize);
        assert_eq!(b.pop_bits(w), Some(v));
        assert_eq!(b.len(), 0);
    }
}

#[test]
fn bit_buffer_keeps_order() {
    let mut b = BitBuffer::new();
    b.push_bits(5, 3);
    b.push_bits(300, 9);
    assert_eq!(b.pop_bits(3), Some(5));
    assert_eq!(b.pop_bits(9), Some(300));
    assert_eq!(b.pop_bits(1), None);
}

#[test]
fn bit_buffer_bytes_and_padding() {
    let mut b = BitBuffer::new();
    b.push_bits(0b1010_1100_1, 9);
    assert_eq!(b.pop_byte(), Some(0b1010_1100));
    assert_eq!(b.pop_byte(), None);
    assert_eq!(b.len(), 1);
    b.push_bits(0b11, 2);
    assert_eq!(b.drain_remaining_as_bytes(), vec![0b1110_0000]);
    assert_eq!(b.len(), 0);
    assert_eq!(b.pop_bits(4), None);
}

#[test]
fn bits_count_of_values() {
    assert_eq!(get_bits_count(0), 0);
    assert_eq!(get_bits_count(1), 1);
    assert_eq!(get_bits_count(255), 8);
    assert_eq!(get_bits_count(256), 9);
    assert_eq!(get_bits_count(511), 9);
    assert_eq!(get_bits_count(u32::MAX), 32);
}

#[test]
fn cipher_length_rules() {
    assert_eq!(split_cipher(&[0u8; 16]), Err(LzwError::CorruptCipher));
    assert_eq!(split_cipher(&[0u8; 40]), Err(LzwError::CorruptCipher));
    assert_eq!(split_cipher(&[]), Err(LzwError::CorruptCipher));
    let file: Vec<u8> = (0..48u8).collect();
    let (iv, body) = split_cipher(&file).unwrap();
    assert_eq!(iv, (0..16u8).collect::<Vec<u8>>());
    assert_eq!(body, (16..48u8).collect::<Vec<u8>>());
}

#[test]
fn zero_padding_and_stripping() {
    let plain = compress_padded(b"ABABABA", 16).unwrap();
    assert_eq!(plain.len(), 16);
    assert_eq!(&plain[..5], &[65, 33, 64, 32, 64]);
    assert!(plain[5..].iter().all(|b| *b == 0));
    assert_eq!(strip_final_zeros(&plain), vec![65, 33, 64, 32, 64]);
    // only the last block loses its zeros
    let mut two = vec![1u8, 0, 0];
    two.extend_from_slice(&[0u8; 13]);
    two.extend_from_slice(&[7u8, 0, 0, 0, 0, 0, 0, 0, 0, 0, 0, 0, 0, 0, 0, 0]);
    let mut expect = vec![1u8, 0, 0];
    expect.extend_from_slice(&[0u8; 13]);
    expect.push(7);
    assert_eq!(strip_final_zeros(&two), expect);
    assert_eq!(strip_final_zeros(&[0u8; 16]), Vec::<u8>::new());
}

#[test]
fn block_aligned_stream_gets_a_zero_block() {
    // find an input whose compressed form fills whole blocks
    let mut found = false;
    for len in 1..400usize {
        let x = pseudo_random(len, 21);
        let packed = compress(&x, 12).unwrap();
        if packed.len() % 16 == 0 {
            let plain = compress_padded(&x, 12).unwrap();
            assert_eq!(plain.len(), packed.len() + 16);
            assert_eq!(decompress_deciphered(&plain, 12).unwrap(), x);
            found = true;
            break;
        }
    }
    assert!(found);
}

#[test]
fn reset_on_a_repeated_byte_round_trips() {
    // the reset comes on the second 0xff; the dictionary is then exactly
    // its first 256 entries, and the next code, 0xff, is 8 bits wide
    let mut x: Vec<u8> = (0..=255u8).collect();
    x.extend_from_slice(&[255, 255]);
    assert_eq!(round_trip(&x, 9), x);
    x.push(1);
    assert_eq!(round_trip(&x, 9), x);
    let mut packed = compress(&x, 9).unwrap();
    packed.pop();
    let out = decompress(&packed, 9).unwrap();
    assert_eq!(out[..], x[..out.len()]);
}
