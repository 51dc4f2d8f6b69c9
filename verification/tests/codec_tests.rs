use riscv_benchmarks::bench::VerifyError;
use riscv_benchmarks::cipher::{aes_round, decrypt_blocks, encrypt_blocks};
use riscv_benchmarks::compress::{compress, compress_round_trip, decompress, RoundTripError};
use riscv_benchmarks::hash::{compute_hash, md5_message, sha256, sha256_benchmark};
use riscv_benchmarks::huffman::HuffmanCoder;

fn hex(bytes: &[u8]) -> String {
    bytes.iter().map(|b| format!("{:02x}", b)).collect()
}

fn aes_key() -> Vec<u8> {
    (0u8..32).collect()
}

fn aes_plain_block() -> Vec<u8> {
    vec![0x00, 0x11, 0x22, 0x33, 0x44, 0x55, 0x66, 0x77, 0x88, 0x99, 0xaa, 0xbb, 0xcc, 0xdd, 0xee, 0xff]
}

const HUFFMAN_TEXT: &[u8] = b"The quick brown fox jumps over the lazy dog. \
This is a test of Huffman encoding and decoding. \
Huffman coding is a lossless data compression algorithm.";

#[test]
fn test_sha256_abc() {
    assert_eq!(
        hex(&sha256(b"abc")),
        "ba7816bf8f01cfea414140de5dae2223b00361a396177a9cb410ff61f20015ad"
    );
}

#[test]
fn test_sha256_benchmark_verdicts() {
    let digest = sha256(b"abc");
    assert_eq!(sha256_benchmark(b"abc", &digest, 3), Ok(()));
    let mut wrong = digest.clone();
    wrong[5] ^= 1;
    assert_eq!(sha256_benchmark(b"abc", &wrong, 3), Err(VerifyError::Mismatch { index: 5 }));
    assert_eq!(sha256_benchmark(b"abc", &wrong, 0), Ok(()));
    assert_eq!(
        sha256_benchmark(b"abc", &digest[..31], 1),
        Err(VerifyError::LengthMismatch { expected_len: 31, actual_len: 32 })
    );
}

#[test]
fn test_md5_known_digests() {
    assert_eq!(hex(&compute_hash(b"")), "d41d8cd98f00b204e9800998ecf8427e");
    assert_eq!(hex(&compute_hash(b"abc")), "900150983cd24fb0d6963f7d28e17f72");
}

#[test]
fn test_md5_message_counts() {
    let msg = md5_message();
    assert_eq!(msg, [0, 1, 2, 3, 4, 5, 6, 7, 8, 9]);
    assert_eq!(compute_hash(&msg).len(), 16);
}

#[test]
fn test_aes256_known_block() {
    let c = encrypt_blocks(&aes_key(), &aes_plain_block());
    assert_eq!(hex(&c), "8ea2b7ca516745bfeafc49904b496089");
    assert_eq!(decrypt_blocks(&aes_key(), &c), aes_plain_block());
}

#[test]
fn test_aes256_blocks_independent() {
    let mut two = aes_plain_block();
    two.extend(aes_plain_block());
    let c = encrypt_blocks(&aes_key(), &two);
    assert_eq!(c.len(), 32);
    assert_eq!(c[..16], c[16..]);
    assert_eq!(decrypt_blocks(&aes_key(), &c), two);
    assert!(encrypt_blocks(&aes_key(), &[]).is_empty());
}

#[test]
fn test_aes_round_verdicts() {
    let c = encrypt_blocks(&aes_key(), &aes_plain_block());
    assert_eq!(aes_round(&aes_key(), &aes_plain_block(), &c), Ok(()));
    let mut wrong = c.clone();
    wrong[0] ^= 0x80;
    assert_eq!(aes_round(&aes_key(), &aes_plain_block(), &wrong), Err(VerifyError::Mismatch { index: 0 }));
}

#[test]
fn test_compress_round_trip() {
    let data: Vec<u8> = b"<a><b>text</b><b>text</b><b>text</b></a>".repeat(25);
    let compressed = compress(&data);
    assert!(compressed.len() < data.len());
    assert_eq!(decompress(&compressed), Ok(data.clone()));
    assert_eq!(compress_round_trip(&data), Ok(compressed.len()));
}

#[test]
fn test_compress_empty() {
    let compressed = compress(&[]);
    assert_eq!(decompress(&compressed), Ok(vec![]));
    assert_eq!(compress_round_trip(&[]), Ok(compressed.len()));
}

#[test]
fn test_decompress_corrupt() {
    assert_eq!(decompress(&[0xff]), Err(RoundTripError::Corrupt));
}

#[test]
fn test_huffman_round_trip() {
    let coder = HuffmanCoder::build(HUFFMAN_TEXT);
    let bits = coder.encode(HUFFMAN_TEXT);
    assert!(bits.len() < 8 * HUFFMAN_TEXT.len());
    assert_eq!(coder.decode(&bits), HUFFMAN_TEXT.to_vec());
}

#[test]
fn test_huffman_codes_cover_text() {
    let coder = HuffmanCoder::build(HUFFMAN_TEXT);
    let codes = coder.generate_codes();
    assert_eq!(codes.len(), 256);
    for b in 0..256usize {
        let used = HUFFMAN_TEXT.contains(&(b as u8));
        assert_eq!(codes[b].is_some(), used);
    }
    let mut total = 0;
    for &ch in HUFFMAN_TEXT {
        total += codes[ch as usize].as_ref().unwrap().len();
    }
    assert_eq!(total, coder.encode(HUFFMAN_TEXT).len());
}

#[test]
fn test_huffman_codes_prefix_free() {
    let coder = HuffmanCoder::build(HUFFMAN_TEXT);
    let codes: Vec<Vec<bool>> = coder.generate_codes().into_iter().flatten().collect();
    for (i, a) in codes.iter().enumerate() {
        for (j, b) in codes.iter().enumerate() {
            if i != j {
                assert!(!b.starts_with(a));
            }
        }
    }
}

#[test]
fn test_huffman_two_symbols() {
    let text = b"abab";
    let coder = HuffmanCoder::build(text);
    let bits = coder.encode(text);
    assert_eq!(bits.len(), 4);
    assert_eq!(coder.decode(&bits), text.to_vec());
}

#[test]
fn test_huffman_least_frequent_joined_first() {
    let coder = HuffmanCoder::build(b"aab");
    let codes = coder.generate_codes();
    assert_eq!(codes[b'b' as usize], Some(vec![false]));
    assert_eq!(codes[b'a' as usize], Some(vec![true]));
    assert_eq!(coder.encode(b"aab"), vec![true, true, false]);
}

#[test]
fn test_huffman_ties_broken_by_position() {
    let coder = HuffmanCoder::build(b"abcc");
    let codes = coder.generate_codes();
    assert_eq!(codes[b'c' as usize], Some(vec![false]));
    assert_eq!(codes[b'a' as usize], Some(vec![true, false]));
    assert_eq!(codes[b'b' as usize], Some(vec![true, true]));
    assert_eq!(codes[b'd' as usize], None);
}

#[test]
fn test_huffman_encoded_length_is_weighted_depth() {
    let text = b"abracadabra, said the magician";
    let coder = HuffmanCoder::build(text);
    let codes = coder.generate_codes();
    let mut weighted = 0usize;
    for c in 0..256usize {
        let count = text.iter().filter(|&&b| b as usize == c).count();
        if let Some(code) = &codes[c] {
            weighted += count * code.len();
        }
    }
    assert_eq!(coder.encode(text).len(), weighted);
    // 'a' occurs most often and gets the shortest code
    let a_len = codes[b'a' as usize].as_ref().unwrap().len();
    assert!(codes.iter().flatten().all(|c| c.len() >= a_len));
}
