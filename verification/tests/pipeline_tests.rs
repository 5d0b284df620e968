use cryptono_zip::{compress, decompress, CzipError, Strategy};

fn roundtrip(input: &[u8], st: Strategy) {
    let v = input.to_vec();
    let block = compress(&v, st);
    let back = decompress(&block).unwrap();
    assert_eq!(back, v);
}

#[test]
fn roundtrip_huffman_only() {
    roundtrip(b"AAABBC", Strategy::HuffmanOnly);
    roundtrip(b"hello world, hello world, hello world", Strategy::HuffmanOnly);
    roundtrip(&[0u8, 255, 17, 17, 3, 0, 255], Strategy::HuffmanOnly);
    roundtrip(b"x", Strategy::HuffmanOnly);
}

#[test]
fn roundtrip_lz77_only() {
    roundtrip(b"AAABBC", Strategy::LZ77Only);
    roundtrip(b"hello world, hello world, hello world", Strategy::LZ77Only);
    roundtrip(&b"test ".repeat(30), Strategy::LZ77Only);
    roundtrip(b"x", Strategy::LZ77Only);
}

#[test]
fn roundtrip_deflate() {
    roundtrip(b"AAABBC", Strategy::Deflate);
    roundtrip(b"hello world, hello world, hello world", Strategy::Deflate);
    roundtrip(&b"test ".repeat(30), Strategy::Deflate);
    roundtrip(&vec![b'A'; 300], Strategy::Deflate);
    roundtrip(b"x", Strategy::Deflate);
}

#[test]
fn roundtrip_all_byte_values() {
    let input: Vec<u8> = (0..=255u8).collect();
    for st in [Strategy::HuffmanOnly, Strategy::LZ77Only, Strategy::Deflate] {
        roundtrip(&input, st);
    }
}

#[test]
fn compress_is_deterministic() {
    let input = b"some input that repeats, some input that repeats".to_vec();
    for st in [Strategy::HuffmanOnly, Strategy::LZ77Only, Strategy::Deflate] {
        let a = compress(&input, st);
        let b = compress(&input, st);
        assert_eq!(a, b);
    }
}

#[test]
fn empty_input_compresses_to_empty_block() {
    let empty: Vec<u8> = Vec::new();
    for st in [Strategy::HuffmanOnly, Strategy::LZ77Only, Strategy::Deflate] {
        assert_eq!(compress(&empty, st), Vec::<u8>::new());
    }
    assert_eq!(decompress(&empty).unwrap(), Vec::<u8>::new());
}

// The scenario on 30 repetitions of "test ": the LZ77 block is strictly
// shorter than the 150 input bytes.
#[test]
fn lz77_shrinks_repeated_text() {
    let input = b"test ".repeat(30);
    let block = compress(&input, Strategy::LZ77Only);
    assert!(block.len() < input.len());
}

// On a long single-symbol run the LZ77 pre-pass leaves the entropy coder a
// far smaller stream, so the whole Deflate block beats the Huffman block.
#[test]
fn deflate_beats_huffman_on_long_run() {
    let input = vec![b'A'; 200];
    let deflate = compress(&input, Strategy::Deflate);
    let huffman = compress(&input, Strategy::HuffmanOnly);
    assert!(deflate.len() < huffman.len());
}

// On 37 repeated bytes the entropy-coded bitstreams compare the same way:
// the token stream packs to fewer bytes than the raw input does.
#[test]
fn deflate_bitstream_shorter_on_37_as() {
    let input = vec![b'A'; 37];
    let tokens = cryptono_zip::lz77::compress(&input);
    let token_bytes = cryptono_zip::tokens::serialize(&tokens);
    let inner = cryptono_zip::huffman::compress(&token_bytes);
    let direct = cryptono_zip::huffman::compress(&input);
    assert!(inner.len() < direct.len());
}

#[test]
fn unknown_tag_is_corrupt() {
    let block = vec![9u8, 1, 2, 3];
    assert_eq!(decompress(&block), Err(CzipError::CorruptStream));
}

#[test]
fn short_huffman_header_is_truncated() {
    let block = vec![0u8, 1, 2, 3];
    assert_eq!(decompress(&block), Err(CzipError::TruncatedStream));
}

#[test]
fn truncated_token_payload_is_truncated() {
    // Tag byte for a literal token with its raw byte missing.
    let block = vec![1u8, 0];
    assert_eq!(decompress(&block), Err(CzipError::TruncatedStream));
}

#[test]
fn bad_token_tag_is_corrupt() {
    let block = vec![1u8, 7, 7, 7];
    assert_eq!(decompress(&block), Err(CzipError::CorruptStream));
}

#[test]
fn reference_before_start_is_corrupt() {
    // One reference token (distance 1, length 5) with no output yet.
    let block = vec![1u8, 1, 0, 1, 5];
    assert_eq!(decompress(&block), Err(CzipError::CorruptStream));
}

#[test]
fn declared_length_past_bits_is_corrupt() {
    // Huffman payload declaring 10 symbols with a lone-leaf tree and no bits.
    let mut block = vec![0u8];
    block.extend_from_slice(&[0, 0, 0, 0, 0, 0, 0, 10]);
    block.extend_from_slice(&[1, 65]);
    assert_eq!(decompress(&block), Err(CzipError::CorruptStream));
}

#[test]
fn corrupt_tree_tag_is_corrupt() {
    let mut block = vec![0u8];
    block.extend_from_slice(&[0, 0, 0, 0, 0, 0, 0, 1]);
    block.extend_from_slice(&[7, 65]);
    assert_eq!(decompress(&block), Err(CzipError::CorruptStream));
}

#[test]
fn huffman_block_wire_format() {
    // Block for the single byte 'A': tag 0, length 1 big-endian, the lone
    // leaf [1, 'A'], and one 0 bit packed into one zero byte.
    let mut expected = vec![0u8];
    expected.extend_from_slice(&[0, 0, 0, 0, 0, 0, 0, 1]);
    expected.extend_from_slice(&[1, b'A']);
    expected.push(0x00);
    let block = compress(&vec![b'A'], Strategy::HuffmanOnly);
    assert_eq!(block, expected);
    assert_eq!(decompress(&expected).unwrap(), vec![b'A']);
}

#[test]
fn lz77_block_wire_format() {
    // "aaaa" serializes to a literal token and an overlapping reference.
    let block = compress(&b"aaaa".to_vec(), Strategy::LZ77Only);
    assert_eq!(block, vec![1, 0, b'a', 1, 0, 1, 3]);
}
