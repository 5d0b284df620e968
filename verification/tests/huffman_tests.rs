use cryptono_zip::compress_data;
use cryptono_zip::huffman;

#[test]
fn test_huffman_simple() {
    let input = "AAABBC";
    let compressed = compress_data(&input.as_bytes().to_vec());
    assert!(!compressed.is_empty());
}

#[test]
fn test_single_char() {
    let input = "AAAA";
    let compressed = compress_data(&input.as_bytes().to_vec());
    assert_eq!(compressed, "0000");
}

#[test]
fn empty_input_has_empty_bitstring() {
    let compressed = compress_data(&Vec::new());
    assert_eq!(compressed, "");
}

#[test]
fn frequency_counts_are_exact() {
    let input: Vec<u8> = b"AAABBC".to_vec();
    let freq = huffman::calculate_freq(&input);
    assert_eq!(freq.len(), 256);
    assert_eq!(freq[b'A' as usize], 3);
    assert_eq!(freq[b'B' as usize], 2);
    assert_eq!(freq[b'C' as usize], 1);
    assert_eq!(freq[b'D' as usize], 0);
    let total: u64 = freq.iter().sum();
    assert_eq!(total, input.len() as u64);
}

#[test]
fn build_tree_empty_map_is_none() {
    let freq = vec![0u64; 256];
    assert!(huffman::build_tree(&freq).is_none());
}

#[test]
fn build_tree_single_symbol_is_leaf() {
    let mut freq = vec![0u64; 256];
    freq[b'A' as usize] = 4;
    let root = huffman::build_tree(&freq).unwrap();
    assert_eq!(root.freq, 4);
    assert_eq!(root.val, Some(b'A'));
    assert!(root.left.is_none() && root.right.is_none());
}

#[test]
fn internal_node_sums_children() {
    let mut freq = vec![0u64; 256];
    freq[b'A' as usize] = 3;
    freq[b'B' as usize] = 2;
    let root = huffman::build_tree(&freq).unwrap();
    assert_eq!(root.freq, 5);
    assert!(root.val.is_none());
    let l = root.left.as_ref().unwrap();
    let r = root.right.as_ref().unwrap();
    assert_eq!(l.freq + r.freq, root.freq);
}

// The scenario on "AAABBC": the most frequent symbol gets a 1-bit code, the
// two rarer ones 2-bit codes, and the bitstream is 9 bits, shorter than the
// 48 input bits.
#[test]
fn aaabbc_code_lengths_and_bit_count() {
    let input: Vec<u8> = b"AAABBC".to_vec();
    let bitstring = compress_data(&input);
    assert_eq!(bitstring.len(), 9);
    assert!(bitstring.len() < 48);
    let freq = huffman::calculate_freq(&input);
    let root = huffman::build_tree(&freq).unwrap();
    let ct = cryptono_zip::codes::to_code_tree(&root);
    let table = cryptono_zip::codes::generate_codes(&ct);
    let la = table[b'A' as usize].len();
    let lb = table[b'B' as usize].len();
    let lc = table[b'C' as usize].len();
    assert_eq!(la, 1);
    assert_eq!(lb, 2);
    assert_eq!(lc, 2);
    assert!(la < lb && la < lc);
}

// A single repeated symbol still gets a 1-bit code, so n input bytes pack to
// exactly ceil(n / 8) bytes of bitstream.
#[test]
fn single_symbol_packs_to_ceil_n_over_8() {
    for n in [1usize, 7, 8, 9, 37, 64] {
        let input = vec![b'A'; n];
        let packed = huffman::compress(&input);
        assert_eq!(packed.len(), (n + 7) / 8);
    }
    let freq = huffman::calculate_freq(&vec![b'A'; 37]);
    let root = huffman::build_tree(&freq).unwrap();
    let ct = cryptono_zip::codes::to_code_tree(&root);
    let table = cryptono_zip::codes::generate_codes(&ct);
    let entries: Vec<usize> = (0..256).filter(|&v| !table[v].is_empty()).collect();
    assert_eq!(entries, vec![b'A' as usize]);
    assert_eq!(table[b'A' as usize], vec![false]);
}

#[test]
fn compress_packs_msb_first() {
    // "AAAB" has counts A:3, B:1; the rarer B becomes the left child with
    // code 0 and A gets code 1, so the bits 1110 pack to 0xE0.
    let input: Vec<u8> = b"AAAB".to_vec();
    let packed = huffman::compress(&input);
    assert_eq!(packed, vec![0xE0u8]);
}
