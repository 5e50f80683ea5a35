use huffman::HuffError;
use huffman::codebook::CodeBook;
use huffman::codebook::buildCodes;
use huffman::container::decode;
use huffman::container::encode;
use huffman::freq::FrequencyTable;
use huffman::freq::encodeBook;
use huffman::tree::Node;
use huffman::tree::buildTree;

fn roundtrip(input: Vec<u8>) {
    let c = encode(&input);
    assert_eq!(decode(&c), Ok(input));
}

#[test]
fn roundtrip_empty() {
    roundtrip(vec![]);
}

#[test]
fn roundtrip_single_byte() {
    roundtrip(vec![0x7f]);
}

#[test]
fn roundtrip_single_distinct_repeated() {
    roundtrip(vec![0xaa; 1000]);
}

#[test]
fn roundtrip_all_byte_values() {
    let mut input: Vec<u8> = Vec::new();
    for b in 0..=255u8 {
        input.push(b);
    }
    for b in 0..=255u8 {
        input.push(b);
        input.push(b ^ 0x5a);
    }
    roundtrip(input);
}

#[test]
fn roundtrip_mixed_text() {
    roundtrip(b"this is an example of a huffman tree".to_vec());
}

#[test]
fn roundtrip_skewed() {
    let mut input = vec![0u8; 500];
    input.extend_from_slice(&[1, 2, 3, 1, 2, 1]);
    roundtrip(input);
}

#[test]
fn encode_deterministic() {
    let input = b"abracadabra".to_vec();
    assert_eq!(encode(&input), encode(&input));
    let again: Vec<u8> = input.clone();
    assert_eq!(encode(&input), encode(&again));
}

#[test]
fn compression_shrinks_skewed_input() {
    // 90 of one byte, 10 of another: the packed section must use fewer bits
    // than the 8 per byte of the raw input.
    let mut input = vec![b'a'; 90];
    input.extend_from_slice(&[b'b'; 10]);
    let c = encode(&input);
    let tree_len = u32::from_be_bytes([c[2], c[3], c[4], c[5]]) as usize;
    let packed_len = c.len() - 14 - tree_len;
    assert!(8 * packed_len < 8 * input.len());
    assert_eq!(packed_len, 13);
}

#[test]
fn frequency_table_counts() {
    let input = vec![0x41, 0x41, 0x41, 0x42];
    let ft = FrequencyTable::count(&input);
    assert_eq!(ft.get(0x41), 3);
    assert_eq!(ft.get(0x42), 1);
    assert_eq!(ft.get(0x00), 0);
    assert_eq!(ft.get(0xff), 0);
}

#[test]
fn encode_book_layout() {
    let input = vec![0x41, 0x41, 0x41, 0x42];
    let ft = FrequencyTable::count(&input);
    let bytes = encodeBook(&ft);
    let mut expected = vec![0x41];
    expected.extend_from_slice(&3u64.to_be_bytes());
    expected.push(0x42);
    expected.extend_from_slice(&1u64.to_be_bytes());
    assert_eq!(bytes, expected);
}

#[test]
fn build_tree_empty_alphabet() {
    let ft = FrequencyTable::count(&vec![]);
    assert!(matches!(buildTree(&ft), Err(HuffError::EmptyAlphabet)));
}

#[test]
fn two_symbol_codebook_and_packing() {
    // three 'A', one 'B': the tree merges the two leaves directly, 'B' (the
    // rarer byte) on the left with code 0, 'A' on the right with code 1.
    let input = vec![0x41, 0x41, 0x41, 0x42];
    let ft = FrequencyTable::count(&input);
    let tree = buildTree(&ft).unwrap();
    let book = CodeBook::derive(&tree);
    assert_eq!(book.get(0x41).clone(), vec![true]);
    assert_eq!(book.get(0x42).clone(), vec![false]);
    assert_eq!(book.get(0x43).len(), 0);
    let c = encode(&input);
    // packed data is the single byte 1110_0000
    assert_eq!(c[c.len() - 1], 0xe0);
    assert_eq!(decode(&c), Ok(input));
}

#[test]
fn empty_input_container_layout() {
    let c = encode(&vec![]);
    let mut expected = vec![0x48, 0x46, 0, 0, 0, 0];
    expected.extend_from_slice(&[0u8; 8]);
    assert_eq!(c, expected);
    assert_eq!(decode(&c), Ok(vec![]));
}

#[test]
fn single_symbol_container_layout() {
    // one distinct byte repeated n times: a 1-bit code per symbol, so the
    // packed section holds ceil(n / 8) bytes.
    let n = 10;
    let input = vec![0xaa; n];
    let c = encode(&input);
    let tree_len = u32::from_be_bytes([c[2], c[3], c[4], c[5]]) as usize;
    assert_eq!(tree_len, 2);
    let count = u64::from_be_bytes([c[6 + tree_len], c[7 + tree_len], c[8 + tree_len], c[9
        + tree_len], c[10 + tree_len], c[11 + tree_len], c[12 + tree_len], c[13 + tree_len]]);
    assert_eq!(count, n as u64);
    let packed_len = c.len() - 14 - tree_len;
    assert_eq!(packed_len, n.div_ceil(8));
    assert_eq!(decode(&c), Ok(input));
}

#[test]
fn prefix_free_codebook() {
    let input = b"peter piper picked a peck of pickled peppers".to_vec();
    let ft = FrequencyTable::count(&input);
    let tree = buildTree(&ft).unwrap();
    let book = CodeBook::derive(&tree);
    let codes: Vec<Vec<bool>> = (0..=255u8)
        .map(|b| book.get(b).clone())
        .filter(|c| !c.is_empty())
        .collect();
    for a in codes.iter() {
        for b in codes.iter() {
            if a != b {
                assert!(!(a.len() <= b.len() && &b[..a.len()] == &a[..]));
            }
        }
    }
}

#[test]
fn reject_corrupted_magic() {
    let mut c = encode(&b"some data".to_vec());
    c[0] ^= 0xff;
    assert_eq!(decode(&c), Err(HuffError::Format));
}

#[test]
fn reject_truncated_length_field() {
    let c = encode(&b"some data".to_vec());
    let cut = c[..4].to_vec();
    assert_eq!(decode(&cut), Err(HuffError::Format));
}

#[test]
fn reject_truncated_packed_section() {
    let c = encode(&b"some data".to_vec());
    let cut = c[..c.len() - 1].to_vec();
    assert_eq!(decode(&cut), Err(HuffError::Format));
}

#[test]
fn reject_trailing_garbage() {
    let mut c = encode(&b"some data".to_vec());
    c.push(0);
    assert_eq!(decode(&c), Err(HuffError::Integrity));
}

#[test]
fn reject_truncated_tree_section() {
    let c = encode(&b"some data".to_vec());
    let cut = c[..8].to_vec();
    assert_eq!(decode(&cut), Err(HuffError::Format));
}

#[test]
fn reject_tree_section_with_whole_spare_byte() {
    // the AAAB tree takes 19 bits; a declared tree section of four bytes
    // leaves a full byte beyond padding after the parse
    let mut c = vec![0x48, 0x46, 0, 0, 0, 4, 0x50, 0xa8, 0x20, 0x00];
    c.extend_from_slice(&4u64.to_be_bytes());
    c.push(0xe0);
    assert_eq!(decode(&c), Err(HuffError::Format));
}

#[test]
fn reject_tree_cut_mid_leaf() {
    // a one-byte tree section opening a leaf cannot hold the leaf's byte
    let mut c = vec![0x48, 0x46, 0, 0, 0, 1, 0x80];
    c.extend_from_slice(&0u64.to_be_bytes());
    assert_eq!(decode(&c), Err(HuffError::Format));
}

#[test]
fn decode_canonical_two_symbol_container() {
    // the container spelled out by hand: magic, tree length 3, the pre-order
    // tree of leaves B then A, symbol count 4, packed bits 1110 for AAAB
    let mut c = vec![0x48, 0x46, 0, 0, 0, 3, 0x50, 0xa8, 0x20];
    c.extend_from_slice(&4u64.to_be_bytes());
    c.push(0xe0);
    assert_eq!(decode(&c), Ok(vec![0x41, 0x41, 0x41, 0x42]));
    assert_eq!(encode(&vec![0x41, 0x41, 0x41, 0x42]), c);
}

#[test]
fn node_constructors() {
    let leaf = Node::new(0x41, 3);
    assert!(matches!(leaf, Node::Leaf { byte: 0x41, freq: 3 }));
    assert_eq!(leaf.freq(), 3);
    assert_eq!(leaf.min_byte(), 0x41);
}

#[test]
fn build_codes_direct() {
    let tree = Node::Internal {
        freq: 2,
        left: Box::new(Node::new(b'a', 1)),
        right: Box::new(Node::new(b'b', 1)),
    };
    let mut book: Vec<Vec<bool>> = (0..256).map(|_| Vec::new()).collect();
    buildCodes(&tree, &Vec::new(), &mut book);
    assert_eq!(book[b'a' as usize], vec![false]);
    assert_eq!(book[b'b' as usize], vec![true]);
    assert!(book[b'c' as usize].is_empty());
}

#[test]
fn build_codes_records_paths() {
    // a hand-built tree: ((a, b), c); derived codes a=00, b=01, c=1
    let tree = Node::Internal {
        freq: 4,
        left: Box::new(Node::Internal {
            freq: 2,
            left: Box::new(Node::new(b'a', 1)),
            right: Box::new(Node::new(b'b', 1)),
        }),
        right: Box::new(Node::new(b'c', 2)),
    };
    let book = CodeBook::derive(&tree);
    assert_eq!(book.get(b'a').clone(), vec![false, false]);
    assert_eq!(book.get(b'b').clone(), vec![false, true]);
    assert_eq!(book.get(b'c').clone(), vec![true]);
}
