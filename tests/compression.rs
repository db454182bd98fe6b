use sacalo::huffman::byte_frequencies;
use sacalo::packing::decode_body;
use sacalo::{CodecError, Huffman, HuffmanTree};

fn leaf(w: u128, left: bool, v: u8) -> HuffmanTree {
    HuffmanTree::Leaf(w, left, v)
}

fn node(w: u128, left: bool, l: HuffmanTree, r: HuffmanTree) -> HuffmanTree {
    HuffmanTree::Node(w, left, Box::new(l), Box::new(r))
}

fn weights_add_up(t: &HuffmanTree) -> bool {
    match t {
        HuffmanTree::Leaf(..) => true,
        HuffmanTree::Node(w, _, l, r) => {
            *w == l.get_weight() + r.get_weight()
                && l.get_weight() <= r.get_weight()
                && l.get_left_right()
                && !r.get_left_right()
                && weights_add_up(l)
                && weights_add_up(r)
        }
    }
}

#[test]
fn round_trip_various_inputs() {
    let inputs: Vec<Vec<u8>> = vec![
        vec![0],
        vec![0, 0, 0, 1],
        b"hello, huffman world".to_vec(),
        (0..=255u8).collect(),
        (0..2000u32).map(|i| (i * i % 251) as u8).collect(),
        vec![255, 0, 255, 0, 0, 0, 0, 0, 0, 0, 0, 0, 0],
    ];
    for d in inputs {
        let a = Huffman::compress(&d).unwrap();
        assert_eq!(Huffman::decompress(&a).unwrap(), d);
    }
}

#[test]
fn single_symbol_has_no_body() {
    let d = vec![7u8, 7, 7, 7];
    let a = Huffman::compress(&d).unwrap();
    // one leaf (16 + 2 + 1 bytes) and the 8-byte length, no code bits
    assert_eq!(a.len(), 27);
    assert_eq!(&a[19..27], &[0, 0, 0, 0, 0, 0, 0, 4]);
    assert_eq!(Huffman::decompress(&a).unwrap(), d);
    let h = Huffman::from_data(&d).unwrap();
    assert_eq!(h.get_path(7), Some(vec![]));
}

#[test]
fn most_frequent_byte_has_shortest_code() {
    let d = vec![1u8, 34, 64, 124, 255, 1, 1];
    let h = Huffman::from_data(&d).unwrap();
    let one = h.get_path(1).unwrap();
    for b in [34u8, 64, 124, 255] {
        assert!(one.len() < h.get_path(b).unwrap().len());
    }
    let mut values = h.get_all_bytes();
    values.sort();
    assert_eq!(values, vec![1, 34, 64, 124, 255]);
    let a = Huffman::compress(&d).unwrap();
    assert_eq!(Huffman::decompress(&a).unwrap(), d);
}

#[test]
fn empty_input_is_refused() {
    assert_eq!(Huffman::compress(&[]), Err(CodecError::EmptyInput));
    assert!(Huffman::from_data(&[]).is_none());
}

#[test]
fn corrupted_size_field_is_a_format_error() {
    let h = Huffman::from_data(b"abracadabra").unwrap();
    let blob = h.tree.serialise().unwrap();
    assert_eq!(HuffmanTree::deserialise(&blob).unwrap(), h.tree);
    for i in [16usize, 17] {
        let mut bad = blob.clone();
        bad[i] ^= 0xff;
        assert_eq!(HuffmanTree::deserialise(&bad), Err(CodecError::FormatError));
    }
    let mut artifact = Huffman::compress(b"abracadabra").unwrap();
    artifact[17] ^= 0x01;
    assert!(Huffman::decompress(&artifact).is_err());
}

#[test]
fn built_tree_weights_add_up() {
    let d = b"the quick brown fox jumps over the lazy dog".to_vec();
    let h = Huffman::from_data(&d).unwrap();
    assert!(weights_add_up(&h.tree));
    assert_eq!(h.tree.get_weight(), d.len() as u128);
    assert!(!h.tree.get_left_right());
}

#[test]
fn leaves_are_unique_and_occur() {
    let d = b"mississippi river".to_vec();
    let h = Huffman::from_data(&d).unwrap();
    let values = h.get_all_bytes();
    let mut sorted = values.clone();
    sorted.sort();
    sorted.dedup();
    assert_eq!(sorted.len(), values.len());
    for v in &values {
        assert!(d.contains(v));
    }
    for b in &d {
        assert!(values.contains(b));
    }
}

#[test]
fn serialisation_round_trip() {
    let d: Vec<u8> = (0..600u32).map(|i| (i % 37 + i % 5) as u8).collect();
    let h = Huffman::from_data(&d).unwrap();
    let blob = h.tree.serialise().unwrap();
    let back = HuffmanTree::deserialise(&blob).unwrap();
    assert_eq!(back, h.tree);
    let again = Huffman::from_tree(back);
    for b in 0..=255u8 {
        assert_eq!(again.get_path(b), h.get_path(b));
    }
}

#[test]
fn codes_are_prefix_free() {
    let d = b"a little text with several distinct letters".to_vec();
    let h = Huffman::from_data(&d).unwrap();
    let values = h.get_all_bytes();
    for a in &values {
        for b in &values {
            if a != b {
                let pa = h.get_path(*a).unwrap();
                let pb = h.get_path(*b).unwrap();
                assert!(!(pa.len() <= pb.len() && pb[..pa.len()] == pa[..]));
            }
        }
    }
}

#[test]
fn leaf_form_is_exact() {
    let t = leaf(5, false, 9);
    let mut expected = vec![0u8; 15];
    expected.extend_from_slice(&[5, 0, 1, 9]);
    assert_eq!(t.serialise().unwrap(), expected);
}

#[test]
fn node_form_is_exact() {
    let t = node(0x0102, false, leaf(0x0100, true, 3), leaf(2, false, 4));
    let blob = t.serialise().unwrap();
    assert_eq!(blob.len(), 18 + 19 + 19);
    assert_eq!(&blob[14..18], &[0x01, 0x02, 0, 38]);
    assert_eq!(&blob[32..37], &[0x01, 0x00, 0, 1, 3]);
    assert_eq!(&blob[51..56], &[0, 2, 0, 1, 4]);
    assert_eq!(HuffmanTree::deserialise(&blob).unwrap(), t);
}

#[test]
fn oversized_subtree_is_refused() {
    let mut t = leaf(1, false, 0);
    for i in 1..1800u32 {
        let mut l = t;
        l.set_parent(true);
        t = node(i as u128 + 1, false, l, leaf(1, false, (i % 256) as u8));
    }
    assert_eq!(t.serialise(), Err(CodecError::OversizedSubtree));
}

#[test]
fn short_artifacts_are_format_errors() {
    assert_eq!(Huffman::decompress(&[1, 2, 3]), Err(CodecError::FormatError));
    let blob = leaf(3, false, 42).serialise().unwrap();
    assert_eq!(Huffman::decompress(&blob), Err(CodecError::FormatError));
    assert_eq!(HuffmanTree::deserialise(&blob[..18]), Err(CodecError::FormatError));
}

#[test]
fn truncated_body_is_reported() {
    let a = Huffman::compress(b"abcabcabcd").unwrap();
    let cut = &a[..a.len() - 1];
    assert_eq!(Huffman::decompress(cut), Err(CodecError::TruncatedStream));
}

#[test]
fn codes_pack_least_significant_bit_first() {
    let t = node(3, false, leaf(2, true, b'a'), leaf(1, false, b'b'));
    let h = Huffman::from_tree(t);
    assert_eq!(h.get_path(b'a'), Some(vec![true]));
    assert_eq!(h.get_path(b'b'), Some(vec![false]));
    assert_eq!(h.get_path(b'c'), None);
    // bits 1, 0, 1
    assert_eq!(h.encode(b"aba"), Some(vec![0b101]));
    // nine bits spill into a second byte
    assert_eq!(h.encode(b"aaaaaaaaa"), Some(vec![0xff, 0x01]));
    assert_eq!(h.encode(b"abc"), None);
    assert_eq!(decode_body(&h.tree, &[0b101], 3), Some(b"aba".to_vec()));
    assert_eq!(decode_body(&h.tree, &[0b101], 9), None);
}

#[test]
fn hand_built_artifact_decodes() {
    let t = node(3, false, leaf(2, true, b'x'), leaf(1, false, b'y'));
    let mut a = t.serialise().unwrap();
    a.extend_from_slice(&[0, 0, 0, 0, 0, 0, 0, 3]);
    a.push(0b011);
    assert_eq!(Huffman::decompress(&a), Ok(b"xxy".to_vec()));
}

#[test]
fn frequencies_are_counted() {
    let f = byte_frequencies(&[5, 5, 0, 255, 5]);
    assert_eq!(f.len(), 256);
    assert_eq!(f[5], 3);
    assert_eq!(f[0], 1);
    assert_eq!(f[255], 1);
    assert_eq!(f[1], 0);
}

#[test]
fn getters_read_the_node() {
    let mut t = leaf(9, false, 200);
    assert_eq!(t.get_weight(), 9);
    assert_eq!(t.get_data(), Some(200));
    assert!(!t.get_left_right());
    t.set_parent(true);
    assert!(t.get_left_right());
    let n = node(10, false, leaf(9, true, 1), leaf(1, false, 2));
    assert_eq!(n.get_data(), None);
    assert_eq!(n.get_weight(), 10);
}
