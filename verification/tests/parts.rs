use huffman::bits::{pack_bits, test_bit};
use huffman::{count_frequencies, Encoded, HuffError, HuffmanTree, Node};

fn chain_symbols(tree: &HuffmanTree) -> Vec<u8> {
    let mut out = Vec::new();
    let mut current = tree;
    loop {
        out.push(current.left);
        match &current.right {
            Node::Leaf(b) => {
                out.push(*b);
                return out;
            }
            Node::Tree(t) => current = t,
        }
    }
}

#[test]
fn ranks_by_count_then_by_byte_value() {
    assert_eq!(count_frequencies(b"abracadabra"), Ok(b"abrcd".to_vec()));
    assert_eq!(count_frequencies(b"cba"), Ok(b"abc".to_vec()));
    assert_eq!(count_frequencies(b"bbbaac"), Ok(b"bac".to_vec()));
    assert_eq!(count_frequencies(b"zzzz"), Ok(b"z".to_vec()));
}

#[test]
fn ranking_nothing_fails() {
    assert_eq!(count_frequencies(b""), Err(HuffError::EmptyInput));
}

#[test]
fn chain_has_one_symbol_per_level() {
    let tree = HuffmanTree::from_sorted(b"xyz").ok().unwrap();
    assert_eq!(tree.left, b'x');
    match &tree.right {
        Node::Tree(next) => {
            assert_eq!(next.left, b'y');
            assert!(matches!(next.right, Node::Leaf(b'z')));
        }
        Node::Leaf(_) => panic!("a chain of three symbols has two levels"),
    }
    let pair = HuffmanTree::from_sorted(b"pq").ok().unwrap();
    assert_eq!(pair.left, b'p');
    assert!(matches!(pair.right, Node::Leaf(b'q')));
}

#[test]
fn chain_needs_two_symbols() {
    assert!(matches!(HuffmanTree::from_sorted(b"a"), Err(HuffError::InsufficientSymbols)));
    assert!(matches!(HuffmanTree::from_sorted(b""), Err(HuffError::InsufficientSymbols)));
}

#[test]
fn code_words_grow_with_rank() {
    let tree = HuffmanTree::from_sorted(b"abcd").ok().unwrap();
    let map = tree.build_map();
    assert_eq!(map.len(), 4);
    assert_eq!(map[&b'a'], vec![false]);
    assert_eq!(map[&b'b'], vec![true, false]);
    assert_eq!(map[&b'c'], vec![true, true, false]);
    assert_eq!(map[&b'd'], vec![true, true, true]);
}

#[test]
fn two_symbol_table_is_minimal() {
    let tree = HuffmanTree::from_sorted(b"ab").ok().unwrap();
    let map = tree.build_map();
    assert_eq!(map.len(), 2);
    assert_eq!(map[&b'a'], vec![false]);
    assert_eq!(map[&b'b'], vec![true]);
}

#[test]
fn serialized_tree_is_count_then_symbols() {
    let tree = HuffmanTree::from_sorted(b"qwe").ok().unwrap();
    assert_eq!(tree.serialize(), vec![3, b'q', b'w', b'e']);
    let mut out = vec![9u8];
    tree.collect_leaves(&mut out);
    assert_eq!(out, vec![9, b'q', b'w', b'e']);
}

#[test]
fn tree_serialization_round_trip() {
    let tree = HuffmanTree::from_sorted(b"hello wrd").ok().unwrap();
    let back = HuffmanTree::deserialize(&tree.serialize()).ok().unwrap();
    assert_eq!(chain_symbols(&back), b"hello wrd".to_vec());
    assert_eq!(chain_symbols(&back), chain_symbols(&tree));
}

#[test]
fn deserialize_reads_only_the_declared_symbols() {
    let tree = HuffmanTree::deserialize(&[2, b'a', b'b', b'c']).ok().unwrap();
    assert_eq!(chain_symbols(&tree), b"ab".to_vec());
}

#[test]
fn deserialize_rejects_short_input() {
    assert!(matches!(HuffmanTree::deserialize(&[]), Err(HuffError::MalformedTree)));
    assert!(matches!(HuffmanTree::deserialize(&[3, 1, 2]), Err(HuffError::MalformedTree)));
    assert!(matches!(HuffmanTree::deserialize(&[1, 5]), Err(HuffError::InsufficientSymbols)));
    assert!(matches!(HuffmanTree::deserialize(&[0]), Err(HuffError::InsufficientSymbols)));
}

#[test]
fn encode_rejects_a_byte_outside_the_tree() {
    let tree = HuffmanTree::from_sorted(b"ab").ok().unwrap();
    assert!(matches!(tree.encode(b"abc"), Err(HuffError::UnknownSymbol)));
}

#[test]
fn tree_encode_packs_code_words() {
    let tree = HuffmanTree::from_sorted(b"abc").ok().unwrap();
    let encoded = tree.encode(b"abcab").ok().unwrap();
    assert_eq!(encoded.tree, vec![3, b'a', b'b', b'c']);
    assert_eq!(encoded.bytes, vec![0b0101_1010]);
    assert_eq!(encoded.padding, 0);
    assert_eq!(encoded.decode(), Ok(b"abcab".to_vec()));
}

#[test]
fn packing_is_most_significant_bit_first() {
    assert_eq!(pack_bits(&[true, false, true]), vec![0b1010_0000]);
    assert_eq!(pack_bits(&[]), Vec::<u8>::new());
    assert_eq!(
        pack_bits(&[false, false, false, false, false, false, false, true, true]),
        vec![0x01, 0x80]
    );
    assert!(test_bit(0b0010_0000, 2));
    assert!(!test_bit(0b0010_0000, 3));
    assert!(test_bit(0x01, 7));
}

#[test]
fn padding_completes_the_last_byte() {
    let three = Encoded::from_bits(&[true, false, true], vec![2, 1, 0]);
    assert_eq!(three.padding, 5);
    assert_eq!(three.bytes, vec![0b1010_0000]);
    assert_eq!(three.tree, vec![2, 1, 0]);
    let eight = Encoded::from_bits(&[true; 8], vec![]);
    assert_eq!(eight.padding, 0);
    assert_eq!(eight.bytes, vec![0xff]);
    let none = Encoded::from_bits(&[], vec![]);
    assert_eq!(none.padding, 0);
    assert!(none.bytes.is_empty());
    let nine = Encoded::from_bits(&[false; 9], vec![]);
    assert_eq!(nine.padding, 7);
    assert_eq!(nine.bytes, vec![0, 0]);
}

#[test]
fn container_round_trip() {
    let parts = Encoded { tree: vec![3, 7, 8, 9], bytes: vec![0xde, 0xad, 0xbe], padding: 5 };
    let bytes = parts.to_bytes();
    assert_eq!(bytes, vec![5, 3, 7, 8, 9, 0xde, 0xad, 0xbe]);
    let back = Encoded::from_bytes(&bytes).ok().unwrap();
    assert_eq!(back.padding, 5);
    assert_eq!(back.tree, vec![3, 7, 8, 9]);
    assert_eq!(back.bytes, vec![0xde, 0xad, 0xbe]);
}

#[test]
fn container_without_data_is_accepted() {
    let back = Encoded::from_bytes(&[0, 2, b'a', b'b']).ok().unwrap();
    assert_eq!(back.tree, vec![2, b'a', b'b']);
    assert!(back.bytes.is_empty());
    assert!(matches!(Encoded::from_bytes(&[0, 2, b'a']), Err(HuffError::MalformedContainer)));
}

#[test]
fn decode_rejects_a_tree_part_shorter_than_declared() {
    let parts = Encoded { tree: vec![4, b'a', b'b'], bytes: vec![0], padding: 0 };
    assert_eq!(parts.decode(), Err(HuffError::MalformedTree));
    let empty = Encoded { tree: vec![], bytes: vec![], padding: 0 };
    assert_eq!(empty.decode(), Err(HuffError::MalformedTree));
}
