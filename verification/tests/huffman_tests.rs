use vorbis_setup::huffman::HuffmanTree;

fn path(bits: &[u8]) -> Vec<bool> {
    bits.iter().map(|b| *b != 0).collect()
}

#[test]
fn test_add_node() {
    let mut tree = HuffmanTree::new();
    let lengths = vec![2, 4, 4, 4, 4, 2, 3, 3];
    for (i, length) in lengths.into_iter().enumerate() {
        assert!(tree.add_node(length, i as u32));
    }

    /*
        Tree should look like this:
        entry 0: length 2 codeword 00
        entry 1: length 4 codeword 0100
        entry 2: length 4 codeword 0101
        entry 3: length 4 codeword 0110
        entry 4: length 4 codeword 0111
        entry 5: length 2 codeword 10
        entry 6: length 3 codeword 110
        entry 7: length 3 codeword 111
    */
    assert_eq!(tree.symbol_at(&path(&[0])), None);
    assert_eq!(tree.symbol_at(&path(&[0, 0])), Some(0));
    assert_eq!(tree.symbol_at(&path(&[0, 1])), None);
    assert_eq!(tree.symbol_at(&path(&[0, 1, 0])), None);
    assert_eq!(tree.symbol_at(&path(&[0, 1, 0, 0])), Some(1));
    assert_eq!(tree.symbol_at(&path(&[0, 1, 0, 1])), Some(2));
    assert_eq!(tree.symbol_at(&path(&[0, 1, 1])), None);
    assert_eq!(tree.symbol_at(&path(&[0, 1, 1, 0])), Some(3));
    assert_eq!(tree.symbol_at(&path(&[0, 1, 1, 1])), Some(4));
    assert_eq!(tree.symbol_at(&path(&[1])), None);
    assert_eq!(tree.symbol_at(&path(&[1, 0])), Some(5));
    assert_eq!(tree.symbol_at(&path(&[1, 1])), None);
    assert_eq!(tree.symbol_at(&path(&[1, 1, 0])), Some(6));
    assert_eq!(tree.symbol_at(&path(&[1, 1, 1])), Some(7));
}

#[test]
fn test_add_node_no_room() {
    // Two one-bit codewords fill the tree; a third finds no slot.
    let mut tree = HuffmanTree::new();
    assert!(tree.add_node(1, 0));
    assert!(tree.add_node(1, 1));
    assert!(!tree.add_node(1, 2));
    assert!(!tree.add_node(5, 3));
    // The failed insertions leave the tree unchanged.
    assert_eq!(tree.symbol_at(&path(&[0])), Some(0));
    assert_eq!(tree.symbol_at(&path(&[1])), Some(1));
}

#[test]
fn test_add_node_deep_before_shallow() {
    // A long codeword first: the left spine fills in, and the sibling slots
    // stay open for later symbols.
    let mut tree = HuffmanTree::new();
    assert!(tree.add_node(3, 9));
    assert_eq!(tree.symbol_at(&path(&[0, 0, 0])), Some(9));
    assert!(tree.add_node(1, 7));
    assert_eq!(tree.symbol_at(&path(&[1])), Some(7));
    assert!(tree.add_node(3, 8));
    assert_eq!(tree.symbol_at(&path(&[0, 0, 1])), Some(8));
    assert!(tree.add_node(2, 6));
    assert_eq!(tree.symbol_at(&path(&[0, 1])), Some(6));
    // The tree is now complete: nothing fits at any depth.
    assert!(!tree.add_node(1, 5));
    assert!(!tree.add_node(4, 5));
}
