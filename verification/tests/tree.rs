use huffman::bits::bit_of;
use huffman::compress::{gen_codes, get_code_map};
use huffman::tree::{build_tree, Node, NodeType};

fn count_leaves(node: &Node) -> usize {
    match &node.node_type {
        NodeType::Leaf(_) => 1,
        NodeType::Internal(l, r) => count_leaves(l) + count_leaves(r),
    }
}

fn count_internal(node: &Node) -> usize {
    match &node.node_type {
        NodeType::Leaf(_) => 0,
        NodeType::Internal(l, r) => 1 + count_internal(l) + count_internal(r),
    }
}

fn weights_add_up(node: &Node) -> bool {
    match &node.node_type {
        NodeType::Leaf(_) => true,
        NodeType::Internal(l, r) => {
            node.frequency == l.frequency + r.frequency && weights_add_up(l) && weights_add_up(r)
        }
    }
}

#[test]
fn new_node_keeps_its_parts() {
    let node = Node::new(7, NodeType::Leaf(3));
    assert_eq!(node.frequency, 7);
    assert_eq!(node.node_type, NodeType::Leaf(3));
}

#[test]
fn tree_has_256_leaves_and_255_internal_nodes() {
    let mut frequencies = [0usize; 256];
    for i in 0..256 {
        frequencies[i] = (i * 37) % 11;
    }
    let root = build_tree(&frequencies);
    assert_eq!(count_leaves(&root), 256);
    assert_eq!(count_internal(&root), 255);
    assert!(weights_add_up(&root));
    assert_eq!(root.frequency, frequencies.iter().sum::<usize>());
}

#[test]
fn lightest_two_are_joined_first_taken_to_the_left() {
    let mut frequencies = [100usize; 256];
    frequencies[10] = 1;
    frequencies[20] = 2;
    let codes = get_code_map(&frequencies);
    let a = &codes[10];
    let b = &codes[20];
    assert_eq!(a.len(), b.len());
    assert_eq!(a[..a.len() - 1], b[..b.len() - 1]);
    assert_eq!(a[a.len() - 1], 0);
    assert_eq!(b[b.len() - 1], 1);
}

#[test]
fn equal_weights_leave_in_index_order() {
    let codes = get_code_map(&[1usize; 256]);
    for b in 0..256usize {
        let expected: Vec<u8> = (0..8).map(|j| ((b >> (7 - j)) & 1) as u8).collect();
        assert_eq!(codes[b], expected);
    }
}

#[test]
fn single_heavy_byte_gets_a_one_bit_code() {
    let mut frequencies = [1usize; 256];
    frequencies[0x41] = 1001;
    let codes = get_code_map(&frequencies);
    assert_eq!(codes[0x41].len(), 1);
}

#[test]
fn gen_codes_records_paths_behind_the_prefix() {
    let left = Node::new(1, NodeType::Leaf(5));
    let right_left = Node::new(1, NodeType::Leaf(6));
    let right_right = Node::new(1, NodeType::Leaf(7));
    let right = Node::new(
        2,
        NodeType::Internal(Box::new(right_left), Box::new(right_right)),
    );
    let root = Node::new(3, NodeType::Internal(Box::new(left), Box::new(right)));
    let mut codes: Vec<Vec<u8>> = vec![vec![9]; 256];
    gen_codes(&root, vec![1, 1], &mut codes);
    assert_eq!(codes[5], vec![1, 1, 0]);
    assert_eq!(codes[6], vec![1, 1, 1, 0]);
    assert_eq!(codes[7], vec![1, 1, 1, 1]);
    assert_eq!(codes[8], vec![9]);
}

#[test]
fn bit_of_counts_from_the_highest_bit() {
    assert_eq!(bit_of(0b1000_0000, 0), 1);
    assert_eq!(bit_of(0b1000_0000, 1), 0);
    assert_eq!(bit_of(0b0000_0001, 7), 1);
    assert_eq!(bit_of(0b0010_0000, 2), 1);
    assert_eq!(bit_of(0b1101_1111, 2), 0);
}
