use cmprsr_rs::encoder::Code;
use cmprsr_rs::generate_base_codes;
use cmprsr_rs::huffman::{HuffNode, HuffTree};
use cmprsr_rs::symbol_map::SymbolMap;

fn table(entries: &[(char, u64)]) -> SymbolMap<u64> {
    let mut map = SymbolMap::new();
    for (symbol, count) in entries {
        map.insert(*symbol, *count);
    }
    map
}

fn codes_of(root: HuffNode) -> Vec<(char, String)> {
    let mut codes: Vec<Code> = Vec::new();
    generate_base_codes(root, &mut codes, String::new());
    codes.into_iter().map(|code| (code.c, code.code)).collect()
}

fn leaf(node: &HuffNode) -> Option<(char, u64)> {
    match node {
        HuffNode::Leaf { character, weight } => Some((*character, *weight)),
        HuffNode::Internal { .. } => None,
    }
}

#[test]
fn empty_table_has_no_tree() {
    let mut char_map = table(&[]);
    assert!(HuffTree::build_huffman_tree(&mut char_map).is_none());
}

#[test]
fn single_symbol_gives_a_single_leaf() {
    let mut char_map = table(&[('a', 4)]);
    let tree = HuffTree::build_huffman_tree(&mut char_map).unwrap();
    assert_eq!(leaf(&tree.root), Some(('a', 4)));
    assert_eq!(tree.root.weight(), 4);
}

#[test]
fn single_leaf_gets_the_code_zero() {
    let mut char_map = table(&[('a', 4)]);
    let tree = HuffTree::build_huffman_tree(&mut char_map).unwrap();
    assert_eq!(codes_of(*tree.root), vec![('a', String::from("0"))]);
}

#[test]
fn two_symbols_give_two_one_bit_codes() {
    let mut char_map = table(&[('a', 3), ('b', 1)]);
    let tree = HuffTree::build_huffman_tree(&mut char_map).unwrap();
    assert_eq!(tree.root.weight(), 4);
    match &*tree.root {
        HuffNode::Internal { weight, left, right } => {
            assert_eq!(*weight, 4);
            // The lighter node leaves the queue first and goes to the left.
            assert_eq!(leaf(left), Some(('b', 1)));
            assert_eq!(leaf(right), Some(('a', 3)));
        }
        HuffNode::Leaf { .. } => panic!("two symbols need an inner node"),
    }
    assert_eq!(
        codes_of(*tree.root),
        vec![('b', String::from("0")), ('a', String::from("1"))]
    );
}

#[test]
fn building_leaves_the_table_as_it_was() {
    let mut char_map = table(&[('a', 3), ('b', 1), ('c', 2)]);
    let _ = HuffTree::build_huffman_tree(&mut char_map);
    assert_eq!(char_map.as_slice(), &[('a', 3), ('b', 1), ('c', 2)]);
}

#[test]
fn equal_weights_leave_the_queue_in_the_order_they_came() {
    let mut char_map = table(&[('a', 1), ('b', 1), ('c', 2), ('d', 2)]);
    let tree = HuffTree::build_huffman_tree(&mut char_map).unwrap();
    assert_eq!(tree.root.weight(), 6);
    assert_eq!(
        codes_of(*tree.root),
        vec![
            ('a', String::from("00")),
            ('b', String::from("01")),
            ('c', String::from("10")),
            ('d', String::from("11")),
        ]
    );
}

#[test]
fn lighter_symbols_get_longer_codes() {
    let mut char_map = table(&[('a', 8), ('b', 4), ('c', 2), ('d', 1), ('e', 1)]);
    let tree = HuffTree::build_huffman_tree(&mut char_map).unwrap();
    assert_eq!(tree.root.weight(), 16);
    assert_eq!(
        codes_of(*tree.root),
        vec![
            ('a', String::from("0")),
            ('b', String::from("10")),
            ('c', String::from("110")),
            ('d', String::from("1110")),
            ('e', String::from("1111")),
        ]
    );
}

#[test]
fn weight_of_an_inner_node_is_the_sum_of_its_children() {
    fn check(node: &HuffNode) -> u64 {
        match node {
            HuffNode::Leaf { weight, .. } => *weight,
            HuffNode::Internal { weight, left, right } => {
                assert_eq!(*weight, check(left) + check(right));
                *weight
            }
        }
    }
    let mut char_map = table(&[('a', 5), ('b', 9), ('c', 12), ('d', 13), ('e', 16), ('f', 45)]);
    let tree = HuffTree::build_huffman_tree(&mut char_map).unwrap();
    assert_eq!(check(&tree.root), 100);
}

#[test]
fn tree_has_one_leaf_for_each_symbol() {
    fn leaves(node: &HuffNode, into: &mut Vec<(char, u64)>) {
        match node {
            HuffNode::Leaf { character, weight } => into.push((*character, *weight)),
            HuffNode::Internal { left, right, .. } => {
                leaves(left, into);
                leaves(right, into);
            }
        }
    }
    let entries = [('a', 5), ('b', 9), ('c', 12), ('d', 13), ('e', 16), ('f', 45)];
    let mut char_map = table(&entries);
    let tree = HuffTree::build_huffman_tree(&mut char_map).unwrap();
    let mut found = Vec::new();
    leaves(&tree.root, &mut found);
    found.sort();
    assert_eq!(found, entries.to_vec());
}

#[test]
fn classic_weights_give_the_classic_code_lengths() {
    let mut char_map = table(&[('a', 5), ('b', 9), ('c', 12), ('d', 13), ('e', 16), ('f', 45)]);
    let tree = HuffTree::build_huffman_tree(&mut char_map).unwrap();
    let mut lengths: Vec<(char, usize)> =
        codes_of(*tree.root).into_iter().map(|(c, code)| (c, code.len())).collect();
    lengths.sort();
    assert_eq!(lengths, vec![('a', 4), ('b', 4), ('c', 3), ('d', 3), ('e', 3), ('f', 1)]);
}

#[test]
fn constructors_build_the_nodes_they_are_given() {
    let left = HuffNode::new_leaf('x', 2);
    let right = HuffNode::new_leaf('y', 3);
    let node = HuffNode::new_internal(5, left, right);
    assert_eq!(node.weight(), 5);
    match node {
        HuffNode::Internal { left, right, .. } => {
            assert_eq!(leaf(&left), Some(('x', 2)));
            assert_eq!(leaf(&right), Some(('y', 3)));
        }
        HuffNode::Leaf { .. } => panic!("an inner node was asked for"),
    }
}

#[test]
fn base_codes_are_appended_to_the_list() {
    let mut codes = vec![Code { code: String::from("1"), c: 'z' }];
    let node = HuffNode::new_internal(2, HuffNode::new_leaf('a', 1), HuffNode::new_leaf('b', 1));
    generate_base_codes(node, &mut codes, String::from("10"));
    let listed: Vec<(char, &str)> = codes.iter().map(|c| (c.c, c.code.as_str())).collect();
    assert_eq!(listed, vec![('z', "1"), ('a', "100"), ('b', "101")]);
}

#[test]
fn base_codes_are_stored_by_symbol() {
    let mut char_map = table(&[('a', 3), ('b', 1), ('c', 1)]);
    let tree = HuffTree::build_huffman_tree(&mut char_map).unwrap();
    let mut base_codes: SymbolMap<String> = SymbolMap::new();
    base_codes.insert('b', String::from("stale"));
    cmprsr_rs::huffman::generate_base_codes(*tree.root, &mut base_codes, String::new());
    assert_eq!(
        base_codes.as_slice(),
        &[
            ('a', String::from("1")),
            ('b', String::from("00")),
            ('c', String::from("01")),
        ]
    );
}

#[test]
fn weights_that_overflow_are_told_apart() {
    assert!(HuffTree::weights_fit(&table(&[])));
    assert!(HuffTree::weights_fit(&table(&[('a', u64::MAX)])));
    assert!(HuffTree::weights_fit(&table(&[('a', u64::MAX - 1), ('b', 1)])));
    assert!(!HuffTree::weights_fit(&table(&[('a', u64::MAX), ('b', 1)])));
    assert!(!HuffTree::weights_fit(&table(&[('a', 1), ('b', u64::MAX), ('c', 0)])));
}

#[test]
fn heaviest_table_still_gives_a_tree() {
    let mut char_map = table(&[('a', u64::MAX - 1), ('b', 1)]);
    let tree = HuffTree::build_huffman_tree(&mut char_map).unwrap();
    assert_eq!(tree.root.weight(), u64::MAX);
}

#[test]
fn symbols_that_never_occur_still_get_a_leaf() {
    let mut char_map = table(&[('a', 0), ('b', 0), ('c', 5)]);
    let tree = HuffTree::build_huffman_tree(&mut char_map).unwrap();
    assert_eq!(
        codes_of(*tree.root),
        vec![
            ('a', String::from("00")),
            ('b', String::from("01")),
            ('c', String::from("1")),
        ]
    );
}
