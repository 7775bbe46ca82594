use comprust::huffman::queue::insert_link;
use comprust::huffman::table::{count_chars, sorted_keys};
use comprust::huffman::tree::{join, total_count, HuffmanTree, Link, Node};
use comprust::huffman::wire::{read_be32, write_be32, write_bytes};
use comprust::types::{CodecError, Serializable};
use std::collections::HashMap;

/// Correct codes for this tree should be:
///     a: 1
///     b: 000
///     c: 001
///     d: 010
///     e: 011
fn build_correct_tree() -> HuffmanTree {
    let a = Link::Leaf(15, 'a');
    let b = Link::Leaf(7, 'b');
    let c = Link::Leaf(6, 'c');
    let d = Link::Leaf(5, 'd');
    let e = Link::Leaf(4, 'e');
    let de = Node {
        weight: 9,
        left: d,
        right: e,
    };
    let bc = Node {
        weight: 13,
        left: b,
        right: c,
    };
    let bcde = Node {
        weight: 22,
        left: Link::Node(Box::new(bc), 'b'),
        right: Link::Node(Box::new(de), 'd'),
    };

    HuffmanTree {
        root: Link::Node(
            Box::new(Node {
                weight: 37,
                left: Link::Node(Box::new(bcde), 'b'),
                right: a,
            }),
            'b',
        ),
        counts: HashMap::from([('e', 4), ('d', 5), ('c', 6), ('b', 7), ('a', 15)]),
    }
}

#[test]
fn tree_test_count_chars() {
    assert_eq!(count_chars("mamma"), HashMap::from([('m', 3), ('a', 2)]));
    assert_eq!(count_chars(""), HashMap::new());
    assert_eq!(
        count_chars("abcd"),
        HashMap::from([('a', 1), ('b', 1), ('c', 1), ('d', 1)])
    );
}

#[test]
fn build_huffman_tree_for_simple_case() {
    let expected = build_correct_tree();
    let text = "aaaaaaaaaaaaaaabbbbbbbccccccdddddeeee";

    assert_eq!(HuffmanTree::from(text), Option::Some(expected));
}

#[test]
fn build_huffman_tree_for_edge_cases() {
    assert_eq!(
        HuffmanTree::from("a"),
        Option::Some(HuffmanTree {
            root: Link::Leaf(1, 'a'),
            counts: HashMap::from([('a', 1)])
        })
    );
    assert_eq!(HuffmanTree::from(""), None);
}

#[test]
fn build_from_counts_is_determinsitic() {
    // Recreate the counts every time and make sure it always results in the same tree
    let get_counts = || (b'a'..=b'z').map(|b| (b as char, 100)).collect();
    let tree = HuffmanTree::from_counts(&get_counts()).unwrap();

    for _ in 0..20 {
        assert_eq!(tree, HuffmanTree::from_counts(&get_counts()).unwrap());
    }
}

#[test]
fn can_sort_links() {
    let d = Link::Leaf(3, 'd');
    let e = Link::Leaf(5, 'e');
    let de = Link::Node(
        Box::new(Node {
            weight: 11,
            left: Link::Leaf(3, 'd'),
            right: Link::Leaf(3, 'd'),
        }),
        'a',
    );

    let mut links = vec![de.clone(), e.clone(), d.clone()];
    links.sort_by(|x, y| x.cmp(y));

    assert_eq!(links, vec![de, e, d]);
}

#[test]
fn can_serialize_and_deserialize_to_eq_object() {
    let original = build_correct_tree();
    let mut buffer = Vec::<u8>::new();

    assert_eq!(original.serialize(&mut buffer).unwrap(), 29);

    let (read, used) = HuffmanTree::deserialize(buffer.as_slice()).unwrap();
    assert_eq!(original, read);
    assert_eq!(used, 29);
}

#[test]
fn links_report_weight_and_symbol() {
    let tree = build_correct_tree();
    assert_eq!(tree.root.weight(), 37);
    assert_eq!(tree.root.char(), 'b');
    assert_eq!(Link::Leaf(4, 'e').weight(), 4);
    assert_eq!(Link::Leaf(4, 'e').char(), 'e');
}

#[test]
fn links_order_by_weight_then_symbol() {
    let light = Link::Leaf(3, 'z');
    let heavy = Link::Leaf(4, 'a');
    let same_weight = Link::Leaf(3, 'y');
    assert!(light.precedes(&heavy));
    assert!(!heavy.precedes(&light));
    assert!(same_weight.precedes(&light));
    assert!(!light.precedes(&light));
    assert_eq!(light.cmp(&heavy), std::cmp::Ordering::Greater);
    assert_eq!(heavy.cmp(&light), std::cmp::Ordering::Less);
    assert_eq!(light.cmp(&Link::Leaf(3, 'z')), std::cmp::Ordering::Equal);
    assert_eq!(light.partial_cmp(&heavy), Some(std::cmp::Ordering::Greater));
    assert!(light > heavy);
}

#[test]
fn ties_in_weight_are_broken_by_symbol() {
    // b and c weigh the same: c sorts after b, so b leaves first and goes right.
    let tree = HuffmanTree::from_counts(&HashMap::from([('c', 1), ('b', 1), ('a', 5)])).unwrap();
    let bc = Node {
        weight: 2,
        left: Link::Leaf(1, 'c'),
        right: Link::Leaf(1, 'b'),
    };
    let root = Link::Node(
        Box::new(Node {
            weight: 7,
            left: Link::Leaf(5, 'a'),
            right: Link::Node(Box::new(bc), 'c'),
        }),
        'a',
    );
    assert_eq!(tree.root, root);
}

#[test]
fn root_weight_is_the_sum_of_the_counts() {
    let counts = HashMap::from([('x', 10), ('y', 20), ('z', 30), ('w', 1)]);
    let tree = HuffmanTree::from_counts(&counts).unwrap();
    assert_eq!(tree.root.weight(), 61);
    assert_eq!(total_count(&counts), Some(61));
    assert_eq!(leaf_sum(&tree.root), 61);

    let text = "so much depends upon a red wheel barrow";
    let tree = HuffmanTree::from(text).unwrap();
    assert_eq!(tree.root.weight() as usize, text.chars().count());
}

fn leaf_sum(link: &Link) -> u64 {
    match link {
        Link::Leaf(weight, _) => *weight as u64,
        Link::Node(node, _) => leaf_sum(&node.left) + leaf_sum(&node.right),
    }
}

#[test]
fn total_count_reports_overflow() {
    let counts = HashMap::from([('x', u32::MAX), ('y', 1)]);
    assert_eq!(total_count(&counts), None);
    assert_eq!(total_count(&HashMap::from([('x', u32::MAX)])), Some(u32::MAX));
    assert_eq!(total_count(&HashMap::new()), Some(0));
}

#[test]
fn from_counts_of_empty_table_is_none() {
    assert_eq!(HuffmanTree::from_counts(&HashMap::new()), None);
}

#[test]
fn cloned_links_are_equal() {
    let tree = build_correct_tree();
    assert_eq!(tree.root.clone(), tree.root);
    assert_eq!(tree.clone(), tree);
}

#[test]
fn serialized_table_lists_symbols_in_ascending_order() {
    let tree = HuffmanTree::from_counts(&HashMap::from([('b', 2), ('a', 258), ('é', 3)])).unwrap();
    let mut buffer = vec![9u8];
    assert_eq!(tree.serialize(&mut buffer), Ok(20));
    assert_eq!(
        buffer,
        vec![9, 0, 0, 0, 4, 97, 98, 0xc3, 0xa9, 0, 0, 1, 2, 0, 0, 0, 2, 0, 0, 0, 3]
    );
}

#[test]
fn deserialize_rejects_what_is_not_a_table() {
    let corrupt = Err(CodecError::CorruptFormat);
    // Fewer than four bytes.
    assert_eq!(HuffmanTree::deserialize(&[0, 0, 0]), corrupt);
    // The declared length is beyond the bytes at hand.
    assert_eq!(HuffmanTree::deserialize(&[0, 0, 0, 2, 97]), corrupt);
    assert_eq!(HuffmanTree::deserialize(&[255, 255, 255, 255, 97]), corrupt);
    // The symbols are not UTF-8.
    assert_eq!(HuffmanTree::deserialize(&[0, 0, 0, 1, 0xff, 0, 0, 0, 1]), corrupt);
    // A count is cut short.
    assert_eq!(HuffmanTree::deserialize(&[0, 0, 0, 1, 97, 0, 0, 0]), corrupt);
    // No symbol at all.
    assert_eq!(HuffmanTree::deserialize(&[0, 0, 0, 0]), corrupt);
    // The counts add up beyond 32 bits.
    assert_eq!(
        HuffmanTree::deserialize(&[0, 0, 0, 2, 97, 98, 255, 255, 255, 255, 0, 0, 0, 1]),
        corrupt
    );
}

#[test]
fn deserialize_reads_counts_big_end_first_and_leaves_the_rest() {
    let bytes = [0, 0, 0, 2, 97, 98, 0, 0, 1, 0, 0, 1, 0, 0, 42, 43];
    let (tree, used) = HuffmanTree::deserialize(&bytes).unwrap();
    assert_eq!(used, 14);
    assert_eq!(tree.counts, HashMap::from([('a', 256), ('b', 65536)]));
    assert_eq!(tree.root.weight(), 65792);
}

#[test]
fn deserialize_keeps_the_last_count_of_a_repeated_symbol() {
    let bytes = [0, 0, 0, 2, 97, 97, 0, 0, 0, 5, 0, 0, 0, 7];
    let (tree, used) = HuffmanTree::deserialize(&bytes).unwrap();
    assert_eq!(used, 14);
    assert_eq!(tree.root, Link::Leaf(7, 'a'));
}

#[test]
fn keys_come_out_in_ascending_order() {
    let counts = HashMap::from([('z', 1), ('a', 2), ('é', 3), ('M', 4), ('\u{10ffff}', 5)]);
    assert_eq!(sorted_keys(&counts), vec!['M', 'a', 'z', 'é', '\u{10ffff}']);
    assert_eq!(sorted_keys(&HashMap::<char, u32>::new()), Vec::<char>::new());
}

#[test]
fn queue_keeps_the_lightest_subtree_last() {
    let mut queue = Vec::new();
    for (weight, symbol) in [(5, 'a'), (1, 'z'), (9, 'b'), (1, 'c'), (5, 'A')] {
        insert_link(&mut queue, Link::Leaf(weight, symbol));
    }
    assert_eq!(
        queue,
        vec![
            Link::Leaf(9, 'b'),
            Link::Leaf(5, 'a'),
            Link::Leaf(5, 'A'),
            Link::Leaf(1, 'z'),
            Link::Leaf(1, 'c'),
        ]
    );
}

#[test]
fn joined_subtrees_add_their_weights_and_keep_the_left_symbol() {
    let node = join(Link::Leaf(5, 'd'), Link::Leaf(4, 'e'));
    assert_eq!(
        node,
        Link::Node(
            Box::new(Node {
                weight: 9,
                left: Link::Leaf(5, 'd'),
                right: Link::Leaf(4, 'e'),
            }),
            'd'
        )
    );
}

#[test]
fn numbers_are_written_big_end_first() {
    let mut out = vec![7];
    write_be32(&mut out, 0x0102_0304);
    write_be32(&mut out, u32::MAX);
    write_be32(&mut out, 0);
    assert_eq!(out, vec![7, 1, 2, 3, 4, 255, 255, 255, 255, 0, 0, 0, 0]);
    assert_eq!(read_be32(&out, 1), 0x0102_0304);
    assert_eq!(read_be32(&out, 5), u32::MAX);
    assert_eq!(read_be32(&out, 9), 0);
    assert_eq!(read_be32(&out, 0), 0x0701_0203);
    write_bytes(&mut out, &[8, 9]);
    assert_eq!(&out[13..], &[8, 9]);
}

#[test]
fn errors_say_what_went_wrong() {
    assert_eq!(CodecError::EmptyInput.message(), "cannot build a tree with no symbols");
    assert_eq!(CodecError::CorruptFormat.message(), "corrupt frequency table");
    assert_eq!(
        CodecError::TruncatedOrInvalidStream.message(),
        "invalid code or truncated stream"
    );
    assert_eq!(CodecError::UnknownSymbol.message(), "symbol without a code");
    assert_eq!(CodecError::InputTooLarge.message(), "input too large");
}
