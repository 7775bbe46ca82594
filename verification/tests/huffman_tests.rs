use comprust::huffman::bits::Bits;
use comprust::huffman::tree::{HuffmanTree, Link, Node};
use comprust::huffman::{
    build_dictionary, count_chars, decode, decode_with_tree, encode, encode_with_dictionary,
    pack_bits,
};
use comprust::types::CodecError;
use std::collections::HashMap;

fn build_correct_tree() -> HuffmanTree {
    let a = Link::Leaf(15, 'a');
    let b = Link::Leaf(7, 'b');
    let c = Link::Leaf(6, 'c');
    let d = Link::Leaf(5, 'd');
    let e = Link::Leaf(4, 'e');
    let de = Node {
        weight: 9,
        left: d,
        right: e,
    };
    let bc = Node {
        weight: 13,
        left: b,
        right: c,
    };
    let bcde = Node {
        weight: 22,
        left: Link::Node(Box::new(bc), 'b'),
        right: Link::Node(Box::new(de), 'd'),
    };

    HuffmanTree {
        root: Link::Node(
            Box::new(Node {
                weight: 37,
                left: Link::Node(Box::new(bcde), 'b'),
                right: a,
            }),
            'b',
        ),
        counts: HashMap::from([('e', 4), ('d', 5), ('c', 6), ('b', 7), ('a', 15)]),
    }
}

fn bits(pattern: &[u8]) -> Bits {
    let bools: Vec<bool> = pattern.iter().map(|b| *b != 0).collect();
    Bits::from_slice(&bools).unwrap()
}

#[test]
fn huffman_test_count_chars() {
    assert_eq!(count_chars("mamma"), HashMap::from([('m', 3), ('a', 2)]));
    assert_eq!(count_chars(""), HashMap::new());
    assert_eq!(
        count_chars("abcd"),
        HashMap::from([('a', 1), ('b', 1), ('c', 1), ('d', 1)])
    );
}

#[test]
fn builds_correct_dictionary_from_tree() {
    let tree = build_correct_tree();

    assert_eq!(
        build_dictionary(&tree),
        HashMap::from([
            ('a', bits(&[1])),
            ('b', bits(&[0, 0, 0])),
            ('c', bits(&[0, 0, 1])),
            ('d', bits(&[0, 1, 0])),
            ('e', bits(&[0, 1, 1])),
        ])
    )
}

#[test]
fn encodes_correctly_with_dictionary() {
    let dict = build_dictionary(&build_correct_tree());

    assert_eq!(
        encode_with_dictionary("aabcd", &dict),
        Ok(bits(&[1, 1, 0, 0, 0, 0, 0, 1, 0, 1, 0]))
    );
    assert_eq!(encode_with_dictionary("", &dict), Ok(bits(&[])));
    assert_eq!(
        encode_with_dictionary("ee", &dict),
        Ok(bits(&[0, 1, 1, 0, 1, 1]))
    );
}

// aaaa bb c
// (a 4) (b 2) (c 1)
// (a 4) (bc 3)
//
//     root
//     / \
//    4a / \
//      2b  1c
//
//  Codes
//  a: 0
//  b: 10
//  c: 11
//
// bits:
//  0000_1010_11
//
// padded:
//  0000_1010_1111_1111 = 2 bytes
//  Reverse order since Lsb first per byte
// ======================
// buffer = [80, 255]
// num_bits = 10
// Then the padding amount=6 bits as 1 byte just before that
//
// Then we have the actual huffman tree before that
#[test]
fn encodes_simple_string_to_correct_buffer() {
    let mut buffer = Vec::new();

    let result = encode("aaaabbc", &mut buffer).expect("failed");

    assert_eq!(result, 10);
    assert_eq!(
        &buffer,
        &vec![0, 0, 0, 3, 97, 98, 99, 0, 0, 0, 4, 0, 0, 0, 2, 0, 0, 0, 1, 6, 80, 255]
    );
}

#[test]
fn encodes_and_then_decodes_to_same_input() {
    let text = "aaaabbc";
    let mut encode_buffer: Vec<u8> = Vec::new();
    let mut decode_buffer: Vec<u8> = Vec::new();

    // Encode the test into encode_buffer
    let _bits = encode(text, &mut encode_buffer).expect("Failed to encode");

    // Decode back into the decode_buffer
    let _frames =
        decode(encode_buffer.as_slice(), &mut decode_buffer).expect("Failed to decode");

    assert_eq!(
        String::from_utf8(decode_buffer)
            .expect("Failed to create text data from decoded data, probably invalid utf8"),
        text
    );
}

fn round_trip(text: &str) -> String {
    let mut frame = Vec::new();
    encode(text, &mut frame).unwrap();
    let mut out = Vec::new();
    assert_eq!(decode(&frame, &mut out), Ok(1));
    String::from_utf8(out).unwrap()
}

#[test]
fn round_trips_texts_of_many_shapes() {
    for text in [
        "ab",
        "abc",
        "aaaabbc",
        "the quick brown fox jumps over the lazy dog",
        "Grüße, мир! 你好 🌍🌍🌍 — naïve café",
        "\n\t\0 mixed\r\ncontrol",
        "aaaaaaaaaaaaaaabbbbbbbccccccdddddeeee",
        "abababababababab",
    ] {
        assert_eq!(round_trip(text), text);
    }
    let long: String = (0..5000).map(|i| char::from(b'a' + (i * i % 26) as u8)).collect();
    assert_eq!(round_trip(&long), long);
}

#[test]
fn dictionary_codes_are_prefix_free() {
    let text = "it was the best of times, it was the worst of times";
    let tree = HuffmanTree::from(text).unwrap();
    let dict = build_dictionary(&tree);
    assert_eq!(dict.len(), tree.counts.len());
    for (c, code) in &dict {
        for (d, other) in &dict {
            if c != d {
                let a = code.to_vec();
                let b = other.to_vec();
                assert!(!b.starts_with(&a), "{:?} is a prefix of {:?}", c, d);
            }
        }
    }
}

#[test]
fn format_of_a_small_frame_is_stable() {
    let tree = HuffmanTree::from("aaaabbc").unwrap();
    assert_eq!(
        tree.counts,
        HashMap::from([('a', 4), ('b', 2), ('c', 1)])
    );
    let dict = build_dictionary(&tree);
    assert_eq!(
        dict,
        HashMap::from([('a', bits(&[0])), ('b', bits(&[1, 0])), ('c', bits(&[1, 1]))])
    );
    let data = encode_with_dictionary("aaaabbc", &dict).unwrap();
    assert_eq!(data, bits(&[0, 0, 0, 0, 1, 0, 1, 0, 1, 1]));
    assert_eq!(data.len(), 10);
    let padded = bits(&[0, 0, 0, 0, 1, 0, 1, 0, 1, 1, 1, 1, 1, 1, 1, 1]);
    assert_eq!(pack_bits(&padded), vec![80, 255]);
}

#[test]
fn single_symbol_text_round_trips_by_repeat_count() {
    let mut frame = Vec::new();
    assert_eq!(encode("aaaa", &mut frame), Ok(0));
    // The table, then the repeat count in place of the pad length, and no payload.
    assert_eq!(frame, vec![0, 0, 0, 1, 97, 0, 0, 0, 4, 4]);
    let mut out = Vec::new();
    assert_eq!(decode(&frame, &mut out), Ok(1));
    assert_eq!(out, b"aaaa");

    assert_eq!(round_trip("z"), "z");
    let longest: String = "é".repeat(255);
    assert_eq!(round_trip(&longest), longest);
}

#[test]
fn single_symbol_text_beyond_the_repeat_count_is_too_large() {
    let mut frame = vec![1, 2, 3];
    assert_eq!(
        encode(&"a".repeat(256), &mut frame),
        Err(CodecError::InputTooLarge)
    );
    assert_eq!(frame, vec![1, 2, 3]);
}

#[test]
fn single_symbol_frame_with_a_payload_is_rejected() {
    let mut out = Vec::new();
    assert_eq!(
        decode(&[0, 0, 0, 1, 97, 0, 0, 0, 4, 4, 0], &mut out),
        Err(CodecError::TruncatedOrInvalidStream)
    );
    assert!(out.is_empty());
}

#[test]
fn empty_text_is_reported_as_empty_input() {
    let mut frame = vec![7];
    assert_eq!(encode("", &mut frame), Err(CodecError::EmptyInput));
    assert_eq!(frame, vec![7]);
}

#[test]
fn truncated_payload_is_rejected() {
    // Ten bits: 0 10 0 0 0 10 11. Without the second byte two bits are left,
    // and the second of them stops inside the code of b.
    let mut frame = Vec::new();
    assert_eq!(encode("abaaabc", &mut frame), Ok(10));
    frame.pop();
    let mut out = vec![1u8];
    assert_eq!(
        decode(&frame, &mut out),
        Err(CodecError::TruncatedOrInvalidStream)
    );
    assert_eq!(out, vec![1]);

    // Every shorter cut fails too, one way or the other.
    while !frame.is_empty() {
        frame.pop();
        let result = decode(&frame, &mut out);
        assert!(
            result == Err(CodecError::TruncatedOrInvalidStream)
                || result == Err(CodecError::CorruptFormat)
        );
        assert_eq!(out, vec![1]);
    }
}

#[test]
fn a_cut_between_two_codes_goes_unnoticed() {
    // Sixteen one-bit codes fill two bytes; the first byte alone is a frame of its own.
    let text = "abababababababab";
    let mut frame = Vec::new();
    assert_eq!(encode(text, &mut frame), Ok(16));
    // Of two equally heavy leaves the one with the smaller symbol goes right: a is 1
    // and b is 0. No filler bits: the pad length is zero, and two bytes of payload
    // follow, first bit lowest.
    assert_eq!(
        frame,
        vec![0, 0, 0, 2, 97, 98, 0, 0, 0, 8, 0, 0, 0, 8, 0, 0b0101_0101, 0b0101_0101]
    );
    frame.pop();
    let mut out = Vec::new();
    assert_eq!(decode(&frame, &mut out), Ok(1));
    assert_eq!(out, b"abababab");

    // Ten bits of which the first two are the codes of two a's.
    let mut frame = Vec::new();
    assert_eq!(encode("aaaabbc", &mut frame), Ok(10));
    frame.pop();
    let mut out = Vec::new();
    assert_eq!(decode(&frame, &mut out), Ok(1));
    assert_eq!(out, b"aa");
}

#[test]
fn decode_rejects_frames_that_do_not_fit_the_tree() {
    let table = [0, 0, 0, 3, 97, 98, 99, 0, 0, 0, 4, 0, 0, 0, 2, 0, 0, 0, 1];
    let truncated = Err(CodecError::TruncatedOrInvalidStream);
    let mut out = Vec::new();
    let frame = |tail: &[u8]| [&table[..], tail].concat();
    // No pad length.
    assert_eq!(decode(&frame(&[]), &mut out), truncated);
    // No bits at all.
    assert_eq!(decode(&frame(&[0]), &mut out), truncated);
    // More padding than payload.
    assert_eq!(decode(&frame(&[1]), &mut out), truncated);
    // A pad length of a whole byte or more.
    assert_eq!(decode(&frame(&[8, 0, 0]), &mut out), truncated);
    // The last bit stops at an internal node: a, then half of b.
    assert_eq!(decode(&frame(&[6, 0b10]), &mut out), truncated);
    // Corrupt table.
    assert_eq!(decode(&[0, 0], &mut out), Err(CodecError::CorruptFormat));
    assert!(out.is_empty());
    // The padding is taken off the end: a, b.
    assert_eq!(decode(&frame(&[5, 0b010]), &mut out), Ok(1));
    assert_eq!(out, b"ab");
}

#[test]
fn decode_appends_to_what_the_writer_holds() {
    let mut frame = Vec::new();
    encode("hello", &mut frame).unwrap();
    let mut out = b">> ".to_vec();
    assert_eq!(decode(&frame, &mut out), Ok(1));
    assert_eq!(out, b">> hello");
}

#[test]
fn encode_appends_to_what_the_writer_holds() {
    let mut frame = vec![42];
    assert_eq!(encode("aaaabbc", &mut frame), Ok(10));
    assert_eq!(frame[0], 42);
    assert_eq!(frame.len(), 23);
}

#[test]
fn unknown_symbol_is_reported() {
    let dict = build_dictionary(&build_correct_tree());
    assert_eq!(
        encode_with_dictionary("abz", &dict),
        Err(CodecError::UnknownSymbol)
    );
}

#[test]
fn lone_leaf_has_the_empty_code() {
    let tree = HuffmanTree::from("aaaa").unwrap();
    assert_eq!(tree.root, Link::Leaf(4, 'a'));
    let dict = build_dictionary(&tree);
    assert_eq!(dict, HashMap::from([('a', bits(&[]))]));
    assert_eq!(encode_with_dictionary("aaaa", &dict), Ok(bits(&[])));
}

#[test]
fn leftmost_leaf_gives_the_code_of_a_repeated_symbol() {
    let twice = Node {
        weight: 2,
        left: Link::Leaf(1, 'x'),
        right: Link::Leaf(1, 'x'),
    };
    let tree = HuffmanTree {
        root: Link::Node(Box::new(twice), 'x'),
        counts: HashMap::from([('x', 2)]),
    };
    assert_eq!(build_dictionary(&tree), HashMap::from([('x', bits(&[0]))]));
}

#[test]
fn bits_are_read_least_significant_first() {
    let tree = build_correct_tree();
    // 0b0000_1101: 1 (a), 0 1 1 (e), then padding.
    let data = Bits::from_slice(&[true, false, true, true, false, false, false, false]).unwrap();
    assert_eq!(
        decode_with_tree(&data, 4, &tree.root),
        Some(vec!['a', 'e'])
    );
    assert_eq!(decode_with_tree(&data, 5, &tree.root), None);
    assert_eq!(decode_with_tree(&data, 0, &tree.root), None);
    assert_eq!(decode_with_tree(&data, 1, &tree.root), Some(vec!['a']));
    assert_eq!(decode_with_tree(&data, 1, &Link::Leaf(1, 'q')), None);
}

#[test]
fn bit_strings_hold_what_they_are_given() {
    let held = Bits::from_slice(&[true, false, false, true]).unwrap();
    assert_eq!(held.len(), 4);
    assert_eq!(held.get(0), Some(true));
    assert_eq!(held.get(1), Some(false));
    assert_eq!(held.get(3), Some(true));
    assert_eq!(held.get(4), None);
    assert_eq!(held.to_vec(), vec![true, false, false, true]);
    assert_eq!(Bits::new().len(), 0);
    assert_eq!(Bits::new().to_vec(), Vec::<bool>::new());
    assert_ne!(held, Bits::new());
}

#[test]
fn packing_puts_the_first_bit_lowest() {
    let one = bits(&[1, 0, 0, 0, 0, 0, 0, 0]);
    assert_eq!(pack_bits(&one), vec![1]);
    let high = bits(&[0, 0, 0, 0, 0, 0, 0, 1]);
    assert_eq!(pack_bits(&high), vec![128]);
    let three = bits(&[1, 1, 0, 0, 0, 0, 0, 0, 0, 1, 0, 0, 0, 0, 0, 0, 1, 1, 1, 1, 1, 1, 1, 1]);
    assert_eq!(pack_bits(&three), vec![3, 2, 255]);
    assert_eq!(pack_bits(&Bits::new()), Vec::<u8>::new());
}

#[test]
fn frame_of_five_symbols_is_laid_out_as_documented() {
    let text = "aaaaaaaaaaaaaaabbbbbbbccccccdddddeeee";
    let mut frame = Vec::new();
    // 15 * 1 + (7 + 6 + 5 + 4) * 3 bits.
    assert_eq!(encode(text, &mut frame), Ok(81));
    assert_eq!(
        &frame[..30],
        &[
            0, 0, 0, 5, 97, 98, 99, 100, 101, 0, 0, 0, 15, 0, 0, 0, 7, 0, 0, 0, 6, 0, 0, 0, 5,
            0, 0, 0, 4, 7
        ]
    );
    assert_eq!(frame.len(), 30 + 11);
    // Fifteen set bits for the a's, then b = 000.
    assert_eq!(frame[30], 0xff);
    assert_eq!(frame[31], 0x7f);
    // The last byte ends with seven filler bits.
    assert_eq!(frame[40] & 0xfe, 0xfe);
}
