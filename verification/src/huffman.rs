//! Huffman encoder and decoder.

pub mod bits;
pub mod codes;
pub mod laws;
pub mod order;
pub mod queue;
pub mod stream;
pub mod table;
pub mod tree;
pub mod wire;

use self::bits::{
    bit_capacity, pack, raw_append, raw_clone, raw_from_bytes, raw_get, raw_len, raw_load,
    raw_new, raw_push, Bits,
};
use self::codes::{
    all_known, code_bits, code_table, codes, codes_under, completed, decode_bits, frontier_size,
    ones, padding, prepend, size, walk, within, Frontier,
};
use self::laws::{lemma_codes_domain, lemma_huffman_root};
use self::stream::{bits_reported, data_bits, decoded, encoded};
use self::table::{
    char_counts, lemma_counts_total, lemma_occurrences_prefix, lemma_occurs, map_get,
    map_insert, occurrences,
};
use self::tree::{HuffmanTree, Link};
use self::wire::{string_push, write_bytes};
use crate::types::{CodecError, Serializable};
use std::collections::HashMap;
use vstd::prelude::*;
use vstd::string::StrSliceExecFns;
use vstd::utf8::encode_utf8;

verus! {

/// Counts how often each symbol occurs in `source`. No symbol may occur more
/// than `i32::MAX` times.
pub fn count_chars(source: &str) -> (counts: HashMap<char, i32>)
    requires
        forall|c: char| occurrences(source@, c) <= i32::MAX,
    ensures
        counts@ == Map::new(
            |c: char| occurrences(source@, c) > 0,
            |c: char| occurrences(source@, c) as i32,
        ),
{
    let mut counts: HashMap<char, i32> = HashMap::new();
    assert(counts@ =~= Map::new(
        |c: char| occurrences(Seq::<char>::empty(), c) > 0,
        |c: char| occurrences(Seq::<char>::empty(), c) as i32,
    ));
    for c in it: source.chars()
        invariant
            it.seq() == source@,
            counts@ == Map::new(
                |c: char| occurrences(source@.take(it.index() as int), c) > 0,
                |c: char| occurrences(source@.take(it.index() as int), c) as i32,
            ),
            forall|c: char| occurrences(source@, c) <= i32::MAX,
    {
        let ghost seen = source@.take(it.index() as int);
        let ghost next = source@.take(it.index() + 1);
        proof {
            assert(next.drop_last() == seen);
            assert(next.last() == c);
            lemma_occurrences_prefix(source@, it.index() + 1, c);
        }
        let so_far: i32 = match map_get(&counts, c) {
            Some(n) => *n,
            None => 0,
        };
        map_insert(&mut counts, c, so_far + 1);
        assert(counts@ =~= Map::new(
            |c: char| occurrences(next, c) > 0,
            |c: char| occurrences(next, c) as i32,
        ));
    }
    assert(source@.take(source@.len() as int) == source@);
    counts
}

/// What a traversal's stack stands for: each subtree with the bits of the
/// path that leads to it.
pub open spec fn frontier_of(stack: Seq<(&Link, Bits)>) -> Frontier {
    Seq::new(stack.len(), |i: int| (*stack[i].0, stack[i].1@))
}

/// Finds the code of each symbol of a tree: the path from the root to the
/// symbol's leaf, a clear bit for each step to the left and a set bit for
/// each step to the right. A tree that is a lone leaf gives its symbol the
/// empty code.
///
/// The traversal is depth first with a stack of its own, so that a deep tree
/// does not exhaust the call stack. The tree must not be higher than a bit
/// string is long; the tree of a frequency table never is.
pub fn build_dictionary(tree: &HuffmanTree) -> (dict: HashMap<char, Bits>)
    requires
        tree.root.height() <= bit_capacity(),
    ensures
        code_table(dict@) == codes(tree.root),
{
    let mut frontier: Vec<(&Link, Bits)> = Vec::new();
    frontier.push((&tree.root, raw_new()));
    let mut dict: HashMap<char, Bits> = HashMap::new();
    proof {
        let start = frontier_of(frontier@);
        assert(start.drop_last() =~= Seq::empty());
        assert(code_table(dict@) =~= Map::empty());
        assert(Map::<char, Seq<bool>>::empty().union_prefer_right(codes(tree.root)) =~= codes(
            tree.root,
        ));
        assert(start.last() == (tree.root, Seq::<bool>::empty()));
        assert(completed(start, code_table(dict@)) == completed(
            start.drop_last(),
            code_table(dict@).union_prefer_right(codes(tree.root)),
        ));
    }
    while frontier.len() > 0
        invariant
            completed(frontier_of(frontier@), code_table(dict@)) == codes(tree.root),
            within(frontier_of(frontier@), bit_capacity()),
        decreases frontier_size(frontier_of(frontier@)),
    {
        let ghost before = frontier_of(frontier@);
        let ghost known = code_table(dict@);
        let (link, code) = frontier.pop().unwrap();
        let ghost rest = frontier_of(frontier@);
        proof {
            assert(rest =~= before.drop_last());
            assert(before.last() == (*link, code@));
            assert forall|i: int| 0 <= i < rest.len() implies (#[trigger] rest[i]).1.len()
                + rest[i].0.height() <= bit_capacity() by {
                assert(rest[i] == before[i]);
            }
        }
        match link {
            Link::Leaf(_, symbol) => {
                map_insert(&mut dict, *symbol, code);
                proof {
                    assert(code_table(dict@) =~= known.union_prefer_right(
                        codes_under(*link, before.last().1),
                    ));
                }
            },
            Link::Node(node, _) => {
                proof {
                    assert(before[before.len() - 1].1.len() + before[before.len() - 1].0.height()
                        <= bit_capacity());
                }
                let mut left_code = raw_clone(&code);
                raw_push(&mut left_code, false);
                let mut right_code = code;
                raw_push(&mut right_code, true);
                frontier.push((&node.left, left_code));
                frontier.push((&node.right, right_code));
                proof {
                    let path = before.last().1;
                    let after = frontier_of(frontier@);
                    let mid = after.drop_last();
                    let lefts = codes_under(node.left, path.push(false));
                    let rights = codes_under(node.right, path.push(true));
                    assert(after.last() == (node.right, path.push(true)));
                    assert(mid.last() == (node.left, path.push(false)));
                    assert(mid.drop_last() =~= rest);
                    assert(known.union_prefer_right(rights).union_prefer_right(lefts)
                        =~= known.union_prefer_right(rights.union_prefer_right(lefts)));
                    assert(completed(after, known) == completed(
                        mid,
                        known.union_prefer_right(rights),
                    ));
                    assert(completed(mid, known.union_prefer_right(rights)) == completed(
                        rest,
                        known.union_prefer_right(rights).union_prefer_right(lefts),
                    ));
                    assert(frontier_size(after) == frontier_size(mid) + size(node.right));
                    assert(frontier_size(mid) == frontier_size(rest) + size(node.left));
                    assert forall|i: int| 0 <= i < after.len() implies (#[trigger] after[i]).1.len()
                        + after[i].0.height() <= bit_capacity() by {
                        if i < rest.len() {
                            assert(after[i] == rest[i]);
                        }
                    }
                }
            },
        }
    }
    dict
}

/// Strings the codes of the symbols of `text` together.
///
/// Fails with `UnknownSymbol` where the dictionary lacks a symbol of the
/// text, and otherwise with `InputTooLarge` where the bits are more than a
/// bit string can hold.
pub fn encode_with_dictionary(text: &str, dict: &HashMap<char, Bits>) -> (packed: Result<
    Bits,
    CodecError,
>)
    ensures
        match packed {
            Ok(bits) => all_known(code_table(dict@), text@) && bits@ == code_bits(
                code_table(dict@),
                text@,
            ) && bits@.len() <= bit_capacity(),
            Err(e) => if all_known(code_table(dict@), text@) {
                e == CodecError::InputTooLarge && code_bits(code_table(dict@), text@).len()
                    > bit_capacity()
            } else {
                e == CodecError::UnknownSymbol
            },
        },
{
    let ghost table = code_table(dict@);
    let mut data = raw_new();
    let mut fits = true;
    for c in it: text.chars()
        invariant
            it.seq() == text@,
            table == code_table(dict@),
            all_known(table, text@.take(it.index() as int)),
            fits ==> data@ == code_bits(table, text@.take(it.index() as int)),
            !fits ==> code_bits(table, text@.take(it.index() as int)).len() > bit_capacity(),
            data@.len() <= bit_capacity(),
    {
        let ghost seen = text@.take(it.index() as int);
        let ghost next = text@.take(it.index() + 1);
        proof {
            assert(next.drop_last() == seen);
            assert(next.last() == c);
        }
        match map_get(dict, c) {
            None => {
                proof {
                    assert(text@[it.index() as int] == c);
                }
                return Err(CodecError::UnknownSymbol);
            },
            Some(code) => {
                if fits {
                    if raw_len(code) > usize::MAX / 8 - raw_len(&data) {
                        fits = false;
                    } else {
                        raw_append(&mut data, code);
                    }
                }
                proof {
                    assert forall|i: int| 0 <= i < next.len() implies table.contains_key(
                        #[trigger] next[i],
                    ) by {
                        if i < seen.len() {
                            assert(seen[i] == next[i]);
                        }
                    }
                }
            },
        }
    }
    assert(text@.take(text@.len() as int) == text@);
    if fits {
        Ok(data)
    } else {
        Err(CodecError::InputTooLarge)
    }
}

/// The bytes of a bit string whose length is a multiple of eight: the first
/// bit of each byte is its least significant one.
pub fn pack_bits(data: &Bits) -> (bytes: Vec<u8>)
    requires
        data@.len() % 8 == 0,
    ensures
        bytes@ == pack(data@),
{
    let n = raw_len(data) / 8;
    let mut bytes: Vec<u8> = Vec::new();
    let mut j: usize = 0;
    while j < n
        invariant
            j <= n,
            n == data@.len() / 8,
            data@.len() % 8 == 0,
            data@.len() <= usize::MAX,
            bytes@ == pack(data@).take(j as int),
        decreases n - j,
    {
        let byte = raw_load(data, 8 * j, 8 * j + 8);
        bytes.push(byte);
        assert(pack(data@).take(j + 1) == pack(data@).take(j as int).push(pack(data@)[j as int]));
        j = j + 1;
    }
    assert(pack(data@).take(n as int) == pack(data@));
    bytes
}

/// Reads the text that the first `usable` bits of `bits` spell under the
/// tree `root`: each bit steps down from the root, a leaf gives its symbol
/// and sends the walk back to the root. There is no text unless the last bit
/// reaches a leaf.
pub fn decode_with_tree(bits: &Bits, usable: usize, root: &Link) -> (text: Option<Vec<char>>)
    requires
        usable <= bits@.len(),
    ensures
        match text {
            Some(symbols) => decode_bits(*root, bits@.take(usable as int)) == Some(symbols@),
            None => decode_bits(*root, bits@.take(usable as int)) is None,
        },
{
    let ghost data = bits@.take(usable as int);
    let mut at: &Link = root;
    let mut out: Vec<char> = Vec::new();
    let mut ended = false;
    let mut i: usize = 0;
    assert(data.skip(0) == data);
    while i < usable
        invariant
            i <= usable,
            usable <= bits@.len(),
            data == bits@.take(usable as int),
            decode_bits(*root, data) == if i == usable && ended {
                Some(out@)
            } else {
                prepend(out@, walk(*root, *at, data.skip(i as int)))
            },
        decreases usable - i,
    {
        let ghost rest = data.skip(i as int);
        proof {
            assert(rest[0] == data[i as int]);
            assert(rest.drop_first() == data.skip(i + 1));
        }
        match at {
            Link::Leaf(_, _) => {
                return None;
            },
            Link::Node(node, _) => {
                let next: &Link = if raw_get(bits, i) {
                    &node.right
                } else {
                    &node.left
                };
                i = i + 1;
                match next {
                    Link::Leaf(_, symbol) => {
                        out.push(*symbol);
                        at = root;
                        ended = true;
                        proof {
                            let before = out@.drop_last();
                            if rest.len() > 1 {
                                let tail = walk(*root, *root, data.skip(i as int));
                                if tail is Some {
                                    assert(before + (seq![*symbol] + tail->0) =~= out@ + tail->0);
                                }
                            } else {
                                assert(before + seq![*symbol] =~= out@);
                            }
                        }
                    },
                    Link::Node(_, _) => {
                        at = next;
                        ended = false;
                    },
                }
            },
        }
    }
    if ended {
        Some(out)
    } else {
        None
    }
}

/// Encodes `text` and appends its frame to `writer`: the frequency table,
/// the pad length, and the code bits packed into bytes and padded with set
/// bits. Returns the number of code bits, before padding.
///
/// Fails with `EmptyInput` on the empty text, and with `InputTooLarge` on a
/// text that the frame cannot hold. A failure leaves `writer` as it was.
pub fn encode(text: &str, writer: &mut Vec<u8>) -> (bits: Result<u64, CodecError>)
    ensures
        match encoded(text@) {
            Ok(frame) => bits == Ok::<u64, CodecError>(bits_reported(text@) as u64)
                && final(writer)@ == old(writer)@ + frame,
            Err(e) => bits == Err::<u64, CodecError>(e) && final(writer)@ == old(writer)@,
        },
{
    let symbols: usize = text.unicode_len();
    if symbols == 0 {
        return Err(CodecError::EmptyInput);
    }
    if symbols > 0xffff_ffff {
        return Err(CodecError::InputTooLarge);
    }
    let ghost table = char_counts(text@);
    proof {
        lemma_counts_total(text@);
        lemma_huffman_root(table);
    }
    let tree = match HuffmanTree::from(text) {
        Some(tree) => tree,
        None => {
            return Err(CodecError::EmptyInput);
        },
    };
    match &tree.root {
        Link::Leaf(_, _) => {
            if symbols > 255 {
                return Err(CodecError::InputTooLarge);
            }
            let _ = tree.serialize(writer);
            writer.push(symbols as u8);
            assert(writer@ =~= old(writer)@ + (self::wire::table_wire(table) + seq![
                symbols as u8,
            ]));
            Ok(0)
        },
        Link::Node(_, _) => {
            let dict = build_dictionary(&tree);
            proof {
                assert forall|i: int| 0 <= i < text@.len() implies codes(tree.root).contains_key(
                    #[trigger] text@[i],
                ) by {
                    lemma_occurs(text@, i);
                    lemma_codes_domain(tree.root, Seq::empty(), text@[i]);
                    assert(table.contains_key(text@[i]));
                }
            }
            let mut data = match encode_with_dictionary(text, &dict) {
                Ok(data) => data,
                Err(e) => {
                    return Err(e);
                },
            };
            let count: usize = raw_len(&data);
            let pad: usize = if count % 8 > 0 {
                8 - count % 8
            } else {
                0
            };
            if pad > usize::MAX / 8 - count {
                return Err(CodecError::InputTooLarge);
            }
            let mut k: usize = 0;
            while k < pad
                invariant
                    k <= pad,
                    count + pad <= bit_capacity(),
                    count == data_bits(text@).len(),
                    data@ == data_bits(text@) + ones(k as nat),
                decreases pad - k,
            {
                raw_push(&mut data, true);
                assert(data_bits(text@) + ones((k + 1) as nat) =~= (data_bits(text@) + ones(
                    k as nat,
                )).push(true));
                k = k + 1;
            }
            let payload = pack_bits(&data);
            let _ = tree.serialize(writer);
            writer.push(pad as u8);
            write_bytes(writer, payload.as_slice());
            assert(writer@ =~= old(writer)@ + (self::wire::table_wire(table) + seq![pad as u8]
                + pack(data_bits(text@) + ones(pad as nat))));
            Ok(count as u64)
        },
    }
}

/// Decodes the frame in `reader` and appends the text, as UTF-8, to
/// `writer`. Returns the number of frames read, which is one.
///
/// Fails with `CorruptFormat` where the frequency table cannot be read, with
/// `TruncatedOrInvalidStream` where the pad length or the packed bits do not
/// fit the tree, and with `InputTooLarge` where the payload is more than a
/// bit string can hold. A failure leaves `writer` as it was.
pub fn decode(reader: &[u8], writer: &mut Vec<u8>) -> (frames: Result<usize, CodecError>)
    ensures
        match decoded(reader@) {
            Ok(text) => frames == Ok::<usize, CodecError>(1) && final(writer)@ == old(writer)@
                + encode_utf8(text),
            Err(e) => frames == Err::<usize, CodecError>(e) && final(writer)@ == old(writer)@,
        },
{
    let (tree, used) = match HuffmanTree::deserialize(reader) {
        Ok(found) => found,
        Err(e) => {
            return Err(e);
        },
    };
    if reader.len() <= used {
        return Err(CodecError::TruncatedOrInvalidStream);
    }
    let pad: usize = reader[used] as usize;
    let start: usize = used + 1;
    let length: usize = reader.len() - start;
    let ghost payload = reader@.skip(start as int);
    let mut text = String::new();
    match &tree.root {
        Link::Leaf(_, symbol) => {
            if length > 0 {
                return Err(CodecError::TruncatedOrInvalidStream);
            }
            let mut k: usize = 0;
            while k < pad
                invariant
                    k <= pad,
                    text@ == Seq::new(k as nat, |i: int| *symbol),
                decreases pad - k,
            {
                string_push(&mut text, *symbol);
                assert(text@ =~= Seq::new((k + 1) as nat, |i: int| *symbol));
                k = k + 1;
            }
        },
        Link::Node(_, _) => {
            if pad > 7 || (length == 0 && pad > 0) {
                return Err(CodecError::TruncatedOrInvalidStream);
            }
            if length > usize::MAX / 8 / 8 {
                return Err(CodecError::InputTooLarge);
            }
            let mut bytes: Vec<u8> = Vec::new();
            let mut i: usize = 0;
            while i < length
                invariant
                    i <= length,
                    start + length == reader@.len(),
                    reader@.len() <= usize::MAX,
                    bytes@ == reader@.subrange(start as int, start + i),
                decreases length - i,
            {
                bytes.push(reader[start + i]);
                assert(reader@.subrange(start as int, start + i + 1) == reader@.subrange(
                    start as int,
                    start + i,
                ).push(reader@[start + i]));
                i = i + 1;
            }
            assert(bytes@ =~= payload);
            let bits = raw_from_bytes(bytes);
            let symbols = match decode_with_tree(&bits, 8 * length - pad, &tree.root) {
                Some(symbols) => symbols,
                None => {
                    return Err(CodecError::TruncatedOrInvalidStream);
                },
            };
            let mut k: usize = 0;
            while k < symbols.len()
                invariant
                    k <= symbols.len(),
                    text@ == symbols@.take(k as int),
                decreases symbols.len() - k,
            {
                string_push(&mut text, symbols[k]);
                assert(symbols@.take(k + 1) == symbols@.take(k as int).push(symbols@[k as int]));
                k = k + 1;
            }
            assert(symbols@.take(symbols@.len() as int) == symbols@);
        },
    }
    write_bytes(writer, text.as_str().as_bytes());
    Ok(1)
}

} // verus!
