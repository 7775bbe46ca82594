//! The framed stream: what the encoder writes for a text, and what the
//! decoder reads from bytes.
//!
//! A frame is the frequency table, one byte with the pad length, and the
//! packed bits. Where the text has one symbol only, its code is empty and
//! there are no bits to pack: the frame then ends with the byte, which holds
//! how often the symbol is repeated.

use super::bits::{bit_capacity, pack, unpack};
use super::codes::{code_bits, codes, decode_bits, ones, padding};
use super::table::char_counts;
use super::tree::{huffman_root, Link};
use super::wire::{readable_table, table_wire};
use crate::types::CodecError;
use vstd::prelude::*;

verus! {

/// The longest run of one symbol that a frame can hold.
pub open spec fn repeat_limit() -> nat {
    255
}

/// The code bits of a text under its own code tree, before padding.
pub open spec fn data_bits(text: Seq<char>) -> Seq<bool> {
    code_bits(codes(huffman_root(char_counts(text))), text)
}

/// The number of code bits that the first `j` symbols of a text take in its
/// frame.
pub open spec fn bits_before(text: Seq<char>, j: int) -> nat {
    code_bits(codes(huffman_root(char_counts(text))), text.take(j)).len()
}

/// The frame of a text, or why there is none.
pub open spec fn encoded(text: Seq<char>) -> Result<Seq<u8>, CodecError> {
    if text.len() == 0 {
        Err(CodecError::EmptyInput)
    } else if text.len() > u32::MAX {
        Err(CodecError::InputTooLarge)
    } else {
        let table = char_counts(text);
        match huffman_root(table) {
            Link::Leaf(_, _) => if text.len() > repeat_limit() {
                Err(CodecError::InputTooLarge)
            } else {
                Ok(table_wire(table) + seq![text.len() as u8])
            },
            Link::Node(_, _) => {
                let data = data_bits(text);
                let pad = padding(data.len());
                if data.len() + pad > bit_capacity() {
                    Err(CodecError::InputTooLarge)
                } else {
                    Ok(table_wire(table) + seq![pad as u8] + pack(data + ones(pad)))
                }
            },
        }
    }
}

/// The number of code bits that the frame of a text holds, before padding.
pub open spec fn bits_reported(text: Seq<char>) -> nat {
    match huffman_root(char_counts(text)) {
        Link::Leaf(_, _) => 0,
        Link::Node(_, _) => data_bits(text).len(),
    }
}

/// The text of a frame, or why there is none.
pub open spec fn decoded(bytes: Seq<u8>) -> Result<Seq<char>, CodecError> {
    match readable_table(bytes) {
        None => Err(CodecError::CorruptFormat),
        Some((table, used)) => if bytes.len() <= used {
            Err(CodecError::TruncatedOrInvalidStream)
        } else {
            let pad = bytes[used as int] as nat;
            let payload = bytes.skip(used as int + 1);
            match huffman_root(table) {
                Link::Leaf(_, symbol) => if payload.len() > 0 {
                    Err(CodecError::TruncatedOrInvalidStream)
                } else {
                    Ok(Seq::new(pad, |i: int| symbol))
                },
                Link::Node(_, _) => if pad > 7 || pad > 8 * payload.len() {
                    Err(CodecError::TruncatedOrInvalidStream)
                } else if 8 * payload.len() > bit_capacity() {
                    Err(CodecError::InputTooLarge)
                } else {
                    match decode_bits(
                        huffman_root(table),
                        unpack(payload).take(8 * payload.len() - pad),
                    ) {
                        Some(text) => Ok(text),
                        None => Err(CodecError::TruncatedOrInvalidStream),
                    }
                },
            }
        },
    }
}

} // verus!
