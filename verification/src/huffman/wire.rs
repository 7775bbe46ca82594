//! The byte format of a frequency table.
//!
//! A table is written as the length of its symbols' UTF-8 text, that text
//! with the symbols in ascending order, and one count for each symbol in the
//! same order. Lengths and counts are four bytes each, big end first.

use super::table::{
    lemma_ascending_len, lemma_sorted_symbols, map_get, map_insert, sorted_keys, sorted_symbols,
    symbol_limit, table_total,
};
use super::tree::{total_count, HuffmanTree};
use crate::types::{CodecError, Serializable};
use std::collections::HashMap;
use vstd::prelude::*;
use vstd::utf8::{
    decode_utf8, encode_scalar, encode_utf8, encode_utf8_decode_utf8, encode_utf8_valid_utf8,
    valid_utf8,
};

verus! {

/// The four bytes of `x`, big end first.
pub open spec fn be32(x: u32) -> Seq<u8> {
    seq![
        (x / 0x100_0000) as u8,
        ((x / 0x1_0000) % 0x100) as u8,
        ((x / 0x100) % 0x100) as u8,
        (x % 0x100) as u8,
    ]
}

/// The number that the first four bytes of `bytes` spell, big end first.
pub open spec fn be32_value(bytes: Seq<u8>) -> u32 {
    (bytes[0] * 0x100_0000 + bytes[1] * 0x1_0000 + bytes[2] * 0x100 + bytes[3]) as u32
}

/// The counts of the symbols of `order`, four bytes each.
pub open spec fn counts_wire(table: Map<char, u32>, order: Seq<char>) -> Seq<u8>
    decreases order.len(),
{
    if order.len() == 0 {
        Seq::empty()
    } else {
        counts_wire(table, order.drop_last()) + be32(table[order.last()])
    }
}

/// The bytes of a frequency table.
pub open spec fn table_wire(table: Map<char, u32>) -> Seq<u8> {
    let symbols = sorted_symbols(table.dom());
    let text = encode_utf8(symbols);
    be32(text.len() as u32) + text + counts_wire(table, symbols)
}

/// The table that holds the entries given. Where a symbol stands twice, its
/// last count holds.
pub open spec fn table_of(entries: Seq<(char, u32)>) -> Map<char, u32>
    decreases entries.len(),
{
    if entries.len() == 0 {
        Map::empty()
    } else {
        table_of(entries.drop_last()).insert(entries.last().0, entries.last().1)
    }
}

/// Each symbol with the count that `bytes` holds at its position, four bytes
/// each.
pub open spec fn entries_read(symbols: Seq<char>, bytes: Seq<u8>) -> Seq<(char, u32)> {
    Seq::new(symbols.len(), |i: int| (symbols[i], be32_value(bytes.subrange(4 * i, 4 * i + 4))))
}

/// The frequency table at the front of `bytes` and the number of bytes it
/// takes, if the bytes hold one in full.
pub open spec fn parse_table(bytes: Seq<u8>) -> Option<(Map<char, u32>, nat)> {
    if bytes.len() < 4 {
        None
    } else {
        let n = be32_value(bytes) as int;
        if bytes.len() < 4 + n {
            None
        } else if !valid_utf8(bytes.subrange(4, 4 + n)) {
            None
        } else {
            let symbols = decode_utf8(bytes.subrange(4, 4 + n));
            let end = 4 + n + 4 * symbols.len();
            if bytes.len() < end {
                None
            } else {
                Some((table_of(entries_read(symbols, bytes.skip(4 + n))), end as nat))
            }
        }
    }
}

/// The frequency table at the front of `bytes`, if it is one that a code tree
/// can be built from: it holds a symbol, and its counts add up within `u32`.
pub open spec fn readable_table(bytes: Seq<u8>) -> Option<(Map<char, u32>, nat)> {
    match parse_table(bytes) {
        Some((table, used)) => if table.is_empty() || table_total(table) > u32::MAX {
            None
        } else {
            Some((table, used))
        },
        None => None,
    }
}

/// `String::push`: appends one symbol.
#[verifier::external_body]
pub(crate) fn string_push(text: &mut String, c: char)
    ensures
        final(text)@ == old(text)@.push(c),
{
    text.push(c)
}

/// `String::from_utf8`: the text that the bytes encode, if they are valid
/// UTF-8.
#[verifier::external_body]
pub(crate) fn string_from_utf8(bytes: Vec<u8>) -> (text: Option<String>)
    ensures
        text is Some <==> valid_utf8(bytes@),
        text matches Some(s) ==> s@ == decode_utf8(bytes@),
{
    String::from_utf8(bytes).ok()
}

/// A symbol takes at most four bytes.
pub proof fn lemma_utf8_len(s: Seq<char>)
    ensures
        encode_utf8(s).len() <= 4 * s.len(),
    decreases s.len(),
{
    if s.len() > 0 {
        lemma_utf8_len(s.drop_first());
        assert(encode_scalar(s[0] as u32).len() <= 4);
    }
}

/// The counts take four bytes for each symbol.
pub proof fn lemma_counts_wire_len(table: Map<char, u32>, order: Seq<char>)
    ensures
        counts_wire(table, order).len() == 4 * order.len(),
    decreases order.len(),
{
    if order.len() > 0 {
        lemma_counts_wire_len(table, order.drop_last());
    }
}

/// The bytes of a table are few enough for every length in them to fit.
pub proof fn lemma_table_wire_len(table: Map<char, u32>)
    ensures
        encode_utf8(sorted_symbols(table.dom())).len() <= 4 * symbol_limit(),
        table_wire(table).len() == 4 + encode_utf8(sorted_symbols(table.dom())).len() + 4
            * sorted_symbols(table.dom()).len(),
        table_wire(table).len() <= 4 + 8 * symbol_limit(),
{
    let symbols = sorted_symbols(table.dom());
    lemma_sorted_symbols(table.dom());
    lemma_ascending_len(symbols);
    lemma_utf8_len(symbols);
    lemma_counts_wire_len(table, symbols);
}

/// The count of the symbol at position `i` stands at `4 * i`.
pub proof fn lemma_counts_wire_at(table: Map<char, u32>, order: Seq<char>, i: int)
    requires
        0 <= i < order.len(),
    ensures
        counts_wire(table, order).subrange(4 * i, 4 * i + 4) == be32(table[order[i]]),
    decreases order.len(),
{
    let front = order.drop_last();
    lemma_counts_wire_len(table, front);
    lemma_counts_wire_len(table, order);
    let whole = counts_wire(table, order);
    if i == order.len() - 1 {
        assert(whole.subrange(4 * i, 4 * i + 4) =~= be32(table[order.last()]));
    } else {
        lemma_counts_wire_at(table, front, i);
        assert(whole.subrange(4 * i, 4 * i + 4) =~= counts_wire(table, front).subrange(
            4 * i,
            4 * i + 4,
        ));
        assert(front[i] == order[i]);
    }
}

/// Entries taken from a table make up the part of the table that holds their
/// symbols.
pub proof fn lemma_table_of_entries(entries: Seq<(char, u32)>, table: Map<char, u32>, c: char)
    requires
        forall|i: int|
            0 <= i < entries.len() ==> table.contains_key((#[trigger] entries[i]).0)
                && entries[i].1 == table[entries[i].0],
    ensures
        table_of(entries).contains_key(c) <==> exists|i: int|
            0 <= i < entries.len() && (#[trigger] entries[i]).0 == c,
        table_of(entries).contains_key(c) ==> table_of(entries)[c] == table[c],
    decreases entries.len(),
{
    if entries.len() > 0 {
        let front = entries.drop_last();
        assert forall|i: int| 0 <= i < front.len() implies table.contains_key(
            (#[trigger] front[i]).0,
        ) && front[i].1 == table[front[i].0] by {
            assert(front[i] == entries[i]);
        }
        lemma_table_of_entries(front, table, c);
        let last = entries[entries.len() - 1];
        if table_of(entries).contains_key(c) {
            if last.0 == c {
            } else {
                let i = choose|i: int| 0 <= i < front.len() && (#[trigger] front[i]).0 == c;
                assert(entries[i].0 == c);
            }
        }
        if exists|i: int| 0 <= i < entries.len() && (#[trigger] entries[i]).0 == c {
            let i = choose|i: int| 0 <= i < entries.len() && (#[trigger] entries[i]).0 == c;
            if i < front.len() {
                assert(front[i].0 == c);
            }
        }
    }
}

/// Reading finds the table that was written, whatever bytes follow it.
pub proof fn lemma_parse_table_wire(table: Map<char, u32>, rest: Seq<u8>)
    ensures
        parse_table(table_wire(table) + rest) == Some((table, table_wire(table).len())),
{
    let symbols = sorted_symbols(table.dom());
    let text = encode_utf8(symbols);
    let counts = counts_wire(table, symbols);
    let wire = table_wire(table);
    let bytes = wire + rest;
    let n = text.len() as int;
    lemma_table_wire_len(table);
    lemma_sorted_symbols(table.dom());
    lemma_counts_wire_len(table, symbols);
    lemma_be32_round_trip(n as u32);
    encode_utf8_valid_utf8(symbols);
    encode_utf8_decode_utf8(symbols);
    assert(be32_value(bytes) == n) by {
        let head = be32(n as u32);
        assert(bytes[0] == head[0] && bytes[1] == head[1] && bytes[2] == head[2] && bytes[3]
            == head[3]);
    }
    assert(bytes.subrange(4, 4 + n) =~= text);
    let end = 4 + n + 4 * symbols.len();
    assert(end == wire.len());
    let entries = entries_read(symbols, bytes.skip(4 + n));
    assert forall|i: int| 0 <= i < entries.len() implies table.contains_key(
        (#[trigger] entries[i]).0,
    ) && entries[i].1 == table[entries[i].0] by {
        assert(symbols.contains(symbols[i]));
        lemma_counts_wire_at(table, symbols, i);
        assert(bytes.skip(4 + n).subrange(4 * i, 4 * i + 4) =~= counts.subrange(
            4 * i,
            4 * i + 4,
        ));
        lemma_be32_round_trip(table[symbols[i]]);
    }
    assert forall|c: char| table_of(entries).contains_key(c) <==> table.contains_key(c) by {
        lemma_table_of_entries(entries, table, c);
        if table.contains_key(c) {
            assert(symbols.contains(c));
            let i = choose|i: int| 0 <= i < symbols.len() && symbols[i] == c;
            assert(entries[i].0 == c);
        }
        if table_of(entries).contains_key(c) {
            let i = choose|i: int| 0 <= i < entries.len() && (#[trigger] entries[i]).0 == c;
            assert(symbols.contains(symbols[i]));
        }
    }
    assert forall|c: char| table_of(entries).contains_key(c) implies table_of(entries)[c]
        == table[c] by {
        lemma_table_of_entries(entries, table, c);
    }
    assert(table_of(entries) =~= table);
}

/// Four bytes spell the number they were written from.
pub proof fn lemma_be32_round_trip(x: u32)
    ensures
        be32(x).len() == 4,
        be32_value(be32(x)) == x,
{
}

/// The bytes of a number, written to `out`.
pub fn write_be32(out: &mut Vec<u8>, x: u32)
    ensures
        final(out)@ == old(out)@ + be32(x),
{
    out.push((x / 0x100_0000) as u8);
    out.push(((x / 0x1_0000) % 0x100) as u8);
    out.push(((x / 0x100) % 0x100) as u8);
    out.push((x % 0x100) as u8);
    assert(out@ =~= old(out)@ + be32(x));
}

/// The number spelled by the four bytes of `bytes` from `at` on, which must
/// be there.
pub fn read_be32(bytes: &[u8], at: usize) -> (x: u32)
    requires
        at + 4 <= bytes@.len(),
    ensures
        x == be32_value(bytes@.subrange(at as int, at + 4)),
{
    let b0: u32 = bytes[at] as u32;
    let b1: u32 = bytes[at + 1] as u32;
    let b2: u32 = bytes[at + 2] as u32;
    let b3: u32 = bytes[at + 3] as u32;
    b0 * 0x100_0000 + b1 * 0x1_0000 + b2 * 0x100 + b3
}

/// Appends `bytes` to `out`.
pub fn write_bytes(out: &mut Vec<u8>, bytes: &[u8])
    ensures
        final(out)@ == old(out)@ + bytes@,
{
    let mut i: usize = 0;
    while i < bytes.len()
        invariant
            i <= bytes.len(),
            out@ == old(out)@ + bytes@.take(i as int),
        decreases bytes.len() - i,
    {
        out.push(bytes[i]);
        assert(bytes@.take(i + 1) == bytes@.take(i as int).push(bytes@[i as int]));
        i = i + 1;
    }
    assert(bytes@.take(bytes@.len() as int) == bytes@);
}

impl Serializable for HuffmanTree {
    /// Appends the bytes of the tree's frequency table to `writer`. The shape
    /// of the tree is not written: it follows from the table.
    fn serialize(&self, writer: &mut Vec<u8>) -> (written: Result<usize, CodecError>)
        ensures
            final(writer)@ == old(writer)@ + table_wire(self.counts@),
            written == Ok::<usize, CodecError>(table_wire(self.counts@).len() as usize),
    {
        let symbols = sorted_keys(&self.counts);
        proof {
            lemma_table_wire_len(self.counts@);
        }
        let mut text = String::new();
        let mut i: usize = 0;
        while i < symbols.len()
            invariant
                i <= symbols.len(),
                text@ == symbols@.take(i as int),
            decreases symbols.len() - i,
        {
            string_push(&mut text, symbols[i]);
            assert(symbols@.take(i + 1) == symbols@.take(i as int).push(symbols@[i as int]));
            i = i + 1;
        }
        assert(symbols@.take(symbols@.len() as int) == symbols@);
        let bytes = text.as_str().as_bytes();
        let n: usize = bytes.len();
        write_be32(writer, n as u32);
        write_bytes(writer, bytes);
        let ghost head = writer@;
        let mut k: usize = 0;
        while k < symbols.len()
            invariant
                k <= symbols.len(),
                symbols@ == sorted_symbols(self.counts@.dom()),
                writer@ == head + counts_wire(self.counts@, symbols@.take(k as int)),
            decreases symbols.len() - k,
        {
            let count: u32 = match map_get(&self.counts, symbols[k]) {
                Some(c) => *c,
                None => 0,
            };
            proof {
                lemma_sorted_symbols(self.counts@.dom());
                assert(symbols@.contains(symbols@[k as int]));
                assert(symbols@.take(k + 1).drop_last() == symbols@.take(k as int));
            }
            write_be32(writer, count);
            k = k + 1;
        }
        assert(symbols@.take(symbols@.len() as int) == symbols@);
        assert(writer@ =~= old(writer)@ + table_wire(self.counts@));
        assert(writer@.subrange(0, old(writer)@.len() as int) =~= old(writer)@);
        Ok(4 + n + 4 * symbols.len())
    }

    /// Reads a frequency table from the front of `reader` and builds its
    /// code tree.
    fn deserialize(reader: &[u8]) -> (read: Result<(Self, usize), CodecError>)
        ensures
            match read {
                Ok((tree, used)) => readable_table(reader@) == Some((tree.counts@, used as nat))
                    && tree.well_formed(),
                Err(e) => e == CodecError::CorruptFormat && readable_table(reader@) is None,
            },
    {
        if reader.len() < 4 {
            return Err(CodecError::CorruptFormat);
        }
        assert(reader@.subrange(0, 4) =~= reader@.take(4));
        let n: usize = read_be32(reader, 0) as usize;
        assert(be32_value(reader@.subrange(0, 4)) == be32_value(reader@));
        if n > reader.len() - 4 {
            return Err(CodecError::CorruptFormat);
        }
        let mut symbol_bytes: Vec<u8> = Vec::new();
        let mut i: usize = 0;
        while i < n
            invariant
                i <= n,
                4 + n <= reader@.len(),
                symbol_bytes@ == reader@.subrange(4, 4 + i),
            decreases n - i,
        {
            symbol_bytes.push(reader[4 + i]);
            assert(reader@.subrange(4, 4 + i + 1) == reader@.subrange(4, 4 + i).push(
                reader@[4 + i],
            ));
            i = i + 1;
        }
        let text = match string_from_utf8(symbol_bytes) {
            Some(text) => text,
            None => {
                return Err(CodecError::CorruptFormat);
            },
        };
        let ghost entries = entries_read(text@, reader@.skip(4 + n));
        let mut counts: HashMap<char, u32> = HashMap::new();
        let mut at: usize = 4 + n;
        assert(counts@ =~= table_of(entries.take(0)));
        for c in it: text.as_str().chars()
            invariant
                it.seq() == text@,
                4 + n <= reader@.len(),
                n == be32_value(reader@),
                valid_utf8(reader@.subrange(4, 4 + n)),
                text@ == decode_utf8(reader@.subrange(4, 4 + n)),
                at == 4 + n + 4 * it.index(),
                at <= reader@.len(),
                entries == entries_read(text@, reader@.skip(4 + n)),
                counts@ == table_of(entries.take(it.index() as int)),
        {
            if reader.len() - at < 4 {
                proof {
                    assert(it.index() < text@.len());
                    assert(reader@.len() < 4 + n + 4 * text@.len());
                }
                return Err(CodecError::CorruptFormat);
            }
            let count = read_be32(reader, at);
            proof {
                let idx = it.index() as int;
                assert(reader@.skip(4 + n).subrange(4 * idx, 4 * idx + 4) =~= reader@.subrange(
                    at as int,
                    at + 4,
                ));
                assert(entries.take(idx + 1).drop_last() == entries.take(idx));
                assert(entries.take(idx + 1).last() == (c, count));
            }
            map_insert(&mut counts, c, count);
            at = at + 4;
        }
        assert(entries.take(entries.len() as int) == entries);
        match total_count(&counts) {
            Some(_) => {},
            None => {
                return Err(CodecError::CorruptFormat);
            },
        }
        match HuffmanTree::from_counts(&counts) {
            Some(tree) => Ok((tree, at)),
            None => Err(CodecError::CorruptFormat),
        }
    }
}

} // verus!
