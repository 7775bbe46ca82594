//! What holds of every code tree that is built from a frequency table, and
//! of every frame that is written for a text.
//!
//! The construction does not depend on the order in which the symbols are
//! entered ([`lemma_tree_of_any_order`]). The tree of a table has one leaf
//! for each symbol, and its root weighs what the table counts
//! ([`lemma_huffman_root`]). No code is the beginning of another
//! ([`lemma_prefix_free`]). Decoding a frame gives back the text that it was
//! written for ([`lemma_round_trip`]), and a frame that has lost its last
//! byte does not decode unless the cut falls between two codes
//! ([`lemma_truncated_frame`], [`lemma_cut_between_codes`]).

use super::bits::{lemma_unpack_pack, pack, unpack};
use super::codes::{
    all_known, code_bits, codes, codes_under, decode_bits, leads_to, ones, padding, prepend,
    subtree, walk,
};
use super::queue::{
    forest_count, leaf_queue, leaf_total, lemma_enqueue_members, lemma_forest_count_insert,
    lemma_insertion_order_irrelevant, lemma_leaf_queue_members, lemma_leaf_queue_weight,
    lemma_leaf_total_insert, lemma_merged_weight, lemma_slot, merged, reduced, slot, weight_sum,
};
use super::stream::{bits_before, data_bits, decoded, encoded};
use super::table::{
    char_counts, lemma_ascending_len, lemma_counts_total, lemma_occurs, lemma_sorted_symbols,
    lemma_symbol_code, sorted_symbols, symbol_limit, table_total,
};
use super::tree::{huffman_root, joined, Link};
use super::wire::{lemma_parse_table_wire, readable_table, table_wire};
use crate::types::CodecError;
use vstd::prelude::*;

verus! {

/// One if `table` holds the symbol, else none.
pub open spec fn presence(table: Map<char, u32>, c: char) -> nat {
    if table.contains_key(c) {
        1
    } else {
        0
    }
}

/// What holds of the queue in every round of the construction: its subtrees
/// are weighted by the sums of their leaves, the leaves carry the counts of
/// the table, and together they hold every symbol of the table once.
pub open spec fn forest_of(q: Seq<Link>, table: Map<char, u32>, leaves: nat) -> bool {
    &&& forall|y: Link| #[trigger] q.contains(y) ==> y.well_weighted() && y.weighs_by(table)
    &&& forall|c: char| #[trigger] forest_count(q, c) == presence(table, c)
    &&& weight_sum(q) == table_total(table)
    &&& weight_sum(q) <= u32::MAX
    &&& leaf_total(q) == leaves
}

/// What holds of a finished code tree.
pub open spec fn tree_of(root: Link, table: Map<char, u32>, leaves: nat) -> bool {
    &&& root.well_weighted()
    &&& root.weighs_by(table)
    &&& forall|c: char| #[trigger] root.symbol_count(c) == presence(table, c)
    &&& root.spec_weight() == table_total(table)
    &&& root.leaf_count() == leaves
}

/// The queue of the leaves for an order has a leaf for each of its symbols.
pub proof fn lemma_leaf_queue_leaves(table: Map<char, u32>, order: Seq<char>)
    ensures
        leaf_total(leaf_queue(table, order)) == order.len(),
    decreases order.len(),
{
    if order.len() > 0 {
        let last = order.last();
        let x = Link::Leaf(table[last], last);
        let q = leaf_queue(table, order.drop_last());
        lemma_leaf_queue_leaves(table, order.drop_last());
        lemma_symbol_code(last);
        lemma_slot(q, x);
        lemma_leaf_total_insert(q, slot(q, x) as int, x);
    }
}

/// The leaves entered for an order hold each of its symbols once.
pub proof fn lemma_leaf_queue_counts(table: Map<char, u32>, order: Seq<char>, c: char)
    requires
        order.no_duplicates(),
    ensures
        forest_count(leaf_queue(table, order), c) == if order.contains(c) {
            1nat
        } else {
            0nat
        },
    decreases order.len(),
{
    if order.len() > 0 {
        let front = order.drop_last();
        let last = order.last();
        let x = Link::Leaf(table[last], last);
        let q = leaf_queue(table, front);
        lemma_leaf_queue_counts(table, front, c);
        lemma_symbol_code(last);
        lemma_slot(q, x);
        lemma_forest_count_insert(q, slot(q, x) as int, x, c);
        if front.contains(c) {
            let i = choose|i: int| 0 <= i < front.len() && front[i] == c;
            assert(order[i] == c);
            assert(c != last);
        }
        if order.contains(c) && c != last {
            let i = choose|i: int| 0 <= i < order.len() && order[i] == c;
            assert(front[i] == c);
        }
        assert(order[order.len() - 1] == last);
    }
}

/// The queue of leaves that the construction starts from is a forest of the
/// table.
pub proof fn lemma_leaf_queue_forest(table: Map<char, u32>)
    requires
        table_total(table) <= u32::MAX,
    ensures
        forest_of(
            leaf_queue(table, sorted_symbols(table.dom())),
            table,
            sorted_symbols(table.dom()).len(),
        ),
{
    let order = sorted_symbols(table.dom());
    let q = leaf_queue(table, order);
    lemma_sorted_symbols(table.dom());
    lemma_leaf_queue_members(table, order);
    lemma_leaf_queue_weight(table, order);
    assert forall|c: char| #[trigger] forest_count(q, c) == presence(table, c) by {
        lemma_leaf_queue_counts(table, order, c);
    }
    lemma_leaf_queue_leaves(table, order);
}

/// A round of the construction keeps the queue a forest of the table.
pub proof fn lemma_merged_forest(q: Seq<Link>, table: Map<char, u32>, leaves: nat)
    requires
        q.len() >= 2,
        forest_of(q, table, leaves),
    ensures
        forest_of(merged(q), table, leaves),
        merged(q).len() == q.len() - 1,
{
    let n = q.len() as int;
    let front = q.take(n - 2);
    let left = q[n - 2];
    let right = q[n - 1];
    let x = joined(left, right);
    let r = merged(q);
    lemma_merged_weight(q);
    lemma_slot(front, x);
    lemma_enqueue_members(front, x);
    assert(q.contains(left) && q.contains(right));
    assert(q.drop_last().drop_last() == front);
    assert(q.drop_last().last() == left);
    assert forall|y: Link| #[trigger] r.contains(y) implies y.well_weighted() && y.weighs_by(
        table,
    ) by {
        if y != x {
            assert(front.contains(y));
            let i = choose|i: int| 0 <= i < front.len() && front[i] == y;
            assert(q[i] == y);
            assert(q.contains(y));
        } else {
            assert(left.well_weighted() && right.well_weighted());
            assert(left.weighs_by(table) && right.weighs_by(table));
            assert(x.spec_weight() == left.spec_weight() + right.spec_weight());
            assert(x.well_weighted());
            assert(x.weighs_by(table));
        }
    }
    assert forall|c: char| #[trigger] forest_count(r, c) == presence(table, c) by {
        lemma_forest_count_insert(front, slot(front, x) as int, x, c);
        assert(forest_count(q, c) == forest_count(q.drop_last(), c) + right.symbol_count(c));
        assert(forest_count(q.drop_last(), c) == forest_count(front, c) + left.symbol_count(c));
    }
    lemma_leaf_total_insert(front, slot(front, x) as int, x);
    assert(leaf_total(q) == leaf_total(q.drop_last()) + right.leaf_count());
    assert(leaf_total(q.drop_last()) == leaf_total(front) + left.leaf_count());
}

/// When the rounds are over, what is left of a forest of the table is a tree
/// of the table.
pub proof fn lemma_reduced_tree(q: Seq<Link>, table: Map<char, u32>, leaves: nat)
    requires
        q.len() >= 1,
        forest_of(q, table, leaves),
    ensures
        tree_of(reduced(q), table, leaves),
    decreases q.len(),
{
    if q.len() == 1 {
        let root = q[0];
        assert(q.contains(root));
        assert(q.drop_last() =~= Seq::<Link>::empty());
        assert forall|c: char| #[trigger] root.symbol_count(c) == presence(table, c) by {
            assert(forest_count(q, c) == forest_count(q.drop_last(), c) + root.symbol_count(c));
        }
        assert(weight_sum(q) == weight_sum(q.drop_last()) + root.spec_weight());
        assert(leaf_total(q) == leaf_total(q.drop_last()) + root.leaf_count());
    } else {
        lemma_merged_forest(q, table, leaves);
        lemma_reduced_tree(merged(q), table, leaves);
    }
}

/// The code tree does not depend on the order in which the symbols of the
/// table are entered: whatever order names each symbol once, merging the
/// queue of its leaves gives the tree of the table.
pub proof fn lemma_tree_of_any_order(table: Map<char, u32>, order: Seq<char>)
    requires
        order.no_duplicates(),
        forall|c: char| order.contains(c) <==> table.contains_key(c),
    ensures
        reduced(leaf_queue(table, order)) == huffman_root(table),
{
    lemma_sorted_symbols(table.dom());
    lemma_insertion_order_irrelevant(table, order, sorted_symbols(table.dom()));
}

/// A subtree whose internal nodes record the sums of their children weighs
/// what its leaves weigh.
pub proof fn lemma_weight_is_leaf_sum(link: Link)
    requires
        link.well_weighted(),
    ensures
        link.spec_weight() == link.leaf_sum(),
    decreases link,
{
    match link {
        Link::Leaf(_, _) => {},
        Link::Node(node, _) => {
            lemma_weight_is_leaf_sum(node.left);
            lemma_weight_is_leaf_sum(node.right);
        },
    }
}

/// A subtree is less high than it has leaves.
pub proof fn lemma_height_below_leaves(link: Link)
    ensures
        link.height() < link.leaf_count(),
    decreases link,
{
    match link {
        Link::Leaf(_, _) => {},
        Link::Node(node, _) => {
            lemma_height_below_leaves(node.left);
            lemma_height_below_leaves(node.right);
        },
    }
}

/// The code tree of a table whose counts add up within `u32`: each symbol
/// of the table has one leaf, which carries its count; the root weighs what
/// the leaves weigh, which is what the table counts; and the tree is less
/// high than there are symbols.
pub proof fn lemma_huffman_root(table: Map<char, u32>)
    requires
        !table.is_empty(),
        table_total(table) <= u32::MAX,
    ensures
        tree_of(huffman_root(table), table, sorted_symbols(table.dom()).len()),
        huffman_root(table).spec_weight() == huffman_root(table).leaf_sum(),
        huffman_root(table).leaf_sum() == table_total(table),
        huffman_root(table).height() < symbol_limit(),
{
    let order = sorted_symbols(table.dom());
    let q = leaf_queue(table, order);
    lemma_sorted_symbols(table.dom());
    lemma_leaf_queue_forest(table);
    lemma_leaf_queue_members(table, order);
    let c = choose|c: char| table.dom().contains(c);
    assert(table.dom().contains(c)) by {
        if forall|d: char| !table.dom().contains(d) {
            assert(table.dom() =~= Set::<char>::empty());
        }
    }
    assert(order.contains(c));
    lemma_reduced_tree(q, table, order.len());
    lemma_weight_is_leaf_sum(huffman_root(table));
    lemma_height_below_leaves(huffman_root(table));
    lemma_ascending_len(order);
}

/// A subtree gives a code to the symbols that its leaves carry, and to no
/// other.
pub proof fn lemma_codes_domain(link: Link, prefix: Seq<bool>, c: char)
    ensures
        codes_under(link, prefix).contains_key(c) <==> link.symbol_count(c) > 0,
    decreases link,
{
    match link {
        Link::Leaf(_, _) => {},
        Link::Node(node, _) => {
            lemma_codes_domain(node.left, prefix.push(false), c);
            lemma_codes_domain(node.right, prefix.push(true), c);
        },
    }
}

/// The code of a symbol is the path to a leaf that carries it: it starts
/// with the path that leads to the subtree, and goes on to the leaf.
pub proof fn lemma_code_leads_to_leaf(link: Link, prefix: Seq<bool>, c: char)
    requires
        codes_under(link, prefix).contains_key(c),
    ensures
        prefix.is_prefix_of(codes_under(link, prefix)[c]),
        leads_to(link, codes_under(link, prefix)[c].skip(prefix.len() as int), c),
    decreases link,
{
    let code = codes_under(link, prefix)[c];
    let n = prefix.len() as int;
    match link {
        Link::Leaf(_, _) => {
            assert(code.skip(n) =~= Seq::<bool>::empty());
        },
        Link::Node(node, _) => {
            let lefts = codes_under(node.left, prefix.push(false));
            let rights = codes_under(node.right, prefix.push(true));
            if lefts.contains_key(c) {
                lemma_code_leads_to_leaf(node.left, prefix.push(false), c);
                assert(code == lefts[c]);
                assert(code.subrange(0, n + 1)[n] == false);
                assert(code.subrange(0, n) =~= code.subrange(0, n + 1).subrange(0, n));
                assert(code.skip(n).drop_first() =~= code.skip(n + 1));
                assert(code.skip(n)[0] == false);
            } else {
                lemma_code_leads_to_leaf(node.right, prefix.push(true), c);
                assert(code == rights[c]);
                assert(code.subrange(0, n + 1)[n] == true);
                assert(code.subrange(0, n) =~= code.subrange(0, n + 1).subrange(0, n));
                assert(code.skip(n).drop_first() =~= code.skip(n + 1));
                assert(code.skip(n)[0] == true);
            }
        },
    }
}

/// A path in two parts leads where the second part leads from the end of
/// the first.
pub proof fn lemma_subtree_concat(link: Link, first: Seq<bool>, second: Seq<bool>)
    ensures
        subtree(link, first + second) == match subtree(link, first) {
            Some(mid) => subtree(mid, second),
            None => None,
        },
    decreases first.len(),
{
    if first.len() == 0 {
        assert(first + second =~= second);
    } else {
        assert((first + second).drop_first() =~= first.drop_first() + second);
        match link {
            Link::Leaf(_, _) => {},
            Link::Node(node, _) => {
                lemma_subtree_concat(
                    if first[0] {
                        node.right
                    } else {
                        node.left
                    },
                    first.drop_first(),
                    second,
                );
            },
        }
    }
}

/// No code is the beginning of another: of two different symbols of a tree,
/// the code of one is not a prefix of the code of the other.
pub proof fn lemma_prefix_free(root: Link, c: char, d: char)
    requires
        codes(root).contains_key(c),
        codes(root).contains_key(d),
        c != d,
    ensures
        !codes(root)[c].is_prefix_of(codes(root)[d]),
{
    let a = codes(root)[c];
    let b = codes(root)[d];
    lemma_code_leads_to_leaf(root, Seq::empty(), c);
    lemma_code_leads_to_leaf(root, Seq::empty(), d);
    assert(a.skip(0) =~= a);
    assert(b.skip(0) =~= b);
    if a.is_prefix_of(b) {
        let tail = b.skip(a.len() as int);
        assert(a + tail =~= b);
        lemma_subtree_concat(root, a, tail);
    }
}

/// The codes of a text begin with the code of its first symbol.
pub proof fn lemma_code_bits_front(table: Map<char, Seq<bool>>, text: Seq<char>)
    requires
        text.len() > 0,
    ensures
        code_bits(table, text) == table[text[0]] + code_bits(table, text.drop_first()),
    decreases text.len(),
{
    if text.len() == 1 {
        assert(text.drop_last() =~= Seq::<char>::empty());
        assert(text.drop_first() =~= Seq::<char>::empty());
        assert(code_bits(table, text) =~= table[text[0]] + code_bits(table, text.drop_first()));
    } else {
        lemma_code_bits_front(table, text.drop_last());
        assert(text.drop_last().drop_first() =~= text.drop_first().drop_last());
        assert(text.drop_last()[0] == text[0]);
        assert(text.drop_first().last() == text.last());
        assert(code_bits(table, text) =~= table[text[0]] + code_bits(table, text.drop_first()));
    }
}

/// Along the code of a symbol the walk reaches the symbol's leaf, gives the
/// symbol, and goes on from the root with the bits that follow.
pub proof fn lemma_walk_code(root: Link, at: Link, code: Seq<bool>, rest: Seq<bool>, c: char)
    requires
        at is Node,
        leads_to(at, code, c),
    ensures
        code.len() > 0,
        walk(root, at, code + rest) == if rest.len() == 0 {
            Some(seq![c])
        } else {
            prepend(seq![c], walk(root, root, rest))
        },
    decreases code.len(),
{
    let bits = code + rest;
    match at {
        Link::Leaf(_, _) => {},
        Link::Node(node, _) => {
            assert(bits[0] == code[0]);
            assert(bits.drop_first() =~= code.drop_first() + rest);
            let next = if code[0] {
                node.right
            } else {
                node.left
            };
            if code.len() == 1 {
                assert(code.drop_first() =~= Seq::<bool>::empty());
                assert(bits.drop_first() =~= rest);
            } else {
                assert(subtree(at, code) == subtree(next, code.drop_first()));
                assert(code.drop_first().len() > 0);
                assert(next is Node);
                lemma_walk_code(root, next, code.drop_first(), rest, c);
            }
        },
    }
}

/// Where the root is an internal node, the codes of a text take at least a
/// bit for each symbol.
pub proof fn lemma_code_bits_len(root: Link, text: Seq<char>)
    requires
        root is Node,
        all_known(codes(root), text),
    ensures
        code_bits(codes(root), text).len() >= text.len(),
    decreases text.len(),
{
    if text.len() > 0 {
        let front = text.drop_last();
        assert forall|i: int| 0 <= i < front.len() implies codes(root).contains_key(
            #[trigger] front[i],
        ) by {
            assert(front[i] == text[i]);
        }
        lemma_code_bits_len(root, front);
        let c = text.last();
        assert(text[text.len() - 1] == c);
        lemma_symbol_code(c);
        lemma_code_leads_to_leaf(root, Seq::empty(), c);
        assert(codes(root)[c].skip(0) =~= codes(root)[c]);
    }
}

/// Under a tree whose root is an internal node, the codes of a text spell
/// that text back.
pub proof fn lemma_decode_encoded(root: Link, text: Seq<char>)
    requires
        root is Node,
        text.len() > 0,
        all_known(codes(root), text),
    ensures
        decode_bits(root, code_bits(codes(root), text)) == Some(text),
    decreases text.len(),
{
    let table = codes(root);
    let c = text[0];
    let tail = text.drop_first();
    let rest = code_bits(table, tail);
    lemma_symbol_code(c);
    lemma_code_bits_front(table, text);
    lemma_code_leads_to_leaf(root, Seq::empty(), c);
    assert(table[c].skip(0) =~= table[c]);
    lemma_walk_code(root, root, table[c], rest, c);
    assert forall|i: int| 0 <= i < tail.len() implies table.contains_key(#[trigger] tail[i]) by {
        assert(tail[i] == text[i + 1]);
    }
    if tail.len() == 0 {
        assert(text =~= seq![c]);
    } else {
        lemma_code_bits_len(root, tail);
        lemma_decode_encoded(root, tail);
        assert(seq![c] + tail =~= text);
    }
}

/// A walk that stops at an internal node spells nothing.
pub proof fn lemma_walk_partial(root: Link, at: Link, path: Seq<bool>)
    requires
        subtree(at, path) matches Some(Link::Node(_, _)),
    ensures
        walk(root, at, path) is None,
    decreases path.len(),
{
    if path.len() > 0 {
        match at {
            Link::Leaf(_, _) => {},
            Link::Node(node, _) => {
                let next = if path[0] {
                    node.right
                } else {
                    node.left
                };
                assert(subtree(at, path) == subtree(next, path.drop_first()));
                lemma_walk_partial(root, next, path.drop_first());
            },
        }
    }
}

/// The codes of the first symbols of a text are the first of its code bits.
pub proof fn lemma_code_bits_prefix(table: Map<char, Seq<bool>>, text: Seq<char>, j: int)
    requires
        0 <= j <= text.len(),
    ensures
        code_bits(table, text.take(j)).is_prefix_of(code_bits(table, text)),
    decreases text.len() - j,
{
    if j == text.len() {
        assert(text.take(j) =~= text);
    } else {
        lemma_code_bits_prefix(table, text, j + 1);
        assert(text.take(j + 1).drop_last() =~= text.take(j));
        let shorter = code_bits(table, text.take(j));
        let longer = code_bits(table, text.take(j + 1));
        let whole = code_bits(table, text);
        assert(longer == shorter + table[text.take(j + 1).last()]);
        assert(shorter =~= whole.subrange(0, shorter.len() as int)) by {
            assert(longer =~= whole.subrange(0, longer.len() as int));
        }
    }
}

/// Code bits that are cut inside the code of a symbol spell nothing: where
/// the first `n` code bits of a text are not the codes of some of its first
/// symbols, they do not decode.
pub proof fn lemma_cut_inside_code(root: Link, text: Seq<char>, n: int)
    requires
        root is Node,
        all_known(codes(root), text),
        0 <= n <= code_bits(codes(root), text).len(),
        forall|j: int|
            0 < j <= text.len() ==> #[trigger] code_bits(codes(root), text.take(j)).len() != n,
    ensures
        decode_bits(root, code_bits(codes(root), text).take(n)) is None,
    decreases text.len(),
{
    let table = codes(root);
    let whole = code_bits(table, text);
    if text.len() == 0 {
        assert(whole.take(n) =~= Seq::<bool>::empty());
    } else {
        let c = text[0];
        let code = table[c];
        let tail = text.drop_first();
        let rest = code_bits(table, tail);
        lemma_symbol_code(c);
        lemma_code_bits_front(table, text);
        lemma_code_leads_to_leaf(root, Seq::empty(), c);
        assert(code.skip(0) =~= code);
        assert(text.take(1).drop_last() =~= Seq::<char>::empty());
        assert(text.take(1).last() == c);
        assert(code_bits(table, text.take(1).drop_last()) =~= Seq::<bool>::empty());
        assert(code_bits(table, text.take(1)) =~= code);
        if n < code.len() {
            let head = code.take(n);
            let more = code.skip(n);
            assert(head + more =~= code);
            lemma_subtree_concat(root, head, more);
            assert(whole.take(n) =~= head);
            lemma_walk_partial(root, root, head);
        } else {
            assert(n > code.len());
            let m = n - code.len();
            let cut = rest.take(m);
            assert(whole.take(n) =~= code + cut);
            lemma_walk_code(root, root, code, cut, c);
            assert forall|i: int| 0 <= i < tail.len() implies table.contains_key(
                #[trigger] tail[i],
            ) by {
                assert(tail[i] == text[i + 1]);
            }
            assert forall|j: int| 0 < j <= tail.len() implies #[trigger] code_bits(
                table,
                tail.take(j),
            ).len() != m by {
                lemma_code_bits_front(table, text.take(j + 1));
                assert(text.take(j + 1).drop_first() =~= tail.take(j));
                assert(text.take(j + 1)[0] == c);
                assert(code_bits(table, text.take(j + 1)).len() != n);
            }
            lemma_cut_inside_code(root, tail, m);
        }
    }
}

/// The bits of a payload without its last byte are the bits of the payload
/// without their last eight.
pub proof fn lemma_unpack_drop_last(payload: Seq<u8>)
    requires
        payload.len() > 0,
    ensures
        unpack(payload.drop_last()) == unpack(payload).take(8 * (payload.len() - 1)),
{
    let short = payload.drop_last();
    assert forall|i: int| 0 <= i < 8 * short.len() implies unpack(short)[i] == unpack(
        payload,
    )[i] by {
        assert(short[i / 8] == payload[i / 8]);
    }
    assert(unpack(short) =~= unpack(payload).take(8 * (payload.len() - 1)));
}

/// A frame that has lost its last byte does not decode, unless the cut
/// falls between two codes: where the code bits less eight are not the codes
/// of some of the first symbols of the text, the decoder reports a truncated
/// stream.
pub proof fn lemma_truncated_frame(text: Seq<char>)
    requires
        encoded(text) is Ok,
        huffman_root(char_counts(text)) is Node ==> forall|j: int|
            0 < j <= text.len() ==> #[trigger] bits_before(text, j) + 8 != data_bits(text).len(),
    ensures
        decoded(encoded(text)->Ok_0.drop_last()) == Err::<Seq<char>, CodecError>(
            CodecError::TruncatedOrInvalidStream,
        ),
{
    let table = char_counts(text);
    let root = huffman_root(table);
    let wire = table_wire(table);
    let frame = encoded(text)->Ok_0;
    let short = frame.drop_last();
    lemma_counts_total(text);
    lemma_huffman_root(table);
    match root {
        Link::Leaf(_, _) => {
            assert(short =~= wire + Seq::<u8>::empty());
            lemma_parse_table_wire(table, Seq::<u8>::empty());
        },
        Link::Node(_, _) => {
            let data = data_bits(text);
            let pad = padding(data.len());
            let padded = data + ones(pad);
            let payload = pack(padded);
            lemma_text_symbols_known(text);
            lemma_code_bits_len(root, text);
            assert(payload.len() > 0);
            let tail = seq![pad as u8] + payload.drop_last();
            assert(short =~= wire + tail);
            lemma_parse_table_wire(table, tail);
            assert(readable_table(short) == Some((table, wire.len())));
            assert(short[wire.len() as int] == pad as u8);
            assert(short.skip(wire.len() as int + 1) =~= payload.drop_last());
            lemma_unpack_pack(padded);
            lemma_unpack_drop_last(payload);
            let left = 8 * (payload.len() - 1) - pad;
            if left >= 0 {
                assert(left == data.len() - 8);
                assert(unpack(payload.drop_last()).take(left) =~= data.take(left));
                assert forall|j: int| 0 < j <= text.len() implies #[trigger] code_bits(
                    codes(root),
                    text.take(j),
                ).len() != left by {
                    assert(bits_before(text, j) + 8 != data.len());
                }
                lemma_cut_inside_code(root, text, left);
            }
        },
    }
}

/// A frame that has lost its last byte decodes where the cut falls between
/// two codes: where the code bits less eight are the codes of the first `j`
/// symbols of the text, the decoder gives those symbols.
pub proof fn lemma_cut_between_codes(text: Seq<char>, j: int)
    requires
        encoded(text) is Ok,
        huffman_root(char_counts(text)) is Node,
        0 < j <= text.len(),
        bits_before(text, j) + 8 == data_bits(text).len(),
    ensures
        decoded(encoded(text)->Ok_0.drop_last()) == Ok::<Seq<char>, CodecError>(text.take(j)),
{
    let table = char_counts(text);
    let root = huffman_root(table);
    let wire = table_wire(table);
    let frame = encoded(text)->Ok_0;
    let short = frame.drop_last();
    let data = data_bits(text);
    let pad = padding(data.len());
    let padded = data + ones(pad);
    let payload = pack(padded);
    let first = text.take(j);
    lemma_counts_total(text);
    lemma_huffman_root(table);
    lemma_text_symbols_known(text);
    assert(payload.len() > 0);
    let tail = seq![pad as u8] + payload.drop_last();
    assert(short =~= wire + tail);
    lemma_parse_table_wire(table, tail);
    assert(readable_table(short) == Some((table, wire.len())));
    assert(short[wire.len() as int] == pad as u8);
    assert(short.skip(wire.len() as int + 1) =~= payload.drop_last());
    lemma_unpack_pack(padded);
    lemma_unpack_drop_last(payload);
    let left = data.len() - 8;
    assert(left == 8 * (payload.len() - 1) - pad);
    assert(unpack(payload.drop_last()).take(left) =~= data.take(left));
    lemma_code_bits_prefix(codes(root), text, j);
    assert(data.take(left) =~= code_bits(codes(root), first));
    assert forall|i: int| 0 <= i < first.len() implies codes(root).contains_key(
        #[trigger] first[i],
    ) by {
        assert(first[i] == text[i]);
    }
    lemma_decode_encoded(root, first);
}

/// The code tree of a text gives each of its symbols a code.
pub proof fn lemma_text_symbols_known(text: Seq<char>)
    requires
        0 < text.len() <= u32::MAX,
    ensures
        all_known(codes(huffman_root(char_counts(text))), text),
{
    let table = char_counts(text);
    let root = huffman_root(table);
    lemma_counts_total(text);
    lemma_huffman_root(table);
    assert forall|i: int| 0 <= i < text.len() implies codes(root).contains_key(
        #[trigger] text[i],
    ) by {
        lemma_occurs(text, i);
        assert(table.contains_key(text[i]));
        lemma_codes_domain(root, Seq::empty(), text[i]);
    }
}

/// Whatever text has a frame is the text of that frame: decoding what was
/// encoded gives the text back.
pub proof fn lemma_round_trip(text: Seq<char>)
    requires
        encoded(text) is Ok,
    ensures
        decoded(encoded(text)->Ok_0) == Ok::<Seq<char>, CodecError>(text),
{
    let table = char_counts(text);
    let root = huffman_root(table);
    let wire = table_wire(table);
    let frame = encoded(text)->Ok_0;
    lemma_counts_total(text);
    lemma_huffman_root(table);
    match root {
        Link::Leaf(_, symbol) => {
            let tail = seq![text.len() as u8];
            assert(frame == wire + tail);
            lemma_parse_table_wire(table, tail);
            assert(readable_table(frame) == Some((table, wire.len())));
            assert(frame[wire.len() as int] == text.len() as u8);
            assert(frame.skip(wire.len() as int + 1) =~= Seq::<u8>::empty());
            assert forall|i: int| 0 <= i < text.len() implies text[i] == symbol by {
                lemma_occurs(text, i);
                assert(table.contains_key(text[i]));
                assert(root.symbol_count(text[i]) == presence(table, text[i]));
            }
            assert(text =~= Seq::new(text.len(), |i: int| symbol));
        },
        Link::Node(_, _) => {
            let data = data_bits(text);
            let pad = padding(data.len());
            let padded = data + ones(pad);
            let payload = pack(padded);
            let tail = seq![pad as u8] + payload;
            assert(frame =~= wire + tail);
            lemma_parse_table_wire(table, tail);
            assert(readable_table(frame) == Some((table, wire.len())));
            assert(frame[wire.len() as int] == pad as u8);
            assert(frame.skip(wire.len() as int + 1) =~= payload);
            assert(padded.len() % 8 == 0);
            lemma_unpack_pack(padded);
            assert(8 * payload.len() == padded.len());
            assert(padded.take(8 * payload.len() - pad) =~= data);
            lemma_text_symbols_known(text);
            lemma_decode_encoded(root, text);
        },
    }
}

} // verus!
