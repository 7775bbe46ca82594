//! The code tree and how it is built from a frequency table.

use super::laws::{lemma_huffman_root, presence};
use super::queue::{
    insert_link, leaf_queue, lemma_insertion_order_irrelevant, lemma_leaf_queue_members,
    lemma_leaf_queue_weight, lemma_merged_weight, lemma_seq_total_prefix,
    lemma_total_any_order, merged, reduced, weight_sum,
};
use super::table::{
    char_counts, count_chars, lemma_counts_total, lemma_sorted_symbols, map_get, map_keys,
    seq_total, sorted_symbols, symbol_limit, table_total,
};
use std::collections::HashMap;
use vstd::prelude::*;

verus! {

/// An internal node: two subtrees and their combined weight.
#[derive(Debug, PartialEq, Eq)]
pub struct Node {
    pub weight: u32,
    pub left: Link,
    pub right: Link,
}

/// A subtree: one symbol with its weight, or an internal node with the symbol
/// that stands for it when weights tie.
#[derive(Debug, PartialEq, Eq)]
pub enum Link {
    Leaf(u32, char),
    Node(Box<Node>, char),
}

/// A code tree together with the frequency table it was built from.
#[derive(Debug, Clone, PartialEq, Eq)]
pub struct HuffmanTree {
    pub root: Link,
    pub counts: HashMap<char, u32>,
}

impl Clone for Link {
    fn clone(&self) -> (copy: Self)
        ensures
            copy == *self,
        decreases self,
    {
        match self {
            Link::Leaf(weight, symbol) => Link::Leaf(*weight, *symbol),
            Link::Node(node, symbol) => {
                let left = node.left.clone();
                let right = node.right.clone();
                Link::Node(Box::new(Node { weight: node.weight, left, right }), *symbol)
            },
        }
    }
}

impl Clone for Node {
    fn clone(&self) -> (copy: Self)
        ensures
            copy == *self,
    {
        Node { weight: self.weight, left: self.left.clone(), right: self.right.clone() }
    }
}

impl Link {
    /// The weight recorded at the top of this subtree.
    pub open spec fn spec_weight(&self) -> u32 {
        match self {
            Link::Leaf(weight, _) => *weight,
            Link::Node(node, _) => node.weight,
        }
    }

    /// The symbol that stands for this subtree when weights tie.
    pub open spec fn spec_char(&self) -> char {
        match self {
            Link::Leaf(_, symbol) => *symbol,
            Link::Node(_, symbol) => *symbol,
        }
    }

    /// The weight recorded at the top of this subtree.
    #[verifier::when_used_as_spec(spec_weight)]
    pub fn weight(&self) -> (w: u32)
        ensures
            w == self.spec_weight(),
    {
        match self {
            Link::Leaf(weight, _) => *weight,
            Link::Node(node, _) => node.weight,
        }
    }

    /// The symbol that stands for this subtree when weights tie.
    #[verifier::when_used_as_spec(spec_char)]
    pub fn char(&self) -> (c: char)
        ensures
            c == self.spec_char(),
    {
        match self {
            Link::Leaf(_, symbol) => *symbol,
            Link::Node(_, symbol) => *symbol,
        }
    }

    /// The sum of the weights of the leaves.
    pub open spec fn leaf_sum(self) -> nat
        decreases self,
    {
        match self {
            Link::Leaf(weight, _) => weight as nat,
            Link::Node(node, _) => node.left.leaf_sum() + node.right.leaf_sum(),
        }
    }

    /// Every internal node records the sum of its two children's weights.
    pub open spec fn well_weighted(self) -> bool
        decreases self,
    {
        match self {
            Link::Leaf(_, _) => true,
            Link::Node(node, _) => {
                &&& node.weight == node.left.spec_weight() + node.right.spec_weight()
                &&& node.left.well_weighted()
                &&& node.right.well_weighted()
            },
        }
    }

    /// How many leaves carry the symbol `c`.
    pub open spec fn symbol_count(self, c: char) -> nat
        decreases self,
    {
        match self {
            Link::Leaf(_, symbol) => if symbol == c {
                1
            } else {
                0
            },
            Link::Node(node, _) => node.left.symbol_count(c) + node.right.symbol_count(c),
        }
    }

    /// Every leaf carries the count that `table` holds for its symbol.
    pub open spec fn weighs_by(self, table: Map<char, u32>) -> bool
        decreases self,
    {
        match self {
            Link::Leaf(weight, symbol) => table.contains_key(symbol) && table[symbol] == weight,
            Link::Node(node, _) => node.left.weighs_by(table) && node.right.weighs_by(table),
        }
    }

    /// The number of edges on the longest path down to a leaf.
    pub open spec fn height(self) -> nat
        decreases self,
    {
        match self {
            Link::Leaf(_, _) => 0,
            Link::Node(node, _) => 1 + if node.left.height() >= node.right.height() {
                node.left.height()
            } else {
                node.right.height()
            },
        }
    }

    /// The number of leaves.
    pub open spec fn leaf_count(self) -> nat
        decreases self,
    {
        match self {
            Link::Leaf(_, _) => 1,
            Link::Node(node, _) => node.left.leaf_count() + node.right.leaf_count(),
        }
    }

    /// This subtree sorts before `other`: it is lighter, or as heavy with the
    /// smaller symbol.
    pub open spec fn spec_precedes(&self, other: &Link) -> bool {
        self.spec_weight() < other.spec_weight() || (self.spec_weight() == other.spec_weight()
            && self.spec_char() < other.spec_char())
    }

    /// This subtree sorts before `other`: it is lighter, or as heavy with the
    /// smaller symbol.
    #[verifier::when_used_as_spec(spec_precedes)]
    pub fn precedes(&self, other: &Link) -> (before: bool)
        ensures
            before == self.spec_precedes(other),
    {
        let w: u32 = self.weight();
        let v: u32 = other.weight();
        w < v || (w == v && self.char() < other.char())
    }
}

/// The subtree that joins `left` and `right`: it weighs what both weigh, and
/// `left`'s symbol stands for it.
pub open spec fn joined(left: Link, right: Link) -> Link {
    Link::Node(
        Box::new(
            Node { weight: (left.spec_weight() + right.spec_weight()) as u32, left, right },
        ),
        left.spec_char(),
    )
}

/// Joins two subtrees under a new internal node. Their weights must add up
/// within `u32`.
pub fn join(left: Link, right: Link) -> (node: Link)
    requires
        left.spec_weight() + right.spec_weight() <= u32::MAX,
    ensures
        node == joined(left, right),
{
    let symbol = left.char();
    let weight: u32 = left.weight() + right.weight();
    Link::Node(Box::new(Node { weight, left, right }), symbol)
}

/// The root of the code tree of a frequency table: the leaves of all its
/// symbols, merged two by two, lightest first.
pub open spec fn huffman_root(table: Map<char, u32>) -> Link {
    reduced(leaf_queue(table, sorted_symbols(table.dom())))
}

/// The sum of all counts of a table, unless it is beyond `u32`.
pub fn total_count(counts: &HashMap<char, u32>) -> (total: Option<u32>)
    ensures
        total is Some <==> table_total(counts@) <= u32::MAX,
        total matches Some(t) ==> t == table_total(counts@),
{
    let keys = map_keys(counts);
    let mut sum: u32 = 0;
    let mut i: usize = 0;
    proof {
        lemma_total_any_order(counts@, keys@);
    }
    while i < keys.len()
        invariant
            i <= keys.len(),
            forall|c: char| keys@.contains(c) <==> counts@.contains_key(c),
            seq_total(counts@, keys@) == table_total(counts@),
            sum == seq_total(counts@, keys@.take(i as int)),
        decreases keys.len() - i,
    {
        let symbol = keys[i];
        assert(keys@.contains(symbol));
        let count: u32 = match map_get(counts, symbol) {
            Some(n) => *n,
            None => 0,
        };
        proof {
            assert(keys@.take(i + 1).drop_last() == keys@.take(i as int));
            lemma_seq_total_prefix(counts@, keys@, i + 1);
        }
        if count > u32::MAX - sum {
            return None;
        }
        sum = sum + count;
        i = i + 1;
    }
    assert(keys@.take(keys@.len() as int) == keys@);
    Some(sum)
}

impl HuffmanTree {
    /// The tree is the code tree of its own table, which holds a symbol and
    /// whose counts add up within `u32`.
    pub open spec fn well_formed(&self) -> bool {
        &&& !self.counts@.is_empty()
        &&& table_total(self.counts@) <= u32::MAX
        &&& self.root == huffman_root(self.counts@)
    }

    /// Builds the code tree of a text: the tree of its frequency table.
    /// There is none for the empty text. The root weighs as much as the text
    /// is long, so the text may hold at most `u32::MAX` symbols.
    pub fn from(text: &str) -> (tree: Option<Self>)
        requires
            text@.len() <= u32::MAX,
        ensures
            tree is Some <==> text@.len() > 0,
            tree matches Some(t) ==> {
                &&& t.well_formed()
                &&& t.counts@ == char_counts(text@)
                &&& t.root == huffman_root(char_counts(text@))
                &&& t.root.spec_weight() == text@.len()
                &&& t.root.height() < symbol_limit()
            },
    {
        proof {
            lemma_counts_total(text@);
        }
        let counts = count_chars(text);
        Self::from_counts(&counts)
    }

    /// Builds the code tree of a frequency table. There is none for the empty
    /// table. The counts must add up within `u32`, which [`total_count`]
    /// tests.
    ///
    /// The leaves enter a queue in which the lightest subtree, and among
    /// equally heavy ones that with the smallest symbol, comes first. The two
    /// subtrees that come first are taken out, the first as the right child
    /// and the second as the left child of a new subtree, which enters the
    /// queue with the sum of their weights and the symbol of its left child,
    /// until one subtree is left. The result depends on what the table holds
    /// and not on the order in which the map hands out its keys.
    ///
    /// Each symbol of the table has one leaf, which carries its count, and
    /// the root weighs what the leaves weigh together, the sum of all counts.
    pub fn from_counts(counts: &HashMap<char, u32>) -> (tree: Option<Self>)
        requires
            table_total(counts@) <= u32::MAX,
        ensures
            tree is Some <==> !counts@.is_empty(),
            tree matches Some(t) ==> {
                &&& t.well_formed()
                &&& t.counts@ == counts@
                &&& t.root == huffman_root(counts@)
                &&& t.root.weighs_by(counts@)
                &&& forall|c: char| #[trigger] t.root.symbol_count(c) == presence(counts@, c)
                &&& t.root.spec_weight() == t.root.leaf_sum()
                &&& t.root.leaf_sum() == table_total(counts@)
                &&& t.root.height() < symbol_limit()
            },
    {
        let keys = map_keys(counts);
        let mut queue: Vec<Link> = Vec::new();
        let mut i: usize = 0;
        while i < keys.len()
            invariant
                i <= keys.len(),
                forall|c: char| keys@.contains(c) <==> counts@.contains_key(c),
                queue@ == leaf_queue(counts@, keys@.take(i as int)),
            decreases keys.len() - i,
        {
            let symbol = keys[i];
            assert(keys@.contains(symbol));
            let weight: u32 = match map_get(counts, symbol) {
                Some(w) => *w,
                None => 0,
            };
            assert(keys@.take(i + 1).drop_last() == keys@.take(i as int));
            insert_link(&mut queue, Link::Leaf(weight, symbol));
            i = i + 1;
        }
        proof {
            let sorted = sorted_symbols(counts@.dom());
            assert(keys@.take(keys@.len() as int) == keys@);
            lemma_sorted_symbols(counts@.dom());
            lemma_insertion_order_irrelevant(counts@, keys@, sorted);
            lemma_leaf_queue_weight(counts@, sorted);
            lemma_leaf_queue_members(counts@, keys@);
            if keys@.len() > 0 {
                assert(keys@.contains(keys@[0]));
                assert(counts@.dom().contains(keys@[0]));
            } else {
                assert forall|c: char| !counts@.dom().contains(c) by {
                    assert(!keys@.contains(c));
                }
                assert(counts@.dom() =~= Set::<char>::empty());
            }
        }
        while queue.len() > 1
            invariant
                weight_sum(queue@) <= u32::MAX,
                queue@.len() > 0 ==> reduced(queue@) == huffman_root(counts@),
                (queue@.len() > 0) == !counts@.is_empty(),
            decreases queue.len(),
        {
            proof {
                lemma_merged_weight(queue@);
            }
            let ghost before = queue@;
            let right = queue.pop().unwrap();
            let left = queue.pop().unwrap();
            assert(queue@ == before.take(before.len() - 2));
            let node = join(left, right);
            insert_link(&mut queue, node);
            assert(queue@ == merged(before));
        }
        proof {
            if !counts@.is_empty() {
                lemma_huffman_root(counts@);
            }
        }
        match queue.pop() {
            Some(root) => Some(HuffmanTree { root, counts: counts.clone() }),
            None => None,
        }
    }
}

} // verus!
