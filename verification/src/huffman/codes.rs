//! The codes that a tree gives its symbols.

use super::bits::Bits;
use super::tree::Link;
use vstd::prelude::*;

verus! {

/// The code of each symbol under `link`, when `prefix` leads to `link`: the
/// path from the root to the symbol's leaf, `false` for left and `true` for
/// right. Where a symbol has several leaves, the leftmost gives the code.
pub open spec fn codes_under(link: Link, prefix: Seq<bool>) -> Map<char, Seq<bool>>
    decreases link,
{
    match link {
        Link::Leaf(_, symbol) => Map::empty().insert(symbol, prefix),
        Link::Node(node, _) => codes_under(node.right, prefix.push(true)).union_prefer_right(
            codes_under(node.left, prefix.push(false)),
        ),
    }
}

/// The code of each symbol of a tree.
pub open spec fn codes(root: Link) -> Map<char, Seq<bool>> {
    codes_under(root, Seq::empty())
}

/// What a dictionary says: the bits that it holds for each symbol.
pub open spec fn code_table(dict: Map<char, Bits>) -> Map<char, Seq<bool>> {
    Map::new(|c: char| dict.contains_key(c), |c: char| dict[c]@)
}

/// The codes of the symbols of `text`, one after the other.
pub open spec fn code_bits(table: Map<char, Seq<bool>>, text: Seq<char>) -> Seq<bool>
    decreases text.len(),
{
    if text.len() == 0 {
        Seq::empty()
    } else {
        code_bits(table, text.drop_last()) + table[text.last()]
    }
}

/// Every symbol of `text` has a code in `table`.
pub open spec fn all_known(table: Map<char, Seq<bool>>, text: Seq<char>) -> bool {
    forall|i: int| 0 <= i < text.len() ==> table.contains_key(#[trigger] text[i])
}

/// The number of links of a subtree, leaves and internal nodes.
pub open spec fn size(link: Link) -> nat
    decreases link,
{
    match link {
        Link::Leaf(_, _) => 1,
        Link::Node(node, _) => 1 + size(node.left) + size(node.right),
    }
}

/// The subtrees that a traversal has yet to visit, each with the path that
/// leads to it. The last one is visited next.
pub type Frontier = Seq<(Link, Seq<bool>)>;

/// The number of links in the subtrees of a frontier.
pub open spec fn frontier_size(frontier: Frontier) -> nat
    decreases frontier.len(),
{
    if frontier.len() == 0 {
        0
    } else {
        frontier_size(frontier.drop_last()) + size(frontier.last().0)
    }
}

/// The codes known once the frontier has been visited, when `known` holds
/// those found so far.
pub open spec fn completed(frontier: Frontier, known: Map<char, Seq<bool>>) -> Map<
    char,
    Seq<bool>,
>
    decreases frontier.len(),
{
    if frontier.len() == 0 {
        known
    } else {
        completed(
            frontier.drop_last(),
            known.union_prefer_right(codes_under(frontier.last().0, frontier.last().1)),
        )
    }
}

/// No path of the frontier, continued to the bottom of its subtree, is
/// longer than `limit`.
pub open spec fn within(frontier: Frontier, limit: nat) -> bool {
    forall|i: int|
        0 <= i < frontier.len() ==> (#[trigger] frontier[i]).1.len() + frontier[i].0.height()
            <= limit
}

/// The subtree that `path` leads to from `link`, `false` for left and `true`
/// for right, if the path does not run past a leaf.
pub open spec fn subtree(link: Link, path: Seq<bool>) -> Option<Link>
    decreases path.len(),
{
    if path.len() == 0 {
        Some(link)
    } else {
        match link {
            Link::Leaf(_, _) => None,
            Link::Node(node, _) => subtree(
                if path[0] {
                    node.right
                } else {
                    node.left
                },
                path.drop_first(),
            ),
        }
    }
}

/// `path` leads from `link` to a leaf that carries `c`.
pub open spec fn leads_to(link: Link, path: Seq<bool>, c: char) -> bool {
    subtree(link, path) matches Some(Link::Leaf(_, symbol)) && symbol == c
}

/// `tail` with `head` in front of it, where there is a `tail`.
pub open spec fn prepend(head: Seq<char>, tail: Option<Seq<char>>) -> Option<Seq<char>> {
    match tail {
        Some(rest) => Some(head + rest),
        None => None,
    }
}

/// The symbols that `bits` spell when the walk stands at the internal node
/// `at`: each bit steps down, `false` to the left and `true` to the right; a
/// leaf gives its symbol and sends the walk back to the root. There is no
/// result unless the last bit reaches a leaf.
pub open spec fn walk(root: Link, at: Link, bits: Seq<bool>) -> Option<Seq<char>>
    decreases bits.len(),
{
    match at {
        Link::Leaf(_, _) => None,
        Link::Node(node, _) => if bits.len() == 0 {
            None
        } else {
            let next = if bits[0] {
                node.right
            } else {
                node.left
            };
            match next {
                Link::Leaf(_, symbol) => if bits.len() == 1 {
                    Some(seq![symbol])
                } else {
                    prepend(seq![symbol], walk(root, root, bits.drop_first()))
                },
                Link::Node(_, _) => walk(root, next, bits.drop_first()),
            }
        },
    }
}

/// The text that `bits` spell under the tree `root`, if they spell one.
pub open spec fn decode_bits(root: Link, bits: Seq<bool>) -> Option<Seq<char>> {
    walk(root, root, bits)
}

/// The number of filler bits that bring `n` bits up to whole bytes.
pub open spec fn padding(n: nat) -> nat {
    if n % 8 > 0 {
        (8 - n % 8) as nat
    } else {
        0
    }
}

/// `n` bits that are all set.
pub open spec fn ones(n: nat) -> Seq<bool> {
    Seq::new(n, |i: int| true)
}

} // verus!
