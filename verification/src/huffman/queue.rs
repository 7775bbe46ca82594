//! The priority queue of subtrees that drives the construction of a code
//! tree.
//!
//! The queue is a sequence kept in descending order, so that the subtree that
//! sorts first is the last element.

use super::table::{lemma_sorted_symbols, lemma_symbol_code, seq_total, sorted_symbols, table_total};
use super::tree::{joined, Link};
use vstd::prelude::*;

verus! {

/// How many subtrees at the front of `q` the subtree `x` sorts before.
pub open spec fn slot(q: Seq<Link>, x: Link) -> nat
    decreases q.len(),
{
    if q.len() == 0 || !x.spec_precedes(&q[0]) {
        0
    } else {
        1 + slot(q.drop_first(), x)
    }
}

/// The queue `q` with `x` put behind the subtrees that it sorts before.
pub open spec fn enqueue(q: Seq<Link>, x: Link) -> Seq<Link> {
    q.insert(slot(q, x) as int, x)
}

/// Each subtree sorts before all those in front of it.
pub open spec fn descending(q: Seq<Link>) -> bool {
    forall|i: int, j: int|
        #![trigger q[i], q[j]]
        0 <= i < j < q.len() ==> q[j].spec_precedes(&q[i])
}

/// The sum of the weights at the top of the subtrees of `q`.
pub open spec fn weight_sum(q: Seq<Link>) -> nat
    decreases q.len(),
{
    if q.len() == 0 {
        0
    } else {
        weight_sum(q.drop_last()) + q.last().spec_weight() as nat
    }
}

/// How many leaves of the subtrees of `q` carry the symbol `c`.
pub open spec fn forest_count(q: Seq<Link>, c: char) -> nat
    decreases q.len(),
{
    if q.len() == 0 {
        0
    } else {
        forest_count(q.drop_last(), c) + q.last().symbol_count(c)
    }
}

/// How many leaves the subtrees of `q` have.
pub open spec fn leaf_total(q: Seq<Link>) -> nat
    decreases q.len(),
{
    if q.len() == 0 {
        0
    } else {
        leaf_total(q.drop_last()) + q.last().leaf_count()
    }
}

/// The queue of the leaves for the symbols of `order`, entered one by one.
pub open spec fn leaf_queue(table: Map<char, u32>, order: Seq<char>) -> Seq<Link>
    decreases order.len(),
{
    if order.len() == 0 {
        Seq::empty()
    } else {
        enqueue(
            leaf_queue(table, order.drop_last()),
            Link::Leaf(table[order.last()], order.last()),
        )
    }
}

/// The queue after one round: the two subtrees that sort first leave, the
/// first as the right child and the second as the left child of a new
/// subtree, which enters.
pub open spec fn merged(q: Seq<Link>) -> Seq<Link> {
    enqueue(q.take(q.len() - 2), joined(q[q.len() - 2], q[q.len() - 1]))
}

/// The subtree that is left when round after round has merged the queue down
/// to one.
pub open spec fn reduced(q: Seq<Link>) -> Link
    decreases q.len(),
{
    if q.len() <= 1 {
        q[0]
    } else {
        proof {
            lemma_enqueue_members(q.take(q.len() - 2), joined(q[q.len() - 2], q[q.len() - 1]));
        }
        reduced(merged(q))
    }
}

/// Where `x` goes: behind subtrees that it sorts before, and in front of one
/// that it does not.
pub proof fn lemma_slot(q: Seq<Link>, x: Link)
    ensures
        0 <= slot(q, x) <= q.len(),
        forall|i: int| 0 <= i < slot(q, x) ==> x.spec_precedes(&#[trigger] q[i]),
        slot(q, x) < q.len() ==> !x.spec_precedes(&q[slot(q, x) as int]),
    decreases q.len(),
{
    if q.len() == 0 || !x.spec_precedes(&q[0]) {
    } else {
        let rest = q.drop_first();
        lemma_slot(rest, x);
        assert forall|i: int| 0 <= i < slot(q, x) implies x.spec_precedes(&#[trigger] q[i]) by {
            if i > 0 {
                assert(q[i] == rest[i - 1]);
            }
        }
        if slot(q, x) < q.len() {
            assert(q[slot(q, x) as int] == rest[slot(rest, x) as int]);
        }
    }
}

/// Entering a subtree adds one element and keeps the others.
pub proof fn lemma_enqueue_members(q: Seq<Link>, x: Link)
    ensures
        enqueue(q, x).len() == q.len() + 1,
        forall|y: Link| #[trigger] enqueue(q, x).contains(y) <==> (y == x || q.contains(y)),
{
    lemma_slot(q, x);
    let p = slot(q, x) as int;
    let r = enqueue(q, x);
    q.insert_ensures(p, x);
    assert forall|y: Link| #[trigger] r.contains(y) <==> (y == x || q.contains(y)) by {
        if r.contains(y) {
            let i = choose|i: int| 0 <= i < r.len() && r[i] == y;
            if i < p {
                assert(q[i] == y);
            } else if i > p {
                assert(r[(i - 1) + 1] == q[i - 1]);
            }
        }
        if y == x {
            assert(r[p] == x);
        }
        if q.contains(y) {
            let i = choose|i: int| 0 <= i < q.len() && q[i] == y;
            if i < p {
                assert(r[i] == y);
            } else {
                assert(r[i + 1] == y);
            }
        }
    }
}

/// Entering a subtree that differs in weight or symbol from every subtree of
/// a descending queue leaves the queue descending.
pub proof fn lemma_enqueue_descending(q: Seq<Link>, x: Link)
    requires
        descending(q),
        forall|i: int|
            0 <= i < q.len() ==> x.spec_precedes(&#[trigger] q[i]) || q[i].spec_precedes(&x),
    ensures
        descending(enqueue(q, x)),
{
    lemma_slot(q, x);
    let p = slot(q, x) as int;
    let r = enqueue(q, x);
    q.insert_ensures(p, x);
    assert forall|i: int, j: int| 0 <= i < j < r.len() implies r[j].spec_precedes(&r[i]) by {
        if j < p {
            assert(r[i] == q[i] && r[j] == q[j]);
        } else if j == p {
            assert(r[i] == q[i]);
        } else {
            assert(r[(j - 1) + 1] == q[j - 1]);
            if i < p {
                assert(r[i] == q[i]);
                assert(q[j - 1].spec_precedes(&q[i]));
            } else if i == p {
                assert(q[p].spec_precedes(&x));
                if j - 1 > p {
                    assert(q[j - 1].spec_precedes(&q[p]));
                }
            } else {
                assert(r[(i - 1) + 1] == q[i - 1]);
                assert(q[j - 1].spec_precedes(&q[i - 1]));
            }
        }
    }
}

/// Entering a subtree adds its weight to the sum.
pub proof fn lemma_weight_sum_insert(q: Seq<Link>, p: int, x: Link)
    requires
        0 <= p <= q.len(),
    ensures
        weight_sum(q.insert(p, x)) == weight_sum(q) + x.spec_weight(),
    decreases q.len(),
{
    let r = q.insert(p, x);
    q.insert_ensures(p, x);
    if p == q.len() {
        assert(r.drop_last() =~= q);
    } else {
        q.drop_last().insert_ensures(p, x);
        assert(r.drop_last() =~= q.drop_last().insert(p, x));
        lemma_weight_sum_insert(q.drop_last(), p, x);
        assert(r.last() == q.last()) by {
            assert(r[(q.len() - 1) + 1] == q[q.len() - 1]);
        }
    }
}

/// Entering a subtree adds its leaves to the count of each symbol.
pub proof fn lemma_forest_count_insert(q: Seq<Link>, p: int, x: Link, c: char)
    requires
        0 <= p <= q.len(),
    ensures
        forest_count(q.insert(p, x), c) == forest_count(q, c) + x.symbol_count(c),
    decreases q.len(),
{
    let r = q.insert(p, x);
    q.insert_ensures(p, x);
    if p == q.len() {
        assert(r.drop_last() =~= q);
    } else {
        q.drop_last().insert_ensures(p, x);
        assert(r.drop_last() =~= q.drop_last().insert(p, x));
        lemma_forest_count_insert(q.drop_last(), p, x, c);
        assert(r.last() == q.last()) by {
            assert(r[(q.len() - 1) + 1] == q[q.len() - 1]);
        }
    }
}

/// Entering a subtree adds its leaves to the number of leaves.
pub proof fn lemma_leaf_total_insert(q: Seq<Link>, p: int, x: Link)
    requires
        0 <= p <= q.len(),
    ensures
        leaf_total(q.insert(p, x)) == leaf_total(q) + x.leaf_count(),
    decreases q.len(),
{
    let r = q.insert(p, x);
    q.insert_ensures(p, x);
    if p == q.len() {
        assert(r.drop_last() =~= q);
    } else {
        q.drop_last().insert_ensures(p, x);
        assert(r.drop_last() =~= q.drop_last().insert(p, x));
        lemma_leaf_total_insert(q.drop_last(), p, x);
        assert(r.last() == q.last()) by {
            assert(r[(q.len() - 1) + 1] == q[q.len() - 1]);
        }
    }
}

/// The queue of leaves holds one leaf for each symbol of the order, with the
/// count that the table gives it.
pub proof fn lemma_leaf_queue_members(table: Map<char, u32>, order: Seq<char>)
    ensures
        leaf_queue(table, order).len() == order.len(),
        forall|y: Link| #[trigger]
            leaf_queue(table, order).contains(y) <==> (y is Leaf && order.contains(y.spec_char())
                && y.spec_weight() == table[y.spec_char()]),
    decreases order.len(),
{
    let q = leaf_queue(table, order);
    if order.len() == 0 {
    } else {
        let front = order.drop_last();
        let c = order.last();
        let x = Link::Leaf(table[c], c);
        lemma_leaf_queue_members(table, front);
        lemma_enqueue_members(leaf_queue(table, front), x);
        assert forall|y: Link| #[trigger]
            q.contains(y) <==> (y is Leaf && order.contains(y.spec_char()) && y.spec_weight()
                == table[y.spec_char()]) by {
            let d = y.spec_char();
            if front.contains(d) {
                let i = choose|i: int| 0 <= i < front.len() && front[i] == d;
                assert(order[i] == d);
            }
            if order.contains(d) {
                let i = choose|i: int| 0 <= i < order.len() && order[i] == d;
                if i < front.len() {
                    assert(front[i] == d);
                }
            }
            assert(order[order.len() - 1] == c);
        }
    }
}

/// Entered in an order that names no symbol twice, the leaves form a
/// descending queue.
pub proof fn lemma_leaf_queue_descending(table: Map<char, u32>, order: Seq<char>)
    requires
        order.no_duplicates(),
    ensures
        descending(leaf_queue(table, order)),
    decreases order.len(),
{
    if order.len() > 0 {
        let front = order.drop_last();
        let c = order.last();
        let x = Link::Leaf(table[c], c);
        let q = leaf_queue(table, front);
        lemma_leaf_queue_descending(table, front);
        lemma_leaf_queue_members(table, front);
        assert forall|i: int| 0 <= i < q.len() implies x.spec_precedes(&#[trigger] q[i])
            || q[i].spec_precedes(&x) by {
            assert(q.contains(q[i]));
            let d = q[i].spec_char();
            assert(front.contains(d));
            let k = choose|k: int| 0 <= k < front.len() && front[k] == d;
            assert(order[k] == d);
            assert(d != c);
            lemma_symbol_code(d);
            lemma_symbol_code(c);
        }
        lemma_enqueue_descending(q, x);
    }
}

/// A descending queue is fixed by what it holds: two descending queues with
/// the same subtrees are the same queue.
pub proof fn lemma_descending_unique(a: Seq<Link>, b: Seq<Link>)
    requires
        descending(a),
        descending(b),
        forall|y: Link| a.contains(y) <==> b.contains(y),
    ensures
        a == b,
    decreases a.len(),
{
    if a.len() == 0 {
        if b.len() > 0 {
            assert(b.contains(b[0]));
        }
        assert(a =~= b);
    } else {
        let least = a.last();
        assert(a.contains(least));
        assert(b.contains(least));
        let j = choose|j: int| 0 <= j < b.len() && b[j] == least;
        if j < b.len() - 1 {
            let other = b.last();
            assert(other.spec_precedes(&b[j]));
            assert(b.contains(other));
            assert(a.contains(other));
            let i = choose|i: int| 0 <= i < a.len() && a[i] == other;
            if i < a.len() - 1 {
                assert(a[a.len() - 1].spec_precedes(&a[i]));
            }
            assert(false);
        }
        let a0 = a.drop_last();
        let b0 = b.drop_last();
        assert forall|y: Link| a0.contains(y) <==> b0.contains(y) by {
            if a0.contains(y) {
                let i = choose|i: int| 0 <= i < a0.len() && a0[i] == y;
                assert(a[i] == y);
                assert(a[a.len() - 1].spec_precedes(&a[i]));
                assert(a.contains(y));
                assert(b.contains(y));
                let k = choose|k: int| 0 <= k < b.len() && b[k] == y;
                assert(k != j);
                assert(b0[k] == y);
            }
            if b0.contains(y) {
                let k = choose|k: int| 0 <= k < b0.len() && b0[k] == y;
                assert(b[k] == y);
                assert(b[b.len() - 1].spec_precedes(&b[k]));
                assert(b.contains(y));
                assert(a.contains(y));
                let i = choose|i: int| 0 <= i < a.len() && a[i] == y;
                assert(i != a.len() - 1);
                assert(a0[i] == y);
            }
        }
        assert forall|i: int, k: int| 0 <= i < k < a0.len() implies a0[k].spec_precedes(
            &a0[i],
        ) by {
            assert(a0[i] == a[i] && a0[k] == a[k]);
        }
        assert forall|i: int, k: int| 0 <= i < k < b0.len() implies b0[k].spec_precedes(
            &b0[i],
        ) by {
            assert(b0[i] == b[i] && b0[k] == b[k]);
        }
        lemma_descending_unique(a0, b0);
        assert(a =~= a0.push(least));
        assert(b =~= b0.push(least));
    }
}

/// The order in which the symbols are entered does not matter: two orders
/// that name the same symbols, each once, give the same queue of leaves.
pub proof fn lemma_insertion_order_irrelevant(
    table: Map<char, u32>,
    first: Seq<char>,
    second: Seq<char>,
)
    requires
        first.no_duplicates(),
        second.no_duplicates(),
        forall|c: char| first.contains(c) <==> second.contains(c),
    ensures
        leaf_queue(table, first) == leaf_queue(table, second),
{
    lemma_leaf_queue_descending(table, first);
    lemma_leaf_queue_descending(table, second);
    lemma_leaf_queue_members(table, first);
    lemma_leaf_queue_members(table, second);
    lemma_descending_unique(leaf_queue(table, first), leaf_queue(table, second));
}

/// The leaves of a queue weigh together what the table counts for the
/// symbols entered.
pub proof fn lemma_leaf_queue_weight(table: Map<char, u32>, order: Seq<char>)
    ensures
        weight_sum(leaf_queue(table, order)) == seq_total(table, order),
    decreases order.len(),
{
    if order.len() > 0 {
        let front = order.drop_last();
        let x = Link::Leaf(table[order.last()], order.last());
        let q = leaf_queue(table, front);
        lemma_leaf_queue_weight(table, front);
        lemma_symbol_code(order.last());
        lemma_slot(q, x);
        lemma_weight_sum_insert(q, slot(q, x) as int, x);
    }
}

/// The counts of a table add up to the same in any order that names each of
/// its symbols once.
pub proof fn lemma_total_any_order(table: Map<char, u32>, order: Seq<char>)
    requires
        order.no_duplicates(),
        forall|c: char| order.contains(c) <==> table.contains_key(c),
    ensures
        seq_total(table, order) == table_total(table),
{
    let sorted = sorted_symbols(table.dom());
    lemma_sorted_symbols(table.dom());
    lemma_insertion_order_irrelevant(table, order, sorted);
    lemma_leaf_queue_weight(table, order);
    lemma_leaf_queue_weight(table, sorted);
}

/// The counts of a prefix of an order add up to no more than those of the
/// whole order.
pub proof fn lemma_seq_total_prefix(table: Map<char, u32>, order: Seq<char>, n: int)
    requires
        0 <= n <= order.len(),
    ensures
        seq_total(table, order.take(n)) <= seq_total(table, order),
    decreases order.len() - n,
{
    if n == order.len() {
        assert(order.take(n) == order);
    } else {
        lemma_seq_total_prefix(table, order, n + 1);
        assert(order.take(n + 1).drop_last() == order.take(n));
    }
}

/// The two subtrees at the back of a queue weigh no more than the whole
/// queue, and a round keeps the sum of the weights.
pub proof fn lemma_merged_weight(q: Seq<Link>)
    requires
        q.len() >= 2,
        weight_sum(q) <= u32::MAX,
    ensures
        q[q.len() - 2].spec_weight() + q[q.len() - 1].spec_weight() <= weight_sum(q),
        weight_sum(merged(q)) == weight_sum(q),
        merged(q).len() == q.len() - 1,
{
    let n = q.len() as int;
    let front = q.take(n - 2);
    let x = joined(q[n - 2], q[n - 1]);
    assert(q.drop_last().drop_last() == front);
    assert(q.drop_last().last() == q[n - 2]);
    assert(weight_sum(q) == weight_sum(q.drop_last()) + q[n - 1].spec_weight());
    assert(weight_sum(q.drop_last()) == weight_sum(front) + q[n - 2].spec_weight());
    assert(x.spec_weight() == q[n - 2].spec_weight() + q[n - 1].spec_weight());
    lemma_slot(front, x);
    lemma_weight_sum_insert(front, slot(front, x) as int, x);
    lemma_enqueue_members(front, x);
}

/// Puts `x` into the queue, behind the subtrees that it sorts before.
pub fn insert_link(queue: &mut Vec<Link>, x: Link)
    ensures
        final(queue)@ == enqueue(old(queue)@, x),
{
    let mut i: usize = 0;
    assert(queue@.skip(0) == queue@);
    while i < queue.len() && x.precedes(&queue[i])
        invariant
            i <= queue.len(),
            queue@ == old(queue)@,
            slot(queue@, x) == i + slot(queue@.skip(i as int), x),
        decreases queue.len() - i,
    {
        proof {
            assert(queue@.skip(i as int)[0] == queue@[i as int]);
            assert(queue@.skip(i as int).drop_first() == queue@.skip(i + 1));
        }
        i = i + 1;
    }
    proof {
        if i < queue.len() {
            assert(queue@.skip(i as int)[0] == queue@[i as int]);
        }
    }
    queue.insert(i, x);
}

} // verus!
