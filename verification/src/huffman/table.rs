//! Frequency tables: how often each symbol occurs, held in a `HashMap`.

use std::collections::HashMap;
use vstd::prelude::*;

verus! {

/// `HashMap::get` with a `char` key: the value stored under `key`, if any.
#[verifier::external_body]
pub(crate) fn map_get<'a, V>(m: &'a HashMap<char, V>, key: char) -> (found: Option<&'a V>)
    ensures
        match found {
            Some(v) => m@.contains_key(key) && *v == m@[key],
            None => !m@.contains_key(key),
        },
{
    m.get(&key)
}

/// `HashMap::insert` with a `char` key: `key` now maps to `value`, and every
/// other entry is as before.
#[verifier::external_body]
pub(crate) fn map_insert<V>(m: &mut HashMap<char, V>, key: char, value: V)
    ensures
        final(m)@ == old(m)@.insert(key, value),
{
    m.insert(key, value);
}

/// `HashMap::keys`, collected: every key once, in no particular order.
#[verifier::external_body]
pub(crate) fn map_keys<V>(m: &HashMap<char, V>) -> (keys: Vec<char>)
    ensures
        keys@.no_duplicates(),
        forall|c: char| keys@.contains(c) <==> m@.contains_key(c),
{
    m.keys().copied().collect()
}

/// How often `c` occurs in `s`.
pub open spec fn occurrences(s: Seq<char>, c: char) -> nat
    decreases s.len(),
{
    if s.len() == 0 {
        0
    } else {
        occurrences(s.drop_last(), c) + if s.last() == c {
            1nat
        } else {
            0nat
        }
    }
}

/// The frequency table of a text: each symbol that occurs, with its count.
pub open spec fn char_counts(s: Seq<char>) -> Map<char, u32> {
    Map::new(|c: char| occurrences(s, c) > 0, |c: char| occurrences(s, c) as u32)
}

/// A prefix of a text holds no more of a symbol than the text does.
pub proof fn lemma_occurrences_prefix(s: Seq<char>, n: int, c: char)
    requires
        0 <= n <= s.len(),
    ensures
        occurrences(s.take(n), c) <= occurrences(s, c),
    decreases s.len() - n,
{
    if n == s.len() {
        assert(s.take(n) == s);
    } else {
        lemma_occurrences_prefix(s, n + 1, c);
        assert(s.take(n + 1).drop_last() == s.take(n));
    }
}

/// A symbol of the text occurs in it.
pub proof fn lemma_occurs(s: Seq<char>, i: int)
    requires
        0 <= i < s.len(),
    ensures
        occurrences(s, s[i]) > 0,
    decreases s.len(),
{
    if i < s.len() - 1 {
        lemma_occurs(s.drop_last(), i);
    }
}

/// No symbol occurs more often than the text is long.
pub proof fn lemma_occurrences_bound(s: Seq<char>, c: char)
    ensures
        occurrences(s, c) <= s.len(),
    decreases s.len(),
{
    if s.len() > 0 {
        lemma_occurrences_bound(s.drop_last(), c);
    }
}

/// Whether `code` is the number of a symbol, that is a Unicode scalar value.
pub open spec fn is_symbol_code(code: int) -> bool {
    0 <= code <= 0xD7FF || 0xE000 <= code <= 0x10FFFF
}

/// Every symbol has a number, and is the symbol of that number.
pub proof fn lemma_symbol_code(c: char)
    ensures
        is_symbol_code(c as int),
        (c as int) as char == c,
{
}

/// One more than the largest symbol number.
pub open spec fn symbol_limit() -> nat {
    0x110000
}

/// The symbols of `dom` whose number is below `bound`, in ascending order.
pub open spec fn symbols_below(dom: Set<char>, bound: nat) -> Seq<char>
    decreases bound,
{
    if bound == 0 {
        Seq::empty()
    } else {
        let lower = symbols_below(dom, (bound - 1) as nat);
        let top = (bound - 1) as char;
        if is_symbol_code(bound - 1) && dom.contains(top) {
            lower.push(top)
        } else {
            lower
        }
    }
}

/// The symbols of `dom` in ascending order.
pub open spec fn sorted_symbols(dom: Set<char>) -> Seq<char> {
    symbols_below(dom, symbol_limit())
}

/// Each symbol is smaller than every later one.
pub open spec fn ascending(s: Seq<char>) -> bool {
    forall|i: int, j: int| #![trigger s[i], s[j]] 0 <= i < j < s.len() ==> s[i] < s[j]
}

/// The sum of the counts that `table` holds for the symbols of `order`.
pub open spec fn seq_total(table: Map<char, u32>, order: Seq<char>) -> nat
    decreases order.len(),
{
    if order.len() == 0 {
        0
    } else {
        seq_total(table, order.drop_last()) + table[order.last()] as nat
    }
}

/// The sum of all counts of `table`.
pub open spec fn table_total(table: Map<char, u32>) -> nat {
    seq_total(table, sorted_symbols(table.dom()))
}

/// What `symbols_below` holds: exactly the symbols of `dom` below the bound,
/// each once and in ascending order.
pub proof fn lemma_symbols_below(dom: Set<char>, bound: nat)
    ensures
        ascending(symbols_below(dom, bound)),
        forall|c: char|
            #![trigger symbols_below(dom, bound).contains(c)]
            symbols_below(dom, bound).contains(c) <==> (dom.contains(c) && (c as int) < bound),
    decreases bound,
{
    let s = symbols_below(dom, bound);
    if bound == 0 {
        assert forall|c: char|
            #![trigger s.contains(c)]
            s.contains(c) <==> (dom.contains(c) && (c as int) < bound) by {
            lemma_symbol_code(c);
        }
    } else {
        let lower = symbols_below(dom, (bound - 1) as nat);
        lemma_symbols_below(dom, (bound - 1) as nat);
        let top = (bound - 1) as char;
        if is_symbol_code(bound - 1) && dom.contains(top) {
            assert(top as int == bound - 1);
            assert forall|i: int, j: int| 0 <= i < j < s.len() implies s[i] < s[j] by {
                assert(s[i] == lower[i]);
                assert(lower.contains(lower[i]));
                if j < lower.len() {
                    assert(s[j] == lower[j]);
                }
            }
            assert forall|c: char|
                #![trigger s.contains(c)]
                s.contains(c) <==> (dom.contains(c) && (c as int) < bound) by {
                if s.contains(c) {
                    let i = choose|i: int| 0 <= i < s.len() && s[i] == c;
                    if i < lower.len() {
                        assert(lower[i] == c);
                        assert(lower.contains(c));
                    }
                }
                if dom.contains(c) && (c as int) < bound {
                    if (c as int) < bound - 1 {
                        assert(lower.contains(c));
                        let i = choose|i: int| 0 <= i < lower.len() && lower[i] == c;
                        assert(s[i] == c);
                    } else {
                        lemma_symbol_code(c);
                        assert(c == top);
                        assert(s[s.len() - 1] == c);
                    }
                }
            }
        } else {
            assert forall|c: char|
                #![trigger s.contains(c)]
                s.contains(c) <==> (dom.contains(c) && (c as int) < bound) by {
                if dom.contains(c) && (c as int) == bound - 1 {
                    lemma_symbol_code(c);
                    assert(c == top);
                }
            }
        }
    }
}

/// The ascending order of a set of symbols: every symbol of the set, each
/// once.
pub proof fn lemma_sorted_symbols(dom: Set<char>)
    ensures
        ascending(sorted_symbols(dom)),
        sorted_symbols(dom).no_duplicates(),
        forall|c: char|
            #![trigger sorted_symbols(dom).contains(c)]
            sorted_symbols(dom).contains(c) <==> dom.contains(c),
{
    lemma_symbols_below(dom, symbol_limit());
    lemma_ascending_no_duplicates(sorted_symbols(dom));
    assert forall|c: char|
        #![trigger sorted_symbols(dom).contains(c)]
        sorted_symbols(dom).contains(c) <==> dom.contains(c) by {
        lemma_symbol_code(c);
    }
}

/// An ascending sequence holds nothing twice.
pub proof fn lemma_ascending_no_duplicates(s: Seq<char>)
    requires
        ascending(s),
    ensures
        s.no_duplicates(),
{
    assert forall|i: int, j: int| 0 <= i < s.len() && 0 <= j < s.len() && i != j implies s[i]
        != s[j] by {
        if i < j {
            assert(s[i] < s[j]);
        } else {
            assert(s[j] < s[i]);
        }
    }
}

/// There is one ascending order of a set of symbols: an ascending sequence
/// that holds exactly the symbols of `dom` below `bound` is `symbols_below`.
pub proof fn lemma_ascending_unique_below(dom: Set<char>, s: Seq<char>, bound: nat)
    requires
        ascending(s),
        forall|c: char|
            #![trigger s.contains(c)]
            s.contains(c) <==> (dom.contains(c) && (c as int) < bound),
    ensures
        s == symbols_below(dom, bound),
    decreases bound,
{
    if bound == 0 {
        if s.len() > 0 {
            assert(s.contains(s[0]));
            lemma_symbol_code(s[0]);
        }
        assert(s =~= Seq::<char>::empty());
    } else {
        let top = (bound - 1) as char;
        if is_symbol_code(bound - 1) && dom.contains(top) {
            assert(top as int == bound - 1);
            assert(s.contains(top));
            let k = choose|k: int| 0 <= k < s.len() && s[k] == top;
            if k < s.len() - 1 {
                let last = s[s.len() - 1];
                assert(s[k] < last);
                assert(s.contains(last));
                assert(false);
            }
            let front = s.drop_last();
            assert forall|c: char|
                #![trigger front.contains(c)]
                front.contains(c) <==> (dom.contains(c) && (c as int) < bound - 1) by {
                if front.contains(c) {
                    let i = choose|i: int| 0 <= i < front.len() && front[i] == c;
                    assert(s[i] == c);
                    assert(s.contains(c));
                    assert(s[i] < s[k]);
                }
                if dom.contains(c) && (c as int) < bound - 1 {
                    assert(s.contains(c));
                    let i = choose|i: int| 0 <= i < s.len() && s[i] == c;
                    assert(i != k);
                    assert(front[i] == c);
                }
            }
            assert forall|i: int, j: int| 0 <= i < j < front.len() implies front[i]
                < front[j] by {
                assert(front[i] == s[i] && front[j] == s[j]);
            }
            lemma_ascending_unique_below(dom, front, (bound - 1) as nat);
            assert(s =~= front.push(top));
        } else {
            assert forall|c: char|
                #![trigger s.contains(c)]
                s.contains(c) <==> (dom.contains(c) && (c as int) < bound - 1) by {
                if dom.contains(c) && (c as int) == bound - 1 {
                    lemma_symbol_code(c);
                    assert(c == top);
                }
            }
            lemma_ascending_unique_below(dom, s, (bound - 1) as nat);
        }
    }
}

/// An ascending sequence that holds exactly the symbols of `dom` is the
/// ascending order of `dom`.
pub proof fn lemma_ascending_unique(dom: Set<char>, s: Seq<char>)
    requires
        ascending(s),
        forall|c: char| #![trigger s.contains(c)] s.contains(c) <==> dom.contains(c),
    ensures
        s == sorted_symbols(dom),
{
    assert forall|c: char|
        #![trigger s.contains(c)]
        s.contains(c) <==> (dom.contains(c) && (c as int) < symbol_limit()) by {
        lemma_symbol_code(c);
    }
    lemma_ascending_unique_below(dom, s, symbol_limit());
}

/// The counts of a text add up to its length, and only the empty text has
/// an empty table.
pub proof fn lemma_counts_total(s: Seq<char>)
    ensures
        s.len() <= u32::MAX ==> table_total(char_counts(s)) == s.len(),
        forall|c: char| occurrences(s, c) <= s.len(),
        char_counts(s).is_empty() <==> s.len() == 0,
{
    if s.len() > 0 {
        assert(char_counts(s).dom().contains(s.last()));
    } else {
        assert(char_counts(s).dom() =~= Set::<char>::empty());
    }
    assert forall|c: char| occurrences(s, c) <= s.len() by {
        lemma_occurrences_bound(s, c);
    }
    if s.len() <= u32::MAX {
        lemma_total_below(s, symbol_limit());
        lemma_below_all(s);
    }
}

/// How many symbols of `s` have a number below `bound`.
pub open spec fn count_below(s: Seq<char>, bound: nat) -> nat
    decreases s.len(),
{
    if s.len() == 0 {
        0
    } else {
        count_below(s.drop_last(), bound) + if (s.last() as int) < bound {
            1nat
        } else {
            0nat
        }
    }
}

/// Every symbol has a number below the limit.
pub proof fn lemma_below_all(s: Seq<char>)
    ensures
        count_below(s, symbol_limit()) == s.len(),
    decreases s.len(),
{
    if s.len() > 0 {
        lemma_below_all(s.drop_last());
        lemma_symbol_code(s.last());
    }
}

/// Raising the bound by one counts the occurrences of one more symbol.
pub proof fn lemma_count_below_step(s: Seq<char>, bound: nat)
    requires
        bound > 0,
    ensures
        count_below(s, bound) == count_below(s, (bound - 1) as nat) + if is_symbol_code(
            bound - 1,
        ) {
            occurrences(s, (bound - 1) as char)
        } else {
            0
        },
    decreases s.len(),
{
    if s.len() > 0 {
        lemma_count_below_step(s.drop_last(), bound);
        lemma_symbol_code(s.last());
    }
}

/// The counts of the symbols below a bound add up to the number of such
/// symbols in the text.
pub proof fn lemma_total_below(s: Seq<char>, bound: nat)
    requires
        s.len() <= u32::MAX,
    ensures
        seq_total(char_counts(s), symbols_below(char_counts(s).dom(), bound)) == count_below(
            s,
            bound,
        ),
    decreases bound,
{
    if bound == 0 {
        lemma_count_below_zero(s);
    } else {
        let table = char_counts(s);
        let lower = symbols_below(table.dom(), (bound - 1) as nat);
        let top = (bound - 1) as char;
        lemma_total_below(s, (bound - 1) as nat);
        lemma_count_below_step(s, bound);
        if is_symbol_code(bound - 1) {
            lemma_occurrences_bound(s, top);
            if table.dom().contains(top) {
                assert(lower.push(top).drop_last() == lower);
                assert(table[top] == occurrences(s, top));
            } else {
                assert(occurrences(s, top) == 0);
            }
        }
    }
}

/// No symbol has a number below zero.
pub proof fn lemma_count_below_zero(s: Seq<char>)
    ensures
        count_below(s, 0) == 0,
    decreases s.len(),
{
    if s.len() > 0 {
        lemma_count_below_zero(s.drop_last());
        lemma_symbol_code(s.last());
    }
}

/// An ascending sequence of symbols is no longer than there are symbols.
pub proof fn lemma_ascending_len(s: Seq<char>)
    requires
        ascending(s),
    ensures
        s.len() <= symbol_limit(),
{
    if s.len() > 0 {
        lemma_ascending_floor(s, s.len() - 1);
        lemma_symbol_code(s[s.len() - 1]);
    }
}

/// In an ascending sequence the symbol at position `i` has at least the
/// number `i`.
pub proof fn lemma_ascending_floor(s: Seq<char>, i: int)
    requires
        ascending(s),
        0 <= i < s.len(),
    ensures
        i <= s[i] as int,
    decreases i,
{
    lemma_symbol_code(s[i]);
    if i > 0 {
        lemma_ascending_floor(s, i - 1);
        lemma_symbol_code(s[i - 1]);
        assert(s[i - 1] < s[i]);
    }
}

/// The keys of a map in ascending order.
pub fn sorted_keys<V>(m: &HashMap<char, V>) -> (symbols: Vec<char>)
    ensures
        symbols@ == sorted_symbols(m@.dom()),
{
    let keys = map_keys(m);
    let mut sorted: Vec<char> = Vec::new();
    let mut i: usize = 0;
    while i < keys.len()
        invariant
            i <= keys.len(),
            keys@.no_duplicates(),
            ascending(sorted@),
            forall|c: char|
                #![trigger sorted@.contains(c)]
                sorted@.contains(c) <==> keys@.take(i as int).contains(c),
        decreases keys.len() - i,
    {
        let key = keys[i];
        let mut p: usize = 0;
        while p < sorted.len() && sorted[p] < key
            invariant
                p <= sorted.len(),
                forall|j: int| 0 <= j < p ==> #[trigger] sorted@[j] < key,
            decreases sorted.len() - p,
        {
            p = p + 1;
        }
        let ghost before = sorted@;
        proof {
            if p < before.len() {
                let earlier = keys@.take(i as int);
                assert(before.contains(before[p as int]));
                let k = choose|k: int| 0 <= k < earlier.len() && earlier[k] == before[p as int];
                assert(keys@[k] != keys@[i as int]);
                lemma_symbol_code(key);
                lemma_symbol_code(before[p as int]);
            }
            before.insert_ensures(p as int, key);
        }
        sorted.insert(p, key);
        proof {
            let after = sorted@;
            assert forall|a: int, b: int| 0 <= a < b < after.len() implies after[a] < after[b] by {
                if b < p {
                    assert(after[a] == before[a] && after[b] == before[b]);
                } else if b == p {
                    assert(after[a] == before[a]);
                } else {
                    assert(after[(b - 1) + 1] == before[b - 1]);
                    if a < p {
                        assert(after[a] == before[a]);
                        assert(before[a] < key);
                        if b - 1 > p {
                            assert(before[p as int] < before[b - 1]);
                        }
                    } else if a == p {
                        if b - 1 > p {
                            assert(before[p as int] < before[b - 1]);
                        }
                    } else {
                        assert(after[(a - 1) + 1] == before[a - 1]);
                        assert(before[a - 1] < before[b - 1]);
                    }
                }
            }
            let seen = keys@.take(i as int);
            let next = keys@.take(i + 1);
            assert forall|c: char|
                #![trigger after.contains(c)]
                after.contains(c) <==> next.contains(c) by {
                if after.contains(c) {
                    let k = choose|k: int| 0 <= k < after.len() && after[k] == c;
                    if k == p {
                        assert(next[i as int] == c);
                    } else {
                        if k < p {
                            assert(before[k] == c);
                        } else {
                            assert(after[(k - 1) + 1] == before[k - 1]);
                        }
                        assert(before.contains(c));
                        let j = choose|j: int| 0 <= j < seen.len() && seen[j] == c;
                        assert(next[j] == c);
                    }
                }
                if next.contains(c) {
                    let j = choose|j: int| 0 <= j < next.len() && next[j] == c;
                    if j == i {
                        assert(after[p as int] == c);
                    } else {
                        assert(seen[j] == c);
                        assert(before.contains(c));
                        let k = choose|k: int| 0 <= k < before.len() && before[k] == c;
                        if k < p {
                            assert(after[k] == c);
                        } else {
                            assert(after[k + 1] == c);
                        }
                    }
                }
            }
        }
        i = i + 1;
    }
    proof {
        assert(keys@.take(keys@.len() as int) == keys@);
        lemma_ascending_unique(m@.dom(), sorted@);
    }
    sorted
}

/// Counts how often each symbol occurs in `source`. No symbol may occur more
/// than `u32::MAX` times.
pub fn count_chars(source: &str) -> (counts: HashMap<char, u32>)
    requires
        forall|c: char| occurrences(source@, c) <= u32::MAX,
    ensures
        counts@ == char_counts(source@),
{
    let mut counts: HashMap<char, u32> = HashMap::new();
    assert(counts@ =~= char_counts(Seq::<char>::empty()));
    for c in it: source.chars()
        invariant
            it.seq() == source@,
            counts@ == char_counts(source@.take(it.index() as int)),
            forall|c: char| occurrences(source@, c) <= u32::MAX,
    {
        let ghost seen = source@.take(it.index() as int);
        let ghost next = source@.take(it.index() + 1);
        proof {
            assert(next.drop_last() == seen);
            assert(next.last() == c);
            lemma_occurrences_prefix(source@, it.index() + 1, c);
        }
        let so_far: u32 = match map_get(&counts, c) {
            Some(n) => *n,
            None => 0,
        };
        map_insert(&mut counts, c, so_far + 1);
        assert(counts@ =~= char_counts(next));
    }
    assert(source@.take(source@.len() as int) == source@);
    counts
}

} // verus!
