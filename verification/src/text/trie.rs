use vstd::prelude::*;
use vstd::std_specs::iter::IteratorSpec;
use super::strs::push_char;

verus! {

#[derive(Clone, Copy)]
struct TrieNode {
    start: usize,
    len: usize,
    capacity: usize,
    is_terminal: bool,
}

/// A set of words, kept as a tree of characters. The children of each node lie in a region of
/// `data` of its own: `len` entries in room for `capacity`.
pub struct Trie {
    nodes: Vec<TrieNode>,
    data: Vec<(char, usize)>,
}

/* The tree that the two vectors hold. */

/// The entries (key and child) of node `n`.
spec fn entries(ns: Seq<TrieNode>, ds: Seq<(char, usize)>, n: int) -> Seq<(char, usize)> {
    ds.subrange(ns[n].start as int, ns[n].start + ns[n].len)
}

/// The child under key `c` among the entries `es`.
spec fn child_of(es: Seq<(char, usize)>, c: char) -> Option<usize> {
    if exists|j: int| 0 <= j < es.len() && (#[trigger] es[j]).0 == c {
        Some(es[choose|j: int| 0 <= j < es.len() && (#[trigger] es[j]).0 == c].1)
    } else {
        None
    }
}

/// The node reached from `n` by following the characters of `w`.
spec fn node_at(ns: Seq<TrieNode>, ds: Seq<(char, usize)>, n: usize, w: Seq<char>) -> Option<usize>
    decreases w.len(),
{
    if w.len() == 0 {
        Some(n)
    } else {
        match child_of(entries(ns, ds, n as int), w[0]) {
            Some(m) => node_at(ns, ds, m, w.drop_first()),
            None => None,
        }
    }
}

/// Whether following `w` from `n` ends at a word's end.
#[verifier::opaque]
spec fn is_word_from(ns: Seq<TrieNode>, ds: Seq<(char, usize)>, n: usize, w: Seq<char>) -> bool {
    node_at(ns, ds, n, w) matches Some(m) && m < ns.len() && ns[m as int].is_terminal
}

/// Node regions lie within `data` and hold no more than their room.
spec fn regions_fit(ns: Seq<TrieNode>, ds: Seq<(char, usize)>) -> bool {
    forall|n: int| 0 <= n < ns.len() ==> (#[trigger] ns[n]).start + ns[n].capacity <= ds.len()
        && ns[n].len <= ns[n].capacity && ns[n].capacity > 0
}

/// No two nodes share room.
spec fn regions_apart(ns: Seq<TrieNode>) -> bool {
    forall|a: int, b: int|
        0 <= a < ns.len() && 0 <= b < ns.len() && a != b ==> #[trigger] ns[a].start + ns[a].capacity
            <= #[trigger] ns[b].start || ns[b].start + ns[b].capacity <= ns[a].start
}

/// Children come after their parents.
spec fn children_later(ns: Seq<TrieNode>, ds: Seq<(char, usize)>) -> bool {
    forall|n: int, j: int|
        0 <= n < ns.len() && 0 <= j < entries(ns, ds, n).len() ==> n < (#[trigger] entries(ns, ds, n)[j]).1
            < ns.len()
}

/// The keys of a node differ.
spec fn keys_distinct(ns: Seq<TrieNode>, ds: Seq<(char, usize)>) -> bool {
    forall|n: int, i: int, j: int|
        0 <= n < ns.len() && 0 <= i < j < entries(ns, ds, n).len() ==> (#[trigger] entries(ns, ds, n)[i]).0
            != (#[trigger] entries(ns, ds, n)[j]).0
}

/// Every node is the child of at most one entry.
spec fn one_parent(ns: Seq<TrieNode>, ds: Seq<(char, usize)>) -> bool {
    forall|a: int, i: int, b: int, j: int|
        0 <= a < ns.len() && 0 <= i < entries(ns, ds, a).len() && 0 <= b < ns.len() && 0 <= j
            < entries(ns, ds, b).len() && (#[trigger] entries(ns, ds, a)[i]).1 == (#[trigger] entries(
            ns,
            ds,
            b,
        )[j]).1 ==> a == b && i == j
}

/// The two vectors hold a tree rooted at node 0, or nothing yet.
spec fn trie_wf(ns: Seq<TrieNode>, ds: Seq<(char, usize)>) -> bool {
    &&& regions_fit(ns, ds)
    &&& regions_apart(ns)
    &&& children_later(ns, ds)
    &&& keys_distinct(ns, ds)
    &&& one_parent(ns, ds)
}

/// Appends the room of a node to `data` and returns the node, empty.
fn new_node(data: &mut Vec<(char, usize)>) -> (node: TrieNode)
    ensures
        final(data)@.len() == old(data)@.len() + 4,
        final(data)@.subrange(0, old(data)@.len() as int) == old(data)@,
        node == (TrieNode { start: old(data)@.len() as usize, len: 0, capacity: 4, is_terminal: false }),
{
    let start = data.len();
    data.push((' ', 0));
    data.push((' ', 0));
    data.push((' ', 0));
    data.push((' ', 0));
    proof {
        assert(data@.subrange(0, old(data)@.len() as int) =~= old(data)@);
    }
    TrieNode { start, len: 0, capacity: 4, is_terminal: false }
}

/// How the tree changes when node `index` gets the new child `child` under `key`: every
/// other node keeps its entries and its mark, and the child is a new, empty, unmarked node.
spec fn grows_by_child(
    ns: Seq<TrieNode>,
    ds: Seq<(char, usize)>,
    ns2: Seq<TrieNode>,
    ds2: Seq<(char, usize)>,
    index: int,
    key: char,
    child: usize,
) -> bool {
    &&& ns2.len() == ns.len() + 1
    &&& child == ns.len()
    &&& forall|m: int| 0 <= m < ns.len() && m != index ==> #[trigger] entries(ns2, ds2, m) == entries(ns, ds, m)
    &&& entries(ns2, ds2, index) == entries(ns, ds, index).push((key, child))
    &&& entries(ns2, ds2, child as int).len() == 0
    &&& forall|m: int| 0 <= m < ns.len() ==> (#[trigger] ns2[m]).is_terminal == ns[m].is_terminal
    &&& !ns2[child as int].is_terminal
}

/// Gives node `index` a new child under `key`, which it has no child for, making more room
/// for its entries where they are full, and returns the child.
fn add_child_to_node(nodes: &mut Vec<TrieNode>, data: &mut Vec<(char, usize)>, index: usize, key: char) -> (child_index: usize)
    requires
        trie_wf(old(nodes)@, old(data)@),
        index < old(nodes)@.len(),
        child_of(entries(old(nodes)@, old(data)@, index as int), key) is None,
    ensures
        trie_wf(final(nodes)@, final(data)@),
        grows_by_child(old(nodes)@, old(data)@, final(nodes)@, final(data)@, index as int, key, child_index),
{
    let ghost ns0 = nodes@;
    let ghost ds0 = data@;
    let child_node = new_node(data);
    let child_index = nodes.len();
    nodes.push(child_node);
    let ghost ds1 = data@;
    let node = nodes[index];
    assert(node == ns0[index as int]);
    let mut start = node.start;
    let mut capacity = node.capacity;
    if node.len >= node.capacity {
        let new_start = data.len();
        let mut k: usize = 0;
        while k < capacity
            invariant
                capacity == node.capacity,
                start == node.start,
                node.start + node.capacity <= ds1.len(),
                new_start == ds1.len(),
                k <= capacity,
                data@.len() == ds1.len() + k,
                data@.subrange(0, ds1.len() as int) == ds1,
                forall|i: int| 0 <= i < k ==> #[trigger] data@[new_start + i] == ds1[start + i],
            decreases capacity - k,
        {
            let e = data[start + k];
            data.push(e);
            proof {
                assert(data@.subrange(0, ds1.len() as int) =~= ds1);
            }
            k = k + 1;
        }
        let mut k: usize = 0;
        while k < capacity
            invariant
                capacity == node.capacity,
                start == node.start,
                new_start == ds1.len(),
                k <= capacity,
                data@.len() == ds1.len() + capacity + k,
                data@.subrange(0, ds1.len() as int) == ds1,
                forall|i: int| 0 <= i < capacity ==> #[trigger] data@[new_start + i] == ds1[start + i],
            decreases capacity - k,
        {
            data.push((' ', 0));
            proof {
                assert(data@.subrange(0, ds1.len() as int) =~= ds1);
            }
            k = k + 1;
        }
        start = new_start;
        capacity = data.len() - new_start;
    }
    proof {
        assert forall|i: int| 0 <= i < node.len implies #[trigger] data@[start + i] == ds0[node.start + i] by {
            assert(ds1.subrange(0, ds0.len() as int) == ds0);
            assert(ds1[node.start + i] == ds1.subrange(0, ds0.len() as int)[node.start + i]);
            if start != node.start {
                assert(data@[start + i] == ds1[node.start + i]);
            } else {
                assert(data@.subrange(0, ds1.len() as int) == ds1 || data@ == ds1);
            }
        }
    }
    let ghost ds_grown = data@;
    let _data_len = data.len();
    proof {
        assert(ns0[index as int].start + ns0[index as int].capacity <= ds0.len());
        assert(start + capacity <= data@.len());
        assert(node.len < capacity);
    }
    data.set(start + node.len, (key, child_index));
    nodes.set(index, TrieNode { start, len: node.len + 1, capacity, is_terminal: node.is_terminal });
    proof {
        let ns2 = nodes@;
        let ds2 = data@;
        assert(ns2.len() == ns0.len() + 1);
        assert forall|m: int| 0 <= m < ns0.len() && m != index implies #[trigger] entries(ns2, ds2, m) == entries(ns0, ds0, m) by {
            assert(ns2[m] == ns0[m]);
            assert(entries(ns2, ds2, m) =~= entries(ns0, ds0, m));
        }
        let es0 = entries(ns0, ds0, index as int);
        assert(ns2[index as int].start == start && ns2[index as int].len == node.len + 1);
        assert forall|i: int| 0 <= i < node.len implies #[trigger] entries(ns2, ds2, index as int)[i] == es0[i] by {
            assert(ds2[start + i] == ds_grown[start + i]);
        }
        assert(entries(ns2, ds2, index as int) =~= es0.push((key, child_index)));
        assert(entries(ns2, ds2, child_index as int) =~= Seq::<(char, usize)>::empty());
        assert forall|m: int| 0 <= m < ns0.len() implies (#[trigger] ns2[m]).is_terminal == ns0[m].is_terminal by {
        }
        lemma_grow_keeps_wf(ns0, ds0, ns2, ds2, index as int, key, child_index);
    }
    child_index
}

/// Growing by a child keeps the tree well formed, where the regions do.
proof fn lemma_grow_keeps_wf(
    ns: Seq<TrieNode>,
    ds: Seq<(char, usize)>,
    ns2: Seq<TrieNode>,
    ds2: Seq<(char, usize)>,
    index: int,
    key: char,
    child: usize,
)
    requires
        trie_wf(ns, ds),
        0 <= index < ns.len(),
        child_of(entries(ns, ds, index), key) is None,
        grows_by_child(ns, ds, ns2, ds2, index, key, child),
        regions_fit(ns2, ds2),
        regions_apart(ns2),
    ensures
        trie_wf(ns2, ds2),
{
    let n0 = ns.len() as int;
    assert forall|n: int, j: int|
        0 <= n < ns2.len() && 0 <= j < entries(ns2, ds2, n).len() implies n < (#[trigger] entries(ns2, ds2, n)[j]).1
        < ns2.len() by {
        if n < n0 && n != index {
            assert(entries(ns2, ds2, n) == entries(ns, ds, n));
        } else if n == index {
            if j < entries(ns, ds, index).len() {
                assert(entries(ns2, ds2, n)[j] == entries(ns, ds, index)[j]);
            }
        }
    }
    assert forall|n: int, i: int, j: int|
        0 <= n < ns2.len() && 0 <= i < j < entries(ns2, ds2, n).len() implies (#[trigger] entries(ns2, ds2, n)[i]).0
        != (#[trigger] entries(ns2, ds2, n)[j]).0 by {
        if n < n0 && n != index {
            assert(entries(ns2, ds2, n) == entries(ns, ds, n));
        } else if n == index {
            let es = entries(ns, ds, index);
            assert(entries(ns2, ds2, n)[i] == es[i]);
            if j < es.len() {
                assert(entries(ns2, ds2, n)[j] == es[j]);
            } else {
                assert(entries(ns2, ds2, n)[j].0 == key);
                if es[i].0 == key {
                    assert(exists|k: int| 0 <= k < es.len() && (#[trigger] es[k]).0 == key);
                }
            }
        }
    }
    assert forall|a: int, i: int, b: int, j: int|
        0 <= a < ns2.len() && 0 <= i < entries(ns2, ds2, a).len() && 0 <= b < ns2.len() && 0 <= j
            < entries(ns2, ds2, b).len() && (#[trigger] entries(ns2, ds2, a)[i]).1 == (#[trigger] entries(
            ns2,
            ds2,
            b,
        )[j]).1 implies a == b && i == j by {
        let ea = entries(ns2, ds2, a);
        let eb = entries(ns2, ds2, b);
        let a_new = a == index && i == entries(ns, ds, index).len();
        let b_new = b == index && j == entries(ns, ds, index).len();
        if !a_new {
            if a < n0 && a != index {
                assert(ea == entries(ns, ds, a));
            } else {
                assert(ea[i] == entries(ns, ds, index)[i]);
            }
        }
        if !b_new {
            if b < n0 && b != index {
                assert(eb == entries(ns, ds, b));
            } else {
                assert(eb[j] == entries(ns, ds, index)[j]);
            }
        }
    }
}

/// The keys of entries `es` differ.
spec fn distinct_keys(es: Seq<(char, usize)>) -> bool {
    forall|i: int, j: int| 0 <= i < j < es.len() ==> (#[trigger] es[i]).0 != (#[trigger] es[j]).0
}

/// A child found under a key is the child of an entry with that key.
proof fn lemma_child_of_entry(es: Seq<(char, usize)>, c: char)
    ensures
        child_of(es, c) matches Some(m) ==> exists|j: int| 0 <= j < es.len() && es[j] == (c, m),
        child_of(es, c) is None ==> forall|j: int| 0 <= j < es.len() ==> (#[trigger] es[j]).0 != c,
{
    if exists|j: int| 0 <= j < es.len() && (#[trigger] es[j]).0 == c {
        let j = choose|j: int| 0 <= j < es.len() && (#[trigger] es[j]).0 == c;
        assert(es[j] == (c, es[j].1));
    }
}

/// An entry with distinct keys is what its key finds.
proof fn lemma_child_of_unique(es: Seq<(char, usize)>, j: int)
    requires
        distinct_keys(es),
        0 <= j < es.len(),
    ensures
        child_of(es, es[j].0) == Some(es[j].1),
{
    let c = es[j].0;
    assert(exists|k: int| 0 <= k < es.len() && (#[trigger] es[k]).0 == c);
    let k = choose|k: int| 0 <= k < es.len() && (#[trigger] es[k]).0 == c;
    if k != j {
        if k < j {
            assert(es[k].0 != es[j].0);
        } else {
            assert(es[j].0 != es[k].0);
        }
    }
}

/// A new entry under a key not yet there finds that key, and leaves the other keys as they were.
proof fn lemma_child_of_push(es: Seq<(char, usize)>, key: char, c: usize, x: char)
    requires
        distinct_keys(es),
        child_of(es, key) is None,
    ensures
        child_of(es.push((key, c)), x) == if x == key { Some(c) } else { child_of(es, x) },
{
    let es2 = es.push((key, c));
    lemma_child_of_entry(es, key);
    assert(distinct_keys(es2)) by {
        assert forall|i: int, j: int| 0 <= i < j < es2.len() implies (#[trigger] es2[i]).0 != (#[trigger] es2[j]).0 by {
            if j == es.len() {
                assert(es2[i] == es[i]);
            } else {
                assert(es2[i] == es[i] && es2[j] == es[j]);
            }
        }
    }
    if x == key {
        lemma_child_of_unique(es2, es.len() as int);
    } else {
        lemma_child_of_entry(es, x);
        lemma_child_of_entry(es2, x);
        if child_of(es, x) is Some {
            let j = choose|j: int| 0 <= j < es.len() && es[j] == (x, child_of(es, x)->0);
            lemma_child_of_unique(es, j);
            assert(es2[j] == es[j]);
            lemma_child_of_unique(es2, j);
        } else if child_of(es2, x) is Some {
            let j = choose|j: int| 0 <= j < es2.len() && es2[j] == (x, child_of(es2, x)->0);
            assert(j < es.len());
            assert(es[j] == es2[j]);
        }
    }
}

/// Following `w` then `v` is following `w + v`.
proof fn lemma_node_at_append(ns: Seq<TrieNode>, ds: Seq<(char, usize)>, n: usize, w: Seq<char>, v: Seq<char>)
    ensures
        node_at(ns, ds, n, w + v) == match node_at(ns, ds, n, w) {
            Some(p) => node_at(ns, ds, p, v),
            None => None,
        },
    decreases w.len(),
{
    if w.len() == 0 {
        assert(w + v =~= v);
    } else {
        assert((w + v)[0] == w[0]);
        assert((w + v).drop_first() =~= w.drop_first() + v);
        match child_of(entries(ns, ds, n as int), w[0]) {
            Some(m) => {
                lemma_node_at_append(ns, ds, m, w.drop_first(), v);
            },
            None => {},
        }
    }
}

/// The nodes reached from a node lie within the tree.
proof fn lemma_node_at_bound(ns: Seq<TrieNode>, ds: Seq<(char, usize)>, n: usize, w: Seq<char>)
    requires
        trie_wf(ns, ds),
        n < ns.len(),
    ensures
        node_at(ns, ds, n, w) matches Some(m) ==> n <= m < ns.len() && (w.len() > 0 ==> n < m),
    decreases w.len(),
{
    if w.len() > 0 {
        let es = entries(ns, ds, n as int);
        lemma_child_of_entry(es, w[0]);
        match child_of(es, w[0]) {
            Some(m) => {
                let j = choose|j: int| 0 <= j < es.len() && es[j] == (w[0], m);
                assert(n < es[j].1 < ns.len());
                lemma_node_at_bound(ns, ds, m, w.drop_first());
            },
            None => {},
        }
    }
}

/// Growing by a child keeps every path that led somewhere, and adds none but the path to
/// the child.
proof fn lemma_node_at_grow(
    ns: Seq<TrieNode>,
    ds: Seq<(char, usize)>,
    ns2: Seq<TrieNode>,
    ds2: Seq<(char, usize)>,
    index: int,
    key: char,
    child: usize,
    n: usize,
    w: Seq<char>,
)
    requires
        trie_wf(ns, ds),
        trie_wf(ns2, ds2),
        0 <= index < ns.len(),
        child_of(entries(ns, ds, index), key) is None,
        grows_by_child(ns, ds, ns2, ds2, index, key, child),
        n < ns.len(),
    ensures
        node_at(ns, ds, n, w) matches Some(m) ==> node_at(ns2, ds2, n, w) == Some(m),
        node_at(ns2, ds2, n, w) matches Some(m) ==> (m != child ==> node_at(ns, ds, n, w) == Some(m)),
    decreases w.len(),
{
    if w.len() > 0 {
        let c = w[0];
        let es = entries(ns, ds, n as int);
        let es2 = entries(ns2, ds2, n as int);
        if n as int == index {
            assert(distinct_keys(es));
            lemma_child_of_push(es, key, child, c);
        } else {
            assert(es2 == es);
        }
        lemma_child_of_entry(es, c);
        match child_of(es, c) {
            Some(m) => {
                let j = choose|j: int| 0 <= j < es.len() && es[j] == (c, m);
                assert(n < es[j].1 < ns.len());
                if n as int == index {
                    lemma_child_of_entry(es, key);
                    assert(c != key);
                }
                assert(child_of(es2, c) == Some(m));
                lemma_node_at_grow(ns, ds, ns2, ds2, index, key, child, m, w.drop_first());
                assert(node_at(ns2, ds2, n, w) == node_at(ns2, ds2, m, w.drop_first()));
            },
            None => {
                if child_of(es2, c) is Some {
                    assert(n as int == index && c == key);
                    assert(child_of(es2, c) == Some(child));
                    assert(entries(ns2, ds2, child as int).len() == 0);
                    if w.drop_first().len() > 0 {
                        assert(child_of(entries(ns2, ds2, child as int), w.drop_first()[0]) is None);
                        assert(node_at(ns2, ds2, child, w.drop_first()) is None);
                        assert(node_at(ns2, ds2, n, w) is None);
                    } else {
                        assert(node_at(ns2, ds2, n, w) == Some(child));
                    }
                } else {
                    assert(node_at(ns2, ds2, n, w) is None);
                }
            },
        }
    }
}

/// Two paths from the root that reach the same node are the same path.
proof fn lemma_node_at_injective(ns: Seq<TrieNode>, ds: Seq<(char, usize)>, w1: Seq<char>, w2: Seq<char>)
    requires
        trie_wf(ns, ds),
        0 < ns.len(),
        node_at(ns, ds, 0, w1) is Some,
        node_at(ns, ds, 0, w1) == node_at(ns, ds, 0, w2),
    ensures
        w1 == w2,
    decreases w1.len() + w2.len(),
{
    lemma_node_at_bound(ns, ds, 0, w1);
    lemma_node_at_bound(ns, ds, 0, w2);
    if w1.len() > 0 && w2.len() > 0 {
        let i1 = w1.drop_last();
        let i2 = w2.drop_last();
        assert(i1 + seq![w1.last()] =~= w1);
        assert(i2 + seq![w2.last()] =~= w2);
        lemma_node_at_append(ns, ds, 0, i1, seq![w1.last()]);
        lemma_node_at_append(ns, ds, 0, i2, seq![w2.last()]);
        let p1 = node_at(ns, ds, 0, i1)->0;
        let p2 = node_at(ns, ds, 0, i2)->0;
        lemma_node_at_bound(ns, ds, 0, i1);
        lemma_node_at_bound(ns, ds, 0, i2);
        let m = node_at(ns, ds, 0, w1)->0;
        let e1 = entries(ns, ds, p1 as int);
        let e2 = entries(ns, ds, p2 as int);
        assert(seq![w1.last()].drop_first() =~= Seq::<char>::empty());
        assert(seq![w2.last()].drop_first() =~= Seq::<char>::empty());
        reveal_with_fuel(node_at, 2);
        assert(node_at(ns, ds, p1, seq![w1.last()]) == child_of(e1, w1.last()));
        assert(node_at(ns, ds, p2, seq![w2.last()]) == child_of(e2, w2.last()));
        lemma_child_of_entry(e1, w1.last());
        lemma_child_of_entry(e2, w2.last());
        let j1 = choose|j: int| 0 <= j < e1.len() && e1[j] == (w1.last(), m);
        let j2 = choose|j: int| 0 <= j < e2.len() && e2[j] == (w2.last(), m);
        assert(e1[j1].1 == e2[j2].1);
        assert(p1 == p2 && j1 == j2);
        lemma_node_at_injective(ns, ds, i1, i2);
    } else if w1.len() > 0 || w2.len() > 0 {
        assert(false);
    } else {
        assert(w1 =~= w2);
    }
}

/// The words the two vectors hold: those whose path from the root ends at a marked node.
spec fn words_of(ns: Seq<TrieNode>, ds: Seq<(char, usize)>) -> Set<Seq<char>> {
    Set::new(|w: Seq<char>| ns.len() > 0 && is_word_from(ns, ds, 0, w))
}

/// Growing by a child keeps the words.
proof fn lemma_words_grow(
    ns: Seq<TrieNode>,
    ds: Seq<(char, usize)>,
    ns2: Seq<TrieNode>,
    ds2: Seq<(char, usize)>,
    index: int,
    key: char,
    child: usize,
)
    requires
        trie_wf(ns, ds),
        trie_wf(ns2, ds2),
        0 <= index < ns.len(),
        child_of(entries(ns, ds, index), key) is None,
        grows_by_child(ns, ds, ns2, ds2, index, key, child),
    ensures
        words_of(ns2, ds2) == words_of(ns, ds),
{
    reveal(is_word_from);
    assert forall|w: Seq<char>| words_of(ns2, ds2).contains(w) <==> words_of(ns, ds).contains(w) by {
        lemma_node_at_grow(ns, ds, ns2, ds2, index, key, child, 0, w);
        lemma_node_at_bound(ns, ds, 0, w);
    }
    assert(words_of(ns2, ds2) =~= words_of(ns, ds));
}

/// The child of node `index` under `key`, made where there is none yet.
fn get_or_add_child(nodes: &mut Vec<TrieNode>, data: &mut Vec<(char, usize)>, index: usize, key: char) -> (r: usize)
    requires
        trie_wf(old(nodes)@, old(data)@),
        index < old(nodes)@.len(),
    ensures
        trie_wf(final(nodes)@, final(data)@),
        r < final(nodes)@.len(),
        child_of(entries(final(nodes)@, final(data)@, index as int), key) == Some(r),
        child_of(entries(old(nodes)@, old(data)@, index as int), key) is Some ==> final(nodes)@ == old(
            nodes,
        )@ && final(data)@ == old(data)@,
        child_of(entries(old(nodes)@, old(data)@, index as int), key) is None ==> grows_by_child(
            old(nodes)@,
            old(data)@,
            final(nodes)@,
            final(data)@,
            index as int,
            key,
            r,
        ),
{
    let node = nodes[index];
    let ghost es = entries(nodes@, data@, index as int);
    assert(nodes@[index as int].start + nodes@[index as int].capacity <= data@.len());
    let data_len = data.len();
    let mut j: usize = 0;
    while j < node.len
        invariant
            node == nodes@[index as int],
            es == entries(nodes@, data@, index as int),
            trie_wf(nodes@, data@),
            index < nodes@.len(),
            j <= node.len,
            node.start + node.len <= data@.len(),
            data_len == data@.len(),
            es.len() == node.len,
            forall|i: int| 0 <= i < j ==> (#[trigger] es[i]).0 != key,
        decreases node.len - j,
    {
        let child = data[node.start + j];
        assert(child == es[j as int]);
        if child.0 == key {
            proof {
                lemma_child_of_unique(es, j as int);
                assert(index < es[j as int].1 < nodes@.len());
            }
            return child.1;
        }
        j = j + 1;
    }
    proof {
        if child_of(es, key) is Some {
            lemma_child_of_entry(es, key);
        }
    }
    let r = add_child_to_node(nodes, data, index, key);
    proof {
        lemma_child_of_push(es, key, r, key);
    }
    r
}

/// Paths depend on the nodes only through their entries.
proof fn lemma_node_at_same_entries(ns: Seq<TrieNode>, ns2: Seq<TrieNode>, ds: Seq<(char, usize)>, n: usize, w: Seq<char>)
    requires
        ns.len() == ns2.len(),
        forall|m: int| 0 <= m < ns.len() ==> (#[trigger] ns2[m]).start == ns[m].start && ns2[m].len == ns[m].len,
        trie_wf(ns, ds),
        n < ns.len(),
    ensures
        node_at(ns2, ds, n, w) == node_at(ns, ds, n, w),
    decreases w.len(),
{
    if w.len() > 0 {
        assert(entries(ns2, ds, n as int) == entries(ns, ds, n as int));
        let es = entries(ns, ds, n as int);
        lemma_child_of_entry(es, w[0]);
        match child_of(es, w[0]) {
            Some(m) => {
                let j = choose|j: int| 0 <= j < es.len() && es[j] == (w[0], m);
                assert(n < es[j].1 < ns.len());
                lemma_node_at_same_entries(ns, ns2, ds, m, w.drop_first());
            },
            None => {},
        }
    }
}

impl View for Trie {
    type V = Set<Seq<char>>;

    /// The words in the trie.
    closed spec fn view(&self) -> Set<Seq<char>> {
        words_of(self.nodes@, self.data@)
    }
}

impl Trie {
    #[verifier::type_invariant]
    closed spec fn wf(&self) -> bool {
        trie_wf(self.nodes@, self.data@)
    }

    /// Whether the trie has its root, which `clear` makes.
    pub closed spec fn has_root(&self) -> bool {
        self.nodes@.len() > 0
    }

    /// A trie without even a root: `clear` must come before any word is put in.
    pub fn new() -> (r: Self)
        ensures
            !r.has_root(),
            r@ == Set::<Seq<char>>::empty(),
    {
        let r = Self { nodes: Vec::new(), data: Vec::new() };
        assert(r@ =~= Set::<Seq<char>>::empty());
        r
    }

    fn take_parts(&mut self) -> (r: (Vec<TrieNode>, Vec<(char, usize)>))
        ensures
            r.0@ == old(self).nodes@,
            r.1@ == old(self).data@,
            trie_wf(r.0@, r.1@),
            final(self).nodes@.len() == 0,
    {
        proof { use_type_invariant(&*self); }
        let mut nodes = Vec::new();
        let mut data = Vec::new();
        std::mem::swap(&mut nodes, &mut self.nodes);
        std::mem::swap(&mut data, &mut self.data);
        (nodes, data)
    }

    fn put_parts(&mut self, nodes: Vec<TrieNode>, data: Vec<(char, usize)>)
        requires
            old(self).nodes@.len() == 0,
            trie_wf(nodes@, data@),
        ensures
            final(self).nodes@ == nodes@,
            final(self).data@ == data@,
    {
        let mut nodes = nodes;
        let mut data = data;
        std::mem::swap(&mut data, &mut self.data);
        std::mem::swap(&mut nodes, &mut self.nodes);
    }

    /// Leaves only the root: no words.
    pub fn clear(&mut self)
        ensures
            final(self).has_root(),
            final(self)@ == Set::<Seq<char>>::empty(),
    {
        let (mut nodes, mut data) = self.take_parts();
        nodes.clear();
        data.clear();
        let root = new_node(&mut data);
        nodes.push(root);
        proof {
            reveal(is_word_from);
            assert(entries(nodes@, data@, 0) =~= Seq::<(char, usize)>::empty());
            assert forall|w: Seq<char>| !words_of(nodes@, data@).contains(w) by {
                if w.len() > 0 {
                    assert(child_of(entries(nodes@, data@, 0), w[0]) is None);
                }
            }
            assert(words_of(nodes@, data@) =~= Set::<Seq<char>>::empty());
        }
        self.put_parts(nodes, data);
    }

    /// Puts a word in.
    pub fn insert(&mut self, text: &str)
        requires
            old(self).has_root(),
        ensures
            final(self).has_root(),
            final(self)@ == old(self)@.insert(text@),
    {
        let (mut nodes, mut data) = self.take_parts();
        let ghost ns0 = nodes@;
        let ghost ds0 = data@;
        let mut chars = text.chars();
        let mut index: usize = 0;
        let ghost mut k: int = 0;
        proof {
            broadcast use vstd::string::axiom_spec_iter, vstd::string::next_postcondition;
            assert(text@.take(0) =~= Seq::<char>::empty());
        }
        loop
            invariant
                0 <= k <= text@.len(),
                chars.remaining() == text@.skip(k),
                trie_wf(nodes@, data@),
                nodes@.len() > 0,
                index < nodes@.len(),
                node_at(nodes@, data@, 0, text@.take(k)) == Some(index),
                words_of(nodes@, data@) == words_of(ns0, ds0),
            ensures
                k == text@.len(),
                trie_wf(nodes@, data@),
                nodes@.len() > 0,
                index < nodes@.len(),
                node_at(nodes@, data@, 0, text@) == Some(index),
                words_of(nodes@, data@) == words_of(ns0, ds0),
            decreases text@.len() - k,
        {
            proof {
                broadcast use vstd::string::axiom_spec_iter, vstd::string::next_postcondition;
            }
            let ghost rest = text@.skip(k);
            match chars.next() {
                Some(c) => {
                    assert(rest.len() > 0 && rest[0] == c);
                    let ghost ns1 = nodes@;
                    let ghost ds1 = data@;
                    let ghost es1 = entries(ns1, ds1, index as int);
                    let next = get_or_add_child(&mut nodes, &mut data, index, c);
                    proof {
                        if child_of(es1, c) is None {
                            lemma_words_grow(ns1, ds1, nodes@, data@, index as int, c, next);
                            lemma_node_at_grow(ns1, ds1, nodes@, data@, index as int, c, next, 0, text@.take(k));
                        }
                        assert(text@.take(k + 1) =~= text@.take(k) + seq![c]);
                        lemma_node_at_append(nodes@, data@, 0, text@.take(k), seq![c]);
                        reveal_with_fuel(node_at, 2);
                        assert(seq![c].drop_first() =~= Seq::<char>::empty());
                        assert(node_at(nodes@, data@, index, seq![c]) == Some(next));
                        assert(text@.skip(k + 1) =~= rest.drop_first());
                        k = k + 1;
                    }
                    index = next;
                },
                None => {
                    proof {
                        assert(rest.len() == 0);
                        assert(text@.take(k) =~= text@);
                    }
                    break;
                },
            }
        }
        let node = nodes[index];
        let ghost ns1 = nodes@;
        nodes.set(index, TrieNode { start: node.start, len: node.len, capacity: node.capacity, is_terminal: true });
        proof {
            let ns2 = nodes@;
            assert forall|m: int| 0 <= m < ns1.len() implies (#[trigger] ns2[m]).start == ns1[m].start && ns2[m].len == ns1[m].len by {
            }
            assert forall|n: int| 0 <= n < ns2.len() implies #[trigger] entries(ns2, data@, n) == entries(ns1, data@, n) by {
            }
            assert(trie_wf(ns2, data@));
            reveal(is_word_from);
            assert forall|w: Seq<char>| words_of(ns2, data@).contains(w) <==> words_of(ns1, data@).insert(text@).contains(w) by {
                lemma_node_at_same_entries(ns1, ns2, data@, 0, w);
                lemma_node_at_bound(ns1, data@, 0, w);
                if node_at(ns1, data@, 0, w) == Some(index) {
                    lemma_node_at_injective(ns1, data@, w, text@);
                }
            }
            assert(words_of(ns2, data@) =~= words_of(ns1, data@).insert(text@));
        }
        self.put_parts(nodes, data);
    }
}

/// The views of a sequence of strings.
pub open spec fn string_views(xs: Seq<String>) -> Seq<Seq<char>> {
    xs.map_values(|x: String| x@)
}

/// What a walk from node `n` reports, each after `prefix`: the node itself where it is
/// marked, then what the walks from its children report, child by child.
spec fn walk(ns: Seq<TrieNode>, ds: Seq<(char, usize)>, n: usize, prefix: Seq<char>) -> Seq<Seq<char>>
    decreases ns.len() - n, entries(ns, ds, n as int).len() + 2,
{
    if n < ns.len() {
        (if ns[n as int].is_terminal { seq![prefix] } else { Seq::empty() }) + walk_entries(ns, ds, n, 0, prefix)
    } else {
        Seq::empty()
    }
}

/// What the walks from the children of node `n`, from its `k`th entry on, report.
spec fn walk_entries(ns: Seq<TrieNode>, ds: Seq<(char, usize)>, n: usize, k: int, prefix: Seq<char>) -> Seq<Seq<char>>
    decreases ns.len() - n, entries(ns, ds, n as int).len() - k + 1,
{
    let es = entries(ns, ds, n as int);
    if n < ns.len() && 0 <= k < es.len() {
        let (c, m) = es[k];
        let rest = walk_entries(ns, ds, n, k + 1, prefix);
        if n < m <= ns.len() {
            walk(ns, ds, m, prefix.push(c)) + rest
        } else {
            rest
        }
    } else {
        Seq::empty()
    }
}

/// The entries from the `k`th on, reported after those before them.
proof fn lemma_walk_entries_step(ns: Seq<TrieNode>, ds: Seq<(char, usize)>, n: usize, k: int, prefix: Seq<char>)
    requires
        trie_wf(ns, ds),
        n < ns.len(),
        0 <= k < entries(ns, ds, n as int).len(),
    ensures
        walk_entries(ns, ds, n, k, prefix) == walk(
            ns,
            ds,
            entries(ns, ds, n as int)[k].1,
            prefix.push(entries(ns, ds, n as int)[k].0),
        ) + walk_entries(ns, ds, n, k + 1, prefix),
{
    let es = entries(ns, ds, n as int);
    assert(n < es[k].1 < ns.len());
}

/// Whether `x` is `p` followed by a word under node `n`.
spec fn under(ns: Seq<TrieNode>, ds: Seq<(char, usize)>, n: usize, p: Seq<char>, x: Seq<char>) -> bool {
    exists|w: Seq<char>| #[trigger] is_word_from(ns, ds, n, w) && x == p + w
}

/// Whether `x` is reported from one of the entries `k..` of node `n`.
spec fn under_entries(ns: Seq<TrieNode>, ds: Seq<(char, usize)>, n: usize, k: int, p: Seq<char>, x: Seq<char>) -> bool {
    exists|j: int|
        k <= j < entries(ns, ds, n as int).len() && #[trigger] under(
            ns,
            ds,
            entries(ns, ds, n as int)[j].1,
            p.push(entries(ns, ds, n as int)[j].0),
            x,
        )
}

/// What follows `p` under a node is the node's own word or what follows under a child.
proof fn lemma_under_step(ns: Seq<TrieNode>, ds: Seq<(char, usize)>, n: usize, p: Seq<char>, x: Seq<char>)
    requires
        trie_wf(ns, ds),
        n < ns.len(),
    ensures
        under(ns, ds, n, p, x) <==> ((ns[n as int].is_terminal && x == p) || under_entries(ns, ds, n, 0, p, x)),
{
    let es = entries(ns, ds, n as int);
    lemma_words_by_entries(ns, ds, n);
    if under(ns, ds, n, p, x) {
        let w = choose|w: Seq<char>| #[trigger] is_word_from(ns, ds, n, w) && x == p + w;
        if w.len() == 0 {
            assert(x =~= p);
            assert(w =~= Seq::<char>::empty());
        } else {
            let j = choose|j: int| 0 <= j < es.len() && es[j].0 == w[0] && is_word_from(ns, ds, es[j].1, w.drop_first());
            assert(x =~= p.push(es[j].0) + w.drop_first());
            assert(under(ns, ds, es[j].1, p.push(es[j].0), x));
        }
    }
    if ns[n as int].is_terminal && x == p {
        assert(is_word_from(ns, ds, n, Seq::<char>::empty()));
        assert(x =~= p + Seq::<char>::empty());
    }
    if under_entries(ns, ds, n, 0, p, x) {
        let j = choose|j: int| 0 <= j < es.len() && #[trigger] under(ns, ds, es[j].1, p.push(es[j].0), x);
        let w = choose|w: Seq<char>| #[trigger] is_word_from(ns, ds, es[j].1, w) && x == p.push(es[j].0) + w;
        assert(is_word_from(ns, ds, n, seq![es[j].0] + w));
        assert(x =~= p + (seq![es[j].0] + w));
        assert(under(ns, ds, n, p, x));
    }
    if ns[n as int].is_terminal && x == p {
        assert(under(ns, ds, n, p, x));
    }
}

/// What follows `q` starts with `q`.
proof fn lemma_under_prefix(ns: Seq<TrieNode>, ds: Seq<(char, usize)>, n: usize, q: Seq<char>, x: Seq<char>)
    requires
        under(ns, ds, n, q, x),
    ensures
        x.len() >= q.len(),
        x.subrange(0, q.len() as int) == q,
{
    let w = choose|w: Seq<char>| #[trigger] is_word_from(ns, ds, n, w) && x == q + w;
    assert(x.subrange(0, q.len() as int) =~= q);
}

/// A joined sequence holds what either part holds.
proof fn lemma_concat_contains<A>(a: Seq<A>, b: Seq<A>, x: A)
    ensures
        (a + b).contains(x) <==> a.contains(x) || b.contains(x),
{
    if a.contains(x) {
        let i = choose|i: int| 0 <= i < a.len() && a[i] == x;
        assert((a + b)[i] == x);
    }
    if b.contains(x) {
        let i = choose|i: int| 0 <= i < b.len() && b[i] == x;
        assert((a + b)[a.len() + i] == x);
    }
    if (a + b).contains(x) {
        let i = choose|i: int| 0 <= i < (a + b).len() && (a + b)[i] == x;
        if i < a.len() {
            assert(a[i] == x);
        } else {
            assert(b[i - a.len()] == x);
        }
    }
}

/// Parts without repeats that share nothing join without repeats.
proof fn lemma_concat_no_dup<A>(a: Seq<A>, b: Seq<A>)
    requires
        a.no_duplicates(),
        b.no_duplicates(),
        forall|x: A| a.contains(x) ==> !b.contains(x),
    ensures
        (a + b).no_duplicates(),
{
    let c = a + b;
    assert forall|i: int, j: int| 0 <= i < c.len() && 0 <= j < c.len() && i != j implies c[i] != c[j] by {
        if i < a.len() && j >= a.len() {
            assert(a.contains(c[i]));
            assert(b.contains(c[j]));
        } else if j < a.len() && i >= a.len() {
            assert(a.contains(c[j]));
            assert(b.contains(c[i]));
        }
    }
}

/// What the walks from entries `k..` of node `n` report is what follows `p` under them.
proof fn lemma_walk_entries_mem(ns: Seq<TrieNode>, ds: Seq<(char, usize)>, n: usize, k: int, p: Seq<char>)
    requires
        trie_wf(ns, ds),
        n < ns.len(),
        0 <= k <= entries(ns, ds, n as int).len(),
    ensures
        forall|x: Seq<char>| #[trigger] walk_entries(ns, ds, n, k, p).contains(x) <==> under_entries(ns, ds, n, k, p, x),
        walk_entries(ns, ds, n, k, p).no_duplicates(),
        forall|x: Seq<char>| #[trigger] walk_entries(ns, ds, n, k, p).contains(x) ==> x.len() > p.len() && x.subrange(0, p.len() as int) == p,
    decreases ns.len() - n, entries(ns, ds, n as int).len() - k + 1,
{
    let es = entries(ns, ds, n as int);
    if k == es.len() {
        assert forall|x: Seq<char>| #[trigger] walk_entries(ns, ds, n, k, p).contains(x) <==> under_entries(ns, ds, n, k, p, x) by {}
    } else {
        let (c, m) = es[k];
        assert(n < m < ns.len());
        lemma_walk_mem(ns, ds, m, p.push(c));
        lemma_walk_entries_mem(ns, ds, n, k + 1, p);
        let a = walk(ns, ds, m, p.push(c));
        let b = walk_entries(ns, ds, n, k + 1, p);
        assert(walk_entries(ns, ds, n, k, p) == a + b);
        assert forall|x: Seq<char>| #[trigger] walk_entries(ns, ds, n, k, p).contains(x) <==> under_entries(ns, ds, n, k, p, x) by {
            lemma_concat_contains(a, b, x);
            if under_entries(ns, ds, n, k, p, x) {
                let j = choose|j: int| k <= j < es.len() && #[trigger] under(ns, ds, es[j].1, p.push(es[j].0), x);
                if j > k {
                    assert(under_entries(ns, ds, n, k + 1, p, x));
                }
            }
            if a.contains(x) {
                assert(under(ns, ds, es[k].1, p.push(es[k].0), x));
            }
            if b.contains(x) {
                let j = choose|j: int| k + 1 <= j < es.len() && #[trigger] under(ns, ds, es[j].1, p.push(es[j].0), x);
            }
        }
        assert forall|x: Seq<char>| #[trigger] walk_entries(ns, ds, n, k, p).contains(x) implies x.len() > p.len() && x.subrange(0, p.len() as int) == p by {
            lemma_concat_contains(a, b, x);
            if a.contains(x) {
                lemma_under_prefix(ns, ds, m, p.push(c), x);
                assert(x.subrange(0, p.len() as int) =~= x.subrange(0, p.len() as int + 1).subrange(0, p.len() as int));
            }
        }
        assert forall|x: Seq<char>| a.contains(x) implies !b.contains(x) by {
            lemma_under_prefix(ns, ds, m, p.push(c), x);
            assert(x.subrange(0, p.len() as int + 1)[p.len() as int] == c);
            if b.contains(x) {
                let j = choose|j: int| k + 1 <= j < es.len() && #[trigger] under(ns, ds, es[j].1, p.push(es[j].0), x);
                lemma_under_prefix(ns, ds, es[j].1, p.push(es[j].0), x);
                assert(x.subrange(0, p.len() as int + 1)[p.len() as int] == es[j].0);
                assert(distinct_keys(es));
                assert(es[k].0 != es[j].0);
            }
        }
        lemma_concat_no_dup(a, b);
    }
}

/// What a walk from node `n` reports is what follows `p` under it, each once.
proof fn lemma_walk_mem(ns: Seq<TrieNode>, ds: Seq<(char, usize)>, n: usize, p: Seq<char>)
    requires
        trie_wf(ns, ds),
        n < ns.len(),
    ensures
        forall|x: Seq<char>| #[trigger] walk(ns, ds, n, p).contains(x) <==> under(ns, ds, n, p, x),
        walk(ns, ds, n, p).no_duplicates(),
    decreases ns.len() - n, entries(ns, ds, n as int).len() + 2,
{
    lemma_walk_entries_mem(ns, ds, n, 0, p);
    let head: Seq<Seq<char>> = if ns[n as int].is_terminal { seq![p] } else { Seq::empty() };
    let b = walk_entries(ns, ds, n, 0, p);
    assert(walk(ns, ds, n, p) == head + b);
    assert forall|x: Seq<char>| #[trigger] walk(ns, ds, n, p).contains(x) <==> under(ns, ds, n, p, x) by {
        lemma_concat_contains(head, b, x);
        lemma_under_step(ns, ds, n, p, x);
        if head.contains(x) {
            assert(x == p);
        }
        if ns[n as int].is_terminal && x == p {
            assert(head[0] == x);
        }
    }
    assert forall|x: Seq<char>| head.contains(x) implies !b.contains(x) by {
        assert(x == p);
    }
    lemma_concat_no_dup(head, b);
}

/// What a walk from a node's children reports is each word under the node that goes on past
/// it, after `prefix`, each once.
proof fn lemma_walk_reports_words(ns: Seq<TrieNode>, ds: Seq<(char, usize)>, n: usize, prefix: Seq<char>)
    requires
        trie_wf(ns, ds),
        n < ns.len(),
    ensures
        forall|x: Seq<char>| #[trigger] walk_entries(ns, ds, n, 0, prefix).contains(x) <==> x.len() > prefix.len()
            && under(ns, ds, n, prefix, x),
        walk_entries(ns, ds, n, 0, prefix).no_duplicates(),
{
    lemma_walk_entries_mem(ns, ds, n, 0, prefix);
    assert forall|x: Seq<char>| #[trigger] walk_entries(ns, ds, n, 0, prefix).contains(x) <==> x.len() > prefix.len()
        && under(ns, ds, n, prefix, x) by {
        lemma_under_step(ns, ds, n, prefix, x);
    }
}

/// Appends to `out` what a walk from node `index` reports, each after `prefix`.
fn traverse_at_node(nodes: &Vec<TrieNode>, data: &Vec<(char, usize)>, index: usize, prefix: String, out: &mut Vec<String>)
    requires
        trie_wf(nodes@, data@),
        index < nodes@.len(),
    ensures
        string_views(final(out)@) == string_views(old(out)@) + walk(nodes@, data@, index, prefix@),
    decreases nodes@.len() - index,
{
    let ghost ns = nodes@;
    let ghost ds = data@;
    let ghost out0 = string_views(out@);
    let ghost es = entries(ns, ds, index as int);
    let node = nodes[index];
    assert(ns[index as int].start + ns[index as int].capacity <= ds.len());
    let data_len = data.len();
    if node.is_terminal {
        let ghost before = out@;
        out.push(prefix.clone());
        proof {
            assert(string_views(out@) =~= string_views(before).push(prefix@));
        }
    }
    let ghost head = string_views(out@);
    proof {
        assert(head =~= out0 + (if node.is_terminal { seq![prefix@] } else { Seq::<Seq<char>>::empty() }));
    }
    let mut j: usize = 0;
    while j < node.len
        invariant
            ns == nodes@,
            ds == data@,
            trie_wf(ns, ds),
            index < ns.len(),
            node == ns[index as int],
            es == entries(ns, ds, index as int),
            es.len() == node.len,
            node.start + node.len <= data_len,
            data_len == ds.len(),
            j <= node.len,
            string_views(out@) + walk_entries(ns, ds, index, j as int, prefix@) == head + walk_entries(
                ns,
                ds,
                index,
                0,
                prefix@,
            ),
        decreases node.len - j,
    {
        let (c, child) = data[node.start + j];
        assert((c, child) == es[j as int]);
        assert(index < child < ns.len());
        let mut new_prefix = prefix.clone();
        push_char(&mut new_prefix, c);
        let ghost before = string_views(out@);
        traverse_at_node(nodes, data, child, new_prefix, out);
        proof {
            lemma_walk_entries_step(ns, ds, index, j as int, prefix@);
            assert(string_views(out@) + walk_entries(ns, ds, index, j + 1, prefix@) =~= before
                + walk_entries(ns, ds, index, j as int, prefix@));
        }
        j = j + 1;
    }
    proof {
        assert(walk_entries(ns, ds, index, j as int, prefix@) =~= Seq::<Seq<char>>::empty());
        assert(string_views(out@) =~= out0 + walk(ns, ds, index, prefix@));
    }
}

/// The words under a node are its own, where it is marked, and those under each child after
/// the child's key.
proof fn lemma_words_by_entries(ns: Seq<TrieNode>, ds: Seq<(char, usize)>, n: usize)
    requires
        trie_wf(ns, ds),
        n < ns.len(),
    ensures
        is_word_from(ns, ds, n, Seq::<char>::empty()) == ns[n as int].is_terminal,
        forall|w: Seq<char>| w.len() > 0 ==> (#[trigger] is_word_from(ns, ds, n, w) <==> exists|k: int|
            0 <= k < entries(ns, ds, n as int).len() && entries(ns, ds, n as int)[k].0 == w[0]
                && is_word_from(ns, ds, entries(ns, ds, n as int)[k].1, w.drop_first())),
        forall|k: int, w: Seq<char>| 0 <= k < entries(ns, ds, n as int).len() ==> (#[trigger] is_word_from(
            ns,
            ds,
            n,
            seq![entries(ns, ds, n as int)[k].0] + w,
        ) <==> is_word_from(ns, ds, entries(ns, ds, n as int)[k].1, w)),
{
    reveal(is_word_from);
    let es = entries(ns, ds, n as int);
    assert(distinct_keys(es));
    assert forall|w: Seq<char>| w.len() > 0 implies (#[trigger] is_word_from(ns, ds, n, w) <==> exists|k: int|
        0 <= k < es.len() && es[k].0 == w[0] && is_word_from(ns, ds, es[k].1, w.drop_first())) by {
        lemma_child_of_entry(es, w[0]);
        if child_of(es, w[0]) is Some {
            let k = choose|j: int| 0 <= j < es.len() && es[j] == (w[0], child_of(es, w[0])->0);
            lemma_child_of_unique(es, k);
            if exists|k2: int| 0 <= k2 < es.len() && es[k2].0 == w[0] && is_word_from(ns, ds, es[k2].1, w.drop_first()) {
                let k2 = choose|k2: int| 0 <= k2 < es.len() && es[k2].0 == w[0] && is_word_from(ns, ds, es[k2].1, w.drop_first());
                lemma_child_of_unique(es, k2);
            }
        }
    }
    assert forall|k: int, w: Seq<char>| 0 <= k < es.len() implies (#[trigger] is_word_from(
        ns,
        ds,
        n,
        seq![es[k].0] + w,
    ) <==> is_word_from(ns, ds, es[k].1, w)) by {
        let v = seq![es[k].0] + w;
        assert(v[0] == es[k].0);
        assert(v.drop_first() =~= w);
        lemma_child_of_unique(es, k);
    }
}

/// Whether `x` is a word that starts with `prefix` and goes on past it.
pub open spec fn extends(words: Set<Seq<char>>, prefix: Seq<char>, x: Seq<char>) -> bool {
    words.contains(x) && prefix.len() < x.len() && x.subrange(0, prefix.len() as int) == prefix
}

/// What the walk from the node a prefix leads to reports are the words that extend it.
proof fn lemma_walk_is_extensions(ns: Seq<TrieNode>, ds: Seq<(char, usize)>, index: usize, prefix: Seq<char>)
    requires
        trie_wf(ns, ds),
        ns.len() > 0,
        node_at(ns, ds, 0, prefix) == Some(index),
    ensures
        forall|x: Seq<char>| #[trigger] walk_entries(ns, ds, index, 0, prefix).contains(x) <==> extends(
            words_of(ns, ds),
            prefix,
            x,
        ),
        walk_entries(ns, ds, index, 0, prefix).no_duplicates(),
{
    lemma_node_at_bound(ns, ds, 0, prefix);
    lemma_walk_reports_words(ns, ds, index, prefix);
    assert forall|x: Seq<char>| #[trigger] walk_entries(ns, ds, index, 0, prefix).contains(x) <==> extends(
        words_of(ns, ds),
        prefix,
        x,
    ) by {
        reveal(is_word_from);
        if extends(words_of(ns, ds), prefix, x) {
            let v = x.subrange(prefix.len() as int, x.len() as int);
            assert(x =~= prefix + v);
            lemma_node_at_append(ns, ds, 0, prefix, v);
            assert(is_word_from(ns, ds, index, v));
        }
        if x.len() > prefix.len() && under(ns, ds, index, prefix, x) {
            let w = choose|w: Seq<char>| #[trigger] is_word_from(ns, ds, index, w) && x == prefix + w;
            lemma_node_at_append(ns, ds, 0, prefix, w);
            assert(x.subrange(0, prefix.len() as int) =~= prefix);
        }
    }
}

/// Where a prefix leads nowhere, no word extends it.
proof fn lemma_no_extensions(ns: Seq<TrieNode>, ds: Seq<(char, usize)>, prefix: Seq<char>, x: Seq<char>)
    requires
        node_at(ns, ds, 0, prefix) is None,
    ensures
        !extends(words_of(ns, ds), prefix, x),
{
    reveal(is_word_from);
    if x.len() > prefix.len() && x.subrange(0, prefix.len() as int) == prefix {
        let v = x.subrange(prefix.len() as int, x.len() as int);
        assert(x =~= prefix + v);
        lemma_node_at_append(ns, ds, 0, prefix, v);
    }
}

/// The node that `prefix` leads to from the root, if any.
fn find_node(nodes: &Vec<TrieNode>, data: &Vec<(char, usize)>, prefix: &str) -> (r: Option<usize>)
    requires
        trie_wf(nodes@, data@),
        nodes@.len() > 0,
    ensures
        r == node_at(nodes@, data@, 0, prefix@),
        r matches Some(n) ==> n < nodes@.len(),
{
    let ghost ns = nodes@;
    let ghost ds = data@;
    let data_len = data.len();
    let mut chars = prefix.chars();
    let mut index: usize = 0;
    let ghost mut k: int = 0;
    proof {
        broadcast use vstd::string::axiom_spec_iter, vstd::string::next_postcondition;
        assert(prefix@.take(0) =~= Seq::<char>::empty());
    }
    loop
        invariant
            ns == nodes@,
            ds == data@,
            data_len == ds.len(),
            trie_wf(ns, ds),
            ns.len() > 0,
            0 <= k <= prefix@.len(),
            chars.remaining() == prefix@.skip(k),
            index < ns.len(),
            node_at(ns, ds, 0, prefix@.take(k)) == Some(index),
        decreases prefix@.len() - k,
    {
        proof {
            broadcast use vstd::string::axiom_spec_iter, vstd::string::next_postcondition;
        }
        let ghost rest = prefix@.skip(k);
        match chars.next() {
            Some(c) => {
                assert(rest.len() > 0 && rest[0] == c);
                let node = nodes[index];
                let ghost es = entries(ns, ds, index as int);
                assert(ns[index as int].start + ns[index as int].capacity <= ds.len());
                let mut j: usize = 0;
                let mut found: Option<usize> = None;
                while j < node.len
                    invariant_except_break
                        found is None,
                    invariant
                        node == ns[index as int],
                        ds == data@,
                        trie_wf(ns, ds),
                        index < ns.len(),
                        es == entries(ns, ds, index as int),
                        es.len() == node.len,
                        node.start + node.len <= data_len,
                        data_len == ds.len(),
                        j <= node.len,
                        forall|i: int| 0 <= i < j ==> (#[trigger] es[i]).0 != c,
                    ensures
                        found matches Some(m) ==> child_of(es, c) == Some(m),
                        found is None ==> child_of(es, c) is None,
                    decreases node.len - j,
                {
                    let (key, child) = data[node.start + j];
                    assert((key, child) == es[j as int]);
                    if key == c {
                        proof {
                            assert(distinct_keys(es));
                            lemma_child_of_unique(es, j as int);
                        }
                        found = Some(child);
                        break;
                    }
                    j = j + 1;
                }
                proof {
                    lemma_child_of_entry(es, c);
                    assert(prefix@.take(k + 1) =~= prefix@.take(k) + seq![c]);
                    lemma_node_at_append(ns, ds, 0, prefix@.take(k), seq![c]);
                    reveal_with_fuel(node_at, 2);
                    assert(seq![c].drop_first() =~= Seq::<char>::empty());
                }
                match found {
                    Some(m) => {
                        proof {
                            let jj = choose|jj: int| 0 <= jj < es.len() && es[jj] == (c, m);
                            assert(index < es[jj].1 < ns.len());
                            assert(prefix@.skip(k + 1) =~= rest.drop_first());
                            k = k + 1;
                        }
                        index = m;
                    },
                    None => {
                        proof {
                            let pre = prefix@.take(k + 1);
                            assert(prefix@ =~= pre + prefix@.skip(k + 1));
                            lemma_node_at_append(ns, ds, 0, pre, prefix@.skip(k + 1));
                        }
                        return None;
                    },
                }
            },
            None => {
                proof {
                    assert(rest.len() == 0);
                    assert(prefix@.take(k) =~= prefix@);
                }
                return Some(index);
            },
        }
    }
}

impl Trie {
    /// The words that start with `prefix` and go on past it, each once: those under the
    /// node `prefix` leads to, child by child in the order they were first put in.
    pub fn traverse(&self, prefix: &str) -> (r: Vec<String>)
        requires
            self.has_root(),
        ensures
            forall|x: Seq<char>| #[trigger] string_views(r@).contains(x) <==> extends(self@, prefix@, x),
            string_views(r@).no_duplicates(),
    {
        proof { use_type_invariant(self); }
        let ghost ns = self.nodes@;
        let ghost ds = self.data@;
        let mut result: Vec<String> = Vec::new();
        let index = match find_node(&self.nodes, &self.data, prefix) {
            Some(index) => index,
            None => {
                proof {
                    assert forall|x: Seq<char>| #[trigger] string_views(result@).contains(x) <==> extends(self@, prefix@, x) by {
                        lemma_no_extensions(ns, ds, prefix@, x);
                    }
                    assert(string_views(result@) =~= Seq::<Seq<char>>::empty());
                }
                return result;
            },
        };
        let data_len = self.data.len();
        let node = self.nodes[index];
        let ghost es = entries(ns, ds, index as int);
        assert(ns[index as int].start + ns[index as int].capacity <= ds.len());
        proof {
            assert(string_views(result@) =~= Seq::<Seq<char>>::empty());
        }
        let mut j: usize = 0;
        while j < node.len
            invariant
                ns == self.nodes@,
                ds == self.data@,
                trie_wf(ns, ds),
                index < ns.len(),
                node == ns[index as int],
                es == entries(ns, ds, index as int),
                es.len() == node.len,
                node.start + node.len <= data_len,
                data_len == ds.len(),
                j <= node.len,
                string_views(result@) + walk_entries(ns, ds, index, j as int, prefix@) == walk_entries(
                    ns,
                    ds,
                    index,
                    0,
                    prefix@,
                ),
            decreases node.len - j,
        {
            let (c, child) = self.data[node.start + j];
            assert((c, child) == es[j as int]);
            assert(index < child < ns.len());
            let mut new_prefix = super::strs::string_from(prefix);
            push_char(&mut new_prefix, c);
            let ghost before = string_views(result@);
            traverse_at_node(&self.nodes, &self.data, child, new_prefix, &mut result);
            proof {
                lemma_walk_entries_step(ns, ds, index, j as int, prefix@);
                assert(string_views(result@) + walk_entries(ns, ds, index, j + 1, prefix@) =~= before
                    + walk_entries(ns, ds, index, j as int, prefix@));
            }
            j = j + 1;
        }
        proof {
            assert(walk_entries(ns, ds, index, j as int, prefix@) =~= Seq::<Seq<char>>::empty());
            assert(string_views(result@) =~= walk_entries(ns, ds, index, 0, prefix@));
            lemma_walk_is_extensions(ns, ds, index, prefix@);
        }
        result
    }
}

} // verus!
