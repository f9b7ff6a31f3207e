//! Array-mapped trie: a persistent sparse map over the whole `usize` key space,
//! with a staging form for batches of edits.
use std::sync::Arc;
use vstd::prelude::*;

use crate::bitset::{
    digit_of, lemma_mask_clear, lemma_mask_widen, lemma_rank_mono, lemma_rank_step, lemma_set_top_bit,
    lemma_some_bit, low_mask, popcount, Bitset, Index32, MAX_DEPTH,
};

verus! {

/// Relies on `Arc::clone`: the new handle points at the same value.
#[verifier::external_body]
fn share<X>(a: &Arc<X>) -> (r: Arc<X>)
    ensures
        r == *a,
{
    a.clone()
}

/// A frozen subtree: one entry, or a bitmap of digits with one child each,
/// stored densely in ascending digit order.
#[derive(Debug)]
enum Node<T> {
    Leaf { index: usize, value: T },
    Internal { bitset: Bitset, nodes: Vec<Arc<Node<T>>> },
}

/// A subtree being edited: nothing yet, a frozen subtree shared as it is, or
/// (digit, subtree) pairs in strictly ascending digit order.
#[derive(Debug)]
enum NodeMut<T> {
    Empty,
    Frozen(Arc<Node<T>>),
    Growing(Vec<(Index32, NodeMut<T>)>),
}

/// Array-mapped trie: an immutable map from `usize` keys to values. Updates
/// return a new map that shares every untouched subtree with this one.
#[derive(Debug, Clone)]
pub struct Trie<T> {
    root: Option<Arc<Node<T>>>,
    length: usize,
}

/// A map being edited in a batch; `into_trie` freezes it into a `Trie`.
#[derive(Debug)]
pub struct TrieMut<T> {
    root: NodeMut<T>,
    length: usize,
}

impl<T> View for Trie<T> {
    type V = Map<usize, T>;

    closed spec fn view(&self) -> Map<usize, T> {
        Map::new(|k: usize| opt_get(self.root, 0, k) is Some, |k: usize| opt_get(self.root, 0, k)->0)
    }
}

impl<T> View for TrieMut<T> {
    type V = Map<usize, T>;

    closed spec fn view(&self) -> Map<usize, T> {
        Map::new(|k: usize| mut_get(self.root, 0, k) is Some, |k: usize| mut_get(self.root, 0, k)->0)
    }
}

impl<T> Trie<T> {
    /// The trie is well formed and its cached length is its number of keys.
    pub closed spec fn wf(&self) -> bool {
        &&& opt_wf(self.root, 0)
        &&& self@.dom().finite()
        &&& self.length == self@.len()
    }
}

impl<T> Trie<T> {
    /// Number of children of the root when it is an internal node; 0 when the
    /// map is empty or its root is a single leaf.
    pub closed spec fn spec_root_width(&self) -> nat {
        match self.root {
            Some(a) => match *a {
                Node::Internal { nodes, .. } => nodes@.len(),
                Node::Leaf { .. } => 0,
            },
            None => 0,
        }
    }
}

impl<T> TrieMut<T> {
    /// The staged trie is well formed and its count is its number of keys.
    pub closed spec fn wf(&self) -> bool {
        &&& mut_wf(self.root, 0)
        &&& self@.dom().finite()
        &&& self.length == self@.len()
    }
}

/// The map after storing each entry of `entries` in order.
pub open spec fn updated_all<T>(m: Map<usize, T>, entries: Seq<(usize, T)>) -> Map<usize, T>
    decreases entries.len(),
{
    if entries.len() == 0 {
        m
    } else {
        updated_all(m, entries.drop_last()).insert(entries.last().0, entries.last().1)
    }
}

/// The map after removing each key of `keys` in order.
pub open spec fn removed_all<T>(m: Map<usize, T>, keys: Seq<usize>) -> Map<usize, T>
    decreases keys.len(),
{
    if keys.len() == 0 {
        m
    } else {
        removed_all(m, keys.drop_last()).remove(keys.last())
    }
}

/// Whether digit `d` of an internal node leads to a stored child.
spec fn has_child<T>(bitset: Bitset, nodes: Seq<Arc<Node<T>>>, d: nat) -> bool {
    d < 32 && bitset.has(d) && bitset.rank(d) < nodes.len()
}

/// What the subtree `n`, standing at depth `depth`, holds for `k`.
spec fn node_get<T>(n: Node<T>, depth: nat, k: usize) -> Option<T>
    decreases 13 - depth,
{
    match n {
        Node::Leaf { index, value } => if index == k {
            Some(value)
        } else {
            None
        },
        Node::Internal { bitset, nodes } => {
            let d = digit_of(k, depth) as nat;
            if depth < 13 && has_child(bitset, nodes@, d) {
                node_get(*nodes@[bitset.rank(d) as int], depth + 1, k)
            } else {
                None
            }
        },
    }
}

/// Every key stored in `n` (at depth `depth`) has digit `d` at depth `j`.
spec fn keys_digit<T>(n: Node<T>, depth: nat, j: nat, d: usize) -> bool
    decreases 13 - depth,
{
    match n {
        Node::Leaf { index, .. } => digit_of(index, j) == d,
        Node::Internal { bitset, nodes } => depth < 13 && forall|e: nat|
            #[trigger] has_child(bitset, nodes@, e) ==> keys_digit(
                *nodes@[bitset.rank(e) as int],
                depth + 1,
                j,
                d,
            ),
    }
}

/// The subtree `n` at depth `depth` is well formed: internal nodes stand above
/// the last level and each child holds only keys with its own digit.
spec fn node_wf<T>(n: Node<T>, depth: nat) -> bool
    decreases 13 - depth,
{
    match n {
        Node::Leaf { .. } => depth <= 13,
        Node::Internal { bitset, nodes } => depth < 13 && nodes@.len() == popcount(bitset.0)
            && nodes@.len() > 0 && forall|e: nat|
            #[trigger] has_child(bitset, nodes@, e) ==> {
                &&& node_wf(*nodes@[bitset.rank(e) as int], depth + 1)
                &&& keys_digit(*nodes@[bitset.rank(e) as int], depth + 1, depth, e as usize)
            },
    }
}

/// The pairs of a growing node are in strictly ascending digit order, each
/// digit in `0..32`.
spec fn pairs_sorted<T>(pairs: Seq<(Index32, NodeMut<T>)>) -> bool {
    &&& forall|i: int| 0 <= i < pairs.len() ==> (#[trigger] pairs[i]).0.0 < 32
    &&& forall|i: int, j: int| 0 <= i < j < pairs.len() ==> (#[trigger] pairs[i]).0.0 < (#[trigger] pairs[j]).0.0
}

/// Whether some pair of `pairs` has digit `d`.
spec fn has_pair<T>(pairs: Seq<(Index32, NodeMut<T>)>, d: usize) -> bool {
    exists|i: int| 0 <= i < pairs.len() && (#[trigger] pairs[i]).0.0 == d
}

/// The position of the pair with digit `d`, when `has_pair(pairs, d)`.
spec fn pair_pos<T>(pairs: Seq<(Index32, NodeMut<T>)>, d: usize) -> int {
    choose|i: int| 0 <= i < pairs.len() && (#[trigger] pairs[i]).0.0 == d
}

/// What the staged subtree `m`, standing at depth `depth`, holds for `k`.
spec fn mut_get<T>(m: NodeMut<T>, depth: nat, k: usize) -> Option<T>
    decreases 13 - depth,
{
    match m {
        NodeMut::Empty => None,
        NodeMut::Frozen(a) => node_get(*a, depth, k),
        NodeMut::Growing(pairs) => {
            let d = digit_of(k, depth);
            if depth < 13 && has_pair(pairs@, d) {
                mut_get(pairs@[pair_pos(pairs@, d)].1, depth + 1, k)
            } else {
                None
            }
        },
    }
}

/// Every key stored in `m` (at depth `depth`) has digit `d` at depth `j`.
spec fn mut_keys_digit<T>(m: NodeMut<T>, depth: nat, j: nat, d: usize) -> bool
    decreases 13 - depth,
{
    match m {
        NodeMut::Empty => true,
        NodeMut::Frozen(a) => keys_digit(*a, depth, j, d),
        NodeMut::Growing(pairs) => depth < 13 && forall|i: int|
            0 <= i < pairs@.len() ==> mut_keys_digit(#[trigger] pairs@[i].1, depth + 1, j, d),
    }
}

/// The staged subtree `m` at depth `depth` is well formed.
spec fn mut_wf<T>(m: NodeMut<T>, depth: nat) -> bool
    decreases 13 - depth,
{
    match m {
        NodeMut::Empty => depth <= 13,
        NodeMut::Frozen(a) => node_wf(*a, depth),
        NodeMut::Growing(pairs) => {
            &&& depth < 13
            &&& pairs_sorted(pairs@)
            &&& forall|i: int|
                0 <= i < pairs@.len() ==> {
                    &&& mut_wf(#[trigger] pairs@[i].1, depth + 1)
                    &&& mut_keys_digit(pairs@[i].1, depth + 1, depth, pairs@[i].0.0)
                    &&& !(pairs@[i].1 is Empty)
                }
        },
    }
}

/// After a removal, a growing node keeps two or more pairs, or a single pair
/// whose subtree is not a leaf: a lone leaf is lifted into its parent's place.
spec fn collapsed<T>(m: NodeMut<T>) -> bool {
    match m {
        NodeMut::Growing(pairs) => pairs@.len() >= 2 || (pairs@.len() == 1 && !is_frozen_leaf(pairs@[0].1)),
        _ => true,
    }
}

/// `m` is one that removing `index` at depth `depth` leaves as it is, without
/// thawing: empty, a leaf of another key, or a frozen internal node with no
/// child at the digit of `index`.
spec fn untouched_by_remove<T>(m: NodeMut<T>, depth: nat, index: usize) -> bool {
    match m {
        NodeMut::Empty => true,
        NodeMut::Frozen(a) => match *a {
            Node::Leaf { index: key, .. } => key != index,
            Node::Internal { bitset, .. } => depth >= 13 || !bitset.has(digit_of(index, depth) as nat),
        },
        NodeMut::Growing(_) => false,
    }
}

/// The keys of `m` agree with `k` on every digit above depth `depth`.
spec fn mut_agrees<T>(m: NodeMut<T>, depth: nat, k: usize) -> bool {
    forall|j: nat| j < depth ==> #[trigger] mut_keys_digit(m, depth, j, digit_of(k, j))
}

/// In sorted pairs, the pair with a given digit is the only one.
proof fn lemma_pair_pos<T>(pairs: Seq<(Index32, NodeMut<T>)>, i: int)
    requires
        pairs_sorted(pairs),
        0 <= i < pairs.len(),
    ensures
        has_pair(pairs, pairs[i].0.0),
        pair_pos(pairs, pairs[i].0.0) == i,
{
    let d = pairs[i].0.0;
    assert(has_pair(pairs, d));
    let c = pair_pos(pairs, d);
    if c < i {
        assert(pairs[c].0.0 < pairs[i].0.0);
    } else if c > i {
        assert(pairs[i].0.0 < pairs[c].0.0);
    }
}

/// A child of a well-formed internal node is well formed and holds only keys
/// with its own digit.
proof fn lemma_child_wf<T>(n: Node<T>, depth: nat, e: nat)
    requires
        node_wf(n, depth),
        n is Internal,
        has_child(n->bitset, n->nodes@, e),
    ensures
        node_wf(*n->nodes@[n->bitset.rank(e) as int], depth + 1),
        keys_digit(*n->nodes@[n->bitset.rank(e) as int], depth + 1, depth, e as usize),
{
}

/// What an optional frozen subtree holds for `k`.
spec fn opt_get<T>(r: Option<Arc<Node<T>>>, depth: nat, k: usize) -> Option<T> {
    match r {
        None => None,
        Some(a) => node_get(*a, depth, k),
    }
}

/// An optional frozen subtree is well formed.
spec fn opt_wf<T>(r: Option<Arc<Node<T>>>, depth: nat) -> bool {
    match r {
        None => true,
        Some(a) => node_wf(*a, depth),
    }
}

/// Every key of an optional frozen subtree has digit `d` at depth `j`.
spec fn opt_keys_digit<T>(r: Option<Arc<Node<T>>>, depth: nat, j: nat, d: usize) -> bool {
    match r {
        None => true,
        Some(a) => keys_digit(*a, depth, j, d),
    }
}

/// The digit of the next pair to freeze, or 32 when all are frozen.
spec fn bound<T>(pairs: Seq<(Index32, NodeMut<T>)>, i: int) -> nat {
    if 0 <= i < pairs.len() {
        pairs[i].0.0 as nat
    } else {
        32
    }
}

/// No pair of sorted `pairs` has a digit strictly between that of pair `i`
/// and the next bound.
proof fn lemma_no_pair_between<T>(pairs: Seq<(Index32, NodeMut<T>)>, i: int, d: usize)
    requires
        pairs_sorted(pairs),
        0 <= i < pairs.len(),
        pairs[i].0.0 < d,
        (d as nat) < bound(pairs, i + 1),
    ensures
        !has_pair(pairs, d),
{
    if has_pair(pairs, d) {
        let c = pair_pos(pairs, d);
        if c <= i {
            if c < i {
                assert(pairs[c].0.0 < pairs[i].0.0);
            }
        } else {
            if c > i + 1 {
                assert(pairs[i + 1].0.0 < pairs[c].0.0);
            }
        }
    }
}

/// Whether `m` is a frozen leaf.
spec fn is_frozen_leaf<T>(m: NodeMut<T>) -> bool {
    match m {
        NodeMut::Frozen(a) => *a is Leaf,
        _ => false,
    }
}

/// Replacing the subtree of pair `i` of a growing node by `new_child`.
proof fn lemma_replace_pair<T>(old_node: NodeMut<T>, g: NodeMut<T>, i: int, new_child: NodeMut<T>, depth: nat)
    requires
        old_node is Growing,
        g is Growing,
        mut_wf(old_node, depth),
        0 <= i < old_node->Growing_0@.len(),
        g->Growing_0@ == old_node->Growing_0@.update(i, (old_node->Growing_0@[i].0, new_child)),
        mut_wf(new_child, depth + 1),
        !(new_child is Empty),
        mut_keys_digit(new_child, depth + 1, depth, old_node->Growing_0@[i].0.0),
    ensures
        mut_wf(g, depth),
        forall|k: usize| digit_of(k, depth) == old_node->Growing_0@[i].0.0 ==> mut_get(old_node, depth, k)
            == mut_get(old_node->Growing_0@[i].1, depth + 1, k),
        forall|k: usize| #[trigger] mut_get(g, depth, k) == if digit_of(k, depth) == old_node->Growing_0@[i].0.0 {
            mut_get(new_child, depth + 1, k)
        } else {
            mut_get(old_node, depth, k)
        },
        forall|j: nat, e: usize| mut_keys_digit(old_node, depth, j, e) && mut_keys_digit(new_child, depth + 1, j, e)
            ==> #[trigger] mut_keys_digit(g, depth, j, e),
{
    let old_pairs = old_node->Growing_0@;
    let pairs = g->Growing_0@;
    let dd = old_pairs[i].0.0;
    lemma_pair_pos(old_pairs, i);
    lemma_pair_pos(pairs, i);
    assert(pairs_sorted(pairs)) by {
        assert forall|a: int, b: int| 0 <= a < b < pairs.len() implies (#[trigger] pairs[a]).0.0 < (#[trigger] pairs[b]).0.0 by {
            assert(old_pairs[a].0.0 < old_pairs[b].0.0);
        }
    }
    assert(mut_wf(g, depth));
    assert forall|j: nat, e: usize| mut_keys_digit(old_node, depth, j, e) && mut_keys_digit(new_child, depth + 1, j, e)
        implies #[trigger] mut_keys_digit(g, depth, j, e) by {
        assert forall|c: int| 0 <= c < pairs.len() implies mut_keys_digit(#[trigger] pairs[c].1, depth + 1, j, e) by {
            assert(mut_keys_digit(old_pairs[c].1, depth + 1, j, e));
        }
    }
    assert forall|k: usize| #[trigger] mut_get(g, depth, k) == if digit_of(k, depth) == dd {
        mut_get(new_child, depth + 1, k)
    } else {
        mut_get(old_node, depth, k)
    } by {
        let dk = digit_of(k, depth);
        if dk != dd {
            if has_pair(pairs, dk) {
                let c = pair_pos(pairs, dk);
                lemma_pair_pos(old_pairs, c);
            }
            if has_pair(old_pairs, dk) {
                let c = pair_pos(old_pairs, dk);
                lemma_pair_pos(pairs, c);
            }
        }
    }
}

/// Inserting a new pair `(d, new_child)` at position `i` of a growing node
/// that has no pair with digit `d`.
proof fn lemma_insert_pair<T>(old_node: NodeMut<T>, g: NodeMut<T>, i: int, d: Index32, new_child: NodeMut<T>, depth: nat)
    requires
        old_node is Growing,
        g is Growing,
        mut_wf(old_node, depth),
        d.wf(),
        0 <= i <= old_node->Growing_0@.len(),
        forall|j: int| 0 <= j < i ==> (#[trigger] old_node->Growing_0@[j]).0.0 < d.0,
        forall|j: int| i <= j < old_node->Growing_0@.len() ==> (#[trigger] old_node->Growing_0@[j]).0.0 > d.0,
        g->Growing_0@ == old_node->Growing_0@.insert(i, (d, new_child)),
        mut_wf(new_child, depth + 1),
        !(new_child is Empty),
        mut_keys_digit(new_child, depth + 1, depth, d.0),
    ensures
        mut_wf(g, depth),
        forall|k: usize| #[trigger] mut_get(g, depth, k) == if digit_of(k, depth) == d.0 {
            mut_get(new_child, depth + 1, k)
        } else {
            mut_get(old_node, depth, k)
        },
        forall|k: usize| digit_of(k, depth) == d.0 ==> #[trigger] mut_get(old_node, depth, k) is None,
        forall|j: nat, e: usize| mut_keys_digit(old_node, depth, j, e) && mut_keys_digit(new_child, depth + 1, j, e)
            ==> #[trigger] mut_keys_digit(g, depth, j, e),
{
    let old_pairs = old_node->Growing_0@;
    let pairs = g->Growing_0@;
    assert forall|c: int| 0 <= c < pairs.len() && c != i implies #[trigger] pairs[c] == old_pairs[if c < i { c } else { c - 1 }] by {
    }
    assert(pairs_sorted(pairs)) by {
        assert forall|a: int, b: int| 0 <= a < b < pairs.len() implies (#[trigger] pairs[a]).0.0 < (#[trigger] pairs[b]).0.0 by {
            if a != i && b != i {
                let a2 = if a < i { a } else { a - 1 };
                let b2 = if b < i { b } else { b - 1 };
                assert(pairs[a] == old_pairs[a2]);
                assert(pairs[b] == old_pairs[b2]);
            } else if a == i {
                assert(pairs[b] == old_pairs[b - 1]);
            } else {
                assert(pairs[a] == old_pairs[a]);
            }
        }
    }
    assert forall|c: int| 0 <= c < pairs.len() implies {
        &&& mut_wf(#[trigger] pairs[c].1, depth + 1)
        &&& mut_keys_digit(pairs[c].1, depth + 1, depth, pairs[c].0.0)
    } by {
        if c != i {
            let c2 = if c < i { c } else { c - 1 };
            assert(pairs[c] == old_pairs[c2]);
        }
    }
    assert(mut_wf(g, depth));
    lemma_pair_pos(pairs, i);
    assert(!has_pair(old_pairs, d.0)) by {
        if has_pair(old_pairs, d.0) {
            let c = pair_pos(old_pairs, d.0);
            assert(old_pairs[c].0.0 != d.0);
        }
    }
    assert forall|j: nat, e: usize| mut_keys_digit(old_node, depth, j, e) && mut_keys_digit(new_child, depth + 1, j, e)
        implies #[trigger] mut_keys_digit(g, depth, j, e) by {
        assert forall|c: int| 0 <= c < pairs.len() implies mut_keys_digit(#[trigger] pairs[c].1, depth + 1, j, e) by {
            if c != i {
                let c2 = if c < i { c } else { c - 1 };
                assert(pairs[c] == old_pairs[c2]);
                assert(mut_keys_digit(old_pairs[c2].1, depth + 1, j, e));
            }
        }
    }
    assert forall|k: usize| #[trigger] mut_get(g, depth, k) == if digit_of(k, depth) == d.0 {
        mut_get(new_child, depth + 1, k)
    } else {
        mut_get(old_node, depth, k)
    } by {
        let dk = digit_of(k, depth);
        if dk != d.0 {
            if has_pair(pairs, dk) {
                let c = pair_pos(pairs, dk);
                let c2 = if c < i { c } else { c - 1 };
                assert(pairs[c] == old_pairs[c2]);
                lemma_pair_pos(old_pairs, c2);
            }
            if has_pair(old_pairs, dk) {
                let c = pair_pos(old_pairs, dk);
                let c2 = if c < i { c } else { c + 1 };
                assert(pairs[c2] == old_pairs[c]);
                lemma_pair_pos(pairs, c2);
            }
        }
    }
}

/// Dropping pair `i` of a growing node.
proof fn lemma_drop_pair<T>(old_node: NodeMut<T>, g: NodeMut<T>, i: int, depth: nat)
    requires
        old_node is Growing,
        g is Growing,
        mut_wf(old_node, depth),
        0 <= i < old_node->Growing_0@.len(),
        g->Growing_0@ == old_node->Growing_0@.remove(i),
    ensures
        mut_wf(g, depth),
        forall|k: usize| digit_of(k, depth) == old_node->Growing_0@[i].0.0 ==> mut_get(old_node, depth, k)
            == mut_get(old_node->Growing_0@[i].1, depth + 1, k),
        forall|k: usize| #[trigger] mut_get(g, depth, k) == if digit_of(k, depth) == old_node->Growing_0@[i].0.0 {
            None
        } else {
            mut_get(old_node, depth, k)
        },
        forall|j: nat, e: usize| mut_keys_digit(old_node, depth, j, e) ==> #[trigger] mut_keys_digit(g, depth, j, e),
{
    let old_pairs = old_node->Growing_0@;
    let pairs = g->Growing_0@;
    let dd = old_pairs[i].0.0;
    lemma_pair_pos(old_pairs, i);
    assert forall|c: int| 0 <= c < pairs.len() implies #[trigger] pairs[c] == old_pairs[if c < i { c } else { c + 1 }] by {
    }
    assert(pairs_sorted(pairs)) by {
        assert forall|a: int, b: int| 0 <= a < b < pairs.len() implies (#[trigger] pairs[a]).0.0 < (#[trigger] pairs[b]).0.0 by {
            let a2 = if a < i { a } else { a + 1 };
            let b2 = if b < i { b } else { b + 1 };
            assert(pairs[a] == old_pairs[a2]);
            assert(pairs[b] == old_pairs[b2]);
        }
    }
    assert forall|c: int| 0 <= c < pairs.len() implies {
        &&& mut_wf(#[trigger] pairs[c].1, depth + 1)
        &&& mut_keys_digit(pairs[c].1, depth + 1, depth, pairs[c].0.0)
    } by {
        let c2 = if c < i { c } else { c + 1 };
        assert(pairs[c] == old_pairs[c2]);
    }
    assert(mut_wf(g, depth));
    assert forall|j: nat, e: usize| mut_keys_digit(old_node, depth, j, e) implies #[trigger] mut_keys_digit(g, depth, j, e) by {
        assert forall|c: int| 0 <= c < pairs.len() implies mut_keys_digit(#[trigger] pairs[c].1, depth + 1, j, e) by {
            let c2 = if c < i { c } else { c + 1 };
            assert(pairs[c] == old_pairs[c2]);
            assert(mut_keys_digit(old_pairs[c2].1, depth + 1, j, e));
        }
    }
    assert forall|k: usize| #[trigger] mut_get(g, depth, k) == if digit_of(k, depth) == dd {
        None
    } else {
        mut_get(old_node, depth, k)
    } by {
        let dk = digit_of(k, depth);
        if has_pair(pairs, dk) {
            let c = pair_pos(pairs, dk);
            let c2 = if c < i { c } else { c + 1 };
            assert(pairs[c] == old_pairs[c2]);
            lemma_pair_pos(old_pairs, c2);
        }
        if dk != dd && has_pair(old_pairs, dk) {
            let c = pair_pos(old_pairs, dk);
            if c < i {
                assert(pairs[c] == old_pairs[c]);
                lemma_pair_pos(pairs, c);
            } else {
                assert(pairs[c - 1] == old_pairs[c]);
                lemma_pair_pos(pairs, c - 1);
            }
        }
    }
}

/// The node behind a shared handle.
spec fn node_of<T>(a: Arc<Node<T>>) -> Node<T> {
    *a
}

/// A key found in a subtree whose keys all have digit `d` at depth `j` has
/// that digit.
proof fn lemma_keys_digit_get<T>(n: Node<T>, depth: nat, j: nat, d: usize, k: usize)
    requires
        keys_digit(n, depth, j, d),
        node_get(n, depth, k) is Some,
    ensures
        digit_of(k, j) == d,
    decreases 13 - depth,
{
    match n {
        Node::Leaf { .. } => {},
        Node::Internal { bitset, nodes } => {
            let e = digit_of(k, depth) as nat;
            assert(has_child(bitset, nodes@, e));
            lemma_keys_digit_get(node_of(nodes@[bitset.rank(e) as int]), depth + 1, j, d, k);
        },
    }
}

/// A well-formed frozen subtree holds at least one key.
proof fn lemma_node_nonempty<T>(n: Node<T>, depth: nat) -> (k: usize)
    requires
        node_wf(n, depth),
    ensures
        node_get(n, depth, k) is Some,
    decreases 13 - depth,
{
    match n {
        Node::Leaf { index, .. } => index,
        Node::Internal { bitset, nodes } => {
            lemma_rank_step(bitset.0, 0);
            let e = lemma_some_bit(bitset.0, 32);
            lemma_rank_mono(bitset.0, e, 32);
            assert(has_child(bitset, nodes@, e));
            let child = node_of(nodes@[bitset.rank(e) as int]);
            let k = lemma_node_nonempty(child, depth + 1);
            lemma_keys_digit_get(child, depth + 1, depth, e as usize, k);
            k
        },
    }
}

/// A digit is a key's digit.
proof fn lemma_digit_range(k: usize, depth: nat)
    requires
        depth < 13,
    ensures
        digit_of(k, depth) < 32,
{
    let x = k as u64;
    let s = (5 * depth) as u64;
    assert((x >> s) & 31u64 < 32u64) by (bit_vector);
}

/// The keys of `n` agree with `k` on every digit above depth `depth`.
spec fn node_agrees<T>(n: Node<T>, depth: nat, k: usize) -> bool {
    forall|j: nat| j < depth ==> #[trigger] keys_digit(n, depth, j, digit_of(k, j))
}

proof fn lemma_digit_bits(a: usize, b: usize, j: nat)
    requires
        j < 13,
        digit_of(a, j) == digit_of(b, j),
    ensures
        ((a as u64) >> ((5 * j) as u64)) & 31u64 == ((b as u64) >> ((5 * j) as u64)) & 31u64,
{
    let x = a as u64;
    let y = b as u64;
    let s = (5 * j) as u64;
    assert((x >> s) & 31u64 < 32u64) by (bit_vector);
    assert((y >> s) & 31u64 < 32u64) by (bit_vector);
}

/// Two keys that agree on all thirteen digits are equal.
proof fn lemma_digits_determine_key(a: usize, b: usize)
    requires
        forall|j: nat| j < 13 ==> #[trigger] digit_of(a, j) == digit_of(b, j),
    ensures
        a == b,
{
    let x = a as u64;
    let y = b as u64;
    lemma_digit_bits(a, b, 0);
    lemma_digit_bits(a, b, 1);
    lemma_digit_bits(a, b, 2);
    lemma_digit_bits(a, b, 3);
    lemma_digit_bits(a, b, 4);
    lemma_digit_bits(a, b, 5);
    lemma_digit_bits(a, b, 6);
    lemma_digit_bits(a, b, 7);
    lemma_digit_bits(a, b, 8);
    lemma_digit_bits(a, b, 9);
    lemma_digit_bits(a, b, 10);
    lemma_digit_bits(a, b, 11);
    lemma_digit_bits(a, b, 12);
    assert(x == y) by (bit_vector)
        requires
            (x >> 0u64) & 31u64 == (y >> 0u64) & 31u64,
            (x >> 5u64) & 31u64 == (y >> 5u64) & 31u64,
            (x >> 10u64) & 31u64 == (y >> 10u64) & 31u64,
            (x >> 15u64) & 31u64 == (y >> 15u64) & 31u64,
            (x >> 20u64) & 31u64 == (y >> 20u64) & 31u64,
            (x >> 25u64) & 31u64 == (y >> 25u64) & 31u64,
            (x >> 30u64) & 31u64 == (y >> 30u64) & 31u64,
            (x >> 35u64) & 31u64 == (y >> 35u64) & 31u64,
            (x >> 40u64) & 31u64 == (y >> 40u64) & 31u64,
            (x >> 45u64) & 31u64 == (y >> 45u64) & 31u64,
            (x >> 50u64) & 31u64 == (y >> 50u64) & 31u64,
            (x >> 55u64) & 31u64 == (y >> 55u64) & 31u64,
            (x >> 60u64) & 31u64 == (y >> 60u64) & 31u64,
    ;
}

impl<T: Clone> Node<T> {
    /// The key of a leaf, or `None` for an internal node.
    fn leaf_index(&self) -> (r: Option<usize>)
        ensures
            r is Some == self is Leaf,
            r matches Some(k) ==> k == self->Leaf_index,
    {
        match self {
            Node::Leaf { index, .. } => Some(*index),
            Node::Internal { .. } => None,
        }
    }

    /// A clone of the value of a leaf.
    fn leaf_value(&self) -> (r: T)
        requires
            self is Leaf,
        ensures
            cloned(self->Leaf_value, r),
    {
        match self {
            Node::Leaf { value, .. } => value.clone(),
            Node::Internal { .. } => vstd::pervasive::unreached(),
        }
    }

    /// Whether this internal node has a child at digit `d`.
    fn has_digit(&self, d: Index32) -> (r: bool)
        requires
            self is Internal,
            d.wf(),
        ensures
            r == self->bitset.has(d.0 as nat),
    {
        match self {
            Node::Internal { bitset, .. } => bitset.get(d),
            Node::Leaf { .. } => vstd::pervasive::unreached(),
        }
    }

    /// Whether a value is stored for `index`, looked up from depth `depth`.
    fn contains(&self, depth: usize, index: usize) -> (r: bool)
        requires
            depth <= 13,
        ensures
            r == node_get(*self, depth as nat, index) is Some,
        decreases 13 - depth,
    {
        match self {
            Node::Leaf { index: key, .. } => *key == index,
            Node::Internal { bitset, nodes } => {
                if depth >= MAX_DEPTH {
                    return false;
                }
                let d = Index32::convert(index, depth);
                match bitset.packed_index(d) {
                    None => false,
                    Some(i) => {
                        if i < nodes.len() {
                            nodes[i].contains(depth + 1, index)
                        } else {
                            false
                        }
                    },
                }
            },
        }
    }

    /// The smallest key at or after `start` that this root holds no value
    /// for, or `None` when every such key is taken.
    fn next_empty(&self, start: usize) -> (r: Option<usize>)
        ensures
            r matches Some(x) ==> {
                &&& start <= x
                &&& node_get(*self, 0, x) is None
                &&& forall|y: usize| start <= y < x ==> #[trigger] node_get(*self, 0, y) is Some
            },
            r is None ==> forall|y: usize| start <= y ==> #[trigger] node_get(*self, 0, y) is Some,
    {
        let mut x = start;
        loop
            invariant
                start <= x,
                forall|y: usize| start <= y < x ==> #[trigger] node_get(*self, 0, y) is Some,
            decreases usize::MAX - x,
        {
            if !self.contains(0, x) {
                return Some(x);
            }
            if x == usize::MAX {
                return None;
            }
            x = x + 1;
        }
    }

    /// Number of children of an internal node; 0 for a leaf.
    fn width(&self) -> (r: usize)
        ensures
            r == match *self {
                Node::Internal { nodes, .. } => nodes@.len(),
                Node::Leaf { .. } => 0,
            },
    {
        match self {
            Node::Internal { nodes, .. } => nodes.len(),
            Node::Leaf { .. } => 0,
        }
    }

    /// The growing pairs standing for this internal node.
    fn thaw_internal(&self, depth: usize) -> (pairs: Vec<(Index32, NodeMut<T>)>)
        requires
            self is Internal,
            node_wf(*self, depth as nat),
        ensures
            mut_wf(NodeMut::Growing(pairs), depth as nat),
            forall|k: usize| #[trigger] mut_get(NodeMut::Growing(pairs), depth as nat, k)
                == node_get(*self, depth as nat, k),
            forall|j: nat, d: usize| keys_digit(*self, depth as nat, j, d)
                ==> #[trigger] mut_keys_digit(NodeMut::Growing(pairs), depth as nat, j, d),
    {
        match self {
            Node::Internal { bitset, nodes } => NodeMut::thaw(*bitset, nodes, depth),
            Node::Leaf { .. } => vstd::pervasive::unreached(),
        }
    }

    /// The value stored for `index`, looked up from depth `depth`.
    fn get(&self, depth: usize, index: usize) -> (r: Option<T>)
        requires
            depth <= 13,
        ensures
            r is Some == node_get(*self, depth as nat, index) is Some,
            r matches Some(v) ==> cloned(node_get(*self, depth as nat, index)->0, v),
        decreases 13 - depth,
    {
        match self {
            Node::Leaf { index: key, value } => {
                if *key == index {
                    Some(value.clone())
                } else {
                    None
                }
            },
            Node::Internal { bitset, nodes } => {
                if depth >= MAX_DEPTH {
                    return None;
                }
                let d = Index32::convert(index, depth);
                match bitset.packed_index(d) {
                    None => None,
                    Some(i) => {
                        if i < nodes.len() {
                            nodes[i].get(depth + 1, index)
                        } else {
                            None
                        }
                    },
                }
            },
        }
    }
}

/// Binary search of sorted pairs by digit: `Ok(i)` where pair `i` has digit
/// `d`, or `Err(i)` where a pair with digit `d` would go.
fn search<T>(pairs: &Vec<(Index32, NodeMut<T>)>, d: Index32) -> (r: Result<usize, usize>)
    requires
        pairs_sorted(pairs@),
    ensures
        r matches Ok(i) ==> i < pairs@.len() && pairs@[i as int].0.0 == d.0,
        r matches Err(i) ==> {
            &&& i <= pairs@.len()
            &&& forall|j: int| 0 <= j < i ==> (#[trigger] pairs@[j]).0.0 < d.0
            &&& forall|j: int| i <= j < pairs@.len() ==> (#[trigger] pairs@[j]).0.0 > d.0
        },
{
    let mut lo: usize = 0;
    let mut hi: usize = pairs.len();
    while lo < hi
        invariant
            pairs_sorted(pairs@),
            lo <= hi <= pairs@.len(),
            forall|j: int| 0 <= j < lo ==> (#[trigger] pairs@[j]).0.0 < d.0,
            forall|j: int| hi <= j < pairs@.len() ==> (#[trigger] pairs@[j]).0.0 > d.0,
        decreases hi - lo,
    {
        let mid = lo + (hi - lo) / 2;
        let m = pairs[mid].0.0;
        if m == d.0 {
            return Ok(mid);
        } else if m < d.0 {
            lo = mid + 1;
        } else {
            hi = mid;
        }
    }
    Err(lo)
}

impl<T: Clone> NodeMut<T> {
    /// The pairs of a growing node standing for the internal node
    /// `(bitset, nodes)`: each child shared as a frozen subtree.
    fn thaw(bitset: Bitset, nodes: &Vec<Arc<Node<T>>>, depth: usize) -> (pairs: Vec<(Index32, NodeMut<T>)>)
        requires
            node_wf(Node::Internal { bitset, nodes: *nodes }, depth as nat),
        ensures
            mut_wf(NodeMut::Growing(pairs), depth as nat),
            forall|k: usize| #[trigger] mut_get(NodeMut::Growing(pairs), depth as nat, k)
                == node_get(Node::Internal { bitset, nodes: *nodes }, depth as nat, k),
            forall|j: nat, d: usize| keys_digit(Node::Internal { bitset, nodes: *nodes }, depth as nat, j, d)
                ==> #[trigger] mut_keys_digit(NodeMut::Growing(pairs), depth as nat, j, d),
            pairs@.len() == nodes@.len(),
            forall|c: int| 0 <= c < pairs@.len() ==> {
                &&& bitset.has((#[trigger] pairs@[c]).0.0 as nat)
                &&& bitset.rank(pairs@[c].0.0 as nat) == c
                &&& pairs@[c].1 == NodeMut::Frozen(nodes@[c])
            },
    {
        let ghost n = Node::Internal { bitset, nodes: *nodes };
        let mut pairs: Vec<(Index32, NodeMut<T>)> = Vec::new();
        let mut e: usize = 0;
        proof {
            lemma_rank_step(bitset.0, 0);
        }
        while e < 32
            invariant
                node_wf(n, depth as nat),
                n == (Node::Internal { bitset, nodes: *nodes }),
                e <= 32,
                pairs_sorted(pairs@),
                forall|c: int| 0 <= c < pairs@.len() ==> (#[trigger] pairs@[c]).0.0 < e,
                forall|c: int| 0 <= c < pairs@.len() ==> {
                    &&& has_child(bitset, nodes@, (#[trigger] pairs@[c]).0.0 as nat)
                    &&& pairs@[c].1 == NodeMut::Frozen(nodes@[bitset.rank(pairs@[c].0.0 as nat) as int])
                },
                forall|f: nat| f < e && #[trigger] has_child(bitset, nodes@, f) ==> has_pair(pairs@, f as usize),
                pairs@.len() == bitset.rank(e as nat),
                nodes@.len() == popcount(bitset.0),
                forall|c: int| 0 <= c < pairs@.len() ==> {
                    &&& bitset.has((#[trigger] pairs@[c]).0.0 as nat)
                    &&& bitset.rank(pairs@[c].0.0 as nat) == c
                },
            decreases 32 - e,
        {
            let d = Index32::new(e);
            proof {
                lemma_rank_step(bitset.0, e as nat);
                lemma_rank_mono(bitset.0, e as nat, 32);
            }
            match bitset.packed_index(d) {
                Some(i) => {
                    if i < nodes.len() {
                        let child = share(&nodes[i]);
                        let ghost old_pairs = pairs@;
                        pairs.push((d, NodeMut::Frozen(child)));
                        proof {
                            let c = pairs@.len() - 1;
                            assert(pairs@[c].0.0 == e);
                            assert forall|f: nat| f < e + 1 && #[trigger] has_child(bitset, nodes@, f) implies has_pair(pairs@, f as usize) by {
                                if f < e {
                                    let w = pair_pos(old_pairs, f as usize);
                                    assert(pairs@[w] == old_pairs[w]);
                                } else {
                                    assert(pairs@[c].0.0 == f as usize);
                                }
                            }
                        }
                    } else {
                        proof {
                            assert forall|f: nat| f < e + 1 && #[trigger] has_child(bitset, nodes@, f) implies has_pair(pairs@, f as usize) by {
                                if f == e {
                                    assert(!has_child(bitset, nodes@, f));
                                }
                            }
                        }
                    }
                },
                None => {
                    proof {
                        assert forall|f: nat| f < e + 1 && #[trigger] has_child(bitset, nodes@, f) implies has_pair(pairs@, f as usize) by {
                            if f == e {
                                assert(!has_child(bitset, nodes@, f));
                            }
                        }
                    }
                },
            }
            e = e + 1;
        }
        proof {
            lemma_rank_step(bitset.0, 0);
            let g = NodeMut::Growing(pairs);
            assert forall|i: int| 0 <= i < pairs@.len() implies {
                &&& mut_wf(#[trigger] pairs@[i].1, depth as nat + 1)
                &&& mut_keys_digit(pairs@[i].1, depth as nat + 1, depth as nat, pairs@[i].0.0)
            } by {
                let f = pairs@[i].0.0 as nat;
                assert(has_child(bitset, nodes@, f));
                let r = bitset.rank(f) as int;
                assert(pairs@[i].1 == NodeMut::Frozen(nodes@[r]));
                assert(n->nodes@ == nodes@);
                lemma_child_wf(n, depth as nat, f);
                assert(keys_digit(*nodes@[r], depth as nat + 1, depth as nat, f as usize));
            }
            assert(mut_wf(g, depth as nat));
            assert forall|k: usize| #[trigger] mut_get(g, depth as nat, k) == node_get(n, depth as nat, k) by {
                let dk = digit_of(k, depth as nat);
                lemma_digit_range(k, depth as nat);
                if has_child(bitset, nodes@, dk as nat) {
                    assert(has_pair(pairs@, dk));
                    let c = pair_pos(pairs@, dk);
                    assert(pairs@[c].0.0 == dk);
                    let r = bitset.rank(dk as nat) as int;
                    assert(pairs@[c].1 == NodeMut::Frozen(nodes@[r]));
                    assert(mut_get(pairs@[c].1, depth as nat + 1, k) == node_get(*nodes@[r], depth as nat + 1, k));
                } else {
                    if has_pair(pairs@, dk) {
                        let c = pair_pos(pairs@, dk);
                        assert(has_child(bitset, nodes@, pairs@[c].0.0 as nat));
                    }
                }
            }
            assert forall|j: nat, d: usize| keys_digit(n, depth as nat, j, d)
                implies #[trigger] mut_keys_digit(g, depth as nat, j, d) by {
                assert forall|i: int| 0 <= i < pairs@.len() implies mut_keys_digit(#[trigger] pairs@[i].1, depth as nat + 1, j, d) by {
                    let f = pairs@[i].0.0 as nat;
                    assert(has_child(bitset, nodes@, f));
                    let r = bitset.rank(f) as int;
                    assert(pairs@[i].1 == NodeMut::Frozen(nodes@[r]));
                    assert(keys_digit(*nodes@[r], depth as nat + 1, j, d));
                }
            }
        }
        pairs
    }

    /// Stores `value` for `index` in the staged subtree `node` at depth
    /// `depth`; returns the new subtree and (a clone of) the value it replaced.
    fn insert_node(node: NodeMut<T>, depth: usize, index: usize, value: T) -> (r: (NodeMut<T>, Option<T>))
        requires
            depth <= 13,
            mut_wf(node, depth as nat),
            mut_agrees(node, depth as nat, index),
        ensures
            mut_wf(r.0, depth as nat),
            !(r.0 is Empty),
            forall|j: nat, d: usize| mut_keys_digit(node, depth as nat, j, d) && digit_of(index, j) == d
                ==> #[trigger] mut_keys_digit(r.0, depth as nat, j, d),
            forall|k: usize| #[trigger] mut_get(r.0, depth as nat, k)
                == if k == index { Some(value) } else { mut_get(node, depth as nat, k) },
            r.1 is Some == mut_get(node, depth as nat, index) is Some,
            r.1 matches Some(v) ==> cloned(mut_get(node, depth as nat, index)->0, v),
        decreases 13 - depth, 1usize,
    {
        match node {
            NodeMut::Empty => {
                let leaf = NodeMut::Frozen(Arc::new(Node::Leaf { index, value }));
                (leaf, None)
            },
            NodeMut::Frozen(a) => {
                let leaf_index = a.leaf_index();
                match leaf_index {
                    Some(key) => {
                        if key == index {
                            let prev = a.leaf_value();
                            let leaf = NodeMut::Frozen(Arc::new(Node::Leaf { index, value }));
                            (leaf, Some(prev))
                        } else {
                            if depth >= MAX_DEPTH {
                                proof {
                                    assert forall|j: nat| j < 13 implies #[trigger] digit_of(key, j) == digit_of(index, j) by {
                                        assert(mut_keys_digit(node, depth as nat, j, digit_of(index, j)));
                                    }
                                    lemma_digits_determine_key(key, index);
                                }
                                return (NodeMut::Frozen(a), None);
                            }
                            let d = Index32::convert(key, depth);
                            let ghost old_leaf = a;
                            let mut pairs: Vec<(Index32, NodeMut<T>)> = Vec::new();
                            pairs.push((d, NodeMut::Frozen(a)));
                            let ghost g = NodeMut::Growing(pairs);
                            proof {
                                assert(pairs@[0].0.0 == d.0);
                                lemma_pair_pos(pairs@, 0);
                                assert(mut_wf(pairs@[0].1, depth as nat + 1));
                                assert(mut_wf(g, depth as nat));
                                assert forall|j: nat| j < depth implies #[trigger] mut_keys_digit(g, depth as nat, j, digit_of(index, j)) by {
                                    assert(mut_keys_digit(node, depth as nat, j, digit_of(index, j)));
                                    assert(mut_keys_digit(pairs@[0].1, depth as nat + 1, j, digit_of(index, j)));
                                }
                                assert forall|k: usize| #[trigger] mut_get(g, depth as nat, k) == mut_get(node, depth as nat, k) by {
                                    if has_pair(pairs@, digit_of(k, depth as nat)) {
                                        assert(mut_get(pairs@[0].1, depth as nat + 1, k) == node_get(*old_leaf, depth as nat + 1, k));
                                    }
                                }
                                assert forall|j: nat, e: usize| mut_keys_digit(node, depth as nat, j, e)
                                    implies #[trigger] mut_keys_digit(g, depth as nat, j, e) by {
                                    assert(mut_keys_digit(pairs@[0].1, depth as nat + 1, j, e));
                                }
                            }
                            Self::insert_growing(pairs, depth, index, value)
                        }
                    },
                    None => {
                        if depth >= MAX_DEPTH {
                            return (NodeMut::Frozen(a), None);
                        }
                        let pairs = a.thaw_internal(depth);
                        proof {
                            assert forall|j: nat| j < depth implies #[trigger] mut_keys_digit(NodeMut::Growing(pairs), depth as nat, j, digit_of(index, j)) by {
                                assert(mut_keys_digit(node, depth as nat, j, digit_of(index, j)));
                            }
                        }
                        Self::insert_growing(pairs, depth, index, value)
                    },
                }
            },
            NodeMut::Growing(pairs) => Self::insert_growing(pairs, depth, index, value),
        }
    }

    /// `insert_node` on a growing node with pairs `pairs`.
    fn insert_growing(pairs: Vec<(Index32, NodeMut<T>)>, depth: usize, index: usize, value: T) -> (r: (NodeMut<T>, Option<T>))
        requires
            depth < 13,
            mut_wf(NodeMut::Growing(pairs), depth as nat),
            mut_agrees(NodeMut::Growing(pairs), depth as nat, index),
        ensures
            mut_wf(r.0, depth as nat),
            !(r.0 is Empty),
            forall|j: nat, d: usize| mut_keys_digit(NodeMut::Growing(pairs), depth as nat, j, d) && digit_of(index, j) == d
                ==> #[trigger] mut_keys_digit(r.0, depth as nat, j, d),
            forall|k: usize| #[trigger] mut_get(r.0, depth as nat, k)
                == if k == index { Some(value) } else { mut_get(NodeMut::Growing(pairs), depth as nat, k) },
            r.1 is Some == mut_get(NodeMut::Growing(pairs), depth as nat, index) is Some,
            r.1 matches Some(v) ==> cloned(mut_get(NodeMut::Growing(pairs), depth as nat, index)->0, v),
        decreases 13 - depth, 0usize,
    {
        let ghost old_node = NodeMut::Growing(pairs);
        let ghost old_pairs = pairs@;
        let mut pairs = pairs;
        let d = Index32::convert(index, depth);
        match search(&pairs, d) {
            Ok(i) => {
                let (dd, child) = pairs.remove(i);
                proof {
                    assert(child == old_pairs[i as int].1);
                    assert(mut_wf(child, depth as nat + 1));
                    assert forall|j: nat| j < depth + 1 implies #[trigger] mut_keys_digit(child, depth as nat + 1, j, digit_of(index, j)) by {
                        if j < depth {
                            assert(mut_keys_digit(old_node, depth as nat, j, digit_of(index, j)));
                        }
                    }
                }
                let (new_child, prev) = Self::insert_node(child, depth + 1, index, value);
                pairs.insert(i, (dd, new_child));
                let ghost g = NodeMut::Growing(pairs);
                proof {
                    assert(pairs@ == old_pairs.update(i as int, (dd, new_child)));
                    assert(mut_keys_digit(child, depth as nat + 1, depth as nat, dd.0));
                    lemma_replace_pair(old_node, g, i as int, new_child, depth as nat);
                    assert forall|j: nat, e: usize| mut_keys_digit(old_node, depth as nat, j, e) && digit_of(index, j) == e
                        implies #[trigger] mut_keys_digit(g, depth as nat, j, e) by {
                        assert(mut_keys_digit(child, depth as nat + 1, j, e));
                    }
                }
                (NodeMut::Growing(pairs), prev)
            },
            Err(i) => {
                let leaf = NodeMut::Frozen(Arc::new(Node::Leaf { index, value }));
                pairs.insert(i, (d, leaf));
                let ghost g = NodeMut::Growing(pairs);
                proof {
                    assert(pairs@ == old_pairs.insert(i as int, (d, leaf)));
                    lemma_insert_pair(old_node, g, i as int, d, leaf, depth as nat);
                    assert forall|j: nat, e: usize| mut_keys_digit(old_node, depth as nat, j, e) && digit_of(index, j) == e
                        implies #[trigger] mut_keys_digit(g, depth as nat, j, e) by {
                        assert(mut_keys_digit(leaf, depth as nat + 1, j, e));
                    }
                    assert forall|k: usize| #[trigger] mut_get(g, depth as nat, k)
                        == if k == index { Some(value) } else { mut_get(old_node, depth as nat, k) } by {
                        assert(mut_get(leaf, depth as nat + 1, k) == if k == index { Some(value) } else { None::<T> });
                    }
                }
                (NodeMut::Growing(pairs), None)
            },
        }
    }

    /// Whether this is a frozen leaf.
    fn is_frozen_leaf(&self) -> (r: bool)
        ensures
            r == is_frozen_leaf(*self),
    {
        match self {
            NodeMut::Frozen(a) => a.leaf_index().is_some(),
            _ => false,
        }
    }

    /// Removes `index` from the staged subtree `node` at depth `depth`; returns
    /// the new subtree and (a clone of) the value removed.
    fn remove_node(node: NodeMut<T>, depth: usize, index: usize) -> (r: (NodeMut<T>, Option<T>))
        requires
            depth <= 13,
            mut_wf(node, depth as nat),
        ensures
            mut_wf(r.0, depth as nat),
            untouched_by_remove(node, depth as nat, index) ==> r.0 == node,
            mut_get(node, depth as nat, index) is Some ==> collapsed(r.0),
            forall|j: nat, d: usize| mut_keys_digit(node, depth as nat, j, d)
                ==> #[trigger] mut_keys_digit(r.0, depth as nat, j, d),
            forall|k: usize| #[trigger] mut_get(r.0, depth as nat, k)
                == if k == index { None } else { mut_get(node, depth as nat, k) },
            r.1 is Some == mut_get(node, depth as nat, index) is Some,
            r.1 matches Some(v) ==> cloned(mut_get(node, depth as nat, index)->0, v),
        decreases 13 - depth, 1usize,
    {
        match node {
            NodeMut::Empty => (NodeMut::Empty, None),
            NodeMut::Frozen(a) => {
                match a.leaf_index() {
                    Some(key) => {
                        if key == index {
                            let prev = a.leaf_value();
                            (NodeMut::Empty, Some(prev))
                        } else {
                            (NodeMut::Frozen(a), None)
                        }
                    },
                    None => {
                        if depth >= MAX_DEPTH {
                            return (NodeMut::Frozen(a), None);
                        }
                        if !a.has_digit(Index32::convert(index, depth)) {
                            return (NodeMut::Frozen(a), None);
                        }
                        let pairs = a.thaw_internal(depth);
                        Self::remove_growing(pairs, depth, index)
                    },
                }
            },
            NodeMut::Growing(pairs) => Self::remove_growing(pairs, depth, index),
        }
    }

    /// `remove_node` on a growing node with pairs `pairs`. A pair left empty is
    /// dropped; a node left with one leaf becomes that leaf.
    fn remove_growing(pairs: Vec<(Index32, NodeMut<T>)>, depth: usize, index: usize) -> (r: (NodeMut<T>, Option<T>))
        requires
            depth < 13,
            mut_wf(NodeMut::Growing(pairs), depth as nat),
        ensures
            mut_wf(r.0, depth as nat),
            mut_get(NodeMut::Growing(pairs), depth as nat, index) is Some ==> collapsed(r.0),
            forall|j: nat, d: usize| mut_keys_digit(NodeMut::Growing(pairs), depth as nat, j, d)
                ==> #[trigger] mut_keys_digit(r.0, depth as nat, j, d),
            forall|k: usize| #[trigger] mut_get(r.0, depth as nat, k)
                == if k == index { None } else { mut_get(NodeMut::Growing(pairs), depth as nat, k) },
            r.1 is Some == mut_get(NodeMut::Growing(pairs), depth as nat, index) is Some,
            r.1 matches Some(v) ==> cloned(mut_get(NodeMut::Growing(pairs), depth as nat, index)->0, v),
        decreases 13 - depth, 0usize,
    {
        let ghost old_node = NodeMut::Growing(pairs);
        let ghost old_pairs = pairs@;
        let mut pairs = pairs;
        let d = Index32::convert(index, depth);
        let i = match search(&pairs, d) {
            Ok(i) => i,
            Err(i) => {
                proof {
                    assert(!has_pair(old_pairs, d.0)) by {
                        if has_pair(old_pairs, d.0) {
                            let c = pair_pos(old_pairs, d.0);
                            assert(old_pairs[c].0.0 != d.0);
                        }
                    }
                }
                return (NodeMut::Growing(pairs), None);
            },
        };
        let (dd, child) = pairs.remove(i);
        proof {
            lemma_pair_pos(old_pairs, i as int);
            assert(child == old_pairs[i as int].1);
        }
        let (new_child, prev) = Self::remove_node(child, depth + 1, index);
        let keep = match new_child {
            NodeMut::Empty => false,
            _ => true,
        };
        if keep {
            pairs.insert(i, (dd, new_child));
        }
        let ghost g = NodeMut::Growing(pairs);
        proof {
            if keep {
                assert(pairs@ == old_pairs.update(i as int, (dd, new_child)));
                assert(mut_keys_digit(child, depth as nat + 1, depth as nat, dd.0));
                lemma_replace_pair(old_node, g, i as int, new_child, depth as nat);
            } else {
                assert(pairs@ == old_pairs.remove(i as int));
                lemma_drop_pair(old_node, g, i as int, depth as nat);
            }
        }
        if pairs.len() == 0 {
            proof {
                assert forall|k: usize| #[trigger] mut_get(NodeMut::<T>::Empty, depth as nat, k) == mut_get(g, depth as nat, k) by {
                    assert(!has_pair(pairs@, digit_of(k, depth as nat)));
                }
            }
            return (NodeMut::Empty, prev);
        }
        if pairs.len() == 1 && pairs[0].1.is_frozen_leaf() {
            match pairs.pop() {
                Some((d0, only)) => {
                    proof {
                        assert(only == g->Growing_0@[0].1);
                        lemma_pair_pos(g->Growing_0@, 0);
                        let leaf = *only->Frozen_0;
                        assert(keys_digit(leaf, depth as nat + 1, depth as nat, d0.0));
                        assert forall|k: usize| #[trigger] mut_get(only, depth as nat, k) == mut_get(g, depth as nat, k) by {
                            assert(mut_get(only, depth as nat + 1, k) == node_get(leaf, depth as nat + 1, k));
                        }
                        assert forall|j: nat, e: usize| mut_keys_digit(g, depth as nat, j, e)
                            implies #[trigger] mut_keys_digit(only, depth as nat, j, e) by {
                            assert(mut_keys_digit(g->Growing_0@[0].1, depth as nat + 1, j, e));
                        }
                    }
                    return (only, prev);
                },
                None => {
                    return (NodeMut::Empty, prev);
                },
            }
        }
        (NodeMut::Growing(pairs), prev)
    }

    /// The frozen subtree holding what `node` holds: a frozen node is shared as
    /// it is, a growing node gets a new internal node over its frozen pairs.
    fn freeze(node: NodeMut<T>, depth: usize) -> (r: Option<Arc<Node<T>>>)
        requires
            depth <= 13,
            mut_wf(node, depth as nat),
        ensures
            opt_wf(r, depth as nat),
            forall|k: usize| #[trigger] opt_get(r, depth as nat, k) == mut_get(node, depth as nat, k),
            r is None <==> forall|k: usize| #[trigger] mut_get(node, depth as nat, k) is None,
            forall|j: nat, d: usize| mut_keys_digit(node, depth as nat, j, d)
                ==> #[trigger] opt_keys_digit(r, depth as nat, j, d),
        decreases 13 - depth, 1usize,
    {
        match node {
            NodeMut::Empty => None,
            NodeMut::Frozen(a) => {
                proof {
                    let k = lemma_node_nonempty(node_of(a), depth as nat);
                    assert(mut_get(node, depth as nat, k) is Some);
                }
                Some(a)
            },
            NodeMut::Growing(pairs) => Self::freeze_growing(pairs, depth),
        }
    }

    /// `freeze` on a growing node with pairs `pairs`.
    #[verifier::rlimit(80)]
    fn freeze_growing(pairs: Vec<(Index32, NodeMut<T>)>, depth: usize) -> (r: Option<Arc<Node<T>>>)
        requires
            depth < 13,
            mut_wf(NodeMut::Growing(pairs), depth as nat),
        ensures
            opt_wf(r, depth as nat),
            forall|k: usize| #[trigger] opt_get(r, depth as nat, k) == mut_get(NodeMut::Growing(pairs), depth as nat, k),
            r is None <==> forall|k: usize| #[trigger] mut_get(NodeMut::Growing(pairs), depth as nat, k) is None,
            forall|j: nat, d: usize| mut_keys_digit(NodeMut::Growing(pairs), depth as nat, j, d)
                ==> #[trigger] opt_keys_digit(r, depth as nat, j, d),
        decreases 13 - depth, 0usize,
    {
        let ghost old_node = NodeMut::Growing(pairs);
        let ghost orig = pairs@;
        let mut pairs = pairs;
        let mut bitset = Bitset::new();
        let mut nodes: Vec<Arc<Node<T>>> = Vec::new();
        let ghost mut i: int = 0;
        proof {
            let m0 = low_mask(bound(orig, 0));
            assert(0u32 & m0 == 0u32) by (bit_vector);
            assert(popcount(0u32) == 0);
        }
        while pairs.len() > 0
            invariant
                depth < 13,
                mut_wf(old_node, depth as nat),
                old_node is Growing,
                orig == old_node->Growing_0@,
                pairs_sorted(orig),
                0 <= i <= orig.len(),
                pairs@ == orig.subrange(i, orig.len() as int),
                bitset.0 & low_mask(bound(orig, i)) == bitset.0,
                popcount(bitset.0) == nodes@.len(),
                forall|e: nat| e < 32 && bitset.has(e) ==> #[trigger] has_child(bitset, nodes@, e),
                forall|e: nat| #[trigger] has_child(bitset, nodes@, e) ==> {
                    &&& node_wf(*nodes@[bitset.rank(e) as int], depth as nat + 1)
                    &&& keys_digit(*nodes@[bitset.rank(e) as int], depth as nat + 1, depth as nat, e as usize)
                },
                forall|e: nat, j: nat, d: usize| #[trigger] has_child(bitset, nodes@, e)
                    && mut_keys_digit(old_node, depth as nat, j, d)
                    ==> #[trigger] keys_digit(*nodes@[bitset.rank(e) as int], depth as nat + 1, j, d),
                forall|k: usize| digit_of(k, depth as nat) < bound(orig, i)
                    ==> #[trigger] node_get(Node::Internal { bitset, nodes }, depth as nat, k) == mut_get(old_node, depth as nat, k),
            decreases pairs@.len(),
        {
            let ghost before = Node::Internal { bitset, nodes };
            let ghost b0 = bitset;
            let ghost n0 = nodes@;
            let (d, child) = pairs.remove(0);
            proof {
                assert(pairs@ == orig.subrange(i + 1, orig.len() as int));
                assert(d == orig[i].0 && child == orig[i].1);
                lemma_pair_pos(orig, i);
                assert(mut_wf(child, depth as nat + 1));
            }
            let frozen = Self::freeze(child, depth + 1);
            let ghost dd = d.0 as nat;
            let ghost next = bound(orig, i + 1);
            proof {
                if i + 1 < orig.len() {
                    assert(orig[i].0.0 < orig[i + 1].0.0);
                }
                assert(dd < next);
                assert(dd == bound(orig, i));
            }
            match frozen {
                Some(a) => {
                    bitset.set(d);
                    nodes.push(a);
                    proof {
                        lemma_set_top_bit(b0.0, dd, next);
                        assert(nodes@[n0.len() as int] == a);
                        assert forall|e: nat| e < 32 && bitset.has(e) implies #[trigger] has_child(bitset, nodes@, e) by {
                            if e > dd {
                                lemma_mask_clear(b0.0, dd, e);
                            }
                            if e < dd {
                                assert(has_child(b0, n0, e));
                            }
                        }
                        assert forall|e: nat| #[trigger] has_child(bitset, nodes@, e) implies {
                            &&& node_wf(*nodes@[bitset.rank(e) as int], depth as nat + 1)
                            &&& keys_digit(*nodes@[bitset.rank(e) as int], depth as nat + 1, depth as nat, e as usize)
                        } by {
                            if e > dd {
                                lemma_mask_clear(b0.0, dd, e);
                            } else if e < dd {
                                assert(has_child(b0, n0, e));
                                assert(nodes@[bitset.rank(e) as int] == n0[b0.rank(e) as int]);
                            } else {
                                assert(mut_keys_digit(child, depth as nat + 1, depth as nat, d.0));
                                assert(opt_keys_digit(frozen, depth as nat + 1, depth as nat, d.0));
                            }
                        }
                        assert forall|e: nat, j: nat, x: usize| #[trigger] has_child(bitset, nodes@, e)
                            && mut_keys_digit(old_node, depth as nat, j, x)
                            implies #[trigger] keys_digit(*nodes@[bitset.rank(e) as int], depth as nat + 1, j, x) by {
                            if e > dd {
                                lemma_mask_clear(b0.0, dd, e);
                            } else if e < dd {
                                assert(has_child(b0, n0, e));
                                assert(nodes@[bitset.rank(e) as int] == n0[b0.rank(e) as int]);
                            } else {
                                assert(mut_keys_digit(orig[i].1, depth as nat + 1, j, x));
                                assert(opt_keys_digit(frozen, depth as nat + 1, j, x));
                            }
                        }
                        assert forall|k: usize| digit_of(k, depth as nat) < next
                            implies #[trigger] node_get(Node::Internal { bitset, nodes }, depth as nat, k) == mut_get(old_node, depth as nat, k) by {
                            let dk = digit_of(k, depth as nat) as nat;
                            if dk < dd {
                                assert(node_get(before, depth as nat, k) == mut_get(old_node, depth as nat, k));
                                if has_child(b0, n0, dk) {
                                    assert(nodes@[bitset.rank(dk) as int] == n0[b0.rank(dk) as int]);
                                }
                            } else if dk == dd {
                                assert(opt_get(frozen, depth as nat + 1, k) == mut_get(child, depth as nat + 1, k));
                            } else {
                                lemma_mask_clear(b0.0, dd, dk);
                                lemma_no_pair_between(orig, i, dk as usize);
                            }
                        }
                    }
                },
                None => {
                    proof {
                        lemma_mask_widen(b0.0, dd, next);
                        assert forall|k: usize| digit_of(k, depth as nat) < next
                            implies #[trigger] node_get(Node::Internal { bitset, nodes }, depth as nat, k) == mut_get(old_node, depth as nat, k) by {
                            let dk = digit_of(k, depth as nat) as nat;
                            if dk < dd {
                                assert(node_get(before, depth as nat, k) == mut_get(old_node, depth as nat, k));
                            } else if dk == dd {
                                lemma_mask_clear(b0.0, dd, dk);
                                assert(opt_get(frozen, depth as nat + 1, k) == mut_get(child, depth as nat + 1, k));
                            } else {
                                lemma_mask_clear(b0.0, dd, dk);
                                lemma_no_pair_between(orig, i, dk as usize);
                            }
                        }
                    }
                },
            }
            proof {
                i = i + 1;
            }
        }
        proof {
            assert(i == orig.len());
            assert forall|k: usize| #[trigger] node_get(Node::Internal { bitset, nodes }, depth as nat, k) == mut_get(old_node, depth as nat, k) by {
                lemma_digit_range(k, depth as nat);
            }
        }
        if nodes.len() == 0 {
            proof {
                assert forall|k: usize| #[trigger] mut_get(old_node, depth as nat, k) is None by {
                    assert(node_get(Node::Internal { bitset, nodes }, depth as nat, k) == mut_get(old_node, depth as nat, k));
                }
            }
            return None;
        }
        let ghost fresh = Node::Internal { bitset, nodes };
        let r = Some(Arc::new(Node::Internal { bitset, nodes }));
        proof {
            assert(node_wf(fresh, depth as nat));
            assert forall|j: nat, x: usize| mut_keys_digit(old_node, depth as nat, j, x)
                implies #[trigger] opt_keys_digit(r, depth as nat, j, x) by {
                assert forall|e: nat| #[trigger] has_child(bitset, nodes@, e) implies keys_digit(*nodes@[bitset.rank(e) as int], depth as nat + 1, j, x) by {
                }
                assert(keys_digit(fresh, depth as nat, j, x));
            }
            assert forall|k: usize| #[trigger] opt_get(r, depth as nat, k) == mut_get(old_node, depth as nat, k) by {
                assert(node_get(fresh, depth as nat, k) == mut_get(old_node, depth as nat, k));
            }
            let w = lemma_node_nonempty(fresh, depth as nat);
            assert(opt_get(r, depth as nat, w) == mut_get(old_node, depth as nat, w));
        }
        r
    }
}


impl<T: Clone> Trie<T> {
    /// The empty map.
    pub fn new() -> (r: Self)
        ensures
            r.wf(),
            r@ == Map::<usize, T>::empty(),
    {
        let r = Trie { root: None, length: 0 };
        proof {
            assert(r@ =~= Map::<usize, T>::empty());
        }
        r
    }

    /// The number of keys.
    pub fn len(&self) -> (r: usize)
        requires
            self.wf(),
        ensures
            r == self@.len(),
    {
        self.length
    }

    /// A clone of the value stored for `index`, if any.
    pub fn get(&self, index: usize) -> (r: Option<T>)
        ensures
            r is Some == self@.contains_key(index),
            r matches Some(v) ==> cloned(self@[index], v),
    {
        match &self.root {
            None => None,
            Some(node) => node.get(0, index),
        }
    }

    /// A staged copy of this map for a batch of edits; no subtree is copied.
    pub fn to_mut(&self) -> (r: TrieMut<T>)
        requires
            self.wf(),
        ensures
            r.wf(),
            r@ == self@,
    {
        let root = match &self.root {
            Some(node) => NodeMut::Frozen(share(node)),
            None => NodeMut::Empty,
        };
        let r = TrieMut { root, length: self.length };
        proof {
            assert(r@ =~= self@);
        }
        r
    }

    /// The map with each entry of `entries` stored in order, so that a later
    /// entry for a key wins over an earlier one.
    pub fn update_all(&self, entries: Vec<(usize, T)>) -> (r: Self)
        requires
            self.wf(),
            self@.len() + entries@.len() <= usize::MAX,
        ensures
            r.wf(),
            r@ == updated_all(self@, entries@),
    {
        let mut trie_mut = self.to_mut();
        trie_mut.insert_all(entries);
        trie_mut.into_trie()
    }

    /// Stores each entry of `entries` in order into this map.
    pub fn extend(&mut self, entries: Vec<(usize, T)>)
        requires
            old(self).wf(),
            old(self)@.len() + entries@.len() <= usize::MAX,
        ensures
            final(self).wf(),
            final(self)@ == updated_all(old(self)@, entries@),
    {
        let updated = self.update_all(entries);
        *self = updated;
    }

    /// The map holding `entries`, stored in order.
    pub fn from_entries(entries: Vec<(usize, T)>) -> (r: Self)
        ensures
            r.wf(),
            r@ == updated_all(Map::<usize, T>::empty(), entries@),
    {
        // Reading the length tells Verus that it fits in a `usize`.
        let _len = entries.len();
        let empty = Trie::new();
        empty.update_all(entries)
    }

    /// The map with `value` stored for `index`.
    pub fn update(&self, index: usize, value: T) -> (r: Self)
        requires
            self.wf(),
            self@.contains_key(index) || self@.len() < usize::MAX,
        ensures
            r.wf(),
            r@ == self@.insert(index, value),
    {
        let mut trie_mut = self.to_mut();
        trie_mut.insert(index, value);
        trie_mut.into_trie()
    }

    /// The map without any key of `indices`.
    pub fn remove_all(&self, indices: Vec<usize>) -> (r: Self)
        requires
            self.wf(),
        ensures
            r.wf(),
            r@ == removed_all(self@, indices@),
    {
        let mut trie_mut = self.to_mut();
        let mut i: usize = 0;
        while i < indices.len()
            invariant
                trie_mut.wf(),
                i <= indices@.len(),
                trie_mut@ == removed_all(self@, indices@.subrange(0, i as int)),
            decreases indices@.len() - i,
        {
            trie_mut.remove(indices[i]);
            proof {
                assert(indices@.subrange(0, i + 1).drop_last() == indices@.subrange(0, i as int));
            }
            i = i + 1;
        }
        proof {
            assert(indices@.subrange(0, indices@.len() as int) == indices@);
        }
        trie_mut.into_trie()
    }

    /// The smallest key at or after `start` with no value; when every such
    /// key is taken, the smallest key with no value; `None` when every key is
    /// taken.
    pub fn next_empty(&self, start: usize) -> (r: Option<usize>)
        ensures
            r matches Some(x) ==> {
                &&& !self@.contains_key(x)
                &&& start <= x ==> forall|y: usize| start <= y < x ==> #[trigger] self@.contains_key(y)
                &&& x < start ==> forall|y: usize| (start <= y || y < x) ==> #[trigger] self@.contains_key(y)
            },
            r is None ==> forall|y: usize| #[trigger] self@.contains_key(y),
    {
        match &self.root {
            None => Some(start),
            Some(node) => {
                match node.next_empty(start) {
                    Some(x) => Some(x),
                    None => {
                        let r = node.next_empty(0);
                        proof {
                            if let Some(x) = r {
                                if start <= x {
                                    assert(node_get(**node, 0, x) is Some);
                                }
                            }
                        }
                        r
                    },
                }
            },
        }
    }

    /// Number of children of the root when it is an internal node; 0 when the
    /// map is empty or its root is a single leaf.
    pub fn root_width(&self) -> (r: usize)
        ensures
            r == self.spec_root_width(),
    {
        match &self.root {
            None => 0,
            Some(node) => node.width(),
        }
    }

    /// The map without `index`.
    pub fn remove(&self, index: usize) -> (r: Self)
        requires
            self.wf(),
        ensures
            r.wf(),
            r@ == self@.remove(index),
    {
        let mut trie_mut = self.to_mut();
        trie_mut.remove(index);
        trie_mut.into_trie()
    }
}

impl<T: Clone> Default for Trie<T> {
    /// The empty map.
    fn default() -> (r: Self)
        ensures
            r.wf(),
            r@ == Map::<usize, T>::empty(),
    {
        Trie::new()
    }
}

impl<T: Clone> TrieMut<T> {
    /// The number of keys.
    pub fn len(&self) -> (r: usize)
        requires
            self.wf(),
        ensures
            r == self@.len(),
    {
        self.length
    }

    /// Stores `value` for `index`; returns a clone of the value it replaced.
    pub fn insert(&mut self, index: usize, value: T) -> (r: Option<T>)
        requires
            old(self).wf(),
            old(self)@.contains_key(index) || old(self)@.len() < usize::MAX,
        ensures
            final(self).wf(),
            final(self)@ == old(self)@.insert(index, value),
            r is Some == old(self)@.contains_key(index),
            r matches Some(v) ==> cloned(old(self)@[index], v),
    {
        let mut root = NodeMut::Empty;
        std::mem::swap(&mut root, &mut self.root);
        let (new_root, prev) = NodeMut::insert_node(root, 0, index, value);
        let ghost old_map = old(self)@;
        let length = if prev.is_some() {
            self.length
        } else {
            self.length + 1
        };
        *self = TrieMut { root: new_root, length };
        proof {
            assert(self@ =~= old_map.insert(index, value));
        }
        prev
    }

    /// Removes `index`; returns a clone of the value removed.
    pub fn remove(&mut self, index: usize) -> (r: Option<T>)
        requires
            old(self).wf(),
        ensures
            final(self).wf(),
            final(self)@ == old(self)@.remove(index),
            r is Some == old(self)@.contains_key(index),
            r matches Some(v) ==> cloned(old(self)@[index], v),
    {
        let mut root = NodeMut::Empty;
        std::mem::swap(&mut root, &mut self.root);
        let (new_root, prev) = NodeMut::remove_node(root, 0, index);
        let ghost old_map = old(self)@;
        let length = if prev.is_some() {
            self.length - 1
        } else {
            self.length
        };
        *self = TrieMut { root: new_root, length };
        proof {
            assert(self@ =~= old_map.remove(index));
        }
        prev
    }

    /// A staged map holding `entries`, stored in order.
    pub fn from_entries(entries: Vec<(usize, T)>) -> (r: Self)
        ensures
            r.wf(),
            r@ == updated_all(Map::<usize, T>::empty(), entries@),
    {
        // Reading the length tells Verus that it fits in a `usize`.
        let _len = entries.len();
        let empty = Trie::new();
        let mut staged = empty.to_mut();
        staged.insert_all(entries);
        staged
    }

    /// Stores each entry of `entries` in order.
    pub fn insert_all(&mut self, entries: Vec<(usize, T)>)
        requires
            old(self).wf(),
            old(self)@.len() + entries@.len() <= usize::MAX,
        ensures
            final(self).wf(),
            final(self)@ == updated_all(old(self)@, entries@),
    {
        let ghost start = self@;
        let ghost all = entries@;
        let mut entries = entries;
        let mut reversed: Vec<(usize, T)> = Vec::new();
        while entries.len() > 0
            invariant
                entries@.len() + reversed@.len() == all.len(),
                entries@ == all.subrange(0, entries@.len() as int),
                forall|c: int| 0 <= c < reversed@.len() ==> #[trigger] reversed@[c] == all[all.len() - 1 - c],
            decreases entries@.len(),
        {
            match entries.pop() {
                Some(entry) => reversed.push(entry),
                None => {},
            }
        }
        while reversed.len() > 0
            invariant
                self.wf(),
                reversed@.len() <= all.len(),
                forall|c: int| 0 <= c < reversed@.len() ==> #[trigger] reversed@[c] == all[all.len() - 1 - c],
                self@ == updated_all(start, all.subrange(0, all.len() - reversed@.len())),
                self@.len() <= start.len() + (all.len() - reversed@.len()),
                start.len() + all.len() <= usize::MAX,
            decreases reversed@.len(),
        {
            let ghost done = all.len() - reversed@.len();
            match reversed.pop() {
                Some(entry) => {
                    proof {
                        assert(entry == all[done]);
                        lemma_insert_len(self@, entry.0, entry.1);
                    }
                    self.insert(entry.0, entry.1);
                    proof {
                        assert(all.subrange(0, done + 1).drop_last() == all.subrange(0, done));
                    }
                },
                None => {},
            }
        }
        proof {
            assert(all.subrange(0, all.len() as int) == all);
        }
    }

    /// Freezes the staged map into a `Trie`, sharing every frozen subtree.
    pub fn into_trie(self) -> (r: Trie<T>)
        requires
            self.wf(),
        ensures
            r.wf(),
            r@ == self@,
    {
        let ghost staged = self@;
        let root = NodeMut::freeze(self.root, 0);
        let r = Trie { root, length: self.length };
        proof {
            assert(r@ =~= staged);
        }
        r
    }
}

/// Storing a key adds at most one to the size of a finite map.
proof fn lemma_insert_len<T>(m: Map<usize, T>, k: usize, v: T)
    requires
        m.dom().finite(),
    ensures
        m.insert(k, v).dom().finite(),
        m.insert(k, v).len() == if m.contains_key(k) { m.len() } else { m.len() + 1 },
{
    if m.contains_key(k) {
        assert(m.insert(k, v).dom() =~= m.dom());
    }
}


/// Reading a key right after storing `v` for it gives `v`.
pub proof fn lemma_get_update<T>(m: Trie<T>, k: usize, v: T)
    ensures
        m@.insert(k, v).contains_key(k),
        m@.insert(k, v)[k] == v,
{
}

/// A key stored and then removed is absent.
pub proof fn lemma_remove_update<T>(m: Trie<T>, k: usize, v: T)
    ensures
        !m@.insert(k, v).remove(k).contains_key(k),
{
}

/// Storing a value for one key leaves what every other key reads unchanged.
pub proof fn lemma_update_other<T>(m: Trie<T>, k1: usize, k2: usize, v: T)
    requires
        k1 != k2,
    ensures
        m@.insert(k1, v).contains_key(k2) == m@.contains_key(k2),
        m@.contains_key(k2) ==> m@.insert(k1, v)[k2] == m@[k2],
{
}

/// Storing a second value for the same key leaves the length unchanged.
pub proof fn lemma_update_twice_len<T>(m: Trie<T>, k: usize, v1: T, v2: T)
    requires
        m.wf(),
    ensures
        m@.insert(k, v1).insert(k, v2).len() == m@.insert(k, v1).len(),
{
    lemma_insert_len(m@, k, v1);
    lemma_insert_len(m@.insert(k, v1), k, v2);
}

/// The length counts the distinct keys: storing a new key adds one,
/// storing an existing key again or removing an absent key changes nothing,
/// and removing a present key takes one away.
pub proof fn lemma_len_accounting<T>(m: Trie<T>, k: usize, v: T)
    requires
        m.wf(),
    ensures
        m@.len() == m@.dom().len(),
        m@.insert(k, v).len() == if m@.contains_key(k) { m@.len() } else { m@.len() + 1 },
        m@.remove(k).len() == if m@.contains_key(k) { m@.len() - 1 } else { m@.len() as int },
{
    lemma_insert_len(m@, k, v);
    if !m@.contains_key(k) {
        assert(m@.remove(k).dom() =~= m@.dom());
    }
}

/// Storing a batch of entries is the same as storing them one at a time,
/// left to right.
pub proof fn lemma_update_all_fold<T>(m: Map<usize, T>, entries: Seq<(usize, T)>)
    ensures
        updated_all(m, entries) == entries.fold_left(m, |acc: Map<usize, T>, e: (usize, T)| acc.insert(e.0, e.1)),
    decreases entries.len(),
{
    if entries.len() > 0 {
        lemma_update_all_fold(m, entries.drop_last());
    }
}

/// In a batch, the last entry for a key decides its value.
pub proof fn lemma_update_all_last_wins<T>(m: Map<usize, T>, entries: Seq<(usize, T)>, i: int)
    requires
        0 <= i < entries.len(),
        forall|j: int| i < j < entries.len() ==> (#[trigger] entries[j]).0 != entries[i].0,
    ensures
        updated_all(m, entries).contains_key(entries[i].0),
        updated_all(m, entries)[entries[i].0] == entries[i].1,
    decreases entries.len(),
{
    if i < entries.len() - 1 {
        let prefix = entries.drop_last();
        assert forall|j: int| i < j < prefix.len() implies (#[trigger] prefix[j]).0 != prefix[i].0 by {
            assert(prefix[j] == entries[j]);
        }
        lemma_update_all_last_wins(m, prefix, i);
        assert(entries.last() == entries[entries.len() - 1]);
    }
}

/// Removing a batch of keys is the same as removing each key, left to right.
pub proof fn lemma_remove_all_keys<T>(m: Map<usize, T>, keys: Seq<usize>)
    ensures
        removed_all(m, keys) == m.remove_keys(keys.to_set()),
    decreases keys.len(),
{
    if keys.len() > 0 {
        lemma_remove_all_keys(m, keys.drop_last());
        assert(keys.to_set() =~= keys.drop_last().to_set().insert(keys.last())) by {
            assert forall|x: usize| keys.to_set().contains(x) implies keys.drop_last().to_set().insert(keys.last()).contains(x) by {
                let i = choose|i: int| 0 <= i < keys.len() && keys[i] == x;
                if i < keys.len() - 1 {
                    assert(keys.drop_last()[i] == x);
                }
            }
            assert forall|x: usize| keys.drop_last().to_set().insert(keys.last()).contains(x) implies keys.to_set().contains(x) by {
                if x != keys.last() {
                    let i = choose|i: int| 0 <= i < keys.drop_last().len() && keys.drop_last()[i] == x;
                    assert(keys[i] == x);
                } else {
                    assert(keys[keys.len() - 1] == x);
                }
            }
        }
        assert(removed_all(m, keys) =~= m.remove_keys(keys.to_set()));
    }
}

} // verus!
