//! Shape of the bounding-volume hierarchy.
//!
//! Scene objects are named by their index. For each axis, `keys[axis][item]`
//! is the position of the item when all items are ordered by the lower
//! corner of their bounding boxes along that axis, so ordering a node's items
//! by key is ordering them by box.

use crate::util::Axis;
use vstd::prelude::*;
use vstd::arithmetic::power2::{lemma2_to64, lemma_pow2_unfold, pow2};
use vstd::seq_lib::*;

verus! {

broadcast use {
    to_multiset_build,
    to_multiset_insert,
    to_multiset_contains,
    lemma_multiset_commutative,
};

/// A node of the hierarchy, over item indices.
#[derive(Debug)]
pub enum Tree {
    /// A node that holds a single item.
    Leaf { item: usize },
    /// A node that holds two items, ordered along `axis`.
    Pair { axis: Axis, first: usize, second: usize },
    /// A node with two subtrees, the left one below the right one along `axis`.
    Split { axis: Axis, left: Box<Tree>, right: Box<Tree> },
}

/// Key of `item` along `axis`.
pub open spec fn key_of(keys: Seq<Vec<usize>>, axis: Axis, item: usize) -> int {
    keys[axis.spec_index() as int]@[item as int] as int
}

/// Every key table covers every item of `items`.
pub open spec fn keys_cover(keys: Seq<Vec<usize>>, items: Seq<usize>) -> bool {
    &&& keys.len() == 3
    &&& forall|a: int, i: int|
        0 <= a < 3 && 0 <= i < items.len() ==> #[trigger] items[i] < (#[trigger] keys[a])@.len()
}

/// `items` is in ascending order of `key`.
pub open spec fn sorted_by(key: Seq<usize>, items: Seq<usize>) -> bool {
    forall|i: int, j: int|
        0 <= i < j < items.len() ==> key[items[i] as int] <= key[items[j] as int]
}

impl Tree {
    /// The items of the tree, left to right.
    pub open spec fn items(self) -> Seq<usize>
        decreases self,
    {
        match self {
            Tree::Leaf { item } => seq![item],
            Tree::Pair { first, second, .. } => seq![first, second],
            Tree::Split { left, right, .. } => left.items() + right.items(),
        }
    }

    /// The tree is the one the median split gives for `n` items: one item
    /// makes a leaf, two make a pair, more are split at `n / 2`.
    pub open spec fn shaped(self, n: nat) -> bool
        decreases self,
    {
        match self {
            Tree::Leaf { .. } => n == 1,
            Tree::Pair { .. } => n == 2,
            Tree::Split { left, right, .. } => {
                &&& n > 2
                &&& left.shaped(n / 2)
                &&& right.shaped((n - n / 2) as nat)
            },
        }
    }

    /// At every node, the items on the left come no later along the node's
    /// axis than the items on the right.
    pub open spec fn ordered(self, keys: Seq<Vec<usize>>) -> bool
        decreases self,
    {
        match self {
            Tree::Leaf { .. } => true,
            Tree::Pair { axis, first, second } => key_of(keys, axis, first) <= key_of(keys, axis, second),
            Tree::Split { axis, left, right } => {
                &&& left.ordered(keys)
                &&& right.ordered(keys)
                &&& forall|x: usize, y: usize|
                    #![trigger left.items().contains(x), right.items().contains(y)]
                    left.items().contains(x) && right.items().contains(y) ==> key_of(keys, axis, x)
                        <= key_of(keys, axis, y)
            },
        }
    }
}

/// Orders `items` by ascending `key`, keeping each item as often as it occurs.
pub fn sort_by_key(items: &Vec<usize>, key: &Vec<usize>) -> (r: Vec<usize>)
    requires
        forall|i: int| 0 <= i < items@.len() ==> items@[i] < key@.len(),
    ensures
        r@.to_multiset() == items@.to_multiset(),
        sorted_by(key@, r@),
{
    let mut r: Vec<usize> = Vec::new();
    let mut i: usize = 0;
    while i < items.len()
        invariant
            i <= items@.len(),
            forall|k: int| 0 <= k < items@.len() ==> items@[k] < key@.len(),
            forall|k: int| 0 <= k < r@.len() ==> r@[k] < key@.len(),
            r@.to_multiset() == items@.subrange(0, i as int).to_multiset(),
            sorted_by(key@, r@),
        decreases items@.len() - i,
    {
        let x = items[i];
        let kx = key[x];
        let mut pos: usize = 0;
        while pos < r.len() && key[r[pos]] <= kx
            invariant
                pos <= r@.len(),
                x < key@.len(),
                kx == key@[x as int],
                forall|k: int| 0 <= k < r@.len() ==> r@[k] < key@.len(),
                forall|k: int| 0 <= k < pos ==> key@[r@[k] as int] <= kx,
            decreases r@.len() - pos,
        {
            pos = pos + 1;
        }
        proof {
            if pos < r@.len() {
                assert forall|k: int| pos <= k < r@.len() implies kx < key@[r@[k] as int] by {
                    assert(key@[r@[pos as int] as int] <= key@[r@[k] as int]);
                }
            }
        }
        let ghost old_r = r@;
        r.insert(pos, x);
        proof {
            assert(items@.subrange(0, i + 1) =~= items@.subrange(0, i as int).push(x));
            assert forall|a: int, b: int| 0 <= a < b < r@.len() implies key@[r@[a] as int]
                <= key@[r@[b] as int] by {
                if b < pos {
                } else if b == pos {
                } else if a < pos {
                    assert(r@[b] == old_r[b - 1]);
                } else if a == pos {
                    assert(r@[b] == old_r[b - 1]);
                } else {
                    assert(r@[a] == old_r[a - 1]);
                    assert(r@[b] == old_r[b - 1]);
                }
            }
        }
        i = i + 1;
    }
    assert(items@.subrange(0, items@.len() as int) =~= items@);
    r
}

impl Tree {
    /// Builds the hierarchy over `items`: at each node an axis is drawn at
    /// random, the node's items are ordered along it, and they are split at
    /// the median.
    pub fn build(items: Vec<usize>, keys: &Vec<Vec<usize>>) -> (r: Tree)
        requires
            items@.len() >= 1,
            keys_cover(keys@, items@),
        ensures
            r.items().to_multiset() == items@.to_multiset(),
            r.shaped(items@.len()),
            r.ordered(keys@),
        decreases items@.len(),
    {
        let axis = Axis::random();
        let key = &keys[axis.index()];
        let mut sorted = sort_by_key(&items, key);
        proof {
            assert forall|k: int| 0 <= k < sorted@.len() implies (#[trigger] sorted@[k]) < key@.len() by {
                assert(sorted@.contains(sorted@[k]));
                assert(sorted@.to_multiset().count(sorted@[k]) > 0);
                assert(items@.contains(sorted@[k]));
            }
            sorted@.to_multiset_ensures();
            items@.to_multiset_ensures();
        }
        let n = sorted.len();
        if n == 1 {
            let item = sorted[0];
            assert(sorted@ =~= seq![item]);
            Tree::Leaf { item }
        } else if n == 2 {
            let first = sorted[0];
            let second = sorted[1];
            assert(sorted@ =~= seq![first, second]);
            Tree::Pair { axis, first, second }
        } else {
            let ghost all = sorted@;
            let upper = sorted.split_off(n / 2);
            assert(all =~= sorted@ + upper@);
            proof {
                assert forall|a: int, k: int| 0 <= a < 3 && 0 <= k < sorted@.len() implies
                    #[trigger] sorted@[k] < (#[trigger] keys@[a])@.len() by {
                    assert(all.contains(all[k]));
                    assert(all.to_multiset().count(all[k]) > 0);
                    assert(items@.contains(all[k]));
                    let m = choose|m: int| 0 <= m < items@.len() && items@[m] == all[k];
                    assert(items@[m] < keys@[a]@.len());
                }
                assert forall|a: int, k: int| 0 <= a < 3 && 0 <= k < upper@.len() implies
                    #[trigger] upper@[k] < (#[trigger] keys@[a])@.len() by {
                    assert(all[n / 2 + k] == upper@[k]);
                    assert(all.contains(all[n / 2 + k]));
                    assert(all.to_multiset().count(all[n / 2 + k]) > 0);
                    assert(items@.contains(all[n / 2 + k]));
                    let m = choose|m: int| 0 <= m < items@.len() && items@[m] == all[n / 2 + k];
                    assert(items@[m] < keys@[a]@.len());
                }
            }
            let ghost lower_items = sorted@;
            let ghost upper_items = upper@;
            let left = Tree::build(sorted, keys);
            let right = Tree::build(upper, keys);
            proof {
                assert forall|x: usize, y: usize|
                    #![trigger left.items().contains(x), right.items().contains(y)]
                    left.items().contains(x) && right.items().contains(y) implies key_of(
                        keys@,
                        axis,
                        x,
                    ) <= key_of(keys@, axis, y) by {
                    assert(left.items().to_multiset().count(x) > 0);
                    assert(lower_items.contains(x));
                    assert(right.items().to_multiset().count(y) > 0);
                    assert(upper_items.contains(y));
                    let i = choose|i: int| 0 <= i < lower_items.len() && lower_items[i] == x;
                    let j = choose|j: int| 0 <= j < upper_items.len() && upper_items[j] == y;
                    assert(all[i] == x);
                    assert(all[n / 2 + j] == y);
                }
            }
            Tree::Split { axis, left: Box::new(left), right: Box::new(right) }
        }
    }
}

/// `order` lists each of `0 .. order.len()` exactly once.
pub open spec fn is_index_permutation(order: Seq<usize>) -> bool {
    &&& forall|k: int| 0 <= k < order.len() ==> #[trigger] order[k] < order.len()
    &&& forall|a: int, b: int| 0 <= a < b < order.len() ==> order[a] != order[b]
}

/// The keys of one axis from the order of the items along it: the key of an
/// item is its position in `order`. `None` unless `order` lists each item
/// exactly once.
pub fn ranks_from_order(order: &Vec<usize>) -> (r: Option<Vec<usize>>)
    ensures
        r is Some <==> is_index_permutation(order@),
        r matches Some(ranks) ==> {
            &&& ranks@.len() == order@.len()
            &&& forall|k: int| 0 <= k < order@.len() ==> ranks@[#[trigger] order@[k] as int] == k
        },
{
    let n = order.len();
    let mut ranks: Vec<usize> = Vec::new();
    let mut k: usize = 0;
    while k < n
        invariant
            k <= n,
            ranks@.len() == k,
            forall|v: int| 0 <= v < k ==> ranks@[v] == n,
        decreases n - k,
    {
        ranks.push(n);
        k = k + 1;
    }
    let mut i: usize = 0;
    while i < n
        invariant
            i <= n,
            n == order@.len(),
            ranks@.len() == n,
            forall|a: int| 0 <= a < i ==> #[trigger] order@[a] < n,
            forall|a: int, b: int| 0 <= a < b < i ==> order@[a] != order@[b],
            forall|a: int| 0 <= a < i ==> ranks@[#[trigger] order@[a] as int] == a,
            forall|v: int|
                0 <= v < n ==> (#[trigger] ranks@[v] == n <==> forall|a: int|
                    0 <= a < i ==> order@[a] != v),
        decreases n - i,
    {
        let v = order[i];
        if v >= n {
            return None;
        }
        if ranks[v] != n {
            proof {
                let a = choose|a: int| 0 <= a < i && order@[a] == v;
                assert(order@[a] == order@[i as int]);
            }
            return None;
        }
        ranks.set(v, i);
        i = i + 1;
        assert forall|w: int| 0 <= w < n implies (#[trigger] ranks@[w] == n <==> forall|a: int|
            0 <= a < i ==> order@[a] != w) by {
            if w == v {
                assert(order@[i - 1] == w);
            }
        }
    }
    Some(ranks)
}

impl Tree {
    /// The hierarchy over the items `0 .. n`, keyed by `keys`. `None` when
    /// there is no item, or when a key table is missing or too short.
    pub fn new(n: usize, keys: &Vec<Vec<usize>>) -> (r: Option<Tree>)
        ensures
            r is Some <==> (n >= 1 && keys@.len() == 3 && forall|a: int|
                0 <= a < 3 ==> n <= (#[trigger] keys@[a])@.len()),
            r matches Some(t) ==> {
                &&& t.items().to_multiset() == Seq::new(n as nat, |i: int| i as usize).to_multiset()
                &&& t.shaped(n as nat)
                &&& t.ordered(keys@)
            },
    {
        if n == 0 || keys.len() != 3 || keys[0].len() < n || keys[1].len() < n || keys[2].len() < n {
            return None;
        }
        let mut items: Vec<usize> = Vec::new();
        let mut i: usize = 0;
        while i < n
            invariant
                i <= n,
                items@ =~= Seq::new(i as nat, |k: int| k as usize),
            decreases n - i,
        {
            items.push(i);
            i = i + 1;
        }
        assert(keys_cover(keys@, items@)) by {
            assert forall|a: int, k: int| 0 <= a < 3 && 0 <= k < items@.len() implies
                #[trigger] items@[k] < (#[trigger] keys@[a])@.len() by {
                assert(a == 0 || a == 1 || a == 2);
            }
        }
        Some(Tree::build(items, keys))
    }
}

impl Tree {
    /// Number of nodes on the longest path from the root to a leaf.
    pub open spec fn height(self) -> nat
        decreases self,
    {
        match self {
            Tree::Leaf { .. } => 1,
            Tree::Pair { .. } => 1,
            Tree::Split { left, right, .. } => {
                let l = left.height();
                let r = right.height();
                1 + if l >= r {
                    l
                } else {
                    r
                }
            },
        }
    }
}

/// The median split keeps the hierarchy balanced: over `n >= 2` items its
/// height `h` satisfies `2^h <= 2 (n - 1)`, so a ray descends through at most
/// about `log2 n` levels.
pub proof fn lemma_shaped_is_balanced(t: Tree, n: nat)
    requires
        t.shaped(n),
    ensures
        n >= 1,
        n == 1 ==> t.height() == 1,
        n >= 2 ==> pow2(t.height()) <= 2 * (n - 1),
    decreases t,
{
    lemma2_to64();
    lemma_pow2_unfold(t.height());
    match t {
        Tree::Leaf { .. } => {},
        Tree::Pair { .. } => {},
        Tree::Split { left, right, .. } => {
            let nl = n / 2;
            let nr = (n - n / 2) as nat;
            lemma_shaped_is_balanced(*left, nl);
            lemma_shaped_is_balanced(*right, nr);
            lemma_pow2_unfold(left.height());
            lemma_pow2_unfold(right.height());
            if left.height() >= right.height() {
                lemma_pow2_monotonic_le(right.height(), left.height());
            } else {
                lemma_pow2_monotonic_le(left.height(), right.height());
            }
        },
    }
}

proof fn lemma_pow2_monotonic_le(a: nat, b: nat)
    requires
        a <= b,
    ensures
        pow2(a) <= pow2(b),
    decreases b - a,
{
    if a < b {
        lemma_pow2_unfold(b);
        lemma_pow2_monotonic_le(a, (b - 1) as nat);
    }
}

} // verus!
