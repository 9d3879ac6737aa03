//! A height-balanced binary search tree over fixed-width keys.

use crate::key::{
    compare, rank, rank_ceiling, rank_floor, rank_properties, rank_value, Key, Order,
};
use vstd::prelude::*;

verus! {

/// Node in the AVL tree.
pub struct Node<K: Key, V> {
    pub key: K,
    pub value: V,
    /// Number of nodes on the longest descent from this node.
    pub height: i32,
    pub left: Option<Box<Node<K, V>>>,
    pub right: Option<Box<Node<K, V>>>,
}

/// AVL tree whose lookups can be specialised into native code.
pub struct AvlTree<K: Key, V> {
    pub root: Option<Box<Node<K, V>>>,
}

/// The larger of two integers.
pub open spec fn larger(a: int, b: int) -> int {
    if a >= b {
        a
    } else {
        b
    }
}

/// The key/value pairs stored in the subtree `link`.
pub open spec fn entries<K: Key, V>(link: Option<Box<Node<K, V>>>) -> Map<K, V>
    decreases link,
{
    match link {
        None => Map::empty(),
        Some(n) => entries(n.left).union_prefer_right(entries(n.right)).insert(n.key, n.value),
    }
}

/// Search-tree ordering: every key of `link` ranks strictly between `lo` and
/// `hi`, everything left of a node ranks below it and everything right of it
/// ranks above it.
pub open spec fn search_tree<K: Key, V>(link: Option<Box<Node<K, V>>>, lo: int, hi: int) -> bool
    decreases link,
{
    match link {
        None => true,
        Some(n) => {
            &&& lo < rank(n.key) < hi
            &&& search_tree(n.left, lo, rank(n.key))
            &&& search_tree(n.right, rank(n.key), hi)
        },
    }
}

/// Search-tree ordering with no bound on the keys.
pub open spec fn is_search_tree<K: Key, V>(link: Option<Box<Node<K, V>>>) -> bool {
    search_tree(link, rank_floor(), rank_ceiling())
}

/// The value a descent from `link` guided by the key order ends on.
pub open spec fn find<K: Key, V>(link: Option<Box<Node<K, V>>>, key: K) -> Option<V>
    decreases link,
{
    match link {
        None => None,
        Some(n) => if key == n.key {
            Some(n.value)
        } else if rank(key) < rank(n.key) {
            find(n.left, key)
        } else {
            find(n.right, key)
        },
    }
}

/// The nodes of `link`, each before its subtrees, left before right.
pub open spec fn preorder<K: Key, V>(link: Option<Box<Node<K, V>>>) -> Seq<Node<K, V>>
    decreases link,
{
    match link {
        None => Seq::empty(),
        Some(n) => seq![*n] + preorder(n.left) + preorder(n.right),
    }
}

/// Number of nodes in `link`.
pub open spec fn size<K: Key, V>(link: Option<Box<Node<K, V>>>) -> nat
    decreases link,
{
    match link {
        None => 0,
        Some(n) => 1 + size(n.left) + size(n.right),
    }
}

/// The nodes that a sequence of references points to.
pub open spec fn pointees<K: Key, V>(refs: Seq<&Node<K, V>>) -> Seq<Node<K, V>> {
    Seq::new(refs.len(), |i: int| *refs[i])
}

/// The height recorded at the root of `link`; zero for an empty subtree.
pub open spec fn height_of<K: Key, V>(link: Option<Box<Node<K, V>>>) -> int {
    match link {
        None => 0,
        Some(n) => n.height as int,
    }
}

/// AVL balance: at every node the recorded height is one more than the larger
/// height of its subtrees, and those two heights differ by at most one.
pub open spec fn balanced<K: Key, V>(link: Option<Box<Node<K, V>>>) -> bool
    decreases link,
{
    match link {
        None => true,
        Some(n) => {
            &&& balanced(n.left)
            &&& balanced(n.right)
            &&& n.height == 1 + larger(height_of(n.left), height_of(n.right))
            &&& -1 <= height_of(n.left) - height_of(n.right) <= 1
        },
    }
}

/// The node made of `key`, `value` and two subtrees, with its height recorded.
pub open spec fn joined<K: Key, V>(
    key: K,
    value: V,
    left: Option<Box<Node<K, V>>>,
    right: Option<Box<Node<K, V>>>,
) -> Node<K, V> {
    Node { key, value, height: (1 + larger(height_of(left), height_of(right))) as i32, left, right }
}

/// The subtree whose root is `n`.
pub open spec fn tree<K: Key, V>(n: Node<K, V>) -> Option<Box<Node<K, V>>> {
    Some(Box::new(n))
}

/// `n` after its left child has been lifted to the root.
pub open spec fn rotated_right<K: Key, V>(n: Node<K, V>) -> Node<K, V> {
    let l = n.left.unwrap();
    joined(l.key, l.value, l.left, tree(joined(n.key, n.value, l.right, n.right)))
}

/// `n` after its right child has been lifted to the root.
pub open spec fn rotated_left<K: Key, V>(n: Node<K, V>) -> Node<K, V> {
    let r = n.right.unwrap();
    joined(r.key, r.value, tree(joined(n.key, n.value, n.left, r.left)), r.right)
}

/// `n` with its balance restored, for a node whose subtrees are balanced and
/// differ in height by at most two: where the left side is two higher, the
/// left child is lifted to the root, after its own right child has been
/// lifted above it if that one is the higher; and the mirror image where the
/// right side is two higher. Any other node stays as it is.
pub open spec fn rebalanced<K: Key, V>(n: Node<K, V>) -> Node<K, V> {
    let lean = height_of(n.left) - height_of(n.right);
    if lean > 1 {
        let l = *n.left.unwrap();
        if height_of(l.left) - height_of(l.right) < 0 {
            rotated_right(
                Node {
                    key: n.key,
                    value: n.value,
                    height: n.height,
                    left: tree(rotated_left(l)),
                    right: n.right,
                },
            )
        } else {
            rotated_right(n)
        }
    } else if lean < -1 {
        let r = *n.right.unwrap();
        if height_of(r.left) - height_of(r.right) > 0 {
            rotated_left(
                Node {
                    key: n.key,
                    value: n.value,
                    height: n.height,
                    left: n.left,
                    right: tree(rotated_right(r)),
                },
            )
        } else {
            rotated_left(n)
        }
    } else {
        n
    }
}

/// The root of the subtree `link` after `key` has been inserted with `value`:
/// a present key gets the value and nothing else changes; a new key becomes a
/// leaf where the search for it ends, and every node on the way back up has
/// its height recorded anew and its balance restored.
pub open spec fn inserted<K: Key, V>(link: Option<Box<Node<K, V>>>, key: K, value: V) -> Node<K, V>
    decreases link,
{
    match link {
        None => joined(key, value, None, None),
        Some(n) => if key == n.key {
            Node { key: n.key, value, height: n.height, left: n.left, right: n.right }
        } else if rank(key) < rank(n.key) {
            rebalanced(joined(n.key, n.value, tree(inserted(n.left, key, value)), n.right))
        } else {
            rebalanced(joined(n.key, n.value, n.left, tree(inserted(n.right, key, value))))
        },
    }
}

/// The subtree `link` with the value of `key` replaced by `value`, every node
/// in its place. A subtree without the key is left as it is.
pub open spec fn updated<K: Key, V>(
    link: Option<Box<Node<K, V>>>,
    key: K,
    value: V,
) -> Option<Box<Node<K, V>>>
    decreases link,
{
    match link {
        None => None,
        Some(n) => if key == n.key {
            tree(Node { key: n.key, value, height: n.height, left: n.left, right: n.right })
        } else if rank(key) < rank(n.key) {
            tree(
                Node {
                    key: n.key,
                    value: n.value,
                    height: n.height,
                    left: updated(n.left, key, value),
                    right: n.right,
                },
            )
        } else {
            tree(
                Node {
                    key: n.key,
                    value: n.value,
                    height: n.height,
                    left: n.left,
                    right: updated(n.right, key, value),
                },
            )
        },
    }
}

/// The keys of `link`, each before those of its subtrees, left before right.
pub open spec fn preorder_keys<K: Key, V>(link: Option<Box<Node<K, V>>>) -> Seq<K>
    decreases link,
{
    match link {
        None => Seq::empty(),
        Some(n) => seq![n.key] + preorder_keys(n.left) + preorder_keys(n.right),
    }
}

/// Replacing a value moves no key and changes no height.
pub proof fn lemma_updated_keeps<K: Key, V>(link: Option<Box<Node<K, V>>>, key: K, value: V)
    ensures
        preorder_keys(updated(link, key, value)) == preorder_keys(link),
        height_of(updated(link, key, value)) == height_of(link),
        size(updated(link, key, value)) == size(link),
    decreases link,
{
    if let Some(n) = link {
        lemma_updated_keeps(n.left, key, value);
        lemma_updated_keeps(n.right, key, value);
    }
}

/// The keys of the nodes in pre-order are the keys in pre-order.
pub proof fn lemma_preorder_keys<K: Key, V>(link: Option<Box<Node<K, V>>>)
    ensures
        preorder_keys(link).len() == preorder(link).len(),
        forall|i: int|
            0 <= i < preorder(link).len() ==> (#[trigger] preorder(link)[i]).key == preorder_keys(
                link,
            )[i],
    decreases link,
{
    if let Some(n) = link {
        lemma_preorder_keys(n.left);
        lemma_preorder_keys(n.right);
        let head = seq![*n];
        let l = preorder(n.left);
        let r = preorder(n.right);
        assert forall|i: int| 0 <= i < preorder(link).len() implies (#[trigger] preorder(
            link,
        )[i]).key == preorder_keys(link)[i] by {
            if i < 1 {
            } else if i < 1 + l.len() {
                assert(preorder(link)[i] == l[i - 1]);
            } else {
                assert(preorder(link)[i] == r[i - 1 - l.len()]);
            }
        }
    }
}

/// Inserting a key that a balanced search tree holds replaces its value and
/// leaves every node in its place.
pub proof fn lemma_insert_present<K: Key, V>(
    link: Option<Box<Node<K, V>>>,
    lo: int,
    hi: int,
    key: K,
    value: V,
)
    requires
        search_tree(link, lo, hi),
        balanced(link),
        entries(link).contains_key(key),
    ensures
        tree(inserted(link, key, value)) == updated(link, key, value),
    decreases link,
{
    if let Some(n) = link {
        lemma_keys_within(n.left, lo, rank(n.key));
        lemma_keys_within(n.right, rank(n.key), hi);
        rank_properties(key, n.key);
        if key == n.key {
        } else if rank(key) < rank(n.key) {
            assert(entries(n.left).contains_key(key) || entries(n.right).contains_key(key));
            assert(!entries(n.right).contains_key(key));
            lemma_insert_present(n.left, lo, rank(n.key), key, value);
            lemma_updated_keeps(n.left, key, value);
        } else {
            assert(entries(n.left).contains_key(key) || entries(n.right).contains_key(key));
            assert(!entries(n.left).contains_key(key));
            lemma_insert_present(n.right, rank(n.key), hi, key, value);
            lemma_updated_keeps(n.right, key, value);
        }
    }
}

/// In a search tree bounded by `lo` and `hi`, every stored key ranks between them.
pub proof fn lemma_keys_within<K: Key, V>(link: Option<Box<Node<K, V>>>, lo: int, hi: int)
    requires
        search_tree(link, lo, hi),
    ensures
        forall|k: K| entries(link).contains_key(k) ==> lo < rank(k) < hi,
    decreases link,
{
    if let Some(n) = link {
        lemma_keys_within(n.left, lo, rank(n.key));
        lemma_keys_within(n.right, rank(n.key), hi);
        assert forall|k: K| entries(link).contains_key(k) implies lo < rank(k) < hi by {
            if k != n.key {
                assert(entries(n.left).contains_key(k) || entries(n.right).contains_key(k));
            }
        }
    }
}

/// In a search tree the ordered descent finds exactly the stored pairs.
pub proof fn lemma_find_is_get<K: Key, V>(
    link: Option<Box<Node<K, V>>>,
    lo: int,
    hi: int,
    key: K,
)
    requires
        search_tree(link, lo, hi),
    ensures
        find(link, key) == entries(link).get(key),
    decreases link,
{
    if let Some(n) = link {
        lemma_keys_within(n.left, lo, rank(n.key));
        lemma_keys_within(n.right, rank(n.key), hi);
        rank_properties(key, n.key);
        lemma_find_is_get(n.left, lo, rank(n.key), key);
        lemma_find_is_get(n.right, rank(n.key), hi, key);
    }
}

/// A balanced subtree has a height that is not negative.
proof fn lemma_height_nonnegative<K: Key, V>(link: Option<Box<Node<K, V>>>)
    requires
        balanced(link),
    ensures
        height_of(link) >= 0,
    decreases link,
{
    if let Some(n) = link {
        lemma_height_nonnegative(n.left);
        lemma_height_nonnegative(n.right);
    }
}

/// Lifting the left child keeps the ordering and the stored pairs.
proof fn lemma_rotated_right<K: Key, V>(n: Node<K, V>, lo: int, hi: int)
    requires
        search_tree(tree(n), lo, hi),
        n.left.is_some(),
    ensures
        search_tree(tree(rotated_right(n)), lo, hi),
        entries(tree(rotated_right(n))) == entries(tree(n)),
{
    let l = n.left.unwrap();
    let lower = joined(n.key, n.value, l.right, n.right);
    assert(search_tree(n.left, lo, rank(n.key)));
    assert(search_tree(l.left, lo, rank(l.key)));
    assert(search_tree(l.right, rank(l.key), rank(n.key)));
    lemma_keys_within(l.left, lo, rank(l.key));
    lemma_keys_within(l.right, rank(l.key), rank(n.key));
    lemma_keys_within(n.right, rank(n.key), hi);
    rank_properties(n.key, l.key);
    assert(search_tree(tree(lower), rank(l.key), hi));
    assert(entries(n.left) == entries(l.left).union_prefer_right(entries(l.right)).insert(
        l.key,
        l.value,
    ));
    assert(entries(tree(lower)) == entries(l.right).union_prefer_right(entries(n.right)).insert(
        n.key,
        n.value,
    ));
    assert(entries(tree(rotated_right(n))) =~= entries(tree(n)));
}

/// Lifting the right child keeps the ordering and the stored pairs.
proof fn lemma_rotated_left<K: Key, V>(n: Node<K, V>, lo: int, hi: int)
    requires
        search_tree(tree(n), lo, hi),
        n.right.is_some(),
    ensures
        search_tree(tree(rotated_left(n)), lo, hi),
        entries(tree(rotated_left(n))) == entries(tree(n)),
{
    let r = n.right.unwrap();
    let lower = joined(n.key, n.value, n.left, r.left);
    assert(search_tree(n.right, rank(n.key), hi));
    assert(search_tree(r.left, rank(n.key), rank(r.key)));
    assert(search_tree(r.right, rank(r.key), hi));
    lemma_keys_within(n.left, lo, rank(n.key));
    lemma_keys_within(r.left, rank(n.key), rank(r.key));
    lemma_keys_within(r.right, rank(r.key), hi);
    rank_properties(n.key, r.key);
    assert(search_tree(tree(lower), lo, rank(r.key)));
    assert(entries(n.right) == entries(r.left).union_prefer_right(entries(r.right)).insert(
        r.key,
        r.value,
    ));
    assert(entries(tree(lower)) == entries(n.left).union_prefer_right(entries(r.left)).insert(
        n.key,
        n.value,
    ));
    assert(entries(tree(rotated_left(n))) =~= entries(tree(n)));
}

/// The rank a bound stands for: its own, or `open` where there is no bound.
pub open spec fn bound(limit: Option<i128>, open: int) -> int {
    match limit {
        Some(r) => r as int,
        None => open,
    }
}

/// Whether the subtree is ordered as a search tree with its keys strictly
/// between the bounds; `None` is no bound.
fn ordered_between<K: Key, V>(
    link: &Option<Box<Node<K, V>>>,
    lo: Option<i128>,
    hi: Option<i128>,
) -> (ok: bool)
    ensures
        ok == search_tree(*link, bound(lo, rank_floor()), bound(hi, rank_ceiling())),
    decreases *link,
{
    match link {
        None => true,
        Some(node) => {
            proof {
                rank_properties(node.key, node.key);
            }
            let r = rank_value(&node.key);
            let above = match lo {
                Some(l) => l < r,
                None => true,
            };
            let below = match hi {
                Some(h) => r < h,
                None => true,
            };
            above && below && ordered_between(&node.left, lo, Some(r)) && ordered_between(
                &node.right,
                Some(r),
                hi,
            )
        },
    }
}

/// Whether the tree below `root` is ordered as a search tree. A tree that
/// `insert` has built is; this is for trees put together by other means.
pub fn is_ordered<K: Key, V>(root: &Option<Box<Node<K, V>>>) -> (ok: bool)
    ensures
        ok == is_search_tree(*root),
{
    ordered_between(root, None, None)
}

fn larger_of(a: i32, b: i32) -> (m: i32)
    ensures
        m == larger(a as int, b as int),
{
    if a >= b {
        a
    } else {
        b
    }
}

impl<K: Key, V> Node<K, V> {
    fn new(key: K, value: V) -> (n: Self)
        ensures
            n == joined(key, value, None, None),
    {
        Node { key, value, height: 1, left: None, right: None }
    }

    fn height(node: &Option<Box<Node<K, V>>>) -> (h: i32)
        ensures
            h == height_of(*node),
    {
        match node {
            Some(n) => n.height,
            None => 0,
        }
    }

    fn balance_factor(&self) -> (b: i32)
        requires
            i32::MIN <= height_of(self.left) - height_of(self.right) <= i32::MAX,
        ensures
            b == height_of(self.left) - height_of(self.right),
    {
        Node::height(&self.left) - Node::height(&self.right)
    }

    fn update_height(&mut self)
        requires
            height_of(old(self).left) < i32::MAX,
            height_of(old(self).right) < i32::MAX,
        ensures
            *final(self) == joined(
                old(self).key,
                old(self).value,
                old(self).left,
                old(self).right,
            ),
    {
        self.height = 1 + larger_of(Node::height(&self.left), Node::height(&self.right));
    }
}

impl<K: Key, V> View for AvlTree<K, V> {
    type V = Map<K, V>;

    /// The map from keys to values that the tree stores.
    open spec fn view(&self) -> Map<K, V> {
        entries(self.root)
    }
}

impl<K: Key, V: Copy> AvlTree<K, V> {
    /// The tree is ordered as a search tree and balanced.
    pub open spec fn wf(&self) -> bool {
        is_search_tree(self.root) && balanced(self.root)
    }

    /// Height of the tree: the number of nodes on its longest descent.
    pub open spec fn height(&self) -> int {
        height_of(self.root)
    }

    pub fn new() -> (t: Self)
        ensures
            t.root.is_none(),
            t.wf(),
            t@ == Map::<K, V>::empty(),
            t.height() == 0,
    {
        AvlTree { root: None }
    }

    pub fn lookup(&self, key: &K) -> (r: Option<V>)
        ensures
            r == find(self.root, *key),
            is_search_tree(self.root) ==> r == self@.get(*key),
    {
        proof {
            if is_search_tree(self.root) {
                lemma_find_is_get(self.root, rank_floor(), rank_ceiling(), *key);
            }
        }
        let mut current = &self.root;
        loop
            invariant
                find(*current, *key) == find(self.root, *key),
                is_search_tree(self.root) ==> find(self.root, *key) == self@.get(*key),
            decreases *current,
        {
            match current {
                None => {
                    return None;
                },
                Some(node) => {
                    proof {
                        rank_properties(*key, node.key);
                    }
                    match compare(key, &node.key) {
                        Order::Less => {
                            current = &node.left;
                        },
                        Order::Greater => {
                            current = &node.right;
                        },
                        Order::Equal => {
                            return Some(node.value);
                        },
                    }
                },
            }
        }
    }

    pub fn insert(&mut self, key: K, value: V)
        requires
            old(self).wf(),
            old(self).height() < i32::MAX,
        ensures
            final(self).wf(),
            final(self)@ == old(self)@.insert(key, value),
            old(self).height() <= final(self).height() <= old(self).height() + 1,
            final(self).root == tree(inserted(old(self).root, key, value)),
            old(self)@.contains_key(key) ==> {
                &&& final(self).root == updated(old(self).root, key, value)
                &&& final(self).height() == old(self).height()
                &&& preorder_keys(final(self).root) == preorder_keys(old(self).root)
            },
    {
        proof {
            rank_properties(key, key);
            lemma_updated_keeps(self.root, key, value);
            if self@.contains_key(key) {
                lemma_insert_present(self.root, rank_floor(), rank_ceiling(), key, value);
            }
        }
        self.root = Self::insert_rec(
            self.root.take(),
            key,
            value,
            Ghost(rank_floor()),
            Ghost(rank_ceiling()),
        );
    }

    // Returns the new root of the subtree
    fn insert_rec(
        node: Option<Box<Node<K, V>>>,
        key: K,
        value: V,
        Ghost(lo): Ghost<int>,
        Ghost(hi): Ghost<int>,
    ) -> (r: Option<Box<Node<K, V>>>)
        requires
            search_tree(node, lo, hi),
            balanced(node),
            lo < rank(key) < hi,
            height_of(node) < i32::MAX,
        ensures
            r.is_some(),
            search_tree(r, lo, hi),
            balanced(r),
            entries(r) == entries(node).insert(key, value),
            height_of(node) <= height_of(r) <= height_of(node) + 1,
            r == tree(inserted(node, key, value)),
            entries(node).contains_key(key) ==> r == updated(node, key, value) && height_of(r)
                == height_of(node),
        decreases node,
    {
        proof {
            lemma_updated_keeps(node, key, value);
            if entries(node).contains_key(key) {
                lemma_insert_present(node, lo, hi, key, value);
            }
        }
        let mut node = match node {
            Some(n) => n,
            None => {
                proof {
                    assert(search_tree::<K, V>(None, lo, rank(key)));
                    assert(search_tree::<K, V>(None, rank(key), hi));
                    assert(balanced::<K, V>(None));
                    assert(entries::<K, V>(None).insert(key, value) =~= entries(
                        tree(joined(key, value, None, None)),
                    ));
                }
                return Some(Box::new(Node::new(key, value)));
            },
        };
        let ghost before = *node;
        proof {
            rank_properties(key, node.key);
            lemma_height_nonnegative(node.left);
            lemma_height_nonnegative(node.right);
            lemma_keys_within(node.left, lo, rank(node.key));
            lemma_keys_within(node.right, rank(node.key), hi);
        }
        match compare(&key, &node.key) {
            Order::Less => {
                node.left = Self::insert_rec(
                    node.left.take(),
                    key,
                    value,
                    Ghost(lo),
                    Ghost(rank(node.key)),
                );
                proof {
                    assert(!entries(node.right).contains_key(key));
                    assert(entries(Some(node)) =~= entries(tree(before)).insert(key, value));
                }
            },
            Order::Greater => {
                node.right = Self::insert_rec(
                    node.right.take(),
                    key,
                    value,
                    Ghost(rank(node.key)),
                    Ghost(hi),
                );
                proof {
                    assert(entries(Some(node)) =~= entries(tree(before)).insert(key, value));
                }
            },
            Order::Equal => {
                // Key already exists, update value
                node.value = value;
                proof {
                    assert(entries(Some(node)) =~= entries(tree(before)).insert(key, value));
                }
                return Some(node);
            },
        }
        node.update_height();
        Self::balance(node, Ghost(lo), Ghost(hi))
    }

    fn balance(mut node: Box<Node<K, V>>, Ghost(lo): Ghost<int>, Ghost(hi): Ghost<int>) -> (r:
        Option<Box<Node<K, V>>>)
        requires
            search_tree(Some(node), lo, hi),
            balanced(node.left),
            balanced(node.right),
            node.height == 1 + larger(height_of(node.left), height_of(node.right)),
            -2 <= height_of(node.left) - height_of(node.right) <= 2,
        ensures
            r.is_some(),
            search_tree(r, lo, hi),
            balanced(r),
            entries(r) == entries(Some(node)),
            node.height - 1 <= height_of(r) <= node.height,
            -1 <= height_of(node.left) - height_of(node.right) <= 1 ==> r == Some(node),
            r == tree(rebalanced(*node)),
    {
        proof {
            lemma_height_nonnegative(node.left);
            lemma_height_nonnegative(node.right);
        }
        let ghost before = *node;
        let balance = node.balance_factor();

        // Left heavy
        if balance > 1 {
            let ghost l = *node.left.unwrap();
            proof {
                lemma_height_nonnegative(l.left);
                lemma_height_nonnegative(l.right);
            }
            if node.left.as_ref().unwrap().balance_factor() < 0 {
                proof {
                    let lr = *l.right.unwrap();
                    assert(balanced(l.right));
                    assert(search_tree(node.left, lo, rank(node.key)));
                    lemma_height_nonnegative(lr.left);
                    lemma_height_nonnegative(lr.right);
                    lemma_rotated_left(l, lo, rank(node.key));
                }
                node.left = Self::rotate_left(node.left.take().unwrap());
                proof {
                    let lifted = *node.left.unwrap();
                    assert(lifted == rotated_left(l));
                    assert(balanced(lifted.left));
                    assert(balanced(lifted.right));
                    assert(entries(Some(node)) =~= entries(tree(before)));
                }
            }
            proof {
                lemma_rotated_right(*node, lo, hi);
                let top = rotated_right(*node);
                assert(balanced(top.left));
                assert(balanced(top.right));
                assert(balanced(tree(top)));
            }
            return Self::rotate_right(node);
        }
        // Right heavy
        if balance < -1 {
            let ghost r = *node.right.unwrap();
            proof {
                lemma_height_nonnegative(r.left);
                lemma_height_nonnegative(r.right);
            }
            if node.right.as_ref().unwrap().balance_factor() > 0 {
                proof {
                    let rl = *r.left.unwrap();
                    assert(balanced(r.left));
                    assert(search_tree(node.right, rank(node.key), hi));
                    lemma_height_nonnegative(rl.left);
                    lemma_height_nonnegative(rl.right);
                    lemma_rotated_right(r, rank(node.key), hi);
                }
                node.right = Self::rotate_right(node.right.take().unwrap());
                proof {
                    let lifted = *node.right.unwrap();
                    assert(lifted == rotated_right(r));
                    assert(balanced(lifted.left));
                    assert(balanced(lifted.right));
                    assert(entries(Some(node)) =~= entries(tree(before)));
                }
            }
            proof {
                lemma_rotated_left(*node, lo, hi);
                let top = rotated_left(*node);
                assert(balanced(top.left));
                assert(balanced(top.right));
                assert(balanced(tree(top)));
            }
            return Self::rotate_left(node);
        }
        Some(node)
    }

    fn rotate_left(mut node: Box<Node<K, V>>) -> (r: Option<Box<Node<K, V>>>)
        requires
            node.right.is_some(),
            height_of(node.left) < i32::MAX,
            height_of(node.right.unwrap().left) < i32::MAX,
            height_of(node.right.unwrap().right) < i32::MAX,
            1 + larger(height_of(node.left), height_of(node.right.unwrap().left)) < i32::MAX,
        ensures
            r == tree(rotated_left(*node)),
    {
        let mut new_root = node.right.take().unwrap();
        node.right = new_root.left.take();
        node.update_height();
        new_root.left = Some(node);
        new_root.update_height();
        Some(new_root)
    }

    fn rotate_right(mut node: Box<Node<K, V>>) -> (r: Option<Box<Node<K, V>>>)
        requires
            node.left.is_some(),
            height_of(node.right) < i32::MAX,
            height_of(node.left.unwrap().left) < i32::MAX,
            height_of(node.left.unwrap().right) < i32::MAX,
            1 + larger(height_of(node.left.unwrap().right), height_of(node.right)) < i32::MAX,
        ensures
            r == tree(rotated_right(*node)),
    {
        let mut new_root = node.left.take().unwrap();
        node.left = new_root.right.take();
        node.update_height();
        new_root.right = Some(node);
        new_root.update_height();
        Some(new_root)
    }

    /// Traverse the tree in pre-order.
    pub fn pre_order(&self) -> (r: Vec<&Node<K, V>>)
        ensures
            pointees(r@) == preorder(self.root),
    {
        let mut result = Vec::new();
        Self::pre_order_rec(&self.root, &mut result);
        proof {
            assert(pointees(Seq::<&Node<K, V>>::empty()) =~= Seq::<Node<K, V>>::empty());
            assert(pointees(result@) =~= preorder(self.root));
        }
        result
    }

    fn pre_order_rec<'a>(node: &'a Option<Box<Node<K, V>>>, result: &mut Vec<&'a Node<K, V>>)
        ensures
            pointees(final(result)@) == pointees(old(result)@) + preorder(*node),
        decreases *node,
    {
        if let Some(n) = node {
            let ghost start = pointees(result@);
            result.push(n);
            proof {
                assert(pointees(result@) =~= start + seq![**n]);
            }
            Self::pre_order_rec(&n.left, result);
            Self::pre_order_rec(&n.right, result);
            proof {
                assert(pointees(result@) =~= start + preorder(*node));
            }
        } else {
            proof {
                assert(pointees(result@) =~= pointees(result@) + preorder(*node));
            }
        }
    }
}

} // verus!
