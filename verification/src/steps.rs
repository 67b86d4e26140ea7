//! Which node an insertion or a deletion leaves: the steps taken on the way
//! down, case by case.

use vstd::prelude::*;
use crate::btree::{Node, BTree, B, ascending, is_slot};
use crate::order::{lt, total_order, lemma_trichotomy};

verus! {

/// The position at which `key` would be inserted into `s`.
pub open spec fn slot<K: Ord>(s: Seq<K>, key: K) -> int {
    choose|i: int| is_slot(s, key, i)
}

/// A key has one slot only.
pub proof fn lemma_slot_unique<K: Ord>(s: Seq<K>, key: K, i: int)
    requires
        total_order::<K>(),
        is_slot(s, key, i),
    ensures
        slot(s, key) == i,
{
    let j = slot(s, key);
    if j < i {
        assert(lt(s[j], key));
        assert(lt(key, s[j]));
        lemma_trichotomy(s[j], key);
    } else if i < j {
        assert(lt(s[i], key));
        assert(lt(key, s[i]));
        lemma_trichotomy(s[i], key);
    }
}

/// An element of an ascending sequence stands at one index only.
pub proof fn lemma_index_unique<K: Ord>(s: Seq<K>, i: int)
    requires
        total_order::<K>(),
        ascending(s),
        0 <= i < s.len(),
    ensures
        s.contains(s[i]),
        s.index_of(s[i]) == i,
{
    let j = s.index_of(s[i]);
    assert(s[j] == s[i]);
    if j < i {
        lemma_trichotomy(s[j], s[i]);
    } else if i < j {
        lemma_trichotomy(s[i], s[j]);
    }
}

impl<K: Ord + Clone, V: Clone> Node<K, V> {
    /// `post` is `pre` without the entry at `i`; the children are the same.
    pub open spec fn entry_removed(pre: Self, post: Self, i: int) -> bool {
        &&& post.key_seq() == pre.key_seq().remove(i)
        &&& post.value_seq() == pre.value_seq().remove(i)
        &&& post.child_seq() == pre.child_seq()
    }

    /// `post` is `pre` with the entry `(key, value)` put in at `i`; the
    /// children are the same.
    pub open spec fn entry_inserted(pre: Self, post: Self, i: int, key: K, value: V) -> bool {
        &&& post.key_seq() == pre.key_seq().insert(i, key)
        &&& post.value_seq() == pre.value_seq().insert(i, value)
        &&& post.child_seq() == pre.child_seq()
    }

    /// `post` is `pre` with the entry `(key, value)` in place of the entry
    /// at `i`, and with another node in place of the child at `c`.
    pub open spec fn entry_replaced(pre: Self, post: Self, i: int, c: int, key: K, value: V) -> bool {
        &&& post.key_seq() == pre.key_seq().update(i, key)
        &&& post.value_seq() == pre.value_seq().update(i, value)
        &&& post.child_seq().len() == pre.child_seq().len()
        &&& forall|j: int|
            0 <= j < pre.child_seq().len() && j != c ==> #[trigger] post.child_seq()[j]
                == pre.child_seq()[j]
    }

    /// `big` is `small` with its full child at `index` cut in the middle:
    /// `B - 1` entries stay, the entry after them moves up, `B - 1` move to
    /// the new sibling.
    pub open spec fn halves(small: Self, big: Self, index: int) -> bool {
        &&& Self::splits(small, big, index)
        &&& big.child_seq()[index].key_seq().len() == B - 1
        &&& big.child_seq()[index + 1].key_seq().len() == B - 1
    }

    /// `post` is what the insertion of `(key, value)` makes of `pre`, a
    /// subtree of height `d` whose top is not full.
    ///
    /// - A key of this node: nothing changes.
    /// - A leaf: the entry goes in at the slot of the key.
    /// - Else the child at the slot, where it is not full, takes the
    ///   insertion.
    /// - Where it is full it is cut in the middle first; the key that moves
    ///   up ends the insertion if it is `key`, and else decides which half
    ///   takes it.
    pub open spec fn inserts_at(pre: Self, post: Self, key: K, value: V, d: nat) -> bool
        decreases d,
    {
        let i = slot(pre.key_seq(), key);
        if pre.key_seq().contains(key) {
            post == pre
        } else if pre.is_leaf() {
            Self::entry_inserted(pre, post, i, key, value)
        } else if d == 0 {
            false
        } else if pre.child_seq()[i].key_seq().len() < 2 * B - 1 {
            &&& Self::replaces_child(pre, post, i)
            &&& Self::inserts_at(
                *pre.child_seq()[i],
                *post.child_seq()[i],
                key,
                value,
                (d - 1) as nat,
            )
        } else {
            exists|mid: Self|
                {
                    &&& #[trigger] Self::halves(pre, mid, i)
                    &&& if mid.key_seq()[i] == key {
                        post == mid
                    } else {
                        let t = if lt(mid.key_seq()[i], key) {
                            i + 1
                        } else {
                            i
                        };
                        &&& Self::replaces_child(mid, post, t)
                        &&& Self::inserts_at(
                            *mid.child_seq()[t],
                            *post.child_seq()[t],
                            key,
                            value,
                            (d - 1) as nat,
                        )
                    }
                }
        }
    }

    /// `post` is what the insertion of `(key, value)` makes of `pre`.
    pub open spec fn inserts(pre: Self, post: Self, key: K, value: V) -> bool {
        Self::inserts_at(pre, post, key, value, pre.height())
    }

    /// `post` is what the deletion of `key` makes of `pre`, a subtree of
    /// height `d`.
    ///
    /// Where `key` stands in this node, at `i`:
    /// - in a leaf the entry leaves;
    /// - else, where the child before it has `B` keys or more, the largest
    ///   entry below that child takes its place and is deleted there;
    /// - else, where the child after it has `B` keys or more, the smallest
    ///   entry below that child takes its place and is deleted there;
    /// - else the two children are joined around the entry, and `key` is
    ///   deleted from the joined child.
    ///
    /// Where it does not, and `i` is its slot:
    /// - a leaf stays as it is;
    /// - a child at `i` with `B` keys or more takes the deletion;
    /// - else it first borrows from the child before it, if that has `B`
    ///   keys or more;
    /// - else from the child after it, if that has `B` keys or more;
    /// - else it is joined onto the child before it, which then takes the
    ///   deletion, at `i - 1`;
    /// - else, being the first child, the child after it is joined onto it.
    pub open spec fn deletes_at(pre: Self, post: Self, key: K, d: nat) -> bool
        decreases d,
    {
        let keys = pre.key_seq();
        let n = pre.child_seq().len();
        let below = (d - 1) as nat;
        if keys.contains(key) {
            let i = keys.index_of(key);
            if pre.is_leaf() {
                Self::entry_removed(pre, post, i)
            } else if d == 0 {
                false
            } else if pre.child_seq()[i].key_seq().len() >= B {
                let leaf = pre.child_seq()[i].last_leaf();
                let k = leaf.key_seq().last();
                &&& Self::entry_replaced(pre, post, i, i, k, leaf.value_seq().last())
                &&& Self::deletes_at(*pre.child_seq()[i], *post.child_seq()[i], k, below)
            } else if pre.child_seq()[i + 1].key_seq().len() >= B {
                let leaf = pre.child_seq()[i + 1].first_leaf();
                let k = leaf.key_seq()[0];
                &&& Self::entry_replaced(pre, post, i, i + 1, k, leaf.value_seq()[0])
                &&& Self::deletes_at(*pre.child_seq()[i + 1], *post.child_seq()[i + 1], k, below)
            } else {
                exists|mid: Self|
                    {
                        &&& #[trigger] Self::splits(mid, pre, i)
                        &&& Self::replaces_child(mid, post, i)
                        &&& Self::deletes_at(*mid.child_seq()[i], *post.child_seq()[i], key, below)
                    }
            }
        } else {
            let i = slot(keys, key);
            if pre.is_leaf() {
                post == pre
            } else if d == 0 {
                false
            } else if pre.child_seq()[i].key_seq().len() >= B {
                &&& Self::replaces_child(pre, post, i)
                &&& Self::deletes_at(*pre.child_seq()[i], *post.child_seq()[i], key, below)
            } else if i > 0 && pre.child_seq()[i - 1].key_seq().len() >= B {
                exists|mid: Self|
                    {
                        &&& #[trigger] Self::rotates(pre, mid, i)
                        &&& Self::replaces_child(mid, post, i)
                        &&& Self::deletes_at(*mid.child_seq()[i], *post.child_seq()[i], key, below)
                    }
            } else if i + 1 < n && pre.child_seq()[i + 1].key_seq().len() >= B {
                exists|mid: Self|
                    {
                        &&& #[trigger] Self::rotates(mid, pre, i + 1)
                        &&& Self::replaces_child(mid, post, i)
                        &&& Self::deletes_at(*mid.child_seq()[i], *post.child_seq()[i], key, below)
                    }
            } else if i > 0 {
                exists|mid: Self|
                    {
                        &&& #[trigger] Self::splits(mid, pre, i - 1)
                        &&& Self::replaces_child(mid, post, i - 1)
                        &&& Self::deletes_at(
                            *mid.child_seq()[i - 1],
                            *post.child_seq()[i - 1],
                            key,
                            below,
                        )
                    }
            } else {
                exists|mid: Self|
                    {
                        &&& #[trigger] Self::splits(mid, pre, i)
                        &&& Self::replaces_child(mid, post, i)
                        &&& Self::deletes_at(*mid.child_seq()[i], *post.child_seq()[i], key, below)
                    }
            }
        }
    }

    /// `post` is what the deletion of `key` makes of `pre`.
    pub open spec fn deletes(pre: Self, post: Self, key: K) -> bool {
        Self::deletes_at(pre, post, key, pre.height())
    }
}

impl<K: Ord + Clone, V: Clone> BTree<K, V> {
    /// `post` is what the insertion of `(key, value)` makes of `pre`.
    ///
    /// - An empty tree gets a leaf with the one entry.
    /// - A top node that is full goes below a new top without keys and is
    ///   cut in the middle there; the insertion goes on from the new top.
    /// - Else the insertion goes on from the top node.
    pub open spec fn inserts(pre: Self, post: Self, key: K, value: V) -> bool {
        match (pre.top(), post.top()) {
            (None, Some(leaf)) => {
                &&& leaf.key_seq() == seq![key]
                &&& leaf.value_seq() == seq![value]
                &&& leaf.is_leaf()
            },
            (Some(top), Some(after)) => if top.key_seq().len() == 2 * B - 1 {
                exists|over: Node<K, V>, mid: Node<K, V>|
                    {
                        &&& over.key_seq().len() == 0
                        &&& over.value_seq().len() == 0
                        &&& over.child_seq().len() == 1
                        &&& *over.child_seq()[0] == top
                        &&& #[trigger] Node::halves(over, mid, 0)
                        &&& Node::inserts(mid, after, key, value)
                    }
            } else {
                Node::inserts(top, after, key, value)
            },
            _ => false,
        }
    }

    /// `post` is what the deletion of `key` makes of `pre`: the node that the
    /// deletion leaves of the top node; where that node has no key, its only
    /// child, one level less; where it has no child either, the empty tree.
    pub open spec fn deletes(pre: Self, post: Self, key: K) -> bool {
        match pre.top() {
            None => post.top() is None,
            Some(top) => exists|left: Node<K, V>|
                {
                    &&& #[trigger] Node::deletes(top, left, key)
                    &&& left.height() == top.height()
                    &&& post.top() == (if left.key_seq().len() > 0 {
                        Some(left)
                    } else if left.child_seq().len() > 0 {
                        Some(*left.child_seq()[0])
                    } else {
                        None
                    })
                },
        }
    }
}

} // verus!
