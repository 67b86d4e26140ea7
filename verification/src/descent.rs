//! What a change inside one child, or to the entries of a leaf, does to the
//! subtree around it.

use vstd::prelude::*;
use crate::btree::{Node, B, is_slot};
use crate::order::{lt, total_order, lemma_trichotomy};

verus! {

/// A key that has a slot in `s` is not an element of `s`.
pub proof fn lemma_slot_excludes<K: Ord>(s: Seq<K>, key: K, i: int)
    requires
        total_order::<K>(),
        is_slot(s, key, i),
    ensures
        !s.contains(key),
{
    assert forall|j: int| 0 <= j < s.len() implies s[j] != key by {
        lemma_trichotomy(s[j], key);
    }
}

impl<K: Ord + Clone, V: Clone> Node<K, V> {
    /// `post` is `pre` with another node in place of the child at `i`.
    pub open spec fn replaces_child(pre: Self, post: Self, i: int) -> bool {
        &&& 0 <= i < pre.child_seq().len()
        &&& post.key_seq() == pre.key_seq()
        &&& post.value_seq() == pre.value_seq()
        &&& post.child_seq().len() == pre.child_seq().len()
        &&& forall|j: int|
            0 <= j < pre.child_seq().len() && j != i ==> #[trigger] post.child_seq()[j]
                == pre.child_seq()[j]
    }

    /// Putting a well-formed node of the same height, whose keys respect the
    /// flanking keys, in place of a child keeps the parent well-formed; the
    /// parent then holds what it held outside that child, and what the new
    /// child holds.
    pub proof fn lemma_child_replaced(pre: Self, post: Self, i: int)
        requires
            total_order::<K>(),
            Self::replaces_child(pre, post, i),
            pre.wf(),
            post.child_seq()[i].wf(),
            post.child_seq()[i].height() == pre.child_seq()[i].height(),
            post.child_seq()[i].key_seq().len() >= B - 1,
            0 < i ==> post.child_seq()[i].all_above(pre.key_seq()[i - 1]),
            i < pre.key_seq().len() ==> post.child_seq()[i].all_below(pre.key_seq()[i]),
        ensures
            post.wf(),
            post.height() == pre.height(),
            forall|k: K|
                #[trigger] post.has_key(k) <==> (pre.has_key(k) && !pre.child_seq()[i].has_key(k))
                    || post.child_seq()[i].has_key(k),
            forall|k: K|
                post.child_seq()[i].has_key(k) ==> #[trigger] post.value_of(k)
                    == post.child_seq()[i].value_of(k),
            forall|k: K|
                pre.has_key(k) && !pre.child_seq()[i].has_key(k) ==> #[trigger] post.value_of(k)
                    == pre.value_of(k),
    {
        assert forall|j: int| 0 <= j < post.child_seq().len() implies {
            &&& (#[trigger] post.child_seq()[j]).wf()
            &&& post.child_seq()[j].key_seq().len() >= B - 1
            &&& post.child_seq()[j].height() == pre.child_seq()[0].height()
            &&& 0 < j <= post.key_seq().len() ==> post.child_seq()[j].all_above(
                post.key_seq()[j - 1],
            )
            &&& j < post.key_seq().len() ==> post.child_seq()[j].all_below(post.key_seq()[j])
        } by {
            if j != i {
                assert(post.child_seq()[j] == pre.child_seq()[j]);
            }
            assert(pre.child_seq()[i].height() == pre.child_seq()[0].height());
        }
        assert(post.wf());
        assert forall|k: K|
            #[trigger] post.has_key(k) <==> (pre.has_key(k) && !pre.child_seq()[i].has_key(k))
                || post.child_seq()[i].has_key(k) by {
            if post.has_key(k) && !post.child_seq()[i].has_key(k) {
                if !post.key_seq().contains(k) {
                    let j = choose|j: int|
                        0 <= j < post.child_seq().len() && (#[trigger] post.child_seq()[j]).has_key(k);
                    assert(post.child_seq()[j] == pre.child_seq()[j]);
                    pre.lemma_key_in_one_child(j, k);
                } else {
                    if pre.child_seq()[i].has_key(k) {
                        pre.lemma_key_in_one_child(i, k);
                    }
                }
            }
            if pre.has_key(k) && !pre.child_seq()[i].has_key(k) {
                if !pre.key_seq().contains(k) {
                    let j = choose|j: int|
                        0 <= j < pre.child_seq().len() && (#[trigger] pre.child_seq()[j]).has_key(k);
                    assert(post.child_seq()[j] == pre.child_seq()[j]);
                }
            }
        }
        assert forall|k: K| post.child_seq()[i].has_key(k) implies #[trigger] post.value_of(k)
            == post.child_seq()[i].value_of(k) by {
            post.lemma_key_in_one_child(i, k);
        }
        assert forall|k: K|
            pre.has_key(k) && !pre.child_seq()[i].has_key(k) implies #[trigger] post.value_of(k)
            == pre.value_of(k) by {
            if pre.key_seq().contains(k) {
                let j = choose|j: int| 0 <= j < pre.key_seq().len() && pre.key_seq()[j] == k;
                pre.lemma_own_key(j);
                post.lemma_own_key(j);
            } else {
                let j = choose|j: int|
                    0 <= j < pre.child_seq().len() && (#[trigger] pre.child_seq()[j]).has_key(k);
                assert(post.child_seq()[j] == pre.child_seq()[j]);
                pre.lemma_key_in_one_child(j, k);
                post.lemma_key_in_one_child(j, k);
            }
        }
    }

    /// Putting an entry into a leaf at the slot of its key adds that entry to
    /// the map and changes nothing else.
    pub proof fn lemma_leaf_insert(pre: Self, post: Self, index: int, key: K, value: V)
        requires
            total_order::<K>(),
            pre.wf(),
            pre.is_leaf(),
            post.is_leaf(),
            pre.key_seq().len() < 2 * B - 1,
            is_slot(pre.key_seq(), key, index),
            post.key_seq() == pre.key_seq().insert(index, key),
            post.value_seq() == pre.value_seq().insert(index, value),
        ensures
            post.wf(),
            post.height() == pre.height(),
            !pre.has_key(key),
            post@ == pre@.insert(key, value),
    {
        lemma_slot_excludes(pre.key_seq(), key, index);
        assert(post.key_seq().len() == pre.key_seq().len() + 1);
        assert(post.key_seq()[index] == key);
        assert(post.value_seq()[index] == value);
        assert forall|j: int| 0 <= j < post.key_seq().len() && j != index implies {
            &&& post.key_seq()[j] == pre.key_seq()[if j < index { j } else { j - 1 }]
            &&& post.value_seq()[j] == pre.value_seq()[if j < index { j } else { j - 1 }]
        } by {}
        assert forall|i: int, j: int| 0 <= i < j < post.key_seq().len() implies lt(
            post.key_seq()[i],
            post.key_seq()[j],
        ) by {
            if i != index && j != index {
                let i0 = if i < index { i } else { i - 1 };
                let j0 = if j < index { j } else { j - 1 };
                assert(lt(pre.key_seq()[i0], pre.key_seq()[j0]));
            }
        }
        assert(post.wf());
        assert forall|k: K| post.has_key(k) <==> (pre.has_key(k) || k == key) by {
            if post.key_seq().contains(k) {
                let j = choose|j: int| 0 <= j < post.key_seq().len() && post.key_seq()[j] == k;
                if j != index {
                    assert(pre.key_seq()[if j < index { j } else { j - 1 }] == k);
                }
            }
            if pre.key_seq().contains(k) {
                let j = choose|j: int| 0 <= j < pre.key_seq().len() && pre.key_seq()[j] == k;
                assert(post.key_seq()[if j < index { j } else { j + 1 }] == k);
            }
        }
        assert forall|k: K| post.has_key(k) implies post.value_of(k) == (if k == key {
            value
        } else {
            pre.value_of(k)
        }) by {
            let j = choose|j: int| 0 <= j < post.key_seq().len() && post.key_seq()[j] == k;
            post.lemma_own_key(j);
            if j != index {
                pre.lemma_own_key(if j < index { j } else { j - 1 });
            }
        }
        assert(post@ =~= pre@.insert(key, value));
    }

    /// An insertion below the child at the slot of the key is an insertion
    /// into the subtree.
    pub proof fn lemma_child_insert(mid: Self, post: Self, i: int, key: K, value: V)
        requires
            total_order::<K>(),
            mid.wf(),
            Self::replaces_child(mid, post, i),
            is_slot(mid.key_seq(), key, i),
            post.child_seq()[i].wf(),
            post.child_seq()[i].height() == mid.child_seq()[i].height(),
            post.child_seq()[i].key_seq().len() >= mid.child_seq()[i].key_seq().len(),
            post.child_seq()[i]@ == (if mid.child_seq()[i]@.contains_key(key) {
                mid.child_seq()[i]@
            } else {
                mid.child_seq()[i]@.insert(key, value)
            }),
        ensures
            post.wf(),
            post.height() == mid.height(),
            post.key_seq().len() == mid.key_seq().len(),
            post@ == (if mid@.contains_key(key) {
                mid@
            } else {
                mid@.insert(key, value)
            }),
    {
        let c = *mid.child_seq()[i];
        let d = *post.child_seq()[i];
        lemma_slot_excludes(mid.key_seq(), key, i);
        mid.lemma_key_only_at_slot(i, key);
        assert forall|k: K| d.has_key(k) <==> (c.has_key(k) || k == key) by {
            assert(d@.contains_key(k) == d.has_key(k));
            assert(c@.contains_key(k) == c.has_key(k));
            assert(c@.contains_key(key) == c.has_key(key));
        }
        assert forall|k: K| d.has_key(k) implies d.value_of(k) == (if k == key && !c.has_key(key) {
            value
        } else {
            c.value_of(k)
        }) by {
            assert(d@.contains_key(k) == d.has_key(k));
            assert(d@[k] == d.value_of(k));
            assert(c@.contains_key(k) == c.has_key(k));
            assert(c@.contains_key(key) == c.has_key(key));
            if c.has_key(k) {
                assert(c@[k] == c.value_of(k));
            }
        }
        if 0 < i {
            assert(mid.child_seq()[i].all_above(mid.key_seq()[i - 1]));
            assert(d.all_above(mid.key_seq()[i - 1]));
        }
        if i < mid.key_seq().len() {
            assert(mid.child_seq()[i].all_below(mid.key_seq()[i]));
            assert(d.all_below(mid.key_seq()[i]));
        }
        Self::lemma_child_replaced(mid, post, i);
        assert forall|k: K| c.has_key(k) implies mid.has_key(k) && mid.value_of(k) == c.value_of(
            k,
        ) by {
            mid.lemma_key_in_one_child(i, k);
        }
        if mid.has_key(key) {
            assert(post@ =~= mid@);
        } else {
            assert(post@ =~= mid@.insert(key, value));
        }
    }

    /// A node without keys stands for the same map as its only child.
    pub proof fn lemma_sole_child_view(self)
        requires
            total_order::<K>(),
            self.wf(),
            self.key_seq().len() == 0,
            self.child_seq().len() == 1,
        ensures
            self@ == self.child_seq()[0]@,
    {
        let c = self.child_seq()[0];
        assert forall|k: K| self.has_key(k) == c.has_key(k) by {
            if c.has_key(k) {
                self.lemma_has_child_key(0, k);
            }
        }
        assert forall|k: K| c.has_key(k) implies self.value_of(k) == c.value_of(k) by {
            self.lemma_key_in_one_child(0, k);
        }
        assert(self@ =~= c@);
    }

    /// A node without keys and without children stands for the empty map.
    pub proof fn lemma_empty_view(self)
        requires
            self.key_seq().len() == 0,
            self.child_seq().len() == 0,
        ensures
            self@ == Map::<K, V>::empty(),
    {
        assert(self@ =~= Map::<K, V>::empty());
    }

    /// Taking the entry at `index` out of a leaf removes its key from the
    /// map and changes nothing else.
    pub proof fn lemma_leaf_delete(pre: Self, post: Self, index: int)
        requires
            total_order::<K>(),
            pre.wf(),
            pre.is_leaf(),
            post.is_leaf(),
            0 <= index < pre.key_seq().len(),
            post.key_seq() == pre.key_seq().remove(index),
            post.value_seq() == pre.value_seq().remove(index),
        ensures
            post.wf(),
            post.height() == pre.height(),
            pre.has_key(pre.key_seq()[index]),
            pre.value_of(pre.key_seq()[index]) == pre.value_seq()[index],
            post@ == pre@.remove(pre.key_seq()[index]),
    {
        let key = pre.key_seq()[index];
        pre.lemma_own_key(index);
        assert(post.key_seq().len() == pre.key_seq().len() - 1);
        assert forall|j: int| 0 <= j < post.key_seq().len() implies {
            &&& post.key_seq()[j] == pre.key_seq()[if j < index { j } else { j + 1 }]
            &&& post.value_seq()[j] == pre.value_seq()[if j < index { j } else { j + 1 }]
        } by {}
        assert forall|i: int, j: int| 0 <= i < j < post.key_seq().len() implies lt(
            post.key_seq()[i],
            post.key_seq()[j],
        ) by {
            let i0 = if i < index { i } else { i + 1 };
            let j0 = if j < index { j } else { j + 1 };
            assert(lt(pre.key_seq()[i0], pre.key_seq()[j0]));
        }
        assert(post.wf());
        assert forall|k: K| post.has_key(k) <==> (pre.has_key(k) && k != key) by {
            if post.key_seq().contains(k) {
                let j = choose|j: int| 0 <= j < post.key_seq().len() && post.key_seq()[j] == k;
                let j0 = if j < index { j } else { j + 1 };
                assert(pre.key_seq()[j0] == k);
                if j0 < index {
                    lemma_trichotomy(pre.key_seq()[j0], key);
                } else {
                    lemma_trichotomy(key, pre.key_seq()[j0]);
                }
            }
            if pre.key_seq().contains(k) && k != key {
                let j = choose|j: int| 0 <= j < pre.key_seq().len() && pre.key_seq()[j] == k;
                assert(post.key_seq()[if j < index { j } else { j - 1 }] == k);
            }
        }
        assert forall|k: K| post.has_key(k) implies post.value_of(k) == pre.value_of(k) by {
            let j = choose|j: int| 0 <= j < post.key_seq().len() && post.key_seq()[j] == k;
            post.lemma_own_key(j);
            pre.lemma_own_key(if j < index { j } else { j + 1 });
        }
        assert(post@ =~= pre@.remove(key));
    }

    /// A deletion below the child at the slot of the key is a deletion from
    /// the subtree.
    pub proof fn lemma_child_delete(mid: Self, post: Self, i: int, key: K)
        requires
            total_order::<K>(),
            mid.wf(),
            Self::replaces_child(mid, post, i),
            is_slot(mid.key_seq(), key, i),
            post.child_seq()[i].wf(),
            post.child_seq()[i].height() == mid.child_seq()[i].height(),
            post.child_seq()[i].key_seq().len() >= B - 1,
            post.child_seq()[i]@ == mid.child_seq()[i]@.remove(key),
        ensures
            post.wf(),
            post.height() == mid.height(),
            post@ == mid@.remove(key),
            mid.has_key(key) == mid.child_seq()[i].has_key(key),
            mid.child_seq()[i].has_key(key) ==> mid.value_of(key) == mid.child_seq()[i].value_of(
                key,
            ),
    {
        let c = *mid.child_seq()[i];
        let d = *post.child_seq()[i];
        lemma_slot_excludes(mid.key_seq(), key, i);
        mid.lemma_key_only_at_slot(i, key);
        assert forall|k: K| d.has_key(k) <==> (c.has_key(k) && k != key) by {
            assert(d@.contains_key(k) == d.has_key(k));
            assert(c@.contains_key(k) == c.has_key(k));
        }
        assert forall|k: K| d.has_key(k) implies d.value_of(k) == c.value_of(k) by {
            assert(d@.contains_key(k) == d.has_key(k));
            assert(d@[k] == d.value_of(k));
            assert(c@.contains_key(k) == c.has_key(k));
            assert(c@[k] == c.value_of(k));
        }
        if 0 < i {
            assert(mid.child_seq()[i].all_above(mid.key_seq()[i - 1]));
            assert(d.all_above(mid.key_seq()[i - 1]));
        }
        if i < mid.key_seq().len() {
            assert(mid.child_seq()[i].all_below(mid.key_seq()[i]));
            assert(d.all_below(mid.key_seq()[i]));
        }
        Self::lemma_child_replaced(mid, post, i);
        assert forall|k: K| c.has_key(k) implies mid.has_key(k) && mid.value_of(k) == c.value_of(
            k,
        ) by {
            mid.lemma_key_in_one_child(i, k);
        }
        assert(post@ =~= mid@.remove(key));
    }

    /// Where the entry at `index` of an internal node gives way to the
    /// largest entry below the child before it, or to the smallest below the
    /// child after it, and that entry leaves the child, the subtree loses the
    /// key that stood at `index` and nothing else.
    pub proof fn lemma_entry_replaced(pre: Self, post: Self, index: int, ci: int, pk: K)
        requires
            total_order::<K>(),
            pre.wf(),
            Self::replaces_pair(pre, post, index),
            ci == index || ci == index + 1,
            post.child_seq()[2 * index + 1 - ci] == pre.child_seq()[2 * index + 1 - ci],
            post.key_seq()[index] == pk,
            pre.child_seq()[ci].has_key(pk),
            post.value_seq()[index] == pre.child_seq()[ci].value_of(pk),
            post.child_seq()[ci].wf(),
            post.child_seq()[ci].height() == pre.child_seq()[ci].height(),
            post.child_seq()[ci].key_seq().len() >= B - 1,
            post.child_seq()[ci]@ == pre.child_seq()[ci]@.remove(pk),
            ci == index ==> forall|k: K| #[trigger]
                pre.child_seq()[ci].has_key(k) ==> k == pk || lt(k, pk),
            ci == index + 1 ==> forall|k: K| #[trigger]
                pre.child_seq()[ci].has_key(k) ==> k == pk || lt(pk, k),
        ensures
            post.wf(),
            post.height() == pre.height(),
            pre.has_key(pre.key_seq()[index]),
            pre.value_of(pre.key_seq()[index]) == pre.value_seq()[index],
            post@ == pre@.remove(pre.key_seq()[index]),
    {
        let key = pre.key_seq()[index];
        let c = *pre.child_seq()[ci];
        let d = *post.child_seq()[ci];
        let oi = 2 * index + 1 - ci;
        let o = *pre.child_seq()[oi];
        pre.lemma_own_key(index);
        assert(pre.child_seq()[index].all_below(key));
        assert(pre.child_seq()[index + 1].all_above(key));
        assert(pre.child_seq()[index].height() == pre.child_seq()[0].height());
        assert(pre.child_seq()[index + 1].height() == pre.child_seq()[0].height());
        assert(o.wf() && c.wf());
        assert forall|k: K| d.has_key(k) <==> (c.has_key(k) && k != pk) by {
            assert(d@.contains_key(k) == d.has_key(k));
            assert(c@.contains_key(k) == c.has_key(k));
        }
        assert forall|k: K| d.has_key(k) implies d.value_of(k) == c.value_of(k) by {
            assert(d@.contains_key(k) == d.has_key(k));
            assert(d@[k] == d.value_of(k));
            assert(c@.contains_key(k) == c.has_key(k));
            assert(c@[k] == c.value_of(k));
        }
        if index > 0 {
            assert(pre.child_seq()[index].all_above(pre.key_seq()[index - 1]));
            assert(lt(pre.key_seq()[index - 1], key));
        }
        if index + 1 < pre.key_seq().len() {
            assert(pre.child_seq()[index + 1].all_below(pre.key_seq()[index + 1]));
            assert(lt(key, pre.key_seq()[index + 1]));
        }
        Self::lemma_pair_replaced_wf(pre, post, index);
        assert(post.key_seq().len() == pre.key_seq().len());
        assert forall|k: K| post.has_key(k) <==> (pre.has_key(k) && k != key) by {
            lemma_trichotomy(pk, key);
            if c.has_key(k) {
                pre.lemma_key_in_one_child(ci, k);
            }
            if o.has_key(k) {
                pre.lemma_key_in_one_child(oi, k);
                post.lemma_has_child_key(oi, k);
            }
            if d.has_key(k) {
                post.lemma_has_child_key(ci, k);
            }
            post.lemma_has_own_key(index);
            if post.has_key(k) {
                if post.key_seq().contains(k) {
                    let j = choose|j: int| 0 <= j < post.key_seq().len() && post.key_seq()[j] == k;
                    if j != index {
                        assert(pre.key_seq()[j] == k);
                        pre.lemma_has_own_key(j);
                        if j < index {
                            lemma_trichotomy(pre.key_seq()[j], key);
                        } else {
                            lemma_trichotomy(key, pre.key_seq()[j]);
                        }
                    }
                } else {
                    let j = choose|j: int|
                        0 <= j < post.child_seq().len() && (#[trigger] post.child_seq()[j]).has_key(k);
                    if j != index && j != index + 1 {
                        assert(post.child_seq()[j] == pre.child_seq()[j]);
                        pre.lemma_key_in_one_child(j, k);
                    }
                }
            }
            if pre.has_key(k) && k != key {
                if pre.key_seq().contains(k) {
                    let j = choose|j: int| 0 <= j < pre.key_seq().len() && pre.key_seq()[j] == k;
                    assert(post.key_seq()[j] == k);
                    post.lemma_has_own_key(j);
                } else {
                    let j = choose|j: int|
                        0 <= j < pre.child_seq().len() && (#[trigger] pre.child_seq()[j]).has_key(k);
                    if j != index && j != index + 1 {
                        assert(post.child_seq()[j] == pre.child_seq()[j]);
                        post.lemma_has_child_key(j, k);
                    }
                }
            }
        }
        assert forall|k: K| post.has_key(k) implies post.value_of(k) == pre.value_of(k) by {
            if post.key_seq().contains(k) {
                let j = choose|j: int| 0 <= j < post.key_seq().len() && post.key_seq()[j] == k;
                post.lemma_own_key(j);
                if j != index {
                    assert(pre.value_seq()[j] == post.value_seq()[j]);
                    pre.lemma_own_key(j);
                } else {
                    pre.lemma_key_in_one_child(ci, k);
                }
            } else {
                let j = choose|j: int|
                    0 <= j < post.child_seq().len() && (#[trigger] post.child_seq()[j]).has_key(k);
                post.lemma_key_in_one_child(j, k);
                if j != ci {
                    assert(post.child_seq()[j] == pre.child_seq()[j]);
                }
                pre.lemma_key_in_one_child(j, k);
            }
        }
        assert(post@ =~= pre@.remove(key));
    }

    /// The last key of the last leaf of a subtree is its largest key, and
    /// the value beside it in that leaf is the value of that key.
    pub proof fn lemma_last_leaf(self)
        requires
            total_order::<K>(),
            self.wf(),
            self.key_seq().len() >= 1,
        ensures
            self.last_leaf().is_leaf(),
            self.last_leaf().key_seq().len() >= 1,
            self.last_leaf().value_seq().len() == self.last_leaf().key_seq().len(),
            self.has_key(self.last_leaf().key_seq().last()),
            self.value_of(self.last_leaf().key_seq().last())
                == self.last_leaf().value_seq().last(),
            forall|k: K| #[trigger]
                self.has_key(k) ==> k == self.last_leaf().key_seq().last() || lt(
                    k,
                    self.last_leaf().key_seq().last(),
                ),
        decreases self.height(),
    {
        let n = self.key_seq().len() as int;
        if self.is_leaf() {
            self.lemma_own_key(n - 1);
            assert forall|k: K| #[trigger] self.has_key(k) implies k == self.key_seq().last()
                || lt(k, self.key_seq().last()) by {
                let j = choose|j: int| 0 <= j < self.key_seq().len() && self.key_seq()[j] == k;
                if j < n - 1 {
                    assert(lt(self.key_seq()[j], self.key_seq()[n - 1]));
                }
            }
        } else {
            let c = *self.child_seq()[n];
            assert(self.child_seq().last() == self.child_seq()[n]);
            assert(c.wf());
            assert(self.child_seq()[n].height() == self.child_seq()[0].height());
            c.lemma_last_leaf();
            let m = c.last_leaf().key_seq().last();
            self.lemma_key_in_one_child(n, m);
            assert(self.child_seq()[n].all_above(self.key_seq()[n - 1]));
            assert forall|k: K| #[trigger] self.has_key(k) implies k == m || lt(k, m) by {
                if self.key_seq().contains(k) {
                    let j = choose|j: int| 0 <= j < self.key_seq().len() && self.key_seq()[j] == k;
                    if j < n - 1 {
                        assert(lt(self.key_seq()[j], self.key_seq()[n - 1]));
                    }
                } else {
                    let j = choose|j: int|
                        0 <= j < self.child_seq().len() && (#[trigger] self.child_seq()[j]).has_key(k);
                    if j < n {
                        assert(self.child_seq()[j].all_below(self.key_seq()[j]));
                        if j < n - 1 {
                            assert(lt(self.key_seq()[j], self.key_seq()[n - 1]));
                        }
                    }
                }
            }
        }
    }

    /// The first key of the first leaf of a subtree is its smallest key, and
    /// the value beside it in that leaf is the value of that key.
    pub proof fn lemma_first_leaf(self)
        requires
            total_order::<K>(),
            self.wf(),
            self.key_seq().len() >= 1,
        ensures
            self.first_leaf().is_leaf(),
            self.first_leaf().key_seq().len() >= 1,
            self.first_leaf().value_seq().len() == self.first_leaf().key_seq().len(),
            self.has_key(self.first_leaf().key_seq()[0]),
            self.value_of(self.first_leaf().key_seq()[0]) == self.first_leaf().value_seq()[0],
            forall|k: K| #[trigger]
                self.has_key(k) ==> k == self.first_leaf().key_seq()[0] || lt(
                    self.first_leaf().key_seq()[0],
                    k,
                ),
        decreases self.height(),
    {
        let n = self.key_seq().len() as int;
        if self.is_leaf() {
            self.lemma_own_key(0);
            assert forall|k: K| #[trigger] self.has_key(k) implies k == self.key_seq()[0] || lt(
                self.key_seq()[0],
                k,
            ) by {
                let j = choose|j: int| 0 <= j < self.key_seq().len() && self.key_seq()[j] == k;
                if j > 0 {
                    assert(lt(self.key_seq()[0], self.key_seq()[j]));
                }
            }
        } else {
            let c = *self.child_seq()[0];
            assert(c.wf());
            c.lemma_first_leaf();
            let m = c.first_leaf().key_seq()[0];
            self.lemma_key_in_one_child(0, m);
            assert(self.child_seq()[0].all_below(self.key_seq()[0]));
            assert forall|k: K| #[trigger] self.has_key(k) implies k == m || lt(m, k) by {
                if self.key_seq().contains(k) {
                    let j = choose|j: int| 0 <= j < self.key_seq().len() && self.key_seq()[j] == k;
                    if j > 0 {
                        assert(lt(self.key_seq()[0], self.key_seq()[j]));
                    }
                } else {
                    let j = choose|j: int|
                        0 <= j < self.child_seq().len() && (#[trigger] self.child_seq()[j]).has_key(k);
                    if j > 0 {
                        assert(self.child_seq()[j].all_above(self.key_seq()[j - 1]));
                        if j > 1 {
                            assert(lt(self.key_seq()[0], self.key_seq()[j - 1]));
                        }
                    }
                }
            }
        }
    }
}

} // verus!
