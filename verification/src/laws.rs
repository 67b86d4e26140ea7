//! What holds of every well-formed tree, and of the maps that insertions and
//! deletions lead to.

use vstd::prelude::*;
use crate::btree::{Node, BTree, B, ascending, put};
use crate::order::{lt, total_order, lemma_trichotomy};
use crate::inorder::lists;

verus! {

/// The map after putting the entries of `es` in turn, none overwriting.
pub open spec fn put_all<K, V>(m: Map<K, V>, es: Seq<(K, V)>) -> Map<K, V>
    decreases es.len(),
{
    if es.len() == 0 {
        m
    } else {
        put(put_all(m, es.drop_last()), es.last().0, es.last().1)
    }
}

/// No two entries of `es` have the same key.
pub open spec fn distinct_keys<K, V>(es: Seq<(K, V)>) -> bool {
    forall|i: int, j: int| 0 <= i < j < es.len() ==> es[i].0 != es[j].0
}

impl<K: Ord + Clone, V: Clone> Node<K, V> {
    /// A node of a well-formed subtree is well-formed, stands as far above
    /// the leaves as its level leaves room for, and holds at least `B - 1`
    /// keys unless it is the top.
    pub proof fn lemma_node_wf(self, n: Self, d: nat)
        requires
            self.wf(),
            self.holds_at(n, d),
        ensures
            n.wf(),
            n.height() + d == self.height(),
            d > 0 ==> n.key_seq().len() >= B - 1,
        decreases d,
    {
        if d > 0 {
            let i = choose|i: int|
                0 <= i < self.child_seq().len() && (#[trigger] self.child_seq()[i]).holds_at(
                    n,
                    (d - 1) as nat,
                );
            let c = *self.child_seq()[i];
            assert(self.child_seq()[i].wf());
            assert(self.child_seq()[i].height() == self.child_seq()[0].height());
            c.lemma_node_wf(n, (d - 1) as nat);
        }
    }
}

impl<K: Ord + Clone, V: Clone> BTree<K, V> {
    /// Order: the keys of every node ascend strictly.
    pub proof fn law_order(self, n: Node<K, V>, d: nat)
        requires
            self.wf(),
            self.holds_at(n, d),
        ensures
            ascending(n.key_seq()),
            n.value_seq().len() == n.key_seq().len(),
    {
        self.top().unwrap().lemma_node_wf(n, d);
    }

    /// Occupancy: no node holds more than `2 * B - 1` keys, and every node
    /// but the top holds at least `B - 1`.
    pub proof fn law_occupancy(self, n: Node<K, V>, d: nat)
        requires
            self.wf(),
            self.holds_at(n, d),
        ensures
            n.key_seq().len() <= 2 * B - 1,
            d > 0 ==> n.key_seq().len() >= B - 1,
            d == 0 ==> n.key_seq().len() >= 1,
            n.is_leaf() || n.child_seq().len() == n.key_seq().len() + 1,
    {
        self.top().unwrap().lemma_node_wf(n, d);
    }

    /// Balance: every leaf is on the last level of the tree.
    pub proof fn law_balance(self, n: Node<K, V>, d: nat)
        requires
            self.wf(),
            self.holds_at(n, d),
            n.is_leaf(),
        ensures
            d + 1 == self.level_count(),
    {
        self.top().unwrap().lemma_node_wf(n, d);
    }

    /// Navigation: every key below the child at `i` of a node lies strictly
    /// between the keys of the node that flank that child.
    pub proof fn law_navigation(self, n: Node<K, V>, d: nat, i: int, k: K)
        requires
            self.wf(),
            self.holds_at(n, d),
            0 <= i < n.child_seq().len(),
            n.child_seq()[i].has_key(k),
        ensures
            0 < i ==> lt(n.key_seq()[i - 1], k),
            i < n.key_seq().len() ==> lt(k, n.key_seq()[i]),
    {
        self.top().unwrap().lemma_node_wf(n, d);
        if 0 < i {
            assert(n.child_seq()[i].all_above(n.key_seq()[i - 1]));
        }
        if i < n.key_seq().len() {
            assert(n.child_seq()[i].all_below(n.key_seq()[i]));
        }
    }

    /// Uniqueness: no key stands at two places of the in-order listing of
    /// the tree.
    pub proof fn law_uniqueness(self, x: int, y: int)
        requires
            total_order::<K>(),
            self.wf(),
            0 <= x < self.entries().len(),
            0 <= y < self.entries().len(),
            self.entries()[x].0 == self.entries()[y].0,
        ensures
            x == y,
    {
        self.lemma_entries();
        let e = self.entries();
        lemma_trichotomy(e[x].0, e[y].0);
        if x < y {
            assert(lt(e[x].0, e[y].0));
        } else if y < x {
            assert(lt(e[y].0, e[x].0));
        }
    }
}

/// Insert-then-lookup: after putting entries with distinct keys into a map
/// that holds none of them, every one of the keys is bound to its value.
pub proof fn law_insert_then_lookup<K, V>(m: Map<K, V>, es: Seq<(K, V)>, i: int)
    requires
        distinct_keys(es),
        forall|j: int| 0 <= j < es.len() ==> !m.contains_key(#[trigger] es[j].0),
        0 <= i < es.len(),
    ensures
        put_all(m, es).contains_key(es[i].0),
        put_all(m, es)[es[i].0] == es[i].1,
    decreases es.len(),
{
    lemma_put_all_domain(m, es);
    let front = es.drop_last();
    lemma_put_all_domain(m, front);
    if i < es.len() - 1 {
        assert(front[i] == es[i]);
        assert(distinct_keys(front)) by {
            assert forall|a: int, b: int| 0 <= a < b < front.len() implies front[a].0
                != front[b].0 by {
                assert(front[a] == es[a] && front[b] == es[b]);
            }
        }
        assert forall|j: int| 0 <= j < front.len() implies !m.contains_key(
            #[trigger] front[j].0,
        ) by {
            assert(front[j] == es[j]);
        }
        law_insert_then_lookup(m, front, i);
    } else {
        assert(!put_all(m, front).contains_key(es[i].0)) by {
            if put_all(m, front).contains_key(es[i].0) {
                assert(lists(front, es[i].0));
                let j = choose|j: int| 0 <= j < front.len() && (#[trigger] front[j]).0 == es[i].0;
                assert(front[j] == es[j]);
            }
        }
    }
}

/// A key is in the map after a run of insertions exactly if it was there
/// before or is the key of one of the entries.
pub proof fn lemma_put_all_domain<K, V>(m: Map<K, V>, es: Seq<(K, V)>)
    ensures
        forall|k: K| put_all(m, es).contains_key(k) <==> m.contains_key(k) || lists(es, k),
    decreases es.len(),
{
    if es.len() == 0 {
        assert forall|k: K| !lists(es, k) by {}
    } else {
        let front = es.drop_last();
        let last = es.last();
        lemma_put_all_domain(m, front);
        assert forall|k: K|
            put_all(m, es).contains_key(k) <==> m.contains_key(k) || lists(es, k) by {
            assert(put_all(m, es) == put(put_all(m, front), last.0, last.1));
            assert(put_all(m, es).contains_key(k) <==> put_all(m, front).contains_key(k) || k
                == last.0);
            if lists(front, k) {
                let j = choose|j: int| 0 <= j < front.len() && (#[trigger] front[j]).0 == k;
                assert(es[j] == front[j]);
                assert(lists(es, k));
            }
            if k == last.0 {
                assert(es[es.len() - 1].0 == k);
                assert(lists(es, k));
            }
            if lists(es, k) {
                let j = choose|j: int| 0 <= j < es.len() && (#[trigger] es[j]).0 == k;
                if j < front.len() {
                    assert(es[j] == front[j]);
                    assert(lists(front, k));
                }
            }
        }
    }
}

/// Putting entries with distinct keys into a finite map that holds none of
/// them makes the map larger by their number.
pub proof fn lemma_put_all_len<K, V>(m: Map<K, V>, es: Seq<(K, V)>)
    requires
        m.dom().finite(),
        distinct_keys(es),
        forall|j: int| 0 <= j < es.len() ==> !m.contains_key(#[trigger] es[j].0),
    ensures
        put_all(m, es).dom().finite(),
        put_all(m, es).dom().len() == m.dom().len() + es.len(),
    decreases es.len(),
{
    if es.len() > 0 {
        let front = es.drop_last();
        let last = es.last();
        assert(distinct_keys(front)) by {
            assert forall|a: int, b: int| 0 <= a < b < front.len() implies front[a].0
                != front[b].0 by {
                assert(front[a] == es[a] && front[b] == es[b]);
            }
        }
        assert forall|j: int| 0 <= j < front.len() implies !m.contains_key(
            #[trigger] front[j].0,
        ) by {
            assert(front[j] == es[j]);
        }
        lemma_put_all_len(m, front);
        lemma_put_all_domain(m, front);
        let before = put_all(m, front);
        assert(!before.contains_key(last.0)) by {
            if lists(front, last.0) {
                let j = choose|j: int| 0 <= j < front.len() && (#[trigger] front[j]).0 == last.0;
                assert(front[j] == es[j]);
                assert(es[es.len() - 1] == last);
            }
            assert(es[es.len() - 1] == last);
        }
        assert(put_all(m, es) == before.insert(last.0, last.1));
        assert(before.insert(last.0, last.1).dom() =~= before.dom().insert(last.0));
    }
}

/// Delete-then-lookup: after a deletion the key is absent, and every other
/// key is bound as before.
pub proof fn law_delete_then_lookup<K, V>(m: Map<K, V>, k: K, other: K)
    requires
        other != k,
    ensures
        !m.remove(k).contains_key(k),
        m.remove(k).contains_key(other) == m.contains_key(other),
        m.contains_key(other) ==> m.remove(k)[other] == m[other],
{
}

/// Idempotent insert: a second insertion under a key changes nothing, so
/// that a key which was absent keeps the value that came first.
pub proof fn law_idempotent_insert<K, V>(m: Map<K, V>, k: K, first: V, second: V)
    ensures
        put(put(m, k, first), k, second) == put(m, k, first),
        !m.contains_key(k) ==> put(put(m, k, first), k, second)[k] == first,
{
}

} // verus!
