//! The entries of a tree in order: what the listing holds, and that it
//! ascends.

use vstd::prelude::*;
use crate::btree::{Node, BTree};
use crate::order::{lt, total_order};

verus! {

/// The keys of `s` ascend strictly.
pub open spec fn ascending_entries<K: Ord, V>(s: Seq<(K, V)>) -> bool {
    forall|x: int, y: int| 0 <= x < y < s.len() ==> lt(s[x].0, s[y].0)
}

/// `k` is the key of some entry of `s`.
pub open spec fn lists<K, V>(s: Seq<(K, V)>, k: K) -> bool {
    exists|x: int| 0 <= x < s.len() && (#[trigger] s[x]).0 == k
}

impl<K: Ord + Clone, V: Clone> Node<K, V> {
    /// `k` is one of the first `j` keys of this node, or lies below one of
    /// its first `j` children.
    pub open spec fn among_first(self, j: int, k: K) -> bool {
        ||| exists|t: int| 0 <= t < j && t < self.key_seq().len() && #[trigger] self.key_seq()[t] == k
        ||| exists|t: int|
            0 <= t < j && t < self.child_seq().len() && (#[trigger] self.child_seq()[t]).has_key(k)
    }

    /// The listing up to entry `j` ascends, holds exactly what the first `j`
    /// keys and children hold, each with its value, and nothing in it exceeds
    /// the key at `j - 1`.
    pub proof fn lemma_run(self, j: nat)
        requires
            total_order::<K>(),
            self.wf(),
            j <= self.key_seq().len(),
        ensures
            ascending_entries(self.run(j)),
            forall|x: int|
                0 <= x < self.run(j).len() ==> self.has_key((#[trigger] self.run(j)[x]).0)
                    && self.run(j)[x].1 == self.value_of(self.run(j)[x].0) && (self.run(j)[x].0
                    == self.key_seq()[j - 1] || lt(self.run(j)[x].0, self.key_seq()[j - 1])),
            forall|k: K| lists(self.run(j), k) <==> self.among_first(j as int, k),
        decreases self.height(), j,
    {
        let r = self.run(j);
        if j == 0 {
            assert forall|k: K| lists(r, k) <==> self.among_first(0, k) by {}
        } else {
            let p = self.run((j - 1) as nat);
            self.lemma_run((j - 1) as nat);
            let below = if self.is_leaf() {
                Seq::<(K, V)>::empty()
            } else {
                self.child_seq()[j - 1].entries()
            };
            let key = self.key_seq()[j - 1];
            let value = self.value_seq()[j - 1];
            assert(r == (p + below).push((key, value)));
            if !self.is_leaf() {
                let c = *self.child_seq()[j - 1];
                assert(self.child_seq()[j - 1].wf());
                assert(self.child_seq()[j - 1].height() == self.child_seq()[0].height());
                c.lemma_entries();
                assert(self.child_seq()[j - 1].all_below(key));
                if j > 1 {
                    assert(self.child_seq()[j - 1].all_above(self.key_seq()[j - 2]));
                }
                assert forall|x: int| 0 <= x < below.len() implies self.has_key(
                    (#[trigger] below[x]).0,
                ) && below[x].1 == self.value_of(below[x].0) by {
                    self.lemma_key_in_one_child(j - 1, below[x].0);
                }
            }
            self.lemma_own_key(j - 1);
            if j > 1 {
                assert(lt(self.key_seq()[j - 2], key));
            }
            assert forall|x: int| 0 <= x < r.len() implies self.has_key((#[trigger] r[x]).0)
                && r[x].1 == self.value_of(r[x].0) && (r[x].0 == key || lt(r[x].0, key)) by {
                if x < p.len() {
                    assert(r[x] == p[x]);
                } else if x < p.len() + below.len() {
                    assert(r[x] == below[x - p.len()]);
                }
            }
            assert forall|x: int, y: int| 0 <= x < y < r.len() implies lt(r[x].0, r[y].0) by {
                if y < p.len() {
                    assert(r[x] == p[x] && r[y] == p[y]);
                } else if y < p.len() + below.len() {
                    assert(r[y] == below[y - p.len()]);
                    if x < p.len() {
                        assert(r[x] == p[x]);
                    } else {
                        assert(r[x] == below[x - p.len()]);
                    }
                } else {
                    if x < p.len() {
                        assert(r[x] == p[x]);
                    } else {
                        assert(r[x] == below[x - p.len()]);
                        crate::order::lemma_trichotomy(r[x].0, key);
                    }
                }
            }
            assert forall|k: K| lists(r, k) <==> self.among_first(j as int, k) by {
                if lists(r, k) {
                    let x = choose|x: int| 0 <= x < r.len() && (#[trigger] r[x]).0 == k;
                    if x < p.len() {
                        assert(p[x].0 == k);
                        assert(lists(p, k));
                        assert(self.among_first(j - 1, k));
                    } else if x < p.len() + below.len() {
                        assert(below[x - p.len()].0 == k);
                        assert(lists(below, k));
                        assert(self.child_seq()[j - 1].has_key(k));
                    } else {
                        assert(self.key_seq()[j - 1] == k);
                    }
                }
                if self.among_first(j as int, k) {
                    if self.among_first(j - 1, k) {
                        assert(lists(p, k));
                        let x = choose|x: int| 0 <= x < p.len() && (#[trigger] p[x]).0 == k;
                        assert(r[x] == p[x]);
                    } else if self.key_seq()[j - 1] == k {
                        assert(r[r.len() - 1].0 == k);
                    } else {
                        assert(self.child_seq()[j - 1].has_key(k));
                        assert(lists(below, k));
                        let x = choose|x: int| 0 <= x < below.len() && (#[trigger] below[x]).0 == k;
                        assert(r[x + p.len()] == below[x]);
                    }
                }
            }
        }
    }

    /// The listing of a well-formed subtree ascends strictly, so no key
    /// stands in it twice; it lists exactly the keys of the subtree, each
    /// with its value.
    pub proof fn lemma_entries(self)
        requires
            total_order::<K>(),
            self.wf(),
        ensures
            ascending_entries(self.entries()),
            forall|x: int|
                0 <= x < self.entries().len() ==> self.has_key((#[trigger] self.entries()[x]).0)
                    && self.entries()[x].1 == self.value_of(self.entries()[x].0),
            forall|k: K| lists(self.entries(), k) <==> self.has_key(k),
        decreases self.height(), self.key_seq().len() + 1,
    {
        let n = self.key_seq().len();
        let e = self.entries();
        let p = self.run(n);
        self.lemma_run(n);
        if self.is_leaf() {
            assert(e == p);
            assert forall|k: K| lists(e, k) <==> self.has_key(k) by {
                if self.has_key(k) {
                    let t = choose|t: int| 0 <= t < self.key_seq().len() && self.key_seq()[t] == k;
                    assert(self.among_first(n as int, k));
                }
            }
        } else {
            let c = *self.child_seq()[n as int];
            let below = c.entries();
            assert(self.child_seq()[n as int].wf());
            assert(self.child_seq()[n as int].height() == self.child_seq()[0].height());
            c.lemma_entries();
            assert(e == p + below);
            if n > 0 {
                assert(self.child_seq()[n as int].all_above(self.key_seq()[n - 1]));
            }
            assert forall|x: int| 0 <= x < e.len() implies self.has_key((#[trigger] e[x]).0)
                && e[x].1 == self.value_of(e[x].0) by {
                if x < p.len() {
                    assert(e[x] == p[x]);
                } else {
                    assert(e[x] == below[x - p.len()]);
                    self.lemma_key_in_one_child(n as int, e[x].0);
                }
            }
            assert forall|x: int, y: int| 0 <= x < y < e.len() implies lt(e[x].0, e[y].0) by {
                if y < p.len() {
                    assert(e[x] == p[x] && e[y] == p[y]);
                } else {
                    assert(e[y] == below[y - p.len()]);
                    if x < p.len() {
                        assert(e[x] == p[x]);
                    } else {
                        assert(e[x] == below[x - p.len()]);
                    }
                }
            }
            assert forall|k: K| lists(e, k) <==> self.has_key(k) by {
                if lists(e, k) {
                    let x = choose|x: int| 0 <= x < e.len() && (#[trigger] e[x]).0 == k;
                    assert(self.has_key(e[x].0));
                }
                if self.has_key(k) {
                    if self.key_seq().contains(k) {
                        let t = choose|t: int|
                            0 <= t < self.key_seq().len() && self.key_seq()[t] == k;
                        assert(self.among_first(n as int, k));
                        let x = choose|x: int| 0 <= x < p.len() && (#[trigger] p[x]).0 == k;
                        assert(e[x] == p[x]);
                    } else {
                        let t = choose|t: int|
                            0 <= t < self.child_seq().len() && (#[trigger] self.child_seq()[t]).has_key(
                                k,
                            );
                        if t < n {
                            assert(self.among_first(n as int, k));
                            let x = choose|x: int| 0 <= x < p.len() && (#[trigger] p[x]).0 == k;
                            assert(e[x] == p[x]);
                        } else {
                            assert(lists(below, k));
                            let x = choose|x: int|
                                0 <= x < below.len() && (#[trigger] below[x]).0 == k;
                            assert(e[x + p.len()] == below[x]);
                        }
                    }
                }
            }
        }
    }
}

impl<K: Ord + Clone, V: Clone> BTree<K, V> {
    /// The listing of a well-formed tree ascends strictly, so that no key
    /// stands in the tree twice, and it holds exactly the entries of the map
    /// that the tree stands for.
    pub proof fn lemma_entries(self)
        requires
            total_order::<K>(),
            self.wf(),
        ensures
            ascending_entries(self.entries()),
            forall|x: int|
                0 <= x < self.entries().len() ==> self@.contains_key(
                    (#[trigger] self.entries()[x]).0,
                ) && self@[self.entries()[x].0] == self.entries()[x].1,
            forall|k: K| lists(self.entries(), k) <==> self@.contains_key(k),
    {
        match self.top() {
            Some(node) => {
                node.lemma_entries();
            },
            None => {},
        }
    }
}

} // verus!
