//! How cutting a node in two, or joining two nodes, relates the tree before
//! to the tree after.

use vstd::prelude::*;
use crate::btree::{Node, B};
use crate::order::{lt, total_order};

verus! {

impl<K: Ord + Clone, V: Clone> Node<K, V> {
    /// `c` holds the entries of `l`, then the entry `(m, mv)`, then the entries
    /// of `r`, and the children of `l` followed by those of `r`.
    pub open spec fn joins(c: Self, l: Self, m: K, mv: V, r: Self) -> bool {
        &&& c.key_seq() == l.key_seq().push(m) + r.key_seq()
        &&& c.value_seq() == l.value_seq().push(mv) + r.value_seq()
        &&& c.child_seq() == l.child_seq() + r.child_seq()
        &&& l.value_seq().len() == l.key_seq().len()
        &&& r.value_seq().len() == r.key_seq().len()
        &&& l.is_leaf() == r.is_leaf()
        &&& !l.is_leaf() ==> l.child_seq().len() == l.key_seq().len() + 1
    }

    /// `big` is `small` with its child at `index` cut in two around the entry
    /// that `big` holds at `index`; read the other way, `small` is `big` with
    /// the children at `index` and `index + 1` joined around that entry.
    pub open spec fn splits(small: Self, big: Self, index: int) -> bool {
        &&& 0 <= index < small.child_seq().len()
        &&& index < big.key_seq().len()
        &&& big.value_seq().len() == big.key_seq().len()
        &&& small.key_seq() == big.key_seq().remove(index)
        &&& small.value_seq() == big.value_seq().remove(index)
        &&& big.child_seq().len() == small.child_seq().len() + 1
        &&& forall|j: int| 0 <= j < index ==> #[trigger] big.child_seq()[j] == small.child_seq()[j]
        &&& forall|j: int|
            index < j < small.child_seq().len() ==> big.child_seq()[j + 1]
                == #[trigger] small.child_seq()[j]
        &&& Self::joins(
            *small.child_seq()[index],
            *big.child_seq()[index],
            big.key_seq()[index],
            big.value_seq()[index],
            *big.child_seq()[index + 1],
        )
    }

    /// A key of this node is a key of its subtree.
    pub proof fn lemma_has_own_key(self, j: int)
        requires
            0 <= j < self.key_seq().len(),
        ensures
            self.has_key(self.key_seq()[j]),
    {
        assert(self.key_seq().contains(self.key_seq()[j]));
    }

    /// A key below a child is a key of this subtree.
    pub proof fn lemma_has_child_key(self, i: int, k: K)
        requires
            0 <= i < self.child_seq().len(),
            self.child_seq()[i].has_key(k),
        ensures
            self.has_key(k),
    {
    }

    /// Joining adds no key and loses none.
    pub proof fn lemma_joins_has_key(c: Self, l: Self, m: K, mv: V, r: Self, k: K)
        requires
            Self::joins(c, l, m, mv, r),
        ensures
            c.has_key(k) <==> (l.has_key(k) || k == m || r.has_key(k)),
    {
        let n = l.key_seq().len() as int;
        let nc = l.child_seq().len() as int;
        if c.has_key(k) {
            if c.key_seq().contains(k) {
                let j = choose|j: int| 0 <= j < c.key_seq().len() && c.key_seq()[j] == k;
                if j < n {
                    assert(l.key_seq()[j] == k);
                } else if j > n {
                    assert(r.key_seq()[j - n - 1] == k);
                }
            } else {
                let i = choose|i: int|
                    0 <= i < c.child_seq().len() && (#[trigger] c.child_seq()[i]).has_key(k);
                if i < nc {
                    assert(l.child_seq()[i].has_key(k));
                } else {
                    assert(r.child_seq()[i - nc].has_key(k));
                }
            }
        }
        if l.has_key(k) {
            if l.key_seq().contains(k) {
                let j = choose|j: int| 0 <= j < l.key_seq().len() && l.key_seq()[j] == k;
                assert(c.key_seq()[j] == k);
            } else {
                let i = choose|i: int|
                    0 <= i < l.child_seq().len() && (#[trigger] l.child_seq()[i]).has_key(k);
                assert(c.child_seq()[i].has_key(k));
            }
        }
        if r.has_key(k) {
            if r.key_seq().contains(k) {
                let j = choose|j: int| 0 <= j < r.key_seq().len() && r.key_seq()[j] == k;
                assert(c.key_seq()[j + n + 1] == k);
            } else {
                let i = choose|i: int|
                    0 <= i < r.child_seq().len() && (#[trigger] r.child_seq()[i]).has_key(k);
                assert(c.child_seq()[i + nc].has_key(k));
            }
        }
        if k == m {
            assert(c.key_seq()[n] == k);
        }
    }

    /// The two parts of a well-formed node are well-formed, as tall as the
    /// node, and lie on either side of the entry between them.
    pub proof fn lemma_cut_wf(c: Self, l: Self, m: K, mv: V, r: Self)
        requires
            total_order::<K>(),
            Self::joins(c, l, m, mv, r),
            c.wf(),
        ensures
            l.wf(),
            r.wf(),
            l.height() == c.height(),
            r.height() == c.height(),
            l.all_below(m),
            r.all_above(m),
    {
        let n = l.key_seq().len() as int;
        let nc = l.child_seq().len() as int;
        assert(c.key_seq().len() == n + 1 + r.key_seq().len());
        assert(c.key_seq()[n] == m);
        assert forall|i: int, j: int| 0 <= i < j < l.key_seq().len() implies lt(
            l.key_seq()[i],
            l.key_seq()[j],
        ) by {
            assert(c.key_seq()[i] == l.key_seq()[i]);
            assert(c.key_seq()[j] == l.key_seq()[j]);
        }
        assert forall|i: int, j: int| 0 <= i < j < r.key_seq().len() implies lt(
            r.key_seq()[i],
            r.key_seq()[j],
        ) by {
            assert(c.key_seq()[i + n + 1] == r.key_seq()[i]);
            assert(c.key_seq()[j + n + 1] == r.key_seq()[j]);
        }
        assert forall|i: int| 0 <= i < l.child_seq().len() implies {
            &&& (#[trigger] l.child_seq()[i]).wf()
            &&& l.child_seq()[i].key_seq().len() >= B - 1
            &&& l.child_seq()[i].height() == l.child_seq()[0].height()
            &&& 0 < i <= l.key_seq().len() ==> l.child_seq()[i].all_above(l.key_seq()[i - 1])
            &&& i < l.key_seq().len() ==> l.child_seq()[i].all_below(l.key_seq()[i])
            &&& l.child_seq()[i].all_below(m)
        } by {
            assert(c.child_seq()[i] == l.child_seq()[i]);
            assert(c.child_seq()[0] == l.child_seq()[0]);
            if 0 < i {
                assert(c.key_seq()[i - 1] == l.key_seq()[i - 1]);
            }
            if i < n {
                assert(c.key_seq()[i] == l.key_seq()[i]);
                assert(lt(c.key_seq()[i], c.key_seq()[n]));
            }
            assert(c.child_seq()[i].all_below(c.key_seq()[i]));
        }
        assert forall|i: int| 0 <= i < r.child_seq().len() implies {
            &&& (#[trigger] r.child_seq()[i]).wf()
            &&& r.child_seq()[i].key_seq().len() >= B - 1
            &&& r.child_seq()[i].height() == r.child_seq()[0].height()
            &&& 0 < i <= r.key_seq().len() ==> r.child_seq()[i].all_above(r.key_seq()[i - 1])
            &&& i < r.key_seq().len() ==> r.child_seq()[i].all_below(r.key_seq()[i])
            &&& r.child_seq()[i].all_above(m)
        } by {
            assert(c.child_seq()[i + nc] == r.child_seq()[i]);
            assert(c.child_seq()[nc] == r.child_seq()[0]);
            if 0 < i {
                assert(c.key_seq()[i + nc - 1] == r.key_seq()[i - 1]);
                assert(lt(c.key_seq()[n], c.key_seq()[i + nc - 1]));
            }
            if i < r.key_seq().len() {
                assert(c.key_seq()[i + nc] == r.key_seq()[i]);
            }
            assert(c.child_seq()[i + nc].all_above(c.key_seq()[i + nc - 1]));
        }
        if !c.is_leaf() {
            assert(c.child_seq()[0] == l.child_seq()[0]);
            assert(c.child_seq()[nc] == r.child_seq()[0]);
        }
        assert forall|k: K| #[trigger] l.has_key(k) implies lt(k, m) by {
            if l.key_seq().contains(k) {
                let j = choose|j: int| 0 <= j < l.key_seq().len() && l.key_seq()[j] == k;
                assert(c.key_seq()[j] == k);
            } else {
                let i = choose|i: int|
                    0 <= i < l.child_seq().len() && (#[trigger] l.child_seq()[i]).has_key(k);
                assert(l.child_seq()[i].all_below(m));
            }
        }
        assert forall|k: K| #[trigger] r.has_key(k) implies lt(m, k) by {
            if r.key_seq().contains(k) {
                let j = choose|j: int| 0 <= j < r.key_seq().len() && r.key_seq()[j] == k;
                assert(c.key_seq()[j + n + 1] == k);
            } else {
                let i = choose|i: int|
                    0 <= i < r.child_seq().len() && (#[trigger] r.child_seq()[i]).has_key(k);
                assert(r.child_seq()[i].all_above(m));
            }
        }
    }

    /// Two well-formed nodes of one height that lie on either side of an
    /// entry, and are small enough together, join into a well-formed node.
    pub proof fn lemma_join_wf(c: Self, l: Self, m: K, mv: V, r: Self)
        requires
            total_order::<K>(),
            Self::joins(c, l, m, mv, r),
            l.wf(),
            r.wf(),
            l.height() == r.height(),
            l.key_seq().len() + r.key_seq().len() + 1 <= 2 * B - 1,
            l.all_below(m),
            r.all_above(m),
        ensures
            c.wf(),
            c.height() == l.height(),
    {
        let n = l.key_seq().len() as int;
        let nc = l.child_seq().len() as int;
        assert(c.key_seq().len() == n + 1 + r.key_seq().len());
        assert(c.key_seq()[n] == m);
        assert forall|i: int, j: int| 0 <= i < j < c.key_seq().len() implies lt(
            c.key_seq()[i],
            c.key_seq()[j],
        ) by {
            if i < n {
                assert(c.key_seq()[i] == l.key_seq()[i]);
                l.lemma_has_own_key(i);
            }
            if j < n {
                assert(c.key_seq()[j] == l.key_seq()[j]);
            }
            if i > n {
                assert(c.key_seq()[i] == r.key_seq()[i - n - 1]);
            }
            if j > n {
                assert(c.key_seq()[j] == r.key_seq()[j - n - 1]);
                r.lemma_has_own_key(j - n - 1);
            }
        }
        assert forall|i: int| 0 <= i < c.child_seq().len() implies {
            &&& (#[trigger] c.child_seq()[i]).wf()
            &&& c.child_seq()[i].key_seq().len() >= B - 1
            &&& c.child_seq()[i].height() == c.child_seq()[0].height()
            &&& 0 < i <= c.key_seq().len() ==> c.child_seq()[i].all_above(c.key_seq()[i - 1])
            &&& i < c.key_seq().len() ==> c.child_seq()[i].all_below(c.key_seq()[i])
        } by {
            assert(c.child_seq()[0] == l.child_seq()[0]);
            if i < nc {
                let ch = l.child_seq()[i];
                assert(c.child_seq()[i] == ch);
                if 0 < i {
                    assert(c.key_seq()[i - 1] == l.key_seq()[i - 1]);
                }
                if i < n {
                    assert(c.key_seq()[i] == l.key_seq()[i]);
                } else {
                    assert forall|k: K| #[trigger] ch.has_key(k) implies lt(k, m) by {
                        l.lemma_has_child_key(i, k);
                    }
                }
            } else {
                let ch = r.child_seq()[i - nc];
                assert(c.child_seq()[i] == ch);
                assert(r.child_seq()[0].height() == l.child_seq()[0].height());
                if i < c.key_seq().len() {
                    assert(c.key_seq()[i] == r.key_seq()[i - nc]);
                }
                if i > nc {
                    assert(c.key_seq()[i - 1] == r.key_seq()[i - nc - 1]);
                } else {
                    assert forall|k: K| #[trigger] ch.has_key(k) implies lt(m, k) by {
                        r.lemma_has_child_key(0, k);
                    }
                }
            }
        }
        if !c.is_leaf() {
            assert(c.child_seq()[0] == l.child_seq()[0]);
        }
    }

    /// Joining keeps the value of every key.
    pub proof fn lemma_joins_value(c: Self, l: Self, m: K, mv: V, r: Self, k: K)
        requires
            total_order::<K>(),
            Self::joins(c, l, m, mv, r),
            c.wf(),
            l.wf(),
            r.wf(),
        ensures
            l.has_key(k) ==> c.value_of(k) == l.value_of(k),
            r.has_key(k) ==> c.value_of(k) == r.value_of(k),
            c.value_of(m) == mv,
    {
        let n = l.key_seq().len() as int;
        let nc = l.child_seq().len() as int;
        assert(c.key_seq()[n] == m);
        assert(c.value_seq()[n] == mv);
        c.lemma_own_key(n);
        if l.has_key(k) {
            if l.key_seq().contains(k) {
                let j = choose|j: int| 0 <= j < l.key_seq().len() && l.key_seq()[j] == k;
                assert(c.key_seq()[j] == k);
                assert(c.value_seq()[j] == l.value_seq()[j]);
                c.lemma_own_key(j);
                l.lemma_own_key(j);
            } else {
                let i = choose|i: int|
                    0 <= i < l.child_seq().len() && (#[trigger] l.child_seq()[i]).has_key(k);
                assert(c.child_seq()[i] == l.child_seq()[i]);
                c.lemma_key_in_one_child(i, k);
                l.lemma_key_in_one_child(i, k);
            }
        }
        if r.has_key(k) {
            if r.key_seq().contains(k) {
                let j = choose|j: int| 0 <= j < r.key_seq().len() && r.key_seq()[j] == k;
                assert(c.key_seq()[j + n + 1] == k);
                assert(c.value_seq()[j + n + 1] == r.value_seq()[j]);
                c.lemma_own_key(j + n + 1);
                r.lemma_own_key(j);
            } else {
                let i = choose|i: int|
                    0 <= i < r.child_seq().len() && (#[trigger] r.child_seq()[i]).has_key(k);
                assert(c.child_seq()[i + nc] == r.child_seq()[i]);
                c.lemma_key_in_one_child(i + nc, k);
                r.lemma_key_in_one_child(i, k);
            }
        }
    }

    /// Cutting a child in two neither adds nor removes a key.
    pub proof fn lemma_splits_has_key(small: Self, big: Self, index: int, k: K)
        requires
            Self::splits(small, big, index),
        ensures
            small.has_key(k) <==> big.has_key(k),
    {
        let c = *small.child_seq()[index];
        let l = *big.child_seq()[index];
        let r = *big.child_seq()[index + 1];
        let m = big.key_seq()[index];
        Self::lemma_joins_has_key(c, l, m, big.value_seq()[index], r, k);
        if small.has_key(k) {
            if small.key_seq().contains(k) {
                let j = choose|j: int| 0 <= j < small.key_seq().len() && small.key_seq()[j] == k;
                if j < index {
                    assert(big.key_seq()[j] == k);
                } else {
                    assert(big.key_seq()[j + 1] == k);
                }
            } else {
                let i = choose|i: int|
                    0 <= i < small.child_seq().len() && (#[trigger] small.child_seq()[i]).has_key(k);
                if i < index {
                    assert(big.child_seq()[i].has_key(k));
                } else if i > index {
                    assert(big.child_seq()[i + 1].has_key(k));
                } else {
                    if k == m {
                        big.lemma_has_own_key(index);
                    } else if l.has_key(k) {
                        big.lemma_has_child_key(index, k);
                    } else {
                        big.lemma_has_child_key(index + 1, k);
                    }
                }
            }
        }
        if big.has_key(k) {
            if big.key_seq().contains(k) {
                let j = choose|j: int| 0 <= j < big.key_seq().len() && big.key_seq()[j] == k;
                if j < index {
                    assert(small.key_seq()[j] == k);
                } else if j > index {
                    assert(small.key_seq()[j - 1] == k);
                } else {
                    small.lemma_has_child_key(index, k);
                }
            } else {
                let i = choose|i: int|
                    0 <= i < big.child_seq().len() && (#[trigger] big.child_seq()[i]).has_key(k);
                if i < index {
                    assert(small.child_seq()[i].has_key(k));
                } else if i > index + 1 {
                    assert(small.child_seq()[i - 1] == big.child_seq()[i]);
                    small.lemma_has_child_key(i - 1, k);
                } else {
                    small.lemma_has_child_key(index, k);
                }
            }
        }
    }

    /// Cutting a full enough child of a well-formed node in two leaves the
    /// node well-formed and as tall as before.
    pub proof fn lemma_split_wf(small: Self, big: Self, index: int)
        requires
            total_order::<K>(),
            Self::splits(small, big, index),
            small.wf(),
            small.key_seq().len() < 2 * B - 1,
            big.child_seq()[index].key_seq().len() >= B - 1,
            big.child_seq()[index + 1].key_seq().len() >= B - 1,
        ensures
            big.wf(),
            big.height() == small.height(),
    {
        let c = *small.child_seq()[index];
        let l = *big.child_seq()[index];
        let r = *big.child_seq()[index + 1];
        let m = big.key_seq()[index];
        let mv = big.value_seq()[index];
        Self::lemma_cut_wf(c, l, m, mv, r);
        assert(c.key_seq()[l.key_seq().len() as int] == m);
        c.lemma_has_own_key(l.key_seq().len() as int);
        assert(c.has_key(m));
        assert(big.key_seq().len() == small.key_seq().len() + 1);
        assert forall|j: int| 0 <= j < big.key_seq().len() && j != index implies big.key_seq()[j]
            == small.key_seq()[if j < index { j } else { j - 1 }] by {}
        if index > 0 {
            assert(small.child_seq()[index].all_above(small.key_seq()[index - 1]));
        }
        if index < small.key_seq().len() {
            assert(small.child_seq()[index].all_below(small.key_seq()[index]));
        }
        assert forall|i: int, j: int| 0 <= i < j < big.key_seq().len() implies lt(
            big.key_seq()[i],
            big.key_seq()[j],
        ) by {
            if j == index {
                assert(lt(small.key_seq()[index - 1], m));
                if i < index - 1 {
                    assert(lt(small.key_seq()[i], small.key_seq()[index - 1]));
                }
            } else if i == index {
                assert(lt(m, small.key_seq()[index]));
                if j > index + 1 {
                    assert(lt(small.key_seq()[index], small.key_seq()[j - 1]));
                }
            } else {
                let i0 = if i < index { i } else { i - 1 };
                let j0 = if j < index { j } else { j - 1 };
                assert(lt(small.key_seq()[i0], small.key_seq()[j0]));
            }
        }
        assert forall|k: K| #[trigger] l.has_key(k) implies c.has_key(k) by {
            Self::lemma_joins_has_key(c, l, m, mv, r, k);
        }
        assert forall|k: K| #[trigger] r.has_key(k) implies c.has_key(k) by {
            Self::lemma_joins_has_key(c, l, m, mv, r, k);
        }
        assert(small.child_seq()[0].height() == c.height());
        assert forall|j: int| 0 <= j < big.child_seq().len() implies {
            &&& (#[trigger] big.child_seq()[j]).wf()
            &&& big.child_seq()[j].key_seq().len() >= B - 1
            &&& big.child_seq()[j].height() == c.height()
            &&& 0 < j <= big.key_seq().len() ==> big.child_seq()[j].all_above(big.key_seq()[j - 1])
            &&& j < big.key_seq().len() ==> big.child_seq()[j].all_below(big.key_seq()[j])
        } by {
            if j < index {
                assert(big.child_seq()[j] == small.child_seq()[j]);
            } else if j > index + 1 {
                assert(big.child_seq()[j] == small.child_seq()[j - 1]);
            }
        }
    }

    /// Joining two children of a well-formed node that are small enough
    /// together leaves the node well-formed, but for the number of its own
    /// keys, and as tall as before.
    pub proof fn lemma_merge_wf(small: Self, big: Self, index: int)
        requires
            total_order::<K>(),
            Self::splits(small, big, index),
            big.wf(),
            big.child_seq()[index].key_seq().len() + big.child_seq()[index + 1].key_seq().len() + 1
                <= 2 * B - 1,
        ensures
            small.wf(),
            small.height() == big.height(),
    {
        let c = *small.child_seq()[index];
        let l = *big.child_seq()[index];
        let r = *big.child_seq()[index + 1];
        let m = big.key_seq()[index];
        let mv = big.value_seq()[index];
        assert(big.child_seq()[index].all_below(big.key_seq()[index]));
        assert(big.child_seq()[index + 1].all_above(big.key_seq()[index]));
        assert(l.height() == big.child_seq()[0].height());
        assert(r.height() == big.child_seq()[0].height());
        Self::lemma_join_wf(c, l, m, mv, r);
        assert(small.key_seq().len() == big.key_seq().len() - 1);
        assert forall|j: int| 0 <= j < small.key_seq().len() implies small.key_seq()[j]
            == big.key_seq()[if j < index { j } else { j + 1 }] by {}
        assert forall|i: int, j: int| 0 <= i < j < small.key_seq().len() implies lt(
            small.key_seq()[i],
            small.key_seq()[j],
        ) by {
            let i0 = if i < index { i } else { i + 1 };
            let j0 = if j < index { j } else { j + 1 };
            assert(lt(big.key_seq()[i0], big.key_seq()[j0]));
        }
        if index > 0 {
            assert(big.child_seq()[index].all_above(big.key_seq()[index - 1]));
            assert(lt(big.key_seq()[index - 1], m));
            assert forall|k: K| #[trigger] c.has_key(k) implies lt(big.key_seq()[index - 1], k) by {
                Self::lemma_joins_has_key(c, l, m, mv, r, k);
            }
        }
        if index + 1 < big.key_seq().len() {
            assert(big.child_seq()[index + 1].all_below(big.key_seq()[index + 1]));
            assert(lt(m, big.key_seq()[index + 1]));
            assert forall|k: K| #[trigger] c.has_key(k) implies lt(k, big.key_seq()[index + 1]) by {
                Self::lemma_joins_has_key(c, l, m, mv, r, k);
            }
        }
        assert forall|j: int| 0 <= j < small.child_seq().len() implies {
            &&& (#[trigger] small.child_seq()[j]).wf()
            &&& small.child_seq()[j].key_seq().len() >= B - 1
            &&& small.child_seq()[j].height() == l.height()
            &&& 0 < j <= small.key_seq().len() ==> small.child_seq()[j].all_above(
                small.key_seq()[j - 1],
            )
            &&& j < small.key_seq().len() ==> small.child_seq()[j].all_below(small.key_seq()[j])
        } by {
            if j < index {
                assert(big.child_seq()[j] == small.child_seq()[j]);
            } else if j > index {
                assert(big.child_seq()[j + 1] == small.child_seq()[j]);
            }
        }
    }

    /// Cutting a child in two, or joining two children, keeps the map that
    /// the subtree stands for.
    pub proof fn lemma_splits_view(small: Self, big: Self, index: int)
        requires
            total_order::<K>(),
            Self::splits(small, big, index),
            small.wf(),
            big.wf(),
        ensures
            small@ == big@,
    {
        let c = *small.child_seq()[index];
        let l = *big.child_seq()[index];
        let r = *big.child_seq()[index + 1];
        let m = big.key_seq()[index];
        let mv = big.value_seq()[index];
        assert forall|k: K| small.has_key(k) == big.has_key(k) by {
            Self::lemma_splits_has_key(small, big, index, k);
        }
        assert forall|k: K| small.has_key(k) implies small.value_of(k) == big.value_of(k) by {
            if small.key_seq().contains(k) {
                let j = choose|j: int| 0 <= j < small.key_seq().len() && small.key_seq()[j] == k;
                small.lemma_own_key(j);
                if j < index {
                    big.lemma_own_key(j);
                } else {
                    big.lemma_own_key(j + 1);
                }
            } else {
                let i = choose|i: int|
                    0 <= i < small.child_seq().len() && (#[trigger] small.child_seq()[i]).has_key(k);
                small.lemma_key_in_one_child(i, k);
                if i < index {
                    assert(big.child_seq()[i] == small.child_seq()[i]);
                    big.lemma_key_in_one_child(i, k);
                } else if i > index {
                    assert(big.child_seq()[i + 1] == small.child_seq()[i]);
                    big.lemma_key_in_one_child(i + 1, k);
                } else {
                    Self::lemma_joins_has_key(c, l, m, mv, r, k);
                    Self::lemma_joins_value(c, l, m, mv, r, k);
                    if k == m {
                        big.lemma_own_key(index);
                    } else if l.has_key(k) {
                        big.lemma_key_in_one_child(index, k);
                    } else {
                        big.lemma_key_in_one_child(index + 1, k);
                    }
                }
            }
        }
        assert(small@ =~= big@);
    }
}

} // verus!
