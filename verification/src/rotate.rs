//! How moving one entry between two neighbouring children, through the
//! parent, relates the tree before to the tree after.

use vstd::prelude::*;
use crate::btree::{Node, B};
use crate::order::{lt, total_order};

verus! {

impl<K: Ord + Clone, V: Clone> Node<K, V> {
    /// `post` is `pre` but for the entry at `i` and the children on either
    /// side of it.
    pub open spec fn replaces_pair(pre: Self, post: Self, i: int) -> bool {
        &&& 0 <= i < pre.key_seq().len()
        &&& pre.child_seq().len() == pre.key_seq().len() + 1
        &&& post.key_seq() == pre.key_seq().update(i, post.key_seq()[i])
        &&& post.value_seq() == pre.value_seq().update(i, post.value_seq()[i])
        &&& post.child_seq().len() == pre.child_seq().len()
        &&& forall|j: int|
            0 <= j < pre.child_seq().len() && j != i && j != i + 1 ==> #[trigger] post.child_seq()[j]
                == pre.child_seq()[j]
    }

    /// A new entry at `i` between the keys around it, with well-formed
    /// children of the old height on either side that respect it and the
    /// keys further out, leaves the node well-formed.
    pub proof fn lemma_pair_replaced_wf(pre: Self, post: Self, i: int)
        requires
            total_order::<K>(),
            Self::replaces_pair(pre, post, i),
            pre.wf(),
            post.child_seq()[i].wf(),
            post.child_seq()[i + 1].wf(),
            post.child_seq()[i].height() == pre.child_seq()[i].height(),
            post.child_seq()[i + 1].height() == pre.child_seq()[i].height(),
            post.child_seq()[i].key_seq().len() >= B - 1,
            post.child_seq()[i + 1].key_seq().len() >= B - 1,
            post.child_seq()[i].all_below(post.key_seq()[i]),
            post.child_seq()[i + 1].all_above(post.key_seq()[i]),
            0 < i ==> post.child_seq()[i].all_above(pre.key_seq()[i - 1]) && lt(
                pre.key_seq()[i - 1],
                post.key_seq()[i],
            ),
            i + 1 < pre.key_seq().len() ==> post.child_seq()[i + 1].all_below(pre.key_seq()[i + 1])
                && lt(post.key_seq()[i], pre.key_seq()[i + 1]),
        ensures
            post.wf(),
            post.height() == pre.height(),
    {
        assert forall|x: int, y: int| 0 <= x < y < post.key_seq().len() implies lt(
            post.key_seq()[x],
            post.key_seq()[y],
        ) by {
            if y == i {
                if x < i - 1 {
                    assert(lt(pre.key_seq()[x], pre.key_seq()[i - 1]));
                }
            } else if x == i {
                if y > i + 1 {
                    assert(lt(pre.key_seq()[i + 1], pre.key_seq()[y]));
                }
            } else {
                assert(lt(pre.key_seq()[x], pre.key_seq()[y]));
            }
        }
        assert(pre.child_seq()[i].height() == pre.child_seq()[0].height());
        assert forall|j: int| 0 <= j < post.child_seq().len() implies {
            &&& (#[trigger] post.child_seq()[j]).wf()
            &&& post.child_seq()[j].key_seq().len() >= B - 1
            &&& post.child_seq()[j].height() == pre.child_seq()[0].height()
            &&& 0 < j <= post.key_seq().len() ==> post.child_seq()[j].all_above(
                post.key_seq()[j - 1],
            )
            &&& j < post.key_seq().len() ==> post.child_seq()[j].all_below(post.key_seq()[j])
        } by {
            if j != i && j != i + 1 {
                assert(post.child_seq()[j] == pre.child_seq()[j]);
            }
        }
    }

    /// `b` is `a` after the last entry of the child at `i - 1` has moved up
    /// into the parent, and the entry that stood between the two children has
    /// moved down to the front of the child at `i`, with the last child of
    /// the former in front of the children of the latter.
    pub open spec fn rotates(a: Self, b: Self, i: int) -> bool {
        let al = a.child_seq()[i - 1];
        let ar = a.child_seq()[i];
        let bl = b.child_seq()[i - 1];
        let br = b.child_seq()[i];
        &&& 0 < i < a.child_seq().len()
        &&& a.value_seq().len() == a.key_seq().len()
        &&& Self::replaces_pair(a, b, i - 1)
        &&& al.key_seq() == bl.key_seq().push(b.key_seq()[i - 1])
        &&& al.value_seq() == bl.value_seq().push(b.value_seq()[i - 1])
        &&& br.key_seq() == seq![a.key_seq()[i - 1]] + ar.key_seq()
        &&& br.value_seq() == seq![a.value_seq()[i - 1]] + ar.value_seq()
        &&& bl.value_seq().len() == bl.key_seq().len()
        &&& ar.value_seq().len() == ar.key_seq().len()
        &&& al.is_leaf() == ar.is_leaf()
        &&& if al.is_leaf() {
            bl.is_leaf() && br.is_leaf()
        } else {
            &&& al.child_seq().len() == al.key_seq().len() + 1
            &&& bl.child_seq() == al.child_seq().drop_last()
            &&& br.child_seq() == seq![al.child_seq().last()] + ar.child_seq()
        }
    }

    /// What the two children hold, before and after a rotation.
    pub proof fn lemma_rotates_parts(a: Self, b: Self, i: int, k: K)
        requires
            Self::rotates(a, b, i),
        ensures
            a.child_seq()[i - 1].has_key(k) <==> (b.child_seq()[i - 1].has_key(k) || k
                == b.key_seq()[i - 1] || (!a.child_seq()[i - 1].is_leaf()
                && a.child_seq()[i - 1].child_seq().last().has_key(k))),
            b.child_seq()[i].has_key(k) <==> (a.child_seq()[i].has_key(k) || k == a.key_seq()[i
                - 1] || (!a.child_seq()[i - 1].is_leaf()
                && a.child_seq()[i - 1].child_seq().last().has_key(k))),
    {
        let al = *a.child_seq()[i - 1];
        let ar = *a.child_seq()[i];
        let bl = *b.child_seq()[i - 1];
        let br = *b.child_seq()[i];
        let n = bl.key_seq().len() as int;
        assert(al.key_seq()[n] == b.key_seq()[i - 1]);
        assert(br.key_seq()[0] == a.key_seq()[i - 1]);
        al.lemma_has_own_key(n);
        br.lemma_has_own_key(0);
        if !al.is_leaf() {
            let x = al.child_seq().last();
            assert(al.child_seq()[n + 1] == x);
            assert(br.child_seq()[0] == x);
            if x.has_key(k) {
                al.lemma_has_child_key(n + 1, k);
                br.lemma_has_child_key(0, k);
            }
        }
        if al.has_key(k) {
            if al.key_seq().contains(k) {
                let j = choose|j: int| 0 <= j < al.key_seq().len() && al.key_seq()[j] == k;
                if j < n {
                    assert(bl.key_seq()[j] == k);
                }
            } else {
                let j = choose|j: int|
                    0 <= j < al.child_seq().len() && (#[trigger] al.child_seq()[j]).has_key(k);
                if j < n + 1 {
                    assert(bl.child_seq()[j] == al.child_seq()[j]);
                    bl.lemma_has_child_key(j, k);
                }
            }
        }
        if bl.has_key(k) {
            if bl.key_seq().contains(k) {
                let j = choose|j: int| 0 <= j < bl.key_seq().len() && bl.key_seq()[j] == k;
                assert(al.key_seq()[j] == k);
            } else {
                let j = choose|j: int|
                    0 <= j < bl.child_seq().len() && (#[trigger] bl.child_seq()[j]).has_key(k);
                assert(bl.child_seq()[j] == al.child_seq()[j]);
                al.lemma_has_child_key(j, k);
            }
        }
        if br.has_key(k) {
            if br.key_seq().contains(k) {
                let j = choose|j: int| 0 <= j < br.key_seq().len() && br.key_seq()[j] == k;
                if j > 0 {
                    assert(ar.key_seq()[j - 1] == k);
                }
            } else {
                let j = choose|j: int|
                    0 <= j < br.child_seq().len() && (#[trigger] br.child_seq()[j]).has_key(k);
                if j > 0 {
                    assert(br.child_seq()[j] == ar.child_seq()[j - 1]);
                    ar.lemma_has_child_key(j - 1, k);
                }
            }
        }
        if ar.has_key(k) {
            if ar.key_seq().contains(k) {
                let j = choose|j: int| 0 <= j < ar.key_seq().len() && ar.key_seq()[j] == k;
                assert(br.key_seq()[j + 1] == k);
            } else {
                let j = choose|j: int|
                    0 <= j < ar.child_seq().len() && (#[trigger] ar.child_seq()[j]).has_key(k);
                assert(br.child_seq()[j + 1] == ar.child_seq()[j]);
                br.lemma_has_child_key(j + 1, k);
            }
        }
    }

    /// A rotation neither adds nor removes a key.
    pub proof fn lemma_rotates_has_key(a: Self, b: Self, i: int, k: K)
        requires
            Self::rotates(a, b, i),
        ensures
            a.has_key(k) <==> b.has_key(k),
    {
        Self::lemma_rotates_parts(a, b, i, k);
        a.lemma_has_own_key(i - 1);
        b.lemma_has_own_key(i - 1);
        if a.child_seq()[i - 1].has_key(k) {
            a.lemma_has_child_key(i - 1, k);
        }
        if a.child_seq()[i].has_key(k) {
            a.lemma_has_child_key(i, k);
        }
        if b.child_seq()[i - 1].has_key(k) {
            b.lemma_has_child_key(i - 1, k);
        }
        if b.child_seq()[i].has_key(k) {
            b.lemma_has_child_key(i, k);
        }
        if a.has_key(k) {
            if a.key_seq().contains(k) {
                let j = choose|j: int| 0 <= j < a.key_seq().len() && a.key_seq()[j] == k;
                if j != i - 1 {
                    assert(b.key_seq()[j] == k);
                }
            } else {
                let j = choose|j: int|
                    0 <= j < a.child_seq().len() && (#[trigger] a.child_seq()[j]).has_key(k);
                if j != i - 1 && j != i {
                    assert(b.child_seq()[j] == a.child_seq()[j]);
                    b.lemma_has_child_key(j, k);
                }
            }
        }
        if b.has_key(k) {
            if b.key_seq().contains(k) {
                let j = choose|j: int| 0 <= j < b.key_seq().len() && b.key_seq()[j] == k;
                if j != i - 1 {
                    assert(a.key_seq()[j] == k);
                }
            } else {
                let j = choose|j: int|
                    0 <= j < b.child_seq().len() && (#[trigger] b.child_seq()[j]).has_key(k);
                if j != i - 1 && j != i {
                    assert(b.child_seq()[j] == a.child_seq()[j]);
                    a.lemma_has_child_key(j, k);
                }
            }
        }
    }

    /// Moving an entry from a child that can spare one to its right
    /// neighbour, which has room, keeps the node well-formed.
    pub proof fn lemma_rotate_right_wf(a: Self, b: Self, i: int)
        requires
            total_order::<K>(),
            Self::rotates(a, b, i),
            a.wf(),
            a.child_seq()[i - 1].key_seq().len() >= B,
            a.child_seq()[i].key_seq().len() < 2 * B - 1,
        ensures
            b.wf(),
            b.height() == a.height(),
    {
        let al = *a.child_seq()[i - 1];
        let ar = *a.child_seq()[i];
        let bl = *b.child_seq()[i - 1];
        let br = *b.child_seq()[i];
        let n = bl.key_seq().len() as int;
        let sa = a.key_seq()[i - 1];
        let sb = b.key_seq()[i - 1];
        assert(al.key_seq()[n] == sb);
        assert(br.key_seq()[0] == sa);
        al.lemma_has_own_key(n);
        assert(a.child_seq()[i - 1].all_below(sa));
        assert(a.child_seq()[i].all_above(sa));
        assert(al.wf() && ar.wf());
        assert(al.height() == a.child_seq()[0].height());
        assert(ar.height() == a.child_seq()[0].height());
        assert(lt(sb, sa));
        // the left child without its last entry
        assert forall|x: int, y: int| 0 <= x < y < bl.key_seq().len() implies lt(
            bl.key_seq()[x],
            bl.key_seq()[y],
        ) by {
            assert(bl.key_seq()[x] == al.key_seq()[x]);
            assert(bl.key_seq()[y] == al.key_seq()[y]);
        }
        assert forall|j: int| 0 <= j < bl.child_seq().len() implies {
            &&& (#[trigger] bl.child_seq()[j]).wf()
            &&& bl.child_seq()[j].key_seq().len() >= B - 1
            &&& bl.child_seq()[j].height() == bl.child_seq()[0].height()
            &&& 0 < j <= bl.key_seq().len() ==> bl.child_seq()[j].all_above(bl.key_seq()[j - 1])
            &&& j < bl.key_seq().len() ==> bl.child_seq()[j].all_below(bl.key_seq()[j])
            &&& bl.child_seq()[j].all_below(sb)
        } by {
            assert(bl.child_seq()[j] == al.child_seq()[j]);
            assert(bl.child_seq()[0] == al.child_seq()[0]);
            if 0 < j {
                assert(bl.key_seq()[j - 1] == al.key_seq()[j - 1]);
            }
            if j < n {
                assert(bl.key_seq()[j] == al.key_seq()[j]);
                assert(lt(al.key_seq()[j], al.key_seq()[n]));
            }
            assert(al.child_seq()[j].all_below(al.key_seq()[j]));
        }
        assert(bl.wf());
        assert forall|k: K| #[trigger] bl.has_key(k) implies lt(k, sb) && al.has_key(k) by {
            Self::lemma_rotates_parts(a, b, i, k);
            if bl.key_seq().contains(k) {
                let j = choose|j: int| 0 <= j < bl.key_seq().len() && bl.key_seq()[j] == k;
                assert(al.key_seq()[j] == k);
            } else {
                let j = choose|j: int|
                    0 <= j < bl.child_seq().len() && (#[trigger] bl.child_seq()[j]).has_key(k);
                assert(bl.child_seq()[j].all_below(sb));
            }
        }
        // the right child with the old separator in front
        assert forall|x: int, y: int| 0 <= x < y < br.key_seq().len() implies lt(
            br.key_seq()[x],
            br.key_seq()[y],
        ) by {
            assert(br.key_seq()[y] == ar.key_seq()[y - 1]);
            ar.lemma_has_own_key(y - 1);
            if x > 0 {
                assert(br.key_seq()[x] == ar.key_seq()[x - 1]);
            }
        }
        if !al.is_leaf() {
            let x = al.child_seq().last();
            assert(al.child_seq()[n + 1] == x);
            assert(br.child_seq()[0] == x);
            assert(al.child_seq()[n + 1].all_above(al.key_seq()[n]));
            assert(x.all_below(sa)) by {
                assert forall|k: K| #[trigger] x.has_key(k) implies lt(k, sa) by {
                    al.lemma_has_child_key(n + 1, k);
                }
            }
            assert(bl.child_seq()[0] == al.child_seq()[0]);
            assert(al.child_seq()[n + 1].height() == al.child_seq()[0].height());
        }
        assert forall|j: int| 0 <= j < br.child_seq().len() implies {
            &&& (#[trigger] br.child_seq()[j]).wf()
            &&& br.child_seq()[j].key_seq().len() >= B - 1
            &&& br.child_seq()[j].height() == br.child_seq()[0].height()
            &&& 0 < j <= br.key_seq().len() ==> br.child_seq()[j].all_above(br.key_seq()[j - 1])
            &&& j < br.key_seq().len() ==> br.child_seq()[j].all_below(br.key_seq()[j])
        } by {
            if j > 0 {
                let ch = ar.child_seq()[j - 1];
                assert(br.child_seq()[j] == ch);
                assert(ch.height() == ar.child_seq()[0].height());
                if j < br.key_seq().len() {
                    assert(br.key_seq()[j] == ar.key_seq()[j - 1]);
                }
                if j > 1 {
                    assert(br.key_seq()[j - 1] == ar.key_seq()[j - 2]);
                } else {
                    assert forall|k: K| #[trigger] ch.has_key(k) implies lt(sa, k) by {
                        ar.lemma_has_child_key(0, k);
                    }
                }
            }
        }
        assert(br.wf());
        assert forall|k: K| #[trigger] br.has_key(k) implies lt(sb, k) by {
            Self::lemma_rotates_parts(a, b, i, k);
        }
        if i - 1 > 0 {
            assert(a.child_seq()[i - 1].all_above(a.key_seq()[i - 2]));
        }
        if i < a.key_seq().len() {
            assert(a.child_seq()[i].all_below(a.key_seq()[i]));
            assert(lt(sa, a.key_seq()[i]));
            assert forall|k: K| #[trigger] br.has_key(k) implies lt(k, a.key_seq()[i]) by {
                Self::lemma_rotates_parts(a, b, i, k);
                if !al.is_leaf() && al.child_seq().last().has_key(k) {
                    al.lemma_has_child_key(n + 1, k);
                }
            }
        }
        Self::lemma_pair_replaced_wf(a, b, i - 1);
    }

    /// Moving an entry from a child that can spare one to its left
    /// neighbour, which has room, keeps the node well-formed.
    pub proof fn lemma_rotate_left_wf(a: Self, b: Self, i: int)
        requires
            total_order::<K>(),
            Self::rotates(a, b, i),
            b.wf(),
            b.child_seq()[i].key_seq().len() >= B,
            b.child_seq()[i - 1].key_seq().len() < 2 * B - 1,
        ensures
            a.wf(),
            a.height() == b.height(),
    {
        let al = *a.child_seq()[i - 1];
        let ar = *a.child_seq()[i];
        let bl = *b.child_seq()[i - 1];
        let br = *b.child_seq()[i];
        let n = bl.key_seq().len() as int;
        let sa = a.key_seq()[i - 1];
        let sb = b.key_seq()[i - 1];
        assert(al.key_seq()[n] == sb);
        assert(br.key_seq()[0] == sa);
        br.lemma_has_own_key(0);
        assert(b.child_seq()[i - 1].all_below(sb));
        assert(b.child_seq()[i].all_above(sb));
        assert(bl.wf() && br.wf());
        assert(bl.height() == b.child_seq()[0].height());
        assert(br.height() == b.child_seq()[0].height());
        assert(lt(sb, sa));
        assert(a.key_seq() =~= b.key_seq().update(i - 1, sa));
        assert(a.value_seq() =~= b.value_seq().update(i - 1, a.value_seq()[i - 1]));
        assert(Self::replaces_pair(b, a, i - 1));
        // the left child with the old separator at its end
        assert forall|x: int, y: int| 0 <= x < y < al.key_seq().len() implies lt(
            al.key_seq()[x],
            al.key_seq()[y],
        ) by {
            assert(al.key_seq()[x] == bl.key_seq()[x]);
            bl.lemma_has_own_key(x);
            if y < n {
                assert(al.key_seq()[y] == bl.key_seq()[y]);
            }
        }
        if !al.is_leaf() {
            let x = al.child_seq().last();
            assert(al.child_seq()[n + 1] == x);
            assert(br.child_seq()[0] == x);
            assert(br.child_seq()[0].all_below(br.key_seq()[0]));
            assert(x.all_above(sb)) by {
                assert forall|k: K| #[trigger] x.has_key(k) implies lt(sb, k) by {
                    br.lemma_has_child_key(0, k);
                }
            }
            assert(bl.child_seq()[0] == al.child_seq()[0]);
        }
        assert forall|j: int| 0 <= j < al.child_seq().len() implies {
            &&& (#[trigger] al.child_seq()[j]).wf()
            &&& al.child_seq()[j].key_seq().len() >= B - 1
            &&& al.child_seq()[j].height() == al.child_seq()[0].height()
            &&& 0 < j <= al.key_seq().len() ==> al.child_seq()[j].all_above(al.key_seq()[j - 1])
            &&& j < al.key_seq().len() ==> al.child_seq()[j].all_below(al.key_seq()[j])
        } by {
            if j < n + 1 {
                let ch = bl.child_seq()[j];
                assert(al.child_seq()[j] == ch);
                if 0 < j {
                    assert(al.key_seq()[j - 1] == bl.key_seq()[j - 1]);
                }
                if j < n {
                    assert(al.key_seq()[j] == bl.key_seq()[j]);
                } else {
                    assert forall|k: K| #[trigger] ch.has_key(k) implies lt(k, sb) by {
                        bl.lemma_has_child_key(j, k);
                    }
                }
            } else {
                assert(br.height() == bl.height());
            }
        }
        assert(al.wf());
        assert forall|k: K| #[trigger] al.has_key(k) implies lt(k, sa) by {
            Self::lemma_rotates_parts(a, b, i, k);
            if !al.is_leaf() && al.child_seq().last().has_key(k) {
                br.lemma_has_child_key(0, k);
            }
        }
        // the right child without its first entry
        assert forall|x: int, y: int| 0 <= x < y < ar.key_seq().len() implies lt(
            ar.key_seq()[x],
            ar.key_seq()[y],
        ) by {
            assert(ar.key_seq()[x] == br.key_seq()[x + 1]);
            assert(ar.key_seq()[y] == br.key_seq()[y + 1]);
        }
        assert forall|j: int| 0 <= j < ar.child_seq().len() implies {
            &&& (#[trigger] ar.child_seq()[j]).wf()
            &&& ar.child_seq()[j].key_seq().len() >= B - 1
            &&& ar.child_seq()[j].height() == ar.child_seq()[0].height()
            &&& 0 < j <= ar.key_seq().len() ==> ar.child_seq()[j].all_above(ar.key_seq()[j - 1])
            &&& j < ar.key_seq().len() ==> ar.child_seq()[j].all_below(ar.key_seq()[j])
            &&& ar.child_seq()[j].all_above(sa)
        } by {
            assert(ar.child_seq()[j] == br.child_seq()[j + 1]);
            assert(ar.child_seq()[0] == br.child_seq()[1]);
            if 0 < j {
                assert(ar.key_seq()[j - 1] == br.key_seq()[j]);
                assert(lt(br.key_seq()[0], br.key_seq()[j]));
            }
            if j < ar.key_seq().len() {
                assert(ar.key_seq()[j] == br.key_seq()[j + 1]);
            }
            assert(br.child_seq()[j + 1].all_above(br.key_seq()[j]));
        }
        assert(ar.wf());
        assert forall|k: K| #[trigger] ar.has_key(k) implies lt(sa, k) && br.has_key(k) by {
            Self::lemma_rotates_parts(a, b, i, k);
            if ar.key_seq().contains(k) {
                let j = choose|j: int| 0 <= j < ar.key_seq().len() && ar.key_seq()[j] == k;
                assert(br.key_seq()[j + 1] == k);
            } else {
                let j = choose|j: int|
                    0 <= j < ar.child_seq().len() && (#[trigger] ar.child_seq()[j]).has_key(k);
                assert(ar.child_seq()[j].all_above(sa));
            }
        }
        if i - 1 > 0 {
            assert(b.child_seq()[i - 1].all_above(b.key_seq()[i - 2]));
            assert(lt(b.key_seq()[i - 2], sb));
            assert forall|k: K| #[trigger] al.has_key(k) implies lt(b.key_seq()[i - 2], k) by {
                Self::lemma_rotates_parts(a, b, i, k);
                if !al.is_leaf() && al.child_seq().last().has_key(k) {
                    br.lemma_has_child_key(0, k);
                }
            }
        }
        if i < b.key_seq().len() {
            assert(b.child_seq()[i].all_below(b.key_seq()[i]));
        }
        if !al.is_leaf() {
            assert(ar.child_seq()[0] == br.child_seq()[1]);
            assert(br.child_seq()[1].height() == br.child_seq()[0].height());
        }
        assert(ar.height() == br.height());
        Self::lemma_pair_replaced_wf(b, a, i - 1);
    }

    /// A rotation keeps the map that the subtree stands for.
    pub proof fn lemma_rotates_view(a: Self, b: Self, i: int)
        requires
            total_order::<K>(),
            Self::rotates(a, b, i),
            a.wf(),
            b.wf(),
        ensures
            a@ == b@,
    {
        let al = *a.child_seq()[i - 1];
        let ar = *a.child_seq()[i];
        let bl = *b.child_seq()[i - 1];
        let br = *b.child_seq()[i];
        let n = bl.key_seq().len() as int;
        let sa = a.key_seq()[i - 1];
        let sb = b.key_seq()[i - 1];
        assert(al.key_seq()[n] == sb);
        assert(al.value_seq()[n] == b.value_seq()[i - 1]);
        assert(br.key_seq()[0] == sa);
        assert(br.value_seq()[0] == a.value_seq()[i - 1]);
        assert(al.wf() && ar.wf() && bl.wf() && br.wf());
        assert forall|k: K| a.has_key(k) == b.has_key(k) by {
            Self::lemma_rotates_has_key(a, b, i, k);
        }
        assert forall|k: K| a.has_key(k) implies a.value_of(k) == b.value_of(k) by {
            Self::lemma_rotates_parts(a, b, i, k);
            if a.key_seq().contains(k) {
                let j = choose|j: int| 0 <= j < a.key_seq().len() && a.key_seq()[j] == k;
                a.lemma_own_key(j);
                if j != i - 1 {
                    b.lemma_own_key(j);
                } else {
                    br.lemma_has_own_key(0);
                    br.lemma_own_key(0);
                    b.lemma_key_in_one_child(i, k);
                }
            } else {
                let j = choose|j: int|
                    0 <= j < a.child_seq().len() && (#[trigger] a.child_seq()[j]).has_key(k);
                a.lemma_key_in_one_child(j, k);
                if j != i - 1 && j != i {
                    assert(b.child_seq()[j] == a.child_seq()[j]);
                    b.lemma_key_in_one_child(j, k);
                } else if j == i - 1 {
                    if k == sb {
                        al.lemma_own_key(n);
                        b.lemma_own_key(i - 1);
                    } else if bl.has_key(k) {
                        b.lemma_key_in_one_child(i - 1, k);
                        if bl.key_seq().contains(k) {
                            let x = choose|x: int|
                                0 <= x < bl.key_seq().len() && bl.key_seq()[x] == k;
                            assert(al.key_seq()[x] == k);
                            assert(al.value_seq()[x] == bl.value_seq()[x]);
                            al.lemma_own_key(x);
                            bl.lemma_own_key(x);
                        } else {
                            let x = choose|x: int|
                                0 <= x < bl.child_seq().len() && (#[trigger] bl.child_seq()[x]).has_key(
                                    k,
                                );
                            assert(al.child_seq()[x] == bl.child_seq()[x]);
                            al.lemma_key_in_one_child(x, k);
                            bl.lemma_key_in_one_child(x, k);
                        }
                    } else {
                        assert(al.child_seq()[n + 1] == al.child_seq().last());
                        assert(br.child_seq()[0] == al.child_seq().last());
                        al.lemma_key_in_one_child(n + 1, k);
                        br.lemma_key_in_one_child(0, k);
                        b.lemma_key_in_one_child(i, k);
                    }
                } else {
                    b.lemma_key_in_one_child(i, k);
                    if ar.key_seq().contains(k) {
                        let x = choose|x: int| 0 <= x < ar.key_seq().len() && ar.key_seq()[x] == k;
                        assert(br.key_seq()[x + 1] == k);
                        assert(br.value_seq()[x + 1] == ar.value_seq()[x]);
                        ar.lemma_own_key(x);
                        br.lemma_own_key(x + 1);
                    } else {
                        let x = choose|x: int|
                            0 <= x < ar.child_seq().len() && (#[trigger] ar.child_seq()[x]).has_key(k);
                        assert(br.child_seq()[x + 1] == ar.child_seq()[x]);
                        ar.lemma_key_in_one_child(x, k);
                        br.lemma_key_in_one_child(x + 1, k);
                    }
                }
            }
        }
        assert(a@ =~= b@);
    }
}

} // verus!
