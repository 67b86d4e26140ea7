//! An in-memory B-tree in which every node, internal or leaf, carries entries.

use vstd::prelude::*;
use crate::order::{lt, total_order, faithful_clone, Rank, rank};
use crate::steps::{lemma_slot_unique, lemma_index_unique};

verus! {

/// Branching factor: a node other than the root holds between `B - 1` and
/// `2 * B - 1` entries.
pub const B: usize = 3;

/// A node: its keys in ascending order, the value of each key beside it, and
/// either no children, in a leaf, or one more child than keys.
pub struct Node<K: Ord + Clone, V: Clone> {
    keys: Vec<K>,
    values: Vec<V>,
    children: Vec<Box<Node<K, V>>>,
}

/// An ordered map from keys to values, kept as a tree of nodes whose leaves
/// are all on one level.
pub struct BTree<K: Ord + Clone, V: Clone> {
    root: Option<Box<Node<K, V>>>,
}

/// Every element sorts strictly before each later one.
pub open spec fn ascending<K: Ord>(s: Seq<K>) -> bool {
    forall|i: int, j: int| 0 <= i < j < s.len() ==> lt(s[i], s[j])
}

/// `i` is where `key` would be inserted into `s`: all earlier elements sort
/// before `key`, all others after it.
pub open spec fn is_slot<K: Ord>(s: Seq<K>, key: K, i: int) -> bool {
    &&& 0 <= i <= s.len()
    &&& forall|j: int| 0 <= j < i ==> lt(#[trigger] s[j], key)
    &&& forall|j: int| i <= j < s.len() ==> lt(key, #[trigger] s[j])
}

/// The map after an insertion that never overwrites: `m` itself where it
/// holds `k` already, else `m` with `k` bound to `v`.
pub open spec fn put<K, V>(m: Map<K, V>, k: K, v: V) -> Map<K, V> {
    if m.contains_key(k) {
        m
    } else {
        m.insert(k, v)
    }
}

/// The lines of an outline as plain values: the level of each node, its keys
/// and its values.
pub open spec fn outline_view<K, V>(lines: Seq<(usize, Vec<K>, Vec<V>)>) -> Seq<
    (nat, Seq<K>, Seq<V>),
> {
    Seq::new(lines.len(), |i: int| (lines[i].0 as nat, lines[i].1@, lines[i].2@))
}

/// A vector of clones of the elements of `v`.
fn clone_all<T: Clone>(v: &Vec<T>) -> (copy: Vec<T>)
    requires
        faithful_clone::<T>(),
    ensures
        copy@ == v@,
{
    let mut copy: Vec<T> = Vec::new();
    let mut i: usize = 0;
    while i < v.len()
        invariant
            faithful_clone::<T>(),
            i <= v@.len(),
            copy@ == v@.subrange(0, i as int),
        decreases v@.len() - i,
    {
        let item = v[i].clone();
        assert(cloned(v@[i as int], item));
        copy.push(item);
        i += 1;
        assert(copy@ =~= v@.subrange(0, i as int));
    }
    assert(copy@ =~= v@);
    copy
}

/// Binary search in an ascending vector: `Ok` with the index of `key`, or
/// `Err` with its insertion position.
pub fn find_slot<K: Ord>(keys: &Vec<K>, key: &K) -> (r: Result<usize, usize>)
    requires
        total_order::<K>(),
        ascending(keys@),
    ensures
        match r {
            Ok(i) => i < keys.len() && keys[i as int] == *key,
            Err(i) => is_slot(keys@, *key, i as int) && !keys@.contains(*key),
        },
{
    let mut lo: usize = 0;
    let mut hi: usize = keys.len();
    while lo < hi
        invariant
            total_order::<K>(),
            ascending(keys@),
            lo <= hi <= keys.len(),
            forall|j: int| 0 <= j < lo ==> lt(#[trigger] keys[j], *key),
            forall|j: int| hi <= j < keys.len() ==> lt(*key, #[trigger] keys[j]),
        decreases hi - lo,
    {
        let mid: usize = lo + (hi - lo) / 2;
        match rank(key, &keys[mid]) {
            Rank::Same => {
                return Ok(mid);
            },
            Rank::Below => {
                hi = mid;
            },
            Rank::Above => {
                lo = mid + 1;
            },
        }
    }
    proof {
        assert forall|j: int| 0 <= j < keys.len() implies keys[j] != *key by {
            crate::order::lemma_trichotomy(keys[j], *key);
        }
    }
    Err(lo)
}

impl<K: Ord + Clone, V: Clone> Node<K, V> {
    /// The keys of this node, in stored order.
    pub closed spec fn key_seq(self) -> Seq<K> {
        self.keys@
    }

    /// The values of this node; the one at `i` belongs to the key at `i`.
    pub closed spec fn value_seq(self) -> Seq<V> {
        self.values@
    }

    /// The children of this node, left to right.
    pub closed spec fn child_seq(self) -> Seq<Box<Node<K, V>>> {
        self.children@
    }

    /// The node has no children.
    pub open spec fn is_leaf(self) -> bool {
        self.child_seq().len() == 0
    }

    /// Number of edges on the leftmost path down to a leaf.
    pub open spec fn height(self) -> nat
        decreases self,
    {
        if self.child_seq().len() == 0 {
            0
        } else {
            1 + self.child_seq()[0].height()
        }
    }

    /// `k` is stored somewhere in the subtree rooted here.
    pub open spec fn has_key(self, k: K) -> bool
        decreases self,
    {
        ||| self.key_seq().contains(k)
        ||| exists|i: int|
            0 <= i < self.child_seq().len() && (#[trigger] self.child_seq()[i]).has_key(k)
    }

    /// The value stored with `k` in the subtree rooted here.
    pub open spec fn value_of(self, k: K) -> V
        decreases self,
    {
        if self.key_seq().contains(k) {
            self.value_seq()[self.key_seq().index_of(k)]
        } else {
            let i = choose|i: int|
                0 <= i < self.child_seq().len() && (#[trigger] self.child_seq()[i]).has_key(k);
            if 0 <= i < self.child_seq().len() {
                self.child_seq()[i].value_of(k)
            } else {
                arbitrary()
            }
        }
    }

    /// The leaf at the end of the rightmost path.
    pub open spec fn last_leaf(self) -> Self
        decreases self,
    {
        if self.child_seq().len() == 0 {
            self
        } else {
            self.child_seq()[self.child_seq().len() - 1].last_leaf()
        }
    }

    /// The leaf at the end of the leftmost path.
    pub open spec fn first_leaf(self) -> Self
        decreases self,
    {
        if self.child_seq().len() == 0 {
            self
        } else {
            self.child_seq()[0].first_leaf()
        }
    }

    /// The entries of the subtree in order, up to and including the entry at
    /// `j - 1` of this node: below child 0, entry 0, below child 1, entry 1,
    /// and so on.
    pub open spec fn run(self, j: nat) -> Seq<(K, V)>
        decreases self, j,
    {
        if j == 0 || j > self.key_seq().len() || j > self.value_seq().len() {
            Seq::empty()
        } else {
            let below = if j - 1 < self.child_seq().len() {
                self.child_seq()[j - 1].entries()
            } else {
                Seq::empty()
            };
            (self.run((j - 1) as nat) + below).push(
                (self.key_seq()[j - 1], self.value_seq()[j - 1]),
            )
        }
    }

    /// All entries of the subtree in order: children and entries of this
    /// node in turn, ending below the last child.
    pub open spec fn entries(self) -> Seq<(K, V)>
        decreases self, self.key_seq().len() + 1,
    {
        let n = self.key_seq().len();
        if n < self.child_seq().len() {
            self.run(n) + self.child_seq()[n as int].entries()
        } else {
            self.run(n)
        }
    }

    /// `n` is a node of this subtree, `d` levels below its top.
    pub open spec fn holds_at(self, n: Self, d: nat) -> bool
        decreases d,
    {
        if d == 0 {
            self == n
        } else {
            exists|i: int|
                0 <= i < self.child_seq().len() && (#[trigger] self.child_seq()[i]).holds_at(
                    n,
                    (d - 1) as nat,
                )
        }
    }

    /// The nodes of the subtree in pre-order, each with its level, its keys
    /// and its values, as far as the subtrees below the first `j` children;
    /// the top stands on `level`.
    pub open spec fn outline_run(self, level: nat, j: nat) -> Seq<(nat, Seq<K>, Seq<V>)>
        decreases self, j,
    {
        if j == 0 || j > self.child_seq().len() {
            seq![(level, self.key_seq(), self.value_seq())]
        } else {
            self.outline_run(level, (j - 1) as nat) + self.child_seq()[j - 1].outline(level + 1)
        }
    }

    /// The nodes of the subtree in pre-order: the top first, then the
    /// subtree below each child in turn, one level further down.
    pub open spec fn outline(self, level: nat) -> Seq<(nat, Seq<K>, Seq<V>)>
        decreases self, self.child_seq().len() + 1,
    {
        self.outline_run(level, self.child_seq().len())
    }

    /// The subtree as a map from keys to values.
    pub open spec fn view(self) -> Map<K, V> {
        Map::new(|k: K| self.has_key(k), |k: K| self.value_of(k))
    }

    /// Every key of the subtree sorts strictly before `hi`.
    pub open spec fn all_below(self, hi: K) -> bool {
        forall|k: K| #[trigger] self.has_key(k) ==> lt(k, hi)
    }

    /// Every key of the subtree sorts strictly after `lo`.
    pub open spec fn all_above(self, lo: K) -> bool {
        forall|k: K| #[trigger] self.has_key(k) ==> lt(lo, k)
    }

    /// Every key below child `i` lies strictly between the keys that flank it.
    pub open spec fn separated(self) -> bool {
        forall|i: int|
            0 <= i < self.child_seq().len() ==> {
                &&& 0 < i <= self.key_seq().len() ==> (#[trigger] self.child_seq()[i]).all_above(
                    self.key_seq()[i - 1],
                )
                &&& i < self.key_seq().len() ==> self.child_seq()[i].all_below(self.key_seq()[i])
            }
    }

    /// The shape invariants of a subtree. The node at its top may hold fewer
    /// than `B - 1` keys; every node below it holds at least that many.
    pub open spec fn wf(self) -> bool
        decreases self,
    {
        &&& self.value_seq().len() == self.key_seq().len()
        &&& self.key_seq().len() <= 2 * B - 1
        &&& (self.is_leaf() || self.child_seq().len() == self.key_seq().len() + 1)
        &&& ascending(self.key_seq())
        &&& self.separated()
        &&& forall|i: int|
            0 <= i < self.child_seq().len() ==> {
                &&& (#[trigger] self.child_seq()[i]).wf()
                &&& self.child_seq()[i].key_seq().len() >= B - 1
                &&& self.child_seq()[i].height() == self.child_seq()[0].height()
            }
    }

    /// A leaf without entries.
    fn new() -> (node: Self)
        ensures
            node.key_seq().len() == 0,
            node.value_seq().len() == 0,
            node.child_seq().len() == 0,
    {
        Node { keys: Vec::new(), values: Vec::new(), children: Vec::new() }
    }

    /// The node can take no further entry.
    fn is_full(&self) -> (full: bool)
        ensures
            full == (self.key_seq().len() >= 2 * B - 1),
    {
        self.keys.len() >= 2 * B - 1
    }

    /// The value at `j` is the one that `value_of` gives for the key at `j`.
    pub proof fn lemma_own_key(self, j: int)
        requires
            total_order::<K>(),
            self.wf(),
            0 <= j < self.key_seq().len(),
        ensures
            self.has_key(self.key_seq()[j]),
            self.value_of(self.key_seq()[j]) == self.value_seq()[j],
    {
        let k = self.key_seq()[j];
        let j2 = self.key_seq().index_of(k);
        assert(self.key_seq()[j2] == k);
        if j2 < j {
            crate::order::lemma_trichotomy(self.key_seq()[j2], self.key_seq()[j]);
        } else if j < j2 {
            crate::order::lemma_trichotomy(self.key_seq()[j], self.key_seq()[j2]);
        }
    }

    /// A key below child `i` is below no other child and is not a key of this node.
    pub proof fn lemma_key_in_one_child(self, i: int, k: K)
        requires
            total_order::<K>(),
            self.wf(),
            0 <= i < self.child_seq().len(),
            self.child_seq()[i].has_key(k),
        ensures
            !self.key_seq().contains(k),
            forall|j: int|
                0 <= j < self.child_seq().len() && j != i ==> !(#[trigger] self.child_seq()[j]).has_key(k),
            self.has_key(k),
            self.value_of(k) == self.child_seq()[i].value_of(k),
    {
        let keys = self.key_seq();
        assert forall|j: int| 0 <= j < keys.len() implies keys[j] != k by {
            crate::order::lemma_trichotomy(keys[j], k);
            if j < i {
                // keys[j] <= keys[i - 1] < k
                if j < i - 1 {
                    assert(lt(keys[j], keys[i - 1]));
                }
                assert(lt(keys[i - 1], k));
            } else {
                // k < keys[i] <= keys[j]
                if i < j {
                    assert(lt(keys[i], keys[j]));
                }
                assert(lt(k, keys[i]));
            }
        }
        assert forall|j: int|
            0 <= j < self.child_seq().len() && j != i implies !(#[trigger] self.child_seq()[j]).has_key(k) by {
            if self.child_seq()[j].has_key(k) {
                if j < i {
                    // k < keys[j] <= keys[i - 1] < k
                    assert(lt(k, keys[j]));
                    assert(lt(keys[i - 1], k));
                    if j < i - 1 {
                        assert(lt(keys[j], keys[i - 1]));
                    }
                    crate::order::lemma_trichotomy(k, k);
                } else {
                    assert(lt(k, keys[i]));
                    assert(lt(keys[j - 1], k));
                    if i < j - 1 {
                        assert(lt(keys[i], keys[j - 1]));
                    }
                    crate::order::lemma_trichotomy(k, k);
                }
            }
        }
    }

    /// A key that is neither in this node nor below the child at its slot is
    /// nowhere in the subtree.
    pub proof fn lemma_key_only_at_slot(self, i: int, k: K)
        requires
            total_order::<K>(),
            self.wf(),
            is_slot(self.key_seq(), k, i),
            !self.key_seq().contains(k),
        ensures
            forall|j: int|
                0 <= j < self.child_seq().len() && j != i ==> !(#[trigger] self.child_seq()[j]).has_key(k),
            self.is_leaf() ==> !self.has_key(k),
            !self.is_leaf() ==> (self.has_key(k) <==> self.child_seq()[i].has_key(k)),
    {
        let keys = self.key_seq();
        assert forall|j: int|
            0 <= j < self.child_seq().len() && j != i implies !(#[trigger] self.child_seq()[j]).has_key(k) by {
            if self.child_seq()[j].has_key(k) {
                if j < i {
                    assert(lt(k, keys[j]));
                    assert(lt(keys[j], k));
                    crate::order::lemma_trichotomy(k, keys[j]);
                } else {
                    assert(lt(keys[j - 1], k));
                    assert(lt(k, keys[j - 1]));
                    crate::order::lemma_trichotomy(k, keys[j - 1]);
                }
            }
        }
    }

    /// Looks `key` up in the subtree: in this node by binary search, else
    /// below the child at the slot of the key.
    fn search(&self, key: &K) -> (r: Option<&V>)
        requires
            total_order::<K>(),
            self.wf(),
        ensures
            match r {
                Some(v) => self.has_key(*key) && *v == self.value_of(*key),
                None => !self.has_key(*key),
            },
        decreases self.height(),
    {
        match find_slot(&self.keys, key) {
            Ok(index) => {
                proof {
                    self.lemma_own_key(index as int);
                }
                Some(&self.values[index])
            },
            Err(index) => {
                proof {
                    self.lemma_key_only_at_slot(index as int, *key);
                }
                if self.children.is_empty() {
                    None
                } else {
                    proof {
                        if self.child_seq()[index as int].has_key(*key) {
                            self.lemma_key_in_one_child(index as int, *key);
                        }
                    }
                    self.children[index].search(key)
                }
            },
        }
    }

    /// Cuts the full child at `index` in two: its middle entry moves up into
    /// this node at `index`, and the entries and children after it move into
    /// a new right sibling at `index + 1`.
    #[verifier::rlimit(60)]
    fn split_child(&mut self, index: usize)
        requires
            total_order::<K>(),
            old(self).wf(),
            index < old(self).child_seq().len(),
            old(self).key_seq().len() < 2 * B - 1,
            old(self).child_seq()[index as int].key_seq().len() == 2 * B - 1,
        ensures
            final(self).wf(),
            final(self)@ == old(self)@,
            final(self).height() == old(self).height(),
            Self::splits(*old(self), *final(self), index as int),
            final(self).child_seq()[index as int].key_seq().len() == B - 1,
            final(self).child_seq()[index + 1].key_seq().len() == B - 1,
    {
        let ghost pre = *self;
        let ghost full = *pre.children[index as int];
        assert(pre.child_seq()[index as int].wf());
        let child = &mut self.children[index];
        let mut right = Node::new();
        right.keys = child.keys.split_off(B);
        right.values = child.values.split_off(B);
        if !child.children.is_empty() {
            right.children = child.children.split_off(B);
        }
        let split_key = child.keys.pop().unwrap();
        let split_value = child.values.pop().unwrap();
        self.keys.insert(index, split_key);
        self.values.insert(index, split_value);
        self.children.insert(index + 1, Box::new(right));
        proof {
            let l = *self.children[index as int];
            let r = *self.children[index + 1];
            assert(full.keys@ =~= l.keys@.push(split_key) + r.keys@);
            assert(full.values@ =~= l.values@.push(split_value) + r.values@);
            assert(full.children@ =~= l.children@ + r.children@);
            assert(pre.keys@ =~= self.keys@.remove(index as int));
            assert(pre.values@ =~= self.values@.remove(index as int));
            assert(Self::splits(pre, *self, index as int));
            Self::lemma_split_wf(pre, *self, index as int);
            Self::lemma_splits_view(pre, *self, index as int);
        }
    }

    /// Inserts into a subtree whose top node is not full. A key that is
    /// already present keeps its value.
    fn insert_non_full(&mut self, key: K, value: V)
        requires
            total_order::<K>(),
            old(self).wf(),
            old(self).key_seq().len() < 2 * B - 1,
        ensures
            final(self).wf(),
            final(self)@ == put(old(self)@, key, value),
            final(self).height() == old(self).height(),
            final(self).key_seq().len() >= old(self).key_seq().len(),
            Self::inserts(*old(self), *final(self), key, value),
        decreases old(self).height(),
    {
        let ghost pre = *self;
        let slot = match find_slot(&self.keys, &key) {
            Ok(found) => {
                proof {
                    self.lemma_own_key(found as int);
                    lemma_index_unique(pre.key_seq(), found as int);
                }
                return ;
            },
            Err(slot) => slot,
        };
        proof {
            lemma_slot_unique(pre.key_seq(), key, slot as int);
        }
        if self.children.is_empty() {
            self.keys.insert(slot, key);
            self.values.insert(slot, value);
            proof {
                Self::lemma_leaf_insert(pre, *self, slot as int, key, value);
            }
        } else {
            let mut index = slot;
            assert(self.child_seq()[slot as int].wf());
            if self.children[slot].is_full() {
                self.split_child(slot);
                assert(Self::halves(pre, *self, slot as int));
                match rank(&key, &self.keys[slot]) {
                    Rank::Same => {
                        proof {
                            self.lemma_has_own_key(slot as int);
                            assert(Self::inserts(pre, *self, key, value));
                        }
                        return ;
                    },
                    Rank::Above => {
                        index = slot + 1;
                    },
                    Rank::Below => {},
                }
                proof {
                    assert forall|j: int|
                        0 <= j < self.key_seq().len() && j != slot implies self.key_seq()[j]
                        == pre.key_seq()[if j < slot { j } else { j - 1 }] by {}
                }
            }
            let ghost mid = *self;
            assert(is_slot(mid.key_seq(), key, index as int));
            let child = &mut self.children[index];
            child.insert_non_full(key, value);
            proof {
                Self::lemma_child_insert(mid, *self, index as int, key, value);
                assert(mid.child_seq()[index as int].height() == mid.child_seq()[0].height());
                assert(Self::replaces_child(mid, *self, index as int));
                assert(Self::inserts(pre, *self, key, value));
            }
        }
    }

    /// Moves the last entry of the child before `index` up into this node,
    /// and the entry that stood between the two children down to the front of
    /// the child at `index`, together with the last child of the former.
    fn borrow_from_left(&mut self, index: usize)
        requires
            total_order::<K>(),
            old(self).wf(),
            0 < index < old(self).child_seq().len(),
            old(self).child_seq()[index - 1].key_seq().len() >= B,
            old(self).child_seq()[index as int].key_seq().len() < 2 * B - 1,
        ensures
            final(self).wf(),
            final(self)@ == old(self)@,
            final(self).height() == old(self).height(),
            Self::rotates(*old(self), *final(self), index as int),
            lt(final(self).key_seq()[index - 1], old(self).key_seq()[index - 1]),
    {
        let ghost pre = *self;
        assert(pre.child_seq()[index - 1].wf());
        assert(pre.child_seq()[index as int].wf());
        let left = &mut self.children[index - 1];
        let mut moved_key = left.keys.pop().unwrap();
        let mut moved_value = left.values.pop().unwrap();
        let moved_child = left.children.pop();
        core::mem::swap(&mut self.keys[index - 1], &mut moved_key);
        core::mem::swap(&mut self.values[index - 1], &mut moved_value);
        let child = &mut self.children[index];
        child.keys.insert(0, moved_key);
        child.values.insert(0, moved_value);
        match moved_child {
            Some(grandchild) => {
                child.children.insert(0, grandchild);
            },
            None => {},
        }
        proof {
            let al = *pre.children[index - 1];
            let ar = *pre.children[index as int];
            let bl = *self.children[index - 1];
            let br = *self.children[index as int];
            assert(al.keys@ =~= bl.keys@.push(self.keys@[index - 1]));
            assert(al.values@ =~= bl.values@.push(self.values@[index - 1]));
            assert(br.keys@ =~= seq![pre.keys@[index - 1]] + ar.keys@);
            assert(br.values@ =~= seq![pre.values@[index - 1]] + ar.values@);
            assert(self.keys@ =~= pre.keys@.update(index - 1, self.keys@[index - 1]));
            assert(self.values@ =~= pre.values@.update(index - 1, self.values@[index - 1]));
            assert(pre.child_seq()[index - 1].height() == pre.child_seq()[0].height());
            assert(pre.child_seq()[index as int].height() == pre.child_seq()[0].height());
            if !al.is_leaf() {
                assert(bl.children@ =~= al.children@.drop_last());
                assert(br.children@ =~= seq![al.children@.last()] + ar.children@);
            }
            assert(Self::rotates(pre, *self, index as int));
            Self::lemma_rotate_right_wf(pre, *self, index as int);
            Self::lemma_rotates_view(pre, *self, index as int);
            br.lemma_has_own_key(0);
            assert(self.child_seq()[index as int].all_above(self.key_seq()[index - 1]));
        }
    }

    /// Moves the first entry of the child after `index` up into this node,
    /// and the entry that stood between the two children down to the back of
    /// the child at `index`, together with the first child of the former.
    fn borrow_from_right(&mut self, index: usize)
        requires
            total_order::<K>(),
            old(self).wf(),
            index + 1 < old(self).child_seq().len(),
            old(self).child_seq()[index + 1].key_seq().len() >= B,
            old(self).child_seq()[index as int].key_seq().len() < 2 * B - 1,
        ensures
            final(self).wf(),
            final(self)@ == old(self)@,
            final(self).height() == old(self).height(),
            Self::rotates(*final(self), *old(self), index + 1),
            lt(old(self).key_seq()[index as int], final(self).key_seq()[index as int]),
    {
        let ghost pre = *self;
        assert(pre.child_seq()[index + 1].wf());
        assert(pre.child_seq()[index as int].wf());
        let right = &mut self.children[index + 1];
        let mut moved_key = right.keys.remove(0);
        let mut moved_value = right.values.remove(0);
        let moved_child = if right.children.is_empty() {
            None
        } else {
            Some(right.children.remove(0))
        };
        core::mem::swap(&mut self.keys[index], &mut moved_key);
        core::mem::swap(&mut self.values[index], &mut moved_value);
        let child = &mut self.children[index];
        child.keys.push(moved_key);
        child.values.push(moved_value);
        match moved_child {
            Some(grandchild) => {
                child.children.push(grandchild);
            },
            None => {},
        }
        proof {
            let bl = *pre.children[index as int];
            let br = *pre.children[index + 1];
            let al = *self.children[index as int];
            let ar = *self.children[index + 1];
            assert(al.keys@ =~= bl.keys@.push(pre.keys@[index as int]));
            assert(al.values@ =~= bl.values@.push(pre.values@[index as int]));
            assert(br.keys@ =~= seq![self.keys@[index as int]] + ar.keys@);
            assert(br.values@ =~= seq![self.values@[index as int]] + ar.values@);
            assert(pre.keys@ =~= self.keys@.update(index as int, pre.keys@[index as int]));
            assert(pre.values@ =~= self.values@.update(index as int, pre.values@[index as int]));
            assert(pre.child_seq()[index + 1].height() == pre.child_seq()[0].height());
            assert(pre.child_seq()[index as int].height() == pre.child_seq()[0].height());
            if !al.is_leaf() {
                assert(bl.children@ =~= al.children@.drop_last());
                assert(br.children@ =~= seq![al.children@.last()] + ar.children@);
            }
            assert(Self::rotates(*self, pre, index + 1));
            Self::lemma_rotate_left_wf(*self, pre, index + 1);
            Self::lemma_rotates_view(*self, pre, index + 1);
            al.lemma_has_own_key(al.key_seq().len() - 1);
            assert(self.child_seq()[index as int].all_below(self.key_seq()[index as int]));
        }
    }

    /// Joins the child at `index` onto the end of the child before it,
    /// around the entry that stood between them.
    fn merge_with_left(&mut self, index: usize)
        requires
            total_order::<K>(),
            old(self).wf(),
            0 < index < old(self).child_seq().len(),
            old(self).child_seq()[index - 1].key_seq().len() + old(self).child_seq()[index
                as int].key_seq().len() + 1 <= 2 * B - 1,
        ensures
            final(self).wf(),
            final(self)@ == old(self)@,
            final(self).height() == old(self).height(),
            Self::splits(*final(self), *old(self), index - 1),
    {
        self.merge_with_right(index - 1);
    }

    /// Joins the child after `index` onto the end of the child at `index`,
    /// around the entry that stood between them.
    fn merge_with_right(&mut self, index: usize)
        requires
            total_order::<K>(),
            old(self).wf(),
            index + 1 < old(self).child_seq().len(),
            old(self).child_seq()[index as int].key_seq().len() + old(self).child_seq()[index
                + 1].key_seq().len() + 1 <= 2 * B - 1,
        ensures
            final(self).wf(),
            final(self)@ == old(self)@,
            final(self).height() == old(self).height(),
            Self::splits(*final(self), *old(self), index as int),
    {
        let ghost pre = *self;
        assert(pre.child_seq()[index + 1].wf());
        assert(pre.child_seq()[index as int].wf());
        let parent_key = self.keys.remove(index);
        let parent_value = self.values.remove(index);
        let mut right = self.children.remove(index + 1);
        let left = &mut self.children[index];
        left.keys.push(parent_key);
        left.values.push(parent_value);
        left.keys.append(&mut right.keys);
        left.values.append(&mut right.values);
        left.children.append(&mut right.children);
        proof {
            assert(pre.child_seq()[index + 1].height() == pre.child_seq()[0].height());
            assert(pre.child_seq()[index as int].height() == pre.child_seq()[0].height());
            assert(Self::splits(*self, pre, index as int));
            Self::lemma_merge_wf(*self, pre, index as int);
            Self::lemma_splits_view(*self, pre, index as int);
        }
    }

    /// The largest entry of the subtree: the last one of its last leaf.
    fn find_predecessor(&self) -> (entry: (K, V))
        requires
            total_order::<K>(),
            faithful_clone::<K>(),
            faithful_clone::<V>(),
            self.wf(),
            self.key_seq().len() >= 1,
        ensures
            self.has_key(entry.0),
            entry.1 == self.value_of(entry.0),
            forall|k: K| #[trigger] self.has_key(k) ==> k == entry.0 || lt(k, entry.0),
            entry.0 == self.last_leaf().key_seq().last(),
            entry.1 == self.last_leaf().value_seq().last(),
    {
        let mut node = self;
        while !node.children.is_empty()
            invariant
                node.wf(),
                node.key_seq().len() >= 1,
                node.last_leaf() == self.last_leaf(),
            decreases node.height(),
        {
            let last = node.children.len() - 1;
            assert(node.child_seq()[last as int].wf());
            assert(node.child_seq()[last as int].height() == node.child_seq()[0].height());
            node = &node.children[last];
        }
        proof {
            self.lemma_last_leaf();
            assert(node.last_leaf() == *node);
        }
        let key = node.keys[node.keys.len() - 1].clone();
        let value = node.values[node.values.len() - 1].clone();
        assert(cloned(node.key_seq().last(), key));
        assert(cloned(node.value_seq().last(), value));
        (key, value)
    }

    /// The smallest entry of the subtree: the first one of its first leaf.
    fn find_successor(&self) -> (entry: (K, V))
        requires
            total_order::<K>(),
            faithful_clone::<K>(),
            faithful_clone::<V>(),
            self.wf(),
            self.key_seq().len() >= 1,
        ensures
            self.has_key(entry.0),
            entry.1 == self.value_of(entry.0),
            forall|k: K| #[trigger] self.has_key(k) ==> k == entry.0 || lt(entry.0, k),
            entry.0 == self.first_leaf().key_seq()[0],
            entry.1 == self.first_leaf().value_seq()[0],
    {
        let mut node = self;
        while !node.children.is_empty()
            invariant
                node.wf(),
                node.key_seq().len() >= 1,
                node.first_leaf() == self.first_leaf(),
            decreases node.height(),
        {
            assert(node.child_seq()[0].wf());
            node = &node.children[0];
        }
        proof {
            self.lemma_first_leaf();
            assert(node.first_leaf() == *node);
        }
        let key = node.keys[0].clone();
        let value = node.values[0].clone();
        assert(cloned(node.key_seq()[0], key));
        assert(cloned(node.value_seq()[0], value));
        (key, value)
    }

    /// Removes `key` from the subtree and returns the value it had, if it
    /// was present. The node at the top keeps its height and loses at most
    /// one of its own keys, so a node that came with `B` keys or more is left
    /// with at least `B - 1`.
    pub fn delete(&mut self, key: &K) -> (removed: Option<V>)
        requires
            total_order::<K>(),
            faithful_clone::<K>(),
            faithful_clone::<V>(),
            old(self).wf(),
            old(self).is_leaf() || old(self).key_seq().len() >= 1,
        ensures
            final(self).wf(),
            final(self)@ == old(self)@.remove(*key),
            removed == (if old(self)@.contains_key(*key) {
                Some(old(self)@[*key])
            } else {
                None::<V>
            }),
            final(self).height() == old(self).height(),
            final(self).key_seq().len() + 1 >= old(self).key_seq().len(),
            Self::deletes(*old(self), *final(self), *key),
        decreases old(self).height(),
    {
        let ghost pre = *self;
        match find_slot(&self.keys, key) {
            Ok(index) => {
                proof {
                    lemma_index_unique(pre.key_seq(), index as int);
                }
                if self.children.is_empty() {
                    self.keys.remove(index);
                    let value = self.values.remove(index);
                    proof {
                        Self::lemma_leaf_delete(pre, *self, index as int);
                    }
                    Some(value)
                } else {
                    assert(pre.child_seq()[index as int].wf());
                    assert(pre.child_seq()[index + 1].wf());
                    assert(pre.child_seq()[index as int].height() == pre.child_seq()[0].height());
                    assert(pre.child_seq()[index + 1].height() == pre.child_seq()[0].height());
                    if self.children[index].keys.len() >= B {
                        let (pred_key, pred_value) = self.children[index].find_predecessor();
                        let mut entry_key = pred_key.clone();
                        let mut entry_value = pred_value.clone();
                        assert(cloned(pred_key, entry_key));
                        assert(cloned(pred_value, entry_value));
                        core::mem::swap(&mut self.keys[index], &mut entry_key);
                        core::mem::swap(&mut self.values[index], &mut entry_value);
                        let child = &mut self.children[index];
                        child.delete(&pred_key);
                        proof {
                            assert(self.keys@ =~= pre.keys@.update(index as int, pred_key));
                            assert(self.values@ =~= pre.values@.update(index as int, pred_value));
                            Self::lemma_entry_replaced(
                                pre,
                                *self,
                                index as int,
                                index as int,
                                pred_key,
                            );
                            assert(Self::entry_replaced(
                                pre,
                                *self,
                                index as int,
                                index as int,
                                pred_key,
                                pred_value,
                            ));
                            assert(Self::deletes(pre, *self, *key));
                        }
                        Some(entry_value)
                    } else if self.children[index + 1].keys.len() >= B {
                        let (succ_key, succ_value) = self.children[index + 1].find_successor();
                        let mut entry_key = succ_key.clone();
                        let mut entry_value = succ_value.clone();
                        assert(cloned(succ_key, entry_key));
                        assert(cloned(succ_value, entry_value));
                        core::mem::swap(&mut self.keys[index], &mut entry_key);
                        core::mem::swap(&mut self.values[index], &mut entry_value);
                        let child = &mut self.children[index + 1];
                        child.delete(&succ_key);
                        proof {
                            assert(self.keys@ =~= pre.keys@.update(index as int, succ_key));
                            assert(self.values@ =~= pre.values@.update(index as int, succ_value));
                            Self::lemma_entry_replaced(
                                pre,
                                *self,
                                index as int,
                                index + 1,
                                succ_key,
                            );
                            assert(Self::entry_replaced(
                                pre,
                                *self,
                                index as int,
                                index + 1,
                                succ_key,
                                succ_value,
                            ));
                            assert(Self::deletes(pre, *self, *key));
                        }
                        Some(entry_value)
                    } else {
                        self.merge_with_left(index + 1);
                        let ghost mid = *self;
                        proof {
                            pre.lemma_own_key(index as int);
                            assert forall|j: int| 0 <= j < mid.key_seq().len() implies mid.key_seq()[j]
                                == pre.key_seq()[if j < index { j } else { j + 1 }] by {}
                            assert(is_slot(mid.key_seq(), *key, index as int));
                            assert(mid.child_seq()[index as int].wf());
                            assert(mid.child_seq()[index as int].height()
                                == mid.child_seq()[0].height());
                        }
                        let child = &mut self.children[index];
                        let removed = child.delete(key);
                        proof {
                            Self::lemma_child_delete(mid, *self, index as int, *key);
                            assert(Self::splits(mid, pre, index as int));
                            assert(Self::deletes(pre, *self, *key));
                        }
                        removed
                    }
                }
            },
            Err(index) => {
                proof {
                    self.lemma_key_only_at_slot(index as int, *key);
                    lemma_slot_unique(pre.key_seq(), *key, index as int);
                }
                if self.children.is_empty() {
                    proof {
                        assert(self@ =~= self@.remove(*key));
                    }
                    None
                } else {
                    let mut target = index;
                    assert(pre.child_seq()[index as int].wf());
                    if self.children[index].keys.len() < B {
                        if index > 0 && self.children[index - 1].keys.len() >= B {
                            self.borrow_from_left(index);
                        } else if index < self.children.len() - 1 && self.children[index
                            + 1].keys.len() >= B {
                            self.borrow_from_right(index);
                        } else if index > 0 {
                            assert(pre.child_seq()[index - 1].wf());
                            self.merge_with_left(index);
                            target = index - 1;
                        } else {
                            assert(pre.child_seq()[index + 1].wf());
                            self.merge_with_right(index);
                        }
                    }
                    let ghost mid = *self;
                    proof {
                        if mid.key_seq().len() < pre.key_seq().len() {
                            assert forall|j: int| 0 <= j < mid.key_seq().len() implies mid.key_seq()[j]
                                == pre.key_seq()[if j < target { j } else { j + 1 }] by {}
                        }
                        assert(is_slot(mid.key_seq(), *key, target as int));
                        assert(mid.child_seq()[target as int].wf());
                        assert(mid.child_seq()[target as int].height()
                            == mid.child_seq()[0].height());
                    }
                    let child = &mut self.children[target];
                    let removed = child.delete(key);
                    proof {
                        Self::lemma_child_delete(mid, *self, target as int, *key);
                        assert(Self::deletes(pre, *self, *key));
                    }
                    removed
                }
            },
        }
    }

    /// Appends clones of the entries of the subtree to `out`, in order.
    fn collect(&self, out: &mut Vec<(K, V)>)
        requires
            faithful_clone::<K>(),
            faithful_clone::<V>(),
            self.wf(),
        ensures
            final(out)@ == old(out)@ + self.entries(),
        decreases self.height(),
    {
        let ghost start = out@;
        let n = self.keys.len();
        let mut i: usize = 0;
        while i < n
            invariant
                faithful_clone::<K>(),
                faithful_clone::<V>(),
                self.wf(),
                n == self.key_seq().len(),
                i <= n,
                out@ == start + self.run(i as nat),
            decreases n - i,
        {
            let ghost before = out@;
            if !self.children.is_empty() {
                assert(self.child_seq()[i as int].wf());
                assert(self.child_seq()[i as int].height() == self.child_seq()[0].height());
                self.children[i].collect(out);
            }
            let key = self.keys[i].clone();
            let value = self.values[i].clone();
            assert(cloned(self.key_seq()[i as int], key));
            assert(cloned(self.value_seq()[i as int], value));
            out.push((key, value));
            i += 1;
            assert(out@ =~= start + self.run(i as nat));
        }
        if !self.children.is_empty() {
            assert(self.child_seq()[n as int].wf());
            assert(self.child_seq()[n as int].height() == self.child_seq()[0].height());
            self.children[n].collect(out);
        }
        assert(out@ =~= start + self.entries());
    }

    /// Appends the outline of the subtree to `out`: a line for this node, on
    /// `level`, then the lines of each child's subtree in turn.
    fn outline_into(&self, level: usize, out: &mut Vec<(usize, Vec<K>, Vec<V>)>)
        requires
            faithful_clone::<K>(),
            faithful_clone::<V>(),
            self.wf(),
            level + self.height() <= usize::MAX,
        ensures
            outline_view(final(out)@) == outline_view(old(out)@) + self.outline(level as nat),
        decreases self.height(),
    {
        let ghost start = outline_view(out@);
        out.push((level, clone_all(&self.keys), clone_all(&self.values)));
        assert(outline_view(out@) =~= start + self.outline_run(level as nat, 0));
        let n = self.children.len();
        let mut i: usize = 0;
        while i < n
            invariant
                faithful_clone::<K>(),
                faithful_clone::<V>(),
                self.wf(),
                level + self.height() <= usize::MAX,
                n == self.child_seq().len(),
                i <= n,
                outline_view(out@) == start + self.outline_run(level as nat, i as nat),
            decreases n - i,
        {
            assert(self.child_seq()[i as int].wf());
            assert(self.child_seq()[i as int].height() == self.child_seq()[0].height());
            self.children[i].outline_into(level + 1, out);
            i += 1;
            assert(outline_view(out@) =~= start + self.outline_run(level as nat, i as nat));
        }
    }

    /// Number of edges from this node down to its leaves.
    fn levels(&self) -> (count: usize)
        requires
            self.wf(),
            self.height() <= usize::MAX,
        ensures
            count == self.height(),
    {
        let mut node = self;
        let mut count: usize = 0;
        while !node.children.is_empty()
            invariant
                node.wf(),
                count + node.height() == self.height(),
                self.height() <= usize::MAX,
            decreases node.height(),
        {
            assert(node.child_seq()[0].wf());
            node = &node.children[0];
            count += 1;
        }
        count
    }
}

impl<K: Ord + Clone, V: Clone> BTree<K, V> {
    /// The node at the top of the tree; none where the tree is empty.
    pub closed spec fn top(self) -> Option<Node<K, V>> {
        match self.root {
            Some(node) => Some(*node),
            None => None,
        }
    }

    /// The shape invariants of the tree: those of its top node, which holds
    /// at least one entry.
    pub open spec fn wf(self) -> bool {
        match self.top() {
            Some(node) => node.wf() && node.key_seq().len() >= 1,
            None => true,
        }
    }

    /// Number of levels of the tree; all leaves are on the last one.
    pub open spec fn level_count(self) -> nat {
        match self.top() {
            Some(node) => node.height() + 1,
            None => 0,
        }
    }

    /// `n` is a node of the tree, `d` levels below its top.
    pub open spec fn holds_at(self, n: Node<K, V>, d: nat) -> bool {
        match self.top() {
            Some(node) => node.holds_at(n, d),
            None => false,
        }
    }

    /// The nodes of the tree in pre-order, each with its level, its keys and
    /// its values; nothing for the empty tree.
    pub open spec fn node_lines(self) -> Seq<(nat, Seq<K>, Seq<V>)> {
        match self.top() {
            Some(node) => node.outline(0),
            None => Seq::empty(),
        }
    }

    /// The entries of the tree in order.
    pub open spec fn entries(self) -> Seq<(K, V)> {
        match self.top() {
            Some(node) => node.entries(),
            None => Seq::empty(),
        }
    }

    /// The top node can take no further entry.
    pub open spec fn top_is_full(self) -> bool {
        match self.top() {
            Some(node) => node.key_seq().len() == 2 * B - 1,
            None => false,
        }
    }

    /// The empty tree.
    pub fn new() -> (tree: Self)
        ensures
            tree.wf(),
            tree@ == Map::<K, V>::empty(),
            tree.level_count() == 0,
    {
        BTree { root: None }
    }

    /// Adds the entry `(key, value)`; where `key` is already present the
    /// tree keeps the value it has. The tree grows by one level exactly when
    /// it was empty or its top node was full.
    pub fn insert(&mut self, key: K, value: V)
        requires
            total_order::<K>(),
            old(self).wf(),
        ensures
            final(self).wf(),
            final(self)@ == put(old(self)@, key, value),
            final(self).level_count() == (if old(self).top() is None || old(self).top_is_full() {
                old(self).level_count() + 1
            } else {
                old(self).level_count()
            }),
            Self::inserts(*old(self), *final(self), key, value),
    {
        let ghost pre = *self;
        match self.root.take() {
            Some(mut root) => {
                if root.is_full() {
                    let mut new_root = Box::new(Node::new());
                    new_root.children.push(root);
                    proof {
                        assert(new_root.child_seq()[0] == root);
                        assert(new_root.wf());
                        assert forall|k: K| new_root.has_key(k) implies root.has_key(k)
                            && new_root.value_of(k) == root.value_of(k) by {
                            let i = choose|i: int|
                                0 <= i < new_root.child_seq().len() && (
                                #[trigger] new_root.child_seq()[i]).has_key(k);
                            new_root.lemma_key_in_one_child(0, k);
                        }
                        assert forall|k: K| root.has_key(k) implies new_root.has_key(k) by {
                            new_root.lemma_has_child_key(0, k);
                        }
                        assert(new_root@ =~= root@);
                    }
                    let ghost over = *new_root;
                    new_root.split_child(0);
                    let ghost mid = *new_root;
                    new_root.insert_non_full(key, value);
                    proof {
                        assert(Node::halves(over, mid, 0));
                        assert(Node::inserts(mid, *new_root, key, value));
                    }
                    self.root = Some(new_root);
                    assert(Self::inserts(pre, *self, key, value));
                } else {
                    root.insert_non_full(key, value);
                    self.root = Some(root);
                }
            },
            None => {
                let mut new_root = Box::new(Node::new());
                new_root.keys.push(key);
                new_root.values.push(value);
                proof {
                    assert(new_root.key_seq()[0] == key);
                    assert(new_root.wf());
                    new_root.lemma_own_key(0);
                    assert(new_root@ =~= Map::<K, V>::empty().insert(key, value));
                    assert(new_root.key_seq() =~= seq![key]);
                    assert(new_root.value_seq() =~= seq![value]);
                }
                self.root = Some(new_root);
            },
        }
    }

    /// Removes `key` and returns the value it had, if it was present. A top
    /// node that is left without keys gives way to its only child, or to the
    /// empty tree where it has none.
    pub fn delete(&mut self, key: &K) -> (removed: Option<V>)
        requires
            total_order::<K>(),
            faithful_clone::<K>(),
            faithful_clone::<V>(),
            old(self).wf(),
        ensures
            final(self).wf(),
            final(self)@ == old(self)@.remove(*key),
            removed == (if old(self)@.contains_key(*key) {
                Some(old(self)@[*key])
            } else {
                None::<V>
            }),
            final(self).level_count() <= old(self).level_count() <= final(self).level_count() + 1,
            Self::deletes(*old(self), *final(self), *key),
    {
        let ghost pre = *self;
        match self.root.take() {
            Some(mut root) => {
                let ghost top = *root;
                let removed = root.delete(key);
                let ghost left = *root;
                proof {
                    assert(Node::deletes(top, left, *key));
                }
                if root.keys.is_empty() {
                    if !root.children.is_empty() {
                        proof {
                            root.lemma_sole_child_view();
                            assert(root.child_seq()[0].wf());
                        }
                        self.root = Some(root.children.remove(0));
                    } else {
                        proof {
                            root.lemma_empty_view();
                        }
                    }
                } else {
                    self.root = Some(root);
                }
                removed
            },
            None => {
                proof {
                    assert(self@ =~= self@.remove(*key));
                }
                None
            },
        }
    }

    /// The entries of the tree in ascending order of their keys.
    pub fn traverse(&self) -> (all: Vec<(K, V)>)
        requires
            faithful_clone::<K>(),
            faithful_clone::<V>(),
            self.wf(),
        ensures
            all@ == self.entries(),
    {
        let mut all = Vec::new();
        match &self.root {
            Some(root) => {
                root.collect(&mut all);
            },
            None => {},
        }
        all
    }

    /// The nodes of the tree in pre-order, each with its level, counted
    /// from 0 at the top, its keys and its values.
    pub fn outline(&self) -> (lines: Vec<(usize, Vec<K>, Vec<V>)>)
        requires
            faithful_clone::<K>(),
            faithful_clone::<V>(),
            self.wf(),
            self.level_count() <= usize::MAX,
        ensures
            outline_view(lines@) == self.node_lines(),
    {
        let mut lines = Vec::new();
        assert(outline_view(lines@) =~= Seq::empty());
        match &self.root {
            Some(root) => {
                root.outline_into(0, &mut lines);
            },
            None => {},
        }
        lines
    }

    /// Number of levels of the tree.
    pub fn depth(&self) -> (count: usize)
        requires
            self.wf(),
            self.level_count() <= usize::MAX,
        ensures
            count == self.level_count(),
    {
        match &self.root {
            Some(root) => root.levels() + 1,
            None => 0,
        }
    }

    /// Looks `key` up.
    pub fn search(&self, key: &K) -> (r: Option<&V>)
        requires
            total_order::<K>(),
            self.wf(),
        ensures
            match r {
                Some(v) => self@.contains_key(*key) && *v == self@[*key],
                None => !self@.contains_key(*key),
            },
    {
        match &self.root {
            Some(root) => root.search(key),
            None => None,
        }
    }
}

impl<K: Ord + Clone, V: Clone> View for BTree<K, V> {
    type V = Map<K, V>;

    /// The tree as a map from keys to values.
    open spec fn view(&self) -> Map<K, V> {
        match self.top() {
            Some(node) => node@,
            None => Map::empty(),
        }
    }
}


} // verus!
