//! The store behind the log: an index that every record of the log is
//! replayed into, and that says, for each change, which record to append.

use vstd::prelude::*;
use vstd::string::to_string_from_display_ensures;
use vstd::utf8::encode_utf8;
use std::fmt::Display;
use crate::btree::{BTree, put};
use crate::order::{total_order, faithful_clone};
use crate::record::{LogError, Record, encode_insert, encode_delete, insert_line, delete_line};
use crate::inorder::lists;
use crate::laws::{
    put_all, distinct_keys, lemma_put_all_domain, lemma_put_all_len, law_insert_then_lookup,
};

verus! {

/// One change to the store.
pub enum Op<K, V> {
    Insert(K, V),
    Delete(K),
}

/// The map after one change: an insertion never overwrites.
pub open spec fn apply<K, V>(m: Map<K, V>, op: Op<K, V>) -> Map<K, V> {
    match op {
        Op::Insert(k, v) => put(m, k, v),
        Op::Delete(k) => m.remove(k),
    }
}

/// The map after the changes of `ops`, in turn.
pub open spec fn apply_all<K, V>(m: Map<K, V>, ops: Seq<Op<K, V>>) -> Map<K, V>
    decreases ops.len(),
{
    if ops.len() == 0 {
        m
    } else {
        apply(apply_all(m, ops.drop_last()), ops.last())
    }
}

/// The insertions that write the entries of `es` down, in turn.
pub open spec fn snapshot_ops<K, V>(es: Seq<(K, V)>) -> Seq<Op<K, V>> {
    Seq::new(es.len(), |i: int| Op::Insert(es[i].0, es[i].1))
}

/// `bytes` is a text that `t` displays as.
pub open spec fn is_text_of<T: Display>(t: T, bytes: Seq<u8>) -> bool {
    exists|s: String| #[trigger] to_string_from_display_ensures::<T>(&t, s) && bytes == encode_utf8(s@)
}

/// `line` records the insertion of `entry`, its key and value as they
/// display.
pub open spec fn is_insert_line_of<K: Display, V: Display>(entry: (K, V), line: Seq<u8>) -> bool {
    exists|key: Seq<u8>, value: Seq<u8>|
        is_text_of(entry.0, key) && is_text_of(entry.1, value) && line == #[trigger] insert_line(
            key,
            value,
        )
}

/// `line` records the deletion of `k`, as it displays.
pub open spec fn is_delete_line_of<K: Display>(k: K, line: Seq<u8>) -> bool {
    exists|key: Seq<u8>| is_text_of(k, key) && line == #[trigger] delete_line(key)
}

/// The text that `t` displays as.
fn text_of<T: Display>(t: &T) -> (bytes: Vec<u8>)
    ensures
        is_text_of(*t, bytes@),
{
    let s = t.to_string();
    let text = s.as_str().as_bytes();
    let mut bytes: Vec<u8> = Vec::new();
    let mut i: usize = 0;
    while i < text.len()
        invariant
            i <= text@.len(),
            bytes@ == text@.subrange(0, i as int),
        decreases text@.len() - i,
    {
        bytes.push(text[i]);
        i += 1;
        assert(bytes@ =~= text@.subrange(0, i as int));
    }
    assert(bytes@ =~= text@);
    bytes
}

/// What replay makes of a record whose fields the caller has decoded: the
/// change that the record stands for, or `LogCorrupt` where a field that the
/// record needs did not decode. A deletion needs no value.
pub fn decode<K, V>(record: &Record, key: Option<K>, value: Option<V>) -> (r: Result<
    Op<K, V>,
    LogError,
>)
    ensures
        r == (match (record, key, value) {
            (Record::Insert { .. }, Some(k), Some(v)) => Ok::<Op<K, V>, LogError>(
                Op::Insert(k, v),
            ),
            (Record::Delete { .. }, Some(k), _) => Ok(Op::Delete(k)),
            _ => Err(LogError::LogCorrupt),
        }),
{
    match record {
        Record::Insert { .. } => match key {
            Some(k) => match value {
                Some(v) => Ok(Op::Insert(k, v)),
                None => Err(LogError::LogCorrupt),
            },
            None => Err(LogError::LogCorrupt),
        },
        Record::Delete { .. } => match key {
            Some(k) => Ok(Op::Delete(k)),
            None => Err(LogError::LogCorrupt),
        },
    }
}

/// The store without its file: the index, and for each change the record
/// that the log is to take.
pub struct LogManager<K: Ord + Clone, V: Clone> {
    btree: BTree<K, V>,
}

impl<K: Ord + Clone, V: Clone> View for LogManager<K, V> {
    type V = Map<K, V>;

    /// What the store holds.
    closed spec fn view(&self) -> Map<K, V> {
        self.btree@
    }
}

impl<K: Ord + Clone, V: Clone> LogManager<K, V> {
    /// The index underneath.
    pub closed spec fn index(self) -> BTree<K, V> {
        self.btree
    }

    /// The index underneath is well-formed and stands for what the store
    /// holds.
    pub open spec fn wf(self) -> bool {
        self.index().wf() && self.index()@ == self@
    }

    /// A store that holds nothing, before any record is replayed.
    pub fn new() -> (store: Self)
        ensures
            store.wf(),
            store@ == Map::<K, V>::empty(),
    {
        LogManager { btree: BTree::new() }
    }

    /// Replays one change; nothing is to be appended for it.
    pub fn apply(&mut self, op: Op<K, V>)
        requires
            total_order::<K>(),
            faithful_clone::<K>(),
            faithful_clone::<V>(),
            old(self).wf(),
        ensures
            final(self).wf(),
            final(self)@ == apply(old(self)@, op),
    {
        match op {
            Op::Insert(key, value) => {
                self.btree.insert(key, value);
            },
            Op::Delete(key) => {
                self.btree.delete(&key);
            },
        }
    }

    /// Replays the changes of a log, in the order of its records.
    pub fn recover_state(&mut self, ops: Vec<Op<K, V>>)
        requires
            total_order::<K>(),
            faithful_clone::<K>(),
            faithful_clone::<V>(),
            old(self).wf(),
        ensures
            final(self).wf(),
            final(self)@ == apply_all(old(self)@, ops@),
    {
        let ghost start = self@;
        let ghost all = ops@;
        for op in it: ops
            invariant
                total_order::<K>(),
                faithful_clone::<K>(),
                faithful_clone::<V>(),
                it.seq() == all,
                self.wf(),
                self@ == apply_all(start, all.subrange(0, it.index() as int)),
        {
            proof {
                let i = it.index() as int;
                assert(all.subrange(0, i + 1).drop_last() =~= all.subrange(0, i));
                assert(all.subrange(0, i + 1).last() == op);
            }
            self.apply(op);
        }
        assert(all.subrange(0, all.len() as int) =~= all);
    }

    /// Adds an entry, unless its key is present, and gives the record to
    /// append to the log: the index changes first, the log after it.
    pub fn insert(&mut self, key: K, value: V) -> (line: Vec<u8>) where K: Display, V: Display
        requires
            total_order::<K>(),
            old(self).wf(),
        ensures
            final(self).wf(),
            final(self)@ == put(old(self)@, key, value),
            is_insert_line_of((key, value), line@),
    {
        let key_text = text_of(&key);
        let value_text = text_of(&value);
        let line = encode_insert(key_text.as_slice(), value_text.as_slice());
        assert(line@ == insert_line(key_text@, value_text@));
        self.btree.insert(key, value);
        line
    }

    /// Removes a key and gives the record to append to the log, whether or
    /// not the key was present.
    pub fn delete(&mut self, key: &K) -> (line: Vec<u8>) where K: Display
        requires
            total_order::<K>(),
            faithful_clone::<K>(),
            faithful_clone::<V>(),
            old(self).wf(),
        ensures
            final(self).wf(),
            final(self)@ == old(self)@.remove(*key),
            is_delete_line_of(*key, line@),
    {
        self.btree.delete(key);
        let key_text = text_of(key);
        let line = encode_delete(key_text.as_slice());
        assert(line@ == delete_line(key_text@));
        line
    }

    /// A copy of the value stored with `key`, if there is one.
    pub fn search(&self, key: &K) -> (found: Option<V>)
        requires
            total_order::<K>(),
            faithful_clone::<V>(),
            self.wf(),
        ensures
            found == (if self@.contains_key(*key) {
                Some(self@[*key])
            } else {
                None::<V>
            }),
    {
        match self.btree.search(key) {
            Some(value) => {
                let copy = value.clone();
                assert(cloned(*value, copy));
                Some(copy)
            },
            None => None,
        }
    }

    /// The records of the compacted log: one insertion for each entry that
    /// the store holds, in ascending order of the keys.
    pub fn shutdown(&self) -> (lines: Vec<Vec<u8>>) where K: Display, V: Display
        requires
            faithful_clone::<K>(),
            faithful_clone::<V>(),
            self.wf(),
        ensures
            lines@.len() == self.index().entries().len(),
            forall|i: int|
                0 <= i < lines@.len() ==> is_insert_line_of(
                    self.index().entries()[i],
                    (#[trigger] lines@[i])@,
                ),
    {
        let entries = self.btree.traverse();
        let mut lines: Vec<Vec<u8>> = Vec::new();
        let mut i: usize = 0;
        while i < entries.len()
            invariant
                i <= entries@.len(),
                lines@.len() == i,
                forall|j: int|
                    0 <= j < i ==> is_insert_line_of(entries@[j], (#[trigger] lines@[j])@),
            decreases entries@.len() - i,
        {
            let key_text = text_of(&entries[i].0);
            let value_text = text_of(&entries[i].1);
            let line = encode_insert(key_text.as_slice(), value_text.as_slice());
            assert(line@ == insert_line(key_text@, value_text@));
            lines.push(line);
            i += 1;
        }
        lines
    }
}

/// Replaying the insertions that write a list of entries down is putting
/// the entries in turn.
pub proof fn lemma_snapshot_puts<K, V>(m: Map<K, V>, es: Seq<(K, V)>)
    ensures
        apply_all(m, snapshot_ops(es)) == put_all(m, es),
    decreases es.len(),
{
    if es.len() > 0 {
        lemma_snapshot_puts(m, es.drop_last());
        assert(snapshot_ops(es).drop_last() =~= snapshot_ops(es.drop_last()));
    }
}

/// Compaction round trip: the insertions that write the entries of a tree
/// down, replayed into an empty store, lead to what the tree holds; there are
/// as many of them as the tree has entries, which is the size of the map it
/// stands for.
pub proof fn law_compaction_round_trip<K: Ord + Clone, V: Clone>(tree: BTree<K, V>)
    requires
        total_order::<K>(),
        tree.wf(),
    ensures
        apply_all(Map::<K, V>::empty(), snapshot_ops(tree.entries())) == tree@,
        snapshot_ops(tree.entries()).len() == tree.entries().len(),
        forall|i: int|
            0 <= i < tree.entries().len() ==> #[trigger] snapshot_ops(tree.entries())[i] is Insert,
        tree@.dom().finite(),
        tree@.dom().len() == tree.entries().len(),
{
    let es = tree.entries();
    let empty = Map::<K, V>::empty();
    tree.lemma_entries();
    lemma_snapshot_puts(empty, es);
    lemma_put_all_domain(empty, es);
    assert(distinct_keys(es)) by {
        assert forall|i: int, j: int| 0 <= i < j < es.len() implies es[i].0 != es[j].0 by {
            crate::order::lemma_trichotomy(es[i].0, es[j].0);
        }
    }
    assert forall|k: K| put_all(empty, es).contains_key(k) == tree@.contains_key(k) by {
        assert(lists(es, k) <==> tree@.contains_key(k));
        assert(put_all(empty, es).contains_key(k) <==> empty.contains_key(k) || lists(es, k));
    }
    assert forall|k: K| tree@.contains_key(k) implies put_all(empty, es)[k] == tree@[k] by {
        assert(lists(es, k) <==> tree@.contains_key(k));
        let x = choose|x: int| 0 <= x < es.len() && (#[trigger] es[x]).0 == k;
        law_insert_then_lookup(empty, es, x);
        assert(tree@[es[x].0] == es[x].1);
    }
    assert(put_all(empty, es) =~= tree@);
    lemma_put_all_len(empty, es);
}

} // verus!
