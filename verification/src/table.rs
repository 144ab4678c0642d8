//! The storage tree node.

use vstd::prelude::*;
use crate::field::Field;
use crate::model::{
    empty_tbl, entries_listeners, entries_size, entries_view, entry_listeners, entry_size,
    field_view, field_wf, keys_unique, lemma_at_unique, lemma_entries_listeners_bound,
    lemma_entries_listeners_push, lemma_entries_listeners_update, lemma_entries_size_bound,
    lemma_entries_size_push, lemma_entries_size_update, lemma_entries_view_index,
    lemma_entries_listeners_prefix, lemma_entries_view_len, m_add_listener, m_at, m_contains,
    m_get, m_path_listeners, m_remove_listener, m_set, m_set_lands, opt_value_view, own_without, path_view, table_view,
    table_wf, tbl_listeners, tbl_size, val_listener_free, val_listeners, val_size, value_view, value_wf, FieldM,
    TblM, ValM, TABLE_HEADER_BYTES,
};
use crate::command::StoreError;
use crate::value::Value;
use std::collections::VecDeque;

verus! {

broadcast use crate::model::lemma_entries_view_len, crate::model::lemma_entries_view_index;

/// One node of the storage tree: named slots with unique keys, a maintained
/// serialized byte total, and a maintained count of every listener
/// registered anywhere at or below this node's slots.
#[derive(Debug, PartialEq)]
pub struct Table {
    pub size: usize,
    pub child_listener_ct: usize,
    pub entries: Vec<(String, Field)>,
}

impl Table {
    /// An empty node.  Its footprint is the entry-count header alone.
    pub fn new() -> (r: Table)
        ensures
            table_wf(r),
            table_view(r) == empty_tbl(),
            r.size == TABLE_HEADER_BYTES,
    {
        let r = Table { size: TABLE_HEADER_BYTES, child_listener_ct: 0, entries: Vec::new() };
        proof {
            assert(table_view(r).entries =~= Seq::empty());
            assert(table_view(r) =~= empty_tbl());
        }
        r
    }

    /// An empty node with room reserved for `capacity` entries.
    pub fn with_capacity(capacity: usize) -> (r: Table)
        ensures
            table_wf(r),
            table_view(r) == empty_tbl(),
            r.size == TABLE_HEADER_BYTES,
    {
        let r = Table {
            size: TABLE_HEADER_BYTES,
            child_listener_ct: 0,
            entries: Vec::with_capacity(capacity),
        };
        proof {
            assert(table_view(r).entries =~= Seq::empty());
            assert(table_view(r) =~= empty_tbl());
        }
        r
    }

    /// Number of entries held directly in this node.
    pub fn key_count(&self) -> (r: usize)
        ensures
            r as nat == table_view(*self).entries.len(),
    {
        proof {
            crate::model::lemma_entries_view_len(self.entries@);
        }
        self.entries.len()
    }

    /// The maintained serialized footprint of this node.
    pub fn byte_size(&self) -> (r: usize)
        ensures
            r == self.size,
            table_wf(*self) ==> r as nat == tbl_size(table_view(*self)),
    {
        self.size
    }

    /// The maintained count of listeners registered anywhere at or below
    /// this node's slots.
    pub fn child_listener_ct(&self) -> (r: usize)
        ensures
            r == self.child_listener_ct,
            table_wf(*self) ==> r as nat == tbl_listeners(table_view(*self)),
    {
        self.child_listener_ct
    }

    /// A deep copy: the copy reflects to the same model table, and copying
    /// preserves well-formedness and the cached totals.
    pub fn duplicate(&self) -> (r: Table)
        ensures
            table_view(r) == table_view(*self),
            table_wf(*self) ==> table_wf(r),
            r.size == self.size,
            r.child_listener_ct == self.child_listener_ct,
        decreases *self,
    {
        let mut entries2: Vec<(String, Field)> = Vec::new();
        let n: usize = self.entries.len();
        let mut j: usize = 0;
        while j < n
            invariant
                j <= n,
                n == self.entries@.len(),
                entries2@.len() == j,
                forall|i: int| #![trigger entries2@[i]]
                    0 <= i < j ==> {
                        &&& entries2@[i].0@ == self.entries@[i].0@
                        &&& field_view(entries2@[i].1) == field_view(self.entries@[i].1)
                        &&& (field_wf(self.entries@[i].1) ==> field_wf(entries2@[i].1))
                    },
            decreases n - j,
        {
            let kc: String = self.entries[j].0.clone();
            let fc: Field = self.entries[j].1.duplicate();
            entries2.push((kc, fc));
            j = j + 1;
        }
        let r = Table { size: self.size, child_listener_ct: self.child_listener_ct, entries: entries2 };
        proof {
            lemma_entries_view_len(self.entries@);
            lemma_entries_view_len(entries2@);
            assert forall|i: int| 0 <= i < n implies entries_view(entries2@)[i] == entries_view(
                self.entries@,
            )[i] by {
                lemma_entries_view_index(self.entries@, i);
                lemma_entries_view_index(entries2@, i);
            }
            assert(entries_view(entries2@) =~= entries_view(self.entries@));
            assert(table_view(r) =~= table_view(*self));
        }
        r
    }

    /// A node built from prepared slots.  The caller supplies the slots and
    /// the serialized footprint they occupy; the footprint must be exact,
    /// the keys unique, and every slot well-formed, as the node's invariant
    /// demands.  The listener count is derived from the slots' own caches.
    pub fn with_hashmap(entries: Vec<(String, Field)>, size: usize) -> (r: Table)
        requires
            keys_unique(entries_view(entries@)),
            forall|i: int| 0 <= i < entries@.len() ==> field_wf(#[trigger] entries@[i].1),
            size as nat == TABLE_HEADER_BYTES as nat + entries_size(entries_view(entries@)),
            entries_listeners(entries_view(entries@)) <= usize::MAX,
        ensures
            table_wf(r),
            table_view(r) == (TblM { entries: entries_view(entries@) }),
            r.size == size,
    {
        let ghost ev = entries_view(entries@);
        proof {
            lemma_entries_view_len(entries@);
        }
        let n: usize = entries.len();
        let mut acc: usize = 0;
        let mut j: usize = 0;
        while j < n
            invariant
                j <= n,
                n == entries@.len(),
                ev == entries_view(entries@),
                keys_unique(ev),
                ev.len() == n,
                forall|i: int| 0 <= i < entries@.len() ==> field_wf(#[trigger] entries@[i].1),
                entries_listeners(ev) <= usize::MAX,
                acc as nat == entries_listeners(ev.subrange(0, j as int)),
            decreases n - j,
        {
            proof {
                lemma_entries_view_index(entries@, j as int);
                assert(ev.subrange(0, j as int + 1).drop_last() =~= ev.subrange(0, j as int));
                assert(ev.subrange(0, j as int + 1).last() == ev[j as int]);
                lemma_entries_listeners_prefix(ev, j as int + 1);
                assert(field_wf(entries@[j as int].1));
                assert(ev[j as int].1 == field_view(entries@[j as int].1));
                assert(entry_listeners(ev[j as int]) == entries@[j as int].1.own_listeners@.len()
                    + entries@[j as int].1.child_listener_ct);
                assert(entries_listeners(ev.subrange(0, j as int + 1)) == entries_listeners(
                    ev.subrange(0, j as int),
                ) + entry_listeners(ev[j as int]));
                assert(entries_listeners(ev.subrange(0, j as int + 1)) <= usize::MAX);
            }
            let own_ct: usize = entries[j].1.own_listeners.len();
            let below_ct: usize = entries[j].1.child_listener_ct;
            acc = acc + own_ct + below_ct;
            j = j + 1;
        }
        proof {
            assert(ev.subrange(0, n as int) =~= ev);
        }
        let r = Table { size, child_listener_ct: acc, entries };
        proof {
            assert(table_view(r) =~= (TblM { entries: ev }));
        }
        r
    }

    /// The slots held directly in this node, as copied (key, value) pairs,
    /// in insertion order.
    pub fn pairs(&self) -> (r: Vec<(String, Value)>)
        ensures
            r@.len() == table_view(*self).entries.len(),
            forall|i: int| #![trigger r@[i]]
                0 <= i < r@.len() ==> r@[i].0@ == table_view(*self).entries[i].0 && value_view(
                    r@[i].1,
                ) == table_view(*self).entries[i].1.data,
    {
        proof {
            lemma_entries_view_len(self.entries@);
        }
        let n: usize = self.entries.len();
        let mut r: Vec<(String, Value)> = Vec::new();
        let mut j: usize = 0;
        while j < n
            invariant
                j <= n,
                n == self.entries@.len(),
                table_view(*self).entries.len() == n,
                r@.len() == j,
                forall|i: int| #![trigger r@[i]]
                    0 <= i < j ==> r@[i].0@ == table_view(*self).entries[i].0 && value_view(r@[i].1)
                        == table_view(*self).entries[i].1.data,
            decreases n - j,
        {
            proof {
                lemma_entries_view_index(self.entries@, j as int);
            }
            let kc: String = self.entries[j].0.clone();
            let vc: Value = self.entries[j].1.data.duplicate();
            r.push((kc, vc));
            j = j + 1;
        }
        r
    }

    /// The keys held directly in this node, in insertion order.
    pub fn keys_iter(&self) -> (r: Vec<String>)
        ensures
            r@.len() == table_view(*self).entries.len(),
            forall|i: int| #![trigger r@[i]]
                0 <= i < r@.len() ==> r@[i]@ == table_view(*self).entries[i].0,
    {
        proof {
            lemma_entries_view_len(self.entries@);
        }
        let n: usize = self.entries.len();
        let mut r: Vec<String> = Vec::new();
        let mut j: usize = 0;
        while j < n
            invariant
                j <= n,
                n == self.entries@.len(),
                table_view(*self).entries.len() == n,
                r@.len() == j,
                forall|i: int| #![trigger r@[i]]
                    0 <= i < j ==> r@[i]@ == table_view(*self).entries[i].0,
            decreases n - j,
        {
            proof {
                lemma_entries_view_index(self.entries@, j as int);
            }
            r.push(self.entries[j].0.clone());
            j = j + 1;
        }
        r
    }

    /// The slot stored under the single segment `key`, if one is.
    pub fn get_field(&self, key: &String) -> (r: Option<&Field>)
        requires
            table_wf(*self),
        ensures
            match r {
                Some(f) => m_contains(table_view(*self).entries, key@) && field_view(*f)
                    == table_view(*self).entries[m_at(table_view(*self).entries, key@)].1,
                None => !m_contains(table_view(*self).entries, key@),
            },
    {
        let ghost tv = table_view(*self);
        proof {
            lemma_entries_view_len(self.entries@);
        }
        match Self::find(&self.entries, key) {
            Some(j) => {
                proof {
                    lemma_entries_view_index(self.entries@, j as int);
                    lemma_at_unique(tv.entries, key@, j as int);
                }
                Some(&self.entries[j].1)
            },
            None => {
                proof {
                    assert forall|jj: int| 0 <= jj < tv.entries.len() implies tv.entries[jj].0
                        != key@ by {
                        lemma_entries_view_index(self.entries@, jj);
                    }
                }
                None
            },
        }
    }

    /// Exclusive access to the slot stored under the single segment `key`,
    /// if one is.  The node afterwards holds, at that key's position, the
    /// slot the caller leaves behind; the maintained totals are not
    /// adjusted for edits made through the handle, so a caller that changes
    /// the slot's footprint or listener content on its own suspends the
    /// node's stated invariant.
    pub fn get_field_mut(&mut self, key: &String) -> (r: Option<&mut Field>)
        requires
            table_wf(*old(self)),
        ensures
            match r {
                Some(f) => {
                    &&& m_contains(table_view(*old(self)).entries, key@)
                    &&& field_view(*f) == table_view(*old(self)).entries[m_at(
                        table_view(*old(self)).entries,
                        key@,
                    )].1
                    &&& final(self).entries@ == old(self).entries@.update(
                        m_at(table_view(*old(self)).entries, key@),
                        (
                            old(self).entries@[m_at(table_view(*old(self)).entries, key@)].0,
                            *final(f),
                        ),
                    )
                    &&& final(self).size == old(self).size
                    &&& final(self).child_listener_ct == old(self).child_listener_ct
                },
                None => !m_contains(table_view(*old(self)).entries, key@),
            },
    {
        let ghost tv = table_view(*old(self));
        proof {
            lemma_entries_view_len(self.entries@);
        }
        match Self::find(&self.entries, key) {
            Some(j) => {
                proof {
                    lemma_entries_view_index(self.entries@, j as int);
                    lemma_at_unique(tv.entries, key@, j as int);
                }
                let e = &mut self.entries[j];
                Some(&mut e.1)
            },
            None => {
                proof {
                    assert forall|jj: int| 0 <= jj < tv.entries.len() implies tv.entries[jj].0
                        != key@ by {
                        lemma_entries_view_index(self.entries@, jj);
                    }
                }
                None
            },
        }
    }

    /// Introduces a prepared slot under a fresh single segment `key`.  A key
    /// already occupied is a recoverable failure: the caller decides whether
    /// to treat it as fatal, and the node is left unchanged.
    pub fn set_field(&mut self, key: String, f: Field) -> (r: Result<(), StoreError>)
        requires
            table_wf(*old(self)),
            field_wf(f),
            TABLE_HEADER_BYTES as nat + entries_size(
                entries_view(old(self).entries@.push((key, f))),
            ) <= usize::MAX,
            tbl_listeners(table_view(*old(self))) + entry_listeners((key@, field_view(f)))
                <= usize::MAX,
        ensures
            match r {
                Ok(()) => !m_contains(table_view(*old(self)).entries, key@) && table_wf(
                    *final(self),
                ) && table_view(*final(self)) == (TblM {
                    entries: table_view(*old(self)).entries.push((key@, field_view(f))),
                }),
                Err(StoreError::KeyAlreadyExists) => m_contains(
                    table_view(*old(self)).entries,
                    key@,
                ) && *final(self) == *old(self),
            },
    {
        let ghost tv = table_view(*old(self));
        proof {
            lemma_entries_view_len(self.entries@);
        }
        match Self::find(&self.entries, &key) {
            Some(j) => {
                proof {
                    lemma_entries_view_index(self.entries@, j as int);
                }
                Err(StoreError::KeyAlreadyExists)
            },
            None => {
                proof {
                    assert forall|jj: int| 0 <= jj < tv.entries.len() implies tv.entries[jj].0
                        != key@ by {
                        lemma_entries_view_index(self.entries@, jj);
                    }
                    assert(!m_contains(tv.entries, key@));
                    lemma_entries_size_push(tv.entries, (key@, field_view(f)));
                    lemma_entries_listeners_push(tv.entries, (key@, field_view(f)));
                    assert(entries_view(old(self).entries@.push((key, f))).last() == (
                        key@,
                        field_view(f),
                    ));
                    assert(entries_view(old(self).entries@.push((key, f))).drop_last()
                        =~= entries_view(old(self).entries@)) by {
                        assert(old(self).entries@.push((key, f)).drop_last() =~= old(
                            self,
                        ).entries@);
                    }
                    assert(entries_view(old(self).entries@.push((key, f))) =~= tv.entries.push(
                        (key@, field_view(f)),
                    ));
                }
                let kb: usize = key.as_str().len();
                let own_ct: usize = f.own_listeners.len();
                let below_ct: usize = f.child_listener_ct;
                let vs: usize = f.data.size();
                self.entries.push((key, f));
                self.size = self.size + crate::model::LEN_PREFIX_BYTES + kb + vs;
                self.child_listener_ct = self.child_listener_ct + own_ct + below_ct;
                proof {
                    lemma_entries_view_len(self.entries@);
                    let ghost te = tv.entries.push((key@, field_view(f)));
                    assert forall|q: int| 0 <= q < te.len() implies entries_view(self.entries@)[q]
                        == te[q] by {
                        lemma_entries_view_index(self.entries@, q);
                        if q < tv.entries.len() {
                            lemma_entries_view_index(old(self).entries@, q);
                        }
                    }
                    assert(entries_view(self.entries@) =~= te);
                    assert(table_view(*self) =~= (TblM { entries: te }));
                    assert forall|q: int| 0 <= q < self.entries@.len() implies field_wf(
                        #[trigger] self.entries@[q].1,
                    ) by {
                        if q < old(self).entries@.len() {
                            lemma_entries_view_index(old(self).entries@, q);
                        }
                    }
                }
                Ok(())
            },
        }
    }

    /// The position of the entry carrying key `k`, if one does.
    fn find(entries: &Vec<(String, Field)>, k: &String) -> (r: Option<usize>)
        ensures
            match r {
                Some(j) => j < entries@.len() && entries@[j as int].0@ == k@,
                None => forall|i: int| 0 <= i < entries@.len() ==> entries@[i].0@ != k@,
            },
    {
        let n: usize = entries.len();
        let mut j: usize = 0;
        while j < n
            invariant
                j <= n,
                n == entries@.len(),
                forall|i: int| 0 <= i < j ==> entries@[i].0@ != k@,
            decreases n - j,
        {
            if entries[j].0 == *k {
                return Some(j);
            }
            j = j + 1;
        }
        None
    }

    /// Resolves `key` against this node, consuming segments front to back:
    /// a fully consumed path yields the addressed slot's value; an absent
    /// key, descent through a scalar, and the empty path yield `None`.
    /// Absence is an expected outcome, never a failure.
    pub fn get(&self, key: VecDeque<String>) -> (r: Option<&Value>)
        requires
            table_wf(*self),
        ensures
            opt_value_view(r) == m_get(table_view(*self), path_view(key@)),
    {
        if key.len() == 0 {
            None
        } else {
            proof {
                assert(path_view(key@).skip(0) =~= path_view(key@));
            }
            self.get_at(&key, 0)
        }
    }

    /// The recursive step of `get`: resolves the suffix of `key` that starts
    /// at segment `i` against this node.
    fn get_at<'a>(&'a self, key: &VecDeque<String>, i: usize) -> (r: Option<&'a Value>)
        requires
            table_wf(*self),
            i < key@.len(),
        ensures
            opt_value_view(r) == m_get(table_view(*self), path_view(key@).skip(i as int)),
        decreases key@.len() - i,
    {
        let ghost p = path_view(key@).skip(i as int);
        let ghost tv = table_view(*self);
        let k = &key[i];
        assert(p[0] == k@);
        match Self::find(&self.entries, k) {
            None => {
                proof {
                    lemma_entries_view_len(self.entries@);
                    assert forall|jj: int| 0 <= jj < tv.entries.len() implies tv.entries[jj].0 != p[0] by {
                        lemma_entries_view_index(self.entries@, jj);
                    }
                    assert(!m_contains(tv.entries, p[0]));
                }
                None
            },
            Some(j) => {
                proof {
                    lemma_entries_view_index(self.entries@, j as int);
                    lemma_at_unique(tv.entries, p[0], j as int);
                }
                let f = &self.entries[j].1;
                let klen: usize = key.len();
                if klen - i == 1 {
                    Some(&f.data)
                } else {
                    proof {
                        assert(p.drop_first() =~= path_view(key@).skip(i as int + 1));
                    }
                    match &f.data {
                        Value::Table(t2) => t2.get_at(key, i + 1),
                        _ => None,
                    }
                }
            },
        }
    }

    /// Same resolution as `get`, handing back exclusive access to the
    /// addressed slot's value for in-place mutation without reconstructing
    /// it.  The handle is returned exactly when the path resolves, and it
    /// initially holds exactly the value that `get` would return.  While the
    /// handle is out, the node's maintained byte and listener totals are not
    /// adjusted for edits made through it: a caller that changes the
    /// value's footprint or listener content on its own suspends the tree's
    /// stated invariant.
    pub fn get_mut(&mut self, key: VecDeque<String>) -> (r: Option<&mut Value>)
        requires
            table_wf(*old(self)),
        ensures
            match r {
                None => m_get(table_view(*old(self)), path_view(key@)) is None,
                Some(v) => Some(value_view(*v)) == m_get(table_view(*old(self)), path_view(key@)),
            },
    {
        if key.len() == 0 {
            None
        } else {
            proof {
                assert(path_view(key@).skip(0) =~= path_view(key@));
            }
            self.get_mut_at(&key, 0)
        }
    }

    /// The recursive step of `get_mut`.
    #[verifier::rlimit(100)]
    fn get_mut_at(&mut self, key: &VecDeque<String>, i: usize) -> (r: Option<&mut Value>)
        requires
            table_wf(*old(self)),
            i < key@.len(),
        ensures
            match r {
                None => m_get(table_view(*old(self)), path_view(key@).skip(i as int)) is None,
                Some(v) => Some(value_view(*v)) == m_get(
                    table_view(*old(self)),
                    path_view(key@).skip(i as int),
                ),
            },
        decreases key@.len() - i,
    {
        let ghost p = path_view(key@).skip(i as int);
        let ghost tv = table_view(*old(self));
        let k = &key[i];
        let klen: usize = key.len();
        assert(p[0] == k@);
        proof {
            lemma_entries_view_len(self.entries@);
        }
        match Self::find(&self.entries, k) {
            None => {
                proof {
                    assert forall|jj: int| 0 <= jj < tv.entries.len() implies tv.entries[jj].0
                        != p[0] by {
                        lemma_entries_view_index(self.entries@, jj);
                    }
                    assert(!m_contains(tv.entries, p[0]));
                }
                None
            },
            Some(j) => {
                proof {
                    lemma_entries_view_index(self.entries@, j as int);
                    lemma_at_unique(tv.entries, p[0], j as int);
                    lemma_entries_size_bound(tv.entries, j as int);
                    lemma_entries_listeners_bound(tv.entries, j as int);
                }
                let ghost fm = tv.entries[j as int].1;
                if klen - i == 1 {
                    let e = &mut self.entries[j];
                    Some(&mut e.1.data)
                } else {
                    proof {
                        assert(p.drop_first() =~= path_view(key@).skip(i as int + 1));
                    }
                    let e = &mut self.entries[j];
                    match &mut e.1.data {
                        Value::Table(t2) => (&mut **t2).get_mut_at(key, i + 1),
                        _ => None,
                    }
                }
            },
        }
    }

    /// Writes `val` at `key`, overwriting any prior value there.
    /// Intermediate nodes are created lazily; writing through a segment that
    /// currently holds a scalar silently drops the write; the empty path is
    /// a no-op.  The byte total of every touched node is maintained
    /// incrementally, subtracting a superseded value's footprint before
    /// adding the new one, so that it stays exact across overwrites; the
    /// listener counts of every touched node are likewise kept exact when an
    /// overwrite destroys a subtree that carried listeners.
    pub fn set(&mut self, key: VecDeque<String>, val: &Value)
        requires
            table_wf(*old(self)),
            value_wf(*val),
            val_listener_free(value_view(*val)),
            tbl_size(m_set(table_view(*old(self)), path_view(key@), value_view(*val)))
                <= usize::MAX,
        ensures
            table_wf(*final(self)),
            table_view(*final(self)) == m_set(
                table_view(*old(self)),
                path_view(key@),
                value_view(*val),
            ),
    {
        if key.len() > 0 {
            proof {
                assert(path_view(key@).skip(0) =~= path_view(key@));
            }
            let _removed = self.set_at(&key, 0, val);
        }
    }

    /// The recursive step of `set`: writes `val` at the suffix of `key` that
    /// starts at segment `i`.  Returns how many listeners the write
    /// destroyed (those registered inside an overwritten subtree); the
    /// caller folds that loss into its own count.
    #[verifier::rlimit(100)]
    fn set_at(&mut self, key: &VecDeque<String>, i: usize, val: &Value) -> (removed: usize)
        requires
            table_wf(*old(self)),
            i < key@.len(),
            value_wf(*val),
            val_listener_free(value_view(*val)),
            tbl_size(
                m_set(table_view(*old(self)), path_view(key@).skip(i as int), value_view(*val)),
            ) <= usize::MAX,
        ensures
            table_wf(*final(self)),
            table_view(*final(self)) == m_set(
                table_view(*old(self)),
                path_view(key@).skip(i as int),
                value_view(*val),
            ),
            removed as nat + tbl_listeners(table_view(*final(self))) == tbl_listeners(
                table_view(*old(self)),
            ),
        decreases key@.len() - i,
    {
        let ghost tv = table_view(*old(self));
        let ghost p = path_view(key@).skip(i as int);
        let ghost v = value_view(*val);
        let ghost target = m_set(tv, p, v);
        let k = &key[i];
        let klen: usize = key.len();
        assert(p[0] == k@);
        proof {
            lemma_entries_view_len(self.entries@);
        }
        match Self::find(&self.entries, k) {
            Some(j) => {
                proof {
                    lemma_entries_view_index(self.entries@, j as int);
                    lemma_at_unique(tv.entries, p[0], j as int);
                }
                let ghost fm = tv.entries[j as int].1;
                if klen - i == 1 {
                    let removed: usize = self.entries[j].1.child_listener_ct;
                    proof {
                        lemma_entries_size_bound(tv.entries, j as int);
                        lemma_entries_listeners_bound(tv.entries, j as int);
                        lemma_entries_size_update(
                            tv.entries,
                            j as int,
                            (p[0], FieldM { data: v, own: fm.own }),
                        );
                        lemma_entries_listeners_update(
                            tv.entries,
                            j as int,
                            (p[0], FieldM { data: v, own: fm.own }),
                        );
                        assert(target.entries == tv.entries.update(
                            j as int,
                            (p[0], FieldM { data: v, own: fm.own }),
                        ));
                        assert(entries_size(target.entries) >= entry_size(target.entries[j as int]))
                            by {
                            lemma_entries_size_bound(target.entries, j as int);
                        }
                        assert(val_size(fm.data) <= entry_size(tv.entries[j as int]));
                        assert(old(self).size as nat == tbl_size(tv));
                        assert(val_size(v) <= entry_size(target.entries[j as int]));
                        assert(tbl_size(target) == tbl_size(tv) - val_size(fm.data) + val_size(v));
                        assert(removed as nat == val_listeners(fm.data));
                        assert(tbl_listeners(target) == tbl_listeners(tv) - val_listeners(fm.data));
                        assert(old(self).child_listener_ct as nat >= val_listeners(fm.data));
                    }
                    let old_vs: usize = self.entries[j].1.data.size();
                    let new_vs: usize = val.size();
                    let e = &mut self.entries[j];
                    e.1.data = val.duplicate();
                    e.1.child_listener_ct = 0;
                    self.size = self.size - old_vs + new_vs;
                    self.child_listener_ct = self.child_listener_ct - removed;
                    proof {
                        lemma_entries_view_len(self.entries@);
                        assert forall|q: int| 0 <= q < tv.entries.len() implies entries_view(
                            self.entries@,
                        )[q] == target.entries[q] by {
                            lemma_entries_view_index(self.entries@, q);
                            lemma_entries_view_index(old(self).entries@, q);
                        }
                        assert(entries_view(self.entries@) =~= target.entries);
                        assert(table_view(*self) =~= target);
                        assert forall|q: int| 0 <= q < self.entries@.len() implies field_wf(
                            #[trigger] self.entries@[q].1,
                        ) by {
                            lemma_entries_view_index(old(self).entries@, q);
                        }
                    }
                    removed
                } else {
                    let mut rem: usize = 0;
                    let mut oc: usize = 0;
                    let mut nc: usize = 0;
                    let mut descended: bool = false;
                    let ghost mut co = empty_tbl();
                    let ghost mut cn = empty_tbl();
                    proof {
                        lemma_entries_size_bound(tv.entries, j as int);
                        lemma_entries_listeners_bound(tv.entries, j as int);
                        assert(p.drop_first() =~= path_view(key@).skip(i as int + 1));
                    }
                    let e = &mut self.entries[j];
                    match &mut e.1.data {
                        Value::Table(t2) => {
                            proof {
                                co = table_view(**t2);
                                cn = m_set(co, p.drop_first(), v);
                                assert(fm.data == ValM::Tbl(co));
                                assert(table_wf(**t2));
                                assert(target.entries == tv.entries.update(
                                    j as int,
                                    (p[0], FieldM { data: ValM::Tbl(cn), own: fm.own }),
                                ));
                                lemma_entries_size_update(
                                    tv.entries,
                                    j as int,
                                    (p[0], FieldM { data: ValM::Tbl(cn), own: fm.own }),
                                );
                                lemma_entries_size_bound(target.entries, j as int);
                                assert(tbl_size(cn) <= entry_size(target.entries[j as int]));
                                assert(tbl_size(cn) <= tbl_size(target));
                            }
                            oc = (**t2).size;
                            rem = (&mut **t2).set_at(key, i + 1, val);
                            nc = (**t2).size;
                            proof {
                                assert(table_view(**t2) == cn);
                                assert(table_wf(**t2));
                                assert(nc as nat == tbl_size(cn));
                                assert(rem as nat + tbl_listeners(cn) == tbl_listeners(co));
                                assert(e.1.child_listener_ct as nat == tbl_listeners(co));
                            }
                            e.1.child_listener_ct = e.1.child_listener_ct - rem;
                            descended = true;
                        },
                        _ => {
                        },
                    }
                    if descended {
                        proof {
                            let ghost ne = (p[0], FieldM { data: ValM::Tbl(cn), own: fm.own });
                            assert(target.entries == tv.entries.update(j as int, ne));
                            lemma_entries_size_update(tv.entries, j as int, ne);
                            lemma_entries_listeners_update(tv.entries, j as int, ne);
                            assert(oc as nat == tbl_size(co));
                            assert(nc as nat == tbl_size(cn));
                            assert(old(self).size as nat == tbl_size(tv));
                            assert(self.size == old(self).size);
                            assert(entry_size(tv.entries[j as int]) >= tbl_size(co));
                            assert(tbl_size(tv) >= entry_size(tv.entries[j as int]));
                            assert(tbl_size(target) == tbl_size(tv) - tbl_size(co) + tbl_size(cn));
                            assert(entry_listeners(tv.entries[j as int]) >= tbl_listeners(co));
                            assert(tbl_listeners(target) == tbl_listeners(tv) - tbl_listeners(co)
                                + tbl_listeners(cn));
                            assert(old(self).child_listener_ct as nat == tbl_listeners(tv));
                            assert(rem as nat <= tbl_listeners(co));
                        }
                        self.size = self.size - oc + nc;
                        self.child_listener_ct = self.child_listener_ct - rem;
                        proof {
                            lemma_entries_view_len(self.entries@);
                            assert forall|q: int| 0 <= q < tv.entries.len() implies entries_view(
                                self.entries@,
                            )[q] == target.entries[q] by {
                                lemma_entries_view_index(self.entries@, q);
                                lemma_entries_view_index(old(self).entries@, q);
                            }
                            assert(entries_view(self.entries@) =~= target.entries);
                            assert(table_view(*self) =~= target);
                            assert forall|q: int| 0 <= q < self.entries@.len() implies field_wf(
                                #[trigger] self.entries@[q].1,
                            ) by {
                                lemma_entries_view_index(old(self).entries@, q);
                            }
                        }
                    } else {
                        proof {
                            assert(target =~= tv);
                            lemma_entries_view_len(self.entries@);
                            assert forall|q: int| 0 <= q < tv.entries.len() implies entries_view(
                                self.entries@,
                            )[q] == tv.entries[q] by {
                                lemma_entries_view_index(self.entries@, q);
                                lemma_entries_view_index(old(self).entries@, q);
                            }
                            assert(entries_view(self.entries@) =~= tv.entries);
                            assert(table_view(*self) =~= tv);
                            assert forall|q: int| 0 <= q < self.entries@.len() implies field_wf(
                                #[trigger] self.entries@[q].1,
                            ) by {
                                lemma_entries_view_index(old(self).entries@, q);
                            }
                        }
                    }
                    rem
                }
            },
            None => {
                proof {
                    assert forall|jj: int| 0 <= jj < tv.entries.len() implies tv.entries[jj].0
                        != p[0] by {
                        lemma_entries_view_index(self.entries@, jj);
                    }
                    assert(!m_contains(tv.entries, p[0]));
                }
                let kb: usize = k.as_str().len();
                if klen - i == 1 {
                    proof {
                        lemma_entries_size_push(tv.entries, (p[0], FieldM { data: v, own: Seq::empty() }));
                        lemma_entries_listeners_push(
                            tv.entries,
                            (p[0], FieldM { data: v, own: Seq::empty() }),
                        );
                    }
                    let vs: usize = val.size();
                    let kc: String = k.clone();
                    let f = Field {
                        data: val.duplicate(),
                        own_listeners: Vec::new(),
                        child_listener_ct: 0,
                    };
                    self.entries.push((kc, f));
                    self.size = self.size + crate::model::LEN_PREFIX_BYTES + kb + vs;
                    proof {
                        lemma_entries_view_len(self.entries@);
                        assert forall|q: int| 0 <= q < target.entries.len() implies entries_view(
                            self.entries@,
                        )[q] == target.entries[q] by {
                            lemma_entries_view_index(self.entries@, q);
                            if q < tv.entries.len() {
                                lemma_entries_view_index(old(self).entries@, q);
                            }
                        }
                        assert(entries_view(self.entries@) =~= target.entries);
                        assert(table_view(*self) =~= target);
                        assert forall|q: int| 0 <= q < self.entries@.len() implies field_wf(
                            #[trigger] self.entries@[q].1,
                        ) by {
                            if q < old(self).entries@.len() {
                                lemma_entries_view_index(old(self).entries@, q);
                            }
                        }
                    }
                    0
                } else {
                    proof {
                        assert(p.drop_first() =~= path_view(key@).skip(i as int + 1));
                        lemma_entries_size_push(
                            tv.entries,
                            (
                                p[0],
                                FieldM {
                                    data: ValM::Tbl(m_set(empty_tbl(), p.drop_first(), v)),
                                    own: Seq::empty(),
                                },
                            ),
                        );
                        lemma_entries_listeners_push(
                            tv.entries,
                            (
                                p[0],
                                FieldM {
                                    data: ValM::Tbl(m_set(empty_tbl(), p.drop_first(), v)),
                                    own: Seq::empty(),
                                },
                            ),
                        );
                    }
                    let mut ntable = Table::new();
                    let _r = ntable.set_at(key, i + 1, val);
                    let vs: usize = ntable.size;
                    let kc: String = k.clone();
                    let f = Field {
                        data: Value::Table(Box::new(ntable)),
                        own_listeners: Vec::new(),
                        child_listener_ct: 0,
                    };
                    self.entries.push((kc, f));
                    self.size = self.size + crate::model::LEN_PREFIX_BYTES + kb + vs;
                    proof {
                        lemma_entries_view_len(self.entries@);
                        assert forall|q: int| 0 <= q < target.entries.len() implies entries_view(
                            self.entries@,
                        )[q] == target.entries[q] by {
                            lemma_entries_view_index(self.entries@, q);
                            if q < tv.entries.len() {
                                lemma_entries_view_index(old(self).entries@, q);
                            }
                        }
                        assert(entries_view(self.entries@) =~= target.entries);
                        assert(table_view(*self) =~= target);
                        assert forall|q: int| 0 <= q < self.entries@.len() implies field_wf(
                            #[trigger] self.entries@[q].1,
                        ) by {
                            if q < old(self).entries@.len() {
                                lemma_entries_view_index(old(self).entries@, q);
                            }
                        }
                    }
                    0
                }
            },
        }
    }

    /// Registers `id` on the field addressed by `key`, and folds the change
    /// into the cached listener count of every node along the path, so that
    /// every cache stays equal to its subtree's actual listener set.  A path
    /// that does not resolve to an existing field, and an identity already
    /// registered there, change nothing.  Returns whether a registration
    /// happened.
    pub fn add_listener_at(&mut self, key: &VecDeque<String>, id: usize) -> (added: bool)
        requires
            table_wf(*old(self)),
            tbl_listeners(m_add_listener(table_view(*old(self)), path_view(key@), id))
                <= usize::MAX,
        ensures
            table_wf(*final(self)),
            final(self).size == old(self).size,
            table_view(*final(self)) == m_add_listener(table_view(*old(self)), path_view(key@), id),
            tbl_listeners(table_view(*final(self))) == tbl_listeners(table_view(*old(self))) + (
            if added {
                1nat
            } else {
                0nat
            }),
    {
        if key.len() == 0 {
            false
        } else {
            proof {
                assert(path_view(key@).skip(0) =~= path_view(key@));
            }
            self.add_listener_rec(key, 0, id)
        }
    }

    /// The recursive step of `add_listener_at`.
    #[verifier::rlimit(100)]
    fn add_listener_rec(&mut self, key: &VecDeque<String>, i: usize, id: usize) -> (added: bool)
        requires
            table_wf(*old(self)),
            i < key@.len(),
            tbl_listeners(
                m_add_listener(table_view(*old(self)), path_view(key@).skip(i as int), id),
            ) <= usize::MAX,
        ensures
            table_wf(*final(self)),
            final(self).size == old(self).size,
            table_view(*final(self)) == m_add_listener(
                table_view(*old(self)),
                path_view(key@).skip(i as int),
                id,
            ),
            tbl_listeners(table_view(*final(self))) == tbl_listeners(table_view(*old(self))) + (
            if added {
                1nat
            } else {
                0nat
            }),
        decreases key@.len() - i,
    {
        let ghost tv = table_view(*old(self));
        let ghost p = path_view(key@).skip(i as int);
        let ghost target = m_add_listener(tv, p, id);
        let k = &key[i];
        let klen: usize = key.len();
        assert(p[0] == k@);
        proof {
            lemma_entries_view_len(self.entries@);
        }
        match Self::find(&self.entries, k) {
            None => {
                proof {
                    assert forall|jj: int| 0 <= jj < tv.entries.len() implies tv.entries[jj].0
                        != p[0] by {
                        lemma_entries_view_index(self.entries@, jj);
                    }
                    assert(!m_contains(tv.entries, p[0]));
                    assert(target =~= tv);
                }
                false
            },
            Some(j) => {
                proof {
                    lemma_entries_view_index(self.entries@, j as int);
                    lemma_at_unique(tv.entries, p[0], j as int);
                    lemma_entries_listeners_bound(tv.entries, j as int);
                }
                let ghost fm = tv.entries[j as int].1;
                if klen - i == 1 {
                    let had: bool = self.entries[j].1.has_listener(id);
                    let ghost own2 = if fm.own.contains(id) {
                        fm.own
                    } else {
                        fm.own.push(id)
                    };
                    proof {
                        let ghost ne = (p[0], FieldM { data: fm.data, own: own2 });
                        assert(target.entries == tv.entries.update(j as int, ne));
                        lemma_entries_listeners_update(tv.entries, j as int, ne);
                        lemma_entries_size_update(tv.entries, j as int, ne);
                        assert(entry_size(ne) == entry_size(tv.entries[j as int]));
                        assert(tbl_size(target) == tbl_size(tv));
                        assert(tbl_listeners(target) == tbl_listeners(tv) + (if had {
                            0nat
                        } else {
                            1nat
                        }));
                    }
                    let e = &mut self.entries[j];
                    e.1.add_listener(id);
                    if !had {
                        self.child_listener_ct = self.child_listener_ct + 1;
                    }
                    proof {
                        lemma_entries_view_len(self.entries@);
                        assert forall|q: int| 0 <= q < tv.entries.len() implies entries_view(
                            self.entries@,
                        )[q] == target.entries[q] by {
                            lemma_entries_view_index(self.entries@, q);
                            lemma_entries_view_index(old(self).entries@, q);
                        }
                        assert(entries_view(self.entries@) =~= target.entries);
                        assert(table_view(*self) =~= target);
                        assert forall|q: int| 0 <= q < self.entries@.len() implies field_wf(
                            #[trigger] self.entries@[q].1,
                        ) by {
                            lemma_entries_view_index(old(self).entries@, q);
                        }
                    }
                    !had
                } else {
                    let mut added: bool = false;
                    let mut descended: bool = false;
                    let ghost mut co = empty_tbl();
                    let ghost mut cn = empty_tbl();
                    proof {
                        assert(p.drop_first() =~= path_view(key@).skip(i as int + 1));
                    }
                    let e = &mut self.entries[j];
                    match &mut e.1.data {
                        Value::Table(t2) => {
                            proof {
                                co = table_view(**t2);
                                cn = m_add_listener(co, p.drop_first(), id);
                                assert(fm.data == ValM::Tbl(co));
                                assert(table_wf(**t2));
                                assert(target.entries == tv.entries.update(
                                    j as int,
                                    (p[0], FieldM { data: ValM::Tbl(cn), own: fm.own }),
                                ));
                                lemma_entries_listeners_update(
                                    tv.entries,
                                    j as int,
                                    (p[0], FieldM { data: ValM::Tbl(cn), own: fm.own }),
                                );
                                lemma_entries_listeners_bound(target.entries, j as int);
                                assert(tbl_listeners(cn) <= tbl_listeners(target));
                            }
                            added = (&mut **t2).add_listener_rec(key, i + 1, id);
                            proof {
                                assert(table_view(**t2) == cn);
                                assert(e.1.child_listener_ct as nat == tbl_listeners(co));
                                assert(tbl_listeners(cn) == tbl_listeners(co) + (if added {
                                    1nat
                                } else {
                                    0nat
                                }));
                            }
                            if added {
                                e.1.child_listener_ct = e.1.child_listener_ct + 1;
                            }
                            descended = true;
                        },
                        _ => {
                        },
                    }
                    if descended {
                        proof {
                            let ghost ne = (p[0], FieldM { data: ValM::Tbl(cn), own: fm.own });
                            assert(target.entries == tv.entries.update(j as int, ne));
                            lemma_entries_listeners_update(tv.entries, j as int, ne);
                            lemma_entries_size_update(tv.entries, j as int, ne);
                            assert(tbl_size(cn) == tbl_size(co));
                            assert(entry_size(ne) == entry_size(tv.entries[j as int]));
                            assert(tbl_size(target) == tbl_size(tv));
                            assert(old(self).child_listener_ct as nat == tbl_listeners(tv));
                            assert(tbl_listeners(target) == tbl_listeners(tv) + (if added {
                                1nat
                            } else {
                                0nat
                            }));
                        }
                        if added {
                            self.child_listener_ct = self.child_listener_ct + 1;
                        }
                        proof {
                            lemma_entries_view_len(self.entries@);
                            assert forall|q: int| 0 <= q < tv.entries.len() implies entries_view(
                                self.entries@,
                            )[q] == target.entries[q] by {
                                lemma_entries_view_index(self.entries@, q);
                                lemma_entries_view_index(old(self).entries@, q);
                            }
                            assert(entries_view(self.entries@) =~= target.entries);
                            assert(table_view(*self) =~= target);
                            assert forall|q: int| 0 <= q < self.entries@.len() implies field_wf(
                                #[trigger] self.entries@[q].1,
                            ) by {
                                lemma_entries_view_index(old(self).entries@, q);
                            }
                        }
                    } else {
                        proof {
                            assert(target =~= tv);
                            lemma_entries_view_len(self.entries@);
                            assert forall|q: int| 0 <= q < tv.entries.len() implies entries_view(
                                self.entries@,
                            )[q] == tv.entries[q] by {
                                lemma_entries_view_index(self.entries@, q);
                                lemma_entries_view_index(old(self).entries@, q);
                            }
                            assert(entries_view(self.entries@) =~= tv.entries);
                            assert(table_view(*self) =~= tv);
                            assert forall|q: int| 0 <= q < self.entries@.len() implies field_wf(
                                #[trigger] self.entries@[q].1,
                            ) by {
                                lemma_entries_view_index(old(self).entries@, q);
                            }
                        }
                    }
                    added
                }
            },
        }
    }

    /// Unregisters `id` from the field addressed by `key`, and folds the
    /// change into the cached listener count of every node along the path.
    /// A path that does not resolve, and an identity not registered there,
    /// change nothing.  Returns whether a registration was removed.
    pub fn remove_listener_at(&mut self, key: &VecDeque<String>, id: usize) -> (removed: bool)
        requires
            table_wf(*old(self)),
        ensures
            table_wf(*final(self)),
            final(self).size == old(self).size,
            table_view(*final(self)) == m_remove_listener(
                table_view(*old(self)),
                path_view(key@),
                id,
            ),
            tbl_listeners(table_view(*final(self))) + (if removed {
                1nat
            } else {
                0nat
            }) == tbl_listeners(table_view(*old(self))),
    {
        if key.len() == 0 {
            false
        } else {
            proof {
                assert(path_view(key@).skip(0) =~= path_view(key@));
            }
            self.remove_listener_rec(key, 0, id)
        }
    }

    /// The recursive step of `remove_listener_at`.
    #[verifier::rlimit(100)]
    fn remove_listener_rec(&mut self, key: &VecDeque<String>, i: usize, id: usize) -> (removed:
        bool)
        requires
            table_wf(*old(self)),
            i < key@.len(),
        ensures
            table_wf(*final(self)),
            final(self).size == old(self).size,
            table_view(*final(self)) == m_remove_listener(
                table_view(*old(self)),
                path_view(key@).skip(i as int),
                id,
            ),
            tbl_listeners(table_view(*final(self))) + (if removed {
                1nat
            } else {
                0nat
            }) == tbl_listeners(table_view(*old(self))),
        decreases key@.len() - i,
    {
        let ghost tv = table_view(*old(self));
        let ghost p = path_view(key@).skip(i as int);
        let ghost target = m_remove_listener(tv, p, id);
        let k = &key[i];
        let klen: usize = key.len();
        assert(p[0] == k@);
        proof {
            lemma_entries_view_len(self.entries@);
        }
        match Self::find(&self.entries, k) {
            None => {
                proof {
                    assert forall|jj: int| 0 <= jj < tv.entries.len() implies tv.entries[jj].0
                        != p[0] by {
                        lemma_entries_view_index(self.entries@, jj);
                    }
                    assert(!m_contains(tv.entries, p[0]));
                    assert(target =~= tv);
                }
                false
            },
            Some(j) => {
                proof {
                    lemma_entries_view_index(self.entries@, j as int);
                    lemma_at_unique(tv.entries, p[0], j as int);
                    lemma_entries_listeners_bound(tv.entries, j as int);
                }
                let ghost fm = tv.entries[j as int].1;
                if klen - i == 1 {
                    let had: bool = self.entries[j].1.has_listener(id);
                    proof {
                        let ghost ne = (p[0], FieldM { data: fm.data, own: own_without(fm.own, id) });
                        assert(target.entries == tv.entries.update(j as int, ne));
                        lemma_entries_listeners_update(tv.entries, j as int, ne);
                        lemma_entries_size_update(tv.entries, j as int, ne);
                        assert(entry_size(ne) == entry_size(tv.entries[j as int]));
                        assert(tbl_size(target) == tbl_size(tv));
                        if had {
                            assert(own_without(fm.own, id).len() + 1 == fm.own.len());
                        } else {
                            assert(own_without(fm.own, id) == fm.own);
                        }
                        assert(tbl_listeners(target) + (if had {
                            1nat
                        } else {
                            0nat
                        }) == tbl_listeners(tv));
                        assert(old(self).child_listener_ct as nat == tbl_listeners(tv));
                        assert(entry_listeners(tv.entries[j as int]) >= fm.own.len());
                    }
                    let e = &mut self.entries[j];
                    e.1.remove_listener(id);
                    if had {
                        self.child_listener_ct = self.child_listener_ct - 1;
                    }
                    proof {
                        lemma_entries_view_len(self.entries@);
                        assert forall|q: int| 0 <= q < tv.entries.len() implies entries_view(
                            self.entries@,
                        )[q] == target.entries[q] by {
                            lemma_entries_view_index(self.entries@, q);
                            lemma_entries_view_index(old(self).entries@, q);
                        }
                        assert(entries_view(self.entries@) =~= target.entries);
                        assert(table_view(*self) =~= target);
                        assert forall|q: int| 0 <= q < self.entries@.len() implies field_wf(
                            #[trigger] self.entries@[q].1,
                        ) by {
                            lemma_entries_view_index(old(self).entries@, q);
                        }
                    }
                    had
                } else {
                    let mut removed: bool = false;
                    let mut descended: bool = false;
                    let ghost mut co = empty_tbl();
                    let ghost mut cn = empty_tbl();
                    proof {
                        assert(p.drop_first() =~= path_view(key@).skip(i as int + 1));
                    }
                    let e = &mut self.entries[j];
                    match &mut e.1.data {
                        Value::Table(t2) => {
                            proof {
                                co = table_view(**t2);
                                cn = m_remove_listener(co, p.drop_first(), id);
                                assert(fm.data == ValM::Tbl(co));
                                assert(table_wf(**t2));
                            }
                            removed = (&mut **t2).remove_listener_rec(key, i + 1, id);
                            proof {
                                assert(table_view(**t2) == cn);
                                assert(e.1.child_listener_ct as nat == tbl_listeners(co));
                                assert(tbl_listeners(cn) + (if removed {
                                    1nat
                                } else {
                                    0nat
                                }) == tbl_listeners(co));
                            }
                            if removed {
                                e.1.child_listener_ct = e.1.child_listener_ct - 1;
                            }
                            descended = true;
                        },
                        _ => {
                        },
                    }
                    if descended {
                        proof {
                            let ghost ne = (p[0], FieldM { data: ValM::Tbl(cn), own: fm.own });
                            assert(target.entries == tv.entries.update(j as int, ne));
                            lemma_entries_listeners_update(tv.entries, j as int, ne);
                            lemma_entries_size_update(tv.entries, j as int, ne);
                            assert(tbl_size(cn) == tbl_size(co));
                            assert(entry_size(ne) == entry_size(tv.entries[j as int]));
                            assert(tbl_size(target) == tbl_size(tv));
                            assert(old(self).child_listener_ct as nat == tbl_listeners(tv));
                            assert(tbl_listeners(target) + (if removed {
                                1nat
                            } else {
                                0nat
                            }) == tbl_listeners(tv));
                        }
                        if removed {
                            self.child_listener_ct = self.child_listener_ct - 1;
                        }
                        proof {
                            lemma_entries_view_len(self.entries@);
                            assert forall|q: int| 0 <= q < tv.entries.len() implies entries_view(
                                self.entries@,
                            )[q] == target.entries[q] by {
                                lemma_entries_view_index(self.entries@, q);
                                lemma_entries_view_index(old(self).entries@, q);
                            }
                            assert(entries_view(self.entries@) =~= target.entries);
                            assert(table_view(*self) =~= target);
                            assert forall|q: int| 0 <= q < self.entries@.len() implies field_wf(
                                #[trigger] self.entries@[q].1,
                            ) by {
                                lemma_entries_view_index(old(self).entries@, q);
                            }
                        }
                    } else {
                        proof {
                            assert(target =~= tv);
                            lemma_entries_view_len(self.entries@);
                            assert forall|q: int| 0 <= q < tv.entries.len() implies entries_view(
                                self.entries@,
                            )[q] == tv.entries[q] by {
                                lemma_entries_view_index(self.entries@, q);
                                lemma_entries_view_index(old(self).entries@, q);
                            }
                            assert(entries_view(self.entries@) =~= tv.entries);
                            assert(table_view(*self) =~= tv);
                            assert forall|q: int| 0 <= q < self.entries@.len() implies field_wf(
                                #[trigger] self.entries@[q].1,
                            ) by {
                                lemma_entries_view_index(old(self).entries@, q);
                            }
                        }
                    }
                    removed
                }
            },
        }
    }

    /// Whether a write along `key` would reach its terminal slot, rather
    /// than be dropped by a scalar standing in the way.
    pub fn write_lands(&self, key: &VecDeque<String>) -> (r: bool)
        requires
            table_wf(*self),
        ensures
            r == m_set_lands(table_view(*self), path_view(key@)),
    {
        if key.len() == 0 {
            false
        } else {
            proof {
                assert(path_view(key@).skip(0) =~= path_view(key@));
            }
            self.lands_at(key, 0)
        }
    }

    /// The recursive step of `write_lands`.
    fn lands_at(&self, key: &VecDeque<String>, i: usize) -> (r: bool)
        requires
            table_wf(*self),
            i < key@.len(),
        ensures
            r == m_set_lands(table_view(*self), path_view(key@).skip(i as int)),
        decreases key@.len() - i,
    {
        let ghost p = path_view(key@).skip(i as int);
        let ghost tv = table_view(*self);
        let k = &key[i];
        let klen: usize = key.len();
        assert(p[0] == k@);
        proof {
            lemma_entries_view_len(self.entries@);
        }
        if klen - i == 1 {
            true
        } else {
            proof {
                assert(p.drop_first() =~= path_view(key@).skip(i as int + 1));
            }
            match Self::find(&self.entries, k) {
                None => {
                    proof {
                        assert forall|jj: int| 0 <= jj < tv.entries.len() implies tv.entries[jj].0
                            != p[0] by {
                            lemma_entries_view_index(self.entries@, jj);
                        }
                        assert(!m_contains(tv.entries, p[0]));
                    }
                    true
                },
                Some(j) => {
                    proof {
                        lemma_entries_view_index(self.entries@, j as int);
                        lemma_at_unique(tv.entries, p[0], j as int);
                    }
                    match &self.entries[j].1.data {
                        Value::Table(t2) => t2.lands_at(key, i + 1),
                        _ => false,
                    }
                },
            }
        }
    }

    /// The identities owed an event when a mutation lands through `key`:
    /// those registered directly on every slot the path traverses, nearest
    /// the root first.
    pub fn path_listener_ids(&self, key: &VecDeque<String>) -> (r: Vec<usize>)
        requires
            table_wf(*self),
        ensures
            r@ == m_path_listeners(table_view(*self), path_view(key@)),
    {
        if key.len() == 0 {
            let r: Vec<usize> = Vec::new();
            proof {
                assert(r@ =~= m_path_listeners(table_view(*self), path_view(key@)));
            }
            r
        } else {
            proof {
                assert(path_view(key@).skip(0) =~= path_view(key@));
            }
            self.ids_at(key, 0)
        }
    }

    /// The recursive step of `path_listener_ids`.
    fn ids_at(&self, key: &VecDeque<String>, i: usize) -> (r: Vec<usize>)
        requires
            table_wf(*self),
            i < key@.len(),
        ensures
            r@ == m_path_listeners(table_view(*self), path_view(key@).skip(i as int)),
        decreases key@.len() - i,
    {
        let ghost p = path_view(key@).skip(i as int);
        let ghost tv = table_view(*self);
        let k = &key[i];
        let klen: usize = key.len();
        assert(p[0] == k@);
        proof {
            lemma_entries_view_len(self.entries@);
        }
        match Self::find(&self.entries, k) {
            None => {
                proof {
                    assert forall|jj: int| 0 <= jj < tv.entries.len() implies tv.entries[jj].0
                        != p[0] by {
                        lemma_entries_view_index(self.entries@, jj);
                    }
                    assert(!m_contains(tv.entries, p[0]));
                }
                let r: Vec<usize> = Vec::new();
                proof {
                    assert(r@ =~= m_path_listeners(tv, p));
                }
                r
            },
            Some(j) => {
                proof {
                    lemma_entries_view_index(self.entries@, j as int);
                    lemma_at_unique(tv.entries, p[0], j as int);
                }
                let ghost fm = tv.entries[j as int].1;
                let mut own: Vec<usize> = self.entries[j].1.own_listeners_vec();
                if klen - i == 1 {
                    proof {
                        assert(own@ =~= m_path_listeners(tv, p));
                    }
                    own
                } else {
                    proof {
                        assert(p.drop_first() =~= path_view(key@).skip(i as int + 1));
                    }
                    match &self.entries[j].1.data {
                        Value::Table(t2) => {
                            let mut rest: Vec<usize> = t2.ids_at(key, i + 1);
                            own.append(&mut rest);
                            proof {
                                assert(own@ =~= m_path_listeners(tv, p));
                            }
                            own
                        },
                        _ => {
                            proof {
                                assert(own@ =~= m_path_listeners(tv, p));
                            }
                            own
                        },
                    }
                }
            },
        }
    }

    /// Replaces the cached listener count.  The cache summarizes the node's
    /// actual listener set, so only that count may be written.
    pub fn set_child_listener_ct(&mut self, n: usize)
        requires
            n as nat == tbl_listeners(table_view(*old(self))),
        ensures
            final(self).entries == old(self).entries,
            final(self).size == old(self).size,
            final(self).child_listener_ct == n,
    {
        self.child_listener_ct = n;
    }
}

impl Clone for Table {
    /// A deep copy, as `duplicate` makes it.
    fn clone(&self) -> (r: Table)
        ensures
            table_view(r) == table_view(*self),
            table_wf(*self) ==> table_wf(r),
    {
        self.duplicate()
    }
}

} // verus!
