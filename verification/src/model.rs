//! The mathematical model of the store.
//!
//! Every executable structure in this crate is reflected into the ghost
//! types below: a table is a sequence of key/field pairs with unique keys, a
//! field pairs a value with the identities listening directly on it.  The
//! executable operations promise, in their contracts, that the reflection of
//! the mutated tree equals the corresponding model-level function applied to
//! the reflection of the old tree; the laws of the store are then proved once,
//! at this level.

use vstd::prelude::*;
use vstd::utf8::encode_utf8;

verus! {

/// Serialized footprint of the entry-count header at the front of a table.
pub const TABLE_HEADER_BYTES: usize = 4;

/// Serialized footprint of one length prefix (for a key or a string value).
pub const LEN_PREFIX_BYTES: usize = 8;

/// Serialized footprint of an integer scalar.
pub const INT_BYTES: usize = 8;

/// Serialized footprint of a boolean scalar.
pub const BOOL_BYTES: usize = 1;

/// Model of one stored value: a scalar, or a nested table.
#[verifier::ext_equal]
pub ghost enum ValM {
    Int(int),
    Bool(bool),
    Str(Seq<char>),
    Tbl(TblM),
}

/// Model of one named slot: the stored value and the identities of the
/// listeners registered directly on the slot, in registration order and
/// without duplicates.
#[verifier::ext_equal]
pub ghost struct FieldM {
    pub data: ValM,
    pub own: Seq<usize>,
}

/// Model of one table node: its entries, in insertion order, with keys
/// unique.
#[verifier::ext_equal]
pub ghost struct TblM {
    pub entries: Seq<(Seq<char>, FieldM)>,
}

/// A path is an ordered sequence of key segments, consumed front to back.
pub type PathM = Seq<Seq<char>>;

/// The empty table model.
pub open spec fn empty_tbl() -> TblM {
    TblM { entries: Seq::empty() }
}

/// No key occurs twice among the entries.
pub open spec fn keys_unique(s: Seq<(Seq<char>, FieldM)>) -> bool {
    forall|i: int, j: int| 0 <= i < j < s.len() ==> s[i].0 != s[j].0
}

/// No listener identity occurs twice.
pub open spec fn no_dups(s: Seq<usize>) -> bool {
    forall|i: int, j: int| 0 <= i < j < s.len() ==> s[i] != s[j]
}

/// Some entry carries the key `k`.
pub open spec fn m_contains(s: Seq<(Seq<char>, FieldM)>, k: Seq<char>) -> bool {
    exists|i: int| 0 <= i < s.len() && s[i].0 == k
}

/// The index of the entry carrying the key `k`; meaningful only when
/// `m_contains(s, k)` holds, and unique when the keys are unique.
pub open spec fn m_at(s: Seq<(Seq<char>, FieldM)>, k: Seq<char>) -> int {
    choose|i: int| 0 <= i < s.len() && s[i].0 == k
}

/// Serialized footprint of a value.  A nested table contributes its whole
/// table footprint.
pub open spec fn val_size(v: ValM) -> nat
    decreases v,
{
    match v {
        ValM::Int(_) => INT_BYTES as nat,
        ValM::Bool(_) => BOOL_BYTES as nat,
        ValM::Str(s) => LEN_PREFIX_BYTES as nat + encode_utf8(s).len(),
        ValM::Tbl(t) => tbl_size(t),
    }
}

/// Serialized footprint of one entry: the key's length prefix, the key's
/// bytes, and the value's footprint.
pub open spec fn entry_size(e: (Seq<char>, FieldM)) -> nat
    decreases e,
{
    LEN_PREFIX_BYTES as nat + encode_utf8(e.0).len() + val_size(e.1.data)
}

/// Serialized footprint of a sequence of entries.
pub open spec fn entries_size(s: Seq<(Seq<char>, FieldM)>) -> nat
    decreases s,
{
    if s.len() == 0 {
        0
    } else {
        entries_size(s.drop_last()) + entry_size(s.last())
    }
}

/// Serialized footprint of a table: the entry-count header plus its entries.
pub open spec fn tbl_size(t: TblM) -> nat
    decreases t,
{
    TABLE_HEADER_BYTES as nat + entries_size(t.entries)
}

/// Number of listeners registered anywhere inside a value (zero for a
/// scalar).
pub open spec fn val_listeners(v: ValM) -> nat
    decreases v,
{
    match v {
        ValM::Tbl(t) => tbl_listeners(t),
        _ => 0,
    }
}

/// Listeners carried by one entry: those directly on its field plus those
/// anywhere inside its value.
pub open spec fn entry_listeners(e: (Seq<char>, FieldM)) -> nat
    decreases e,
{
    e.1.own.len() + val_listeners(e.1.data)
}

/// Listeners carried by a sequence of entries.
pub open spec fn entries_listeners(s: Seq<(Seq<char>, FieldM)>) -> nat
    decreases s,
{
    if s.len() == 0 {
        0
    } else {
        entries_listeners(s.drop_last()) + entry_listeners(s.last())
    }
}

/// Number of listeners registered anywhere at or below a table's entries.
pub open spec fn tbl_listeners(t: TblM) -> nat
    decreases t,
{
    entries_listeners(t.entries)
}

/// A value carries no listeners anywhere inside it.
pub open spec fn val_listener_free(v: ValM) -> bool {
    val_listeners(v) == 0
}

/// Reflection of an executable path into the model: each segment as its
/// character sequence.
pub open spec fn path_view(s: Seq<String>) -> PathM {
    Seq::new(s.len(), |i: int| s[i]@)
}

/// Reflection of an optional borrowed value into the model.
pub open spec fn opt_value_view(r: Option<&crate::value::Value>) -> Option<ValM> {
    match r {
        Some(v) => Some(value_view(*v)),
        None => None,
    }
}

/// Path resolution.  Segments are consumed front to back; when the path is
/// fully consumed the value in the addressed slot is the result.  An absent
/// key, descent through a scalar, and the empty path all resolve to `None`.
pub open spec fn m_get(t: TblM, path: PathM) -> Option<ValM>
    decreases path.len(),
{
    if path.len() == 0 {
        None
    } else if !m_contains(t.entries, path[0]) {
        None
    } else {
        let f = t.entries[m_at(t.entries, path[0])].1;
        if path.len() == 1 {
            Some(f.data)
        } else {
            match f.data {
                ValM::Tbl(t2) => m_get(t2, path.drop_first()),
                _ => None,
            }
        }
    }
}

/// Whether a write along `path` reaches its terminal slot.  It fails to land
/// only when some traversed segment holds a scalar; absent intermediate nodes
/// are created, so they do not block the write.
pub open spec fn m_set_lands(t: TblM, path: PathM) -> bool
    decreases path.len(),
{
    if path.len() == 0 {
        false
    } else if path.len() == 1 {
        true
    } else if !m_contains(t.entries, path[0]) {
        true
    } else {
        match t.entries[m_at(t.entries, path[0])].1.data {
            ValM::Tbl(t2) => m_set_lands(t2, path.drop_first()),
            _ => false,
        }
    }
}

/// The write.  Intermediate tables are created lazily; a traversed scalar
/// drops the write; overwriting a slot keeps the slot's own listeners but
/// replaces its value outright; slots created by the write carry no
/// listeners.
pub open spec fn m_set(t: TblM, path: PathM, v: ValM) -> TblM
    decreases path.len(),
{
    if path.len() == 0 {
        t
    } else {
        let k = path[0];
        if m_contains(t.entries, k) {
            let i = m_at(t.entries, k);
            let f = t.entries[i].1;
            if path.len() == 1 {
                TblM { entries: t.entries.update(i, (k, FieldM { data: v, own: f.own })) }
            } else {
                match f.data {
                    ValM::Tbl(t2) => TblM {
                        entries: t.entries.update(
                            i,
                            (k, FieldM { data: ValM::Tbl(m_set(t2, path.drop_first(), v)), own: f.own }),
                        ),
                    },
                    _ => t,
                }
            }
        } else {
            if path.len() == 1 {
                TblM { entries: t.entries.push((k, FieldM { data: v, own: Seq::empty() })) }
            } else {
                TblM {
                    entries: t.entries.push(
                        (
                            k,
                            FieldM {
                                data: ValM::Tbl(m_set(empty_tbl(), path.drop_first(), v)),
                                own: Seq::empty(),
                            },
                        ),
                    ),
                }
            }
        }
    }
}

/// Registration of a listener on the field addressed by `path`: appended to
/// that field's own listeners unless already present.  A path that does not
/// resolve to an existing field leaves the tree unchanged.
pub open spec fn m_add_listener(t: TblM, path: PathM, id: usize) -> TblM
    decreases path.len(),
{
    if path.len() == 0 || !m_contains(t.entries, path[0]) {
        t
    } else {
        let k = path[0];
        let i = m_at(t.entries, k);
        let f = t.entries[i].1;
        if path.len() == 1 {
            let own2 = if f.own.contains(id) {
                f.own
            } else {
                f.own.push(id)
            };
            TblM { entries: t.entries.update(i, (k, FieldM { data: f.data, own: own2 })) }
        } else {
            match f.data {
                ValM::Tbl(t2) => TblM {
                    entries: t.entries.update(
                        i,
                        (k, FieldM { data: ValM::Tbl(m_add_listener(t2, path.drop_first(), id)), own: f.own }),
                    ),
                },
                _ => t,
            }
        }
    }
}

/// A listener list without `id`: the occurrence of `id` is taken out, and a
/// list not carrying `id` is left as it is.  Meaningful on duplicate-free
/// lists, where the occurrence is unique.
pub open spec fn own_without(s: Seq<usize>, id: usize) -> Seq<usize> {
    if s.contains(id) {
        s.remove(choose|i: int| 0 <= i < s.len() && s[i] == id)
    } else {
        s
    }
}

/// Removal of a listener from the field addressed by `path`; removing an
/// identity that is not registered there leaves the tree unchanged.
pub open spec fn m_remove_listener(t: TblM, path: PathM, id: usize) -> TblM
    decreases path.len(),
{
    if path.len() == 0 || !m_contains(t.entries, path[0]) {
        t
    } else {
        let k = path[0];
        let i = m_at(t.entries, k);
        let f = t.entries[i].1;
        if path.len() == 1 {
            TblM {
                entries: t.entries.update(i, (k, FieldM { data: f.data, own: own_without(f.own, id) })),
            }
        } else {
            match f.data {
                ValM::Tbl(t2) => TblM {
                    entries: t.entries.update(
                        i,
                        (
                            k,
                            FieldM {
                                data: ValM::Tbl(m_remove_listener(t2, path.drop_first(), id)),
                                own: f.own,
                            },
                        ),
                    ),
                },
                _ => t,
            }
        }
    }
}

/// The listeners owed an event when a mutation lands through `path`: those
/// directly on every field the path traverses, nearest the root first.
pub open spec fn m_path_listeners(t: TblM, path: PathM) -> Seq<usize>
    decreases path.len(),
{
    if path.len() == 0 || !m_contains(t.entries, path[0]) {
        Seq::empty()
    } else {
        let f = t.entries[m_at(t.entries, path[0])].1;
        if path.len() == 1 {
            f.own
        } else {
            match f.data {
                ValM::Tbl(t2) => f.own + m_path_listeners(t2, path.drop_first()),
                _ => f.own,
            }
        }
    }
}

/// Reflection of an executable value into the model.
pub open spec fn value_view(v: crate::value::Value) -> ValM
    decreases v,
{
    match v {
        crate::value::Value::Int(i) => ValM::Int(i as int),
        crate::value::Value::Bool(b) => ValM::Bool(b),
        crate::value::Value::Str(s) => ValM::Str(s@),
        crate::value::Value::Table(t) => ValM::Tbl(table_view(*t)),
    }
}

/// Reflection of an executable field into the model.
pub open spec fn field_view(f: crate::field::Field) -> FieldM
    decreases f,
{
    FieldM { data: value_view(f.data), own: f.own_listeners@ }
}

/// Reflection of a sequence of executable entries into the model, keeping
/// their order.
pub open spec fn entries_view(s: Seq<(String, crate::field::Field)>) -> Seq<(Seq<char>, FieldM)>
    decreases s,
{
    if s.len() == 0 {
        Seq::empty()
    } else {
        entries_view(s.drop_last()).push((s.last().0@, field_view(s.last().1)))
    }
}

/// Reflection of an executable table into the model.
pub open spec fn table_view(t: crate::table::Table) -> TblM
    decreases t,
{
    TblM { entries: entries_view(t.entries@) }
}

/// The reflection of a sequence of entries has the sequence's length.
pub broadcast proof fn lemma_entries_view_len(s: Seq<(String, crate::field::Field)>)
    ensures
        (#[trigger] entries_view(s)).len() == s.len(),
    decreases s.len(),
{
    if s.len() > 0 {
        lemma_entries_view_len(s.drop_last());
    }
}

/// The reflection of a sequence of entries is pointwise: entry `i` reflects
/// entry `i`.
pub broadcast proof fn lemma_entries_view_index(s: Seq<(String, crate::field::Field)>, i: int)
    requires
        0 <= i < s.len(),
    ensures
        #[trigger] entries_view(s)[i] == (s[i].0@, field_view(s[i].1)),
    decreases s.len(),
{
    lemma_entries_view_len(s);
    if i < s.len() - 1 {
        lemma_entries_view_index(s.drop_last(), i);
        lemma_entries_view_len(s.drop_last());
    }
}

/// Well-formedness of an executable value: every nested table is
/// well-formed.
pub open spec fn value_wf(v: crate::value::Value) -> bool
    decreases v,
{
    match v {
        crate::value::Value::Table(t) => table_wf(*t),
        _ => true,
    }
}

/// Well-formedness of an executable field: its listener list is
/// duplicate-free, its cached descendant-listener count equals the number of
/// listeners actually inside its value, and its value is well-formed.
pub open spec fn field_wf(f: crate::field::Field) -> bool
    decreases f,
{
    &&& no_dups(f.own_listeners@)
    &&& f.child_listener_ct as nat == val_listeners(value_view(f.data))
    &&& value_wf(f.data)
}

/// Well-formedness of an executable table: keys unique, the maintained byte
/// total and listener count both exact, and every entry well-formed.
pub open spec fn table_wf(t: crate::table::Table) -> bool
    decreases t,
{
    &&& keys_unique(table_view(t).entries)
    &&& t.size as nat == tbl_size(table_view(t))
    &&& t.child_listener_ct as nat == tbl_listeners(table_view(t))
    &&& forall|i: int| 0 <= i < t.entries@.len() ==> field_wf(#[trigger] t.entries@[i].1)
}

/// With unique keys, the entry found for a key is the only entry carrying
/// it.
pub proof fn lemma_at_unique(s: Seq<(Seq<char>, FieldM)>, k: Seq<char>, i: int)
    requires
        keys_unique(s),
        0 <= i < s.len(),
        s[i].0 == k,
    ensures
        m_contains(s, k),
        m_at(s, k) == i,
{
    assert(m_contains(s, k));
    let i0 = m_at(s, k);
    assert(0 <= i0 < s.len() && s[i0].0 == k);
    if i0 < i {
        assert(s[i0].0 != s[i].0);
    }
    if i0 > i {
        assert(s[i].0 != s[i0].0);
    }
}

/// Appending an entry adds its footprint.
pub proof fn lemma_entries_size_push(s: Seq<(Seq<char>, FieldM)>, e: (Seq<char>, FieldM))
    ensures
        entries_size(s.push(e)) == entries_size(s) + entry_size(e),
{
    assert(s.push(e).drop_last() =~= s);
    assert(s.push(e).last() == e);
}

/// Replacing an entry exchanges the footprints of the entries exchanged.
pub proof fn lemma_entries_size_update(s: Seq<(Seq<char>, FieldM)>, i: int, e: (Seq<char>, FieldM))
    requires
        0 <= i < s.len(),
    ensures
        entries_size(s.update(i, e)) + entry_size(s[i]) == entries_size(s) + entry_size(e),
    decreases s.len(),
{
    if i == s.len() - 1 {
        assert(s.update(i, e).drop_last() =~= s.drop_last());
        assert(s.update(i, e).last() == e);
    } else {
        assert(s.update(i, e).drop_last() =~= s.drop_last().update(i, e));
        assert(s.update(i, e).last() == s.last());
        lemma_entries_size_update(s.drop_last(), i, e);
    }
}

/// Each entry's footprint is no more than that of all entries.
pub proof fn lemma_entries_size_bound(s: Seq<(Seq<char>, FieldM)>, i: int)
    requires
        0 <= i < s.len(),
    ensures
        entries_size(s) >= entry_size(s[i]),
    decreases s.len(),
{
    if i < s.len() - 1 {
        lemma_entries_size_bound(s.drop_last(), i);
    }
}

/// Appending an entry adds its listeners.
pub proof fn lemma_entries_listeners_push(s: Seq<(Seq<char>, FieldM)>, e: (Seq<char>, FieldM))
    ensures
        entries_listeners(s.push(e)) == entries_listeners(s) + entry_listeners(e),
{
    assert(s.push(e).drop_last() =~= s);
    assert(s.push(e).last() == e);
}

/// Replacing an entry exchanges the listeners of the entries exchanged.
pub proof fn lemma_entries_listeners_update(
    s: Seq<(Seq<char>, FieldM)>,
    i: int,
    e: (Seq<char>, FieldM),
)
    requires
        0 <= i < s.len(),
    ensures
        entries_listeners(s.update(i, e)) + entry_listeners(s[i]) == entries_listeners(s)
            + entry_listeners(e),
    decreases s.len(),
{
    if i == s.len() - 1 {
        assert(s.update(i, e).drop_last() =~= s.drop_last());
        assert(s.update(i, e).last() == e);
    } else {
        assert(s.update(i, e).drop_last() =~= s.drop_last().update(i, e));
        assert(s.update(i, e).last() == s.last());
        lemma_entries_listeners_update(s.drop_last(), i, e);
    }
}

/// Each entry's listeners are no more than those of all entries.
pub proof fn lemma_entries_listeners_bound(s: Seq<(Seq<char>, FieldM)>, i: int)
    requires
        0 <= i < s.len(),
    ensures
        entries_listeners(s) >= entry_listeners(s[i]),
    decreases s.len(),
{
    if i < s.len() - 1 {
        lemma_entries_listeners_bound(s.drop_last(), i);
    }
}

/// A prefix of the entries carries no more listeners than all of them.
pub proof fn lemma_entries_listeners_prefix(s: Seq<(Seq<char>, FieldM)>, n: int)
    requires
        0 <= n <= s.len(),
    ensures
        entries_listeners(s.subrange(0, n)) <= entries_listeners(s),
    decreases s.len() - n,
{
    if n == s.len() {
        assert(s.subrange(0, n) =~= s);
    } else {
        assert(s.subrange(0, n + 1).drop_last() =~= s.subrange(0, n));
        lemma_entries_listeners_prefix(s, n + 1);
    }
}

/// Model-level well-formedness: keys unique and listener lists duplicate-free,
/// at every level.
pub open spec fn val_m_wf(v: ValM) -> bool
    decreases v,
{
    match v {
        ValM::Tbl(t) => tbl_m_wf(t),
        _ => true,
    }
}

/// Well-formedness of one model field.
pub open spec fn field_m_wf(f: FieldM) -> bool
    decreases f,
{
    no_dups(f.own) && val_m_wf(f.data)
}

/// Well-formedness of one model table.
pub open spec fn tbl_m_wf(t: TblM) -> bool
    decreases t,
{
    keys_unique(t.entries) && forall|i: int|
        0 <= i < t.entries.len() ==> field_m_wf(#[trigger] t.entries[i].1)
}

} // verus!
