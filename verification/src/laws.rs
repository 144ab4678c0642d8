//! The laws of the store, proved once over the model.
//!
//! The executable operations promise, in their contracts, that the mutated
//! tree reflects to the corresponding model function of the old tree; the
//! proofs here therefore carry over to every executable tree.

use vstd::prelude::*;
use vstd::utf8::encode_utf8;
use crate::field::Field;
use crate::model::{
    field_m_wf, field_view, field_wf, keys_unique, lemma_at_unique, lemma_entries_size_push,
    lemma_entries_size_update, lemma_entries_view_index, lemma_entries_view_len, m_add_listener,
    m_at, m_contains, m_get, m_remove_listener, m_set, m_set_lands, table_view, table_wf,
    tbl_listeners, tbl_m_wf, tbl_size, val_m_wf, val_size, value_view, value_wf, FieldM, PathM,
    TblM, ValM, LEN_PREFIX_BYTES,
};
use crate::table::Table;
use crate::value::Value;

verus! {

/// One path is an initial run of another.
pub open spec fn is_prefix_of(a: PathM, b: PathM) -> bool {
    a.len() <= b.len() && a == b.subrange(0, a.len() as int)
}

/// Whether `id` is registered directly on the field that `path` addresses.
pub open spec fn m_listener_present(t: TblM, path: PathM, id: usize) -> bool
    decreases path.len(),
{
    if path.len() == 0 || !m_contains(t.entries, path[0]) {
        false
    } else {
        let f = t.entries[m_at(t.entries, path[0])].1;
        if path.len() == 1 {
            f.own.contains(id)
        } else {
            match f.data {
                ValM::Tbl(t2) => m_listener_present(t2, path.drop_first(), id),
                _ => false,
            }
        }
    }
}

/// A well-formed executable value reflects to a well-formed model value.
pub proof fn lemma_value_wf_model(v: Value)
    requires
        value_wf(v),
    ensures
        val_m_wf(value_view(v)),
    decreases v,
{
    match v {
        Value::Table(t) => {
            lemma_table_wf_model(*t);
        },
        _ => {},
    }
}

/// A well-formed executable field reflects to a well-formed model field.
pub proof fn lemma_field_wf_model(f: Field)
    requires
        field_wf(f),
    ensures
        field_m_wf(field_view(f)),
    decreases f,
{
    lemma_value_wf_model(f.data);
}

/// A well-formed executable table reflects to a well-formed model table:
/// unique keys and duplicate-free listener lists at every level.
pub proof fn lemma_table_wf_model(t: Table)
    requires
        table_wf(t),
    ensures
        tbl_m_wf(table_view(t)),
    decreases t,
{
    lemma_entries_view_len(t.entries@);
    assert forall|i: int| 0 <= i < table_view(t).entries.len() implies field_m_wf(
        #[trigger] table_view(t).entries[i].1,
    ) by {
        lemma_entries_view_index(t.entries@, i);
        lemma_field_wf_model(t.entries@[i].1);
    }
}

/// A path whose head matches and whose tail is a prefix of the other's
/// tail is a prefix whole.
proof fn lemma_tail_prefix(p: PathM, q: PathM)
    requires
        p.len() > 0,
        q.len() > 0,
        p[0] == q[0],
        is_prefix_of(p.drop_first(), q.drop_first()),
    ensures
        is_prefix_of(p, q),
{
    let pp = p.drop_first();
    let qq = q.drop_first();
    assert(pp == qq.subrange(0, pp.len() as int));
    assert forall|ii: int| 0 <= ii < p.len() implies p[ii] == q.subrange(0, p.len() as int)[ii] by {
        if ii > 0 {
            assert(pp[ii - 1] == qq.subrange(0, pp.len() as int)[ii - 1]);
        }
    }
    assert(p =~= q.subrange(0, p.len() as int));
}

/// Replacing one entry with an entry of the same key keeps the keys unique
/// and keeps that key's position.
proof fn lemma_update_same_key(s: Seq<(Seq<char>, FieldM)>, i: int, e: (Seq<char>, FieldM))
    requires
        keys_unique(s),
        0 <= i < s.len(),
        e.0 == s[i].0,
    ensures
        keys_unique(s.update(i, e)),
        m_contains(s.update(i, e), e.0),
        m_at(s.update(i, e), e.0) == i,
        forall|k2: Seq<char>|
            k2 != e.0 ==> #[trigger] m_contains(s.update(i, e), k2) == m_contains(s, k2),
        forall|k2: Seq<char>|
            k2 != e.0 && m_contains(s, k2) ==> #[trigger] m_at(s.update(i, e), k2) == m_at(s, k2),
{
    let s2 = s.update(i, e);
    assert(forall|q: int| 0 <= q < s.len() ==> s2[q].0 == s[q].0);
    lemma_at_unique(s2, e.0, i);
    assert forall|k2: Seq<char>| k2 != e.0 implies #[trigger] m_contains(s2, k2) == m_contains(
        s,
        k2,
    ) by {
        if m_contains(s, k2) {
            let w = m_at(s, k2);
            assert(s2[w].0 == k2);
        }
        if m_contains(s2, k2) {
            let w = choose|q: int| 0 <= q < s2.len() && s2[q].0 == k2;
            assert(s[w].0 == k2);
        }
    }
    assert forall|k2: Seq<char>| k2 != e.0 && m_contains(s, k2) implies #[trigger] m_at(s2, k2)
        == m_at(s, k2) by {
        let w = m_at(s, k2);
        assert(s2[w].0 == k2);
        lemma_at_unique(s2, k2, w);
    }
}

/// Appending an entry with a fresh key keeps the keys unique, puts the key
/// at the end, and moves no other key.
proof fn lemma_push_fresh_key(s: Seq<(Seq<char>, FieldM)>, e: (Seq<char>, FieldM))
    requires
        keys_unique(s),
        !m_contains(s, e.0),
    ensures
        keys_unique(s.push(e)),
        m_contains(s.push(e), e.0),
        m_at(s.push(e), e.0) == s.len(),
        forall|k2: Seq<char>|
            k2 != e.0 ==> #[trigger] m_contains(s.push(e), k2) == m_contains(s, k2),
        forall|k2: Seq<char>|
            k2 != e.0 && m_contains(s, k2) ==> #[trigger] m_at(s.push(e), k2) == m_at(s, k2),
{
    let s2 = s.push(e);
    assert(forall|q: int| 0 <= q < s.len() ==> s2[q].0 == s[q].0);
    assert(forall|q: int| 0 <= q < s.len() ==> s[q].0 != e.0);
    lemma_at_unique(s2, e.0, s.len() as int);
    assert forall|k2: Seq<char>| k2 != e.0 implies #[trigger] m_contains(s2, k2) == m_contains(
        s,
        k2,
    ) by {
        if m_contains(s, k2) {
            let w = m_at(s, k2);
            assert(s2[w].0 == k2);
        }
        if m_contains(s2, k2) {
            let w = choose|q: int| 0 <= q < s2.len() && s2[q].0 == k2;
            assert(w < s.len());
            assert(s[w].0 == k2);
        }
    }
    assert forall|k2: Seq<char>| k2 != e.0 && m_contains(s, k2) implies #[trigger] m_at(s2, k2)
        == m_at(s, k2) by {
        let w = m_at(s, k2);
        assert(s2[w].0 == k2);
        lemma_at_unique(s2, k2, w);
    }
}

/// Round trip: on any well-formed tree, writing a value at a path the write
/// can reach and reading that path back yields exactly the written value.
pub proof fn law_round_trip(t: TblM, p: PathM, v: ValM)
    requires
        tbl_m_wf(t),
        p.len() > 0,
        m_set_lands(t, p),
    ensures
        m_get(m_set(t, p, v), p) == Some(v),
    decreases p.len(),
{
    let k = p[0];
    if m_contains(t.entries, k) {
        let i = m_at(t.entries, k);
        let f = t.entries[i].1;
        if p.len() == 1 {
            let e = (k, FieldM { data: v, own: f.own });
            lemma_update_same_key(t.entries, i, e);
        } else {
            match f.data {
                ValM::Tbl(t2) => {
                    let e = (k, FieldM { data: ValM::Tbl(m_set(t2, p.drop_first(), v)), own: f.own });
                    lemma_update_same_key(t.entries, i, e);
                    assert(field_m_wf(f));
                    law_round_trip(t2, p.drop_first(), v);
                },
                _ => {
                    assert(false);
                },
            }
        }
    } else {
        if p.len() == 1 {
            let e = (k, FieldM { data: v, own: Seq::empty() });
            lemma_push_fresh_key(t.entries, e);
        } else {
            let e = (
                k,
                FieldM {
                    data: ValM::Tbl(m_set(crate::model::empty_tbl(), p.drop_first(), v)),
                    own: Seq::empty(),
                },
            );
            lemma_push_fresh_key(t.entries, e);
            law_round_trip(crate::model::empty_tbl(), p.drop_first(), v);
        }
    }
}

/// Reading any path of a tree freshly built by one write along `p` yields
/// nothing off that write's path.
proof fn lemma_fresh_chain_off_path(p: PathM, v: ValM, q: PathM)
    requires
        p.len() > 0,
        q.len() > 0,
        !is_prefix_of(p, q),
        !is_prefix_of(q, p),
    ensures
        m_get(m_set(crate::model::empty_tbl(), p, v), q) == None::<ValM>,
    decreases p.len(),
{
    let t0 = crate::model::empty_tbl();
    let chain = m_set(t0, p, v);
    if q[0] != p[0] {
        assert forall|w: int| 0 <= w < chain.entries.len() implies chain.entries[w].0 != q[0] by {}
        assert(!m_contains(chain.entries, q[0]));
    } else {
        assert(p.len() > 1 || q.len() > 1);
        if p.len() == 1 {
            assert(is_prefix_of(p, q)) by {
                assert(p =~= q.subrange(0, 1));
            }
            assert(false);
        }
        if q.len() == 1 {
            assert(is_prefix_of(q, p)) by {
                assert(q =~= p.subrange(0, 1));
            }
            assert(false);
        }
        let e = (
            p[0],
            FieldM { data: ValM::Tbl(m_set(t0, p.drop_first(), v)), own: Seq::empty() },
        );
        assert(chain.entries == t0.entries.push(e));
        lemma_push_fresh_key(t0.entries, e);
        assert(!is_prefix_of(p.drop_first(), q.drop_first())) by {
            if is_prefix_of(p.drop_first(), q.drop_first()) {
                lemma_tail_prefix(p, q);
            }
        }
        assert(!is_prefix_of(q.drop_first(), p.drop_first())) by {
            if is_prefix_of(q.drop_first(), p.drop_first()) {
                lemma_tail_prefix(q, p);
            }
        }
        lemma_fresh_chain_off_path(p.drop_first(), v, q.drop_first());
    }
}

/// Isolation: a write at path `p` does not alter the value observable at
/// any path `q` that is neither a prefix nor an extension of `p`.
pub proof fn law_write_isolation(t: TblM, p: PathM, v: ValM, q: PathM)
    requires
        tbl_m_wf(t),
        p.len() > 0,
        q.len() > 0,
        !is_prefix_of(p, q),
        !is_prefix_of(q, p),
    ensures
        m_get(m_set(t, p, v), q) == m_get(t, q),
    decreases p.len(),
{
    let k = p[0];
    let t2 = m_set(t, p, v);
    if m_contains(t.entries, k) {
        let i = m_at(t.entries, k);
        let f = t.entries[i].1;
        if p.len() == 1 {
            let e = (k, FieldM { data: v, own: f.own });
            lemma_update_same_key(t.entries, i, e);
            assert(q[0] != k) by {
                if q[0] == k {
                    assert(is_prefix_of(p, q)) by {
                        assert(p =~= q.subrange(0, 1));
                    }
                }
            }
        } else {
            match f.data {
                ValM::Tbl(tc) => {
                    let e = (k, FieldM { data: ValM::Tbl(m_set(tc, p.drop_first(), v)), own: f.own });
                    lemma_update_same_key(t.entries, i, e);
                    if q[0] == k {
                        assert(q.len() > 1) by {
                            if q.len() == 1 {
                                assert(is_prefix_of(q, p)) by {
                                    assert(q =~= p.subrange(0, 1));
                                }
                            }
                        }
                        assert(!is_prefix_of(p.drop_first(), q.drop_first())) by {
                            if is_prefix_of(p.drop_first(), q.drop_first()) {
                                lemma_tail_prefix(p, q);
                            }
                        }
                        assert(!is_prefix_of(q.drop_first(), p.drop_first())) by {
                            if is_prefix_of(q.drop_first(), p.drop_first()) {
                                lemma_tail_prefix(q, p);
                            }
                        }
                        assert(field_m_wf(f));
                        law_write_isolation(tc, p.drop_first(), v, q.drop_first());
                    }
                },
                _ => {},
            }
        }
    } else {
        let pushed = if p.len() == 1 {
            (k, FieldM { data: v, own: Seq::empty() })
        } else {
            (
                k,
                FieldM {
                    data: ValM::Tbl(m_set(crate::model::empty_tbl(), p.drop_first(), v)),
                    own: Seq::empty(),
                },
            )
        };
        assert(t2.entries == t.entries.push(pushed));
        lemma_push_fresh_key(t.entries, pushed);
        if q[0] == k {
            assert(!m_contains(t.entries, q[0]));
            assert(m_get(t, q) == None::<ValM>);
            if p.len() == 1 {
                assert(is_prefix_of(p, q)) by {
                    assert(p =~= q.subrange(0, 1));
                }
                assert(false);
            }
            assert(q.len() > 1) by {
                if q.len() == 1 {
                    assert(is_prefix_of(q, p)) by {
                        assert(q =~= p.subrange(0, 1));
                    }
                }
            }
            assert(!is_prefix_of(p.drop_first(), q.drop_first())) by {
                if is_prefix_of(p.drop_first(), q.drop_first()) {
                    lemma_tail_prefix(p, q);
                }
            }
            assert(!is_prefix_of(q.drop_first(), p.drop_first())) by {
                if is_prefix_of(q.drop_first(), p.drop_first()) {
                    lemma_tail_prefix(q, p);
                }
            }
            lemma_fresh_chain_off_path(p.drop_first(), v, q.drop_first());
        }
    }
}

/// Absence: reading past the deepest existing node, or onward through a
/// value that is not a container, yields absence — never a failure.
pub proof fn law_absence_extension(t: TblM, q: PathM, r: PathM)
    requires
        q.len() > 0,
        r.len() > 0,
        m_get(t, q) is None || !(m_get(t, q)->Some_0 is Tbl),
    ensures
        m_get(t, q + r) == None::<ValM>,
    decreases q.len(),
{
    let qr = q + r;
    assert(qr.len() == q.len() + r.len());
    assert(qr[0] == q[0]);
    if !m_contains(t.entries, q[0]) {
        assert(m_get(t, qr) == None::<ValM>);
    } else {
        let f = t.entries[m_at(t.entries, q[0])].1;
        if q.len() == 1 {
            assert(m_get(t, q) == Some(f.data));
            assert(!(f.data is Tbl));
            assert(qr.len() > 1);
            assert(m_get(t, qr) == None::<ValM>);
        } else {
            match f.data {
                ValM::Tbl(tc) => {
                    assert(qr.drop_first() =~= q.drop_first() + r);
                    law_absence_extension(tc, q.drop_first(), r);
                },
                _ => {
                    assert(m_get(t, qr) == None::<ValM>);
                },
            }
        }
    }
}

/// Write-through-scalar drop: when a strict prefix of the written path
/// holds a value that is not a container, the write does not land and the
/// tree is left exactly as it was.
pub proof fn law_scalar_clash_drops_write(t: TblM, p: PathM, v: ValM, q: PathM)
    requires
        tbl_m_wf(t),
        q.len() > 0,
        is_prefix_of(q, p),
        q.len() < p.len(),
        m_get(t, q) is Some,
        !(m_get(t, q)->Some_0 is Tbl),
    ensures
        !m_set_lands(t, p),
        m_set(t, p, v) == t,
    decreases p.len(),
{
    assert(p.len() > 1);
    assert(p[0] == q[0]);
    assert(m_contains(t.entries, q[0])) by {
        if !m_contains(t.entries, q[0]) {
            assert(m_get(t, q) is None);
        }
    }
    let i = m_at(t.entries, p[0]);
    let f = t.entries[i].1;
    if q.len() == 1 {
        assert(m_get(t, q) == Some(f.data));
        assert(!(f.data is Tbl));
        assert(m_set(t, p, v) == t);
    } else {
        match f.data {
            ValM::Tbl(tc) => {
                assert(is_prefix_of(q.drop_first(), p.drop_first())) by {
                    assert(q.drop_first() =~= p.drop_first().subrange(0, q.len() - 1));
                }
                assert(field_m_wf(f));
                law_scalar_clash_drops_write(tc, p.drop_first(), v, q.drop_first());
                let e = (p[0], FieldM { data: ValM::Tbl(m_set(tc, p.drop_first(), v)), own: f.own });
                assert(e.1 =~= f);
                assert(t.entries.update(i, e) =~= t.entries);
                assert(m_set(t, p, v) =~= t);
            },
            _ => {
                assert(m_get(t, q) == None::<ValM>);
                assert(false);
            },
        }
    }
}

/// Size monotonicity on fresh keys: giving a node a value under a key it
/// does not yet hold grows that node's footprint by exactly the key's
/// length prefix, the key's bytes, and the value's footprint.
pub proof fn law_size_fresh_key(t: TblM, k: Seq<char>, v: ValM)
    requires
        !m_contains(t.entries, k),
    ensures
        tbl_size(m_set(t, seq![k], v)) == tbl_size(t) + LEN_PREFIX_BYTES as nat + encode_utf8(
            k,
        ).len() + val_size(v),
{
    let p: PathM = seq![k];
    assert(p.len() == 1 && p[0] == k);
    let e = (k, FieldM { data: v, own: Seq::<usize>::empty() });
    assert(m_set(t, p, v).entries == t.entries.push(e));
    lemma_entries_size_push(t.entries, e);
}

/// Overwrite accounting: overwriting the value under an existing key
/// exchanges exactly the superseded value's footprint for the new one, so
/// the footprint never double-counts.
pub proof fn law_size_overwrite(t: TblM, k: Seq<char>, v: ValM)
    requires
        keys_unique(t.entries),
        m_contains(t.entries, k),
    ensures
        tbl_size(m_set(t, seq![k], v)) + val_size(t.entries[m_at(t.entries, k)].1.data)
            == tbl_size(t) + val_size(v),
{
    let p: PathM = seq![k];
    assert(p.len() == 1 && p[0] == k);
    let i = m_at(t.entries, k);
    let f = t.entries[i].1;
    let e = (k, FieldM { data: v, own: f.own });
    assert(m_set(t, p, v).entries == t.entries.update(i, e));
    lemma_entries_size_update(t.entries, i, e);
}

/// Idempotent registration: registering the same identity on the same path
/// twice leaves exactly the tree that one registration leaves.
pub proof fn law_add_listener_idempotent(t: TblM, p: PathM, id: usize)
    requires
        tbl_m_wf(t),
    ensures
        m_add_listener(m_add_listener(t, p, id), p, id) == m_add_listener(t, p, id),
    decreases p.len(),
{
    if p.len() == 0 || !m_contains(t.entries, p[0]) {
        assert(m_add_listener(t, p, id) == t);
    } else {
        let k = p[0];
        let i = m_at(t.entries, k);
        let f = t.entries[i].1;
        let t1 = m_add_listener(t, p, id);
        if p.len() == 1 {
            let own2 = if f.own.contains(id) {
                f.own
            } else {
                f.own.push(id)
            };
            let e = (k, FieldM { data: f.data, own: own2 });
            lemma_update_same_key(t.entries, i, e);
            assert(own2.contains(id)) by {
                if !f.own.contains(id) {
                    assert(f.own.push(id).last() == id);
                    assert(f.own.push(id)[f.own.len() as int] == id);
                }
            }
            assert(t1.entries[i].1.own == own2);
            let e2 = (k, FieldM { data: f.data, own: own2 });
            assert(m_add_listener(t1, p, id).entries == t1.entries.update(i, e2));
            assert(t1.entries.update(i, e2) =~= t1.entries);
            assert(m_add_listener(t1, p, id) =~= t1);
        } else {
            match f.data {
                ValM::Tbl(tc) => {
                    let cn = m_add_listener(tc, p.drop_first(), id);
                    let e = (k, FieldM { data: ValM::Tbl(cn), own: f.own });
                    lemma_update_same_key(t.entries, i, e);
                    assert(field_m_wf(f));
                    law_add_listener_idempotent(tc, p.drop_first(), id);
                    assert(t1.entries[i] == e);
                    let e2 = (k, FieldM { data: ValM::Tbl(m_add_listener(cn, p.drop_first(), id)), own: f.own });
                    assert(e2 =~= e);
                    assert(m_add_listener(t1, p, id).entries == t1.entries.update(i, e2));
                    assert(t1.entries.update(i, e2) =~= t1.entries);
                    assert(m_add_listener(t1, p, id) =~= t1);
                },
                _ => {
                    assert(m_add_listener(t, p, id) == t);
                },
            }
        }
    }
}

/// Removal of an absent identity is a no-op: when `id` is not registered on
/// the field that `p` addresses, removal leaves the tree exactly as it was.
pub proof fn law_remove_absent_listener(t: TblM, p: PathM, id: usize)
    requires
        tbl_m_wf(t),
        !m_listener_present(t, p, id),
    ensures
        m_remove_listener(t, p, id) == t,
    decreases p.len(),
{
    if p.len() == 0 || !m_contains(t.entries, p[0]) {
    } else {
        let k = p[0];
        let i = m_at(t.entries, k);
        let f = t.entries[i].1;
        if p.len() == 1 {
            assert(!f.own.contains(id));
            assert(crate::model::own_without(f.own, id) == f.own);
            let e = (k, FieldM { data: f.data, own: f.own });
            assert(e =~= t.entries[i]);
            assert(t.entries.update(i, e) =~= t.entries);
            assert(m_remove_listener(t, p, id) =~= t);
        } else {
            match f.data {
                ValM::Tbl(tc) => {
                    assert(field_m_wf(f));
                    law_remove_absent_listener(tc, p.drop_first(), id);
                    let e = (k, FieldM { data: ValM::Tbl(tc), own: f.own });
                    assert(e =~= t.entries[i]);
                    assert(t.entries.update(i, e) =~= t.entries);
                    assert(m_remove_listener(t, p, id) =~= t);
                },
                _ => {},
            }
        }
    }
}

/// Listener-count consistency: on any well-formed tree, the cached count of
/// every node equals the number of listeners actually registered in its
/// subtree; every operation of this crate preserves well-formedness, so the
/// caches never go stale.
pub proof fn law_listener_count_consistent(t: Table)
    requires
        table_wf(t),
    ensures
        t.child_listener_ct as nat == tbl_listeners(table_view(t)),
{
}

} // verus!
